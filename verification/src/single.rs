//! Arithmetic in single precision, on integers: a number is a multiple of a small unit, and each
//! result is rounded to 24 significant bits, to the even one where two are as near.
use vstd::arithmetic::power2;
use vstd::prelude::*;

verus! {

/// One, in the units of a number.
pub const ONE: u128 = 0x1_0000_0000_0000_0000;

/// The value of the last of the 24 bits of a number whose whole part is `q`, at least `unit`.
pub open spec fn last_bit(q: nat, unit: nat) -> nat
    decreases q - unit,
{
    if unit == 0 || q / unit < 0x100_0000 {
        unit
    } else {
        proof {
            lemma_doubled(q, unit);
        }
        last_bit(q, 2 * unit)
    }
}

pub proof fn lemma_doubled(q: nat, unit: nat)
    requires
        unit > 0,
        q / unit >= 0x100_0000,
    ensures
        2 * unit <= q,
{
    assert(2 * unit <= q) by (nonlinear_arith)
        requires
            unit > 0,
            q / unit >= 0x100_0000,
    ;
}

/// The number with 24 significant bits that is nearest to `num / den`.
#[verifier::opaque]
pub open spec fn rounded(num: nat, den: nat) -> nat {
    let q = num / den;
    let bit = last_bit(q, 1);
    let low = q / bit * bit;
    let middle = (2 * low + bit) * den;
    if 2 * num < middle || (2 * num == middle && q / bit % 2 == 0) {
        low
    } else {
        low + bit
    }
}

proof fn lemma_last_bit(q: nat, unit: nat)
    requires
        unit > 0,
        unit == 1 || q / unit >= 0x80_0000,
    ensures
        last_bit(q, unit) > 0,
        last_bit(q, unit) == 1 || q / last_bit(q, unit) >= 0x80_0000,
        last_bit(q, unit) == 1 || last_bit(q, unit) <= q,
    decreases q - unit,
{
    if unit > 1 {
        assert(unit <= q) by (nonlinear_arith)
            requires
                unit > 1,
                q / unit >= 0x80_0000,
        ;
    }
    if q / unit >= 0x100_0000 {
        lemma_doubled(q, unit);
        assert(q / (2 * unit) >= 0x80_0000) by (nonlinear_arith)
            requires
                unit > 0,
                q / unit >= 0x100_0000,
        ;
        lemma_last_bit(q, 2 * unit);
    }
}

proof fn lemma_low(num: nat, den: nat, bit: nat)
    requires
        den > 0,
        bit > 0,
        bit <= num / den || bit == 1,
    ensures
        num / den / bit * bit <= num / den,
        (2 * (num / den / bit * bit) + bit) * den <= 3 * num + den,
        num / den <= num,
        bit * den <= num + den,
{
    let q = num / den;
    let low = q / bit * bit;
    assert(q * den <= num) by (nonlinear_arith)
        requires
            den > 0,
            q == num / den,
    ;
    assert(low <= q) by (nonlinear_arith)
        requires
            bit > 0,
            low == q / bit * bit,
    ;
    assert(low * den <= q * den) by (nonlinear_arith)
        requires
            low <= q,
    ;
    assert(q <= q * den) by (nonlinear_arith)
        requires
            den > 0,
    ;
    assert(bit * den <= q * den + den) by (nonlinear_arith)
        requires
            bit <= q || bit == 1,
    ;
    assert(bit == 1 ==> bit * den == den) by (nonlinear_arith);
    assert(bit <= q ==> bit * den <= q * den) by (nonlinear_arith);
    assert((2 * low + bit) * den == 2 * (low * den) + bit * den) by (nonlinear_arith);
}

/// The number with 24 significant bits that is nearest to `num / den`.
pub fn round(num: u128, den: u128) -> (r: u128)
    requires
        0 < den,
        num < 0x10_0000_0000_0000_0000_0000_0000_0000,
        den < 0x10_0000_0000_0000_0000_0000_0000_0000,
    ensures
        r == rounded(num as nat, den as nat),
        r <= 2 * (num / den) + 1,
{
    let q: u128 = num / den;
    let mut bit: u128 = 1;
    while q / bit >= 0x100_0000
        invariant
            bit > 0,
            bit <= q || bit == 1,
            last_bit(q as nat, 1) == last_bit(q as nat, bit as nat),
        decreases q + 1 - bit,
    {
        proof {
            lemma_doubled(q as nat, bit as nat);
        }
        bit = 2 * bit;
    }
    proof {
        lemma_last_bit(q as nat, 1);
        lemma_low(num as nat, den as nat, bit as nat);
        reveal(rounded);
    }
    let low: u128 = q / bit * bit;
    let middle: u128 = (2 * low + bit) * den;
    if 2 * num < middle || (2 * num == middle && q / bit % 2 == 0) {
        low
    } else {
        low + bit
    }
}

/// A rounded quotient is off the quotient by at most one part in `2^23`, or one unit.
pub proof fn lemma_rounded_quotient(num: nat, den: nat)
    requires
        den > 0,
    ensures
        rounded(num, den) <= num / den + num / den / 0x80_0000 + 1,
        rounded(num, den) >= num / den - num / den / 0x80_0000,
{
    reveal(rounded);
    let q = num / den;
    let bit = last_bit(q, 1);
    lemma_last_bit(q, 1);
    let low = q / bit * bit;
    assert(low <= q) by (nonlinear_arith)
        requires
            bit > 0,
            low == q / bit * bit,
    ;
    if bit > 1 {
        assert(bit <= q / 0x80_0000) by (nonlinear_arith)
            requires
                bit > 0,
                q / bit >= 0x80_0000,
        ;
        assert(q - bit <= low) by (nonlinear_arith)
            requires
                bit > 0,
                low == q / bit * bit,
        ;
    } else {
        assert(low == q) by (nonlinear_arith)
            requires
                bit == 1,
                low == q / bit * bit,
        ;
    }
}

/// A rounded number is off by at most one part in `2^23`.
pub proof fn law_rounding_is_small(n: nat)
    ensures
        n - n / 0x80_0000 <= rounded(n, 1) <= n + n / 0x80_0000,
{
    reveal(rounded);
    let bit = last_bit(n, 1);
    lemma_last_bit(n, 1);
    assert(n / 1 == n);
    let low = n / bit * bit;
    if bit == 1 {
        assert(n / 1 * 1 == n);
    } else {
        assert(bit <= n / 0x80_0000) by (nonlinear_arith)
            requires
                bit > 0,
                n / bit >= 0x80_0000,
        ;
        assert(n - bit <= low <= n) by (nonlinear_arith)
            requires
                bit > 0,
                low == n / bit * bit,
        ;
    }
}

/// A number below `2^24` units is exact.
pub proof fn law_small_is_exact(n: nat)
    requires
        n < 0x100_0000,
    ensures
        rounded(n, 1) == n,
{
    reveal(rounded);
    assert(n / 1 == n);
    assert(last_bit(n, 1) == 1);
    assert(n / 1 * 1 == n);
}

/// The last bit of a multiple of a power of two is at most that power.
proof fn lemma_last_bit_of_multiple(k: nat, j: nat, i: nat) -> (n: nat)
    requires
        k < 0x100_0000,
        i <= j,
    ensures
        i <= n <= j,
        last_bit(k * power2::pow2(j), power2::pow2(i)) == power2::pow2(n),
    decreases j - i,
{
    let q = k * power2::pow2(j);
    power2::lemma_pow2_pos(i);
    power2::lemma_pow2_pos(j);
    if q / power2::pow2(i) < 0x100_0000 {
        i
    } else {
        if i == j {
            vstd::arithmetic::div_mod::lemma_div_multiples_vanish(k as int, power2::pow2(j) as int);
            assert(q == power2::pow2(j) * k) by (nonlinear_arith)
                requires
                    q == k * power2::pow2(j),
            ;
        }
        power2::lemma_pow2_unfold(i + 1);
        lemma_last_bit_of_multiple(k, j, i + 1)
    }
}

/// A number of at most 24 bits, times a power of two, is exact.
pub proof fn law_few_bits_are_exact(k: nat, j: nat, den: nat)
    requires
        k < 0x100_0000,
        den > 0,
    ensures
        rounded(k * power2::pow2(j) * den, den) == k * power2::pow2(j),
{
    reveal(rounded);
    let q = k * power2::pow2(j);
    power2::lemma2_to64();
    let n = lemma_last_bit_of_multiple(k, j, 0);
    let bit = power2::pow2(n);
    power2::lemma_pow2_pos(n);
    assert((q * den) / den == q) by (nonlinear_arith)
        requires
            den > 0,
    ;
    power2::lemma_pow2_adds(n, (j - n) as nat);
    let m = k * power2::pow2((j - n) as nat);
    assert(q == m * bit) by (nonlinear_arith)
        requires
            q == k * power2::pow2(j),
            m == k * power2::pow2((j - n) as nat),
            power2::pow2(j) == bit * power2::pow2((j - n) as nat),
    ;
    assert((m * bit) / bit == m) by (nonlinear_arith)
        requires
            bit > 0,
    ;
    assert(2 * (q * den) < (2 * q + bit) * den) by (nonlinear_arith)
        requires
            bit > 0,
            den > 0,
    ;
}

/// The distance of `v` from `num / den`, in parts of `den`.
pub open spec fn off_by(v: nat, num: nat, den: nat) -> int {
    if v * den < num {
        num - v * den
    } else {
        v * den - num
    }
}

/// The last bit is a power of two, and where it is not 1, there are 24 bits with it.
proof fn lemma_last_bit_is_power(q: nat, i: nat) -> (n: nat)
    requires
        i > 0 ==> q / power2::pow2(i) >= 0x80_0000,
    ensures
        last_bit(q, power2::pow2(i)) == power2::pow2(n),
        n >= i,
        n > 0 ==> q / power2::pow2(n) >= 0x80_0000,
        q / power2::pow2(n) < 0x100_0000,
    decreases q - power2::pow2(i),
{
    power2::lemma_pow2_pos(i);
    let unit = power2::pow2(i);
    if q / unit < 0x100_0000 {
        i
    } else {
        power2::lemma_pow2_unfold(i + 1);
        lemma_doubled(q, unit);
        assert(q / (2 * unit) >= 0x80_0000) by (nonlinear_arith)
            requires
                unit > 0,
                q / unit >= 0x100_0000,
        ;
        lemma_last_bit_is_power(q, i + 1)
    }
}

/// Numbers with 24 bits lie no closer to each other around a number than its last bit.
proof fn lemma_neighbours(q: nat, n: nat, k: nat, j: nat)
    requires
        k < 0x100_0000,
        n > 0 ==> q / power2::pow2(n) >= 0x80_0000,
    ensures
        ({
            let bit = power2::pow2(n);
            let low = q / bit * bit;
            k * power2::pow2(j) <= low || k * power2::pow2(j) >= low + bit
        }),
{
    let bit = power2::pow2(n);
    power2::lemma_pow2_pos(n);
    power2::lemma_pow2_pos(j);
    let v = k * power2::pow2(j);
    let m = q / bit;
    let low = m * bit;
    if j >= n {
        power2::lemma_pow2_adds(n, (j - n) as nat);
        let c = k * power2::pow2((j - n) as nat);
        assert(v == c * bit) by (nonlinear_arith)
            requires
                v == k * power2::pow2(j),
                c == k * power2::pow2((j - n) as nat),
                power2::pow2(j) == bit * power2::pow2((j - n) as nat),
        ;
        assert(v <= low || v >= low + bit) by (nonlinear_arith)
            requires
                v == c * bit,
                low == m * bit,
                bit > 0,
        {
            if c <= m {
                assert(c * bit <= m * bit);
            } else {
                assert(c * bit >= (m + 1) * bit);
                assert((m + 1) * bit == m * bit + bit);
            }
        }
    } else {
        let h = power2::pow2(j);
        power2::lemma_pow2_unfold(j + 1);
        if j + 1 < n {
            power2::lemma_pow2_strictly_increases(j + 1, n);
        }
        assert(2 * h <= bit);
        assert(v <= low) by (nonlinear_arith)
            requires
                v == k * h,
                k < 0x100_0000,
                m >= 0x80_0000,
                2 * h <= bit,
                low == m * bit,
                h > 0,
        {
            assert(k * h <= 0x100_0000 * h);
            assert(0x100_0000 * h <= 0x80_0000 * bit);
            assert(0x80_0000 * bit <= m * bit);
        }
    }
}

/// A number is rounded to the nearest one with 24 significant bits: no other is nearer; and of two
/// that are as near it is the one whose last bit is not set.
pub proof fn law_rounding_is_nearest(num: nat, den: nat, k: nat, j: nat)
    requires
        den > 0,
        k < 0x100_0000,
    ensures
        off_by(rounded(num, den), num, den) <= off_by(k * power2::pow2(j), num, den),
        ({
            let bit = last_bit(num / den, 1);
            &&& rounded(num, den) % bit == 0
            &&& k * power2::pow2(j) != rounded(num, den) && off_by(rounded(num, den), num, den) == off_by(
                k * power2::pow2(j),
                num,
                den,
            ) ==> rounded(num, den) / bit % 2 == 0
        }),
{
    reveal(rounded);
    power2::lemma2_to64();
    let q = num / den;
    let n = lemma_last_bit_is_power(q, 0);
    let bit = power2::pow2(n);
    power2::lemma_pow2_pos(n);
    let m = q / bit;
    let low = m * bit;
    let v = k * power2::pow2(j);
    lemma_neighbours(q, n, k, j);
    let r = rounded(num, den);
    vstd::arithmetic::div_mod::lemma_fundamental_div_mod(num as int, den as int);
    vstd::arithmetic::div_mod::lemma_fundamental_div_mod(q as int, bit as int);
    // The number itself lies between the two neighbours.
    assert(low * den <= num < (low + bit) * den) by (nonlinear_arith)
        requires
            num == den * q + num % den,
            0 <= num % den < den,
            q == bit * m + q % bit,
            0 <= q % bit < bit,
            low == m * bit,
            den > 0,
            bit > 0,
    {
        assert(low <= q < low + bit);
        assert(low * den <= q * den);
        assert((q + 1) * den <= (low + bit) * den);
        assert((q + 1) * den == q * den + den);
    }
    assert((2 * low + bit) * den == low * den + (low + bit) * den) by (nonlinear_arith);
    if v <= low {
        assert(v * den <= low * den) by (nonlinear_arith)
            requires
                v <= low,
        ;
        if v < low {
            assert(v * den < low * den) by (nonlinear_arith)
                requires
                    v < low,
                    den > 0,
            ;
        }
    } else {
        assert(v * den >= (low + bit) * den) by (nonlinear_arith)
            requires
                v >= low + bit,
        ;
        if v > low + bit {
            assert(v * den > (low + bit) * den) by (nonlinear_arith)
                requires
                    v > low + bit,
                    den > 0,
            ;
        }
    }
    vstd::arithmetic::div_mod::lemma_fundamental_div_mod_converse(low as int, bit as int, m as int, 0);
    assert((m + 1) * bit == low + bit) by (nonlinear_arith)
        requires
            low == m * bit,
    ;
    vstd::arithmetic::div_mod::lemma_fundamental_div_mod_converse((low + bit) as int, bit as int, (m + 1) as int, 0);
}

} // verus!
