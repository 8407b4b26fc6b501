//! Bytes read as a stream of bits, the lowest bit of each byte first.
use vstd::arithmetic::power2;
use vstd::prelude::*;

verus! {

/// The bit at position `p`, 0 or 1.
pub open spec fn bit_at(data: Seq<u8>, p: int) -> nat {
    ((data[p / 8] >> ((p % 8) as u8)) & 1) as nat
}

/// The number that the `n` bits from `p` on write, the lowest first.
pub open spec fn bits_value(data: Seq<u8>, p: int, n: nat) -> nat
    decreases n,
{
    if n == 0 {
        0
    } else {
        bits_value(data, p, (n - 1) as nat) + bit_at(data, p + n - 1) * power2::pow2((n - 1) as nat)
    }
}

pub proof fn lemma_bit_at(data: Seq<u8>, p: int)
    ensures
        bit_at(data, p) <= 1,
{
    let b: u8 = data[p / 8];
    let s: u8 = (p % 8) as u8;
    assert((b >> s) & 1 <= 1) by (bit_vector)
        requires
            s < 8,
    ;
}

pub proof fn lemma_bits_value(data: Seq<u8>, p: int, n: nat)
    ensures
        bits_value(data, p, n) < power2::pow2(n),
    decreases n,
{
    power2::lemma2_to64();
    if n > 0 {
        let m = (n - 1) as nat;
        lemma_bits_value(data, p, m);
        lemma_bit_at(data, p + m);
        power2::lemma_pow2_unfold(n);
        let b = bit_at(data, p + m);
        assert(b * power2::pow2(m) <= power2::pow2(m)) by (nonlinear_arith)
            requires
                b <= 1,
        ;
    }
}

/// 2 to the power of `n`.
pub fn two_to(n: u32) -> (r: u32)
    requires
        n <= 20,
    ensures
        r == power2::pow2(n as nat),
{
    proof {
        power2::lemma2_to64();
    }
    let mut r: u32 = 1;
    let mut i: u32 = 0;
    while i < n
        invariant
            i <= n <= 20,
            r == power2::pow2(i as nat),
        decreases n - i,
    {
        proof {
            power2::lemma2_to64();
            power2::lemma_pow2_unfold((i + 1) as nat);
            power2::lemma_pow2_strictly_increases(i as nat, 31);
        }
        r = r * 2;
        i = i + 1;
    }
    r
}

/// A reader of bits.
pub struct Bits<'a> {
    pub data: &'a [u8],
    /// The byte that is read next.
    pub byte: usize,
    /// The bit of it that is read next.
    pub bit: u8,
}

impl<'a> Bits<'a> {
    /// The place is in the data or at its end.
    pub open spec fn wf(self) -> bool {
        &&& self.byte <= self.data@.len()
        &&& self.bit < 8
        &&& self.byte == self.data@.len() ==> self.bit == 0
    }

    /// How many bits have been read.
    pub open spec fn pos(self) -> int {
        self.byte * 8 + self.bit
    }

    /// A reader at the start of the data.
    pub fn new(data: &'a [u8]) -> (r: Self)
        ensures
            r.wf(),
            r.data == data,
            r.pos() == 0,
    {
        Bits { data, byte: 0, bit: 0 }
    }

    /// The next bit; `None` at the end.
    pub fn read_bit(&mut self) -> (r: Option<u32>)
        requires
            old(self).wf(),
        ensures
            final(self).wf(),
            final(self).data == old(self).data,
            r == (if old(self).pos() < old(self).data@.len() * 8 {
                Some(bit_at(old(self).data@, old(self).pos()) as u32)
            } else {
                None::<u32>
            }),
            final(self).pos() == old(self).pos() + (if r is Some {
                1int
            } else {
                0
            }),
    {
        if self.byte >= self.data.len() {
            return None;
        }
        let b: u8 = (self.data[self.byte] >> self.bit) & 1;
        proof {
            assert(self.pos() / 8 == self.byte as int);
            assert(self.pos() % 8 == self.bit as int);
        }
        if self.bit == 7 {
            self.bit = 0;
            self.byte = self.byte + 1;
        } else {
            self.bit = self.bit + 1;
        }
        Some(b as u32)
    }

    /// The number that the next `n` bits write; `None` where fewer are left.
    pub fn read(&mut self, n: u32) -> (r: Option<u32>)
        requires
            old(self).wf(),
            n <= 16,
        ensures
            final(self).wf(),
            final(self).data == old(self).data,
            r == (if old(self).pos() + n <= old(self).data@.len() * 8 {
                Some(bits_value(old(self).data@, old(self).pos(), n as nat) as u32)
            } else {
                None::<u32>
            }),
            r matches Some(v) ==> v == bits_value(old(self).data@, old(self).pos(), n as nat) && v
                < power2::pow2(n as nat) && final(self).pos() == old(self).pos() + n,
    {
        proof {
            power2::lemma2_to64();
        }
        let ghost p = self.pos();
        let ghost d = self.data@;
        let mut v: u32 = 0;
        let mut unit: u32 = 1;
        let mut i: u32 = 0;
        while i < n
            invariant
                i <= n <= 16,
                self.wf(),
                self.data@ == d,
                self.data == old(self).data,
                p == old(self).pos(),
                self.pos() == p + i,
                v == bits_value(d, p, i as nat),
                v < power2::pow2(i as nat),
                unit == power2::pow2(i as nat),
                p + i <= d.len() * 8,
            decreases n - i,
        {
            proof {
                power2::lemma2_to64();
                power2::lemma_pow2_unfold((i + 1) as nat);
                power2::lemma_pow2_strictly_increases(i as nat, 17);
                lemma_bit_at(d, p + i);
                lemma_bits_value(d, p, (i + 1) as nat);
            }
            match self.read_bit() {
                Some(b) => {
                    assert(b * unit <= unit) by (nonlinear_arith)
                        requires
                            b <= 1,
                    ;
                    v = v + b * unit;
                },
                None => {
                    return None;
                },
            }
            unit = unit * 2;
            i = i + 1;
        }
        Some(v)
    }

    /// Goes on to the start of the next byte, if the place is inside one.
    pub fn align(&mut self)
        requires
            old(self).wf(),
        ensures
            final(self).wf(),
            final(self).data == old(self).data,
            final(self).pos() == (old(self).pos() + 7) / 8 * 8,
    {
        if self.bit != 0 {
            assert(self.byte < self.data.len());
            self.bit = 0;
            self.byte = self.byte + 1;
        }
    }
}

} // verus!
