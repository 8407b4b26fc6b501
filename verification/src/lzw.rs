//! What an encoder writes as LZW codes is what is decoded from them.
use crate::deflate;
use crate::gif;
use vstd::arithmetic::power2;
use vstd::prelude::*;

verus! {

// ---- the encoder ----

/// The strings that an encoder has codes for at first: each color by itself. The two codes behind
/// them stand for none.
pub open spec fn roots(min: nat) -> Seq<Seq<u8>> {
    Seq::new(
        power2::pow2(min) + 2,
        |i: int|
            if i < power2::pow2(min) {
                seq![i as u8]
            } else {
                Seq::<u8>::empty()
            },
    )
}

/// How many binary digits a number has.
pub open spec fn digits(n: nat) -> nat
    decreases n,
{
    if n < 2 {
        1
    } else {
        1 + digits(n / 2)
    }
}

/// How many bits a code is written with: as many as the largest code of the table has digits, and 12
/// at most.
pub open spec fn code_width(table: Seq<Seq<u8>>) -> nat {
    let n = digits((table.len() - 1) as nat);
    if n > 12 {
        12
    } else {
        n
    }
}

/// What an encoder writes: the code that clears the table, or the code of a string of it.
pub enum Step {
    Clear,
    Code(u16),
}

/// The table once a string was written and these colors are left: the string and the next color
/// behind it get the next code.
pub open spec fn table_after(table: Seq<Seq<u8>>, written: Seq<u8>, left: Seq<u8>) -> Seq<Seq<u8>> {
    table.push(
        if left.len() > 0 {
            written.push(left[0])
        } else {
            Seq::empty()
        },
    )
}

/// Whether steps write colors with a table: each code is that of a string with which the colors that
/// are left begin, and the table has room for another.
pub open spec fn writes(steps: Seq<Step>, min: nat, table: Seq<Seq<u8>>, colors: Seq<u8>) -> bool
    decreases steps.len(),
{
    if steps.len() == 0 {
        colors.len() == 0
    } else {
        match steps[0] {
            Step::Clear => writes(steps.drop_first(), min, roots(min), colors),
            Step::Code(c) => {
                let s = table[c as int];
                let left = colors.skip(s.len() as int);
                &&& c < table.len() <= 4096
                &&& s.len() > 0
                &&& s.is_prefix_of(colors)
                &&& writes(steps.drop_first(), min, table_after(table, s, left), left)
            },
        }
    }
}

/// The bits of steps, and the code that ends them.
pub open spec fn steps_bits(
    steps: Seq<Step>,
    min: nat,
    table: Seq<Seq<u8>>,
    colors: Seq<u8>,
) -> Seq<int>
    decreases steps.len(),
{
    let w = code_width(table) as int;
    if steps.len() == 0 {
        deflate::low_first(power2::pow2(min) as int + 1, w)
    } else {
        match steps[0] {
            Step::Clear => deflate::low_first(power2::pow2(min) as int, w) + steps_bits(
                steps.drop_first(),
                min,
                roots(min),
                colors,
            ),
            Step::Code(c) => {
                let s = table[c as int];
                let left = colors.skip(s.len() as int);
                deflate::low_first(c as int, w) + steps_bits(
                    steps.drop_first(),
                    min,
                    table_after(table, s, left),
                    left,
                )
            },
        }
    }
}

/// How many of the colors the string of a code covers, where they begin with it.
pub open spec fn covers(table: Seq<Seq<u8>>, colors: Seq<u8>, k: int) -> nat {
    if table[k].is_prefix_of(colors) {
        table[k].len()
    } else {
        0
    }
}

/// The code up to `k` of the longest string with which the colors begin.
pub open spec fn longest_upto(table: Seq<Seq<u8>>, colors: Seq<u8>, k: int) -> int
    decreases k,
{
    if k <= 0 {
        0
    } else {
        let best = longest_upto(table, colors, k - 1);
        if covers(table, colors, k) > covers(table, colors, best) {
            k
        } else {
            best
        }
    }
}

/// The code of the longest string with which the colors begin.
pub open spec fn longest(table: Seq<Seq<u8>>, colors: Seq<u8>) -> int {
    longest_upto(table, colors, table.len() - 1)
}

/// The steps of an encoder that always takes the longest string, and clears the table when it is
/// full.
pub open spec fn greedy(min: nat, table: Seq<Seq<u8>>, colors: Seq<u8>) -> Seq<Step>
    decreases
            colors.len(),
            (if table.len() > 4096 {
                1int
            } else {
                0
            }),
{
    let c = longest(table, colors);
    let s = table[c];
    let left = colors.skip(s.len() as int);
    if colors.len() == 0 {
        Seq::empty()
    } else if table.len() > 4096 {
        if roots(min).len() > 4096 {
            Seq::empty()
        } else {
            seq![Step::Clear] + greedy(min, roots(min), colors)
        }
    } else if !(0 <= c < table.len() && s.len() > 0 && s.is_prefix_of(colors)) {
        Seq::empty()
    } else {
        seq![Step::Code(c as u16)] + greedy(min, table_after(table, s, left), left)
    }
}

/// What an encoder writes for colors: it clears the table, and then takes the longest string each
/// time.
pub open spec fn encoded(min: nat, colors: Seq<u8>) -> Seq<int> {
    steps_bits(seq![Step::Clear] + greedy(min, roots(min), colors), min, roots(min), colors)
}

// ---- what the encoder does ----

proof fn lemma_digits(n: nat, w: nat)
    requires
        1 <= w,
        power2::pow2((w - 1) as nat) <= n < power2::pow2(w),
    ensures
        digits(n) == w,
    decreases w,
{
    power2::lemma2_to64();
    power2::lemma_pow2_unfold(w);
    if w > 1 {
        power2::lemma_pow2_unfold((w - 1) as nat);
        power2::lemma_pow2_pos((w - 2) as nat);
        lemma_digits(n / 2, (w - 1) as nat);
    }
}

/// The number of colors and the first widths.
proof fn lemma_min(min: nat)
    requires
        2 <= min <= 8,
    ensures
        4 <= power2::pow2(min) <= 256,
        power2::pow2(min + 1) == 2 * power2::pow2(min),
        digits(power2::pow2(min) + 1) == min + 1,
        digits(power2::pow2(min) + 2) == min + 1,
{
    power2::lemma2_to64();
    power2::lemma_pow2_unfold(min + 1);
    if min > 2 {
        power2::lemma_pow2_strictly_increases(2, min);
    }
    if min < 8 {
        power2::lemma_pow2_strictly_increases(min, 8);
    }
    lemma_digits(power2::pow2(min) + 1, min + 1);
    lemma_digits(power2::pow2(min) + 2, min + 1);
}

/// A number and the next one have as many digits, but where the next one is a power of two.
proof fn lemma_next_digits(n: nat)
    requires
        1 <= n,
    ensures
        power2::pow2((digits(n) - 1) as nat) <= n < power2::pow2(digits(n)),
        n + 1 == power2::pow2(digits(n)) ==> digits(n + 1) == digits(n) + 1,
        n + 1 != power2::pow2(digits(n)) ==> digits(n + 1) == digits(n),
    decreases n,
{
    lemma_digits_hold(n);
    let w = digits(n);
    power2::lemma_pow2_unfold(w + 1);
    power2::lemma_pow2_pos(w);
    if n + 1 == power2::pow2(w) {
        lemma_digits(n + 1, w + 1);
    } else {
        lemma_digits(n + 1, w);
    }
}

proof fn lemma_digits_hold(n: nat)
    requires
        1 <= n,
    ensures
        1 <= digits(n),
        power2::pow2((digits(n) - 1) as nat) <= n < power2::pow2(digits(n)),
    decreases n,
{
    power2::lemma2_to64();
    if n >= 2 {
        lemma_digits_hold(n / 2);
        power2::lemma_pow2_unfold(digits(n));
        power2::lemma_pow2_unfold((digits(n) - 1) as nat);
    }
}

/// No string of the table with which the colors begin is longer than the one that is taken.
pub proof fn law_longest_is_taken(table: Seq<Seq<u8>>, colors: Seq<u8>, j: int)
    requires
        0 <= j < table.len(),
        table[j].is_prefix_of(colors),
        table[j].len() > 0,
    ensures
        0 <= longest(table, colors) < table.len(),
        table[longest(table, colors)].is_prefix_of(colors),
        table[longest(table, colors)].len() >= table[j].len(),
{
    lemma_longest(table, colors, table.len() - 1);
    assert(covers(table, colors, j) > 0);
}

proof fn lemma_longest(table: Seq<Seq<u8>>, colors: Seq<u8>, k: int)
    requires
        0 <= k < table.len(),
    ensures
        0 <= longest_upto(table, colors, k) <= k,
        forall|j: int|
            0 <= j <= k ==> #[trigger] covers(table, colors, j) <= covers(
                table,
                colors,
                longest_upto(table, colors, k),
            ),
    decreases k,
{
    if k > 0 {
        lemma_longest(table, colors, k - 1);
    }
}

/// An encoder that always takes the longest string writes the colors.
proof fn lemma_greedy_writes(min: nat, table: Seq<Seq<u8>>, colors: Seq<u8>)
    requires
        2 <= min <= 8,
        power2::pow2(min) <= table.len() <= 4097,
        forall|i: int| 0 <= i < power2::pow2(min) ==> #[trigger] table[i] == seq![i as u8],
        forall|i: int| 0 <= i < colors.len() ==> #[trigger] colors[i] < power2::pow2(min),
    ensures
        writes(greedy(min, table, colors), min, table, colors),
    decreases
            colors.len(),
            (if table.len() > 4096 {
                1int
            } else {
                0
            }),
{
    lemma_min(min);
    if colors.len() > 0 {
        let steps = greedy(min, table, colors);
        if table.len() > 4096 {
            lemma_greedy_writes(min, roots(min), colors);
            assert(steps.drop_first() =~= greedy(min, roots(min), colors));
        } else {
            let j = colors[0] as int;
            assert(table[j].is_prefix_of(colors));
            law_longest_is_taken(table, colors, j);
            let c = longest(table, colors);
            let s = table[c];
            let left = colors.skip(s.len() as int);
            let next = table_after(table, s, left);
            assert forall|i: int| 0 <= i < left.len() implies #[trigger] left[i] < power2::pow2(min) by {
                assert(left[i] == colors[i + s.len()]);
            }
            lemma_greedy_writes(min, next, left);
            assert(steps.drop_first() =~= greedy(min, next, left));
        }
    }
}

// ---- what the decoder reads ----

/// How the decoder stands to the encoder: it has the strings that were added but for the last one,
/// which it does not know yet.
spec fn in_step(
    min: nat,
    dict: Seq<Seq<u8>>,
    width: nat,
    prev: Option<Seq<u8>>,
    table: Seq<Seq<u8>>,
    colors: Seq<u8>,
) -> bool {
    &&& width == code_width(table)
    &&& power2::pow2(min) + 2 <= dict.len() <= 4096
    &&& forall|i: int|
        0 <= i < dict.len() && i < table.len() ==> (#[trigger] dict[i]).len() > 0 && (table[i].len() > 0
            ==> table[i] == dict[i])
    &&& match prev {
        None => table.len() == dict.len() == power2::pow2(min) + 2,
        Some(t) => {
            &&& t.len() > 0
            &&& table.len() == dict.len() + 1
            &&& colors.len() > 0 ==> table.last() == t.push(colors[0])
            &&& colors.len() == 0 ==> table.last().len() == 0
        },
    }
    &&& table[power2::pow2(min) as int].len() == 0
    &&& table[power2::pow2(min) as int + 1].len() == 0
}

proof fn lemma_fresh(min: nat, colors: Seq<u8>)
    requires
        2 <= min <= 8,
    ensures
        in_step(min, gif::base_dict(min), min + 1, None, roots(min), colors),
{
    lemma_min(min);
}

/// A code that the table holds has no more digits than codes are written with.
proof fn lemma_code_fits(table: Seq<Seq<u8>>, c: int)
    requires
        0 <= c < table.len() <= 4097,
        c < 4096,
    ensures
        c < power2::pow2(code_width(table)),
        1 <= code_width(table) <= 12,
{
    power2::lemma2_to64();
    let n = (table.len() - 1) as nat;
    if n >= 1 {
        lemma_digits_hold(n);
    }
}

/// The width of the codes once another code is in the table.
proof fn lemma_width_grows(dict_len: nat, table: Seq<Seq<u8>>, next: Seq<Seq<u8>>)
    requires
        next.len() == table.len() + 1,
        dict_len == table.len() - 1,
        2 <= table.len() <= 4096,
    ensures
        gif::grown(dict_len + 1, code_width(table)) == code_width(next),
{
    power2::lemma2_to64();
    let n = dict_len;
    lemma_next_digits(n);
    if digits(n) > 12 {
        power2::lemma_pow2_strictly_increases(11, (digits(n) - 1) as nat);
        if digits(n) - 1 > 12 {
            power2::lemma_pow2_strictly_increases(12, (digits(n) - 1) as nat);
        }
    }
    if digits(n) == 12 {
        assert(gif::grown(dict_len + 1, 12) == 12);
    }
}

/// Steps that write colors are read as those colors.
proof fn lemma_steps_are_read(
    data: Seq<u8>,
    min: nat,
    dict: Seq<Seq<u8>>,
    width: nat,
    prev: Option<Seq<u8>>,
    p: int,
    out: Seq<u8>,
    steps: Seq<Step>,
    table: Seq<Seq<u8>>,
    colors: Seq<u8>,
)
    requires
        2 <= min <= 8,
        in_step(min, dict, width, prev, table, colors),
        writes(steps, min, table, colors),
        deflate::holds(data, p, steps_bits(steps, min, table, colors)),
    ensures
        gif::lzw(data, min, dict, width, prev, p, out) == Some(out + colors),
    decreases steps.len(),
{
    lemma_min(min);
    let clear = power2::pow2(min) as int;
    let w = width as int;
    lemma_code_fits(table, clear);
    lemma_code_fits(table, clear + 1);
    if steps.len() == 0 {
        deflate::lemma_number_is_read(data, p, clear + 1, width);
        assert(out + colors =~= out);
    } else {
        let rest = steps.drop_first();
        match steps[0] {
            Step::Clear => {
                deflate::lemma_holds_parts(
                    data,
                    p,
                    deflate::low_first(clear, w),
                    steps_bits(rest, min, roots(min), colors),
                );
                deflate::lemma_number_is_read(data, p, clear, width);
                lemma_fresh(min, colors);
                lemma_steps_are_read(
                    data,
                    min,
                    gif::base_dict(min),
                    min + 1,
                    None,
                    p + w,
                    out,
                    rest,
                    roots(min),
                    colors,
                );
            },
            Step::Code(c) => {
                let s = table[c as int];
                let left = colors.skip(s.len() as int);
                let next = table_after(table, s, left);
                lemma_code_fits(table, c as int);
                deflate::lemma_holds_parts(
                    data,
                    p,
                    deflate::low_first(c as int, w),
                    steps_bits(rest, min, next, left),
                );
                deflate::lemma_number_is_read(data, p, c as int, width);
                assert(s[0] == colors[0]);
                assert(out + s + left =~= out + colors);
                match prev {
                    None => {
                        assert(dict[c as int] == s);
                        assert(in_step(min, dict, width, Some(s), next, left));
                        lemma_steps_are_read(
                            data,
                            min,
                            dict,
                            width,
                            Some(s),
                            p + w,
                            out + s,
                            rest,
                            next,
                            left,
                        );
                    },
                    Some(t) => {
                        let more = dict.push(t.push(s[0]));
                        if c < dict.len() {
                            assert(dict[c as int] == s);
                        } else {
                            assert(s == t.push(colors[0]));
                            assert(s[0] == t[0]);
                        }
                        lemma_width_grows(dict.len(), table, next);
                        let wider = gif::grown(more.len(), width);
                        assert forall|i: int| 0 <= i < more.len() && i < next.len() implies (
                        #[trigger] more[i]).len() > 0 && (next[i].len() > 0 ==> next[i] == more[i]) by {
                            if i < dict.len() {
                                assert(dict[i].len() > 0);
                                assert(next[i] == table[i]);
                            } else {
                                assert(next[i] == table.last());
                            }
                        }
                        assert(in_step(min, more, wider, Some(s), next, left));
                        lemma_steps_are_read(
                            data,
                            min,
                            more,
                            wider,
                            Some(s),
                            p + w,
                            out + s,
                            rest,
                            next,
                            left,
                        );
                    },
                }
            },
        }
    }
}

/// Whatever strings an encoder takes and whenever it clears its table, the colors that it writes are
/// read: as many as are asked for, or none where there are fewer.
pub proof fn law_written_colors_are_read(
    data: Seq<u8>,
    min: u8,
    steps: Seq<Step>,
    colors: Seq<u8>,
    expect: nat,
)
    requires
        2 <= min <= 8,
        writes(steps, min as nat, roots(min as nat), colors),
        deflate::holds(data, 0, steps_bits(steps, min as nat, roots(min as nat), colors)),
    ensures
        gif::lzw_colors(data, min, expect) == (if expect <= colors.len() {
            Some(colors.take(expect as int))
        } else {
            None
        }),
{
    let m = min as nat;
    lemma_fresh(m, colors);
    lemma_steps_are_read(
        data,
        m,
        gif::base_dict(m),
        m + 1,
        None,
        0,
        Seq::empty(),
        steps,
        roots(m),
        colors,
    );
    assert(Seq::<u8>::empty() + colors =~= colors);
}

/// Decoding gives back what was encoded, for all colors.
pub proof fn law_decoding_undoes_encoding(data: Seq<u8>, min: u8, colors: Seq<u8>)
    requires
        2 <= min <= 8,
        forall|i: int| 0 <= i < colors.len() ==> #[trigger] colors[i] < power2::pow2(min as nat),
        deflate::holds(data, 0, encoded(min as nat, colors)),
    ensures
        gif::lzw_colors(data, min, colors.len()) == Some(colors),
{
    let m = min as nat;
    let steps = seq![Step::Clear] + greedy(m, roots(m), colors);
    lemma_min(m);
    lemma_greedy_writes(m, roots(m), colors);
    assert(steps.drop_first() =~= greedy(m, roots(m), colors));
    law_written_colors_are_read(data, min, steps, colors, colors.len());
    assert(colors.take(colors.len() as int) =~= colors);
}

} // verus!
