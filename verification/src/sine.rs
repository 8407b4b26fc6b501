//! A sine wave in whole numbers.
use vstd::prelude::*;

verus! {

/// A sine wave of 256 steps, between -1024 and 1024.
pub const SINE: [i32; 256] = [
    0, 25, 50, 75, 100, 125, 150, 175, 199, 224, 248, 273, 297, 321, 344, 368,
    391, 414, 437, 460, 482, 504, 526, 547, 568, 589, 609, 629, 649, 668, 687, 706,
    724, 741, 758, 775, 791, 807, 822, 837, 851, 865, 878, 890, 903, 914, 925, 936,
    946, 955, 964, 972, 979, 986, 993, 999, 1004, 1008, 1012, 1016, 1019, 1021, 1022, 1023,
    1024, 1023, 1022, 1021, 1019, 1016, 1012, 1008, 1004, 999, 993, 986, 979, 972, 964, 955,
    946, 936, 925, 914, 903, 890, 878, 865, 851, 837, 822, 807, 791, 775, 758, 741,
    724, 706, 687, 668, 649, 629, 609, 589, 568, 547, 526, 504, 482, 460, 437, 414,
    391, 368, 344, 321, 297, 273, 248, 224, 199, 175, 150, 125, 100, 75, 50, 25,
    0, -25, -50, -75, -100, -125, -150, -175, -199, -224, -248, -273, -297, -321, -344, -368,
    -391, -414, -437, -460, -482, -504, -526, -547, -568, -589, -609, -629, -649, -668, -687, -706,
    -724, -741, -758, -775, -791, -807, -822, -837, -851, -865, -878, -890, -903, -914, -925, -936,
    -946, -955, -964, -972, -979, -986, -993, -999, -1004, -1008, -1012, -1016, -1019, -1021, -1022, -1023,
    -1024, -1023, -1022, -1021, -1019, -1016, -1012, -1008, -1004, -999, -993, -986, -979, -972, -964, -955,
    -946, -936, -925, -914, -903, -890, -878, -865, -851, -837, -822, -807, -791, -775, -758, -741,
    -724, -706, -687, -668, -649, -629, -609, -589, -568, -547, -526, -504, -482, -460, -437, -414,
    -391, -368, -344, -321, -297, -273, -248, -224, -199, -175, -150, -125, -100, -75, -50, -25,
];

/// The height of the wave at step `i`.
#[verifier::opaque]
pub open spec fn value(i: int) -> i32 {
    SINE@[i]
}

proof fn lemma_bounds(i: int)
    requires
        0 <= i < 256,
    ensures
        -1024 <= SINE@[i] <= 1024,
{
    assert(forall|k: int| 0 <= k < 64 ==> -1024 <= #[trigger] SINE@[k] <= 1024);
    assert(forall|k: int| 64 <= k < 128 ==> -1024 <= #[trigger] SINE@[k] <= 1024);
    assert(forall|k: int| 128 <= k < 192 ==> -1024 <= #[trigger] SINE@[k] <= 1024);
    assert(forall|k: int| 192 <= k < 256 ==> -1024 <= #[trigger] SINE@[k] <= 1024);
}

/// The height of the wave at step `i`.
pub fn height(i: u8) -> (r: i32)
    ensures
        r == value(i as int),
        -1024 <= r <= 1024,
{
    reveal(value);
    proof {
        lemma_bounds(i as int);
    }
    SINE[i as usize]
}

spec fn half_turn(i: int) -> bool {
    SINE@[(i + 128) % 256] == -SINE@[i]
}

spec fn mirrored(i: int) -> bool {
    SINE@[(128 - i) % 256] == SINE@[i]
}

spec fn curved(i: int) -> bool {
    -22_000 <= 10_000 * (SINE@[i + 1] + SINE@[i - 1]) - 19_994 * SINE@[i] <= 22_000
}

proof fn lemma_half_turn(i: int)
    requires
        0 <= i < 256,
    ensures
        half_turn(i),
{
    assert(forall|k: int| 0 <= k < 64 ==> #[trigger] half_turn(k));
    assert(forall|k: int| 64 <= k < 128 ==> #[trigger] half_turn(k));
    assert(forall|k: int| 128 <= k < 192 ==> #[trigger] half_turn(k));
    assert(forall|k: int| 192 <= k < 256 ==> #[trigger] half_turn(k));
}

proof fn lemma_mirrored(i: int)
    requires
        0 <= i < 256,
    ensures
        mirrored(i),
{
    assert(forall|k: int| 0 <= k < 64 ==> #[trigger] mirrored(k));
    assert(forall|k: int| 64 <= k < 128 ==> #[trigger] mirrored(k));
    assert(forall|k: int| 128 <= k < 192 ==> #[trigger] mirrored(k));
    assert(forall|k: int| 192 <= k < 256 ==> #[trigger] mirrored(k));
}

proof fn lemma_curved(i: int)
    requires
        1 <= i <= 64,
    ensures
        curved(i),
{
    assert(forall|k: int| 1 <= k < 16 ==> #[trigger] curved(k));
    assert(forall|k: int| 16 <= k < 32 ==> #[trigger] curved(k));
    assert(forall|k: int| 32 <= k < 48 ==> #[trigger] curved(k));
    assert(forall|k: int| 48 <= k < 65 ==> #[trigger] curved(k));
}

proof fn lemma_crest(i: int)
    requires
        0 <= i < 256,
    ensures
        -1024 <= SINE@[i] <= 1024,
        SINE@[i] == 1024 <==> i == 64,
        SINE@[64] == 1024,
        SINE@[0] == 0,
{
    lemma_bounds(i);
    assert(forall|k: int| 0 <= k < 64 ==> #[trigger] SINE@[k] < 1024);
    assert(forall|k: int| 65 <= k < 128 ==> #[trigger] SINE@[k] < 1024);
    assert(forall|k: int| 128 <= k < 192 ==> #[trigger] SINE@[k] < 1024);
    assert(forall|k: int| 192 <= k < 256 ==> #[trigger] SINE@[k] < 1024);
}

/// The wave is a sine wave: it begins at zero, has its crest after a quarter, is mirrored there, is
/// turned over after a half, and bends back toward zero in proportion to its height.
pub proof fn law_wave_is_a_sine(i: int)
    requires
        0 <= i < 256,
    ensures
        value(0) == 0,
        value(64) == 1024,
        -1024 <= value(i) <= 1024,
        value(i) == 1024 <==> i == 64,
        value((i + 128) % 256) == -value(i),
        value((128 - i) % 256) == value(i),
        1 <= i <= 64 ==> -22_000 <= 10_000 * (value(i + 1) + value(i - 1)) - 19_994 * value(i) <= 22_000,
{
    reveal(value);
    lemma_crest(i);
    lemma_half_turn(i);
    lemma_mirrored(i);
    if 1 <= i <= 64 {
        lemma_curved(i);
    }
}

} // verus!
