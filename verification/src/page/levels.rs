//! The brightness levels: where a stretch should start and end, so that the paper
//! comes out white and the writing black, read off the picture's own histograms.

use vstd::prelude::*;

verus! {

/// The two ends of a brightness stretch, per colour channel.
///
/// `black` is the brightness that becomes fully black, `white` the one that becomes
/// fully white. Keeping the three channels apart is what removes a colour cast: warm
/// light lifts red more than blue, so red needs a higher white end than blue to make
/// the paper come out neutral.
#[derive(Debug, Clone, Copy, PartialEq, Eq)]
pub struct Levels {
    pub black: [u8; 3],
    pub white: [u8; 3],
}

impl Levels {
    /// Levels that change nothing.
    pub fn unchanged() -> (l: Levels)
        ensures
            l.black@ == seq![0u8, 0u8, 0u8],
            l.white@ == seq![255u8, 255u8, 255u8],
    {
        let l = Levels { black: [0u8, 0u8, 0u8], white: [255u8, 255u8, 255u8] };
        proof {
            assert(l.black@ =~= seq![0u8, 0u8, 0u8]);
            assert(l.white@ =~= seq![255u8, 255u8, 255u8]);
        }
        l
    }

    /// Whether applying these levels would leave the image as it is.
    pub fn are_unchanged(&self) -> (b: bool)
        ensures
            b == (self.black@ == seq![0u8, 0u8, 0u8] && self.white@ == seq![255u8, 255u8, 255u8]),
    {
        let b = self.black[0] == 0 && self.black[1] == 0 && self.black[2] == 0 && self.white[0] == 255
            && self.white[1] == 255 && self.white[2] == 255;
        proof {
            if b {
                assert(self.black@ =~= seq![0u8, 0u8, 0u8]);
                assert(self.white@ =~= seq![255u8, 255u8, 255u8]);
            }
        }
        b
    }
}

/// Below this distance between the two ends, a stretch would blow the image apart
/// rather than clean it up.
pub const SMALLEST_USEFUL_RANGE: u16 = 16;

/// How many pixels have one of the first `n` brightness values.
pub open spec fn below(counts: Seq<u32>, n: int) -> int
    decreases n,
{
    if n <= 0 {
        0
    } else {
        below(counts, n - 1) + counts[n - 1]
    }
}

/// The first brightness from `v` on below which, counting it, more than `limit`
/// pixels lie; or 0 when there is none.
pub open spec fn first_over(counts: Seq<u32>, v: int, limit: int) -> int
    decreases 256 - v,
{
    if v < 0 || v >= 256 {
        0
    } else if below(counts, v + 1) > limit {
        v
    } else {
        first_over(counts, v + 1, limit)
    }
}

/// The brightness of the darkest ink worth keeping: the first value past the
/// darkest one percent of the pixels, which may be noise.
pub open spec fn ink_level(counts: Seq<u32>) -> int {
    first_over(counts, 0, below(counts, 256) / 100)
}

pub proof fn lemma_below_grows(counts: Seq<u32>, a: int, b: int)
    requires
        0 <= a <= b,
    ensures
        0 <= below(counts, a) <= below(counts, b),
    decreases b - a,
{
    if a < b {
        lemma_below_grows(counts, a, b - 1);
    } else {
        lemma_below_nonneg(counts, a);
    }
}

pub proof fn lemma_below_nonneg(counts: Seq<u32>, n: int)
    ensures
        0 <= below(counts, n),
    decreases n,
{
    if n > 0 {
        lemma_below_nonneg(counts, n - 1);
    }
}

/// The counts added up.
pub open spec fn sum_of(counts: Seq<u32>) -> int {
    counts.fold_left(0int, |total: int, c: u32| total + c)
}

proof fn lemma_below_is_sum(counts: Seq<u32>, n: int)
    requires
        0 <= n <= counts.len(),
    ensures
        below(counts, n) == sum_of(counts.take(n)),
    decreases n,
{
    let t = counts.take(n);
    if n == 0 {
        assert(t.len() == 0);
    } else {
        lemma_below_is_sum(counts, n - 1);
        assert(t.drop_last() =~= counts.take(n - 1));
        assert(t.last() == counts[n - 1]);
    }
}

proof fn lemma_first_over(counts: Seq<u32>, w: int, limit: int)
    requires
        counts.len() == 256,
        0 <= w <= 256,
        below(counts, w) <= limit,
    ensures
        below(counts, 256) > limit ==> w <= first_over(counts, w, limit) < 256 && below(
            counts,
            first_over(counts, w, limit) + 1,
        ) > limit && below(counts, first_over(counts, w, limit)) <= limit,
        below(counts, 256) <= limit ==> first_over(counts, w, limit) == 0,
    decreases 256 - w,
{
    if w < 256 {
        lemma_below_grows(counts, w + 1, 256);
        if below(counts, w + 1) <= limit {
            lemma_first_over(counts, w + 1, limit);
        }
    }
}

/// The darkest ink is where the darkest hundredth of the pixels runs out: the least
/// brightness `v` such that more than a hundredth of all pixels (rounded down) are
/// at most as bright as `v`. Every darker value leaves no more than that hundredth
/// below it. An empty histogram gives 0.
pub proof fn lemma_ink_is_past_the_darkest_hundredth(counts: Seq<u32>)
    requires
        counts.len() == 256,
    ensures
        0 <= ink_level(counts) < 256,
        sum_of(counts) > 0 ==> sum_of(counts.take(ink_level(counts) + 1)) > sum_of(counts) / 100,
        forall|u: int|
            0 <= u <= ink_level(counts) ==> sum_of(#[trigger] counts.take(u)) <= sum_of(counts) / 100,
        sum_of(counts) == 0 ==> ink_level(counts) == 0,
{
    let limit = below(counts, 256) / 100;
    lemma_below_is_sum(counts, 256);
    assert(counts.take(256) =~= counts);
    lemma_below_nonneg(counts, 256);
    lemma_first_over(counts, 0, limit);
    let v = ink_level(counts);
    lemma_below_is_sum(counts, v + 1);
    assert forall|u: int| 0 <= u <= v implies sum_of(#[trigger] counts.take(u)) <= sum_of(counts) / 100 by {
        lemma_below_is_sum(counts, u);
        if below(counts, 256) > limit {
            lemma_below_grows(counts, u, v);
        }
    }
}

/// The brightness of the darkest ink worth keeping: dark enough to be writing, not
/// so dark that a single sensor speck decides the black end.
pub fn darkest_ink(counts: &[u32; 256]) -> (v: u8)
    requires
        below(counts@, 256) <= u32::MAX,
    ensures
        v == ink_level(counts@),
{
    let mut total: u32 = 0;
    let mut i: usize = 0;
    while i < 256
        invariant
            i <= 256,
            counts@.len() == 256,
            total == below(counts@, i as int),
            below(counts@, 256) <= u32::MAX,
        decreases 256 - i,
    {
        proof {
            lemma_below_grows(counts@, i + 1, 256);
        }
        total = total + counts[i];
        i = i + 1;
    }
    let ignore = total / 100;
    let mut seen: u32 = 0;
    let mut value: usize = 0;
    while value < 256
        invariant
            value <= 256,
            counts@.len() == 256,
            seen == below(counts@, value as int),
            below(counts@, 256) <= u32::MAX,
            ignore == below(counts@, 256) / 100,
            ink_level(counts@) == first_over(counts@, value as int, ignore as int),
        decreases 256 - value,
    {
        proof {
            lemma_below_grows(counts@, value + 1, 256);
        }
        seen = seen + counts[value];
        if seen > ignore {
            return value as u8;
        }
        value = value + 1;
    }
    0
}

/// The last of the brightest-counted values from 64 up to `v`: below 64 it is ink
/// or background, not paper. Ties go to the brighter value.
pub open spec fn peak_up_to(counts: Seq<u32>, v: int) -> int
    decreases v,
{
    if v <= 64 {
        64
    } else {
        let p = peak_up_to(counts, v - 1);
        if counts[v] >= counts[p] {
            v
        } else {
            p
        }
    }
}

/// Walks down from `f` while the next darker value still has more than `edge`
/// pixels.
pub open spec fn walk_down(counts: Seq<u32>, f: int, edge: int) -> int
    decreases f,
{
    if f > 0 && counts[f - 1] > edge {
        walk_down(counts, f - 1, edge)
    } else {
        f
    }
}

/// The lower edge of the paper hump: from the most common bright value, down until
/// fewer than a tenth as many pixels have the next darker value.
pub open spec fn floor_level(counts: Seq<u32>) -> int {
    let peak = peak_up_to(counts, 255);
    walk_down(counts, peak, (counts[peak] / 10) as int)
}

proof fn lemma_peak_range(counts: Seq<u32>, v: int)
    requires
        64 <= v <= 255,
    ensures
        64 <= peak_up_to(counts, v) <= v,
    decreases v,
{
    if v > 64 {
        lemma_peak_range(counts, v - 1);
    }
}

proof fn lemma_walk_range(counts: Seq<u32>, f: int, edge: int)
    requires
        0 <= f,
    ensures
        0 <= walk_down(counts, f, edge) <= f,
    decreases f,
{
    if f > 0 && counts[f - 1] > edge {
        lemma_walk_range(counts, f - 1, edge);
    }
}

proof fn lemma_peak_is_last_highest(counts: Seq<u32>, v: int)
    requires
        counts.len() == 256,
        64 <= v <= 255,
    ensures
        forall|u: int| 64 <= u <= v ==> #[trigger] counts[u] <= counts[peak_up_to(counts, v)],
        forall|u: int| peak_up_to(counts, v) < u <= v ==> #[trigger] counts[u] < counts[peak_up_to(counts, v)],
    decreases v,
{
    lemma_peak_range(counts, v);
    if v > 64 {
        lemma_peak_is_last_highest(counts, v - 1);
        lemma_peak_range(counts, v - 1);
    }
}

proof fn lemma_walk_stops_at_edge(counts: Seq<u32>, f: int, edge: int)
    requires
        0 <= f <= counts.len(),
    ensures
        0 <= walk_down(counts, f, edge) <= f,
        walk_down(counts, f, edge) > 0 ==> counts[walk_down(counts, f, edge) - 1] <= edge,
        forall|v: int| walk_down(counts, f, edge) <= v < f ==> #[trigger] counts[v] > edge,
    decreases f,
{
    if f > 0 && counts[f - 1] > edge {
        lemma_walk_stops_at_edge(counts, f - 1, edge);
    }
}

/// The paper floor is the lower edge of the paper hump. The peak is the most common
/// brightness from 64 up, the brightest of them where several tie; the floor lies at
/// or below it, every value from the floor up to the peak has more than a tenth of
/// the peak's pixels, and the value just below the floor (if there is one) has no
/// more than that tenth.
pub proof fn lemma_paper_floor_is_the_hump_edge(counts: Seq<u32>)
    requires
        counts.len() == 256,
    ensures
        64 <= peak_up_to(counts, 255) <= 255,
        forall|v: int| 64 <= v < 256 ==> #[trigger] counts[v] <= counts[peak_up_to(counts, 255)],
        forall|v: int| peak_up_to(counts, 255) < v < 256 ==> #[trigger] counts[v] < counts[peak_up_to(counts, 255)],
        0 <= floor_level(counts) <= peak_up_to(counts, 255),
        floor_level(counts) > 0 ==> counts[floor_level(counts) - 1] <= counts[peak_up_to(counts, 255)] / 10,
        forall|v: int|
            floor_level(counts) <= v < peak_up_to(counts, 255) ==> #[trigger] counts[v] > counts[peak_up_to(
                counts,
                255,
            )] / 10,
{
    lemma_peak_range(counts, 255);
    lemma_peak_is_last_highest(counts, 255);
    let p = peak_up_to(counts, 255);
    lemma_walk_stops_at_edge(counts, p, (counts[p] / 10) as int);
}

/// The lower edge of the paper hump: start at the most common bright value and walk
/// down until the image runs out of paper.
pub fn paper_floor(counts: &[u32; 256]) -> (v: u8)
    ensures
        v == floor_level(counts@),
{
    let mut peak: usize = 64;
    let mut value: usize = 65;
    while value < 256
        invariant
            65 <= value <= 256,
            counts@.len() == 256,
            peak == peak_up_to(counts@, value - 1),
            64 <= peak < value,
        decreases 256 - value,
    {
        if counts[value] >= counts[peak] {
            peak = value;
        }
        value = value + 1;
    }
    let hump_edge = counts[peak] / 10;
    let mut floor: usize = peak;
    while floor > 0 && counts[floor - 1] > hump_edge
        invariant
            floor <= peak,
            peak < 256,
            counts@.len() == 256,
            hump_edge == counts@[peak as int] / 10,
            walk_down(counts@, floor as int, hump_edge as int) == floor_level(counts@),
        decreases floor,
    {
        floor = floor - 1;
    }
    floor as u8
}

/// The levels one channel's histogram suggests: the darkest ink and the paper
/// floor, if they lie at least [`SMALLEST_USEFUL_RANGE`] apart, and the unchanged
/// 0 and 255 otherwise, rather than a guess.
pub open spec fn channel_levels(counts: Seq<u32>) -> (int, int) {
    let black = ink_level(counts);
    let white = floor_level(counts);
    if white - black >= SMALLEST_USEFUL_RANGE {
        (black, white)
    } else {
        (0, 255)
    }
}

/// Proposes where the brightness stretch should start and end in each channel, from
/// the channel's histogram over the paper, so that the paper comes out white and the
/// writing black. A channel without a clear paper hump is left unchanged.
#[verifier::spinoff_prover]
pub fn levels_from_histograms(histograms: &[[u32; 256]; 3]) -> (l: Levels)
    requires
        forall|c: int| 0 <= c < 3 ==> below((#[trigger] histograms@[c])@, 256) <= u32::MAX,
    ensures
        forall|c: int|
            0 <= c < 3 ==> (l.black@[c] as int, l.white@[c] as int) == channel_levels(
                (#[trigger] histograms@[c])@,
            ),
{
    let mut levels = Levels::unchanged();
    let mut channel: usize = 0;
    while channel < 3
        invariant
            channel <= 3,
            forall|c: int| 0 <= c < 3 ==> below((#[trigger] histograms@[c])@, 256) <= u32::MAX,
            forall|c: int|
                0 <= c < channel ==> (levels.black@[c] as int, levels.white@[c] as int) == channel_levels(
                    (#[trigger] histograms@[c])@,
                ),
            forall|c: int| channel <= c < 3 ==> #[trigger] levels.black@[c] == 0 && levels.white@[c] == 255,
        decreases 3 - channel,
    {
        let counts = &histograms[channel];
        let black = darkest_ink(counts);
        let white = paper_floor(counts);
        let ghost b0 = levels.black@;
        let ghost w0 = levels.white@;
        if white >= black && white - black >= 16 {
            levels.black[channel] = black;
            levels.white[channel] = white;
            proof {
                assert(levels.black@ == b0.update(channel as int, black));
                assert(levels.white@ == w0.update(channel as int, white));
            }
        }
        proof {
            assert forall|c: int| channel + 1 <= c < 3 implies #[trigger] levels.black@[c] == 0 && levels.white@[c] == 255 by {
                assert(levels.black@[c] == b0[c]);
                assert(levels.white@[c] == w0[c]);
            }
            assert forall|c: int| 0 <= c < channel implies (levels.black@[c] as int, levels.white@[c] as int) == channel_levels(
                (#[trigger] histograms@[c])@,
            ) by {
                assert(levels.black@[c] == b0[c]);
                assert(levels.white@[c] == w0[c]);
            }
        }
        channel = channel + 1;
    }
    levels
}

} // verus!
