//! Turning symbol counts into the shortest code lengths JPEG can express, the way
//! libjpeg's `jpeg_gen_optimal_table` does, so a table comes out the same as
//! `jpegtran -optimize` writes it.

use vstd::prelude::*;
use vstd::arithmetic::power2::*;
use super::kraft;
use super::table::Table;

verus! {

/// 256 real symbols plus one that is counted but never written. Reserving it keeps
/// the all-ones code word free, which a decoder is allowed to read past the last
/// block, and it is what libjpeg does.
pub const SYMBOL_SLOTS: usize = 257;

/// How long a code may grow while the tree is being built, before the lengths are
/// traded back down under 16 bits.
pub const MOST_MERGE_BITS: usize = 32;

/// The sum of the first `n` entries.
pub open spec fn sum_u64(s: Seq<u64>, n: int) -> int
    decreases n,
{
    if n <= 0 {
        0
    } else {
        sum_u64(s, n - 1) + s[n - 1]
    }
}

/// How many of the first `n` entries are not zero.
pub open spec fn nonzero(s: Seq<u64>, n: int) -> nat
    decreases n,
{
    if n <= 0 {
        0
    } else {
        nonzero(s, n - 1) + (if s[n - 1] > 0 {
            1nat
        } else {
            0nat
        })
    }
}

/// The symbol Huffman's method joins first, among the first `n`: the one with the
/// smallest count that is not zero, the last of them where several tie, or 257 where
/// every count is zero.
pub open spec fn rarest_below(freq: Seq<u64>, n: int) -> int
    decreases n,
{
    if n <= 0 {
        257
    } else {
        let r = rarest_below(freq, n - 1);
        if freq[n - 1] > 0 && (r == 257 || freq[n - 1] <= freq[r]) {
            n - 1
        } else {
            r
        }
    }
}

/// The symbol it joins second: chosen the same way, leaving `first` out.
pub open spec fn second_below(freq: Seq<u64>, first: int, n: int) -> int
    decreases n,
{
    if n <= 0 {
        257
    } else {
        let r = second_below(freq, first, n - 1);
        if freq[n - 1] > 0 && n - 1 != first && (r == 257 || freq[n - 1] <= freq[r]) {
            n - 1
        } else {
            r
        }
    }
}

pub proof fn lemma_rarest_below(freq: Seq<u64>, n: int)
    requires
        0 <= n <= freq.len(),
    ensures
        rarest_below(freq, n) == 257 || (0 <= rarest_below(freq, n) < n && freq[rarest_below(freq, n)] > 0),
    decreases n,
{
    if n > 0 {
        lemma_rarest_below(freq, n - 1);
    }
}

pub proof fn lemma_second_below(freq: Seq<u64>, first: int, n: int)
    requires
        0 <= n <= freq.len(),
    ensures
        second_below(freq, first, n) == 257 || (0 <= second_below(freq, first, n) < n && freq[second_below(
            freq,
            first,
            n,
        )] > 0 && second_below(freq, first, n) != first),
    decreases n,
{
    if n > 0 {
        lemma_second_below(freq, first, n - 1);
    }
}

/// Huffman's method as libjpeg runs it, from counts `freq`, trees `group` (each
/// symbol's root) and depths `cs`: while two symbols with counts remain, join the two
/// rarest, the later one first where counts tie, adding their counts and making every
/// symbol of both trees one bit deeper. What comes out is the depth of every symbol.
pub open spec fn huffman_run(freq: Seq<u64>, group: Seq<usize>, cs: Seq<u16>) -> Seq<u16>
    decreases nonzero(freq, 257),
{
    let r = rarest_below(freq, 257);
    let o = second_below(freq, r, 257);
    if freq.len() != 257 || r == 257 || o == 257 {
        cs
    } else {
        let freq1 = freq.update(r, (freq[r] + freq[o]) as u64);
        let freq2 = freq1.update(o, 0u64);
        proof {
            lemma_rarest_below(freq, 257);
            lemma_second_below(freq, r, 257);
            lemma_sum_u64_update(freq, r, (freq[r] + freq[o]) as u64, 257);
            lemma_sum_u64_update(freq1, o, 0u64, 257);
        }
        huffman_run(
            freq2,
            Seq::new(257, |t: int| kraft::joined_root(group, r as usize, o as usize, t)),
            Seq::new(257, |t: int| kraft::joined_depth(group, cs, r as usize, o as usize, t) as u16),
        )
    }
}

/// The depth Huffman's method gives each of the 257 symbols of `freq`, starting from
/// every symbol a tree of its own at depth 0.
pub open spec fn huffman_depths_of(freq: Seq<u64>) -> Seq<u16> {
    huffman_run(freq, Seq::new(257, |t: int| t as usize), Seq::new(257, |t: int| 0u16))
}

/// How many symbols have each depth 1 to 32, with nothing counted at depth 0.
pub open spec fn depth_counts(cs: Seq<u16>) -> Seq<u32> {
    Seq::new(33, |l: int| if l == 0 { 0u32 } else { of_length(cs, l, 257) as u32 })
}

/// The length Annex K takes a prefix from when it trades codes of length `len`
/// down: the longest length at or below `j` that holds a code.
pub open spec fn prefix_below(lengths: Seq<u32>, j: int) -> int
    decreases j,
{
    if j <= 0 || lengths[j] > 0 {
        j
    } else {
        prefix_below(lengths, j - 1)
    }
}

pub proof fn lemma_prefix_below(lengths: Seq<u32>, j: int)
    requires
        0 <= j,
    ensures
        0 <= prefix_below(lengths, j) <= j,
    decreases j,
{
    if j > 0 && lengths[j] == 0 {
        lemma_prefix_below(lengths, j - 1);
    }
}

/// One trade of Annex K at length `len`: two codes of that length give up their
/// place, one of them moves up to `len - 1`, and a code of the prefix length becomes
/// the prefix of two codes one bit longer.
pub open spec fn trade_once(lengths: Seq<u32>, len: int) -> Seq<u32> {
    let p = prefix_below(lengths, len - 2);
    let l1 = lengths.update(len, (lengths[len] - 2) as u32);
    let l2 = l1.update(len - 1, (l1[len - 1] + 1) as u32);
    let l3 = l2.update(p + 1, (l2[p + 1] + 2) as u32);
    l3.update(p, (l3[p] - 1) as u32)
}

/// Trades at length `len` until fewer than two codes of that length are left.
pub open spec fn trade_at(lengths: Seq<u32>, len: int) -> Seq<u32>
    decreases lengths[len] as int,
{
    if lengths.len() != 33 || len < 2 || len > 32 || lengths[len] < 2 {
        lengths
    } else {
        proof {
            lemma_prefix_below(lengths, len - 2);
        }
        trade_at(trade_once(lengths, len), len)
    }
}

/// Trades every length from `len` down to 17 away, the longest first, as Annex K
/// does.
pub open spec fn traded_down(lengths: Seq<u32>, len: int) -> Seq<u32>
    decreases len,
{
    if len <= 16 {
        lengths
    } else {
        traded_down(trade_at(lengths, len), len - 1)
    }
}

/// The longest length at or below `l` that holds a code.
pub open spec fn longest_in(lengths: Seq<u32>, l: int) -> int
    decreases l,
{
    if l <= 0 || lengths[l] > 0 {
        l
    } else {
        longest_in(lengths, l - 1)
    }
}

/// The sixteen counts libjpeg writes for symbols of depths `cs`: how many symbols
/// have each depth, every length over 16 traded away as Annex K does it, then one
/// code of the longest length given back, which is the reserved code point.
pub open spec fn libjpeg_counts(cs: Seq<u16>) -> Seq<u8> {
    let traded = traded_down(depth_counts(cs), 32);
    let longest = longest_in(traded, 16);
    let removed = traded.update(longest, (traded[longest] - 1) as u32);
    Seq::new(16, |i: int| removed[i + 1] as u8)
}

/// Symbol `a` comes before symbol `b` in libjpeg's table for depths `cs`: it is
/// shallower, or as deep and smaller.
pub open spec fn placed_before(cs: Seq<u16>, a: u8, b: u8) -> bool {
    cs[a as int] < cs[b as int] || (cs[a as int] == cs[b as int] && a < b)
}

/// Every depth is at most 32 bits, the longest code libjpeg lets a tree grow.
pub open spec fn depths_fit(cs: Seq<u16>) -> bool {
    forall|s: int| 0 <= s < 257 ==> #[trigger] cs[s] <= 32
}

/// The sum of the first `n` entries.
pub open spec fn sum_u32(s: Seq<u32>, n: int) -> int
    decreases n,
{
    if n <= 0 {
        0
    } else {
        sum_u32(s, n - 1) + s[n - 1]
    }
}

pub proof fn lemma_sum_u64_update(s: Seq<u64>, i: int, v: u64, n: int)
    requires
        0 <= i < s.len(),
        0 <= n <= s.len(),
    ensures
        sum_u64(s.update(i, v), n) == sum_u64(s, n) + (if i < n {
            v - s[i]
        } else {
            0
        }),
        nonzero(s.update(i, v), n) == nonzero(s, n) + (if i < n {
            (if v > 0 {
                1int
            } else {
                0int
            }) - (if s[i] > 0 {
                1int
            } else {
                0int
            })
        } else {
            0int
        }),
    decreases n,
{
    if n > 0 {
        lemma_sum_u64_update(s, i, v, n - 1);
    }
}

pub proof fn lemma_sum_u64_part(s: Seq<u64>, i: int, n: int)
    requires
        0 <= i < n <= s.len(),
    ensures
        s[i] <= sum_u64(s, n),
        s[i] > 0 ==> nonzero(s, n) >= 1,
    decreases n,
{
    if i < n - 1 {
        lemma_sum_u64_part(s, i, n - 1);
    } else {
        lemma_sum_u64_bounds(s, n - 1);
    }
}

pub proof fn lemma_sum_u64_bounds(s: Seq<u64>, n: int)
    requires
        0 <= n <= s.len(),
    ensures
        sum_u64(s, n) >= 0,
        nonzero(s, n) <= n,
    decreases n,
{
    if n > 0 {
        lemma_sum_u64_bounds(s, n - 1);
    }
}

/// How many of the first `n` symbols have a code at all.
pub open spec fn coded(cs: Seq<u16>, n: int) -> int
    decreases n,
{
    if n <= 0 {
        0
    } else {
        coded(cs, n - 1) + (if cs[n - 1] != 0 {
            1int
        } else {
            0int
        })
    }
}

/// How many of the first `n` symbols have a code of length `len`.
pub open spec fn of_length(cs: Seq<u16>, len: int, n: int) -> int
    decreases n,
{
    if n <= 0 {
        0
    } else {
        of_length(cs, len, n - 1) + (if cs[n - 1] == len {
            1int
        } else {
            0int
        })
    }
}

/// How many of the first `n` symbols have a code shorter than `len`.
pub open spec fn shorter_than(cs: Seq<u16>, len: int, n: int) -> int
    decreases n,
{
    if n <= 0 {
        0
    } else {
        shorter_than(cs, len, n - 1) + (if 1 <= cs[n - 1] < len {
            1int
        } else {
            0int
        })
    }
}

proof fn lemma_shorter_than_next(cs: Seq<u16>, len: int, n: int)
    requires
        1 <= len,
    ensures
        shorter_than(cs, len + 1, n) == shorter_than(cs, len, n) + of_length(cs, len, n),
        shorter_than(cs, 1, n) == 0,
    decreases n,
{
    if n > 0 {
        lemma_shorter_than_next(cs, len, n - 1);
    }
}

proof fn lemma_shorter_than_all(cs: Seq<u16>, n: int)
    requires
        n <= cs.len(),
        forall|s: int| 0 <= s < n ==> #[trigger] cs[s] <= 32,
    ensures
        shorter_than(cs, 33, n) == coded(cs, n),
    decreases n,
{
    if n > 0 {
        lemma_shorter_than_all(cs, n - 1);
    }
}

/// The counts of lengths 1 to 16 add up to the sum of the lengths below 17.
proof fn lemma_total_codes(lengths: Seq<u32>, counts: Seq<u8>, l: int)
    requires
        lengths.len() == 33,
        counts.len() == 16,
        0 <= l <= 16,
        lengths[0] == 0,
        forall|k: int| 1 <= k <= 16 ==> #[trigger] lengths[k] == counts[k - 1],
    ensures
        super::table::first_index(counts, l + 1) == sum_u32(lengths, l + 1),
    decreases l,
{
    if l > 0 {
        lemma_total_codes(lengths, counts, l - 1);
        assert(lengths[l] == counts[l - 1]);
        assert(super::table::first_index(counts, l + 1) == super::table::first_index(counts, l) + counts[l - 1]);
        assert(sum_u32(lengths, l + 1) == sum_u32(lengths, l) + lengths[l]);
    } else {
        assert(sum_u32(lengths, 1) == sum_u32(lengths, 0) + lengths[0]);
    }
}

proof fn lemma_sum_u32_tail(s: Seq<u32>, m: int)
    requires
        s.len() == 33,
        17 <= m <= 33,
        forall|k: int| 17 <= k < 33 ==> #[trigger] s[k] == 0,
    ensures
        sum_u32(s, m) == sum_u32(s, 17),
    decreases m,
{
    if m > 17 {
        lemma_sum_u32_tail(s, m - 1);
    }
}

proof fn lemma_sum_u32_zero(s: Seq<u32>, n: int)
    requires
        0 <= n <= s.len(),
        forall|k: int| 0 <= k < s.len() ==> s[k] == 0,
    ensures
        sum_u32(s, n) == 0,
    decreases n,
{
    if n > 0 {
        lemma_sum_u32_zero(s, n - 1);
    }
}

proof fn lemma_sum_u32_nonnegative(s: Seq<u32>, n: int)
    requires
        0 <= n <= s.len(),
    ensures
        sum_u32(s, n) >= 0,
    decreases n,
{
    if n > 0 {
        lemma_sum_u32_nonnegative(s, n - 1);
    }
}

pub proof fn lemma_two_parts(s: Seq<u64>, i: int, j: int, n: int)
    requires
        0 <= i < n <= s.len(),
        0 <= j < n,
        i != j,
    ensures
        s[i] + s[j] <= sum_u64(s, n),
        s[i] > 0 && s[j] > 0 ==> nonzero(s, n) >= 2,
    decreases n,
{
    if i == n - 1 {
        lemma_sum_u64_part(s, j, n - 1);
    } else if j == n - 1 {
        lemma_sum_u64_part(s, i, n - 1);
    } else {
        lemma_two_parts(s, i, j, n - 1);
    }
}

proof fn lemma_sum_u32_update(s: Seq<u32>, i: int, v: u32, n: int)
    requires
        0 <= i < s.len(),
        0 <= n <= s.len(),
    ensures
        sum_u32(s.update(i, v), n) == sum_u32(s, n) + (if i < n {
            v - s[i]
        } else {
            0
        }),
    decreases n,
{
    if n > 0 {
        lemma_sum_u32_update(s, i, v, n - 1);
    }
}

proof fn lemma_sum_u32_part(s: Seq<u32>, i: int, n: int)
    requires
        0 <= i < n <= s.len(),
        forall|k: int| 0 <= k < s.len() ==> s[k] >= 0,
    ensures
        s[i] <= sum_u32(s, n),
    decreases n,
{
    if i < n - 1 {
        lemma_sum_u32_part(s, i, n - 1);
    } else {
        lemma_sum_u32_nonnegative(s, n - 1);
    }
}

pub open spec fn longer_than_32_sentence() -> Seq<char> {
    "A symbol on this page needs a code longer than 32 bits."@
}

pub open spec fn no_trade_sentence() -> Seq<char> {
    "The code lengths on this page cannot be traded down."@
}

pub open spec fn no_prefix_sentence() -> Seq<char> {
    "The code lengths on this page cannot be brought under 16 bits."@
}

pub open spec fn empty_table_sentence() -> Seq<char> {
    "A Huffman table for this page came out empty."@
}

pub open spec fn crowded_length_sentence() -> Seq<char> {
    "A Huffman table for this page needs more than 255 codes of one length."@
}

/// The sentences building a table from counted symbols can stop with.
pub open spec fn table_refused(m: Seq<char>) -> bool {
    ||| m == longer_than_32_sentence()
    ||| m == no_trade_sentence()
    ||| m == no_prefix_sentence()
    ||| m == empty_table_sentence()
    ||| m == crowded_length_sentence()
}

proof fn lemma_lone_weights(group: Seq<usize>, cs: Seq<u16>, r: int, n: int)
    requires
        0 <= n <= group.len(),
        n <= cs.len(),
        forall|t: int| 0 <= t < n ==> group[t] == t,
        forall|t: int| 0 <= t < n ==> cs[t] == 0,
    ensures
        kraft::group_weight(group, cs, r, n) == (if 0 <= r < n {
            pow2(257) as int
        } else {
            0int
        }),
    decreases n,
{
    if n > 0 {
        lemma_lone_weights(group, cs, r, n - 1);
    }
}

proof fn lemma_rootless_none(orig: Seq<u64>, cs: Seq<u16>, n: int)
    requires
        0 <= n,
        kraft::rootless(orig, cs, n) == 0,
    ensures
        forall|s: int| 0 <= s < n && orig[s] > 0 ==> #[trigger] cs[s] != 0,
    decreases n,
{
    if n > 0 {
        lemma_rootless_nonnegative(orig, cs, n - 1);
        lemma_rootless_none(orig, cs, n - 1);
    }
}

proof fn lemma_rootless_nonnegative(orig: Seq<u64>, cs: Seq<u16>, n: int)
    ensures
        kraft::rootless(orig, cs, n) >= 0,
    decreases n,
{
    if n > 0 {
        lemma_rootless_nonnegative(orig, cs, n - 1);
    }
}

proof fn lemma_coded_bounds(cs: Seq<u16>, n: int)
    requires
        0 <= n <= cs.len(),
    ensures
        0 <= coded(cs, n) <= n,
        coded(cs, n) == 0 ==> forall|s: int| 0 <= s < n ==> #[trigger] cs[s] == 0,
    decreases n,
{
    if n > 0 {
        lemma_coded_bounds(cs, n - 1);
    }
}

/// Each symbol that is used and has no depth adds one to the count of such symbols.
proof fn lemma_rootless_counts(orig: Seq<u64>, cs: Seq<u16>, n: int, a: int)
    requires
        0 <= a < n,
        orig[a] > 0,
        cs[a] == 0,
    ensures
        kraft::rootless(orig, cs, n) >= kraft::rootless(orig, cs, a) + 1,
    decreases n,
{
    if n - 1 > a {
        lemma_rootless_counts(orig, cs, n - 1, a);
    }
}

/// Two entries of the first `n` add up to at most their sum.
proof fn lemma_sum_u32_pair(s: Seq<u32>, i: int, j: int, n: int)
    requires
        0 <= i < n <= s.len(),
        0 <= j < n,
        i != j,
    ensures
        s[i] + s[j] <= sum_u32(s, n),
    decreases n,
{
    if n - 1 == i {
        lemma_sum_u32_part(s, j, n - 1);
    } else if n - 1 == j {
        lemma_sum_u32_part(s, i, n - 1);
    } else {
        lemma_sum_u32_pair(s, i, j, n - 1);
    }
}

/// Lengths with codes at one length only take the space of those codes.
proof fn lemma_kraft_single(s: Seq<u32>, l: int, m: int)
    requires
        0 <= l,
        0 <= m <= s.len(),
        forall|j: int| 0 <= j < s.len() && j != l ==> #[trigger] s[j] == 0,
    ensures
        kraft::kraft_upto(s, m) == (if l < m {
            s[l] * pow2((32 - l) as nat)
        } else {
            0
        }),
    decreases m,
{
    if m > 0 {
        lemma_kraft_single(s, l, m - 1);
    }
}

/// Where the used symbols have codes that fill the whole space but for the reserved
/// code point, taken from the longest length, no length holds 256 codes: they would
/// take all the symbols there are, and 256 codes of one length never leave just
/// one code point of a longer or equal length free.
proof fn lemma_not_crowded(removed: Seq<u32>, longest: int, l: int)
    requires
        removed.len() == 33,
        1 <= l <= 16,
        1 <= longest <= 16,
        forall|j: int| longest < j < 33 ==> #[trigger] removed[j] == 0,
        sum_u32(removed, 33) <= 256,
        kraft::kraft_upto(removed, 33) + pow2((32 - longest) as nat) == pow2(32),
    ensures
        removed[l] < 256,
{
    if removed[l] >= 256 {
        assert(l <= longest);
        assert forall|j: int| 0 <= j < 33 && j != l implies #[trigger] removed[j] == 0 by {
            lemma_sum_u32_pair(removed, l, j, 33);
        }
        lemma_sum_u32_part(removed, l, 33);
        assert(removed[l] == 256);
        lemma_kraft_single(removed, l, 33);
        lemma_pow2_adds(8, (32 - l) as nat);
        assert(pow2(8) == 256) by {
            lemma2_to64();
        }
        assert(kraft::kraft_upto(removed, 33) == pow2((40 - l) as nat));
        lemma_pow2_pos((32 - longest) as nat);
        if l <= 8 {
            if l < 8 {
                lemma_pow2_strictly_increases(32, (40 - l) as nat);
            }
        } else {
            lemma_pow2_strictly_increases((40 - l) as nat, 32);
            if longest > l {
                lemma_pow2_strictly_increases((32 - longest) as nat, (32 - l) as nat);
            }
            lemma_pow2_strictly_increases((32 - l) as nat, (40 - l) as nat);
            lemma_pow2_unfold(32);
            if l > 9 {
                lemma_pow2_strictly_increases((40 - l) as nat, 31);
            }
            assert(pow2(31) * 2 == pow2(32));
        }
        assert(false);
    }
}

/// Where at least one real symbol was counted, the codes the depths give fill the
/// whole space: two symbols take part, so none of them is left without a depth.
proof fn lemma_fills_space(orig: Seq<u64>, cs: Seq<u16>, lengths: Seq<u32>, a: int)
    requires
        orig.len() == 257,
        cs.len() == 257,
        lengths.len() == 33,
        0 <= a < 256,
        orig[a] > 0,
        orig[256] > 0,
        sum_u32(lengths, 33) == coded(cs, 257),
        pow2(225) * kraft::kraft_upto(lengths, 33) + pow2(257) * kraft::rootless(orig, cs, 257) == pow2(257),
    ensures
        kraft::kraft_upto(lengths, 33) == pow2(32),
        kraft::rootless(orig, cs, 257) == 0,
{
    let k = kraft::kraft_upto(lengths, 33);
    let r = kraft::rootless(orig, cs, 257);
    lemma_rootless_nonnegative(orig, cs, 257);
    kraft::lemma_kraft_nonnegative(lengths, 33);
    lemma_pow2_pos(225);
    lemma_pow2_pos(257);
    lemma_pow2_adds(225, 32);
    if r >= 1 {
        assert(k == 0 && r == 1) by (nonlinear_arith)
            requires
                pow2(225) * k + pow2(257) * r == pow2(257),
                k >= 0,
                r >= 1,
                pow2(225) > 0,
                pow2(257) > 0,
        ;
        assert forall|j: int| 0 <= j < 33 implies lengths[j] == 0 by {
            lemma_kraft_has_term(lengths, j, 33);
            lemma_pow2_pos((32 - j) as nat);
            assert(lengths[j] == 0) by (nonlinear_arith)
                requires
                    lengths[j] * pow2((32 - j) as nat) <= 0,
                    pow2((32 - j) as nat) > 0,
                    lengths[j] >= 0,
            ;
        }
        lemma_sum_u32_zero(lengths, 33);
        lemma_coded_bounds(cs, 257);
        lemma_rootless_counts(orig, cs, 257, 256);
        lemma_rootless_counts(orig, cs, 256, a);
        lemma_rootless_nonnegative(orig, cs, a);
        assert(false);
    }
    assert(k == pow2(32)) by (nonlinear_arith)
        requires
            pow2(225) * k + pow2(257) * r == pow2(257),
            pow2(257) == pow2(225) * pow2(32),
            r == 0,
            pow2(225) > 0,
    ;
}

proof fn lemma_kraft_has_term(lengths: Seq<u32>, k: int, m: int)
    requires
        0 <= k < m,
    ensures
        kraft::kraft_upto(lengths, m) >= lengths[k] * pow2((32 - k) as nat),
    decreases m,
{
    kraft::lemma_kraft_nonnegative(lengths, m - 1);
    assert(lengths[m - 1] * pow2((32 - (m - 1)) as nat) >= 0) by (nonlinear_arith);
    if k < m - 1 {
        lemma_kraft_has_term(lengths, k, m - 1);
    }
}

/// Makes every symbol of the two trees rooted at `first` and `other` one bit longer,
/// and puts them all in the tree rooted at `first`.
fn lengthen(group: &mut Vec<usize>, codesize: &mut Vec<u16>, first: usize, other: usize, Ghost(merges): Ghost<nat>)
    requires
        old(group)@.len() == SYMBOL_SLOTS,
        old(codesize)@.len() == SYMBOL_SLOTS,
        first < SYMBOL_SLOTS,
        other < SYMBOL_SLOTS,
        merges <= 256,
        forall|t: int| 0 <= t < SYMBOL_SLOTS ==> #[trigger] old(group)@[t] < SYMBOL_SLOTS,
        forall|t: int| 0 <= t < SYMBOL_SLOTS ==> #[trigger] old(codesize)@[t] + 1 <= merges,
    ensures
        final(group)@.len() == SYMBOL_SLOTS,
        final(codesize)@.len() == SYMBOL_SLOTS,
        forall|t: int|
            0 <= t < SYMBOL_SLOTS ==> #[trigger] final(group)@[t] == kraft::joined_root(old(group)@, first, other, t),
        forall|t: int|
            0 <= t < SYMBOL_SLOTS ==> #[trigger] final(codesize)@[t] == kraft::joined_depth(
                old(group)@,
                old(codesize)@,
                first,
                other,
                t,
            ),
{
    let ghost g0 = group@;
    let ghost c0 = codesize@;
    let mut s: usize = 0;
    while s < SYMBOL_SLOTS
        invariant
            group@.len() == SYMBOL_SLOTS,
            codesize@.len() == SYMBOL_SLOTS,
            g0.len() == SYMBOL_SLOTS,
            c0.len() == SYMBOL_SLOTS,
            first < SYMBOL_SLOTS,
            other < SYMBOL_SLOTS,
            s <= SYMBOL_SLOTS,
            merges <= 256,
            forall|t: int| 0 <= t < SYMBOL_SLOTS ==> #[trigger] g0[t] < SYMBOL_SLOTS,
            forall|t: int| 0 <= t < SYMBOL_SLOTS ==> #[trigger] c0[t] + 1 <= merges,
            forall|t: int| 0 <= t < s ==> #[trigger] group@[t] == kraft::joined_root(g0, first, other, t),
            forall|t: int| 0 <= t < s ==> #[trigger] codesize@[t] == kraft::joined_depth(g0, c0, first, other, t),
            forall|t: int| s <= t < SYMBOL_SLOTS ==> #[trigger] group@[t] == g0[t],
            forall|t: int| s <= t < SYMBOL_SLOTS ==> #[trigger] codesize@[t] == c0[t],
        decreases SYMBOL_SLOTS - s,
    {
        if group[s] == first || group[s] == other {
            let size = codesize[s];
            codesize.set(s, size + 1);
            group.set(s, first);
        }
        s = s + 1;
    }
}

/// The depth of every symbol in the Huffman tree over the counts: the two rarest
/// trees are joined over and over, ties going to the higher symbol because that is
/// the order libjpeg scans in. A symbol that is not counted stays at depth 0, and
/// the depths of the counted ones fill the code space exactly.
fn huffman_depths(freq: Vec<u64>) -> (codesize: Vec<u16>)
    requires
        freq@.len() == SYMBOL_SLOTS,
        sum_u64(freq@, 257) <= u64::MAX,
        freq@[256] > 0,
    ensures
        codesize@.len() == SYMBOL_SLOTS,
        forall|s: int| 0 <= s < 257 ==> #[trigger] codesize@[s] <= 256,
        forall|s: int| 0 <= s < 257 && freq@[s] == 0 ==> #[trigger] codesize@[s] == 0,
        kraft::tree_weight(freq@, codesize@, 257) == pow2(257),
        codesize@ == huffman_depths_of(freq@),
{
    let ghost orig = freq@;
    let mut freq = freq;
    let ghost total = sum_u64(freq@, 257);
    let mut group: Vec<usize> = Vec::new();
    let mut codesize: Vec<u16> = Vec::new();
    while group.len() < SYMBOL_SLOTS
        invariant
            group@.len() == codesize@.len(),
            group@.len() <= SYMBOL_SLOTS,
            forall|s: int| 0 <= s < group@.len() ==> group@[s] == s,
            forall|s: int| 0 <= s < codesize@.len() ==> codesize@[s] == 0,
        decreases SYMBOL_SLOTS - group@.len(),
    {
        group.push(group.len());
        codesize.push(0);
    }
    let ghost mut merges: nat = 0;
    proof {
        assert(group@ =~= Seq::new(257, |t: int| t as usize));
        assert(codesize@ =~= Seq::new(257, |t: int| 0u16));
        lemma_sum_u64_bounds(freq@, 257);
        assert forall|r: int| 0 <= r < 257 && freq@[r] > 0 implies kraft::group_weight(group@, codesize@, r, 257)
            == pow2(257) by {
            lemma_lone_weights(group@, codesize@, r, 257);
        }
    }
    loop
        invariant
            freq@.len() == SYMBOL_SLOTS,
            group@.len() == SYMBOL_SLOTS,
            codesize@.len() == SYMBOL_SLOTS,
            orig.len() == SYMBOL_SLOTS,
            orig[256] > 0,
            sum_u64(freq@, 257) == total,
            total <= u64::MAX,
            forall|s: int| 0 <= s < SYMBOL_SLOTS ==> #[trigger] group@[s] < SYMBOL_SLOTS,
            forall|s: int| 0 <= s < SYMBOL_SLOTS ==> #[trigger] codesize@[s] <= merges,
            merges + nonzero(freq@, 257) <= 257,
            forall|s: int|
                0 <= s < SYMBOL_SLOTS && orig[s] == 0 ==> #[trigger] group@[s] == s && codesize@[s] == 0
                    && freq@[s] == 0,
            forall|s: int| 0 <= s < SYMBOL_SLOTS && orig[s] > 0 ==> freq@[#[trigger] group@[s] as int] > 0,
            forall|r: int|
                0 <= r < SYMBOL_SLOTS && #[trigger] freq@[r] > 0 ==> group@[r] == r && orig[r] > 0
                    && kraft::group_weight(group@, codesize@, r, 257) == pow2(257),
            huffman_run(freq@, group@, codesize@) == huffman_depths_of(orig),
        ensures
            codesize@ == huffman_depths_of(orig),
            codesize@.len() == SYMBOL_SLOTS,
            forall|t: int| 0 <= t < 257 ==> #[trigger] codesize@[t] <= 256,
            forall|t: int| 0 <= t < 257 && orig[t] == 0 ==> #[trigger] codesize@[t] == 0,
            kraft::tree_weight(orig, codesize@, 257) == pow2(257),
        decreases nonzero(freq@, 257),
    {
        let mut rarest: usize = SYMBOL_SLOTS;
        let mut rarest_count: u64 = u64::MAX;
        let mut symbol: usize = 0;
        while symbol < SYMBOL_SLOTS
            invariant
                freq@.len() == SYMBOL_SLOTS,
                symbol <= SYMBOL_SLOTS,
                rarest == SYMBOL_SLOTS || (rarest < symbol && freq@[rarest as int] > 0
                    && freq@[rarest as int] == rarest_count),
                rarest == SYMBOL_SLOTS ==> rarest_count == u64::MAX,
                rarest == SYMBOL_SLOTS ==> forall|t: int| 0 <= t < symbol ==> #[trigger] freq@[t] == 0,
                rarest as int == rarest_below(freq@, symbol as int),
            decreases SYMBOL_SLOTS - symbol,
        {
            let count = freq[symbol];
            if count > 0 && count <= rarest_count {
                rarest_count = count;
                rarest = symbol;
            }
            symbol = symbol + 1;
        }
        let mut second: usize = SYMBOL_SLOTS;
        let mut second_count: u64 = u64::MAX;
        let mut symbol: usize = 0;
        while symbol < SYMBOL_SLOTS
            invariant
                freq@.len() == SYMBOL_SLOTS,
                symbol <= SYMBOL_SLOTS,
                second == SYMBOL_SLOTS || (second < symbol && freq@[second as int] > 0
                    && second != rarest),
                second == SYMBOL_SLOTS ==> second_count == u64::MAX,
                second == SYMBOL_SLOTS ==> forall|t: int|
                    0 <= t < symbol && #[trigger] freq@[t] > 0 ==> t == rarest,
                second != SYMBOL_SLOTS ==> second_count == freq@[second as int],
                second as int == second_below(freq@, rarest as int, symbol as int),
            decreases SYMBOL_SLOTS - symbol,
        {
            let count = freq[symbol];
            if count > 0 && count <= second_count && symbol != rarest {
                second_count = count;
                second = symbol;
            }
            symbol = symbol + 1;
        }
        if second == SYMBOL_SLOTS || rarest == SYMBOL_SLOTS {
            proof {
                let r = group@[256] as int;
                assert(freq@[r] > 0);
                assert(rarest != SYMBOL_SLOTS);
                assert(r == rarest);
                assert forall|s: int| 0 <= s < 257 implies (orig[s] > 0 <==> #[trigger] group@[s] == rarest) by {
                    if orig[s] > 0 {
                        assert(freq@[group@[s] as int] > 0);
                    } else {
                        assert(group@[s] == s);
                        if s == rarest {
                            assert(freq@[s] > 0);
                        }
                    }
                }
                kraft::lemma_tree_is_group(orig, group@, codesize@, rarest as int, 257);
                lemma_sum_u64_part(freq@, r, 257);
                assert forall|t: int| 0 <= t < 257 implies #[trigger] codesize@[t] <= 256 by {
                    assert(codesize@[t] <= merges);
                }
                assert forall|t: int| 0 <= t < 257 && orig[t] == 0 implies #[trigger] codesize@[t] == 0 by {
                    assert(group@[t] == t && codesize@[t] == 0 && freq@[t] == 0);
                }
                assert(huffman_run(freq@, group@, codesize@) == codesize@);
            }
            break;
        }
        let first = rarest;
        let other = second;
        proof {
            lemma_two_parts(freq@, first as int, other as int, 257);
        }
        let joined = freq[first] + freq[other];
        let ghost before = freq@;
        freq.set(first, joined);
        proof {
            lemma_sum_u64_update(before, first as int, joined, 257);
        }
        let ghost middle = freq@;
        freq.set(other, 0);
        proof {
            lemma_sum_u64_update(middle, other as int, 0, 257);
            merges = merges + 1;
        }
        let ghost g0 = group@;
        let ghost c0 = codesize@;
        lengthen(&mut group, &mut codesize, first, other, Ghost(merges));
        proof {
            assert(group@ =~= Seq::new(257, |t: int| kraft::joined_root(g0, first, other, t)));
            assert(codesize@ =~= Seq::new(257, |t: int| kraft::joined_depth(g0, c0, first, other, t) as u16));
            assert(freq@ == before.update(first as int, (before[first as int] + before[other as int]) as u64).update(
                other as int,
                0u64,
            ));
            assert(huffman_run(before, g0, c0) == huffman_run(freq@, group@, codesize@));
            assert forall|t: int| 0 <= t < SYMBOL_SLOTS implies #[trigger] codesize@[t] <= merges by {
                assert(codesize@[t] == kraft::joined_depth(g0, c0, first, other, t));
            }
            assert forall|t: int| 0 <= t < SYMBOL_SLOTS implies #[trigger] group@[t] < SYMBOL_SLOTS by {
                assert(group@[t] == kraft::joined_root(g0, first, other, t));
            }
            kraft::lemma_join_weights(g0, c0, group@, codesize@, first, other, 0, 257);
            assert forall|t: int| 0 <= t < SYMBOL_SLOTS && orig[t] == 0 implies #[trigger] group@[t] == t
                && codesize@[t] == 0 && freq@[t] == 0 by {
                assert(group@[t] == kraft::joined_root(g0, first, other, t));
                assert(codesize@[t] == kraft::joined_depth(g0, c0, first, other, t));
                assert(g0[t] == t);
                assert(t != first && t != other);
            }
            assert forall|t: int| 0 <= t < SYMBOL_SLOTS && orig[t] > 0 implies freq@[#[trigger] group@[t] as int] > 0 by {
                assert(group@[t] == kraft::joined_root(g0, first, other, t));
                assert(before[g0[t] as int] > 0);
            }
            assert forall|r: int| 0 <= r < SYMBOL_SLOTS && #[trigger] freq@[r] > 0 implies group@[r] == r && orig[r] > 0
                && kraft::group_weight(group@, codesize@, r, 257) == pow2(257) by {
                assert(group@[r] == kraft::joined_root(g0, first, other, r));
                if r == first {
                    assert(g0[r] == r);
                } else {
                    assert(r != other);
                    assert(before[r] > 0);
                    assert(g0[r] == r);
                    kraft::lemma_join_weights(g0, c0, group@, codesize@, first, other, r, 257);
                }
            }
        }
    }
    codesize
}

/// How many symbols have a code of each length 0 to 32, from their depths, or the
/// sentence saying a depth runs past 32.
fn length_counts(codesize: &Vec<u16>, Ghost(orig): Ghost<Seq<u64>>) -> (res: Result<Vec<u32>, String>)
    requires
        codesize@.len() == SYMBOL_SLOTS,
        orig.len() == SYMBOL_SLOTS,
        forall|s: int| 0 <= s < 257 ==> #[trigger] codesize@[s] <= 256,
        forall|s: int| 0 <= s < 257 && orig[s] == 0 ==> #[trigger] codesize@[s] == 0,
        kraft::tree_weight(orig, codesize@, 257) == pow2(257),
    ensures
        res matches Err(e) ==> e@ == longer_than_32_sentence(),
        res is Ok <==> depths_fit(codesize@),
        res matches Ok(lengths) ==> {
            &&& lengths@ == depth_counts(codesize@)
            &&& lengths@.len() == MOST_MERGE_BITS + 1
            &&& lengths@[0] == 0
            &&& sum_u32(lengths@, 33) <= 257
            &&& sum_u32(lengths@, 33) == coded(codesize@, 257)
            &&& forall|l: int| 0 <= l < 33 ==> #[trigger] lengths@[l] <= 257
            &&& forall|s: int| 0 <= s < 257 ==> #[trigger] codesize@[s] <= 32
            &&& pow2(225) * kraft::kraft_upto(lengths@, 33) + pow2(257) * kraft::rootless(orig, codesize@, 257)
                == pow2(257)
        },
{
    let mut lengths: Vec<u32> = Vec::new();
    while lengths.len() <= MOST_MERGE_BITS
        invariant
            lengths@.len() <= MOST_MERGE_BITS + 1,
            forall|l: int| 0 <= l < lengths@.len() ==> lengths@[l] == 0,
        decreases MOST_MERGE_BITS + 1 - lengths@.len(),
    {
        lengths.push(0);
    }
    proof {
        lemma_sum_u32_zero(lengths@, 33);
        assert(kraft::kraft_upto(lengths@, 33) == 0) by {
            lemma_kraft_zero(lengths@, 33);
        }
    }
    let mut s: usize = 0;
    while s < SYMBOL_SLOTS
        invariant
            codesize@.len() == SYMBOL_SLOTS,
            orig.len() == SYMBOL_SLOTS,
            forall|t: int| 0 <= t < 257 ==> #[trigger] codesize@[t] <= 256,
            forall|t: int| 0 <= t < 257 && orig[t] == 0 ==> #[trigger] codesize@[t] == 0,
            lengths@.len() == MOST_MERGE_BITS + 1,
            lengths@[0] == 0,
            s <= SYMBOL_SLOTS,
            sum_u32(lengths@, 33) <= s,
            sum_u32(lengths@, 33) == coded(codesize@, s as int),
            forall|l: int| 0 <= l < 33 ==> lengths@[l] <= s,
            forall|t: int| 0 <= t < s ==> #[trigger] codesize@[t] <= 32,
            pow2(225) * kraft::kraft_upto(lengths@, 33) + pow2(257) * kraft::rootless(orig, codesize@, s as int)
                == kraft::tree_weight(orig, codesize@, s as int),
            forall|l: int| 1 <= l < 33 ==> #[trigger] lengths@[l] == of_length(codesize@, l, s as int),
        decreases SYMBOL_SLOTS - s,
    {
        let size = codesize[s];
        if size != 0 {
            if size as usize > MOST_MERGE_BITS {
                proof {
                    assert(codesize@[s as int] > 32);
                }
                return Err(String::from_str("A symbol on this page needs a code longer than 32 bits."));
            }
            let old = lengths[size as usize];
            let ghost prev = lengths@;
            lengths.set(size as usize, old + 1);
            proof {
                lemma_sum_u32_update(prev, size as int, (old + 1) as u32, 33);
                kraft::lemma_kraft_update(prev, size as int, (old + 1) as u32, 33);
                kraft::lemma_weight_scaled(size);
                let k = kraft::kraft_upto(prev, 33);
                let p = pow2((32 - size) as nat) as int;
                assert(lengths@ == prev.update(size as int, (old + 1) as u32));
                assert(prev[size as int] == old);
                assert((old + 1) as u32 - prev[size as int] == 1);
                assert(((old + 1) as u32 - prev[size as int]) * p == p) by (nonlinear_arith)
                    requires
                        (old + 1) as u32 - prev[size as int] == 1,
                ;
                assert(kraft::kraft_upto(lengths@, 33) == k + p);
                assert(pow2(225) * (k + p) == pow2(225) * k + pow2(225) * p) by (nonlinear_arith);
                assert(orig[s as int] > 0);
                assert(kraft::tree_weight(orig, codesize@, s + 1) == kraft::tree_weight(orig, codesize@, s as int)
                    + kraft::weight(size));
                assert(kraft::rootless(orig, codesize@, s + 1) == kraft::rootless(orig, codesize@, s as int));
            }
        } else {
            proof {
                if orig[s as int] > 0 {
                    assert(kraft::weight(0) == pow2(257));
                    let r = kraft::rootless(orig, codesize@, s as int);
                    assert(pow2(257) * (r + 1) == pow2(257) * r + pow2(257)) by (nonlinear_arith);
                    assert(kraft::rootless(orig, codesize@, s + 1) == r + 1);
                    assert(kraft::tree_weight(orig, codesize@, s + 1) == kraft::tree_weight(orig, codesize@, s as int)
                        + pow2(257));
                } else {
                    assert(kraft::rootless(orig, codesize@, s + 1) == kraft::rootless(orig, codesize@, s as int));
                    assert(kraft::tree_weight(orig, codesize@, s + 1) == kraft::tree_weight(orig, codesize@, s as int));
                }
            }
        }
        s = s + 1;
    }
    proof {
        assert forall|l: int| 0 <= l < 33 implies #[trigger] lengths@[l] == depth_counts(codesize@)[l] by {
            if l > 0 {
                lemma_of_length_bound(codesize@, l, 257);
            }
        }
        assert(lengths@ =~= depth_counts(codesize@));
    }
    Ok(lengths)
}

proof fn lemma_of_length_bound(cs: Seq<u16>, len: int, n: int)
    requires
        0 <= n,
    ensures
        0 <= of_length(cs, len, n) <= n,
    decreases n,
{
    if n > 0 {
        lemma_of_length_bound(cs, len, n - 1);
    }
}

proof fn lemma_kraft_zero(lengths: Seq<u32>, m: int)
    requires
        0 <= m <= lengths.len(),
        forall|l: int| 0 <= l < lengths.len() ==> lengths[l] == 0,
    ensures
        kraft::kraft_upto(lengths, m) == 0,
    decreases m,
{
    if m > 0 {
        lemma_kraft_zero(lengths, m - 1);
    }
}

/// Trades every length over 16 bits back down the way Annex K does it: two of the
/// longest codes give up their place and a shorter one becomes a prefix instead of a
/// symbol. The codes take the same space before and after.
fn trade_down(lengths: &mut Vec<u32>) -> (res: Result<(), String>)
    requires
        old(lengths)@.len() == MOST_MERGE_BITS + 1,
        old(lengths)@[0] == 0,
        sum_u32(old(lengths)@, 33) <= 257,
        forall|l: int| 0 <= l < 33 ==> #[trigger] old(lengths)@[l] <= 257,
    ensures
        final(lengths)@.len() == MOST_MERGE_BITS + 1,
        res matches Err(e) ==> e@ == no_trade_sentence() || e@ == no_prefix_sentence(),
        kraft::kraft_upto(old(lengths)@, 33) == pow2(32) ==> res is Ok,
        res is Ok ==> {
            &&& final(lengths)@[0] == 0
            &&& sum_u32(final(lengths)@, 33) == sum_u32(old(lengths)@, 33)
            &&& kraft::kraft_upto(final(lengths)@, 33) == kraft::kraft_upto(old(lengths)@, 33)
            &&& forall|l: int| 17 <= l < 33 ==> #[trigger] final(lengths)@[l] == 0
            &&& final(lengths)@ == traded_down(old(lengths)@, 32)
        },
{
    let ghost space = kraft::kraft_upto(lengths@, 33);
    let ghost total = sum_u32(lengths@, 33);
    let mut len: usize = MOST_MERGE_BITS;
    while len > 16
        invariant
            lengths@.len() == MOST_MERGE_BITS + 1,
            16 <= len <= 32,
            sum_u32(lengths@, 33) <= 257,
            sum_u32(lengths@, 33) == total,
            space == kraft::kraft_upto(old(lengths)@, 33),
            forall|l: int| 0 <= l < 33 ==> lengths@[l] <= 257,
            lengths@[0] == 0,
            kraft::kraft_upto(lengths@, 33) == space,
            forall|l: int| len < l < 33 ==> #[trigger] lengths@[l] == 0,
            traded_down(lengths@, len as int) == traded_down(old(lengths)@, 32),
        decreases len,
    {
        proof {
            assert(traded_down(lengths@, len as int) == traded_down(trade_at(lengths@, len as int), len - 1));
        }
        while lengths[len] > 0
            invariant
                lengths@.len() == MOST_MERGE_BITS + 1,
                17 <= len <= 32,
                sum_u32(lengths@, 33) <= 257,
                sum_u32(lengths@, 33) == total,
                space == kraft::kraft_upto(old(lengths)@, 33),
                forall|l: int| 0 <= l < 33 ==> lengths@[l] <= 257,
                lengths@[0] == 0,
                kraft::kraft_upto(lengths@, 33) == space,
                forall|l: int| len < l < 33 ==> #[trigger] lengths@[l] == 0,
                traded_down(trade_at(lengths@, len as int), len - 1) == traded_down(old(lengths)@, 32),
            decreases lengths@[len as int],
        {
            if lengths[len] < 2 {
                proof {
                    if space == pow2(32) {
                        kraft::lemma_full_space(lengths@, len as int);
                        lemma_pow2_unfold(len as nat);
                        assert(kraft::kraft_units(lengths@, len + 1) == 2 * kraft::kraft_units(lengths@, len as int) + 1);
                        assert(false);
                    }
                }
                return Err(String::from_str("The code lengths on this page cannot be traded down."));
            }
            let mut prefix: usize = len - 2;
            while lengths[prefix] == 0
                invariant
                    lengths@.len() == MOST_MERGE_BITS + 1,
                    prefix <= len - 2,
                    17 <= len <= 32,
                    lengths@[0] == 0,
                    forall|j: int| prefix < j <= len - 2 ==> #[trigger] lengths@[j] == 0,
                    forall|l: int| 0 <= l < 33 ==> lengths@[l] <= 257,
                    forall|l: int| len < l < 33 ==> #[trigger] lengths@[l] == 0,
                    kraft::kraft_upto(lengths@, 33) == space,
                    space == kraft::kraft_upto(old(lengths)@, 33),
                    prefix_below(lengths@, len - 2) == prefix_below(lengths@, prefix as int),
                decreases prefix,
            {
                if prefix == 0 {
                    proof {
                        if space == pow2(32) {
                            kraft::lemma_full_space(lengths@, len as int);
                            kraft::lemma_units_zero(lengths@, len - 1);
                            assert(kraft::kraft_units(lengths@, len as int) == 2 * kraft::kraft_units(lengths@, len - 1)
                                + lengths@[len - 1]);
                            assert(kraft::kraft_units(lengths@, len + 1) == 2 * kraft::kraft_units(lengths@, len as int)
                                + lengths@[len as int]);
                            if len > 17 {
                                lemma_pow2_strictly_increases(17, len as nat);
                            }
                            assert(pow2(17) == 131072) by {
                                lemma2_to64();
                            }
                            assert(false);
                        }
                    }
                    return Err(
                        String::from_str("The code lengths on this page cannot be brought under 16 bits."),
                    );
                }
                prefix = prefix - 1;
            }
            let ghost l0 = lengths@;
            proof {
                assert(prefix_below(l0, prefix as int) == prefix);
            }
            let a = lengths[len];
            lengths.set(len, a - 2);
            let ghost l1 = lengths@;
            let b = lengths[len - 1];
            lengths.set(len - 1, b + 1);
            let ghost l2 = lengths@;
            let c = lengths[prefix + 1];
            lengths.set(prefix + 1, c + 2);
            let ghost l3 = lengths@;
            let d = lengths[prefix];
            lengths.set(prefix, d - 1);
            proof {
                assert(trade_at(l0, len as int) == trade_at(lengths@, len as int)) by {
                    assert(lengths@ =~= trade_once(l0, len as int));
                }
                assert(prefix >= 1) by {
                    if prefix == 0 {
                        assert(l0[0] == 0);
                    }
                }
                lemma_sum_u32_update(l0, len as int, (a - 2) as u32, 33);
                lemma_sum_u32_update(l1, len - 1, (b + 1) as u32, 33);
                lemma_sum_u32_update(l2, prefix + 1, (c + 2) as u32, 33);
                lemma_sum_u32_update(l3, prefix as int, (d - 1) as u32, 33);
                kraft::lemma_kraft_update(l0, len as int, (a - 2) as u32, 33);
                kraft::lemma_kraft_update(l1, len - 1, (b + 1) as u32, 33);
                kraft::lemma_kraft_update(l2, prefix + 1, (c + 2) as u32, 33);
                kraft::lemma_kraft_update(l3, prefix as int, (d - 1) as u32, 33);
                kraft::lemma_trade_keeps_space(len as int, prefix as int);
                let p1 = pow2((32 - len) as nat) as int;
                let p2 = pow2((32 - (len - 1)) as nat) as int;
                let p3 = pow2((32 - (prefix + 1)) as nat) as int;
                assert(l0[len as int] == a && l1[len - 1] == b && l2[prefix + 1] == c);
                assert((((a - 2) as u32) - l0[len as int]) * p1 == -2 * p1) by (nonlinear_arith)
                    requires
                        l0[len as int] == a,
                        a >= 2,
                ;
                assert((((b + 1) as u32) - l1[len - 1]) * p2 == p2) by (nonlinear_arith)
                    requires
                        l1[len - 1] == b,
                        b + 1 <= u32::MAX,
                ;
                assert((((c + 2) as u32) - l2[prefix + 1]) * p3 == 2 * p3) by (nonlinear_arith)
                    requires
                        l2[prefix + 1] == c,
                        c + 2 <= u32::MAX,
                ;
                assert(kraft::kraft_upto(l1, 33) == kraft::kraft_upto(l0, 33) - 2 * pow2((32 - len) as nat));
                assert(kraft::kraft_upto(l2, 33) == kraft::kraft_upto(l1, 33) + pow2((32 - (len - 1)) as nat));
                assert(kraft::kraft_upto(l3, 33) == kraft::kraft_upto(l2, 33) + 2 * pow2((32 - (prefix + 1)) as nat));
                assert(l3[prefix as int] == d);
                let q = pow2((32 - prefix) as nat) as int;
                assert((((d - 1) as u32) - l3[prefix as int]) * q == -q) by (nonlinear_arith)
                    requires
                        l3[prefix as int] == d,
                        d >= 1,
                ;
                assert(kraft::kraft_upto(lengths@, 33) == kraft::kraft_upto(l3, 33) - pow2((32 - prefix) as nat));
                assert forall|l: int| 0 <= l < 33 implies lengths@[l] <= 257 by {
                    lemma_sum_u32_part(lengths@, l, 33);
                }
            }
        }
        len = len - 1;
    }
    Ok(())
}

/// Turns symbol counts into the shortest code lengths JPEG can express.
///
/// Huffman's own method: join the two rarest symbols over and over, ties going to
/// the higher symbol because that is the order libjpeg scans in. Then every length
/// over 16 bits is traded back down the way Annex K does it, and the reserved code
/// point is given back. What comes out is a prefix code in which every counted
/// symbol has a code word; a step that cannot go on stops with a sentence saying
/// which.
pub fn optimal_table(counted: &Vec<u64>) -> (res: Result<Table, String>)
    requires
        counted@.len() == SYMBOL_SLOTS,
        sum_u64(counted@, SYMBOL_SLOTS as int) < u64::MAX,
    ensures
        res matches Ok(t) ==> t.wf() && kraft::proper_code(t.counts@) && forall|s: int|
            0 <= s < 256 && counted@[s] > 0 ==> #[trigger] t.symbols@.contains(s as u8),
        res matches Err(e) ==> table_refused(e@),
        (exists|a: int| 0 <= a < 256 && #[trigger] counted@[a] > 0) ==> (res matches Err(e) ==> e@
            == longer_than_32_sentence()),
        (exists|a: int| 0 <= a < 256 && #[trigger] counted@[a] > 0) ==> (res is Ok <==> depths_fit(
            huffman_depths_of(counted@.update(256, 1u64)),
        )),
        res matches Ok(t) ==> forall|i: int| 0 <= i < t.symbols@.len() ==> counted@[#[trigger] t.symbols@[i] as int] > 0,
        res matches Ok(t) ==> forall|i: int, j: int|
            0 <= i < j < t.symbols@.len() ==> #[trigger] t.symbols@[i] != #[trigger] t.symbols@[j],
        res matches Ok(t) ==> exists|l: int| 1 <= l <= 16 && #[trigger] kraft::one_word_free(t.counts@, l),
        res matches Ok(t) ==> t.counts@ == libjpeg_counts(huffman_depths_of(counted@.update(256, 1u64))),
        res matches Ok(t) ==> forall|i: int, j: int|
            0 <= i < j < t.symbols@.len() ==> placed_before(
                huffman_depths_of(counted@.update(256, 1u64)),
                #[trigger] t.symbols@[i],
                #[trigger] t.symbols@[j],
            ),
{
    let mut freq: Vec<u64> = counted.clone();
    proof {
        assert(freq@ =~= counted@);
    }
    freq.set(SYMBOL_SLOTS - 1, 1);
    proof {
        lemma_sum_u64_update(counted@, 256, 1, 257);
    }
    let ghost orig = freq@;
    let codesize = huffman_depths(freq);
    let mut lengths = match length_counts(&codesize, Ghost(orig)) {
        Ok(l) => l,
        Err(e) => {
            return Err(e);
        },
    };
    let ghost counted_space = kraft::kraft_upto(lengths@, 33);
    let ghost counted_lengths = lengths@;
    let ghost some = exists|a: int| 0 <= a < 256 && #[trigger] counted@[a] > 0;
    proof {
        if some {
            let a = choose|a: int| 0 <= a < 256 && #[trigger] counted@[a] > 0;
            assert(orig[a] == counted@[a]);
            lemma_fills_space(orig, codesize@, lengths@, a);
        }
    }
    match trade_down(&mut lengths) {
        Ok(()) => {},
        Err(e) => {
            return Err(e);
        },
    }
    let mut longest: usize = 16;
    while lengths[longest] == 0
        invariant
            lengths@.len() == MOST_MERGE_BITS + 1,
            longest <= 16,
            lengths@[0] == 0,
            forall|l: int| longest < l <= 16 ==> #[trigger] lengths@[l] == 0,
            forall|l: int| 17 <= l < 33 ==> #[trigger] lengths@[l] == 0,
            some == (exists|a: int| 0 <= a < 256 && #[trigger] counted@[a] > 0),
            some ==> kraft::kraft_upto(lengths@, 33) == pow2(32),
            longest_in(lengths@, 16) == longest_in(lengths@, longest as int),
        decreases longest,
    {
        if longest == 0 {
            proof {
                if some {
                    lemma_kraft_zero(lengths@, 33);
                    lemma_pow2_pos(32);
                }
            }
            return Err(String::from_str("A Huffman table for this page came out empty."));
        }
        longest = longest - 1;
    }
    proof {
        assert(longest >= 1);
        lemma_pow2_pos((32 - longest) as nat);
        lemma_kraft_has_term(lengths@, longest as int, 33);
        assert(lengths@[longest as int] * pow2((32 - longest) as nat) > 0) by (nonlinear_arith)
            requires
                lengths@[longest as int] > 0,
                pow2((32 - longest) as nat) > 0,
        ;
        lemma_pow2_pos((32 - longest) as nat);
        lemma_pow2_pos(225);
        lemma_pow2_adds(225, 32);
        lemma_rootless_nonnegative(orig, codesize@, 257);
        let k = kraft::kraft_upto(lengths@, 33);
        let r = kraft::rootless(orig, codesize@, 257);
        assert(k > 0);
        assert(r == 0 && k == pow2(32)) by (nonlinear_arith)
            requires
                pow2(225) * k + pow2(257) * r == pow2(257),
                pow2(257) == pow2(225) * pow2(32),
                k > 0,
                r >= 0,
                pow2(225) > 0,
        ;
        lemma_rootless_none(orig, codesize@, 257);
    }
    let ghost traded = lengths@;
    let e = lengths[longest];
    lengths.set(longest, e - 1);
    proof {
        kraft::lemma_kraft_update(traded, longest as int, (e - 1) as u32, 33);
        lemma_pow2_pos((32 - longest) as nat);
        let q = pow2((32 - longest) as nat) as int;
        assert(traded[longest as int] == e);
        assert((((e - 1) as u32) - traded[longest as int]) * q == -q) by (nonlinear_arith)
            requires
                traded[longest as int] == e,
                e >= 1,
        ;
        assert(kraft::kraft_upto(traded, 33) == pow2(32));
        assert(kraft::kraft_upto(lengths@, 33) < pow2(32));
        assert(kraft::kraft_upto(lengths@, 33) + pow2((32 - longest) as nat) == pow2(32));
    }
    let ghost removed = lengths@;
    proof {
        if some {
            lemma_sum_u32_update(traded, longest as int, (e - 1) as u32, 33);
            lemma_coded_bounds(codesize@, 257);
            assert(kraft::kraft_upto(removed, 33) + pow2((32 - longest) as nat) == pow2(32));
            assert forall|j: int| longest < j < 33 implies #[trigger] removed[j] == 0 by {
                assert(removed[j] == traded[j]);
            }
            assert forall|l: int| 1 <= l <= 16 implies #[trigger] removed[l] < 256 by {
                lemma_not_crowded(removed, longest as int, l);
            }
        }
    }
    let mut counts: Vec<u8> = Vec::new();
    let mut len: usize = 1;
    while len <= 16
        invariant
            lengths@ == removed,
            lengths@.len() == MOST_MERGE_BITS + 1,
            1 <= len <= 17,
            counts@.len() == len - 1,
            forall|k: int| 1 <= k < len ==> #[trigger] lengths@[k] == counts@[k - 1],
            some == (exists|a: int| 0 <= a < 256 && #[trigger] counted@[a] > 0),
            some ==> forall|l: int| 1 <= l <= 16 ==> #[trigger] removed[l] < 256,
        decreases 17 - len,
    {
        if lengths[len] > 255 {
            proof {
                if some {
                    assert(removed[len as int] < 256);
                }
            }
            return Err(
                String::from_str("A Huffman table for this page needs more than 255 codes of one length."),
            );
        }
        counts.push(lengths[len] as u8);
        len = len + 1;
    }
    proof {
        assert(lengths@[0] == traded[0]);
        assert forall|k: int| 17 <= k < 33 implies #[trigger] lengths@[k] == 0 by {
            assert(lengths@[k] == traded[k]);
        }
        kraft::lemma_kraft_scales(lengths@, counts@, 16);
        kraft::lemma_kraft_tail(lengths@, 33);
        lemma_pow2_adds(16, 16);
        lemma_pow2_pos(16);
        assert(kraft::kraft16(counts@, 16) <= pow2(16)) by (nonlinear_arith)
            requires
                pow2(16) * kraft::kraft16(counts@, 16) < pow2(32),
                pow2(32) == pow2(16) * pow2(16),
                pow2(16) > 0,
        ;
        kraft::lemma_proper_code(counts@);
    }
    let mut symbols: Vec<u8> = Vec::new();
    let mut size: u16 = 1;
    proof {
        lemma_shorter_than_next(codesize@, 1, 256);
    }
    while size <= MOST_MERGE_BITS as u16
        invariant
            codesize@.len() == SYMBOL_SLOTS,
            1 <= size <= 33,
            symbols@.len() <= 256 * (size - 1),
            symbols@.len() == shorter_than(codesize@, size as int, 256),
            forall|i: int| 0 <= i < symbols@.len() ==> 1 <= #[trigger] codesize@[symbols@[i] as int] < size,
            forall|i: int, j: int| 0 <= i < j < symbols@.len() ==> #[trigger] symbols@[i] != #[trigger] symbols@[j],
            forall|i: int, j: int|
                0 <= i < j < symbols@.len() ==> placed_before(codesize@, #[trigger] symbols@[i], #[trigger] symbols@[j]),
            forall|s: int| 0 <= s < 256 && 1 <= codesize@[s] < size ==> #[trigger] symbols@.contains(s as u8),
        decreases 33 - size,
    {
        let mut symbol: usize = 0;
        while symbol < 256
            invariant
                codesize@.len() == SYMBOL_SLOTS,
                1 <= size <= 32,
                symbol <= 256,
                symbols@.len() <= 256 * (size - 1) + symbol,
                symbols@.len() == shorter_than(codesize@, size as int, 256) + of_length(codesize@, size as int, symbol as int),
                forall|i: int|
                    0 <= i < symbols@.len() ==> (1 <= #[trigger] codesize@[symbols@[i] as int] < size || (codesize@[symbols@[i] as int]
                        == size && symbols@[i] < symbol)),
                forall|i: int, j: int| 0 <= i < j < symbols@.len() ==> #[trigger] symbols@[i] != #[trigger] symbols@[j],
                forall|i: int, j: int|
                    0 <= i < j < symbols@.len() ==> placed_before(codesize@, #[trigger] symbols@[i], #[trigger] symbols@[j]),
                forall|s: int| 0 <= s < 256 && 1 <= codesize@[s] < size ==> #[trigger] symbols@.contains(s as u8),
                forall|s: int| 0 <= s < symbol && codesize@[s] == size ==> #[trigger] symbols@.contains(s as u8),
            decreases 256 - symbol,
        {
            let ghost before = symbols@;
            if codesize[symbol] == size {
                symbols.push(symbol as u8);
                proof {
                    assert(symbols@[symbols@.len() - 1] == symbol as u8);
                    assert forall|i: int, j: int| 0 <= i < j < symbols@.len() implies #[trigger] symbols@[i]
                        != #[trigger] symbols@[j] by {
                        if j == symbols@.len() - 1 {
                            assert(symbols@[i] == before[i]);
                            assert(codesize@[before[i] as int] < size || before[i] < symbol);
                        } else {
                            assert(symbols@[i] == before[i] && symbols@[j] == before[j]);
                        }
                    }
                    assert forall|i: int, j: int| 0 <= i < j < symbols@.len() implies placed_before(
                        codesize@,
                        #[trigger] symbols@[i],
                        #[trigger] symbols@[j],
                    ) by {
                        if j == symbols@.len() - 1 {
                            assert(symbols@[i] == before[i]);
                        } else {
                            assert(symbols@[i] == before[i] && symbols@[j] == before[j]);
                        }
                    }
                }
            }
            proof {
                assert(symbols@.len() >= before.len());
                assert(forall|k: int| 0 <= k < before.len() ==> symbols@[k] == before[k]);
                assert forall|s: int| 0 <= s < 256 && 1 <= codesize@[s] < size implies #[trigger] symbols@.contains(s as u8) by {
                    assert(before.contains(s as u8));
                    let k = choose|k: int| 0 <= k < before.len() && before[k] == s as u8;
                    assert(symbols@[k] == s as u8);
                }
                assert forall|s: int| 0 <= s < symbol + 1 && codesize@[s] == size implies #[trigger] symbols@.contains(s as u8) by {
                    if s < symbol {
                        assert(before.contains(s as u8));
                        let k = choose|k: int| 0 <= k < before.len() && before[k] == s as u8;
                        assert(symbols@[k] == s as u8);
                    } else {
                        assert(symbols@[symbols@.len() - 1] == s as u8);
                    }
                }
            }
            symbol = symbol + 1;
        }
        proof {
            lemma_shorter_than_next(codesize@, size as int, 256);
        }
        size = size + 1;
    }
    proof {
        assert forall|s: int| 0 <= s < 256 && counted@[s] > 0 implies #[trigger] symbols@.contains(s as u8) by {
            assert(orig[s] == counted@[s]);
            assert(codesize@[s] != 0);
            assert(codesize@[s] <= 32);
        }
    }
    proof {
        assert(orig =~= counted@.update(256, 1u64));
        assert(longest_in(traded, 16) == longest);
        assert(counts@ =~= Seq::new(16, |i: int| removed[i + 1] as u8));
        assert(counts@ == libjpeg_counts(huffman_depths_of(counted@.update(256, 1u64))));
        assert forall|i: int| 0 <= i < symbols@.len() implies counted@[#[trigger] symbols@[i] as int] > 0 by {
            let t = symbols@[i] as int;
            assert(codesize@[t] != 0);
            assert(orig[t] == counted@[t]);
        }
        lemma_pow2_adds(16, (16 - longest) as nat);
        lemma_pow2_adds(16, 16);
        lemma_pow2_pos(16);
        let k16 = kraft::kraft16(counts@, 16);
        let q = pow2((16 - longest) as nat);
        assert(pow2(16) * k16 + pow2(16) * q == pow2(16) * pow2(16));
        assert(k16 + q == pow2(16)) by (nonlinear_arith)
            requires
                pow2(16) * k16 + pow2(16) * q == pow2(16) * pow2(16),
                pow2(16) > 0,
        ;
        assert(kraft::one_word_free(counts@, longest as int));
        lemma_shorter_than_all(codesize@, 256);
        assert(orig[256] == 1);
        assert(codesize@[256] != 0);
        assert(coded(codesize@, 257) == coded(codesize@, 256) + 1);
        assert(sum_u32(traded, 33) == sum_u32(counted_lengths, 33));
        lemma_sum_u32_update(traded, longest as int, (e - 1) as u32, 33);
        assert(sum_u32(removed, 33) == sum_u32(traded, 33) - 1);
        lemma_sum_u32_tail(removed, 33);
        lemma_total_codes(removed, counts@, 16);
        assert(super::table::total_codes(counts@) == symbols@.len());
        assert forall|len: int| 1 <= len <= 16 && super::table::count_at(counts@, len) > 0 implies #[trigger] super::table::first_code(
            counts@,
            len,
        ) + super::table::count_at(counts@, len) <= 0x10000 by {
            assert(super::table::first_code(counts@, len) + super::table::count_at(counts@, len) <= pow2(len as nat));
            if len < 16 {
                lemma_pow2_strictly_increases(len as nat, 16);
            }
            assert(pow2(16) == 0x10000) by {
                lemma2_to64();
            }
        }
    }
    Table::new(counts, symbols)
}

} // verus!
