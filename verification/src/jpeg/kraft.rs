//! Why the tables the recoder builds are prefix codes: the code lengths of a Huffman
//! tree fill exactly the space of code words (Kraft's equality), trading lengths
//! down under 16 bits keeps that, giving the reserved code point back leaves room,
//! and counts that leave room give every length its canonical code words inside
//! that many bits.
//!
//! Weights are counted in units of 2^-257 of the whole space, so that every depth a
//! tree over 257 symbols can reach is a whole number of units.

use vstd::prelude::*;
use vstd::arithmetic::power2::*;
use super::table;

verus! {

/// The share of the code space a symbol at depth `c` takes, in units of 2^-257.
pub open spec fn weight(c: u16) -> int {
    pow2((257 - c) as nat) as int
}

/// The weight of the symbols among the first `n` whose tree is rooted at `r`.
pub open spec fn group_weight(group: Seq<usize>, cs: Seq<u16>, r: int, n: int) -> int
    decreases n,
{
    if n <= 0 {
        0
    } else {
        group_weight(group, cs, r, n - 1) + (if group[n - 1] == r {
            weight(cs[n - 1])
        } else {
            0int
        })
    }
}

/// Where symbol `t` belongs once the trees rooted at `first` and `other` are joined.
pub open spec fn joined_root(group: Seq<usize>, first: usize, other: usize, t: int) -> usize {
    if group[t] == first || group[t] == other {
        first
    } else {
        group[t]
    }
}

/// Symbol `t`'s depth once the trees rooted at `first` and `other` are joined: one
/// more for every symbol of either.
pub open spec fn joined_depth(group: Seq<usize>, cs: Seq<u16>, first: usize, other: usize, t: int) -> int {
    if group[t] == first || group[t] == other {
        cs[t] + 1
    } else {
        cs[t] as int
    }
}

proof fn lemma_weight_halves(c: u16)
    requires
        c <= 256,
    ensures
        weight((c + 1) as u16) * 2 == weight(c),
{
    lemma_pow2_unfold((257 - c) as nat);
}

/// Joining two trees halves the weight of each of their symbols, so the joined tree
/// weighs half of the two together; no other tree changes.
pub proof fn lemma_join_weights(
    group: Seq<usize>,
    cs: Seq<u16>,
    g2: Seq<usize>,
    c2: Seq<u16>,
    first: usize,
    other: usize,
    r: int,
    n: int,
)
    requires
        0 <= n <= group.len(),
        n <= cs.len(),
        n <= g2.len(),
        n <= c2.len(),
        first != other,
        forall|t: int| 0 <= t < n ==> #[trigger] g2[t] == joined_root(group, first, other, t),
        forall|t: int| 0 <= t < n ==> #[trigger] c2[t] == joined_depth(group, cs, first, other, t),
        forall|t: int| 0 <= t < n ==> #[trigger] cs[t] <= 256,
    ensures
        group_weight(g2, c2, first as int, n) * 2 == group_weight(group, cs, first as int, n)
            + group_weight(group, cs, other as int, n),
        r != first && r != other ==> group_weight(g2, c2, r, n) == group_weight(group, cs, r, n),
    decreases n,
{
    if n > 0 {
        lemma_join_weights(group, cs, g2, c2, first, other, r, n - 1);
        let t = n - 1;
        assert(g2[t] == joined_root(group, first, other, t));
        assert(c2[t] == joined_depth(group, cs, first, other, t));
        assert(cs[t] <= 256);
        if group[t] == first || group[t] == other {
            lemma_weight_halves(cs[t]);
            assert(c2[t] == cs[t] + 1);
        }
    }
}

/// The weight of the first `n` symbols that take part in the tree.
pub open spec fn tree_weight(orig: Seq<u64>, cs: Seq<u16>, n: int) -> int
    decreases n,
{
    if n <= 0 {
        0
    } else {
        tree_weight(orig, cs, n - 1) + (if orig[n - 1] > 0 {
            weight(cs[n - 1])
        } else {
            0int
        })
    }
}

/// When the symbols of one tree are exactly the ones that take part, the tree's
/// weight is theirs.
pub proof fn lemma_tree_is_group(orig: Seq<u64>, group: Seq<usize>, cs: Seq<u16>, r: int, n: int)
    requires
        0 <= n <= orig.len(),
        n <= group.len(),
        forall|s: int| 0 <= s < n ==> (orig[s] > 0 <==> #[trigger] group[s] == r),
    ensures
        tree_weight(orig, cs, n) == group_weight(group, cs, r, n),
    decreases n,
{
    if n > 0 {
        lemma_tree_is_group(orig, group, cs, r, n - 1);
        assert(orig[n - 1] > 0 <==> group[n - 1] == r);
    }
}

/// How many of the first `n` symbols take part in the tree with no depth at all.
pub open spec fn rootless(orig: Seq<u64>, cs: Seq<u16>, n: int) -> int
    decreases n,
{
    if n <= 0 {
        0
    } else {
        rootless(orig, cs, n - 1) + (if orig[n - 1] > 0 && cs[n - 1] == 0 {
            1int
        } else {
            0int
        })
    }
}

/// The space the codes of each length take, lengths below `m`, in units of 2^-32.
pub open spec fn kraft_upto(lengths: Seq<u32>, m: int) -> int
    decreases m,
{
    if m <= 0 {
        0
    } else {
        kraft_upto(lengths, m - 1) + lengths[m - 1] * pow2((32 - (m - 1)) as nat)
    }
}

/// Changing how many codes one length has changes the space they take by that many
/// codes of that length.
pub proof fn lemma_kraft_update(lengths: Seq<u32>, k: int, v: u32, m: int)
    requires
        0 <= k < lengths.len(),
        0 <= m <= lengths.len(),
    ensures
        kraft_upto(lengths.update(k, v), m) == kraft_upto(lengths, m) + (if k < m {
            (v - lengths[k]) * pow2((32 - k) as nat)
        } else {
            0int
        }),
    decreases m,
{
    if m > 0 {
        lemma_kraft_update(lengths, k, v, m - 1);
        if m - 1 == k {
            assert(lengths.update(k, v)[k] == v);
            assert((v - lengths[k]) * pow2((32 - k) as nat) == v * pow2((32 - k) as nat) - lengths[k]
                * pow2((32 - k) as nat)) by (nonlinear_arith);
        }
    }
}

pub proof fn lemma_kraft_nonnegative(lengths: Seq<u32>, m: int)
    ensures
        kraft_upto(lengths, m) >= 0,
    decreases m,
{
    if m > 0 {
        lemma_kraft_nonnegative(lengths, m - 1);
        assert(lengths[m - 1] * pow2((32 - (m - 1)) as nat) >= 0) by (nonlinear_arith);
    }
}

/// The space the codes of the lengths below `m` take, in units of the space of one
/// code of length `m - 1`.
pub open spec fn kraft_units(lengths: Seq<u32>, m: int) -> int
    decreases m,
{
    if m <= 0 {
        0
    } else {
        2 * kraft_units(lengths, m - 1) + lengths[m - 1]
    }
}

/// The space the lengths below `m` take is a whole number of codes of length `m - 1`.
pub proof fn lemma_kraft_units(lengths: Seq<u32>, m: int)
    requires
        0 <= m <= 33,
    ensures
        kraft_upto(lengths, m) == pow2((33 - m) as nat) * kraft_units(lengths, m),
    decreases m,
{
    if m > 0 {
        lemma_kraft_units(lengths, m - 1);
        lemma_pow2_unfold((34 - m) as nat);
        let p = pow2((33 - m) as nat);
        let u = kraft_units(lengths, m - 1);
        assert(pow2((34 - m) as nat) == 2 * p);
        assert((2 * p) * u + lengths[m - 1] * p == p * (2 * u + lengths[m - 1])) by (nonlinear_arith);
    }
}

/// Lengths that are zero from `from` on take no more space than those below it.
pub proof fn lemma_kraft_zero_tail(lengths: Seq<u32>, from: int, m: int)
    requires
        0 <= from <= m <= lengths.len(),
        forall|l: int| from <= l < m ==> #[trigger] lengths[l] == 0,
    ensures
        kraft_upto(lengths, m) == kraft_upto(lengths, from),
    decreases m,
{
    if m > from {
        lemma_kraft_zero_tail(lengths, from, m - 1);
    }
}

/// Lengths of at most `len` bits that fill the whole space are, counted in codes of
/// length `len`, exactly 2^len of them.
pub proof fn lemma_full_space(lengths: Seq<u32>, len: int)
    requires
        lengths.len() == 33,
        1 <= len <= 32,
        forall|l: int| len < l < 33 ==> #[trigger] lengths[l] == 0,
        kraft_upto(lengths, 33) == pow2(32),
    ensures
        kraft_units(lengths, len + 1) == pow2(len as nat),
{
    lemma_kraft_zero_tail(lengths, len + 1, 33);
    lemma_kraft_units(lengths, len + 1);
    lemma_pow2_adds((32 - len) as nat, len as nat);
    lemma_pow2_pos((32 - len) as nat);
    let p = pow2((32 - len) as nat);
    let u = kraft_units(lengths, len + 1);
    let q = pow2(len as nat);
    assert(u == q) by (nonlinear_arith)
        requires
            p > 0,
            p * u == p * q,
    ;
}

/// Lengths that are all zero below `m` take no space.
pub proof fn lemma_units_zero(lengths: Seq<u32>, m: int)
    requires
        m <= lengths.len(),
        forall|l: int| 0 <= l < m ==> #[trigger] lengths[l] == 0,
    ensures
        kraft_units(lengths, m) == 0,
    decreases m,
{
    if m > 0 {
        lemma_units_zero(lengths, m - 1);
    }
}

/// A symbol at depth `c`, counted at length `c`, weighs 2^225 units of 2^-32.
pub proof fn lemma_weight_scaled(c: u16)
    requires
        1 <= c <= 32,
    ensures
        weight(c) == pow2(225) * pow2((32 - c) as nat),
{
    lemma_pow2_adds(225, (32 - c) as nat);
}

/// The trade of Annex K: two codes of length `len` give up their place, one of them
/// moves up to `len - 1`, and a code of length `prefix` becomes the prefix of two
/// codes of length `prefix + 1`. The space they take is the same.
pub proof fn lemma_trade_keeps_space(len: int, prefix: int)
    requires
        1 <= prefix,
        prefix + 1 < len,
        len <= 32,
    ensures
        -2 * pow2((32 - len) as nat) + pow2((32 - (len - 1)) as nat) + 2 * pow2((32 - (prefix + 1)) as nat)
            - pow2((32 - prefix) as nat) == 0,
{
    lemma_pow2_unfold((32 - (len - 1)) as nat);
    lemma_pow2_unfold((32 - prefix) as nat);
}

/// The space the codes of lengths 1 to `l` take, in units of 2^-16.
pub open spec fn kraft16(counts: Seq<u8>, l: int) -> int
    decreases l,
{
    if l <= 0 {
        0
    } else {
        kraft16(counts, l - 1) + table::count_at(counts, l) * pow2((16 - l) as nat)
    }
}

/// The codes take the whole space but for one code word of length `l`: the all-ones
/// word of that length stays free.
pub open spec fn one_word_free(counts: Seq<u8>, l: int) -> bool {
    kraft16(counts, 16) + pow2((16 - l) as nat) == pow2(16)
}

/// Every length's canonical code words fit in that many bits.
pub open spec fn proper_code(counts: Seq<u8>) -> bool {
    forall|l: int| 1 <= l <= 16 ==> #[trigger] table::first_code(counts, l) + table::count_at(counts, l) <= pow2(
        l as nat,
    )
}

/// The first code of length `l`, shifted out to 16 bits, is the space the shorter
/// codes take.
proof fn lemma_first_code_space(counts: Seq<u8>, l: int)
    requires
        1 <= l <= 16,
    ensures
        table::first_code(counts, l) * pow2((16 - l) as nat) == kraft16(counts, l - 1),
    decreases l,
{
    if l > 1 {
        lemma_first_code_space(counts, l - 1);
        lemma_pow2_unfold((16 - (l - 1)) as nat);
        let a = table::first_code(counts, l - 1);
        let c = table::count_at(counts, l - 1);
        let p = pow2((16 - l) as nat) as int;
        assert(table::first_code(counts, l) == 2 * (a + c));
        assert(2 * (a + c) * p == a * (2 * p) + c * (2 * p)) by (nonlinear_arith);
    }
}

proof fn lemma_kraft16_grows(counts: Seq<u8>, a: int, b: int)
    requires
        0 <= a <= b,
    ensures
        kraft16(counts, a) <= kraft16(counts, b),
    decreases b - a,
{
    if a < b {
        lemma_kraft16_grows(counts, a, b - 1);
        assert(table::count_at(counts, b) * pow2((16 - b) as nat) >= 0) by (nonlinear_arith)
            requires
                table::count_at(counts, b) >= 0,
        ;
    }
}

/// Counts whose codes take no more than the whole space give every length its code
/// words within that many bits.
pub proof fn lemma_proper_code(counts: Seq<u8>)
    requires
        kraft16(counts, 16) <= pow2(16),
    ensures
        proper_code(counts),
{
    assert forall|l: int| 1 <= l <= 16 implies #[trigger] table::first_code(counts, l) + table::count_at(counts, l)
        <= pow2(l as nat) by {
        lemma_first_code_space(counts, l);
        lemma_kraft16_grows(counts, l, 16);
        lemma_pow2_adds(l as nat, (16 - l) as nat);
        lemma_pow2_pos((16 - l) as nat);
        let a = table::first_code(counts, l) + table::count_at(counts, l);
        let m = pow2((16 - l) as nat) as int;
        let b = pow2(l as nat) as int;
        assert(a * m == kraft16(counts, l)) by (nonlinear_arith)
            requires
                table::first_code(counts, l) * m == kraft16(counts, l - 1),
                kraft16(counts, l) == kraft16(counts, l - 1) + table::count_at(counts, l) * m,
                a == table::first_code(counts, l) + table::count_at(counts, l),
        ;
        assert(a <= b) by (nonlinear_arith)
            requires
                a * m <= b * m,
                m > 0,
        ;
    }
}

/// With nothing longer than 16 bits, the space counted in units of 2^-32 is the space
/// counted in units of 2^-16, scaled.
pub proof fn lemma_kraft_scales(lengths: Seq<u32>, counts: Seq<u8>, l: int)
    requires
        lengths.len() == 33,
        counts.len() == 16,
        0 <= l <= 16,
        lengths[0] == 0,
        forall|k: int| 1 <= k <= 16 ==> #[trigger] lengths[k] == counts[k - 1],
    ensures
        kraft_upto(lengths, l + 1) == pow2(16) * kraft16(counts, l),
    decreases l,
{
    if l > 0 {
        lemma_kraft_scales(lengths, counts, l - 1);
        let e = (16 - l) as nat;
        lemma_pow2_adds(16, e);
        assert((16 + e) as nat == (32 - l) as nat);
        assert(lengths[l] == counts[l - 1]);
        let p = pow2(e) as int;
        let q = pow2((32 - l) as nat) as int;
        assert(q == pow2(16) * p);
        let c = counts[l - 1] as int;
        assert(table::count_at(counts, l) == c);
        assert(kraft_upto(lengths, l + 1) == kraft_upto(lengths, l) + c * q);
        assert(c * q == pow2(16) * (c * p)) by (nonlinear_arith)
            requires
                q == pow2(16) * p,
        ;
        assert(pow2(16) * kraft16(counts, l - 1) + pow2(16) * (c * p) == pow2(16) * (kraft16(counts, l - 1) + c * p))
            by (nonlinear_arith);
    } else {
        assert(kraft_upto(lengths, 1) == kraft_upto(lengths, 0) + lengths[0] * pow2(32));
    }
}

/// Nothing counted above 16 bits adds no space.
pub proof fn lemma_kraft_tail(lengths: Seq<u32>, m: int)
    requires
        lengths.len() == 33,
        17 <= m <= 33,
        forall|k: int| 17 <= k < 33 ==> #[trigger] lengths[k] == 0,
    ensures
        kraft_upto(lengths, m) == kraft_upto(lengths, 17),
    decreases m,
{
    if m > 17 {
        lemma_kraft_tail(lengths, m - 1);
        assert(lengths[m - 1] == 0);
    }
}

} // verus!
