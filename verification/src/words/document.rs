//! Cutting a text into passages and putting the translation back.
//!
//! A translation is asked for one passage at a time: a whole file in one prompt runs
//! past what the model can hold, and one bad answer would spoil the entire text.
//! Cutting is lossless: every blank line and indent the file had is kept aside and
//! written back, so the translated file has the shape of the original.

use vstd::prelude::*;
use super::chars;

verus! {

/// One block of text and the empty space that followed it in the file.
#[derive(Debug, Clone, PartialEq, Eq)]
pub struct Passage {
    /// The text to translate. Never empty and never only spaces.
    pub text: String,
    /// The line breaks and spaces that stood between this passage and the next one.
    pub gap: String,
}

/// A file cut into passages, with every character accounted for.
#[derive(Debug, Clone, PartialEq, Eq)]
pub struct Document {
    /// The empty space before the first passage.
    pub opening_gap: String,
    /// The passages, in the order they stand in the file.
    pub passages: Vec<Passage>,
}

impl View for Passage {
    type V = (Seq<char>, Seq<char>);

    open spec fn view(&self) -> (Seq<char>, Seq<char>) {
        (self.text@, self.gap@)
    }
}

/// The passages as pairs of text and gap.
pub open spec fn passage_views(ps: Seq<Passage>) -> Seq<(Seq<char>, Seq<char>)> {
    ps.map_values(|p: Passage| p@)
}

/// A blank line: two line breaks in a row, at `i`.
pub open spec fn break_at(s: Seq<char>, i: int) -> bool {
    0 <= i && i + 1 < s.len() && s[i] == '\n' && s[i + 1] == '\n'
}

/// Whether `s` holds a blank line.
pub open spec fn has_break(s: Seq<char>) -> bool {
    exists|i: int| #[trigger] break_at(s, i)
}

/// The passages' texts, each followed by its gap.
pub open spec fn passages_text(ps: Seq<(Seq<char>, Seq<char>)>) -> Seq<char>
    decreases ps.len(),
{
    if ps.len() == 0 {
        seq![]
    } else {
        passages_text(ps.drop_last()) + ps.last().0 + ps.last().1
    }
}

/// Starts and ends with something other than white space.
pub open spec fn solid(t: Seq<char>) -> bool {
    t.len() > 0 && !chars::is_space(t[0]) && !chars::is_space(t.last())
}

/// How a text is cut: the opening gap and every gap are white space only, each
/// passage is solid and holds no blank line, and between two passages stands at
/// least one blank line.
pub open spec fn well_cut(opening: Seq<char>, ps: Seq<(Seq<char>, Seq<char>)>) -> bool {
    &&& chars::all_space(opening)
    &&& forall|k: int|
        0 <= k < ps.len() ==> solid(#[trigger] ps[k].0) && !has_break(ps[k].0) && chars::all_space(
            ps[k].1,
        )
    &&& forall|k: int| 0 <= k < ps.len() - 1 ==> has_break(#[trigger] ps[k].1)
}

/// Every character of `s` from `a` to `b` is white space.
pub open spec fn space_between(s: Seq<char>, a: int, b: int) -> bool {
    forall|i: int| a <= i < b ==> #[trigger] chars::is_space(s[i])
}

/// A blank line lies wholly between `a` and `b`.
pub open spec fn break_between(s: Seq<char>, a: int, b: int) -> bool {
    exists|i: int| a <= i && i + 1 < b && #[trigger] break_at(s, i)
}

/// Each passage of `bounds` lies inside `s`, starts and ends with something other
/// than white space and holds no blank line; and between two passages there is only
/// white space, with at least one blank line in it.
pub open spec fn bounds_inner(s: Seq<char>, bounds: Seq<(usize, usize)>) -> bool {
    &&& forall|k: int| 0 <= k < bounds.len() ==> (#[trigger] bounds[k]).0 < bounds[k].1 <= s.len()
    &&& forall|k: int|
        0 <= k < bounds.len() ==> !chars::is_space(s[(#[trigger] bounds[k]).0 as int]) && !chars::is_space(
            s[bounds[k].1 - 1],
        ) && !break_between(s, bounds[k].0 as int, bounds[k].1 as int)
    &&& forall|k: int|
        0 <= k < bounds.len() - 1 ==> (#[trigger] bounds[k]).1 <= bounds[k + 1].0 && space_between(
            s,
            bounds[k].1 as int,
            bounds[k + 1].0 as int,
        ) && break_between(s, bounds[k].1 as int, bounds[k + 1].0 as int)
}

/// The passages of `s` up to `e`: before the first one, and after the last one up
/// to `e`, there is only white space; with `sep`, a blank line stands after the
/// last one.
pub open spec fn cut_upto(s: Seq<char>, bounds: Seq<(usize, usize)>, e: int, sep: bool) -> bool {
    &&& 0 <= e <= s.len()
    &&& bounds_inner(s, bounds)
    &&& bounds.len() == 0 ==> space_between(s, 0, e)
    &&& bounds.len() > 0 ==> {
        &&& space_between(s, 0, bounds[0].0 as int)
        &&& bounds.last().1 <= e
        &&& space_between(s, bounds.last().1 as int, e)
        &&& sep ==> break_between(s, bounds.last().1 as int, e)
    }
}

/// Where the passages of `s` stand: `bounds[k]` runs from the first to past the
/// last character of passage `k`, and the whole text is cut.
pub open spec fn bounds_ok(s: Seq<char>, bounds: Seq<(usize, usize)>) -> bool {
    cut_upto(s, bounds, s.len() as int, false)
}

/// The first blank line at or after `from`, or the length when there is none.
fn next_break(s: &Vec<char>, from: usize) -> (j: usize)
    requires
        from <= s@.len(),
    ensures
        from <= j <= s@.len(),
        forall|i: int| from <= i < j ==> !#[trigger] break_at(s@, i),
        j < s@.len() ==> break_at(s@, j as int),
{
    let mut j: usize = from;
    while j < s.len()
        invariant
            from <= j <= s@.len(),
            forall|i: int| from <= i < j ==> !#[trigger] break_at(s@, i),
        decreases s@.len() - j,
    {
        if j + 1 < s.len() && s[j] == '\n' && s[j + 1] == '\n' {
            return j;
        }
        j = j + 1;
    }
    j
}

proof fn lemma_no_break_inside(s: Seq<char>, from: int, j: int, a: int, b: int)
    requires
        0 <= from <= a <= b <= j <= s.len(),
        forall|i: int| from <= i < j ==> !#[trigger] break_at(s, i),
    ensures
        !break_between(s, a, b),
{
    if break_between(s, a, b) {
        let i = choose|i: int| a <= i && i + 1 < b && #[trigger] break_at(s, i);
        assert(from <= i < j);
    }
}

/// A block with a passage in it: the state moves on past the block.
proof fn lemma_cut_passage(s: Seq<char>, bounds: Seq<(usize, usize)>, pos: int, a: usize, b: usize, j: int)
    requires
        cut_upto(s, bounds, pos, true),
        pos <= a < b <= j <= s.len(),
        space_between(s, pos, a as int),
        !chars::is_space(s[a as int]),
        !chars::is_space(s[b - 1]),
        !break_between(s, a as int, b as int),
        space_between(s, b as int, j),
    ensures
        cut_upto(s, bounds.push((a, b)), j, false),
{
    let nb = bounds.push((a, b));
    if bounds.len() > 0 {
        let p = bounds.last().1 as int;
        let i = choose|i: int| p <= i && i + 1 < pos && #[trigger] break_at(s, i);
        assert(break_between(s, p, a as int));
        assert forall|i: int| p <= i < a implies #[trigger] chars::is_space(s[i]) by {
            if i >= pos {
            }
        }
        assert(nb[bounds.len() - 1] == bounds.last());
        assert(nb[0] == bounds[0]);
    }
    assert forall|k: int| 0 <= k < nb.len() - 1 implies (#[trigger] nb[k]).1 <= nb[k + 1].0 && space_between(
        s,
        nb[k].1 as int,
        nb[k + 1].0 as int,
    ) && break_between(s, nb[k].1 as int, nb[k + 1].0 as int) by {
        if k < bounds.len() - 1 {
            assert(nb[k] == bounds[k]);
            assert(nb[k + 1] == bounds[k + 1]);
        }
    }
    assert forall|k: int| 0 <= k < nb.len() implies !chars::is_space(s[(#[trigger] nb[k]).0 as int])
        && !chars::is_space(s[nb[k].1 - 1]) && !break_between(s, nb[k].0 as int, nb[k].1 as int) by {
        if k < bounds.len() {
            assert(nb[k] == bounds[k]);
        }
    }
    assert forall|k: int| 0 <= k < nb.len() implies (#[trigger] nb[k]).0 < nb[k].1 <= s.len() by {
        if k < bounds.len() {
            assert(nb[k] == bounds[k]);
        }
    }
}

/// A block of white space only: the state moves on past the block.
proof fn lemma_cut_blank(s: Seq<char>, bounds: Seq<(usize, usize)>, pos: int, j: int, sep: bool)
    requires
        cut_upto(s, bounds, pos, sep),
        pos <= j <= s.len(),
        space_between(s, pos, j),
    ensures
        cut_upto(s, bounds, j, sep),
{
    if bounds.len() > 0 {
        let p = bounds.last().1 as int;
        assert forall|i: int| p <= i < j implies #[trigger] chars::is_space(s[i]) by {
            if i >= pos {
            }
        }
        if sep {
            let i = choose|i: int| p <= i && i + 1 < pos && #[trigger] break_at(s, i);
            assert(break_between(s, p, j));
        }
    } else {
        assert forall|i: int| 0 <= i < j implies #[trigger] chars::is_space(s[i]) by {
            if i >= pos {
            }
        }
    }
}

/// Past the blank line that ends a block.
proof fn lemma_cut_separator(s: Seq<char>, bounds: Seq<(usize, usize)>, j: int, sep: bool)
    requires
        cut_upto(s, bounds, j, sep),
        break_at(s, j),
    ensures
        cut_upto(s, bounds, j + 2, true),
{
    assert(chars::is_space(s[j]));
    assert(chars::is_space(s[j + 1]));
    if bounds.len() > 0 {
        let p = bounds.last().1 as int;
        assert(break_between(s, p, j + 2));
        assert forall|i: int| p <= i < j + 2 implies #[trigger] chars::is_space(s[i]) by {
            if i >= j {
            }
        }
    } else {
        assert forall|i: int| 0 <= i < j + 2 implies #[trigger] chars::is_space(s[i]) by {
            if i >= j {
            }
        }
    }
}

/// Where the passages of `s` stand.
fn cut_bounds(s: &Vec<char>) -> (bounds: Vec<(usize, usize)>)
    ensures
        bounds_ok(s@, bounds@),
{
    let mut bounds: Vec<(usize, usize)> = Vec::new();
    let mut pos: usize = 0;
    loop
        invariant
            pos <= s@.len(),
            cut_upto(s@, bounds@, pos as int, true),
        decreases s@.len() - pos + 1,
    {
        let j = next_break(s, pos);
        let block = chars::slice_range(s.as_slice(), pos, j);
        let (a0, b0) = chars::trim_bounds(block.as_slice());
        proof {
            chars::lemma_first_solid(block@, 0);
            chars::lemma_solid_end(block@, block@.len() as int);
        }
        let ghost before = bounds@;
        if a0 < b0 {
            let a = pos + a0;
            let b = pos + b0;
            proof {
                assert(s@[a as int] == block@[a0 as int]);
                assert(s@[b - 1] == block@[b0 - 1]);
                lemma_no_break_inside(s@, pos as int, j as int, a as int, b as int);
                assert forall|i: int| pos <= i < a implies #[trigger] chars::is_space(s@[i]) by {
                    assert(s@[i] == block@[i - pos]);
                }
                assert forall|i: int| b <= i < j implies #[trigger] chars::is_space(s@[i]) by {
                    assert(s@[i] == block@[i - pos]);
                }
                lemma_cut_passage(s@, before, pos as int, a, b, j as int);
            }
            bounds.push((a, b));
        } else {
            proof {
                assert forall|i: int| pos <= i < j implies #[trigger] chars::is_space(s@[i]) by {
                    assert(s@[i] == block@[i - pos]);
                    if i - pos < a0 {
                    } else {
                        assert(i - pos >= b0);
                    }
                }
                lemma_cut_blank(s@, before, pos as int, j as int, true);
            }
        }
        if j == s.len() {
            proof {
                assert(cut_upto(s@, bounds@, j as int, false));
            }
            return bounds;
        }
        proof {
            lemma_cut_separator(s@, bounds@, j as int, a0 >= b0);
        }
        pos = j + 2;
    }
}

/// Where the gap after passage `k` ends: where the next passage starts, or the end.
pub open spec fn gap_end(bounds: Seq<(usize, usize)>, k: int, len: int) -> int {
    if k + 1 < bounds.len() {
        bounds[k + 1].0 as int
    } else {
        len
    }
}

proof fn lemma_space_range(s: Seq<char>, a: int, b: int)
    requires
        0 <= a <= b <= s.len(),
        space_between(s, a, b),
    ensures
        chars::all_space(s.subrange(a, b)),
{
    assert forall|i: int| 0 <= i < s.subrange(a, b).len() implies #[trigger] chars::is_space(
        s.subrange(a, b)[i],
    ) by {
        assert(s.subrange(a, b)[i] == s[a + i]);
    }
}

proof fn lemma_break_range(s: Seq<char>, a: int, b: int)
    requires
        0 <= a <= b <= s.len(),
    ensures
        has_break(s.subrange(a, b)) <==> break_between(s, a, b),
{
    let t = s.subrange(a, b);
    if has_break(t) {
        let i = choose|i: int| #[trigger] break_at(t, i);
        assert(break_at(s, a + i));
    }
    if break_between(s, a, b) {
        let i = choose|i: int| a <= i && i + 1 < b && #[trigger] break_at(s, i);
        assert(break_at(t, i - a));
    }
}

/// Passage `k` of a document built from `bounds`: its text and the gap after it.
pub open spec fn piece(s: Seq<char>, bounds: Seq<(usize, usize)>, k: int) -> (Seq<char>, Seq<char>) {
    (
        s.subrange(bounds[k].0 as int, bounds[k].1 as int),
        s.subrange(bounds[k].1 as int, gap_end(bounds, k, s.len() as int)),
    )
}

/// The text up to where passage `k` starts (or up to the end, past the last one).
pub open spec fn start_of(s: Seq<char>, bounds: Seq<(usize, usize)>, k: int) -> int {
    if k < bounds.len() {
        bounds[k].0 as int
    } else {
        s.len() as int
    }
}

proof fn lemma_piece_adds(s: Seq<char>, bounds: Seq<(usize, usize)>, k: int, done: Seq<(Seq<char>, Seq<char>)>, opening: Seq<char>)
    requires
        bounds_ok(s, bounds),
        0 <= k < bounds.len(),
        done.len() == k + 1,
        done[k] == piece(s, bounds, k),
        opening + passages_text(done.drop_last()) == s.subrange(0, start_of(s, bounds, k)),
    ensures
        opening + passages_text(done) == s.subrange(0, start_of(s, bounds, k + 1)),
{
    let (a, b) = bounds[k];
    assert(bounds[k].0 < bounds[k].1 <= s.len());
    if k + 1 < bounds.len() {
        assert(bounds[k].1 <= bounds[k + 1].0);
        assert(bounds[k + 1].0 < bounds[k + 1].1 <= s.len());
    }
    let e = start_of(s, bounds, k + 1);
    assert(s.subrange(0, a as int) + s.subrange(a as int, b as int) + s.subrange(b as int, e) =~= s.subrange(0, e));
}

/// The pieces cut at `bounds` are cut well.
proof fn lemma_pieces_well_cut(s: Seq<char>, bounds: Seq<(usize, usize)>, v: Seq<(Seq<char>, Seq<char>)>)
    requires
        bounds_ok(s, bounds),
        v.len() == bounds.len(),
        forall|k: int| 0 <= k < v.len() ==> #[trigger] v[k] == piece(s, bounds, k),
    ensures
        chars::all_space(s.subrange(0, start_of(s, bounds, 0))),
        well_cut(s.subrange(0, start_of(s, bounds, 0)), v),
{
    let n = bounds.len();
    if n > 0 {
        assert(bounds[0].0 < bounds[0].1 <= s.len());
    }
    lemma_space_range(s, 0, start_of(s, bounds, 0));
    assert forall|k: int| 0 <= k < v.len() implies solid(#[trigger] v[k].0) && !has_break(v[k].0)
        && chars::all_space(v[k].1) by {
        assert(v[k] == piece(s, bounds, k));
        let (a, b) = bounds[k];
        assert(bounds[k].0 < bounds[k].1 <= s.len());
        lemma_break_range(s, a as int, b as int);
        let e = gap_end(bounds, k, s.len() as int);
        if k + 1 < n {
            assert(bounds[k].1 <= bounds[k + 1].0);
            assert(bounds[k + 1].0 < bounds[k + 1].1 <= s.len());
        } else {
            assert(bounds[k] == bounds.last());
        }
        lemma_space_range(s, b as int, e);
    }
    assert forall|k: int| 0 <= k < v.len() - 1 implies has_break(#[trigger] v[k].1) by {
        assert(v[k] == piece(s, bounds, k));
        assert(bounds[k].1 <= bounds[k + 1].0);
        assert(bounds[k + 1].0 < bounds[k + 1].1 <= s.len());
        lemma_break_range(s, bounds[k].1 as int, bounds[k + 1].0 as int);
    }
}

/// The passages at `bounds`, each with the gap after it.
fn pieces(s: &Vec<char>, bounds: &Vec<(usize, usize)>) -> (ps: Vec<Passage>)
    requires
        bounds_ok(s@, bounds@),
    ensures
        ps@.len() == bounds@.len(),
        forall|k: int| 0 <= k < ps@.len() ==> (#[trigger] ps@[k])@ == piece(s@, bounds@, k),
{
    let n = bounds.len();
    let mut passages: Vec<Passage> = Vec::new();
    let mut k: usize = 0;
    while k < n
        invariant
            n == bounds@.len(),
            bounds_ok(s@, bounds@),
            k <= n,
            passages@.len() == k,
            forall|i: int| 0 <= i < k ==> (#[trigger] passages@[i])@ == piece(s@, bounds@, i),
        decreases n - k,
    {
        let (a, b) = bounds[k];
        let end = if k + 1 < n { bounds[k + 1].0 } else { s.len() };
        proof {
            assert(bounds@[k as int].0 < bounds@[k as int].1 <= s@.len());
            if k + 1 < n {
                assert(bounds@[k as int].1 <= bounds@[k + 1].0);
                assert(bounds@[k + 1].0 < bounds@[k + 1].1 <= s@.len());
            } else {
                assert(bounds@[k as int] == bounds@.last());
            }
        }
        let t = chars::string_of(chars::slice_range(s.as_slice(), a, b).as_slice());
        let g = chars::string_of(chars::slice_range(s.as_slice(), b, end).as_slice());
        let ghost p0 = passages@;
        passages.push(Passage { text: t, gap: g });
        proof {
            assert forall|i: int| 0 <= i < k + 1 implies (#[trigger] passages@[i])@ == piece(s@, bounds@, i) by {
                if i < k {
                    assert(passages@[i] == p0[i]);
                }
            }
        }
        k = k + 1;
    }
    passages
}

proof fn lemma_pieces_join(s: Seq<char>, bounds: Seq<(usize, usize)>, v: Seq<(Seq<char>, Seq<char>)>, k: int)
    requires
        bounds_ok(s, bounds),
        0 <= k <= v.len(),
        v.len() == bounds.len(),
        forall|i: int| 0 <= i < v.len() ==> #[trigger] v[i] == piece(s, bounds, i),
    ensures
        s.subrange(0, start_of(s, bounds, 0)) + passages_text(v.take(k)) == s.subrange(0, start_of(s, bounds, k)),
    decreases k,
{
    if k == 0 {
        assert(v.take(0) =~= Seq::<(Seq<char>, Seq<char>)>::empty());
        assert(s.subrange(0, start_of(s, bounds, 0)) + Seq::<char>::empty() =~= s.subrange(0, start_of(s, bounds, 0)));
    } else {
        lemma_pieces_join(s, bounds, v, k - 1);
        assert(v.take(k).drop_last() =~= v.take(k - 1));
        assert(v.take(k)[k - 1] == v[k - 1]);
        lemma_piece_adds(s, bounds, k - 1, v.take(k), s.subrange(0, start_of(s, bounds, 0)));
    }
}

/// Cuts a text into the passages a translation is asked for one by one.
///
/// Cannot fail: a text with nothing in it becomes a document with no passages.
pub fn split_passages(text: &str) -> (d: Document)
    ensures
        d.opening_gap@ + passages_text(passage_views(d.passages@)) == text@,
        well_cut(d.opening_gap@, passage_views(d.passages@)),
{
    let s = chars::to_chars(text);
    let bounds = cut_bounds(&s);
    let opening_end: usize = if bounds.len() == 0 { s.len() } else { bounds[0].0 };
    proof {
        if bounds@.len() > 0 {
            assert(bounds@[0].0 < bounds@[0].1 <= s@.len());
        }
    }
    let opening = chars::string_of(chars::slice_range(s.as_slice(), 0, opening_end).as_slice());
    let passages = pieces(&s, &bounds);
    let d = Document { opening_gap: opening, passages };
    proof {
        let v = passage_views(d.passages@);
        assert forall|k: int| 0 <= k < v.len() implies #[trigger] v[k] == piece(s@, bounds@, k) by {
            assert(v[k] == d.passages@[k]@);
        }
        lemma_pieces_join(s@, bounds@, v, v.len() as int);
        assert(v.take(v.len() as int) =~= v);
        assert(s@.subrange(0, s@.len() as int) =~= s@);
        lemma_pieces_well_cut(s@, bounds@, v);
    }
    d
}

/// The translations' views.
pub open spec fn string_views(ts: Seq<String>) -> Seq<Seq<char>> {
    ts.map_values(|t: String| t@)
}

/// The first `k` translations, each trimmed, each followed by the gap of its passage.
pub open spec fn rebuilt(ps: Seq<(Seq<char>, Seq<char>)>, tr: Seq<Seq<char>>, k: int) -> Seq<char>
    decreases k,
{
    if k <= 0 {
        seq![]
    } else {
        rebuilt(ps, tr, k - 1) + chars::trim(tr[k - 1]) + ps[k - 1].1
    }
}

/// Puts translated passages back into the shape the file had.
///
/// Needs one translation per passage, in the same order; anything else is refused
/// with a sentence saying how many it wanted.
pub fn rebuild_text(document: &Document, translations: &[String]) -> (res: Result<String, String>)
    ensures
        translations@.len() != document.passages@.len() ==> (res matches Err(e) && e@
            == crate::text::translations_wanted_sentence(
            document.passages@.len(),
            translations@.len(),
        )),
        translations@.len() == document.passages@.len() ==> (res matches Ok(out) && out@
            == document.opening_gap@ + rebuilt(
            passage_views(document.passages@),
            string_views(translations@),
            document.passages@.len() as int,
        )),
{
    let n = document.passages.len();
    if translations.len() != n {
        return Err(crate::text::sentence_translations_wanted(n, translations.len()));
    }
    let ghost ps = passage_views(document.passages@);
    let ghost tr = string_views(translations@);
    let mut out = chars::to_chars(document.opening_gap.as_str());
    let mut k: usize = 0;
    while k < n
        invariant
            n == document.passages@.len(),
            n == translations@.len(),
            ps == passage_views(document.passages@),
            tr == string_views(translations@),
            k <= n,
            out@ == document.opening_gap@ + rebuilt(ps, tr, k as int),
        decreases n - k,
    {
        let t = chars::to_chars(translations[k].as_str());
        let t = chars::trimmed(t.as_slice());
        let g = chars::to_chars(document.passages[k].gap.as_str());
        proof {
            assert(tr[k as int] == translations@[k as int]@);
            assert(ps[k as int] == document.passages@[k as int]@);
        }
        chars::push_all(&mut out, t.as_slice());
        chars::push_all(&mut out, g.as_slice());
        proof {
            assert(out@ =~= document.opening_gap@ + rebuilt(ps, tr, k + 1));
        }
        k = k + 1;
    }
    Ok(chars::string_of(out.as_slice()))
}

/// Each passage's own text.
pub open spec fn own_texts(ps: Seq<(Seq<char>, Seq<char>)>) -> Seq<Seq<char>> {
    ps.map_values(|p: (Seq<char>, Seq<char>)| p.0)
}

/// Putting back each passage's own text, as its translation, gives back the text
/// that was cut: cutting loses no character.
pub proof fn lemma_rebuilt_from_own_texts(text: Seq<char>, opening: Seq<char>, ps: Seq<(Seq<char>, Seq<char>)>)
    requires
        opening + passages_text(ps) == text,
        well_cut(opening, ps),
    ensures
        opening + rebuilt(ps, own_texts(ps), ps.len() as int) == text,
{
    lemma_rebuilt_prefix(ps, ps.len() as int);
    assert(ps.take(ps.len() as int) =~= ps);
}

proof fn lemma_rebuilt_prefix(ps: Seq<(Seq<char>, Seq<char>)>, k: int)
    requires
        0 <= k <= ps.len(),
        forall|i: int| 0 <= i < ps.len() ==> solid(#[trigger] ps[i].0),
    ensures
        rebuilt(ps, own_texts(ps), k) == passages_text(ps.take(k)),
    decreases k,
{
    if k == 0 {
        assert(ps.take(0) =~= Seq::<(Seq<char>, Seq<char>)>::empty());
    } else {
        lemma_rebuilt_prefix(ps, k - 1);
        assert(ps.take(k).drop_last() =~= ps.take(k - 1));
        assert(own_texts(ps)[k - 1] == ps[k - 1].0);
        assert(solid(ps[k - 1].0));
        chars::lemma_trim_solid(ps[k - 1].0);
        assert(ps.take(k).last() == ps[k - 1]);
    }
}

} // verus!
