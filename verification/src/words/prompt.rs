//! The words the model is given, and the words it gives back.
//!
//! Both halves live here because they are one agreement: the prompt says "answer
//! with the translation and nothing else", and `read_reply` is what holds the model
//! to it.

use vstd::prelude::*;
use super::chars;
use super::language::Language;

verus! {

/// The prompt for one passage: Gemma's turn marks around an instruction that names
/// both languages, and the passage, trimmed, fenced between two `---` lines so that
/// a document that itself asks a question cannot be read as part of the
/// instruction.
pub open spec fn prompt_text(passage: Seq<char>, from: Seq<char>, to: Seq<char>) -> Seq<char> {
    "<start_of_turn>user\nTranslate the text between the two --- lines from "@ + from + " to "@ + to
        + ".\nKeep the line breaks. Translate every line, and translate nothing else.\nAnswer with the translation only: no note, no explanation, no --- lines.\n---\n"@
        + chars::trim(passage) + "\n---<end_of_turn>\n<start_of_turn>model\n"@
}

/// Builds the prompt for one passage.
///
/// Cannot fail: an empty passage is refused earlier, by `translate_passage`.
pub fn build_prompt(passage: &str, from: &Language, to: &Language) -> (p: String)
    ensures
        p@ == prompt_text(passage@, from@.1, to@.1),
{
    let body = chars::trimmed(chars::to_chars(passage).as_slice());
    let body = chars::string_of(body.as_slice());
    let mut p = String::from_str("<start_of_turn>user\nTranslate the text between the two --- lines from ");
    p.append(from.name());
    p.append(" to ");
    p.append(to.name());
    p.append(
        ".\nKeep the line breaks. Translate every line, and translate nothing else.\nAnswer with the translation only: no note, no explanation, no --- lines.\n---\n",
    );
    p.append(body.as_str());
    p.append("\n---<end_of_turn>\n<start_of_turn>model\n");
    p
}

/// The prompt fences the whole passage: between the `---` line that closes the
/// instruction and the `---` that closes the user's turn stands one stretch of the
/// passage, every line of it, cut only of the white space at its two ends (what
/// `str::trim` cuts), and the passage holds nothing else.
pub proof fn lemma_prompt_fences_the_whole_passage(passage: Seq<char>, from: Seq<char>, to: Seq<char>)
    ensures
        exists|a: int, b: int|
            {
                &&& 0 <= a <= b <= passage.len()
                &&& chars::all_space(passage.take(a))
                &&& chars::all_space(passage.skip(b))
                &&& a < b ==> !chars::is_space(passage[a]) && !chars::is_space(passage[b - 1])
                &&& prompt_text(passage, from, to) == "<start_of_turn>user\nTranslate the text between the two --- lines from "@
                    + from + " to "@ + to
                    + ".\nKeep the line breaks. Translate every line, and translate nothing else.\nAnswer with the translation only: no note, no explanation, no --- lines.\n---\n"@
                    + #[trigger] passage.subrange(a, b) + "\n---<end_of_turn>\n<start_of_turn>model\n"@
            },
{
    let s = passage;
    let a = chars::first_solid(s, 0);
    let b = chars::solid_end(s, s.len() as int);
    chars::lemma_first_solid(s, 0);
    chars::lemma_solid_end(s, s.len() as int);
    if a < b {
        assert(chars::all_space(s.take(a))) by {
            assert forall|i: int| 0 <= i < s.take(a).len() implies #[trigger] chars::is_space(s.take(a)[i]) by {
                assert(s.take(a)[i] == s[i]);
            }
        }
        assert(chars::all_space(s.skip(b))) by {
            assert forall|i: int| 0 <= i < s.skip(b).len() implies #[trigger] chars::is_space(s.skip(b)[i]) by {
                assert(s.skip(b)[i] == s[b + i]);
            }
        }
        assert(chars::trim(s) == s.subrange(a, b));
    } else {
        assert forall|k: int| 0 <= k < s.len() implies #[trigger] chars::is_space(s[k]) by {
            if k >= b {
                assert(b <= k < s.len());
            } else {
                assert(k < a);
            }
        }
        assert(chars::all_space(s.take(0))) by {
            assert(s.take(0).len() == 0);
        }
        assert(chars::all_space(s.skip(0))) by {
            assert(s.skip(0) =~= s);
        }
        assert(chars::trim(s) =~= s.subrange(0, 0));
        assert(s.subrange(0, 0) == s.subrange(0, 0));
    }
}

/// Whether `pat` stands in `s` at `i`.
pub open spec fn occurs_at(s: Seq<char>, pat: Seq<char>, i: int) -> bool {
    0 <= i && i + pat.len() <= s.len() && s.subrange(i, i + pat.len()) == pat
}

/// Where `pat` first stands in `s` at or after `i`, or -1.
pub open spec fn find_from(s: Seq<char>, pat: Seq<char>, i: int) -> int
    decreases s.len() - i,
{
    if i < 0 || i + pat.len() > s.len() {
        -1
    } else if occurs_at(s, pat, i) {
        i
    } else if i >= s.len() {
        -1
    } else {
        find_from(s, pat, i + 1)
    }
}

pub proof fn lemma_find_bound(s: Seq<char>, pat: Seq<char>, i: int)
    ensures
        find_from(s, pat, i) >= 0 ==> i <= find_from(s, pat, i) && find_from(s, pat, i) + pat.len()
            <= s.len() && occurs_at(s, pat, find_from(s, pat, i)),
    decreases s.len() - i,
{
    if i >= 0 && i + pat.len() <= s.len() && !occurs_at(s, pat, i) && i < s.len() {
        lemma_find_bound(s, pat, i + 1);
    }
}

/// `s` with every `pat` deleted, the matches taken from the left without overlap,
/// as `str::replace(pat, "")` does.
pub open spec fn removed(s: Seq<char>, pat: Seq<char>) -> Seq<char>
    decreases s.len(),
{
    if pat.len() == 0 || s.len() == 0 {
        s
    } else if s.len() >= pat.len() && s.take(pat.len() as int) == pat {
        removed(s.skip(pat.len() as int), pat)
    } else {
        seq![s[0]] + removed(s.skip(1), pat)
    }
}

/// `s` cut at every line break, as `str::split('\n')` does.
pub open spec fn pieces(s: Seq<char>) -> Seq<Seq<char>>
    decreases s.len(),
{
    let i = find_from(s, seq!['\n'], 0);
    if i < 0 {
        seq![s]
    } else {
        proof {
            lemma_find_bound(s, seq!['\n'], 0);
        }
        seq![s.take(i)] + pieces(s.skip(i + 1))
    }
}

/// The lines of `s`, as `str::lines` gives them once each is trimmed at its end: a
/// line break at the very end starts no line of its own.
pub open spec fn lines(s: Seq<char>) -> Seq<Seq<char>> {
    if s.len() == 0 {
        seq![]
    } else if s.last() == '\n' {
        pieces(s).drop_last()
    } else {
        pieces(s)
    }
}

/// Whether a line is a fence: `---` with white space around it or not.
pub open spec fn is_fence(line: Seq<char>) -> bool {
    chars::trim(line) == "---"@
}

/// The lines without the fences at the front.
pub open spec fn drop_front(ls: Seq<Seq<char>>) -> Seq<Seq<char>>
    decreases ls.len(),
{
    if ls.len() > 0 && is_fence(ls[0]) {
        drop_front(ls.drop_first())
    } else {
        ls
    }
}

/// The lines without the fences at the back.
pub open spec fn drop_back(ls: Seq<Seq<char>>) -> Seq<Seq<char>>
    decreases ls.len(),
{
    if ls.len() > 0 && is_fence(ls.last()) {
        drop_back(ls.drop_last())
    } else {
        ls
    }
}

/// The lines joined with line breaks.
pub open spec fn join(ls: Seq<Seq<char>>) -> Seq<char>
    decreases ls.len(),
{
    if ls.len() == 0 {
        seq![]
    } else if ls.len() == 1 {
        ls[0]
    } else {
        join(ls.drop_last()) + seq!['\n'] + ls.last()
    }
}

/// The answer without what comes after the model's own end of turn mark.
pub open spec fn before_turn_end(s: Seq<char>) -> Seq<char> {
    let i = find_from(s, "<end_of_turn>"@, 0);
    if i >= 0 {
        s.take(i)
    } else {
        s
    }
}

/// What is kept of a model's answer: trimmed; cut at the model's own end of turn
/// mark, since what follows it is a turn nobody asked for; with the marks `<bos>`,
/// `<eos>` and `<end_of_turn>` deleted wherever they stand; each line trimmed at its
/// end; the fences at either edge dropped, since those are the model copying the
/// prompt back (one in the middle may belong to the document, so it stays); and
/// trimmed again.
pub open spec fn reply_text(reply: Seq<char>) -> Seq<char> {
    let t = before_turn_end(chars::trim(reply));
    let t = removed(removed(removed(t, "<bos>"@), "<eos>"@), "<end_of_turn>"@);
    let ls = lines(t).map_values(|l: Seq<char>| chars::trim_end(l));
    chars::trim(join(drop_back(drop_front(ls))))
}

pub open spec fn nothing_sentence() -> Seq<char> {
    "The model answered with nothing, so this passage has no translation yet."@
}

fn same_chars(a: &Vec<char>, b: &Vec<char>) -> (r: bool)
    ensures
        r == (a@ == b@),
{
    if a.len() != b.len() {
        return false;
    }
    let mut i: usize = 0;
    while i < a.len()
        invariant
            a@.len() == b@.len(),
            i <= a@.len(),
            forall|j: int| 0 <= j < i ==> a@[j] == b@[j],
        decreases a@.len() - i,
    {
        if a[i] != b[i] {
            return false;
        }
        i = i + 1;
    }
    proof {
        assert(a@ =~= b@);
    }
    true
}

/// Whether `pat` stands in `s` at `i`.
fn occurs(s: &Vec<char>, pat: &Vec<char>, i: usize) -> (r: bool)
    requires
        i <= s@.len(),
    ensures
        r == occurs_at(s@, pat@, i as int),
{
    if s.len() - i < pat.len() {
        return false;
    }
    let mut k: usize = 0;
    while k < pat.len()
        invariant
            i + pat@.len() <= s.len(),
            k <= pat@.len(),
            forall|j: int| 0 <= j < k ==> s@[i + j] == pat@[j],
        decreases pat@.len() - k,
    {
        if s[i + k] != pat[k] {
            proof {
                assert(s@.subrange(i as int, i + pat@.len())[k as int] != pat@[k as int]);
            }
            return false;
        }
        k = k + 1;
    }
    proof {
        assert(s@.subrange(i as int, i + pat@.len()) =~= pat@);
    }
    true
}

/// Where `pat` first stands in `s`, if anywhere.
fn find(s: &Vec<char>, pat: &Vec<char>) -> (r: Option<usize>)
    ensures
        match r {
            Some(i) => find_from(s@, pat@, 0) == i,
            None => find_from(s@, pat@, 0) == -1,
        },
{
    let mut i: usize = 0;
    while i < s.len()
        invariant
            i <= s@.len(),
            find_from(s@, pat@, 0) == find_from(s@, pat@, i as int),
        decreases s@.len() - i,
    {
        if s.len() - i < pat.len() {
            return None;
        }
        if occurs(s, pat, i) {
            return Some(i);
        }
        i = i + 1;
    }
    if pat.len() == 0 {
        proof {
            assert(occurs_at(s@, pat@, i as int)) by {
                assert(s@.subrange(i as int, i as int) =~= pat@);
            }
        }
        return Some(i);
    }
    None
}

proof fn lemma_removed_step(s: Seq<char>, pat: Seq<char>, i: int)
    requires
        pat.len() > 0,
        0 <= i < s.len(),
    ensures
        occurs_at(s, pat, i) ==> removed(s.skip(i), pat) == removed(s.skip(i + pat.len()), pat),
        !occurs_at(s, pat, i) ==> removed(s.skip(i), pat) == seq![s[i]] + removed(s.skip(i + 1), pat),
{
    let t = s.skip(i);
    assert(t.len() > 0);
    if occurs_at(s, pat, i) {
        assert(t.take(pat.len() as int) =~= s.subrange(i, i + pat.len()));
        assert(t.skip(pat.len() as int) =~= s.skip(i + pat.len()));
    } else {
        if t.len() >= pat.len() {
            assert(t.take(pat.len() as int) =~= s.subrange(i, i + pat.len()));
        }
        assert(t.skip(1) =~= s.skip(i + 1));
        assert(t[0] == s[i]);
    }
}

/// `s` with every `pat` deleted.
fn remove_all(s: &Vec<char>, pat: &Vec<char>) -> (r: Vec<char>)
    requires
        pat@.len() > 0,
    ensures
        r@ == removed(s@, pat@),
{
    let mut out: Vec<char> = Vec::new();
    let mut i: usize = 0;
    proof {
        assert(s@.skip(0) =~= s@);
    }
    while i < s.len()
        invariant
            pat@.len() > 0,
            i <= s@.len(),
            removed(s@, pat@) == out@ + removed(s@.skip(i as int), pat@),
        decreases s@.len() - i,
    {
        proof {
            lemma_removed_step(s@, pat@, i as int);
        }
        if occurs(s, pat, i) {
            i = i + pat.len();
        } else {
            proof {
                assert(out@ + (seq![s@[i as int]] + removed(s@.skip(i + 1), pat@)) =~= out@.push(s@[i as int])
                    + removed(s@.skip(i + 1), pat@));
            }
            out.push(s[i]);
            i = i + 1;
        }
    }
    proof {
        assert(s@.skip(i as int).len() == 0);
        assert(out@ + s@.skip(i as int) =~= out@);
    }
    out
}

proof fn lemma_find_newline(s: Seq<char>, from: int, i: int)
    requires
        0 <= from <= i <= s.len(),
        forall|j: int| from <= j < i ==> s[j] != '\n',
    ensures
        i < s.len() && s[i] == '\n' ==> find_from(s.skip(from), seq!['\n'], i - from) == i - from,
        i == s.len() ==> find_from(s.skip(from), seq!['\n'], i - from) == -1,
        find_from(s.skip(from), seq!['\n'], 0) == find_from(s.skip(from), seq!['\n'], i - from),
    decreases i - from,
{
    let t = s.skip(from);
    let nl: Seq<char> = seq!['\n'];
    if i < s.len() && s[i] == '\n' {
        assert(t.subrange(i - from, i - from + 1) =~= nl);
    }
    if i > from {
        lemma_find_newline(s, from, i - 1);
        assert(t[i - 1 - from] == s[i - 1]);
        assert(!occurs_at(t, nl, i - 1 - from)) by {
            if occurs_at(t, nl, i - 1 - from) {
                assert(t.subrange(i - 1 - from, i - from)[0] == nl[0]);
            }
        }
    }
}

/// The lines of `t`, each trimmed at its end.
fn split_lines(t: &Vec<char>) -> (ls: Vec<Vec<char>>)
    ensures
        ls@.map_values(|l: Vec<char>| l@) == lines(t@).map_values(|l: Seq<char>| chars::trim_end(l)),
{
    let mut out: Vec<Vec<char>> = Vec::new();
    let ghost mut done: Seq<Seq<char>> = Seq::empty();
    let mut start: usize = 0;
    let mut i: usize = 0;
    proof {
        assert(t@.skip(0) =~= t@);
    }
    while i < t.len()
        invariant
            start <= i <= t@.len(),
            forall|j: int| start <= j < i ==> t@[j] != '\n',
            pieces(t@) == done + pieces(t@.skip(start as int)),
            out@.map_values(|l: Vec<char>| l@) == done.map_values(|l: Seq<char>| chars::trim_end(l)),
            start > 0 ==> t@[start - 1] == '\n',
        decreases t@.len() - i,
    {
        if t[i] == '\n' {
            let piece = chars::slice_range(t.as_slice(), start, i);
            let (_, e) = chars::trim_bounds(piece.as_slice());
            proof {
                chars::lemma_solid_end(piece@, piece@.len() as int);
            }
            let kept = chars::slice_range(piece.as_slice(), 0, e);
            proof {
                lemma_find_newline(t@, start as int, i as int);
                let rest = t@.skip(start as int);
                assert(rest.take(i - start) =~= piece@);
                assert(rest.skip(i - start + 1) =~= t@.skip(i + 1));
                assert(pieces(rest) == seq![piece@] + pieces(t@.skip(i + 1)));
                assert(kept@ =~= chars::trim_end(piece@));
                let ghost d0 = done;
                done = done.push(piece@);
                assert(done + pieces(t@.skip(i + 1)) =~= d0 + (seq![piece@] + pieces(t@.skip(i + 1))));
            }
            let ghost o0 = out@;
            out.push(kept);
            proof {
                assert(out@.map_values(|l: Vec<char>| l@) =~= o0.map_values(|l: Vec<char>| l@).push(kept@));
                assert(done.map_values(|l: Seq<char>| chars::trim_end(l)) =~= done.drop_last().map_values(
                    |l: Seq<char>| chars::trim_end(l),
                ).push(chars::trim_end(piece@)));
                assert(done.drop_last() =~= done.drop_last());
            }
            start = i + 1;
        }
        i = i + 1;
    }
    proof {
        lemma_find_newline(t@, start as int, i as int);
        assert(pieces(t@.skip(start as int)) =~= seq![t@.skip(start as int)]);
    }
    if start < t.len() {
        let piece = chars::slice_range(t.as_slice(), start, t.len());
        let (_, e) = chars::trim_bounds(piece.as_slice());
        proof {
            chars::lemma_solid_end(piece@, piece@.len() as int);
        }
        let kept = chars::slice_range(piece.as_slice(), 0, e);
        let ghost o0 = out@;
        out.push(kept);
        proof {
            assert(piece@ =~= t@.skip(start as int));
            assert(kept@ =~= chars::trim_end(piece@));
            assert(t@.last() == t@[t@.len() - 1]);
            assert(lines(t@) == pieces(t@));
            assert(pieces(t@) =~= done.push(piece@));
            assert(out@.map_values(|l: Vec<char>| l@) =~= o0.map_values(|l: Vec<char>| l@).push(kept@));
            assert(done.push(piece@).map_values(|l: Seq<char>| chars::trim_end(l)) =~= done.map_values(
                |l: Seq<char>| chars::trim_end(l),
            ).push(chars::trim_end(piece@)));
        }
    } else {
        proof {
            assert(t@.skip(start as int) =~= Seq::<char>::empty());
            if t@.len() == 0 {
                assert(done.len() == 0) by {
                    assert(pieces(t@) == done + seq![Seq::<char>::empty()]);
                }
                assert(lines(t@) =~= Seq::<Seq<char>>::empty());
            } else {
                assert(t@.last() == '\n');
                assert(pieces(t@) =~= done.push(Seq::<char>::empty()));
                assert(lines(t@) =~= done);
            }
        }
    }
    out
}

proof fn lemma_front_step(ls: Seq<Seq<char>>, lo: int)
    requires
        0 <= lo < ls.len(),
        is_fence(ls[lo]),
    ensures
        drop_front(ls.skip(lo)) == drop_front(ls.skip(lo + 1)),
{
    assert(ls.skip(lo).drop_first() =~= ls.skip(lo + 1));
    assert(ls.skip(lo)[0] == ls[lo]);
}

proof fn lemma_back_step(ls: Seq<Seq<char>>, lo: int, hi: int)
    requires
        0 <= lo < hi <= ls.len(),
        is_fence(ls[hi - 1]),
    ensures
        drop_back(ls.subrange(lo, hi)) == drop_back(ls.subrange(lo, hi - 1)),
{
    assert(ls.subrange(lo, hi).drop_last() =~= ls.subrange(lo, hi - 1));
    assert(ls.subrange(lo, hi).last() == ls[hi - 1]);
}

proof fn lemma_join_step(ls: Seq<Seq<char>>, lo: int, k: int)
    requires
        0 <= lo <= k < ls.len(),
    ensures
        join(ls.subrange(lo, k + 1)) == if k == lo {
            ls[k]
        } else {
            join(ls.subrange(lo, k)) + seq!['\n'] + ls[k]
        },
{
    let m = ls.subrange(lo, k + 1);
    assert(m.drop_last() =~= ls.subrange(lo, k));
    assert(m.last() == ls[k]);
    if k == lo {
        assert(m[0] == ls[k]);
    }
}

proof fn lemma_find_absent(s: Seq<char>, pat: Seq<char>, i: int)
    requires
        pat.len() > 0,
        forall|j: int| 0 <= j < s.len() ==> #[trigger] s[j] != pat[0],
    ensures
        find_from(s, pat, i) == -1,
    decreases s.len() - i,
{
    if i >= 0 && i + pat.len() <= s.len() {
        assert(!occurs_at(s, pat, i)) by {
            if occurs_at(s, pat, i) {
                assert(s.subrange(i, i + pat.len())[0] == s[i]);
            }
        }
        if i < s.len() {
            lemma_find_absent(s, pat, i + 1);
        }
    }
}

proof fn lemma_removed_absent(s: Seq<char>, pat: Seq<char>)
    requires
        pat.len() > 0,
        forall|j: int| 0 <= j < s.len() ==> #[trigger] s[j] != pat[0],
    ensures
        removed(s, pat) == s,
    decreases s.len(),
{
    if s.len() > 0 {
        if s.len() >= pat.len() && s.take(pat.len() as int) == pat {
            assert(s.take(pat.len() as int)[0] == s[0]);
        }
        let rest = s.skip(1);
        assert forall|j: int| 0 <= j < rest.len() implies #[trigger] rest[j] != pat[0] by {
            assert(rest[j] == s[j + 1]);
        }
        lemma_removed_absent(rest, pat);
        assert(seq![s[0]] + rest =~= s);
    }
}

proof fn lemma_join_front(x: Seq<char>, ls: Seq<Seq<char>>)
    requires
        ls.len() >= 1,
    ensures
        join(seq![x] + ls) == x + seq!['\n'] + join(ls),
    decreases ls.len(),
{
    let m = seq![x] + ls;
    assert(m.drop_last() =~= seq![x] + ls.drop_last());
    assert(m.last() == ls.last());
    assert(join(m) == join(m.drop_last()) + seq!['\n'] + m.last());
    if ls.len() == 1 {
        assert(seq![x] + ls.drop_last() =~= seq![x]);
        assert(join(seq![x]) == x);
        assert(ls.last() == ls[0]);
        assert(join(ls) == ls[0]);
    } else {
        lemma_join_front(x, ls.drop_last());
        assert(x + seq!['\n'] + join(ls.drop_last()) + seq!['\n'] + ls.last() =~= x + seq!['\n'] + (join(
            ls.drop_last(),
        ) + seq!['\n'] + ls.last()));
    }
}

/// A text that does not start or end with white space, has no white space just
/// before a line break, and never holds `c`.
pub open spec fn clean_text(s: Seq<char>, c: char) -> bool {
    &&& s.len() > 0
    &&& !chars::is_space(s.last())
    &&& forall|j: int| 0 <= j < s.len() && #[trigger] s[j] == '\n' ==> j > 0 && !chars::is_space(s[j - 1])
    &&& forall|j: int| 0 <= j < s.len() ==> #[trigger] s[j] != c
}

proof fn lemma_pieces_of_clean_text(s: Seq<char>, c: char)
    requires
        clean_text(s, c),
    ensures
        pieces(s).len() >= 1,
        join(pieces(s)) == s,
        forall|k: int|
            0 <= k < pieces(s).len() ==> (#[trigger] pieces(s)[k]).len() > 0 && !chars::is_space(
                pieces(s)[k].last(),
            ) && forall|j: int| 0 <= j < pieces(s)[k].len() ==> #[trigger] pieces(s)[k][j] != c,
    decreases s.len(),
{
    let nl: Seq<char> = seq!['\n'];
    let i = find_from(s, nl, 0);
    lemma_find_bound(s, nl, 0);
    assert(chars::is_space('\n'));
    if i >= 0 {
        assert(s.subrange(i, i + 1)[0] == s[i]);
        assert(s[i] == '\n');
        let head = s.take(i);
        let rest = s.skip(i + 1);
        assert(i < s.len() - 1) by {
            if i == s.len() - 1 {
                assert(s.last() == s[i]);
            }
        }
        assert forall|j: int| 0 <= j < rest.len() && #[trigger] rest[j] == '\n' implies j > 0 && !chars::is_space(
            rest[j - 1],
        ) by {
            assert(rest[j] == s[i + 1 + j]);
            if j == 0 {
                assert(s[i + 1 + j - 1] == s[i]);
            } else {
                assert(rest[j - 1] == s[i + j]);
            }
        }
        assert forall|j: int| 0 <= j < rest.len() implies #[trigger] rest[j] != c by {
            assert(rest[j] == s[i + 1 + j]);
        }
        assert(rest.last() == s.last());
        lemma_pieces_of_clean_text(rest, c);
        assert(pieces(s) == seq![head] + pieces(rest));
        lemma_join_front(head, pieces(rest));
        assert(head + nl + rest =~= s);
        assert(head.last() == s[i - 1]);
        assert forall|j: int| 0 <= j < head.len() implies #[trigger] head[j] != c by {
            assert(head[j] == s[j]);
        }
        assert forall|k: int| 0 <= k < pieces(s).len() implies (#[trigger] pieces(s)[k]).len() > 0
            && !chars::is_space(pieces(s)[k].last()) && forall|j: int|
            0 <= j < pieces(s)[k].len() ==> #[trigger] pieces(s)[k][j] != c by {
            if k == 0 {
                assert(pieces(s)[k] == head);
            } else {
                assert(pieces(s)[k] == pieces(rest)[k - 1]);
            }
        }
    } else {
        assert(pieces(s) == seq![s]);
    }
}

proof fn lemma_not_a_fence(line: Seq<char>)
    requires
        forall|j: int| 0 <= j < line.len() ==> #[trigger] line[j] != '-',
    ensures
        !is_fence(line),
{
    reveal_strlit("---");
    let a = chars::first_solid(line, 0);
    let b = chars::solid_end(line, line.len() as int);
    chars::lemma_first_solid(line, 0);
    chars::lemma_solid_end(line, line.len() as int);
    assert("---"@.len() == 3 && "---"@[0] == '-');
    if a < b {
        assert(chars::trim(line)[0] == line[a]);
        assert(line[a] != '-');
    } else {
        assert(chars::trim(line).len() == 0);
    }
}

/// A clean answer comes back whole: one that holds no mark and no `-`, starts and
/// ends with something other than white space, and has no white space just before a
/// line break is the translation exactly as the model gave it, every line kept with
/// its indent.
pub proof fn lemma_clean_reply_comes_back_whole(reply: Seq<char>)
    requires
        reply.len() > 0,
        !chars::is_space(reply[0]),
        !chars::is_space(reply.last()),
        forall|j: int| 0 <= j < reply.len() ==> #[trigger] reply[j] != '<' && reply[j] != '-',
        forall|j: int| 0 <= j < reply.len() && #[trigger] reply[j] == '\n' ==> j > 0 && !chars::is_space(reply[j - 1]),
    ensures
        reply_text(reply) == reply,
{
    let r = reply;
    reveal_strlit("<bos>");
    reveal_strlit("<eos>");
    reveal_strlit("<end_of_turn>");
    chars::lemma_trim_solid(r);
    lemma_find_absent(r, "<end_of_turn>"@, 0);
    assert(before_turn_end(chars::trim(r)) == r);
    lemma_removed_absent(r, "<bos>"@);
    lemma_removed_absent(r, "<eos>"@);
    lemma_removed_absent(r, "<end_of_turn>"@);
    assert(chars::is_space('\n'));
    assert(lines(r) == pieces(r));
    assert(clean_text(r, '-'));
    lemma_pieces_of_clean_text(r, '-');
    let ps = pieces(r);
    let ls = lines(r).map_values(|l: Seq<char>| chars::trim_end(l));
    assert forall|k: int| 0 <= k < ps.len() implies #[trigger] ls[k] == ps[k] by {
        let p = ps[k];
        assert(chars::solid_end(p, p.len() as int) == p.len());
        assert(p.take(p.len() as int) =~= p);
    }
    assert(ls =~= ps);
    lemma_not_a_fence(ps[0]);
    assert(drop_front(ps) == ps);
    lemma_not_a_fence(ps.last());
    assert(drop_back(ps) == ps);
}

/// Takes the model's answer apart and keeps the translation, or says that the model
/// answered with nothing.
pub fn read_reply(reply: &str) -> (res: Result<String, String>)
    ensures
        reply_text(reply@).len() == 0 ==> (res matches Err(e) && e@ == nothing_sentence()),
        reply_text(reply@).len() > 0 ==> (res matches Ok(t) && t@ == reply_text(reply@)),
{
    proof {
        reveal_strlit("<bos>");
        reveal_strlit("<eos>");
        reveal_strlit("<end_of_turn>");
    }
    let whole = chars::to_chars(reply);
    let t = chars::trimmed(whole.as_slice());
    let end_mark = chars::to_chars("<end_of_turn>");
    let t = match find(&t, &end_mark) {
        Some(i) => {
            proof {
                lemma_find_bound(t@, end_mark@, 0);
            }
            chars::slice_range(t.as_slice(), 0, i)
        },
        None => t,
    };
    proof {
        assert(t@ == before_turn_end(chars::trim(reply@))) by {
            let tt = chars::trim(reply@);
            if find_from(tt, "<end_of_turn>"@, 0) >= 0 {
                assert(tt.subrange(0, find_from(tt, "<end_of_turn>"@, 0)) =~= tt.take(find_from(tt, "<end_of_turn>"@, 0)));
            }
        }
    }
    let t = remove_all(&t, &chars::to_chars("<bos>"));
    let t = remove_all(&t, &chars::to_chars("<eos>"));
    let t = remove_all(&t, &end_mark);
    let ls = split_lines(&t);
    let ghost lv = ls@.map_values(|l: Vec<char>| l@);
    let fence = chars::to_chars("---");
    proof {
        assert(lv.skip(0) =~= lv);
    }
    let mut lo: usize = 0;
    while lo < ls.len() && same_chars(&chars::trimmed(ls[lo].as_slice()), &fence)
        invariant
            lv == ls@.map_values(|l: Vec<char>| l@),
            fence@ == "---"@,
            lo <= ls@.len(),
            drop_front(lv) == drop_front(lv.skip(lo as int)),
        decreases ls@.len() - lo,
    {
        proof {
            assert(lv[lo as int] == ls@[lo as int]@);
            lemma_front_step(lv, lo as int);
        }
        lo = lo + 1;
    }
    proof {
        if lo < ls@.len() {
            assert(lv[lo as int] == ls@[lo as int]@);
            assert(lv.skip(lo as int)[0] == lv[lo as int]);
        }
        assert(drop_front(lv) == lv.skip(lo as int));
        assert(lv.skip(lo as int) =~= lv.subrange(lo as int, lv.len() as int));
    }
    let mut hi: usize = ls.len();
    while hi > lo && same_chars(&chars::trimmed(ls[hi - 1].as_slice()), &fence)
        invariant
            lv == ls@.map_values(|l: Vec<char>| l@),
            fence@ == "---"@,
            lo <= hi <= ls@.len(),
            drop_back(drop_front(lv)) == drop_back(lv.subrange(lo as int, hi as int)),
        decreases hi,
    {
        proof {
            assert(lv[hi - 1] == ls@[hi - 1]@);
            lemma_back_step(lv, lo as int, hi as int);
        }
        hi = hi - 1;
    }
    proof {
        if hi > lo {
            assert(lv[hi - 1] == ls@[hi - 1]@);
            assert(lv.subrange(lo as int, hi as int).last() == lv[hi - 1]);
        }
        assert(drop_back(drop_front(lv)) == lv.subrange(lo as int, hi as int));
    }
    let mut out: Vec<char> = Vec::new();
    let mut k: usize = lo;
    while k < hi
        invariant
            lv == ls@.map_values(|l: Vec<char>| l@),
            lo <= k <= hi,
            hi <= ls@.len(),
            out@ == join(lv.subrange(lo as int, k as int)),
        decreases hi - k,
    {
        proof {
            lemma_join_step(lv, lo as int, k as int);
            assert(lv[k as int] == ls@[k as int]@);
            if k == lo {
                assert(lv.subrange(lo as int, k as int).len() == 0);
            }
        }
        if k > lo {
            out.push('\n');
        }
        chars::push_all(&mut out, ls[k].as_slice());
        proof {
            if k == lo {
                assert(out@ =~= lv[k as int]);
            } else {
                assert(out@ =~= join(lv.subrange(lo as int, k as int)) + seq!['\n'] + lv[k as int]);
            }
        }
        k = k + 1;
    }
    let text = chars::trimmed(out.as_slice());
    if text.len() == 0 {
        return Err(String::from_str("The model answered with nothing, so this passage has no translation yet."));
    }
    Ok(chars::string_of(text.as_slice()))
}

} // verus!
