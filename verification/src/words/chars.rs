//! Characters: Unicode white space, trimming, and moving between `str` and a vector
//! of characters.

use vstd::prelude::*;

verus! {

/// Whether `c` has the Unicode White_Space property, which is what `char::is_whitespace`
/// and `str::trim` go by.
pub open spec fn is_space(c: char) -> bool {
    let n = c as u32;
    (0x9 <= n && n <= 0xD) || n == 0x20 || n == 0x85 || n == 0xA0 || n == 0x1680 || (0x2000 <= n
        && n <= 0x200A) || n == 0x2028 || n == 0x2029 || n == 0x202F || n == 0x205F || n == 0x3000
}

pub fn space(c: char) -> (b: bool)
    ensures
        b == is_space(c),
{
    let n = c as u32;
    (0x9 <= n && n <= 0xD) || n == 0x20 || n == 0x85 || n == 0xA0 || n == 0x1680 || (0x2000 <= n
        && n <= 0x200A) || n == 0x2028 || n == 0x2029 || n == 0x202F || n == 0x205F || n == 0x3000
}

/// The characters of `s`, in order.
pub fn to_chars(s: &str) -> (v: Vec<char>)
    ensures
        v@ == s@,
{
    let mut v: Vec<char> = Vec::new();
    for c in it: s.chars()
        invariant
            v@ == it.seq().take(it.index() as int),
            it.seq() == s@,
    {
        v.push(c);
    }
    v
}

/// `String::push`: appends one character.
#[verifier::external_body]
fn push_char(s: &mut String, c: char)
    ensures
        final(s)@ == old(s)@.push(c),
{
    s.push(c);
}

/// A string holding the characters of `v`.
pub fn string_of(v: &[char]) -> (s: String)
    ensures
        s@ == v@,
{
    let mut s = String::new();
    let mut i: usize = 0;
    while i < v.len()
        invariant
            i <= v@.len(),
            s@ == v@.take(i as int),
        decreases v@.len() - i,
    {
        push_char(&mut s, v[i]);
        i = i + 1;
        proof {
            assert(v@.take(i as int) =~= v@.take(i - 1).push(v@[i - 1]));
        }
    }
    proof {
        assert(v@.take(v@.len() as int) =~= v@);
    }
    s
}

/// Where the first character at or after `i` that is not white space stands, or
/// the length when there is none.
pub open spec fn first_solid(s: Seq<char>, i: int) -> int
    decreases s.len() - i,
{
    if i < 0 || i >= s.len() {
        s.len() as int
    } else if !is_space(s[i]) {
        i
    } else {
        first_solid(s, i + 1)
    }
}

/// Where the last character before `j` that is not white space ends, or 0 when
/// there is none.
pub open spec fn solid_end(s: Seq<char>, j: int) -> int
    decreases j,
{
    if j <= 0 || j > s.len() {
        0
    } else if !is_space(s[j - 1]) {
        j
    } else {
        solid_end(s, j - 1)
    }
}

/// `s` without the white space at either end, as `str::trim` gives it.
pub open spec fn trim(s: Seq<char>) -> Seq<char> {
    let a = first_solid(s, 0);
    let b = solid_end(s, s.len() as int);
    if a >= b {
        seq![]
    } else {
        s.subrange(a, b)
    }
}

/// `s` without the white space at its end, as `str::trim_end` gives it.
pub open spec fn trim_end(s: Seq<char>) -> Seq<char> {
    s.take(solid_end(s, s.len() as int))
}

/// Every character of `s` is white space.
pub open spec fn all_space(s: Seq<char>) -> bool {
    forall|i: int| 0 <= i < s.len() ==> #[trigger] is_space(s[i])
}

pub proof fn lemma_first_solid(s: Seq<char>, i: int)
    requires
        0 <= i <= s.len(),
    ensures
        i <= first_solid(s, i) <= s.len(),
        forall|k: int| i <= k < first_solid(s, i) ==> #[trigger] is_space(s[k]),
        first_solid(s, i) < s.len() ==> !is_space(s[first_solid(s, i)]),
    decreases s.len() - i,
{
    if i < s.len() && is_space(s[i]) {
        lemma_first_solid(s, i + 1);
    }
}

pub proof fn lemma_solid_end(s: Seq<char>, j: int)
    requires
        0 <= j <= s.len(),
    ensures
        0 <= solid_end(s, j) <= j,
        forall|k: int| solid_end(s, j) <= k < j ==> #[trigger] is_space(s[k]),
        solid_end(s, j) > 0 ==> !is_space(s[solid_end(s, j) - 1]),
    decreases j,
{
    if j > 0 && is_space(s[j - 1]) {
        lemma_solid_end(s, j - 1);
    }
}

/// A text that starts and ends with something other than white space trims to
/// itself.
pub proof fn lemma_trim_solid(s: Seq<char>)
    requires
        s.len() > 0,
        !is_space(s[0]),
        !is_space(s.last()),
    ensures
        trim(s) == s,
{
    assert(s.subrange(0, s.len() as int) =~= s);
}

/// The bounds of `trim(v)` within `v`.
pub fn trim_bounds(v: &[char]) -> (r: (usize, usize))
    ensures
        r.0 as int == first_solid(v@, 0),
        r.1 as int == solid_end(v@, v@.len() as int),
{
    let mut a: usize = 0;
    while a < v.len() && space(v[a])
        invariant
            a <= v@.len(),
            first_solid(v@, 0) == first_solid(v@, a as int),
        decreases v@.len() - a,
    {
        a = a + 1;
    }
    let mut b: usize = v.len();
    while b > 0 && space(v[b - 1])
        invariant
            b <= v@.len(),
            solid_end(v@, v@.len() as int) == solid_end(v@, b as int),
        decreases b,
    {
        b = b - 1;
    }
    (a, b)
}

/// The characters of `v` without the white space at either end.
pub fn trimmed(v: &[char]) -> (t: Vec<char>)
    ensures
        t@ == trim(v@),
{
    let (a, b) = trim_bounds(v);
    if a >= b {
        Vec::new()
    } else {
        proof {
            lemma_solid_end(v@, v@.len() as int);
        }
        slice_range(v, a, b)
    }
}

/// The characters `from..to` of `v`.
pub fn slice_range(v: &[char], from: usize, to: usize) -> (r: Vec<char>)
    requires
        from <= to <= v@.len(),
    ensures
        r@ == v@.subrange(from as int, to as int),
{
    let mut r: Vec<char> = Vec::new();
    let mut i: usize = from;
    while i < to
        invariant
            from <= i <= to,
            to <= v@.len(),
            r@ == v@.subrange(from as int, i as int),
        decreases to - i,
    {
        r.push(v[i]);
        i = i + 1;
        proof {
            assert(v@.subrange(from as int, i as int) =~= v@.subrange(from as int, i - 1).push(v@[i - 1]));
        }
    }
    r
}

/// Appends the characters of `more`.
pub fn push_all(v: &mut Vec<char>, more: &[char])
    ensures
        final(v)@ == old(v)@ + more@,
{
    let mut i: usize = 0;
    while i < more.len()
        invariant
            i <= more@.len(),
            v@ == old(v)@ + more@.take(i as int),
        decreases more@.len() - i,
    {
        v.push(more[i]);
        i = i + 1;
        proof {
            assert(more@.take(i as int) =~= more@.take(i - 1).push(more@[i - 1]));
        }
    }
    proof {
        assert(more@.take(more@.len() as int) =~= more@);
    }
}

} // verus!
