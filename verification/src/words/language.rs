//! The two languages a translation runs between.
//!
//! The model is asked in English words ("German"), not in codes, because a code in
//! the prompt makes some models answer with the code instead of the language.

use vstd::prelude::*;
use super::chars;

verus! {

/// How many languages this tool takes.
pub const KNOWN_COUNT: usize = 10;

/// The code of known language `i`: de, en, fr, es, it, nl, pl, pt, tr, uk.
pub open spec fn known_code(i: int) -> Seq<char> {
    if i == 0 {
        seq!['d', 'e']
    } else if i == 1 {
        seq!['e', 'n']
    } else if i == 2 {
        seq!['f', 'r']
    } else if i == 3 {
        seq!['e', 's']
    } else if i == 4 {
        seq!['i', 't']
    } else if i == 5 {
        seq!['n', 'l']
    } else if i == 6 {
        seq!['p', 'l']
    } else if i == 7 {
        seq!['p', 't']
    } else if i == 8 {
        seq!['t', 'r']
    } else {
        seq!['u', 'k']
    }
}

/// The English name of known language `i`, which is what goes into the prompt.
pub open spec fn known_name(i: int) -> Seq<char> {
    if i == 0 {
        "German"@
    } else if i == 1 {
        "English"@
    } else if i == 2 {
        "French"@
    } else if i == 3 {
        "Spanish"@
    } else if i == 4 {
        "Italian"@
    } else if i == 5 {
        "Dutch"@
    } else if i == 6 {
        "Polish"@
    } else if i == 7 {
        "Portuguese"@
    } else if i == 8 {
        "Turkish"@
    } else {
        "Ukrainian"@
    }
}

/// Known language `i`, as its code and its English name.
///
/// The list is short on purpose: a code that is in it has been read out loud in a
/// prompt and answered correctly.
pub fn known_language(i: usize) -> (r: (&'static str, &'static str))
    requires
        i < KNOWN_COUNT,
    ensures
        r.0@ == known_code(i as int),
        r.1@ == known_name(i as int),
{
    proof {
        reveal_strlit("de");
        reveal_strlit("en");
        reveal_strlit("fr");
        reveal_strlit("es");
        reveal_strlit("it");
        reveal_strlit("nl");
        reveal_strlit("pl");
        reveal_strlit("pt");
        reveal_strlit("tr");
        reveal_strlit("uk");
    }
    match i {
        0 => ("de", "German"),
        1 => ("en", "English"),
        2 => ("fr", "French"),
        3 => ("es", "Spanish"),
        4 => ("it", "Italian"),
        5 => ("nl", "Dutch"),
        6 => ("pl", "Polish"),
        7 => ("pt", "Portuguese"),
        8 => ("tr", "Turkish"),
        _ => ("uk", "Ukrainian"),
    }
}

/// Whether `c` lower-cases to the lower case letter `k`: it is `k`, or `k` in upper
/// case, or the Kelvin sign, which lower-cases to `k`.
pub open spec fn lowers_to(c: char, k: char) -> bool {
    c == k || (65 <= (c as u32) && (c as u32) <= 90 && (c as u32) + 32 == (k as u32)) || (k == 'k'
        && (c as u32) == 0x212A)
}

/// Whether `t`, lower-cased, is the code `k`.
pub open spec fn code_matches(t: Seq<char>, k: Seq<char>) -> bool {
    t.len() == k.len() && forall|i: int| 0 <= i < t.len() ==> #[trigger] lowers_to(t[i], k[i])
}

/// The first known language from `i` on whose code `t` is, lower-cased, or the
/// number of known languages when there is none.
pub open spec fn first_known(t: Seq<char>, i: int) -> int
    decreases 10 - i,
{
    if i < 0 || i >= 10 {
        10
    } else if code_matches(t, known_code(i)) {
        i
    } else {
        first_known(t, i + 1)
    }
}

/// The codes of the first `n` known languages, joined with ", ".
pub open spec fn listed(n: int) -> Seq<char>
    decreases n,
{
    if n <= 1 {
        known_code(0)
    } else {
        listed(n - 1) + ", "@ + known_code(n - 1)
    }
}

/// The sentence a code that is not known is refused with.
pub open spec fn unknown_sentence(code: Seq<char>) -> Seq<char> {
    "\""@ + code + "\" is not a language this tool knows. It knows "@ + listed(10) + "."@
}

/// One side of a translation: the code a person types and the word the model reads.
#[derive(Debug, Clone, PartialEq, Eq)]
pub struct Language {
    code: String,
    name: String,
}

impl View for Language {
    type V = (Seq<char>, Seq<char>);

    closed spec fn view(&self) -> (Seq<char>, Seq<char>) {
        (self.code@, self.name@)
    }
}

fn lowers(c: char, k: char) -> (b: bool)
    ensures
        b == lowers_to(c, k),
{
    let n = c as u32;
    c == k || (65 <= n && n <= 90 && n + 32 == (k as u32)) || (k == 'k' && n == 0x212A)
}

fn matches_code(t: &Vec<char>, k: &Vec<char>) -> (b: bool)
    ensures
        b == code_matches(t@, k@),
{
    if t.len() != k.len() {
        return false;
    }
    let mut i: usize = 0;
    while i < t.len()
        invariant
            t@.len() == k@.len(),
            i <= t@.len(),
            forall|j: int| 0 <= j < i ==> #[trigger] lowers_to(t@[j], k@[j]),
        decreases t@.len() - i,
    {
        if !lowers(t[i], k[i]) {
            return false;
        }
        i = i + 1;
    }
    true
}

impl Language {
    /// Turns a language code into a language.
    ///
    /// `code` is a two letter code, upper or lower case, such as `de`, with white
    /// space around it or not. A code that is not known is refused with a sentence
    /// naming it and listing the ones that work.
    pub fn from_code(code: &str) -> (res: Result<Language, String>)
        ensures
            first_known(chars::trim(code@), 0) < 10 ==> (res matches Ok(l) && l@ == (
                known_code(first_known(chars::trim(code@), 0)),
                known_name(first_known(chars::trim(code@), 0)),
            )),
            first_known(chars::trim(code@), 0) >= 10 ==> (res matches Err(e) && e@ == unknown_sentence(
                code@,
            )),
    {
        let all = chars::to_chars(code);
        let wanted = chars::trimmed(all.as_slice());
        let ghost t = chars::trim(code@);
        let mut i: usize = 0;
        while i < KNOWN_COUNT
            invariant
                wanted@ == t,
                t == chars::trim(code@),
                i <= 10,
                first_known(t, 0) == first_known(t, i as int),
            decreases 10 - i,
        {
            let (known, name) = known_language(i);
            let k = chars::to_chars(known);
            if matches_code(&wanted, &k) {
                return Ok(Language { code: String::from_str(known), name: String::from_str(name) });
            }
            i = i + 1;
        }
        let mut why = String::from_str("\"");
        why.append(code);
        why.append("\" is not a language this tool knows. It knows ");
        let mut j: usize = 0;
        while j < KNOWN_COUNT
            invariant
                j <= 10,
                why@ == "\""@ + code@ + "\" is not a language this tool knows. It knows "@ + (if j == 0 {
                    Seq::<char>::empty()
                } else {
                    listed(j as int)
                }),
            decreases 10 - j,
        {
            let (known, _) = known_language(j);
            if j > 0 {
                why.append(", ");
            }
            why.append(known);
            proof {
                if j > 0 {
                    assert(listed(j + 1) == listed(j as int) + ", "@ + known_code(j as int));
                }
            }
            j = j + 1;
        }
        why.append(".");
        Err(why)
    }

    /// The code the language was named by, lower case.
    pub fn code(&self) -> (c: &str)
        ensures
            c@ == self@.0,
    {
        self.code.as_str()
    }

    /// The English name of the language, which is what goes into the prompt.
    pub fn name(&self) -> (n: &str)
        ensures
            n@ == self@.1,
    {
        self.name.as_str()
    }

    /// Whether two languages are the same one.
    pub fn same_as(&self, other: &Language) -> (b: bool)
        ensures
            b == (self@ == other@),
    {
        self.code == other.code && self.name == other.name
    }
}

} // verus!
