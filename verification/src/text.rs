//! The sentences the library answers with, built from literal text and decimal
//! numbers.

use vstd::prelude::*;

verus! {

/// The character of one decimal digit.
pub open spec fn digit_char(d: nat) -> char {
    (48 + d) as char
}

/// A number written out in decimal, most significant digit first, with no leading
/// zero.
pub open spec fn decimal(n: nat) -> Seq<char>
    decreases n,
{
    if n < 10 {
        seq![digit_char(n)]
    } else {
        decimal(n / 10).push(digit_char(n % 10))
    }
}

fn digit_text(d: u64) -> (s: &'static str)
    requires
        d < 10,
    ensures
        s@ == seq![digit_char(d as nat)],
{
    proof {
        reveal_strlit("0");
        reveal_strlit("1");
        reveal_strlit("2");
        reveal_strlit("3");
        reveal_strlit("4");
        reveal_strlit("5");
        reveal_strlit("6");
        reveal_strlit("7");
        reveal_strlit("8");
        reveal_strlit("9");
    }
    match d {
        0 => "0",
        1 => "1",
        2 => "2",
        3 => "3",
        4 => "4",
        5 => "5",
        6 => "6",
        7 => "7",
        8 => "8",
        _ => "9",
    }
}

/// Appends `n` in decimal.
pub fn push_decimal(out: &mut String, n: u64)
    ensures
        final(out)@ == old(out)@ + decimal(n as nat),
    decreases n,
{
    if n >= 10 {
        push_decimal(out, n / 10);
    }
    out.append(digit_text(n % 10));
    proof {
        if n >= 10 {
            assert(decimal(n as nat) == decimal((n / 10) as nat).push(digit_char((n % 10) as nat)));
        }
    }
}

/// "A Huffman table says it holds `total` symbols but `given` follow it."
pub open spec fn symbol_count_sentence(total: nat, given: nat) -> Seq<char> {
    "A Huffman table says it holds "@ + decimal(total) + " symbols but "@ + decimal(given)
        + " follow it."@
}

pub fn sentence_symbol_count(total: usize, given: usize) -> (s: String)
    ensures
        s@ == symbol_count_sentence(total as nat, given as nat),
{
    let mut s = String::from_str("A Huffman table says it holds ");
    push_decimal(&mut s, total as u64);
    s.append(" symbols but ");
    push_decimal(&mut s, given as u64);
    s.append(" follow it.");
    s
}

pub open spec fn too_many_codes_sentence() -> Seq<char> {
    "A Huffman table holds more codes than its lengths allow."@
}

pub fn sentence_too_many_codes() -> (s: String)
    ensures
        s@ == too_many_codes_sentence(),
{
    String::from_str("A Huffman table holds more codes than its lengths allow.")
}

/// "Expected a marker at byte `at` of the page."
pub open spec fn expected_marker_sentence(at: nat) -> Seq<char> {
    "Expected a marker at byte "@ + decimal(at) + " of the page."@
}

pub fn sentence_expected_marker(at: usize) -> (s: String)
    ensures
        s@ == expected_marker_sentence(at as nat),
{
    let mut s = String::from_str("Expected a marker at byte ");
    push_decimal(&mut s, at as u64);
    s.append(" of the page.");
    s
}

/// "The text has `n` passages, so it needs `n` translations, not `m`."
pub open spec fn translations_wanted_sentence(n: nat, m: nat) -> Seq<char> {
    "The text has "@ + decimal(n) + " passages, so it needs "@ + decimal(n) + " translations, not "@
        + decimal(m) + "."@
}

pub fn sentence_translations_wanted(n: usize, m: usize) -> (s: String)
    ensures
        s@ == translations_wanted_sentence(n as nat, m as nat),
{
    let mut s = String::from_str("The text has ");
    push_decimal(&mut s, n as u64);
    s.append(" passages, so it needs ");
    push_decimal(&mut s, n as u64);
    s.append(" translations, not ");
    push_decimal(&mut s, m as u64);
    s.append(".");
    s
}

/// A whole number written out in decimal, with a minus sign when it is negative.
pub open spec fn signed_decimal(n: int) -> Seq<char> {
    if n < 0 {
        seq!['-'] + decimal((-n) as nat)
    } else {
        decimal(n as nat)
    }
}

/// Appends `n` in decimal, with a minus sign when it is negative.
pub fn push_signed(out: &mut String, n: i64)
    ensures
        final(out)@ == old(out)@ + signed_decimal(n as int),
{
    if n < 0 {
        proof {
            reveal_strlit("-");
        }
        out.append("-");
        let m: u64 = if n == i64::MIN {
            0x8000_0000_0000_0000u64
        } else {
            (-n) as u64
        };
        let ghost before = out@;
        push_decimal(out, m);
        proof {
            assert(out@ =~= old(out)@ + (seq!['-'] + decimal((-n) as nat)));
        }
    } else {
        push_decimal(out, n as u64);
    }
}

} // verus!
