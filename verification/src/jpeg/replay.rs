//! Why a recoded scan reads back as the scan it was made from: the bytes the writer
//! stuffs are the bytes the reader unstuffs, the bits it packs are the bits the
//! reader takes, a canonical code word read one bit at a time is found at its own
//! length and gives back its own symbol, and so every part of the walk over the new
//! scan meets the same symbols and raw bits as the walk over the old one.

use vstd::prelude::*;
use vstd::arithmetic::power2::*;
use vstd::arithmetic::div_mod::*;
use super::bits::{self, Decoded};
use super::kraft;
use super::recode::{self, Gathered};
use super::scan::{self, Component, Event, Read, Walk};
use super::segments;
use super::table::{self, Table};

verus! {

/// The bits of `s` from bit `pos` on begin with `b`.
pub open spec fn starts_with_bits(s: Seq<u8>, pos: int, b: Seq<bool>) -> bool {
    &&& 0 <= pos
    &&& pos + b.len() <= 8 * s.len()
    &&& forall|i: int| 0 <= i < b.len() ==> #[trigger] bits::bit_at(s, pos + i) == b[i]
}

/// The bits of `b` that come after its first `n` still begin the stream after
/// `n` more bits.
pub proof fn lemma_starts_with_split(s: Seq<u8>, pos: int, a: Seq<bool>, b: Seq<bool>)
    requires
        starts_with_bits(s, pos, a + b),
    ensures
        starts_with_bits(s, pos, a),
        starts_with_bits(s, pos + a.len(), b),
{
    assert forall|i: int| 0 <= i < a.len() implies #[trigger] bits::bit_at(s, pos + i) == a[i] by {
        assert((a + b)[i] == a[i]);
    }
    assert forall|i: int| 0 <= i < b.len() implies #[trigger] bits::bit_at(s, pos + a.len() + i) == b[i] by {
        assert((a + b)[a.len() + i] == b[i]);
        assert(pos + (a.len() + i) == pos + a.len() + i);
    }
}

proof fn lemma_bit_of_low_bits(w: u32, len: nat, i: int)
    requires
        0 <= i < len,
        len <= 32,
    ensures
        bits::low_bits(w, len)[i] == ((w as nat / pow2((len - 1 - i) as nat)) % 2 == 1),
{
    let sh = (len - 1 - i) as u32;
    vstd::bits::lemma_u32_shr_is_div(w, sh);
    let y = w >> sh;
    assert((y & 1u32) == y % 2) by (bit_vector);
}

/// Reading `n` bits that were written as the low `len` bits of `w` gives the top `n`
/// of them.
pub proof fn lemma_read_written(s: Seq<u8>, pos: int, w: u32, len: nat, n: nat)
    requires
        len <= 32,
        n <= len,
        w < pow2(len),
        starts_with_bits(s, pos, bits::low_bits(w, len)),
    ensures
        bits::bits_value(s, pos, n) == w as nat / pow2((len - n) as nat),
    decreases n,
{
    if n == 0 {
        lemma_pow2_pos(len);
        assert(w as nat / pow2(len) == 0) by {
            lemma_basic_div(w as int, pow2(len) as int);
        }
    } else {
        lemma_read_written(s, pos, w, len, (n - 1) as nat);
        let i = n - 1;
        assert(bits::bit_at(s, pos + i) == bits::low_bits(w, len)[i]);
        lemma_bit_of_low_bits(w, len, i);
        let e = (len - n) as nat;
        lemma_pow2_unfold(e + 1);
        lemma_pow2_pos(e);
        let q = w as nat / pow2(e);
        assert(w as nat / pow2(e + 1) == q / 2) by {
            lemma_div_denominator(w as int, pow2(e) as int, 2);
            assert(pow2(e) * 2 == pow2(e + 1));
        }
        assert((len - 1 - i) as nat == e);
        assert(2 * (q / 2) + q % 2 == q) by {
            lemma_fundamental_div_mod(q as int, 2);
        }
    }
}

/// Reading `n` bits that were written as the low `n` bits of `x`, which fits in `n`
/// bits, gives `x` back.
pub proof fn lemma_read_raw(s: Seq<u8>, pos: int, x: u32, n: nat)
    requires
        n <= 32,
        x < pow2(n),
        starts_with_bits(s, pos, bits::low_bits(x, n)),
    ensures
        bits::bits_value(s, pos, n) == x,
{
    lemma_read_written(s, pos, x, n, n);
    assert(pow2(0) == 1) by {
        lemma2_to64();
    }
    assert((n - n) as nat == 0);
    assert(x as nat / 1 == x);
}

/// The first code of length `b`, shifted back to length `a`, is past every code of
/// length `a`.
proof fn lemma_first_code_past(counts: Seq<u8>, a: int, b: int)
    requires
        counts.len() == 16,
        1 <= a < b <= 16,
    ensures
        table::first_code(counts, b) >= (table::first_code(counts, a) + table::count_at(counts, a)) * pow2(
            (b - a) as nat,
        ),
    decreases b - a,
{
    let f = table::first_code(counts, a) + table::count_at(counts, a);
    table::lemma_first_code_capped(counts, a);
    assert(f >= 0);
    lemma_pow2_unfold((b - a) as nat);
    if b == a + 1 {
        assert(pow2(0) == 1) by {
            lemma2_to64();
        }
        assert(pow2(1) == 2);
        assert(table::first_code(counts, b) == 2 * f);
        assert(f * pow2(1) == 2 * f) by (nonlinear_arith)
            requires
                pow2(1) == 2,
        ;
    } else {
        lemma_first_code_past(counts, a, b - 1);
        table::lemma_first_code_capped(counts, b - 1);
        let p = pow2((b - 1 - a) as nat) as int;
        let g = table::first_code(counts, b - 1);
        let c = table::count_at(counts, b - 1);
        assert(c >= 0);
        assert(g >= f * p);
        assert(table::first_code(counts, b) == 2 * (g + c));
        assert(pow2((b - a) as nat) == 2 * p);
        assert(2 * (g + c) >= f * (2 * p)) by (nonlinear_arith)
            requires
                g >= f * p,
                c >= 0,
        ;
    }
}

/// The position `k` lies among the codes of its own length.
pub proof fn lemma_length_bounds(counts: Seq<u8>, k: int, len: int)
    requires
        counts.len() == 16,
        1 <= len <= 16,
        table::first_index(counts, len) <= k < table::total_codes(counts),
    ensures
        table::first_index(counts, table::length_from(counts, k, len)) <= k < table::first_index(
            counts,
            table::length_from(counts, k, len) + 1,
        ),
        len <= table::length_from(counts, k, len) <= 16,
    decreases 16 - len,
{
    if len < 16 && k >= table::first_index(counts, len + 1) {
        lemma_length_bounds(counts, k, len + 1);
    }
}

/// Reading the code word of position `k` one bit at a time finds it at its own
/// length and gives back the symbol at `k`.
pub proof fn lemma_decode_code_word(counts: Seq<u8>, symbols: Seq<u8>, s: Seq<u8>, pos: int, k: int)
    requires
        counts.len() == 16,
        table::total_codes(counts) == symbols.len(),
        kraft::proper_code(counts),
        0 <= k < symbols.len(),
        starts_with_bits(
            s,
            pos,
            bits::low_bits(table::code_word(counts, k) as u32, table::code_length(counts, k) as nat),
        ),
    ensures
        bits::decode(counts, symbols, s, pos) == Decoded::Found(symbols[k], table::code_length(counts, k) as nat),
{
    let len = table::code_length(counts, k);
    lemma_length_bounds(counts, k, 1);
    assert(table::first_index(counts, 1) == 0);
    let w = table::code_word(counts, k);
    let lo = table::first_index(counts, len);
    assert(table::first_index(counts, len + 1) == lo + table::count_at(counts, len));
    assert(table::count_at(counts, len) > 0);
    assert(table::first_code(counts, len) + table::count_at(counts, len) <= pow2(len as nat));
    table::lemma_first_code_capped(counts, len);
    assert(0 <= w < pow2(len as nat));
    lemma_pow2_strictly_increases(len as nat, 32);
    assert(pow2(32) == 0x1_0000_0000) by {
        lemma2_to64();
    }
    lemma_decode_from(counts, symbols, s, pos, k, 1);
}

proof fn lemma_decode_from(counts: Seq<u8>, symbols: Seq<u8>, s: Seq<u8>, pos: int, k: int, l: int)
    requires
        counts.len() == 16,
        table::total_codes(counts) == symbols.len(),
        0 <= k < symbols.len(),
        1 <= l <= table::code_length(counts, k) <= 16,
        table::first_index(counts, table::code_length(counts, k)) <= k < table::first_index(
            counts,
            table::code_length(counts, k) + 1,
        ),
        0 <= table::code_word(counts, k) < pow2(table::code_length(counts, k) as nat),
        table::code_word(counts, k) < 0x1_0000_0000,
        starts_with_bits(
            s,
            pos,
            bits::low_bits(table::code_word(counts, k) as u32, table::code_length(counts, k) as nat),
        ),
    ensures
        bits::decode_len(counts, symbols, s, pos, l) == Decoded::Found(symbols[k], table::code_length(counts, k) as nat),
        pos < 8 * s.len() ==> bits::decode(counts, symbols, s, pos) == bits::decode_len(counts, symbols, s, pos, 1),
        pos < 8 * s.len(),
    decreases 16 - l,
{
    let len = table::code_length(counts, k);
    let w = table::code_word(counts, k);
    let wu = w as u32;
    assert(wu == w);
    lemma_read_written(s, pos, wu, len as nat, l as nat);
    let v = bits::bits_value(s, pos, l as nat) as int;
    assert(v == w / (pow2((len - l) as nat) as int));
    if l == len {
        assert(pow2(0) == 1) by {
            lemma2_to64();
        }
        assert((len - l) as nat == 0);
        assert(pow2((len - l) as nat) as int == 1);
        assert(w / 1 == w);
        assert(v == w);
        assert(table::count_at(counts, len) > 0);
        assert(table::first_index(counts, len + 1) == table::first_index(counts, len) + table::count_at(counts, len));
    } else {
        lemma_first_code_past(counts, l, len);
        let f = table::first_code(counts, l) + table::count_at(counts, l);
        let m = pow2((len - l) as nat) as int;
        lemma_pow2_pos((len - l) as nat);
        assert(w >= table::first_code(counts, len));
        assert(v >= f) by {
            assert(w >= f * m);
            lemma_div_is_ordered(f * m, w, m);
            lemma_div_multiples_vanish(f, m);
            assert(f * m / m == f);
        }
        lemma_decode_from(counts, symbols, s, pos, k, l + 1);
    }
}

proof fn lemma_byte_bit(c: Seq<bool>, at: int, j: int)
    requires
        0 <= at,
        at + 8 <= c.len(),
        0 <= j < 8,
    ensures
        (((bits::byte_of(c, at) >> ((7 - j) as u8)) & 1u8) == 1u8) == c[at + j],
{
    let (c0, c1, c2, c3, c4, c5, c6, c7) = (c[at], c[at + 1], c[at + 2], c[at + 3], c[at + 4], c[at + 5], c[at + 6], c[at + 7]);
    let x = bits::byte_of(c, at);
    let y = (if c0 { 128u8 } else { 0u8 }) | (if c1 { 64u8 } else { 0u8 }) | (if c2 { 32u8 } else { 0u8 }) | (if c3 {
        16u8
    } else {
        0u8
    }) | (if c4 { 8u8 } else { 0u8 }) | (if c5 { 4u8 } else { 0u8 }) | (if c6 { 2u8 } else { 0u8 }) | (if c7 {
        1u8
    } else {
        0u8
    });
    assert(y as int == (if c0 { 128int } else { 0 }) + (if c1 { 64int } else { 0 }) + (if c2 { 32int } else { 0 })
        + (if c3 { 16int } else { 0 }) + (if c4 { 8int } else { 0 }) + (if c5 { 4int } else { 0 }) + (if c6 {
        2int
    } else {
        0
    }) + (if c7 { 1int } else { 0 })) by (bit_vector)
        requires
            y == (if c0 { 128u8 } else { 0u8 }) | (if c1 { 64u8 } else { 0u8 }) | (if c2 { 32u8 } else { 0u8 }) | (
            if c3 {
                16u8
            } else {
                0u8
            }) | (if c4 { 8u8 } else { 0u8 }) | (if c5 { 4u8 } else { 0u8 }) | (if c6 { 2u8 } else { 0u8 }) | (if c7 {
                1u8
            } else {
                0u8
            }),
    ;
    assert(x == y);
    assert(((y >> 7u8) & 1u8 == 1u8) == c0 && ((y >> 6u8) & 1u8 == 1u8) == c1 && ((y >> 5u8) & 1u8 == 1u8) == c2
        && ((y >> 4u8) & 1u8 == 1u8) == c3 && ((y >> 3u8) & 1u8 == 1u8) == c4 && ((y >> 2u8) & 1u8 == 1u8) == c5
        && ((y >> 1u8) & 1u8 == 1u8) == c6 && ((y >> 0u8) & 1u8 == 1u8) == c7) by (bit_vector)
        requires
            y == (if c0 { 128u8 } else { 0u8 }) | (if c1 { 64u8 } else { 0u8 }) | (if c2 { 32u8 } else { 0u8 }) | (
            if c3 {
                16u8
            } else {
                0u8
            }) | (if c4 { 8u8 } else { 0u8 }) | (if c5 { 4u8 } else { 0u8 }) | (if c6 { 2u8 } else { 0u8 }) | (if c7 {
                1u8
            } else {
                0u8
            }),
    ;
    if j == 0 {
    } else if j == 1 {
    } else if j == 2 {
    } else if j == 3 {
    } else if j == 4 {
    } else if j == 5 {
    } else if j == 6 {
    } else {
    }
}

proof fn lemma_pack_index(b: Seq<bool>, i: int)
    requires
        b.len() % 8 == 0,
        0 <= i < b.len() / 8,
    ensures
        bits::pack(b).len() == b.len() / 8,
        bits::pack(b)[i] == bits::byte_of(b, 8 * i),
    decreases b.len(),
{
    lemma_pack_len(b);
    let t = b.take(b.len() - 8);
    if i < b.len() / 8 - 1 {
        lemma_pack_index(t, i);
        assert forall|j: int| 8 * i <= j < 8 * i + 8 implies t[j] == b[j] by {}
        assert(bits::byte_of(t, 8 * i) == bits::byte_of(b, 8 * i));
    }
}

proof fn lemma_pack_len(b: Seq<bool>)
    requires
        b.len() % 8 == 0,
    ensures
        bits::pack(b).len() == b.len() / 8,
    decreases b.len(),
{
    if b.len() >= 8 {
        lemma_pack_len(b.take(b.len() - 8));
    }
}

/// The bits packed into bytes are the bits read out of them.
pub proof fn lemma_pack_bits(b: Seq<bool>, p: int)
    requires
        b.len() % 8 == 0,
        0 <= p < b.len(),
    ensures
        bits::pack(b).len() == b.len() / 8,
        bits::bit_at(bits::pack(b), p) == b[p],
{
    let i = p / 8;
    lemma_pack_index(b, i);
    lemma_byte_bit(b, 8 * i, p % 8);
    assert(8 * i + p % 8 == p);
}

proof fn lemma_destuff_skip(d: Seq<u8>, at: int, j: int)
    requires
        0 <= at <= d.len(),
        0 <= j,
    ensures
        bits::destuff_from(d, at + j) == bits::destuff_from(d.skip(at), j),
        bits::ends_at_marker(d, at + j) == bits::ends_at_marker(d.skip(at), j),
    decreases d.len() - (at + j),
{
    let t = d.skip(at);
    if at + j < d.len() {
        assert(t[j] == d[at + j]);
        if j + 1 < t.len() {
            assert(t[j + 1] == d[at + j + 1]);
        }
        lemma_destuff_skip(d, at, j + 1);
        if at + j + 1 < d.len() {
            lemma_destuff_skip(d, at, j + 2);
        }
    }
}

proof fn lemma_stuff_join(x: Seq<u8>, y: Seq<u8>)
    ensures
        bits::stuff(x + y) == bits::stuff(x) + bits::stuff(y),
    decreases y.len(),
{
    if y.len() == 0 {
        assert(x + y =~= x);
        assert(bits::stuff(x) + Seq::<u8>::empty() =~= bits::stuff(x));
    } else {
        lemma_stuff_join(x, y.drop_last());
        assert((x + y).drop_last() =~= x + y.drop_last());
        assert((x + y).last() == y.last());
        assert(bits::stuff(x) + bits::stuff(y.drop_last()) + bits::stuff_one(y.last()) =~= bits::stuff(x) + (bits::stuff(
            y.drop_last(),
        ) + bits::stuff_one(y.last())));
    }
}

/// Unstuffing what was stuffed gives back the bytes, and what follows them is read as
/// it would have been on its own.
pub proof fn lemma_unstuff(a: Seq<u8>, rest: Seq<u8>)
    ensures
        bits::destuff_from(bits::stuff(a) + rest, 0) == a + bits::destuff_from(rest, 0),
        bits::ends_at_marker(bits::stuff(a) + rest, 0) == bits::ends_at_marker(rest, 0),
    decreases a.len(),
{
    if a.len() == 0 {
        assert(bits::stuff(a) + rest =~= rest);
        assert(a + bits::destuff_from(rest, 0) =~= bits::destuff_from(rest, 0));
    } else {
        let c = a[0];
        let tail = a.skip(1);
        assert(a =~= seq![c] + tail);
        lemma_stuff_join(seq![c], tail);
        assert(seq![c].drop_last() =~= Seq::<u8>::empty());
        assert(seq![c].last() == c);
        assert(bits::stuff(Seq::<u8>::empty()) =~= Seq::<u8>::empty());
        assert(bits::stuff(seq![c]) =~= bits::stuff(Seq::<u8>::empty()) + bits::stuff_one(c));
        assert(bits::stuff(seq![c]) =~= bits::stuff_one(c));
        lemma_unstuff(tail, rest);
        let d = bits::stuff(a) + rest;
        let n = bits::stuff_one(c).len() as int;
        assert(d =~= bits::stuff_one(c) + (bits::stuff(tail) + rest));
        assert(d.skip(n) =~= bits::stuff(tail) + rest);
        lemma_destuff_skip(d, n, 0);
        if c == 0xFF {
            assert(d[0] == 0xFF && d[1] == 0);
        } else {
            assert(d[0] == c);
        }
        assert(seq![c] + (tail + bits::destuff_from(rest, 0)) =~= a + bits::destuff_from(rest, 0));
    }
}

/// A recoded scan, its bits padded to a byte, packed, stuffed and closed with the end
/// of image marker, reads back as those bits and stops at that marker.
pub proof fn lemma_scan_reads_back(b: Seq<bool>)
    ensures
        ({
            let bytes = bits::pack(super::recode::padded(b));
            let scan = bits::stuff(bytes) + seq![0xFFu8, 0xD9u8];
            &&& bits::destuff_from(scan, 0) == bytes
            &&& bits::ends_at_marker(scan, 0)
            &&& starts_with_bits(bytes, 0, b)
        }),
{
    let p = super::recode::padded(b);
    let bytes = bits::pack(p);
    let end: Seq<u8> = seq![0xFFu8, 0xD9u8];
    lemma_unstuff(bytes, end);
    assert(bits::destuff_from(end, 0) =~= Seq::<u8>::empty());
    assert(bytes + Seq::<u8>::empty() =~= bytes);
    assert(p.len() % 8 == 0);
    assert forall|i: int| 0 <= i < b.len() implies #[trigger] bits::bit_at(bytes, 0 + i) == b[i] by {
        lemma_pack_bits(p, i);
        assert(p[i] == b[i]);
    }
    lemma_pack_len(p);
}


/// A symbol that occurs among the symbols has a last place below their count, and
/// that place holds it.
pub(crate) proof fn lemma_last_below(symbols: Seq<u8>, symbol: u8, n: int)
    requires
        0 <= n <= symbols.len(),
        exists|i: int| 0 <= i < n && symbols[i] == symbol,
    ensures
        0 <= table::last_below(symbols, symbol, n) < n,
        symbols[table::last_below(symbols, symbol, n)] == symbol,
    decreases n,
{
    if symbols[n - 1] != symbol {
        let i = choose|i: int| 0 <= i < n && symbols[i] == symbol;
        assert(i < n - 1);
        lemma_last_below(symbols, symbol, n - 1);
    }
}

/// Under a proper code every position has a length of 1 to 16 and a code word that
/// fits in that many bits.
proof fn lemma_code_word_fits(counts: Seq<u8>, k: int)
    requires
        counts.len() == 16,
        kraft::proper_code(counts),
        0 <= k < table::total_codes(counts),
    ensures
        1 <= table::code_length(counts, k) <= 16,
        table::first_index(counts, table::code_length(counts, k)) <= k < table::first_index(
            counts,
            table::code_length(counts, k) + 1,
        ),
        0 <= table::code_word(counts, k) < pow2(table::code_length(counts, k) as nat),
        table::code_word(counts, k) < 0x10000,
{
    let len = table::code_length(counts, k);
    lemma_length_bounds(counts, k, 1);
    assert(table::first_index(counts, 1) == 0);
    let lo = table::first_index(counts, len);
    assert(table::first_index(counts, len + 1) == lo + table::count_at(counts, len));
    assert(table::first_code(counts, len) + table::count_at(counts, len) <= pow2(len as nat));
    table::lemma_first_code_capped(counts, len);
    if len < 16 {
        lemma_pow2_strictly_increases(len as nat, 16);
    }
    assert(pow2(16) == 0x10000) by {
        lemma2_to64();
    }
}

/// A table's code for a symbol it holds reads back as that symbol, taking as many
/// bits as the code is long.
proof fn lemma_symbol_replay(t: Table, symbol: u8, s: Seq<u8>, marker: bool, q: int)
    requires
        t.wf(),
        kraft::proper_code(t.counts@),
        t.symbols@.contains(symbol),
        starts_with_bits(s, q, bits::low_bits(t.codes@[symbol as int].0 as u32, t.codes@[symbol as int].1 as nat)),
    ensures
        1 <= t.codes@[symbol as int].1 <= 16,
        scan::read_symbol(scan::code_view(t), s, marker, q) == Read::Got(
            symbol as nat,
            q + t.codes@[symbol as int].1,
        ),
{
    let c = t.counts@;
    let sy = t.symbols@;
    let n = sy.len() as int;
    let i = choose|i: int| 0 <= i < sy.len() && sy[i] == symbol;
    lemma_last_below(sy, symbol, n);
    let k = table::last_below(sy, symbol, n);
    assert(t.codes@[symbol as int] == table::code_of(c, sy, symbol, n));
    lemma_code_word_fits(c, k);
    let w = table::code_word(c, k);
    let len = table::code_length(c, k);
    assert((w as u16) as u32 == w as u32);
    assert((len as u8) as nat == len as nat);
    lemma_decode_code_word(c, sy, s, q, k);
}

/// Raw bits written as the low `n` bits of a number that fits read back as it.
/// A code word written with a table reads back as its symbol. The bytes
/// `BitWriter::finish` gives for a writer that started empty and was handed the
/// table's code word for a symbol the table holds, then any bits, decode, from the
/// first bit that `BitReader::new` stands on, as that symbol, using as many bits as
/// the code word is long; which is what `BitReader::symbol` then returns. The 0xFF
/// 0x00 stuffing is part of the round trip.
pub proof fn lemma_code_word_reads_back(t: Table, symbol: u8, more: Seq<bool>)
    requires
        t.wf(),
        kraft::proper_code(t.counts@),
        t.symbols@.contains(symbol),
    ensures
        ({
            let (code, len) = t.codes@[symbol as int];
            let b = bits::low_bits(code as u32, len as nat) + more;
            let written = bits::stuff(bits::pack(b + Seq::new(((8 - b.len() % 8) % 8) as nat, |i: int| true)));
            bits::decode(t.counts@, t.symbols@, bits::destuff_from(written, 0), 0) matches Decoded::Found(s, used)
                && s == symbol && used == len
        }),
{
    let (code, len) = t.codes@[symbol as int];
    let word = bits::low_bits(code as u32, len as nat);
    let b = word + more;
    let bytes = bits::pack(super::recode::padded(b));
    let written = bits::stuff(bytes);
    let nothing = Seq::<u8>::empty();
    lemma_scan_reads_back(b);
    lemma_unstuff(bytes, nothing);
    assert(written + nothing =~= written);
    assert(bits::destuff_from(nothing, 0) =~= nothing);
    assert(bytes + nothing =~= bytes);
    assert(bits::destuff_from(written, 0) == bytes);
    lemma_starts_with_split(bytes, 0, word, more);
    lemma_symbol_replay(t, symbol, bytes, false, 0);
    assert(scan::read_symbol(scan::code_view(t), bytes, false, 0) == Read::Got(symbol as nat, len as int));
}

proof fn lemma_raw_replay(s: Seq<u8>, marker: bool, q: int, x: u32, n: nat)
    requires
        n <= 16,
        x < pow2(n),
        starts_with_bits(s, q, bits::low_bits(x, n)),
    ensures
        scan::read_bits(s, marker, q, n) == Read::Got(x as nat, q + n),
{
    lemma_read_raw(s, q, x, n);
}

proof fn lemma_encode_single(e: Event, fresh: Seq<Option<Table>>)
    ensures
        scan::encode(seq![e], fresh) == scan::encode_one(e, fresh),
{
    assert(seq![e].drop_last() =~= Seq::<Event>::empty());
    assert(seq![e].last() == e);
    assert(scan::encode(Seq::<Event>::empty(), fresh) =~= Seq::<bool>::empty());
    assert(scan::encode(seq![e], fresh) == scan::encode(seq![e].drop_last(), fresh) + scan::encode_one(seq![e].last(), fresh));
    assert(Seq::<bool>::empty() + scan::encode_one(e, fresh) =~= scan::encode_one(e, fresh));
}

/// The new table of an event's slot holds its symbol, and its code is proper.
pub open spec fn event_covered(e: Event, fresh: Seq<Option<Table>>) -> bool {
    &&& (e.0 as int) < fresh.len()
    &&& fresh[e.0 as int] matches Some(t) && t.wf() && kraft::proper_code(t.counts@) && t.symbols@.contains(e.1)
}

/// Every event is covered by the new tables.
pub open spec fn covered(events: Seq<Event>, fresh: Seq<Option<Table>>) -> bool {
    forall|i: int| 0 <= i < events.len() ==> #[trigger] event_covered(events[i], fresh)
}

proof fn lemma_covered_split(a: Seq<Event>, b: Seq<Event>, fresh: Seq<Option<Table>>)
    requires
        covered(a + b, fresh),
    ensures
        covered(a, fresh),
        covered(b, fresh),
{
    assert forall|i: int| 0 <= i < a.len() implies #[trigger] event_covered(a[i], fresh) by {
        assert((a + b)[i] == a[i]);
    }
    assert forall|i: int| 0 <= i < b.len() implies #[trigger] event_covered(b[i], fresh) by {
        assert((a + b)[a.len() + i] == b[i]);
    }
}

/// One event, then more: the bits of the first, then those of the rest.
proof fn lemma_first_event(e: Event, rest: Seq<Event>, fresh: Seq<Option<Table>>, s: Seq<u8>, q: int)
    requires
        covered(seq![e] + rest, fresh),
        starts_with_bits(s, q, scan::encode(seq![e] + rest, fresh)),
    ensures
        event_covered(e, fresh),
        covered(rest, fresh),
        scan::encode(seq![e] + rest, fresh) == scan::encode_one(e, fresh) + scan::encode(rest, fresh),
        starts_with_bits(s, q, scan::encode_one(e, fresh)),
        starts_with_bits(s, q + scan::encode_one(e, fresh).len(), scan::encode(rest, fresh)),
{
    lemma_covered_split(seq![e], rest, fresh);
    assert(seq![e][0] == e);
    scan::lemma_encode_add(seq![e], rest, fresh);
    lemma_encode_single(e, fresh);
    lemma_starts_with_split(s, q, scan::encode_one(e, fresh), scan::encode(rest, fresh));
}


proof fn lemma_pow2_at_most_16(n: nat)
    requires
        n <= 16,
    ensures
        0 < pow2(n) <= 0x10000,
{
    lemma_pow2_pos(n);
    if n < 16 {
        lemma_pow2_strictly_increases(n, 16);
    }
    assert(pow2(16) == 0x10000) by {
        lemma2_to64();
    }
}

/// The events a walk gave, or none.
pub open spec fn walked(w: Walk) -> Seq<Event> {
    match w {
        Walk::Done(e, _) => e,
        Walk::Fail(_) => Seq::empty(),
    }
}

/// The bits an event is written with: the code of its symbol in the new table of
/// its slot, then its raw bits; read back, they give the same symbol and bits.
proof fn lemma_event_replay(e: Event, fresh: Seq<Option<Table>>, s2: Seq<u8>, marker2: bool, q: int)
    requires
        event_covered(e, fresh),
        e.3 <= 16,
        (e.2 as nat) < pow2(e.3 as nat),
        starts_with_bits(s2, q, scan::encode_one(e, fresh)),
    ensures
        ({
            let f = fresh[e.0 as int].unwrap();
            let len = f.codes@[e.1 as int].1 as int;
            &&& scan::encode_one(e, fresh).len() == len + e.3
            &&& scan::read_symbol(scan::code_view(f), s2, marker2, q) == Read::Got(e.1 as nat, q + len)
            &&& scan::read_bits(s2, marker2, q + len, e.3 as nat) == Read::Got(e.2 as nat, q + len + e.3)
        }),
{
    let f = fresh[e.0 as int].unwrap();
    let (code, len) = f.codes@[e.1 as int];
    let a = bits::low_bits(code as u32, len as nat);
    let b = bits::low_bits(e.2, e.3 as nat);
    assert(scan::encode_one(e, fresh) == a + b);
    lemma_starts_with_split(s2, q, a, b);
    lemma_symbol_replay(f, e.1, s2, marker2, q);
    lemma_raw_replay(s2, marker2, q + len, e.2, e.3 as nat);
}

/// The AC symbols of a block, written with the new table of their slot, read back
/// as the same events.
#[verifier::rlimit(80)]
#[verifier::spinoff_prover]
proof fn lemma_ac_replay(
    t: scan::CodeView,
    slot: usize,
    s: Seq<u8>,
    marker: bool,
    pos: int,
    position: int,
    f: Table,
    fresh: Seq<Option<Table>>,
    s2: Seq<u8>,
    marker2: bool,
    q: int,
)
    requires
        scan::ac_walk(t, slot, s, marker, pos, position) is Done,
        (slot as int) < fresh.len(),
        fresh[slot as int] == Some(f),
        covered(walked(scan::ac_walk(t, slot, s, marker, pos, position)), fresh),
        starts_with_bits(s2, q, scan::encode(walked(scan::ac_walk(t, slot, s, marker, pos, position)), fresh)),
    ensures
        ({
            let e = walked(scan::ac_walk(t, slot, s, marker, pos, position));
            scan::ac_walk(scan::code_view(f), slot, s2, marker2, q, position) == Walk::Done(
                e,
                q + scan::encode(e, fresh).len(),
            )
        }),
    decreases (if position < 64 { 64 - position } else { 0 }),
{
    let w = scan::ac_walk(t, slot, s, marker, pos, position);
    let ev = walked(w);
    if position >= 64 {
        assert(ev =~= Seq::<Event>::empty());
        assert(scan::encode(ev, fresh) =~= Seq::<bool>::empty());
    } else {
        match bits::decode(t.0, t.1, s, pos) {
            bits::Decoded::Found(symbol, used) => {
                let rs = symbol as nat;
                let p1 = pos + used;
                assert(scan::read_symbol(t, s, marker, pos) == Read::Got(rs, p1));
                let run = rs / 16;
                let size = rs % 16;
                if size == 0 {
                    let e: Event = (slot, rs as u8, 0u32, 0u8);
                    lemma_pow2_at_most_16(0);
                    if run == 15 {
                        let w2 = scan::ac_walk(t, slot, s, marker, p1, position + 16);
                        let rest = walked(w2);
                        assert(ev == seq![e] + rest);
                        lemma_first_event(e, rest, fresh, s2, q);
                        lemma_event_replay(e, fresh, s2, marker2, q);
                        let q1 = q + scan::encode_one(e, fresh).len();
                        lemma_ac_replay(t, slot, s, marker, p1, position + 16, f, fresh, s2, marker2, q1);
                    } else {
                        let rest = Seq::<Event>::empty();
                        assert(ev =~= seq![e] + rest);
                        lemma_first_event(e, rest, fresh, s2, q);
                        lemma_event_replay(e, fresh, s2, marker2, q);
                        assert(scan::encode(rest, fresh) =~= Seq::<bool>::empty());
                    }
                } else {
                    match scan::read_bits(s, marker, p1, size as nat) {
                        Read::Got(x, p2) => {
                            bits::lemma_bits_value_bound(s, p1, size as nat);
                            lemma_pow2_at_most_16(size as nat);
                            let e: Event = (slot, rs as u8, x as u32, size as u8);
                            let w2 = scan::ac_walk(t, slot, s, marker, p2, position + run + 1);
                            let rest = walked(w2);
                            assert(ev == seq![e] + rest);
                            lemma_first_event(e, rest, fresh, s2, q);
                            lemma_event_replay(e, fresh, s2, marker2, q);
                            let q1 = q + scan::encode_one(e, fresh).len();
                            lemma_ac_replay(t, slot, s, marker, p2, position + run + 1, f, fresh, s2, marker2, q1);
                        },
                        Read::Stop(_) => {},
                    }
                }
            },
            _ => {},
        }
    }
}


/// Every AC event of a block carries its slot, and a block that has coefficients
/// left gives at least one.
proof fn lemma_ac_slots(t: scan::CodeView, slot: usize, s: Seq<u8>, marker: bool, pos: int, position: int)
    requires
        scan::ac_walk(t, slot, s, marker, pos, position) is Done,
    ensures
        ({
            let e = walked(scan::ac_walk(t, slot, s, marker, pos, position));
            &&& forall|i: int| 0 <= i < e.len() ==> (#[trigger] e[i]).0 == slot
            &&& position < 64 ==> e.len() >= 1
        }),
    decreases (if position < 64 { 64 - position } else { 0 }),
{
    let ev = walked(scan::ac_walk(t, slot, s, marker, pos, position));
    if position < 64 {
        match scan::read_symbol(t, s, marker, pos) {
            Read::Got(rs, p1) => {
                let run = rs / 16;
                let size = rs % 16;
                if size == 0 {
                    if run == 15 {
                        lemma_ac_slots(t, slot, s, marker, p1, position + 16);
                    }
                } else {
                    match scan::read_bits(s, marker, p1, size as nat) {
                        Read::Got(x, p2) => {
                            lemma_ac_slots(t, slot, s, marker, p2, position + run + 1);
                        },
                        Read::Stop(_) => {},
                    }
                }
            },
            Read::Stop(_) => {},
        }
    }
}

/// A block's events: its DC event first, then at least one AC event, each with its
/// own slot.
proof fn lemma_block_slots(
    dc: scan::CodeView,
    ac: scan::CodeView,
    dc_slot: usize,
    ac_slot: usize,
    s: Seq<u8>,
    marker: bool,
    pos: int,
)
    requires
        scan::block_walk(dc, ac, dc_slot, ac_slot, s, marker, pos) is Done,
    ensures
        ({
            let e = walked(scan::block_walk(dc, ac, dc_slot, ac_slot, s, marker, pos));
            &&& e.len() >= 2
            &&& e[0].0 == dc_slot
            &&& e[1].0 == ac_slot
            &&& forall|i: int| 0 <= i < e.len() ==> (#[trigger] e[i]).0 == dc_slot || e[i].0 == ac_slot
        }),
{
    match scan::read_symbol(dc, s, marker, pos) {
        Read::Got(size, p1) => {
            match scan::read_bits(s, marker, p1, size as nat) {
                Read::Got(x, p2) => {
                    lemma_ac_slots(ac, ac_slot, s, marker, p2, 1);
                    let rest = walked(scan::ac_walk(ac, ac_slot, s, marker, p2, 1));
                    let e0: Event = (dc_slot, size as u8, x as u32, size as u8);
                    let ev = walked(scan::block_walk(dc, ac, dc_slot, ac_slot, s, marker, pos));
                    assert(ev == seq![e0] + rest);
                    assert(ev[1] == rest[0]);
                    assert forall|i: int| 0 <= i < ev.len() implies (#[trigger] ev[i]).0 == dc_slot || ev[i].0
                        == ac_slot by {
                        if i > 0 {
                            assert(ev[i] == rest[i - 1]);
                        }
                    }
                },
                Read::Stop(_) => {},
            }
        },
        Read::Stop(_) => {},
    }
}

/// One block written with the new tables of its two slots reads back as the same
/// events.
#[verifier::rlimit(40)]
proof fn lemma_block_replay(
    dc: scan::CodeView,
    ac: scan::CodeView,
    dc_slot: usize,
    ac_slot: usize,
    s: Seq<u8>,
    marker: bool,
    pos: int,
    fresh: Seq<Option<Table>>,
    s2: Seq<u8>,
    marker2: bool,
    q: int,
)
    requires
        scan::block_walk(dc, ac, dc_slot, ac_slot, s, marker, pos) is Done,
        covered(walked(scan::block_walk(dc, ac, dc_slot, ac_slot, s, marker, pos)), fresh),
        starts_with_bits(
            s2,
            q,
            scan::encode(walked(scan::block_walk(dc, ac, dc_slot, ac_slot, s, marker, pos)), fresh),
        ),
    ensures
        ({
            let e = walked(scan::block_walk(dc, ac, dc_slot, ac_slot, s, marker, pos));
            scan::block_walk(
                scan::code_view(fresh[dc_slot as int].unwrap()),
                scan::code_view(fresh[ac_slot as int].unwrap()),
                dc_slot,
                ac_slot,
                s2,
                marker2,
                q,
            ) == Walk::Done(e, q + scan::encode(e, fresh).len())
        }),
{
    let ev = walked(scan::block_walk(dc, ac, dc_slot, ac_slot, s, marker, pos));
    match scan::read_symbol(dc, s, marker, pos) {
        Read::Got(size, p1) => {
            match scan::read_bits(s, marker, p1, size as nat) {
                Read::Got(x, p2) => {
                    bits::lemma_bits_value_bound(s, p1, size as nat);
                    lemma_pow2_at_most_16(size as nat);
                    let e0: Event = (dc_slot, size as u8, x as u32, size as u8);
                    let rest = walked(scan::ac_walk(ac, ac_slot, s, marker, p2, 1));
                    assert(ev == seq![e0] + rest);
                    lemma_first_event(e0, rest, fresh, s2, q);
                    lemma_event_replay(e0, fresh, s2, marker2, q);
                    lemma_ac_slots(ac, ac_slot, s, marker, p2, 1);
                    assert(event_covered(rest[0], fresh));
                    let fa = fresh[ac_slot as int].unwrap();
                    let q1 = q + scan::encode_one(e0, fresh).len();
                    lemma_ac_replay(ac, ac_slot, s, marker, p2, 1, fa, fresh, s2, marker2, q1);
                },
                Read::Stop(_) => {},
            }
        },
        Read::Stop(_) => {},
    }
}

/// Events then more events: each part's bits in turn.
proof fn lemma_two_parts(a: Seq<Event>, b: Seq<Event>, fresh: Seq<Option<Table>>, s: Seq<u8>, q: int)
    requires
        covered(a + b, fresh),
        starts_with_bits(s, q, scan::encode(a + b, fresh)),
    ensures
        covered(a, fresh),
        covered(b, fresh),
        scan::encode(a + b, fresh).len() == scan::encode(a, fresh).len() + scan::encode(b, fresh).len(),
        starts_with_bits(s, q, scan::encode(a, fresh)),
        starts_with_bits(s, q + scan::encode(a, fresh).len(), scan::encode(b, fresh)),
{
    lemma_covered_split(a, b, fresh);
    scan::lemma_encode_add(a, b, fresh);
    lemma_starts_with_split(s, q, scan::encode(a, fresh), scan::encode(b, fresh));
}

/// `n` blocks of a component: their slots, and that the first two events name them.
proof fn lemma_blocks_slots(
    n: nat,
    dc: scan::CodeView,
    ac: scan::CodeView,
    dc_slot: usize,
    ac_slot: usize,
    s: Seq<u8>,
    marker: bool,
    pos: int,
)
    requires
        scan::blocks_walk(n, dc, ac, dc_slot, ac_slot, s, marker, pos) is Done,
    ensures
        ({
            let e = walked(scan::blocks_walk(n, dc, ac, dc_slot, ac_slot, s, marker, pos));
            &&& n >= 1 ==> e.len() >= 2 && e[0].0 == dc_slot && e[1].0 == ac_slot
            &&& forall|i: int| 0 <= i < e.len() ==> (#[trigger] e[i]).0 == dc_slot || e[i].0 == ac_slot
        }),
    decreases n,
{
    if n > 0 {
        let b = scan::block_walk(dc, ac, dc_slot, ac_slot, s, marker, pos);
        match b {
            Walk::Done(e1, p1) => {
                lemma_block_slots(dc, ac, dc_slot, ac_slot, s, marker, pos);
                lemma_blocks_slots((n - 1) as nat, dc, ac, dc_slot, ac_slot, s, marker, p1);
                let rest = walked(scan::blocks_walk((n - 1) as nat, dc, ac, dc_slot, ac_slot, s, marker, p1));
                let ev = walked(scan::blocks_walk(n, dc, ac, dc_slot, ac_slot, s, marker, pos));
                assert(ev == e1 + rest);
                assert(ev[0] == e1[0] && ev[1] == e1[1]);
                assert forall|i: int| 0 <= i < ev.len() implies (#[trigger] ev[i]).0 == dc_slot || ev[i].0
                    == ac_slot by {
                    if i < e1.len() {
                        assert(ev[i] == e1[i]);
                    } else {
                        assert(ev[i] == rest[i - e1.len()]);
                    }
                }
            },
            Walk::Fail(_) => {},
        }
    }
}

/// `n` blocks of a component written with the new tables read back as the same
/// events.
#[verifier::rlimit(80)]
#[verifier::spinoff_prover]
proof fn lemma_blocks_replay(
    n: nat,
    dc: scan::CodeView,
    ac: scan::CodeView,
    dc_slot: usize,
    ac_slot: usize,
    s: Seq<u8>,
    marker: bool,
    pos: int,
    fresh: Seq<Option<Table>>,
    s2: Seq<u8>,
    marker2: bool,
    q: int,
)
    requires
        scan::blocks_walk(n, dc, ac, dc_slot, ac_slot, s, marker, pos) is Done,
        covered(walked(scan::blocks_walk(n, dc, ac, dc_slot, ac_slot, s, marker, pos)), fresh),
        starts_with_bits(
            s2,
            q,
            scan::encode(walked(scan::blocks_walk(n, dc, ac, dc_slot, ac_slot, s, marker, pos)), fresh),
        ),
    ensures
        ({
            let e = walked(scan::blocks_walk(n, dc, ac, dc_slot, ac_slot, s, marker, pos));
            scan::blocks_walk(
                n,
                scan::code_view(fresh[dc_slot as int].unwrap()),
                scan::code_view(fresh[ac_slot as int].unwrap()),
                dc_slot,
                ac_slot,
                s2,
                marker2,
                q,
            ) == Walk::Done(e, q + scan::encode(e, fresh).len())
        }),
    decreases n,
{
    let ev = walked(scan::blocks_walk(n, dc, ac, dc_slot, ac_slot, s, marker, pos));
    if n == 0 {
        assert(scan::encode(ev, fresh) =~= Seq::<bool>::empty());
    } else {
        match scan::block_walk(dc, ac, dc_slot, ac_slot, s, marker, pos) {
            Walk::Done(e1, p1) => {
                let rest = walked(scan::blocks_walk((n - 1) as nat, dc, ac, dc_slot, ac_slot, s, marker, p1));
                assert(ev == e1 + rest);
                lemma_two_parts(e1, rest, fresh, s2, q);
                lemma_block_replay(dc, ac, dc_slot, ac_slot, s, marker, pos, fresh, s2, marker2, q);
                let q1 = q + scan::encode(e1, fresh).len();
                lemma_blocks_replay((n - 1) as nat, dc, ac, dc_slot, ac_slot, s, marker, p1, fresh, s2, marker2, q1);
            },
            Walk::Fail(_) => {},
        }
    }
}


/// Every event names one of the first `n` slots.
pub open spec fn slots_below(events: Seq<Event>, n: int) -> bool {
    forall|i: int| 0 <= i < events.len() ==> ((#[trigger] events[i]).0 as int) < n
}

/// Each component names two slots below eight, and samples at least one block.
pub open spec fn comps_sound(comps: Seq<Component>) -> bool {
    forall|j: int|
        0 <= j < comps.len() ==> (#[trigger] comps[j]).dc < 8 && comps[j].ac < 8 && comps[j].h >= 1 && comps[j].v
            >= 1
}

proof fn lemma_slots_join(a: Seq<Event>, b: Seq<Event>, n: int)
    requires
        slots_below(a, n),
        slots_below(b, n),
    ensures
        slots_below(a + b, n),
{
    assert forall|i: int| 0 <= i < (a + b).len() implies (((#[trigger] (a + b)[i]).0 as int) < n) by {
        if i < a.len() {
            assert((a + b)[i] == a[i]);
        } else {
            assert((a + b)[i] == b[i - a.len()]);
        }
    }
}

proof fn lemma_comps_slots(
    comps: Seq<Component>,
    i: int,
    tables: Seq<Option<scan::CodeView>>,
    s: Seq<u8>,
    marker: bool,
    pos: int,
)
    requires
        scan::comps_walk(comps, i, tables, s, marker, pos) is Done,
        comps_sound(comps),
    ensures
        slots_below(walked(scan::comps_walk(comps, i, tables, s, marker, pos)), 8),
    decreases comps.len() - i,
{
    let ev = walked(scan::comps_walk(comps, i, tables, s, marker, pos));
    if 0 <= i < comps.len() {
        let c = comps[i];
        match tables[c.dc as int] {
            Some(dc) => match tables[c.ac as int] {
                Some(ac) => match scan::blocks_walk((c.h * c.v) as nat, dc, ac, c.dc, c.ac, s, marker, pos) {
                    Walk::Done(e1, p1) => {
                        lemma_blocks_slots((c.h * c.v) as nat, dc, ac, c.dc, c.ac, s, marker, pos);
                        lemma_comps_slots(comps, i + 1, tables, s, marker, p1);
                        let rest = walked(scan::comps_walk(comps, i + 1, tables, s, marker, p1));
                        assert(ev == e1 + rest);
                        assert(slots_below(e1, 8));
                        lemma_slots_join(e1, rest, 8);
                    },
                    Walk::Fail(_) => {},
                },
                None => {},
            },
            None => {},
        }
    }
}

proof fn lemma_mcus_slots(
    n: nat,
    comps: Seq<Component>,
    tables: Seq<Option<scan::CodeView>>,
    s: Seq<u8>,
    marker: bool,
    pos: int,
)
    requires
        scan::mcus_walk(n, comps, tables, s, marker, pos) is Done,
        comps_sound(comps),
    ensures
        slots_below(walked(scan::mcus_walk(n, comps, tables, s, marker, pos)), 8),
    decreases n,
{
    if n > 0 {
        match scan::comps_walk(comps, 0, tables, s, marker, pos) {
            Walk::Done(e1, p1) => {
                lemma_comps_slots(comps, 0, tables, s, marker, pos);
                lemma_mcus_slots((n - 1) as nat, comps, tables, s, marker, p1);
                lemma_slots_join(e1, walked(scan::mcus_walk((n - 1) as nat, comps, tables, s, marker, p1)), 8);
            },
            Walk::Fail(_) => {},
        }
    }
}

pub(crate) proof fn lemma_rows_slots(
    rows: nat,
    across: nat,
    comps: Seq<Component>,
    tables: Seq<Option<scan::CodeView>>,
    s: Seq<u8>,
    marker: bool,
    pos: int,
)
    requires
        scan::rows_walk(rows, across, comps, tables, s, marker, pos) is Done,
        comps_sound(comps),
    ensures
        slots_below(walked(scan::rows_walk(rows, across, comps, tables, s, marker, pos)), 8),
    decreases rows,
{
    if rows > 0 {
        match scan::mcus_walk(across, comps, tables, s, marker, pos) {
            Walk::Done(e1, p1) => {
                lemma_mcus_slots(across, comps, tables, s, marker, pos);
                lemma_rows_slots((rows - 1) as nat, across, comps, tables, s, marker, p1);
                lemma_slots_join(
                    e1,
                    walked(scan::rows_walk((rows - 1) as nat, across, comps, tables, s, marker, p1)),
                    8,
                );
            },
            Walk::Fail(_) => {},
        }
    }
}

/// The components of an MCU written with the new tables read back as the same
/// events.
#[verifier::rlimit(80)]
#[verifier::spinoff_prover]
proof fn lemma_comps_replay(
    comps: Seq<Component>,
    i: int,
    tables: Seq<Option<scan::CodeView>>,
    s: Seq<u8>,
    marker: bool,
    pos: int,
    fresh: Seq<Option<Table>>,
    s2: Seq<u8>,
    marker2: bool,
    q: int,
)
    requires
        scan::comps_walk(comps, i, tables, s, marker, pos) is Done,
        comps_sound(comps),
        covered(walked(scan::comps_walk(comps, i, tables, s, marker, pos)), fresh),
        starts_with_bits(s2, q, scan::encode(walked(scan::comps_walk(comps, i, tables, s, marker, pos)), fresh)),
    ensures
        ({
            let e = walked(scan::comps_walk(comps, i, tables, s, marker, pos));
            scan::comps_walk(comps, i, scan::codes_view(fresh), s2, marker2, q) == Walk::Done(
                e,
                q + scan::encode(e, fresh).len(),
            )
        }),
    decreases comps.len() - i,
{
    let ev = walked(scan::comps_walk(comps, i, tables, s, marker, pos));
    if i < 0 || i >= comps.len() {
        assert(scan::encode(ev, fresh) =~= Seq::<bool>::empty());
    } else {
        let c = comps[i];
        match tables[c.dc as int] {
            Some(dc) => match tables[c.ac as int] {
                Some(ac) => {
                    let n = (c.h * c.v) as nat;
                    match scan::blocks_walk(n, dc, ac, c.dc, c.ac, s, marker, pos) {
                        Walk::Done(e1, p1) => {
                            let rest = walked(scan::comps_walk(comps, i + 1, tables, s, marker, p1));
                            assert(ev == e1 + rest);
                            lemma_two_parts(e1, rest, fresh, s2, q);
                            assert(c.h * c.v >= 1) by (nonlinear_arith)
                                requires
                                    c.h >= 1,
                                    c.v >= 1,
                            ;
                            lemma_blocks_slots(n, dc, ac, c.dc, c.ac, s, marker, pos);
                            assert(event_covered(e1[0], fresh));
                            assert(event_covered(e1[1], fresh));
                            let nt = scan::codes_view(fresh);
                            assert(nt[c.dc as int] == Some(scan::code_view(fresh[c.dc as int].unwrap())));
                            assert(nt[c.ac as int] == Some(scan::code_view(fresh[c.ac as int].unwrap())));
                            lemma_blocks_replay(n, dc, ac, c.dc, c.ac, s, marker, pos, fresh, s2, marker2, q);
                            let q1 = q + scan::encode(e1, fresh).len();
                            lemma_comps_replay(comps, i + 1, tables, s, marker, p1, fresh, s2, marker2, q1);
                        },
                        Walk::Fail(_) => {},
                    }
                },
                None => {},
            },
            None => {},
        }
    }
}

/// `n` MCUs written with the new tables read back as the same events.
#[verifier::rlimit(40)]
#[verifier::spinoff_prover]
proof fn lemma_mcus_replay(
    n: nat,
    comps: Seq<Component>,
    tables: Seq<Option<scan::CodeView>>,
    s: Seq<u8>,
    marker: bool,
    pos: int,
    fresh: Seq<Option<Table>>,
    s2: Seq<u8>,
    marker2: bool,
    q: int,
)
    requires
        scan::mcus_walk(n, comps, tables, s, marker, pos) is Done,
        comps_sound(comps),
        covered(walked(scan::mcus_walk(n, comps, tables, s, marker, pos)), fresh),
        starts_with_bits(s2, q, scan::encode(walked(scan::mcus_walk(n, comps, tables, s, marker, pos)), fresh)),
    ensures
        ({
            let e = walked(scan::mcus_walk(n, comps, tables, s, marker, pos));
            scan::mcus_walk(n, comps, scan::codes_view(fresh), s2, marker2, q) == Walk::Done(
                e,
                q + scan::encode(e, fresh).len(),
            )
        }),
    decreases n,
{
    let ev = walked(scan::mcus_walk(n, comps, tables, s, marker, pos));
    if n == 0 {
        assert(scan::encode(ev, fresh) =~= Seq::<bool>::empty());
    } else {
        match scan::comps_walk(comps, 0, tables, s, marker, pos) {
            Walk::Done(e1, p1) => {
                let rest = walked(scan::mcus_walk((n - 1) as nat, comps, tables, s, marker, p1));
                assert(ev == e1 + rest);
                lemma_two_parts(e1, rest, fresh, s2, q);
                lemma_comps_replay(comps, 0, tables, s, marker, pos, fresh, s2, marker2, q);
                let q1 = q + scan::encode(e1, fresh).len();
                lemma_mcus_replay((n - 1) as nat, comps, tables, s, marker, p1, fresh, s2, marker2, q1);
            },
            Walk::Fail(_) => {},
        }
    }
}

/// Rows of MCUs written with the new tables read back as the same events.
#[verifier::rlimit(40)]
#[verifier::spinoff_prover]
proof fn lemma_rows_replay(
    rows: nat,
    across: nat,
    comps: Seq<Component>,
    tables: Seq<Option<scan::CodeView>>,
    s: Seq<u8>,
    marker: bool,
    pos: int,
    fresh: Seq<Option<Table>>,
    s2: Seq<u8>,
    marker2: bool,
    q: int,
)
    requires
        scan::rows_walk(rows, across, comps, tables, s, marker, pos) is Done,
        comps_sound(comps),
        covered(walked(scan::rows_walk(rows, across, comps, tables, s, marker, pos)), fresh),
        starts_with_bits(
            s2,
            q,
            scan::encode(walked(scan::rows_walk(rows, across, comps, tables, s, marker, pos)), fresh),
        ),
    ensures
        ({
            let e = walked(scan::rows_walk(rows, across, comps, tables, s, marker, pos));
            scan::rows_walk(rows, across, comps, scan::codes_view(fresh), s2, marker2, q) == Walk::Done(
                e,
                q + scan::encode(e, fresh).len(),
            )
        }),
    decreases rows,
{
    let ev = walked(scan::rows_walk(rows, across, comps, tables, s, marker, pos));
    if rows == 0 {
        assert(scan::encode(ev, fresh) =~= Seq::<bool>::empty());
    } else {
        match scan::mcus_walk(across, comps, tables, s, marker, pos) {
            Walk::Done(e1, p1) => {
                let rest = walked(scan::rows_walk((rows - 1) as nat, across, comps, tables, s, marker, p1));
                assert(ev == e1 + rest);
                lemma_two_parts(e1, rest, fresh, s2, q);
                lemma_mcus_replay(across, comps, tables, s, marker, pos, fresh, s2, marker2, q);
                let q1 = q + scan::encode(e1, fresh).len();
                lemma_rows_replay((rows - 1) as nat, across, comps, tables, s, marker, p1, fresh, s2, marker2, q1);
            },
            Walk::Fail(_) => {},
        }
    }
}


proof fn lemma_histogram_nonneg(events: Seq<Event>, k: int)
    ensures
        scan::histogram(events, k) >= 0,
    decreases events.len(),
{
    if events.len() > 0 {
        lemma_histogram_nonneg(events.drop_last(), k);
    }
}

/// An event that occurs is counted on its own counter.
pub(crate) proof fn lemma_histogram_member(events: Seq<Event>, i: int)
    requires
        0 <= i < events.len(),
    ensures
        scan::histogram(events, events[i].0 * 257 + events[i].1) > 0,
    decreases events.len(),
{
    let k = events[i].0 * 257 + events[i].1;
    if i == events.len() - 1 {
        lemma_histogram_nonneg(events.drop_last(), k);
    } else {
        assert(events.drop_last()[i] == events[i]);
        lemma_histogram_member(events.drop_last(), i);
    }
}

/// New tables made for the events, as the recoder makes them, cover every event.
proof fn lemma_fresh_covers(events: Seq<Event>, fresh: Seq<Option<Table>>)
    requires
        slots_below(events, 8),
        scan::tables_ok(fresh),
        forall|s: int| 0 <= s < 8 ==> ((#[trigger] fresh[s]) is Some <==> recode::slot_used(events, s)),
        forall|s: int| 0 <= s < 8 ==> (#[trigger] fresh[s] matches Some(t) ==> recode::fits_slot(t, events, s)),
    ensures
        covered(events, fresh),
{
    assert forall|i: int| 0 <= i < events.len() implies #[trigger] event_covered(events[i], fresh) by {
        let e = events[i];
        let slot = e.0 as int;
        let k = e.1 as int;
        lemma_histogram_member(events, i);
        assert(scan::histogram(events, slot * 257 + k) > 0);
        assert(recode::slot_used(events, slot));
        let t = fresh[slot].unwrap();
        assert(fresh[slot] == Some(t));
        assert(recode::fits_slot(t, events, slot));
        assert(t.symbols@.contains(k as u8));
        assert(k as u8 == e.1);
    }
}

/// Every component of a frame header that passed has a sampling byte with both
/// nibbles at least one.
proof fn lemma_sampling_ok(body: Seq<u8>, i: int, count: int)
    requires
        0 <= i,
        segments::sampling_error(body, i, count) is None,
    ensures
        forall|j: int|
            i <= j < count ==> #[trigger] segments::sampling(body, j) / 16 >= 1 && segments::sampling(body, j) % 16
                >= 1,
    decreases count - i,
{
    if i < count {
        lemma_sampling_ok(body, i + 1, count);
    }
}

/// Every table byte of a scan header that passed names tables 0 to 3.
proof fn lemma_slots_ok(body: Seq<u8>, i: int, n: int)
    requires
        0 <= i,
        segments::slots_error(body, i, n) is None,
    ensures
        forall|j: int|
            i <= j < n ==> #[trigger] segments::table_byte(body, j) / 16 < 4 && segments::table_byte(body, j) % 16 < 4,
    decreases n - i,
{
    if i < n {
        lemma_slots_ok(body, i + 1, n);
    }
}

/// Every component samples at least one block each way.
pub open spec fn sampled(comps: Seq<Component>) -> bool {
    forall|j: int| 0 <= j < comps.len() ==> (#[trigger] comps[j]).h >= 1 && comps[j].v >= 1
}

/// The components of a page whose segments were read name slots below eight and
/// sample at least one block each.
pub proof fn lemma_segments_sound(jpeg: Seq<u8>, at: int, g: Gathered)
    requires
        recode::segments_from(jpeg, at, g) is Ok,
        g.frame matches Some(f) ==> sampled(f.0),
    ensures
        recode::segments_from(jpeg, at, g) matches Ok((g2, _, _)) && g2.frame matches Some(f) && comps_sound(f.0),
    decreases jpeg.len() - at,
{
    let marker = jpeg[at + 1];
    let len = segments::be16(jpeg, at + 2);
    let body = jpeg.subrange(at + 4, at + 2 + len);
    let next = at + 2 + len;
    if marker == 0xC4 {
        match segments::dht_from(body, 0, g.tables) {
            Ok(t) => {
                lemma_segments_sound(
                    jpeg,
                    next,
                    Gathered { head: g.head, quant: g.quant, frame_bytes: g.frame_bytes, frame: g.frame, tables: t },
                );
            },
            Err(_) => {},
        }
    } else if marker == 0xDB {
        let segment = jpeg.subrange(at, at + 2 + len);
        lemma_segments_sound(
            jpeg,
            next,
            Gathered {
                head: g.head,
                quant: g.quant + segment,
                frame_bytes: g.frame_bytes,
                frame: g.frame,
                tables: g.tables,
            },
        );
    } else if marker == 0xC0 {
        match segments::frame_of(body) {
            Ok(f) => {
                let count = body[5] as int;
                lemma_sampling_ok(body, 0, count);
                let comps = f.0;
                assert(comps == segments::frame_comps(body, count));
                assert forall|j: int| 0 <= j < comps.len() implies (#[trigger] comps[j]).h >= 1 && comps[j].v
                    >= 1 by {
                    assert(segments::sampling(body, j) / 16 >= 1);
                }
                let segment = jpeg.subrange(at, at + 2 + len);
                lemma_segments_sound(
                    jpeg,
                    next,
                    Gathered {
                        head: g.head,
                        quant: g.quant,
                        frame_bytes: g.frame_bytes + segment,
                        frame: Some(f),
                        tables: g.tables,
                    },
                );
            },
            Err(_) => {},
        }
    } else if marker == 0xDA {
        match g.frame {
            Some(f) => {
                match segments::scan_header_of(body, f.0) {
                    Ok(comps) => {
                        let n = f.0.len() as int;
                        lemma_slots_ok(body, 0, n);
                        assert(comps == segments::scan_comps(body, f.0));
                        assert forall|j: int| 0 <= j < comps.len() implies (#[trigger] comps[j]).dc < 8 && comps[j].ac
                            < 8 && comps[j].h >= 1 && comps[j].v >= 1 by {
                            assert(segments::table_byte(body, j) / 16 < 4);
                            assert(f.0[j].h >= 1);
                        }
                    },
                    Err(_) => {},
                }
            },
            None => {},
        }
    } else if 0xC1 <= marker && marker <= 0xCF {
    } else if marker == 0xDD {
    } else {
        let segment = jpeg.subrange(at, at + 2 + len);
        lemma_segments_sound(
            jpeg,
            next,
            Gathered {
                head: g.head + segment,
                quant: g.quant,
                frame_bytes: g.frame_bytes,
                frame: g.frame,
                tables: g.tables,
            },
        );
    }
}


/// Every event's slot is the DC or the AC slot of one of the components.
pub open spec fn named_by(events: Seq<Event>, comps: Seq<Component>) -> bool {
    forall|i: int| 0 <= i < events.len() ==> names_slot(comps, (#[trigger] events[i]).0)
}

/// One of the components takes its DC or its AC symbols from `slot`.
pub open spec fn names_slot(comps: Seq<Component>, slot: usize) -> bool {
    exists|j: int| 0 <= j < comps.len() && ((#[trigger] comps[j]).dc == slot || comps[j].ac == slot)
}

proof fn lemma_named_join(a: Seq<Event>, b: Seq<Event>, comps: Seq<Component>)
    requires
        named_by(a, comps),
        named_by(b, comps),
    ensures
        named_by(a + b, comps),
{
    let ab = a + b;
    assert forall|i: int| 0 <= i < ab.len() implies names_slot(comps, (#[trigger] ab[i]).0) by {
        if i < a.len() {
            assert(ab[i] == a[i]);
        } else {
            assert(ab[i] == b[i - a.len()]);
        }
    }
}

proof fn lemma_comps_named(
    comps: Seq<Component>,
    i: int,
    tables: Seq<Option<scan::CodeView>>,
    s: Seq<u8>,
    marker: bool,
    pos: int,
)
    requires
        scan::comps_walk(comps, i, tables, s, marker, pos) is Done,
    ensures
        named_by(walked(scan::comps_walk(comps, i, tables, s, marker, pos)), comps),
    decreases comps.len() - i,
{
    let ev = walked(scan::comps_walk(comps, i, tables, s, marker, pos));
    if 0 <= i < comps.len() {
        let c = comps[i];
        match tables[c.dc as int] {
            Some(dc) => match tables[c.ac as int] {
                Some(ac) => match scan::blocks_walk((c.h * c.v) as nat, dc, ac, c.dc, c.ac, s, marker, pos) {
                    Walk::Done(e1, p1) => {
                        lemma_blocks_slots((c.h * c.v) as nat, dc, ac, c.dc, c.ac, s, marker, pos);
                        lemma_comps_named(comps, i + 1, tables, s, marker, p1);
                        let rest = walked(scan::comps_walk(comps, i + 1, tables, s, marker, p1));
                        assert(ev == e1 + rest);
                        assert forall|k: int| 0 <= k < e1.len() implies names_slot(comps, (#[trigger] e1[k]).0) by {
                            assert(comps[i] == c);
                        }
                        lemma_named_join(e1, rest, comps);
                    },
                    Walk::Fail(_) => {},
                },
                None => {},
            },
            None => {},
        }
    } else {
        assert(ev =~= Seq::<Event>::empty());
    }
}

proof fn lemma_mcus_named(
    n: nat,
    comps: Seq<Component>,
    tables: Seq<Option<scan::CodeView>>,
    s: Seq<u8>,
    marker: bool,
    pos: int,
)
    requires
        scan::mcus_walk(n, comps, tables, s, marker, pos) is Done,
    ensures
        named_by(walked(scan::mcus_walk(n, comps, tables, s, marker, pos)), comps),
    decreases n,
{
    if n > 0 {
        match scan::comps_walk(comps, 0, tables, s, marker, pos) {
            Walk::Done(e1, p1) => {
                lemma_comps_named(comps, 0, tables, s, marker, pos);
                lemma_mcus_named((n - 1) as nat, comps, tables, s, marker, p1);
                lemma_named_join(e1, walked(scan::mcus_walk((n - 1) as nat, comps, tables, s, marker, p1)), comps);
            },
            Walk::Fail(_) => {},
        }
    } else {
        assert(walked(scan::mcus_walk(n, comps, tables, s, marker, pos)) =~= Seq::<Event>::empty());
    }
}

/// The events of a walk over rows of MCUs name the components' slots only.
pub proof fn lemma_rows_named(
    rows: nat,
    across: nat,
    comps: Seq<Component>,
    tables: Seq<Option<scan::CodeView>>,
    s: Seq<u8>,
    marker: bool,
    pos: int,
)
    requires
        scan::rows_walk(rows, across, comps, tables, s, marker, pos) is Done,
    ensures
        named_by(walked(scan::rows_walk(rows, across, comps, tables, s, marker, pos)), comps),
    decreases rows,
{
    if rows > 0 {
        match scan::mcus_walk(across, comps, tables, s, marker, pos) {
            Walk::Done(e1, p1) => {
                lemma_mcus_named(across, comps, tables, s, marker, pos);
                lemma_rows_named((rows - 1) as nat, across, comps, tables, s, marker, p1);
                lemma_named_join(
                    e1,
                    walked(scan::rows_walk((rows - 1) as nat, across, comps, tables, s, marker, p1)),
                    comps,
                );
            },
            Walk::Fail(_) => {},
        }
    } else {
        assert(walked(scan::rows_walk(rows, across, comps, tables, s, marker, pos)) =~= Seq::<Event>::empty());
    }
}

/// A counter above zero counts some event.
pub proof fn lemma_histogram_found(events: Seq<Event>, key: int)
    requires
        scan::histogram(events, key) > 0,
    ensures
        exists|i: int| 0 <= i < events.len() && #[trigger] events[i].0 * 257 + events[i].1 == key,
    decreases events.len(),
{
    let last = events.len() - 1;
    if events.last().0 * 257 + events.last().1 == key {
        assert(events[last].0 * 257 + events[last].1 == key);
    } else {
        lemma_histogram_found(events.drop_last(), key);
        let i = choose|i: int| 0 <= i < events.drop_last().len() && #[trigger] events.drop_last()[i].0 * 257
            + events.drop_last()[i].1 == key;
        assert(events[i] == events.drop_last()[i]);
    }
}

/// The scan of a rehuffed file: what follows the kept segments, the new tables and the
/// scan header.
pub open spec fn scan_part(out: Seq<u8>, before: Seq<u8>, comps: Seq<Component>, sos: Seq<u8>, fresh: Seq<Option<Table>>) -> Seq<u8> {
    out.skip(
        (before + segments::tables_out(segments::slot_order(comps), 2 * comps.len() as int, scan::codes_view(fresh))
            + sos).len() as int,
    )
}

/// Rehuffing keeps the picture: when a page is rehuffed, the scan of the file that
/// comes back, read with the new tables it carries, gives the same symbols and raw
/// bits, in the same order, as the scan of the page read with the page's own tables,
/// and it ends where the end of image marker stands.
pub proof fn lemma_rehuffed_scan_reads_the_same(
    jpeg: Seq<u8>,
    g: Gathered,
    at: int,
    len: int,
    events: Seq<Event>,
    end: int,
    out: Seq<u8>,
    fresh: Seq<Option<Table>>,
)
    requires
        recode::segments_from(jpeg, 2, recode::nothing_gathered()) == Ok::<(Gathered, int, int), Seq<char>>(
            (g, at, len),
        ),
        scan::rows_walk(
            g.frame.unwrap().2 as nat,
            g.frame.unwrap().1 as nat,
            g.frame.unwrap().0,
            g.tables,
            bits::destuff_from(jpeg.subrange(at + 2 + len, jpeg.len() as int), 0),
            bits::ends_at_marker(jpeg.subrange(at + 2 + len, jpeg.len() as int), 0),
            0,
        ) == Walk::Done(events, end),
        recode::written_with(
            out,
            recode::copied_before(g),
            g.frame.unwrap().0,
            jpeg.subrange(at, at + 2 + len),
            events,
            fresh,
        ),
    ensures
        ({
            let comps = g.frame.unwrap().0;
            let scan = scan_part(out, recode::copied_before(g), comps, jpeg.subrange(at, at + 2 + len), fresh);
            &&& bits::ends_at_marker(scan, 0)
            &&& scan::rows_walk(
                g.frame.unwrap().2 as nat,
                g.frame.unwrap().1 as nat,
                comps,
                scan::codes_view(fresh),
                bits::destuff_from(scan, 0),
                true,
                0,
            ) == Walk::Done(events, scan::encode(events, fresh).len() as int)
        }),
{
    let f = g.frame.unwrap();
    let comps = f.0;
    let sos = jpeg.subrange(at, at + 2 + len);
    let before = recode::copied_before(g);
    let old_scan = jpeg.subrange(at + 2 + len, jpeg.len() as int);
    lemma_segments_sound(jpeg, 2, recode::nothing_gathered());
    assert(comps_sound(comps));
    lemma_rows_slots(
        f.2 as nat,
        f.1 as nat,
        comps,
        g.tables,
        bits::destuff_from(old_scan, 0),
        bits::ends_at_marker(old_scan, 0),
        0,
    );
    lemma_fresh_covers(events, fresh);
    let bits_out = scan::encode(events, fresh);
    let head = before + segments::tables_out(segments::slot_order(comps), 2 * comps.len() as int, scan::codes_view(fresh))
        + sos;
    let tail = bits::stuff(bits::pack(recode::padded(bits_out))) + seq![0xFFu8, 0xD9u8];
    assert(out == head + tail);
    let scan = scan_part(out, before, comps, sos, fresh);
    assert(scan =~= tail);
    lemma_scan_reads_back(bits_out);
    let bytes = bits::pack(recode::padded(bits_out));
    lemma_rows_replay(
        f.2 as nat,
        f.1 as nat,
        comps,
        g.tables,
        bits::destuff_from(old_scan, 0),
        bits::ends_at_marker(old_scan, 0),
        0,
        fresh,
        bytes,
        true,
        0,
    );
}

} // verus!
