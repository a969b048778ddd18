//! A Huffman table in the two shapes the recoder needs: the way a DHT segment
//! stores it (how many codes of each length, then the symbols in code order), and
//! a lookup from each symbol to its code word.
//!
//! The code words are the canonical ones of the JPEG standard (Annex C): the codes
//! of one length are consecutive numbers, and the first code of the next length is
//! the code after the last one of this length, doubled.

use vstd::prelude::*;
use vstd::arithmetic::power2::*;

verus! {

/// The longest Huffman code JPEG can express, in bits.
pub const MOST_CODE_BITS: usize = 16;

/// How many codes of length `len` (1 to 16) a DHT segment's counts hold.
pub open spec fn count_at(counts: Seq<u8>, len: int) -> int {
    counts[len - 1] as int
}

/// The first code word of length `len`: the code after the last one of the length
/// before, doubled.
pub open spec fn first_code(counts: Seq<u8>, len: int) -> int
    decreases len,
{
    if len <= 1 {
        0
    } else {
        2 * (first_code(counts, len - 1) + count_at(counts, len - 1))
    }
}

/// How many symbols come before the first one of length `len`.
pub open spec fn first_index(counts: Seq<u8>, len: int) -> int
    decreases len,
{
    if len <= 1 {
        0
    } else {
        first_index(counts, len - 1) + count_at(counts, len - 1)
    }
}

/// How many symbols the counts announce altogether.
pub open spec fn total_codes(counts: Seq<u8>) -> int {
    first_index(counts, 17)
}

/// Whether every code word the counts ask for is a number of at most 16 bits.
pub open spec fn codes_fit(counts: Seq<u8>) -> bool {
    forall|len: int|
        1 <= len <= 16 && count_at(counts, len) > 0 ==> #[trigger] first_code(counts, len)
            + count_at(counts, len) <= 0x10000
}

/// The length of the code given to the symbol at position `k`, searching from
/// length `len` upward.
pub open spec fn length_from(counts: Seq<u8>, k: int, len: int) -> int
    decreases 16 - len,
{
    if len >= 16 || k < first_index(counts, len + 1) {
        len
    } else {
        length_from(counts, k, len + 1)
    }
}

/// The length of the code given to the symbol at position `k`.
pub open spec fn code_length(counts: Seq<u8>, k: int) -> int {
    length_from(counts, k, 1)
}

/// The canonical code word given to the symbol at position `k`.
pub open spec fn code_word(counts: Seq<u8>, k: int) -> int {
    let len = code_length(counts, k);
    first_code(counts, len) + k - first_index(counts, len)
}

/// The last position below `n` that holds `symbol`, or -1.
pub open spec fn last_below(symbols: Seq<u8>, symbol: u8, n: int) -> int
    decreases n,
{
    if n <= 0 {
        -1
    } else if symbols[n - 1] == symbol {
        n - 1
    } else {
        last_below(symbols, symbol, n - 1)
    }
}

/// The code word and length the lookup holds for `symbol` once the first `n`
/// symbols are placed: the code of its last position, or a length of 0 when it
/// does not occur.
pub open spec fn code_of(counts: Seq<u8>, symbols: Seq<u8>, symbol: u8, n: int) -> (u16, u8) {
    let k = last_below(symbols, symbol, n);
    if k < 0 {
        (0u16, 0u8)
    } else {
        (code_word(counts, k) as u16, code_length(counts, k) as u8)
    }
}

/// The largest code word of length `len`, or -1 when there is none.
pub open spec fn max_code_at(counts: Seq<u8>, len: int) -> int {
    if count_at(counts, len) == 0 {
        -1
    } else {
        first_code(counts, len) + count_at(counts, len) - 1
    }
}

/// A bound on every first code any counts can produce, whether the codes fit or not.
pub open spec fn code_cap(len: int) -> int
    decreases len,
{
    if len <= 1 {
        0
    } else {
        2 * code_cap(len - 1) + 510
    }
}

pub proof fn lemma_first_code_capped(counts: Seq<u8>, len: int)
    requires
        counts.len() == 16,
        1 <= len <= 17,
    ensures
        0 <= first_code(counts, len) <= code_cap(len),
        0 <= first_index(counts, len) <= 255 * (len - 1),
    decreases len,
{
    if len > 1 {
        lemma_first_code_capped(counts, len - 1);
    }
}

pub proof fn lemma_code_cap_grows(a: int, b: int)
    requires
        1 <= a <= b,
    ensures
        0 <= code_cap(a) <= code_cap(b),
    decreases b - a,
{
    if a < b {
        lemma_code_cap_grows(a, b - 1);
    } else {
        lemma_code_cap_nonnegative(a);
    }
}

pub proof fn lemma_code_cap_nonnegative(n: int)
    ensures
        0 <= code_cap(n),
    decreases n,
{
    if n > 1 {
        lemma_code_cap_nonnegative(n - 1);
    }
}

pub proof fn lemma_code_cap_17()
    ensures
        code_cap(17) == 33422850,
{
    assert(code_cap(1) == 0);
    assert(code_cap(2) == 510);
    assert(code_cap(3) == 1530);
    assert(code_cap(4) == 3570);
    assert(code_cap(5) == 7650);
    assert(code_cap(6) == 15810);
    assert(code_cap(7) == 32130);
    assert(code_cap(8) == 64770);
    assert(code_cap(9) == 130050);
    assert(code_cap(10) == 260610);
    assert(code_cap(11) == 521730);
    assert(code_cap(12) == 1043970);
    assert(code_cap(13) == 2088450);
    assert(code_cap(14) == 4177410);
    assert(code_cap(15) == 8355330);
    assert(code_cap(16) == 16711170);
}

pub proof fn lemma_first_index_grows(counts: Seq<u8>, a: int, b: int)
    requires
        counts.len() == 16,
        1 <= a <= b <= 17,
    ensures
        first_index(counts, a) <= first_index(counts, b),
    decreases b - a,
{
    if a < b {
        lemma_first_index_grows(counts, a, b - 1);
    }
}

/// A position that lies among the symbols of length `len` gets a code of that length.
pub proof fn lemma_code_length(counts: Seq<u8>, k: int, len: int)
    requires
        counts.len() == 16,
        1 <= len <= 16,
        first_index(counts, len) <= k < first_index(counts, len + 1),
    ensures
        code_length(counts, k) == len,
{
    lemma_length_from(counts, k, len, 1);
}

proof fn lemma_length_from(counts: Seq<u8>, k: int, len: int, from: int)
    requires
        counts.len() == 16,
        1 <= from <= len <= 16,
        first_index(counts, len) <= k < first_index(counts, len + 1),
    ensures
        length_from(counts, k, from) == len,
    decreases len - from,
{
    if from < len {
        lemma_first_index_grows(counts, from + 1, len);
        lemma_length_from(counts, k, len, from + 1);
    }
}

/// A Huffman table as a DHT segment carries it, with the lookups built from it.
pub struct Table {
    /// How many codes of each length 1 to 16.
    pub counts: Vec<u8>,
    /// The symbols in code order.
    pub symbols: Vec<u8>,
    /// Code word and length for each of the 256 symbols; a length of 0 means the
    /// symbol is not in this table.
    pub codes: Vec<(u16, u8)>,
    /// Figure F.15 of the standard: the smallest and the largest code of each
    /// length, and where that length's symbols start. Entry 0 is never used.
    pub min_code: Vec<i32>,
    pub max_code: Vec<i32>,
    pub val_ptr: Vec<usize>,
}

impl Table {
    /// Every lookup agrees with the canonical code the counts and symbols describe.
    pub open spec fn wf(&self) -> bool {
        let c = self.counts@;
        &&& c.len() == 16
        &&& self.codes@.len() == 256
        &&& self.min_code@.len() == 17
        &&& self.max_code@.len() == 17
        &&& self.val_ptr@.len() == 17
        &&& total_codes(c) == self.symbols@.len()
        &&& codes_fit(c)
        &&& forall|len: int| 1 <= len <= 16 ==> #[trigger] self.min_code@[len] as int == first_code(c, len)
        &&& forall|len: int| 1 <= len <= 16 ==> #[trigger] self.max_code@[len] as int == max_code_at(c, len)
        &&& forall|len: int| 1 <= len <= 16 ==> #[trigger] self.val_ptr@[len] as int == first_index(c, len)
        &&& forall|s: u8| #[trigger]
            self.codes@[s as int] == code_of(c, self.symbols@, s, self.symbols@.len() as int)
    }

    /// Builds the coding lookups from the two things a DHT segment holds.
    ///
    /// Fails, with a sentence, when the counts announce another number of symbols
    /// than follow them, or ask for a code word longer than its 16 bits.
    pub fn new(counts: Vec<u8>, symbols: Vec<u8>) -> (res: Result<Table, String>)
        requires
            counts@.len() == 16,
        ensures
            res is Ok <==> total_codes(counts@) == symbols@.len() && super::kraft::proper_code(counts@),
            res matches Ok(t) ==> t.wf() && t.counts@ == counts@ && t.symbols@ == symbols@,
            res matches Err(e) ==> e@ == (if total_codes(counts@) != symbols@.len() {
                crate::text::symbol_count_sentence(total_codes(counts@) as nat, symbols@.len())
            } else {
                crate::text::too_many_codes_sentence()
            }),
    {
        let mut total: usize = 0;
        let mut i: usize = 0;
        while i < 16
            invariant
                counts@.len() == 16,
                0 <= i <= 16,
                total == first_index(counts@, (i + 1) as int),
                total <= 255 * i,
            decreases 16 - i,
        {
            total = total + counts[i] as usize;
            i = i + 1;
        }
        if total != symbols.len() {
            return Err(crate::text::sentence_symbol_count(total, symbols.len()));
        }
        let mut codes: Vec<(u16, u8)> = Vec::new();
        while codes.len() < 256
            invariant
                codes@.len() <= 256,
                forall|j: int| 0 <= j < codes@.len() ==> codes@[j] == (0u16, 0u8),
            decreases 256 - codes@.len(),
        {
            codes.push((0u16, 0u8));
        }
        let mut min_code: Vec<i32> = Vec::new();
        let mut max_code: Vec<i32> = Vec::new();
        let mut val_ptr: Vec<usize> = Vec::new();
        min_code.push(0);
        max_code.push(-1);
        val_ptr.push(0);
        let ghost c = counts@;
        let ghost syms = symbols@;
        proof {
            lemma_code_cap_17();
            assert forall|s: u8| #[trigger] codes@[s as int] == code_of(c, syms, s, 0) by {}
        }
        let mut code: u32 = 0;
        let mut next: usize = 0;
        let mut len: usize = 1;
        let mut room: u32 = 2;
        proof {
            lemma2_to64();
        }
        while len <= MOST_CODE_BITS
            invariant
                room as int == pow2(len as nat),
                len <= 16 ==> room <= 0x10000,
                forall|l: int| 1 <= l < len ==> #[trigger] first_code(c, l) + count_at(c, l) <= pow2(l as nat),
                c == counts@,
                syms == symbols@,
                c.len() == 16,
                total_codes(c) == syms.len(),
                total == syms.len(),
                code_cap(17) == 33422850,
                1 <= len <= 17,
                next == first_index(c, len as int),
                code == first_code(c, len as int),
                codes@.len() == 256,
                min_code@.len() == len,
                max_code@.len() == len,
                val_ptr@.len() == len,
                forall|l: int| 1 <= l < len ==> #[trigger] min_code@[l] as int == first_code(c, l),
                forall|l: int| 1 <= l < len ==> #[trigger] max_code@[l] as int == max_code_at(c, l),
                forall|l: int| 1 <= l < len ==> #[trigger] val_ptr@[l] as int == first_index(c, l),
                forall|l: int|
                    1 <= l < len && count_at(c, l) > 0 ==> #[trigger] first_code(c, l) + count_at(
                        c,
                        l,
                    ) <= 0x10000,
                forall|s: u8| #[trigger] codes@[s as int] == code_of(c, syms, s, next as int),
            decreases 17 - len,
        {
            proof {
                lemma_first_code_capped(c, len as int);
                lemma_first_code_capped(c, len as int + 1);
                lemma_code_cap_grows(len as int, 17);
                lemma_first_index_grows(c, len as int + 1, 17);
            }
            let count = counts[len - 1];
            let start_next = next;
            let start_code = code;
            let mut placed: u8 = 0;
            while placed < count
                invariant
                    c == counts@,
                    syms == symbols@,
                    c.len() == 16,
                    total_codes(c) == syms.len(),
                    total == syms.len(),
                total == syms.len(),
                    1 <= len <= 16,
                    count == c[len - 1],
                    placed <= count,
                    first_index(c, len as int + 1) <= total_codes(c),
                    first_index(c, len as int + 1) == first_index(c, len as int) + count,
                    first_code(c, len as int + 1) == 2 * (first_code(c, len as int) + count),
                    first_code(c, len as int) <= 33422850,
                    next == first_index(c, len as int) + placed,
                    code == first_code(c, len as int) + placed,
                    codes@.len() == 256,
                    forall|s: u8| #[trigger] codes@[s as int] == code_of(c, syms, s, next as int),
                    placed > 0 ==> code <= 0x10000,
                    start_next == first_index(c, len as int),
                    start_code == first_code(c, len as int),
                    min_code@.len() == len,
                    max_code@.len() == len,
                    val_ptr@.len() == len,
                    forall|l: int| 1 <= l < len ==> #[trigger] min_code@[l] as int == first_code(c, l),
                    forall|l: int| 1 <= l < len ==> #[trigger] max_code@[l] as int == max_code_at(c, l),
                    forall|l: int| 1 <= l < len ==> #[trigger] val_ptr@[l] as int == first_index(c, l),
                    forall|l: int|
                        1 <= l < len && count_at(c, l) > 0 ==> #[trigger] first_code(c, l)
                            + count_at(c, l) <= 0x10000,
                    room as int == pow2(len as nat),
                    room <= 0x10000,
                decreases count - placed,
            {
                if code > 0xFFFF {
                    proof {
                        assert(!(first_code(c, len as int) + count_at(c, len as int) <= 0x10000));
                        assert(!(first_code(c, len as int) + count_at(c, len as int) <= pow2(len as nat)));
                        assert(!super::kraft::proper_code(c));
                    }
                    return Err(crate::text::sentence_too_many_codes());
                }
                let symbol = symbols[next];
                proof {
                    lemma_code_length(c, next as int, len as int);
                }
                codes.set(symbol as usize, (code as u16, len as u8));
                proof {
                    assert forall|s: u8| #[trigger]
                        codes@[s as int] == code_of(c, syms, s, next + 1) by {
                        if s == symbol {
                            assert(last_below(syms, s, next + 1) == next);
                        } else {
                            assert(last_below(syms, s, next + 1) == last_below(syms, s, next as int));
                        }
                    }
                }
                code = code + 1;
                next = next + 1;
                placed = placed + 1;
            }
            if code > room {
                proof {
                    assert(!(first_code(c, len as int) + count_at(c, len as int) <= pow2(len as nat)));
                    assert(!super::kraft::proper_code(c));
                }
                return Err(crate::text::sentence_too_many_codes());
            }
            val_ptr.push(start_next);
            min_code.push(start_code as i32);
            if count == 0 {
                max_code.push(-1);
            } else {
                max_code.push(code as i32 - 1);
            }
            code = code * 2;
            proof {
                lemma_pow2_unfold((len + 1) as nat);
                lemma2_to64();
                if len + 1 < 16 {
                    lemma_pow2_strictly_increases((len + 1) as nat, 16);
                }
            }
            room = room * 2;
            len = len + 1;
        }
        let table = Table { counts, symbols, codes, min_code, max_code, val_ptr };
        Ok(table)
    }
}

} // verus!
