//! Bits in and out of an entropy coded scan.
//!
//! A scan is a stream of bits packed most significant first into bytes, with one
//! rule on top: every 0xFF byte is followed by a stuffed 0x00, so that no code word
//! can look like a marker. The reader takes the stuffing back out, the writer puts
//! it in.

use vstd::prelude::*;
use vstd::arithmetic::power2::*;
use super::table::{self, Table};

verus! {

/// The bytes of a scan from offset `at` on, with the stuffed zeros taken out, up to
/// the end of the data or the first 0xFF that is not followed by a zero.
pub open spec fn destuff_from(data: Seq<u8>, at: int) -> Seq<u8>
    decreases data.len() - at,
{
    if at < 0 || at >= data.len() {
        seq![]
    } else if data[at] != 0xFF {
        seq![data[at]] + destuff_from(data, at + 1)
    } else if at + 1 < data.len() && data[at + 1] == 0 {
        seq![0xFFu8] + destuff_from(data, at + 2)
    } else {
        seq![]
    }
}

pub proof fn lemma_destuff_len(data: Seq<u8>, at: int)
    requires
        0 <= at,
    ensures
        destuff_from(data, at).len() <= (if at <= data.len() { data.len() - at } else { 0 }),
    decreases data.len() - at,
{
    if at < data.len() {
        if data[at] != 0xFF {
            lemma_destuff_len(data, at + 1);
        } else if at + 1 < data.len() && data[at + 1] == 0 {
            lemma_destuff_len(data, at + 2);
        }
    }
}

/// Whether the stuffed bytes from `at` on stop at a marker rather than at the end
/// of the data.
pub open spec fn ends_at_marker(data: Seq<u8>, at: int) -> bool
    decreases data.len() - at,
{
    if at < 0 || at >= data.len() {
        false
    } else if data[at] != 0xFF {
        ends_at_marker(data, at + 1)
    } else if at + 1 < data.len() && data[at + 1] == 0 {
        ends_at_marker(data, at + 2)
    } else {
        true
    }
}

/// Bit `p` of a byte stream, most significant bit of each byte first.
pub open spec fn bit_at(s: Seq<u8>, p: int) -> bool {
    ((s[p / 8] >> ((7 - p % 8) as u8)) & 1u8) == 1u8
}

/// The `n` bits of the stream from bit `from` on, as one number.
pub open spec fn bits_value(s: Seq<u8>, from: int, n: nat) -> nat
    decreases n,
{
    if n == 0 {
        0
    } else {
        2 * bits_value(s, from, (n - 1) as nat) + (if bit_at(s, from + n - 1) {
            1nat
        } else {
            0nat
        })
    }
}

pub proof fn lemma_bits_value_bound(s: Seq<u8>, from: int, n: nat)
    ensures
        bits_value(s, from, n) < pow2(n),
    decreases n,
{
    if n > 0 {
        lemma_bits_value_bound(s, from, (n - 1) as nat);
        lemma_pow2_unfold(n);
    } else {
        lemma2_to64();
    }
}

/// The sentence a reader stops with when the stream has no more bits for it.
pub open spec fn stop_sentence(at_marker: bool) -> Seq<char> {
    if at_marker {
        "A marker appears inside the scan."@
    } else {
        "The scan ends in the middle of a block."@
    }
}

/// What reading one Huffman symbol from bit `pos` on gives.
pub enum Decoded {
    /// The symbol, and how many bits its code took.
    Found(u8, nat),
    /// The bits run out before a code is complete.
    Short,
    /// No code of at most 16 bits matches.
    TooLong,
}

/// Reading one symbol by Figure F.16 of the standard: one more bit at a time, until
/// the bits read so far are one of the codes of that length.
pub open spec fn decode(counts: Seq<u8>, symbols: Seq<u8>, s: Seq<u8>, pos: int) -> Decoded {
    if pos >= 8 * s.len() {
        Decoded::Short
    } else {
        decode_len(counts, symbols, s, pos, 1)
    }
}

pub open spec fn decode_len(counts: Seq<u8>, symbols: Seq<u8>, s: Seq<u8>, pos: int, len: int) -> Decoded
    decreases 17 - len,
{
    if len < 1 || len > 16 {
        Decoded::TooLong
    } else {
        let code = bits_value(s, pos, len as nat) as int;
        if table::count_at(counts, len) > 0 && table::first_code(counts, len) <= code < table::first_code(counts, len)
            + table::count_at(counts, len) {
            Decoded::Found(
                symbols[table::first_index(counts, len) + code - table::first_code(counts, len)],
                len as nat,
            )
        } else if pos + len >= 8 * s.len() {
            Decoded::Short
        } else if len == 16 {
            Decoded::TooLong
        } else {
            decode_len(counts, symbols, s, pos, len + 1)
        }
    }
}

pub proof fn lemma_decode_uses_bits(counts: Seq<u8>, symbols: Seq<u8>, s: Seq<u8>, pos: int, len: int)
    requires
        1 <= len,
        pos + len <= 8 * s.len(),
    ensures
        decode_len(counts, symbols, s, pos, len) matches Decoded::Found(_, used) ==> used >= len
            && pos + used <= 8 * s.len(),
    decreases 17 - len,
{
    if 1 <= len <= 16 {
        let code = bits_value(s, pos, len as nat) as int;
        if !(table::count_at(counts, len) > 0 && table::first_code(counts, len) <= code
            < table::first_code(counts, len) + table::count_at(counts, len)) && pos + len < 8 * s.len() && len < 16 {
            lemma_decode_uses_bits(counts, symbols, s, pos, len + 1);
        }
    }
}

pub open spec fn too_long_sentence() -> Seq<char> {
    "A Huffman code in the scan is longer than 16 bits."@
}

proof fn lemma_read_bit(b: u8, h: u8)
    requires
        h < 8,
    ensures
        ((b as u32 >> h) & 1) == (if ((b >> h) & 1u8) == 1u8 {
            1u32
        } else {
            0u32
        }),
{
    assert(((b as u32 >> h) & 1) == (if ((b >> h) & 1u8) == 1u8 {
        1u32
    } else {
        0u32
    })) by (bit_vector)
        requires
            h < 8,
    ;
}

/// Reads single bits out of an entropy coded scan, stepping over the zero byte
/// JPEG stuffs after every 0xFF.
pub struct BitReader<'a> {
    pub data: &'a [u8],
    pub at: usize,
    pub byte: u32,
    pub held: u8,
    /// The unstuffed bytes read so far.
    pub taken: Ghost<Seq<u8>>,
}

impl<'a> BitReader<'a> {
    /// Every bit this scan holds, unstuffed.
    pub open spec fn stream(&self) -> Seq<u8> {
        destuff_from(self.data@, 0)
    }

    /// How many bits have been read.
    pub open spec fn pos(&self) -> int {
        8 * self.taken@.len() - self.held
    }

    pub open spec fn inv(&self) -> bool {
        &&& self.at <= self.data@.len()
        &&& self.held <= 8
        &&& destuff_from(self.data@, 0) == self.taken@ + destuff_from(self.data@, self.at as int)
        &&& ends_at_marker(self.data@, 0) == ends_at_marker(self.data@, self.at as int)
        &&& self.held > 0 ==> self.taken@.len() > 0 && self.byte == self.taken@.last() as u32
    }

    pub fn new(data: &'a [u8]) -> (r: Self)
        ensures
            r.inv(),
            r.pos() == 0,
            r.data@ == data@,
    {
        BitReader { data, at: 0, byte: 0, held: 0, taken: Ghost(Seq::empty()) }
    }

    /// The next bit, most significant first, or the sentence saying the scan
    /// stopped short or holds a marker where coded bits should be.
    pub fn bit(&mut self) -> (res: Result<u32, String>)
        requires
            old(self).inv(),
        ensures
            final(self).data@ == old(self).data@,
            old(self).pos() < 8 * old(self).stream().len() ==> {
                &&& res == Ok::<u32, String>(
                    if bit_at(old(self).stream(), old(self).pos()) {
                        1u32
                    } else {
                        0u32
                    },
                )
                &&& final(self).inv()
                &&& final(self).pos() == old(self).pos() + 1
            },
            old(self).pos() >= 8 * old(self).stream().len() ==> (res matches Err(e) && e@
                == stop_sentence(ends_at_marker(old(self).data@, 0))),
    {
        let ghost d = self.data@;
        let ghost t0 = self.taken@;
        if self.held == 0 {
            if self.at >= self.data.len() {
                return Err(String::from_str("The scan ends in the middle of a block."));
            }
            let byte = self.data[self.at];
            self.at = self.at + 1;
            if byte == 0xFF {
                if self.at < self.data.len() && self.data[self.at] == 0x00 {
                    self.at = self.at + 1;
                } else {
                    return Err(String::from_str("A marker appears inside the scan."));
                }
            }
            self.byte = byte as u32;
            self.held = 8;
            self.taken = Ghost(t0.push(byte));
            proof {
                assert(t0.push(byte) + destuff_from(d, self.at as int) =~= t0 + (seq![byte]
                    + destuff_from(d, self.at as int)));
            }
        }
        self.held = self.held - 1;
        proof {
            let t = self.taken@;
            let p = 8 * t0.len() - old(self).held;
            assert(p / 8 == t.len() - 1 && p % 8 == 7 - self.held);
            assert(self.stream() == t + destuff_from(d, self.at as int));
            assert(self.stream()[t.len() - 1] == t.last());
            lemma_read_bit(t.last(), self.held);
        }
        Ok((self.byte >> self.held) & 1)
    }

    /// The next `count` bits as one number.
    pub fn bits(&mut self, count: u8) -> (res: Result<u32, String>)
        requires
            old(self).inv(),
            count <= 16,
        ensures
            final(self).data@ == old(self).data@,
            old(self).pos() + count <= 8 * old(self).stream().len() ==> {
                &&& res == Ok::<u32, String>(
                    bits_value(old(self).stream(), old(self).pos(), count as nat) as u32,
                )
                &&& final(self).inv()
                &&& final(self).pos() == old(self).pos() + count
            },
            old(self).pos() + count > 8 * old(self).stream().len() ==> (res matches Err(e) && e@
                == stop_sentence(ends_at_marker(old(self).data@, 0))),
    {
        let ghost start = self.pos();
        let ghost s = self.stream();
        let mut out: u32 = 0;
        let mut i: u8 = 0;
        while i < count
            invariant
                self.inv(),
                self.data@ == old(self).data@,
                s == self.stream(),
                0 <= i <= count <= 16,
                self.pos() == start + i,
                start == old(self).pos(),
                out == bits_value(s, start, i as nat),
            decreases count - i,
        {
            proof {
                lemma_bits_value_bound(s, start, i as nat);
                lemma_pow2_strictly_increases(i as nat, 16);
                lemma2_to64();
            }
            let b = self.bit()?;
            out = out * 2 + b;
            i = i + 1;
        }
        Ok(out)
    }

    /// The next Huffman symbol, read one bit at a time as Figure F.16 describes.
    pub fn symbol(&mut self, table: &Table) -> (res: Result<u8, String>)
        requires
            old(self).inv(),
            table.wf(),
        ensures
            final(self).data@ == old(self).data@,
            match decode(table.counts@, table.symbols@, old(self).stream(), old(self).pos()) {
                Decoded::Found(symbol, used) => {
                    &&& res == Ok::<u8, String>(symbol)
                    &&& final(self).inv()
                    &&& final(self).pos() == old(self).pos() + used
                },
                Decoded::Short => res matches Err(e) && e@ == stop_sentence(
                    ends_at_marker(old(self).data@, 0),
                ),
                Decoded::TooLong => res matches Err(e) && e@ == too_long_sentence(),
            },
    {
        let ghost start = self.pos();
        let ghost s = self.stream();
        let ghost c = table.counts@;
        let first = self.bit()?;
        let mut code: i32 = first as i32;
        let mut len: usize = 1;
        proof {
            reveal_with_fuel(bits_value, 2);
        }
        while len <= 16
            invariant
                self.inv(),
                table.wf(),
                c == table.counts@,
                self.data@ == old(self).data@,
                s == self.stream(),
                start == old(self).pos(),
                1 <= len <= 17,
                len <= 16 ==> self.pos() == start + len,
                len <= 16 ==> code == bits_value(s, start, len as nat),
                len <= 16 ==> start + len <= 8 * s.len(),
                decode(c, table.symbols@, s, start) == decode_len(c, table.symbols@, s, start, len as int),
            decreases 17 - len,
        {
            proof {
                lemma_bits_value_bound(s, start, len as nat);
                lemma_pow2_strictly_increases(len as nat, 17);
                lemma2_to64();
            }
            if table.max_code[len] >= code && code >= table.min_code[len] {
                let n_symbols = table.symbols.len();
                proof {
                    super::table::lemma_first_index_grows(c, len as int + 1, 17);
                    assert(table.min_code@[len as int] as int == table::first_code(c, len as int));
                    assert(table.max_code@[len as int] as int == super::table::max_code_at(c, len as int));
                    assert(table.val_ptr@[len as int] as int == table::first_index(c, len as int));
                    assert(table::first_index(c, len as int + 1) == table::first_index(c, len as int) + table::count_at(c, len as int));
                }
                let index = table.val_ptr[len] + (code - table.min_code[len]) as usize;
                if index < table.symbols.len() {
                    return Ok(table.symbols[index]);
                } else {
                    return Err(String::from_str("A Huffman code points past the end of its table."));
                }
            }
            let b = self.bit()?;
            code = code * 2 + b as i32;
            len = len + 1;
        }
        Err(String::from_str("A Huffman code in the scan is longer than 16 bits."))
    }
}

/// The low `len` bits of `code`, most significant first.
pub open spec fn low_bits(code: u32, len: nat) -> Seq<bool> {
    Seq::new(len, |j: int| ((code >> ((len - 1 - j) as u32)) & 1) == 1)
}

/// Eight bits as one byte, the first of them most significant.
pub open spec fn byte_of(b: Seq<bool>, at: int) -> u8 {
    ((if b[at] { 128int } else { 0 }) + (if b[at + 1] { 64int } else { 0 }) + (if b[at + 2] {
        32int
    } else {
        0
    }) + (if b[at + 3] { 16int } else { 0 }) + (if b[at + 4] { 8int } else { 0 }) + (if b[at + 5] {
        4int
    } else {
        0
    }) + (if b[at + 6] { 2int } else { 0 }) + (if b[at + 7] { 1int } else { 0 })) as u8
}

/// Whole bytes out of a bit sequence whose length is a multiple of eight.
pub open spec fn pack(b: Seq<bool>) -> Seq<u8>
    decreases b.len(),
{
    if b.len() < 8 {
        seq![]
    } else {
        pack(b.take(b.len() - 8)).push(byte_of(b, b.len() - 8))
    }
}

/// One byte as it goes into a scan: a 0xFF is followed by a stuffed zero.
pub open spec fn stuff_one(b: u8) -> Seq<u8> {
    if b == 0xFF {
        seq![0xFFu8, 0u8]
    } else {
        seq![b]
    }
}

/// Bytes as they go into a scan.
pub open spec fn stuff(bytes: Seq<u8>) -> Seq<u8>
    decreases bytes.len(),
{
    if bytes.len() == 0 {
        seq![]
    } else {
        stuff(bytes.drop_last()) + stuff_one(bytes.last())
    }
}

/// Writes bits back out, stuffing a zero byte after every 0xFF.
pub struct BitWriter {
    pub out: Vec<u8>,
    pub held_bits: u32,
    pub held: u8,
    /// What the buffer held before the first bit.
    pub base: Ghost<Seq<u8>>,
    /// Every bit put so far.
    pub bits: Ghost<Seq<bool>>,
}

proof fn lemma_shift_in(old_bits: u32, code: u32, len: u32, i: u32)
    requires
        1 <= len <= 16,
        i < 32,
    ensures
        (((((old_bits << len) | (code & (((1u32 << len) - 1) as u32))) >> i) & 1) == 1) == (if i < len {
            ((code >> i) & 1) == 1
        } else {
            ((old_bits >> ((i - len) as u32)) & 1) == 1
        }),
{
    assert((((((old_bits << len) | (code & (((1u32 << len) - 1) as u32))) >> i) & 1) == 1) == (if i < len {
        ((code >> i) & 1) == 1
    } else {
        ((old_bits >> ((i - len) as u32)) & 1) == 1
    })) by (bit_vector)
        requires
            1 <= len <= 16,
            i < 32,
    ;
}

proof fn lemma_take_byte(x: u32, h: u32)
    requires
        h <= 24,
    ensures
        ((x >> h) & 0xFF) as u8 == ((if ((x >> (h + 7) as u32) & 1) == 1 { 128int } else { 0 }) + (
        if ((x >> (h + 6) as u32) & 1) == 1 { 64int } else { 0 }) + (if ((x >> (h + 5) as u32) & 1)
            == 1 {
            32int
        } else {
            0
        }) + (if ((x >> (h + 4) as u32) & 1) == 1 { 16int } else { 0 }) + (if ((x >> (h
            + 3) as u32) & 1) == 1 {
            8int
        } else {
            0
        }) + (if ((x >> (h + 2) as u32) & 1) == 1 { 4int } else { 0 }) + (if ((x >> (h
            + 1) as u32) & 1) == 1 {
            2int
        } else {
            0
        }) + (if ((x >> h) & 1) == 1 { 1int } else { 0 })) as u8,
{
    let b7 = ((x >> (h + 7) as u32) & 1) == 1;
    let b6 = ((x >> (h + 6) as u32) & 1) == 1;
    let b5 = ((x >> (h + 5) as u32) & 1) == 1;
    let b4 = ((x >> (h + 4) as u32) & 1) == 1;
    let b3 = ((x >> (h + 3) as u32) & 1) == 1;
    let b2 = ((x >> (h + 2) as u32) & 1) == 1;
    let b1 = ((x >> (h + 1) as u32) & 1) == 1;
    let b0 = ((x >> h) & 1) == 1;
    let y = ((x >> h) & 0xFF) as u8;
    assert(y == (if b7 { 128u8 } else { 0u8 }) | (if b6 { 64u8 } else { 0u8 }) | (if b5 {
        32u8
    } else {
        0u8
    }) | (if b4 { 16u8 } else { 0u8 }) | (if b3 { 8u8 } else { 0u8 }) | (if b2 { 4u8 } else {
        0u8
    }) | (if b1 { 2u8 } else { 0u8 }) | (if b0 { 1u8 } else { 0u8 })) by (bit_vector)
        requires
            h <= 24,
            y == ((x >> h) & 0xFF) as u8,
            b7 == (((x >> (h + 7) as u32) & 1) == 1),
            b6 == (((x >> (h + 6) as u32) & 1) == 1),
            b5 == (((x >> (h + 5) as u32) & 1) == 1),
            b4 == (((x >> (h + 4) as u32) & 1) == 1),
            b3 == (((x >> (h + 3) as u32) & 1) == 1),
            b2 == (((x >> (h + 2) as u32) & 1) == 1),
            b1 == (((x >> (h + 1) as u32) & 1) == 1),
            b0 == (((x >> h) & 1) == 1),
    ;
    assert(((if b7 { 128u8 } else { 0u8 }) | (if b6 { 64u8 } else { 0u8 }) | (if b5 {
        32u8
    } else {
        0u8
    }) | (if b4 { 16u8 } else { 0u8 }) | (if b3 { 8u8 } else { 0u8 }) | (if b2 { 4u8 } else {
        0u8
    }) | (if b1 { 2u8 } else { 0u8 }) | (if b0 { 1u8 } else { 0u8 })) as int == (if b7 {
        128int
    } else {
        0
    }) + (if b6 { 64int } else { 0 }) + (if b5 { 32int } else { 0 }) + (if b4 { 16int } else {
        0
    }) + (if b3 { 8int } else { 0 }) + (if b2 { 4int } else { 0 }) + (if b1 { 2int } else { 0 })
        + (if b0 { 1int } else { 0 })) by (bit_vector);
}

impl BitWriter {
    pub open spec fn inv(&self) -> bool {
        let b = self.bits@;
        &&& self.held < 8
        &&& b.len() >= self.held
        &&& (b.len() - self.held) % 8 == 0
        &&& self.out@ == self.base@ + stuff(pack(b.take(b.len() - self.held)))
        &&& forall|i: int|
            0 <= i < self.held ==> (((self.held_bits >> (i as u32)) & 1) == 1) == #[trigger] b[b.len()
                - 1 - i]
    }

    pub fn new(out: Vec<u8>) -> (w: Self)
        ensures
            w.inv(),
            w.base@ == out@,
            w.bits@ == Seq::<bool>::empty(),
    {
        let ghost base = out@;
        let w = BitWriter { out, held_bits: 0, held: 0, base: Ghost(base), bits: Ghost(Seq::empty()) };
        proof {
            assert(w.bits@.take(0) =~= Seq::<bool>::empty());
            assert(w.out@ =~= w.base@ + stuff(pack(Seq::<bool>::empty())));
        }
        w
    }

    /// Appends the low `len` bits of `code`.
    pub fn put(&mut self, code: u32, len: u8)
        requires
            old(self).inv(),
            len <= 16,
        ensures
            final(self).inv(),
            final(self).base@ == old(self).base@,
            final(self).bits@ == old(self).bits@ + low_bits(code, len as nat),
    {
        if len == 0 {
            proof {
                assert(self.bits@ + low_bits(code, 0) =~= self.bits@);
            }
            return;
        }
        let ghost old_bits = self.bits@;
        let ghost old_held_bits = self.held_bits;
        let ghost old_held = self.held;
        let ghost new_bits = old_bits + low_bits(code, len as nat);
        assert(1u32 << len >= 1) by (bit_vector)
            requires
                1 <= len <= 16,
        ;
        self.held_bits = (self.held_bits << len) | (code & (((1u32 << len) - 1) as u32));
        self.held = self.held + len;
        self.bits = Ghost(new_bits);
        proof {
            assert forall|i: int| 0 <= i < self.held implies (((self.held_bits >> (i as u32)) & 1)
                == 1) == #[trigger] new_bits[new_bits.len() - 1 - i] by {
                lemma_shift_in(old_held_bits, code, len as u32, i as u32);
                if i >= len {
                    assert(new_bits[new_bits.len() - 1 - i] == old_bits[old_bits.len() - 1 - (i
                        - len)]);
                }
            }
            assert(new_bits.take(new_bits.len() - self.held) =~= old_bits.take(old_bits.len()
                - old_held));
        }
        while self.held >= 8
            invariant
                self.held <= 23,
                self.bits@ == new_bits,
                self.base@ == old(self).base@,
                new_bits.len() >= self.held,
                (new_bits.len() - self.held) % 8 == 0,
                self.out@ == self.base@ + stuff(pack(new_bits.take(new_bits.len() - self.held))),
                forall|i: int|
                    0 <= i < self.held ==> (((self.held_bits >> (i as u32)) & 1) == 1)
                        == #[trigger] new_bits[new_bits.len() - 1 - i],
            decreases self.held,
        {
            self.held = self.held - 8;
            let byte = ((self.held_bits >> self.held) & 0xFF) as u8;
            proof {
                let n = new_bits.len();
                let h = self.held as int;
                let done = new_bits.take(n - h - 8);
                let more = new_bits.take(n - h);
                lemma_take_byte(self.held_bits, self.held as u32);
                assert(((self.held_bits >> (self.held + 7) as u32) & 1 == 1) == new_bits[n - 1 - (h + 7)]);
                assert(((self.held_bits >> (self.held + 6) as u32) & 1 == 1) == new_bits[n - 1 - (h + 6)]);
                assert(((self.held_bits >> (self.held + 5) as u32) & 1 == 1) == new_bits[n - 1 - (h + 5)]);
                assert(((self.held_bits >> (self.held + 4) as u32) & 1 == 1) == new_bits[n - 1 - (h + 4)]);
                assert(((self.held_bits >> (self.held + 3) as u32) & 1 == 1) == new_bits[n - 1 - (h + 3)]);
                assert(((self.held_bits >> (self.held + 2) as u32) & 1 == 1) == new_bits[n - 1 - (h + 2)]);
                assert(((self.held_bits >> (self.held + 1) as u32) & 1 == 1) == new_bits[n - 1 - (h + 1)]);
                assert(((self.held_bits >> (self.held) as u32) & 1 == 1) == new_bits[n - 1 - h]);
                assert(byte == byte_of(more, n - h - 8));
                assert(more.take(more.len() - 8) =~= done);
                assert(pack(more) == pack(done).push(byte));
            }
            self.out.push(byte);
            if byte == 0xFF {
                self.out.push(0x00);
            }
            proof {
                let n = new_bits.len();
                let h = self.held as int;
                let done = new_bits.take(n - h - 8);
                let more = new_bits.take(n - h);
                assert(pack(done).push(byte).drop_last() =~= pack(done));
                assert(stuff(pack(more)) == stuff(pack(done)) + stuff_one(byte));
                assert(self.out@ =~= self.base@ + stuff(pack(more)));
            }
        }
    }

    /// Pads the last byte with one bits, the way libjpeg does, and gives the buffer
    /// back.
    pub fn finish(self) -> (out: Vec<u8>)
        requires
            self.inv(),
        ensures
            out@ == self.base@ + stuff(pack(self.bits@ + Seq::new(
                ((8 - self.bits@.len() % 8) % 8) as nat,
                |i: int| true,
            ))),
    {
        let mut w = self;
        if w.held > 0 {
            let pad = 8 - w.held;
            assert(1u32 << pad >= 1) by (bit_vector)
                requires
                    1 <= pad <= 8,
            ;
            let ghost b0 = w.bits@;
            w.put((1u32 << pad) - 1, pad);
            proof {
                lemma_ones(pad as u32);
                assert((8 - b0.len() % 8) % 8 == pad as int);
                assert(w.bits@.take(w.bits@.len() - 0) =~= w.bits@);
            }
            w.out
        } else {
            proof {
                assert(w.bits@ + Seq::new(((8 - w.bits@.len() % 8) % 8) as nat, |i: int| true)
                    =~= w.bits@);
                assert(w.bits@.take(w.bits@.len() - 0) =~= w.bits@);
            }
            w.out
        }
    }
}

proof fn lemma_ones(pad: u32)
    requires
        1 <= pad <= 8,
    ensures
        low_bits(((1u32 << pad) - 1) as u32, pad as nat) =~= Seq::new(pad as nat, |i: int| true),
{
    assert forall|j: int| 0 <= j < pad implies #[trigger] low_bits(((1u32 << pad) - 1) as u32, pad as nat)[j] by {
        let k = (pad - 1 - j) as u32;
        assert((((((1u32 << pad) - 1) as u32 >> k) & 1) == 1)) by (bit_vector)
            requires
                k < pad,
                pad <= 8,
        ;
    }
}

} // verus!
