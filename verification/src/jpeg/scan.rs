//! Walking every block of a baseline scan once, handing each Huffman symbol and the
//! raw bits after it to a sink that either counts the symbols or writes them again
//! with other tables.
//!
//! The DC coefficient is stored as a difference from the block before it, and the
//! walk never adds those differences up: the symbol and its raw bits are carried
//! over as they are, so the coefficient a decoder rebuilds is untouched.

use vstd::prelude::*;
use super::bits::{self, BitWriter, Decoded};
use super::table::{self, Table};

verus! {

/// The 64 coefficients of one 8x8 block, in zig-zag order.
pub const BLOCK_LEN: usize = 64;

/// How many Huffman tables of one class a baseline JPEG may name.
pub const CLASS_SLOTS: usize = 4;

/// The eight table slots together: `class * CLASS_SLOTS + id`.
pub const TABLE_SLOTS: usize = 8;

/// Counted symbols per slot: the 256 real ones and the reserved one.
pub const SLOT_SYMBOLS: usize = 257;

/// One component of the frame, as SOF0 and SOS together describe it.
pub struct Component {
    /// How many blocks of this component sit across and down one MCU.
    pub h: u8,
    pub v: u8,
    /// Which of the eight table slots carries its DC and its AC symbols.
    pub dc: usize,
    pub ac: usize,
}

/// The frame as SOF0 describes it: its components, and how many MCUs the scan
/// holds across and down.
pub struct Frame {
    pub comps: Vec<Component>,
    pub mcus_x: usize,
    pub mcus_y: usize,
}

impl Frame {
    /// Every component names a DC slot and an AC slot that exist.
    pub open spec fn slots_ok(&self) -> bool {
        forall|i: int|
            0 <= i < self.comps@.len() ==> #[trigger] self.comps@[i].dc < CLASS_SLOTS
                && CLASS_SLOTS <= self.comps@[i].ac < TABLE_SLOTS
    }
}

/// One symbol of the scan: the table slot, the symbol, and the raw bits after it.
pub type Event = (usize, u8, u32, u8);

/// What reading a symbol needs of a table: its counts and its symbols.
pub type CodeView = (Seq<u8>, Seq<u8>);

pub open spec fn code_view(t: Table) -> CodeView {
    (t.counts@, t.symbols@)
}

/// The counts and symbols of each of the slots that holds a table.
pub open spec fn codes_view(tables: Seq<Option<Table>>) -> Seq<Option<CodeView>> {
    tables.map_values(|o: Option<Table>| match o {
        Some(t) => Some(code_view(t)),
        None => None,
    })
}

/// Eight slots, each empty or holding a well formed table.
pub open spec fn tables_ok(tables: Seq<Option<Table>>) -> bool {
    &&& tables.len() == TABLE_SLOTS
    &&& forall|i: int| 0 <= i < TABLE_SLOTS ==> (#[trigger] tables[i] matches Some(t) ==> t.wf())
}

/// What reading a symbol or some raw bits gives: the value and the new position,
/// or the sentence that stops the walk.
pub enum Read {
    Got(nat, int),
    Stop(Seq<char>),
}

pub open spec fn read_symbol(t: CodeView, s: Seq<u8>, marker: bool, pos: int) -> Read {
    match bits::decode(t.0, t.1, s, pos) {
        Decoded::Found(symbol, used) => Read::Got(symbol as nat, pos + used),
        Decoded::Short => Read::Stop(bits::stop_sentence(marker)),
        Decoded::TooLong => Read::Stop(bits::too_long_sentence()),
    }
}

pub open spec fn read_bits(s: Seq<u8>, marker: bool, pos: int, n: nat) -> Read {
    if pos + n <= 8 * s.len() {
        Read::Got(bits::bits_value(s, pos, n), pos + n)
    } else {
        Read::Stop(bits::stop_sentence(marker))
    }
}

/// The symbols a part of the scan holds and where it ends, or the sentence that
/// stopped the walk.
pub enum Walk {
    Done(Seq<Event>, int),
    Fail(Seq<char>),
}

/// The events `done` followed by whatever `rest` gives.
pub open spec fn join(done: Seq<Event>, rest: Walk) -> Walk {
    match rest {
        Walk::Done(more, end) => Walk::Done(done + more, end),
        Walk::Fail(m) => Walk::Fail(m),
    }
}

pub proof fn lemma_join_join(a: Seq<Event>, b: Seq<Event>, w: Walk)
    ensures
        join(a, join(b, w)) == join(a + b, w),
        join(Seq::empty(), w) == w,
{
    match w {
        Walk::Done(more, end) => {
            assert(a + (b + more) =~= (a + b) + more);
            assert(Seq::<Event>::empty() + more =~= more);
        },
        Walk::Fail(m) => {},
    }
}

pub open spec fn dc_too_big_sentence() -> Seq<char> {
    "A DC symbol asks for more than 16 bits."@
}

pub open spec fn no_dc_table_sentence() -> Seq<char> {
    "The scan names a DC table the page never sent."@
}

pub open spec fn no_ac_table_sentence() -> Seq<char> {
    "The scan names an AC table the page never sent."@
}

/// The AC symbols of one block, from coefficient `position` on: how many zeroes to
/// skip in the high nibble, how many raw bits follow in the low one. A run of 15
/// with no value skips sixteen zeroes; anything else with no value ends the block.
pub open spec fn ac_walk(t: CodeView, slot: usize, s: Seq<u8>, marker: bool, pos: int, position: int) -> Walk
    decreases (if position < 64 { 64 - position } else { 0 }),
{
    if position >= 64 {
        Walk::Done(Seq::empty(), pos)
    } else {
        match read_symbol(t, s, marker, pos) {
            Read::Stop(m) => Walk::Fail(m),
            Read::Got(run_size, p1) => {
                let run = run_size / 16;
                let size = run_size % 16;
                if size == 0 {
                    let e: Event = (slot, run_size as u8, 0u32, 0u8);
                    if run == 15 {
                        join(seq![e], ac_walk(t, slot, s, marker, p1, position + 16))
                    } else {
                        Walk::Done(seq![e], p1)
                    }
                } else {
                    match read_bits(s, marker, p1, size as nat) {
                        Read::Stop(m) => Walk::Fail(m),
                        Read::Got(x, p2) => join(
                            seq![(slot, run_size as u8, x as u32, size as u8)],
                            ac_walk(t, slot, s, marker, p2, position + run + 1),
                        ),
                    }
                }
            },
        }
    }
}

/// One block: a DC symbol saying how many raw bits carry the difference, the bits,
/// then the AC symbols.
pub open spec fn block_walk(
    dc: CodeView,
    ac: CodeView,
    dc_slot: usize,
    ac_slot: usize,
    s: Seq<u8>,
    marker: bool,
    pos: int,
) -> Walk {
    match read_symbol(dc, s, marker, pos) {
        Read::Stop(m) => Walk::Fail(m),
        Read::Got(size, p1) => if size > 16 {
            Walk::Fail(dc_too_big_sentence())
        } else {
            match read_bits(s, marker, p1, size as nat) {
                Read::Stop(m) => Walk::Fail(m),
                Read::Got(x, p2) => join(
                    seq![(dc_slot, size as u8, x as u32, size as u8)],
                    ac_walk(ac, ac_slot, s, marker, p2, 1),
                ),
            }
        },
    }
}

/// `n` blocks of one component in a row.
pub open spec fn blocks_walk(
    n: nat,
    dc: CodeView,
    ac: CodeView,
    dc_slot: usize,
    ac_slot: usize,
    s: Seq<u8>,
    marker: bool,
    pos: int,
) -> Walk
    decreases n,
{
    if n == 0 {
        Walk::Done(Seq::empty(), pos)
    } else {
        match block_walk(dc, ac, dc_slot, ac_slot, s, marker, pos) {
            Walk::Fail(m) => Walk::Fail(m),
            Walk::Done(e, p) => join(e, blocks_walk((n - 1) as nat, dc, ac, dc_slot, ac_slot, s, marker, p)),
        }
    }
}

/// The components of one MCU from component `i` on.
pub open spec fn comps_walk(
    comps: Seq<Component>,
    i: int,
    tables: Seq<Option<CodeView>>,
    s: Seq<u8>,
    marker: bool,
    pos: int,
) -> Walk
    decreases comps.len() - i,
{
    if i < 0 || i >= comps.len() {
        Walk::Done(Seq::empty(), pos)
    } else {
        let c = comps[i];
        match tables[c.dc as int] {
            None => Walk::Fail(no_dc_table_sentence()),
            Some(dc) => match tables[c.ac as int] {
                None => Walk::Fail(no_ac_table_sentence()),
                Some(ac) => match blocks_walk(
                    (c.h * c.v) as nat,
                    dc,
                    ac,
                    c.dc,
                    c.ac,
                    s,
                    marker,
                    pos,
                ) {
                    Walk::Fail(m) => Walk::Fail(m),
                    Walk::Done(e, p) => join(e, comps_walk(comps, i + 1, tables, s, marker, p)),
                },
            },
        }
    }
}

/// `n` MCUs in a row.
pub open spec fn mcus_walk(
    n: nat,
    comps: Seq<Component>,
    tables: Seq<Option<CodeView>>,
    s: Seq<u8>,
    marker: bool,
    pos: int,
) -> Walk
    decreases n,
{
    if n == 0 {
        Walk::Done(Seq::empty(), pos)
    } else {
        match comps_walk(comps, 0, tables, s, marker, pos) {
            Walk::Fail(m) => Walk::Fail(m),
            Walk::Done(e, p) => join(e, mcus_walk((n - 1) as nat, comps, tables, s, marker, p)),
        }
    }
}

/// `rows` rows of `across` MCUs each.
pub open spec fn rows_walk(
    rows: nat,
    across: nat,
    comps: Seq<Component>,
    tables: Seq<Option<CodeView>>,
    s: Seq<u8>,
    marker: bool,
    pos: int,
) -> Walk
    decreases rows,
{
    if rows == 0 {
        Walk::Done(Seq::empty(), pos)
    } else {
        match mcus_walk(across, comps, tables, s, marker, pos) {
            Walk::Fail(m) => Walk::Fail(m),
            Walk::Done(e, p) => join(
                e,
                rows_walk((rows - 1) as nat, across, comps, tables, s, marker, p),
            ),
        }
    }
}

/// The whole scan of a frame, read from the unstuffed bytes `s`.
pub open spec fn scan_walk(frame: Frame, tables: Seq<Option<CodeView>>, s: Seq<u8>, marker: bool) -> Walk {
    rows_walk(
        frame.mcus_y as nat,
        frame.mcus_x as nat,
        frame.comps@,
        tables,
        s,
        marker,
        0,
    )
}

/// How many of the events land on counter `k`, which is `slot * 257 + symbol`.
pub open spec fn histogram(events: Seq<Event>, k: int) -> int
    decreases events.len(),
{
    if events.len() == 0 {
        0
    } else {
        histogram(events.drop_last(), k) + (if events.last().0 * 257 + events.last().1 == k {
            1int
        } else {
            0int
        })
    }
}

/// The code word and length a new table gives an event's symbol, then its raw bits.
pub open spec fn encode_one(e: Event, fresh: Seq<Option<Table>>) -> Seq<bool> {
    let t = fresh[e.0 as int].unwrap();
    let (code, len) = t.codes@[e.1 as int];
    bits::low_bits(code as u32, len as nat) + bits::low_bits(e.2, e.3 as nat)
}

/// Every event written with the new tables, one after the other.
pub open spec fn encode(events: Seq<Event>, fresh: Seq<Option<Table>>) -> Seq<bool>
    decreases events.len(),
{
    if events.len() == 0 {
        Seq::empty()
    } else {
        encode(events.drop_last(), fresh) + encode_one(events.last(), fresh)
    }
}

/// Where the symbols go: counted, or written with the new tables.
pub enum Sink {
    /// Pass one: one counter per slot and symbol, `slot * 257 + symbol`.
    Count(Vec<u64>),
    /// Pass two: the writer, and the new tables.
    Write(BitWriter, Vec<Option<Table>>),
}

impl Sink {
    /// The sink is in a shape to take symbols, and no counter can overflow before
    /// the reader has read that many more bits.
    pub open spec fn ready(&self, bits_read: int) -> bool {
        match self {
            Sink::Count(c) => c@.len() == TABLE_SLOTS * SLOT_SYMBOLS && super::optimal::sum_u64(
                c@,
                (TABLE_SLOTS * SLOT_SYMBOLS) as int,
            ) <= bits_read,
            Sink::Write(w, fresh) => w.inv() && tables_ok(fresh@),
        }
    }

    /// `after` is this sink once it has taken `events`.
    pub open spec fn took(&self, events: Seq<Event>, after: Sink) -> bool {
        match (self, after) {
            (Sink::Count(c0), Sink::Count(c1)) => c1@.len() == c0@.len() && forall|k: int|
                0 <= k < c0@.len() ==> #[trigger] c1@[k] == c0@[k] + histogram(events, k),
            (Sink::Write(w0, f0), Sink::Write(w1, f1)) => f1@ == f0@ && w1.base@ == w0.base@
                && w1.bits@ == w0.bits@ + encode(events, f0@),
            _ => false,
        }
    }

    /// The sink can take `e`: a counter takes any event, and a writer takes an event
    /// of one of its slots when its new table for that slot holds the symbol.
    pub open spec fn takes(&self, e: Event) -> bool {
        match self {
            Sink::Count(_) => true,
            Sink::Write(_, fresh) => (e.0 as int) < TABLE_SLOTS ==> (fresh@[e.0 as int] matches Some(t)
                && t.symbols@.contains(e.1)),
        }
    }

    /// The sink can take each of `events`.
    pub open spec fn takes_all(&self, events: Seq<Event>) -> bool {
        forall|i: int| 0 <= i < events.len() ==> self.takes(#[trigger] events[i])
    }

    /// Takes one symbol and the raw bits that follow it.
    pub(crate) fn feed(&mut self, slot: usize, symbol: u8, extra: u32, extra_len: u8, Ghost(bits_read): Ghost<int>)
        -> (res: Result<(), String>)
        requires
            old(self).ready(bits_read - 1),
            bits_read <= u64::MAX,
            slot < TABLE_SLOTS,
            extra_len <= 16,
        ensures
            res is Ok ==> old(self).took(seq![(slot, symbol, extra, extra_len)], *final(self))
                && final(self).ready(bits_read),
            *old(self) is Count ==> res is Ok,
            old(self).takes((slot, symbol, extra, extra_len)) ==> res is Ok,
    {
        match self {
            Sink::Count(counted) => {
                let k = slot * SLOT_SYMBOLS + symbol as usize;
                let ghost c0 = counted@;
                proof {
                    super::optimal::lemma_sum_u64_part(c0, k as int, 2056);
                }
                let n = counted[k];
                counted.set(k, n + 1);
                proof {
                    super::optimal::lemma_sum_u64_update(c0, k as int, (n + 1) as u64, 2056);
                    let e: Seq<Event> = seq![(slot, symbol, extra, extra_len)];
                    assert(e.drop_last() =~= Seq::<Event>::empty());
                    assert forall|j: int| 0 <= j < c0.len() implies #[trigger] counted@[j] == c0[j]
                        + histogram(e, j) by {
                        assert(histogram(e, j) == histogram(e.drop_last(), j) + (if slot * 257
                            + symbol == j {
                            1int
                        } else {
                            0int
                        }));
                    }
                }
                Ok(())
            },
            Sink::Write(writer, fresh) => {
                let (code, len) = match &fresh[slot] {
                    Some(table) => {
                        proof {
                            assert(tables_ok(fresh@));
                            assert(fresh@[slot as int] matches Some(t) ==> t.wf());
                        }
                        table.codes[symbol as usize]
                    },
                    None => {
                        return Err(String::from_str("The scan needs a table the new set does not hold."));
                    },
                };
                proof {
                    let t = fresh@[slot as int].unwrap();
                    if t.symbols@.contains(symbol) {
                        assert(t.wf());
                        let n = t.symbols@.len() as int;
                        super::replay::lemma_last_below(t.symbols@, symbol, n);
                        let k = table::last_below(t.symbols@, symbol, n);
                        lemma_length_in_range(t.counts@, k, 1);
                        assert(t.codes@[symbol as int] == table::code_of(t.counts@, t.symbols@, symbol, n));
                        assert(len != 0);
                    }
                }
                if len == 0 {
                    return Err(String::from_str("A symbol in the scan has no code in the new table."));
                }
                proof {
                    let t = fresh@[slot as int].unwrap();
                    assert(t.wf());
                    assert(t.codes@[symbol as int] == table::code_of(t.counts@, t.symbols@, symbol, t.symbols@.len() as int));
                    let k = table::last_below(t.symbols@, symbol, t.symbols@.len() as int);
                    lemma_length_in_range(t.counts@, k, 1);
                }
                let ghost b0 = writer.bits@;
                writer.put(code as u32, len);
                writer.put(extra, extra_len);
                proof {
                    let e: Seq<Event> = seq![(slot, symbol, extra, extra_len)];
                    assert(e.drop_last() =~= Seq::<Event>::empty());
                    assert(encode(e.drop_last(), fresh@) =~= Seq::<bool>::empty());
                    assert(encode(e, fresh@) =~= encode_one((slot, symbol, extra, extra_len), fresh@));
                    assert(writer.bits@ =~= b0 + encode(e, fresh@));
                }
                Ok(())
            },
        }
    }
}

pub proof fn lemma_length_in_range(counts: Seq<u8>, k: int, from: int)
    requires
        1 <= from <= 16,
    ensures
        from <= table::length_from(counts, k, from) <= 16,
    decreases 16 - from,
{
    if from < 16 && k >= table::first_index(counts, from + 1) {
        lemma_length_in_range(counts, k, from + 1);
    }
}

/// What a walker's result says about the part of the scan it walked: on success
/// the walk is done, the reader stands where it ends and the sink took its symbols;
/// while counting, the walker succeeds exactly when the walk does, and fails with
/// the walk's own sentence; and a walk that is done succeeds whenever the sink can
/// take every symbol of it.
pub open spec fn outcome(w: Walk, res: Result<(), String>, r1: bits::BitReader, k0: Sink, k1: Sink) -> bool {
    &&& (res is Ok ==> (w matches Walk::Done(e, p) && r1.inv() && r1.pos() == p && k0.took(e, k1)
        && k1.ready(p)))
    &&& ((w matches Walk::Done(e, _) && k0.takes_all(e)) ==> res is Ok)
    &&& (k0 is Count ==> (res is Ok <==> w is Done))
    &&& (k0 is Count ==> (res matches Err(m) ==> (w matches Walk::Fail(m2) && m@ == m2)))
}

/// Taking events leaves a sink taking what it took before.
pub proof fn lemma_takes_kept(k0: Sink, events: Seq<Event>, k1: Sink)
    requires
        k0.took(events, k1),
    ensures
        forall|e: Event| #[trigger] k1.takes(e) == k0.takes(e),
{
}

/// A sink that takes every event of `a` followed by the walk `w` takes every event
/// of `a`, and `w` is done and the sink takes every event of it.
pub proof fn lemma_takes_parts(k: Sink, a: Seq<Event>, w: Walk)
    requires
        join(a, w) matches Walk::Done(all, _) && k.takes_all(all),
    ensures
        k.takes_all(a),
        w matches Walk::Done(more, _) && k.takes_all(more),
{
    if let Walk::Done(more, p) = w {
        let all = a + more;
        assert forall|i: int| 0 <= i < a.len() implies k.takes(#[trigger] a[i]) by {
            assert(all[i] == a[i]);
        }
        assert forall|i: int| 0 <= i < more.len() implies k.takes(#[trigger] more[i]) by {
            assert(all[a.len() + i] == more[i]);
        }
    }
}

pub proof fn lemma_ready_grows(k: Sink, a: int, b: int)
    requires
        k.ready(a),
        a <= b,
    ensures
        k.ready(b),
{
}

pub proof fn lemma_took_chain(k0: Sink, k1: Sink, k2: Sink, a: Seq<Event>, b: Seq<Event>)
    requires
        k0.took(a, k1),
        k1.took(b, k2),
    ensures
        k0.took(a + b, k2),
    decreases b.len(),
{
    match (k0, k1, k2) {
        (Sink::Count(c0), Sink::Count(c1), Sink::Count(c2)) => {
            assert forall|k: int| 0 <= k < c0@.len() implies #[trigger] c2@[k] == c0@[k] + histogram(a + b, k) by {
                lemma_histogram_add(a, b, k);
            }
        },
        (Sink::Write(w0, f0), Sink::Write(w1, f1), Sink::Write(w2, f2)) => {
            lemma_encode_add(a, b, f0@);
            assert(w2.bits@ =~= w0.bits@ + encode(a + b, f0@));
        },
        _ => {},
    }
}

pub proof fn lemma_took_nothing(k0: Sink)
    requires
        k0 is Count ==> k0->Count_0@.len() == TABLE_SLOTS * SLOT_SYMBOLS,
    ensures
        k0.took(Seq::empty(), k0),
{
    match k0 {
        Sink::Count(c0) => {},
        Sink::Write(w0, f0) => {
            assert(w0.bits@ + encode(Seq::empty(), f0@) =~= w0.bits@);
        },
    }
}

pub proof fn lemma_histogram_add(a: Seq<Event>, b: Seq<Event>, k: int)
    ensures
        histogram(a + b, k) == histogram(a, k) + histogram(b, k),
    decreases b.len(),
{
    if b.len() == 0 {
        assert(a + b =~= a);
    } else {
        assert((a + b).drop_last() =~= a + b.drop_last());
        lemma_histogram_add(a, b.drop_last(), k);
    }
}

pub proof fn lemma_encode_add(a: Seq<Event>, b: Seq<Event>, f: Seq<Option<Table>>)
    ensures
        encode(a + b, f) == encode(a, f) + encode(b, f),
    decreases b.len(),
{
    if b.len() == 0 {
        assert(a + b =~= a);
        assert(encode(a, f) + encode(b, f) =~= encode(a, f));
    } else {
        assert((a + b).drop_last() =~= a + b.drop_last());
        lemma_encode_add(a, b.drop_last(), f);
        assert(encode(a + b, f) =~= encode(a, f) + encode(b, f));
    }
}

pub proof fn lemma_nibbles(x: u8)
    ensures
        (x >> 4u8) as nat == x as nat / 16,
        (x & 0x0Fu8) as nat == x as nat % 16,
{
    assert((x >> 4u8) == x / 16) by (bit_vector);
    assert((x & 0x0Fu8) == x % 16) by (bit_vector);
}

/// The AC symbols of one block.
pub fn walk_ac(reader: &mut bits::BitReader, table: &Table, slot: usize, sink: &mut Sink) -> (res: Result<(), String>)
    requires
        old(reader).inv(),
        table.wf(),
        slot < TABLE_SLOTS,
        old(sink).ready(old(reader).pos()),
        8 * old(reader).stream().len() <= u64::MAX,
    ensures
        final(reader).data@ == old(reader).data@,
        outcome(
            ac_walk(code_view(*table), slot, old(reader).stream(), bits::ends_at_marker(old(reader).data@, 0), old(reader).pos(), 1),
            res,
            *final(reader),
            *old(sink),
            *final(sink),
        ),
{
    let ghost s = reader.stream();
    let ghost marker = bits::ends_at_marker(reader.data@, 0);
    let ghost total = ac_walk(code_view(*table), slot, s, marker, reader.pos(), 1);
    let ghost k0 = *sink;
    let ghost mut events: Seq<Event> = Seq::empty();
    let mut position: usize = 1;
    let mut done = false;
    proof {
        lemma_took_nothing(k0);
        lemma_join_join(Seq::empty(), Seq::empty(), total);
    }
    while !done && position < BLOCK_LEN
        invariant
            reader.inv(),
            reader.data@ == old(reader).data@,
            s == reader.stream(),
            marker == bits::ends_at_marker(reader.data@, 0),
            8 * s.len() <= u64::MAX,
            table.wf(),
            slot < TABLE_SLOTS,
            1 <= position <= 80,
            k0 == *old(sink),
            k0.took(events, *sink),
            sink.ready(reader.pos()),
            total == join(events, if done { Walk::Done(Seq::empty(), reader.pos()) } else { ac_walk(code_view(*table), slot, s, marker, reader.pos(), position as int) }),
            total == ac_walk(code_view(*table), slot, s, marker, old(reader).pos(), 1),
        decreases 81 - position + (if done { 0int } else { 1int }),
    {
        let ghost p0 = reader.pos();
        proof {
            lemma_join_join(events, Seq::empty(), Walk::Fail(Seq::empty()));
            if p0 < 8 * s.len() {
                bits::lemma_decode_uses_bits(table.counts@, table.symbols@, s, p0, 1);
            }
        }
        let run_size = reader.symbol(table)?;
        let ghost p1 = reader.pos();
        proof {
            lemma_nibbles(run_size);
            assert(p1 <= 8 * s.len()) by {
                assert(reader.inv());
            }
        }
        let run = (run_size >> 4) as usize;
        let size = run_size & 0x0F;
        if size == 0 {
            let ghost k1 = *sink;
            proof {
                lemma_ready_grows(k1, p0, p1 - 1);
            }
            let ghost e: Event = (slot, run_size, 0u32, 0u8);
            let fed = sink.feed(slot, run_size, 0, 0, Ghost(p1));
            if let Err(m) = fed {
                proof {
                    let rest = if run == 15 {
                        ac_walk(code_view(*table), slot, s, marker, p1, position + 16)
                    } else {
                        Walk::Done(Seq::empty(), p1)
                    };
                    assert(seq![e] + Seq::<Event>::empty() =~= seq![e]);
                    assert(ac_walk(code_view(*table), slot, s, marker, p0, position as int) == join(seq![e], rest));
                    lemma_join_join(events, seq![e], rest);
                    if let Walk::Done(all, _) = total {
                        if k0.takes_all(all) {
                            lemma_takes_parts(k0, events + seq![e], rest);
                            assert((events + seq![e])[events.len() as int] == e);
                            lemma_takes_kept(k0, events, k1);
                        }
                    }
                }
                return Err(m);
            }
            proof {
                lemma_took_chain(k0, k1, *sink, events, seq![e]);
                lemma_join_join(events, seq![e], ac_walk(code_view(*table), slot, s, marker, p1, position + 16));
                events = events + seq![e];
            }
            if run == 15 {
                position = position + 16;
            } else {
                done = true;
                proof {
                    lemma_join_join(events, Seq::empty(), Walk::Done(Seq::empty(), p1));
                    assert(events.drop_last() + seq![e] =~= events);
                    assert(events.drop_last() + (seq![e] + Seq::<Event>::empty()) =~= events);
                }
            }
        } else {
            let ghost k1 = *sink;
            let extra = reader.bits(size)?;
            let ghost p2 = reader.pos();
            proof {
                lemma_ready_grows(k1, p0, p2 - 1);
            }
            let ghost e: Event = (slot, run_size, extra, size);
            let fed = sink.feed(slot, run_size, extra, size, Ghost(p2));
            if let Err(m) = fed {
                proof {
                    let rest = ac_walk(code_view(*table), slot, s, marker, p2, position + run + 1);
                    assert(ac_walk(code_view(*table), slot, s, marker, p0, position as int) == join(seq![e], rest));
                    lemma_join_join(events, seq![e], rest);
                    if let Walk::Done(all, _) = total {
                        if k0.takes_all(all) {
                            lemma_takes_parts(k0, events + seq![e], rest);
                            assert((events + seq![e])[events.len() as int] == e);
                            lemma_takes_kept(k0, events, k1);
                        }
                    }
                }
                return Err(m);
            }
            proof {
                lemma_took_chain(k0, k1, *sink, events, seq![e]);
                lemma_join_join(events, seq![e], ac_walk(code_view(*table), slot, s, marker, p2, position + run + 1));
                events = events + seq![e];
            }
            position = position + run + 1;
        }
    }
    proof {
        lemma_join_join(events, Seq::empty(), Walk::Done(Seq::empty(), reader.pos()));
        assert(events + Seq::<Event>::empty() =~= events);
    }
    Ok(())
}

/// One block: the DC symbol and its bits, then the AC symbols.
pub fn walk_block(
    reader: &mut bits::BitReader,
    dc: &Table,
    ac: &Table,
    dc_slot: usize,
    ac_slot: usize,
    sink: &mut Sink,
) -> (res: Result<(), String>)
    requires
        old(reader).inv(),
        dc.wf(),
        ac.wf(),
        dc_slot < TABLE_SLOTS,
        ac_slot < TABLE_SLOTS,
        old(sink).ready(old(reader).pos()),
        8 * old(reader).stream().len() <= u64::MAX,
    ensures
        final(reader).data@ == old(reader).data@,
        outcome(
            block_walk(code_view(*dc), code_view(*ac), dc_slot, ac_slot, old(reader).stream(), bits::ends_at_marker(old(reader).data@, 0), old(reader).pos()),
            res,
            *final(reader),
            *old(sink),
            *final(sink),
        ),
{
    let ghost s = reader.stream();
    let ghost p0 = reader.pos();
    let ghost k0 = *sink;
    proof {
        if p0 < 8 * s.len() {
            bits::lemma_decode_uses_bits(dc.counts@, dc.symbols@, s, p0, 1);
        }
    }
    let size = reader.symbol(dc)?;
    if size as usize > 16 {
        return Err(String::from_str("A DC symbol asks for more than 16 bits."));
    }
    let extra = reader.bits(size)?;
    let ghost p2 = reader.pos();
    proof {
        lemma_ready_grows(k0, p0, p2 - 1);
    }
    let ghost e: Event = (dc_slot, size, extra, size);
    let ghost rest = ac_walk(code_view(*ac), ac_slot, s, bits::ends_at_marker(reader.data@, 0), p2, 1);
    let ghost total = block_walk(code_view(*dc), code_view(*ac), dc_slot, ac_slot, s, bits::ends_at_marker(reader.data@, 0), p0);
    proof {
        assert(total == join(seq![e], rest));
    }
    let fed = sink.feed(dc_slot, size, extra, size, Ghost(p2));
    if let Err(m) = fed {
        proof {
            if let Walk::Done(all, _) = total {
                if k0.takes_all(all) {
                    lemma_takes_parts(k0, seq![e], rest);
                    assert(seq![e][0] == e);
                }
            }
        }
        return Err(m);
    }
    let ghost k1 = *sink;
    let r = walk_ac(reader, ac, ac_slot, sink);
    proof {
        if let Walk::Done(e2, p) = rest {
            if r is Ok {
                lemma_took_chain(k0, k1, *sink, seq![e], e2);
            }
        }
        if let Walk::Done(all, _) = total {
            if k0.takes_all(all) {
                lemma_takes_parts(k0, seq![e], rest);
                lemma_takes_kept(k0, seq![e], k1);
            }
        }
    }
    r
}

/// `n` blocks of one component.
pub fn walk_blocks(
    reader: &mut bits::BitReader,
    n: usize,
    dc: &Table,
    ac: &Table,
    dc_slot: usize,
    ac_slot: usize,
    sink: &mut Sink,
) -> (res: Result<(), String>)
    requires
        old(reader).inv(),
        dc.wf(),
        ac.wf(),
        dc_slot < TABLE_SLOTS,
        ac_slot < TABLE_SLOTS,
        old(sink).ready(old(reader).pos()),
        8 * old(reader).stream().len() <= u64::MAX,
    ensures
        final(reader).data@ == old(reader).data@,
        outcome(
            blocks_walk(n as nat, code_view(*dc), code_view(*ac), dc_slot, ac_slot, old(reader).stream(), bits::ends_at_marker(old(reader).data@, 0), old(reader).pos()),
            res,
            *final(reader),
            *old(sink),
            *final(sink),
        ),
{
    let ghost s = reader.stream();
    let ghost marker = bits::ends_at_marker(reader.data@, 0);
    let ghost total = blocks_walk(n as nat, code_view(*dc), code_view(*ac), dc_slot, ac_slot, s, marker, reader.pos());
    let ghost k0 = *sink;
    let ghost mut events: Seq<Event> = Seq::empty();
    proof {
        lemma_took_nothing(k0);
        lemma_join_join(Seq::empty(), Seq::empty(), total);
    }
    let mut i: usize = 0;
    while i < n
        invariant
            reader.inv(),
            reader.data@ == old(reader).data@,
            s == reader.stream(),
            marker == bits::ends_at_marker(reader.data@, 0),
            8 * s.len() <= u64::MAX,
            dc.wf(),
            ac.wf(),
            dc_slot < TABLE_SLOTS,
            ac_slot < TABLE_SLOTS,
            i <= n,
            k0 == *old(sink),
            k0.took(events, *sink),
            sink.ready(reader.pos()),
            total == join(events, blocks_walk((n - i) as nat, code_view(*dc), code_view(*ac), dc_slot, ac_slot, s, marker, reader.pos())),
            total == blocks_walk(n as nat, code_view(*dc), code_view(*ac), dc_slot, ac_slot, s, marker, old(reader).pos()),
        decreases n - i,
    {
        let ghost k1 = *sink;
        let ghost p0 = reader.pos();
        let ghost this = block_walk(code_view(*dc), code_view(*ac), dc_slot, ac_slot, s, marker, p0);
        let r = walk_block(reader, dc, ac, dc_slot, ac_slot, sink);
        proof {
            lemma_join_join(events, Seq::empty(), Walk::Fail(Seq::empty()));
        }
        match r {
            Ok(()) => {},
            Err(m) => {
                proof {
                    if let Walk::Done(all, _) = total {
                        if k0.takes_all(all) {
                            lemma_takes_parts(k0, events, blocks_walk((n - i) as nat, code_view(*dc), code_view(*ac), dc_slot, ac_slot, s, marker, p0));
                            if let Walk::Done(e2, p) = this {
                                lemma_takes_parts(k0, e2, blocks_walk((n - i - 1) as nat, code_view(*dc), code_view(*ac), dc_slot, ac_slot, s, marker, p));
                            }
                            lemma_takes_kept(k0, events, k1);
                        }
                    }
                }
                return Err(m);
            },
        }
        proof {
            if let Walk::Done(e2, p) = this {
                lemma_took_chain(k0, k1, *sink, events, e2);
                lemma_join_join(events, e2, blocks_walk((n - i - 1) as nat, code_view(*dc), code_view(*ac), dc_slot, ac_slot, s, marker, p));
                events = events + e2;
            }
        }
        i = i + 1;
    }
    proof {
        lemma_join_join(events, Seq::empty(), Walk::Done(Seq::empty(), reader.pos()));
        assert(events + Seq::<Event>::empty() =~= events);
    }
    Ok(())
}

/// The components of one MCU, each with its own tables.
pub fn walk_mcu(reader: &mut bits::BitReader, frame: &Frame, tables: &Vec<Option<Table>>, sink: &mut Sink) -> (res: Result<(), String>)
    requires
        old(reader).inv(),
        frame.slots_ok(),
        tables_ok(tables@),
        old(sink).ready(old(reader).pos()),
        8 * old(reader).stream().len() <= u64::MAX,
    ensures
        final(reader).data@ == old(reader).data@,
        outcome(
            comps_walk(frame.comps@, 0, codes_view(tables@), old(reader).stream(), bits::ends_at_marker(old(reader).data@, 0), old(reader).pos()),
            res,
            *final(reader),
            *old(sink),
            *final(sink),
        ),
{
    let ghost s = reader.stream();
    let ghost marker = bits::ends_at_marker(reader.data@, 0);
    let ghost total = comps_walk(frame.comps@, 0, codes_view(tables@), s, marker, reader.pos());
    let ghost k0 = *sink;
    let ghost mut events: Seq<Event> = Seq::empty();
    proof {
        lemma_took_nothing(k0);
        lemma_join_join(Seq::empty(), Seq::empty(), total);
    }
    let mut ci: usize = 0;
    while ci < frame.comps.len()
        invariant
            reader.inv(),
            reader.data@ == old(reader).data@,
            s == reader.stream(),
            marker == bits::ends_at_marker(reader.data@, 0),
            8 * s.len() <= u64::MAX,
            frame.slots_ok(),
            tables_ok(tables@),
            ci <= frame.comps@.len(),
            k0 == *old(sink),
            k0.took(events, *sink),
            sink.ready(reader.pos()),
            total == join(events, comps_walk(frame.comps@, ci as int, codes_view(tables@), s, marker, reader.pos())),
            total == comps_walk(frame.comps@, 0, codes_view(tables@), s, marker, old(reader).pos()),
        decreases frame.comps@.len() - ci,
    {
        let comp = &frame.comps[ci];
        proof {
            assert(frame.comps@[ci as int].dc < CLASS_SLOTS);
            lemma_join_join(events, Seq::empty(), Walk::Fail(Seq::empty()));
        }
        let dc = match &tables[comp.dc] {
            Some(table) => table,
            None => {
                return Err(String::from_str("The scan names a DC table the page never sent."));
            },
        };
        let ac = match &tables[comp.ac] {
            Some(table) => table,
            None => {
                return Err(String::from_str("The scan names an AC table the page never sent."));
            },
        };
        proof {
            assert(tables@[comp.dc as int] matches Some(t) ==> t.wf());
            assert(tables@[comp.ac as int] matches Some(t) ==> t.wf());
            assert(codes_view(tables@)[comp.dc as int] == Some(code_view(*dc)));
            assert(codes_view(tables@)[comp.ac as int] == Some(code_view(*ac)));
        }
        proof {
            let (h, v) = (comp.h as int, comp.v as int);
            assert(0 <= h * v <= 65025) by (nonlinear_arith)
                requires
                    0 <= h <= 255,
                    0 <= v <= 255,
            ;
        }
        let blocks = comp.h as usize * comp.v as usize;
        let ghost k1 = *sink;
        let ghost p0 = reader.pos();
        let ghost this = blocks_walk(blocks as nat, code_view(*dc), code_view(*ac), comp.dc, comp.ac, s, marker, p0);
        let r = walk_blocks(reader, blocks, dc, ac, comp.dc, comp.ac, sink);
        match r {
            Ok(()) => {},
            Err(m) => {
                proof {
                    if let Walk::Done(all, _) = total {
                        if k0.takes_all(all) {
                            lemma_takes_parts(k0, events, comps_walk(frame.comps@, ci as int, codes_view(tables@), s, marker, p0));
                            if let Walk::Done(e2, p) = this {
                                lemma_takes_parts(k0, e2, comps_walk(frame.comps@, ci + 1, codes_view(tables@), s, marker, p));
                            }
                            lemma_takes_kept(k0, events, k1);
                        }
                    }
                }
                return Err(m);
            },
        }
        proof {
            if let Walk::Done(e2, p) = this {
                lemma_took_chain(k0, k1, *sink, events, e2);
                lemma_join_join(events, e2, comps_walk(frame.comps@, ci + 1, codes_view(tables@), s, marker, p));
                events = events + e2;
            }
        }
        ci = ci + 1;
    }
    proof {
        lemma_join_join(events, Seq::empty(), Walk::Done(Seq::empty(), reader.pos()));
        assert(events + Seq::<Event>::empty() =~= events);
    }
    Ok(())
}

/// What walking a whole scan says, as [`outcome`] does for a part of one.
pub open spec fn scan_outcome(w: Walk, res: Result<(), String>, k0: Sink, k1: Sink) -> bool {
    &&& (res is Ok ==> (w matches Walk::Done(e, p) && k0.took(e, k1) && k1.ready(p)))
    &&& ((w matches Walk::Done(e, _) && k0.takes_all(e)) ==> res is Ok)
    &&& (k0 is Count ==> (res is Ok <==> w is Done))
    &&& (k0 is Count ==> (res matches Err(m) ==> (w matches Walk::Fail(m2) && m@ == m2)))
}

proof fn lemma_row_fails(
    events: Seq<Event>,
    total: Walk,
    rows: nat,
    across: nat,
    comps: Seq<Component>,
    tables: Seq<Option<CodeView>>,
    s: Seq<u8>,
    marker: bool,
    row_start: int,
    row_events: Seq<Event>,
    row_total: Walk,
    cols: nat,
    p0: int,
    m: Seq<char>,
)
    requires
        rows > 0,
        cols > 0,
        total == join(events, rows_walk(rows, across, comps, tables, s, marker, row_start)),
        row_total == mcus_walk(across, comps, tables, s, marker, row_start),
        row_total == join(row_events, mcus_walk(cols, comps, tables, s, marker, p0)),
        comps_walk(comps, 0, tables, s, marker, p0) == Walk::Fail(m),
    ensures
        total == Walk::Fail(m),
{
}

/// Where the whole scan is done and a sink takes every event of it, the MCU the
/// walk has come to is done too, and the sink takes every event of it and of the
/// row so far.
proof fn lemma_row_takes(
    k: Sink,
    events: Seq<Event>,
    total: Walk,
    rows: nat,
    across: nat,
    comps: Seq<Component>,
    tables: Seq<Option<CodeView>>,
    s: Seq<u8>,
    marker: bool,
    row_start: int,
    row_events: Seq<Event>,
    row_total: Walk,
    cols: nat,
    p0: int,
)
    requires
        rows > 0,
        cols > 0,
        total == join(events, rows_walk(rows, across, comps, tables, s, marker, row_start)),
        row_total == mcus_walk(across, comps, tables, s, marker, row_start),
        row_total == join(row_events, mcus_walk(cols, comps, tables, s, marker, p0)),
        total matches Walk::Done(all, _) && k.takes_all(all),
    ensures
        k.takes_all(events),
        k.takes_all(row_events),
        comps_walk(comps, 0, tables, s, marker, p0) matches Walk::Done(e2, _) && k.takes_all(e2),
{
    lemma_takes_parts(k, events, rows_walk(rows, across, comps, tables, s, marker, row_start));
    if let Walk::Done(e, p) = row_total {
        lemma_takes_parts(k, e, rows_walk((rows - 1) as nat, across, comps, tables, s, marker, p));
        lemma_takes_parts(k, row_events, mcus_walk(cols, comps, tables, s, marker, p0));
        if let Walk::Done(e2, p2) = comps_walk(comps, 0, tables, s, marker, p0) {
            lemma_takes_parts(k, e2, mcus_walk((cols - 1) as nat, comps, tables, s, marker, p2));
        }
    }
}

/// Walks every block of the scan once, handing each symbol to the sink.
///
/// `scan` is the entropy coded bytes, starting right after the scan header, and
/// `read_with` the page's own tables, which is what the scan is coded in.
pub fn walk_scan(scan: &[u8], frame: &Frame, read_with: &Vec<Option<Table>>, sink: &mut Sink) -> (res: Result<(), String>)
    requires
        frame.slots_ok(),
        tables_ok(read_with@),
        old(sink).ready(0),
        8 * scan@.len() <= u64::MAX,
    ensures
        scan_outcome(
            scan_walk(*frame, codes_view(read_with@), bits::destuff_from(scan@, 0), bits::ends_at_marker(scan@, 0)),
            res,
            *old(sink),
            *final(sink),
        ),
        res is Ok ==> (scan_walk(*frame, codes_view(read_with@), bits::destuff_from(scan@, 0), bits::ends_at_marker(scan@, 0))
            matches Walk::Done(_, p) && p <= 8 * scan@.len()),
{
    let mut reader = bits::BitReader::new(scan);
    let ghost s = reader.stream();
    let ghost marker = bits::ends_at_marker(scan@, 0);
    let ghost comps = frame.comps@;
    let ghost across = frame.mcus_x as nat;
    let ghost total = rows_walk(frame.mcus_y as nat, across, comps, codes_view(read_with@), s, marker, 0);
    let ghost k0 = *sink;
    let ghost mut events: Seq<Event> = Seq::empty();
    proof {
        bits::lemma_destuff_len(scan@, 0);
        lemma_took_nothing(k0);
        lemma_join_join(Seq::empty(), Seq::empty(), total);
    }
    let mut row: usize = 0;
    while row < frame.mcus_y
        invariant
            reader.inv(),
            reader.data@ == scan@,
            s == reader.stream(),
            marker == bits::ends_at_marker(scan@, 0),
            8 * s.len() <= u64::MAX,
            frame.slots_ok(),
            tables_ok(read_with@),
            comps == frame.comps@,
            across == frame.mcus_x,
            row <= frame.mcus_y,
            k0 == *old(sink),
            k0.took(events, *sink),
            sink.ready(reader.pos()),
            total == join(events, rows_walk((frame.mcus_y - row) as nat, across, comps, codes_view(read_with@), s, marker, reader.pos())),
            total == scan_walk(*frame, codes_view(read_with@), bits::destuff_from(scan@, 0), bits::ends_at_marker(scan@, 0)),
        decreases frame.mcus_y - row,
    {
        let ghost row_start = reader.pos();
        let ghost row_total = mcus_walk(across, comps, codes_view(read_with@), s, marker, row_start);
        let ghost k_row = *sink;
        let ghost mut row_events: Seq<Event> = Seq::empty();
        proof {
            lemma_took_nothing(k_row);
            lemma_join_join(Seq::empty(), Seq::empty(), row_total);
        }
        let mut col: usize = 0;
        while col < frame.mcus_x
            invariant
                reader.inv(),
                reader.data@ == scan@,
                s == reader.stream(),
                marker == bits::ends_at_marker(scan@, 0),
                8 * s.len() <= u64::MAX,
                frame.slots_ok(),
                tables_ok(read_with@),
                comps == frame.comps@,
                across == frame.mcus_x,
                col <= frame.mcus_x,
                row < frame.mcus_y,
                k0 == *old(sink),
                k0.took(events, k_row),
                total == join(events, rows_walk((frame.mcus_y - row) as nat, across, comps, codes_view(read_with@), s, marker, row_start)),
                row_total == mcus_walk(across, comps, codes_view(read_with@), s, marker, row_start),
                total == scan_walk(*frame, codes_view(read_with@), bits::destuff_from(scan@, 0), bits::ends_at_marker(scan@, 0)),
                k_row.took(row_events, *sink),
                sink.ready(reader.pos()),
                row_total == join(row_events, mcus_walk((frame.mcus_x - col) as nat, comps, codes_view(read_with@), s, marker, reader.pos())),
            decreases frame.mcus_x - col,
        {
            let ghost k1 = *sink;
            let ghost p0 = reader.pos();
            let ghost this = comps_walk(comps, 0, codes_view(read_with@), s, marker, p0);
            let r = walk_mcu(&mut reader, frame, read_with, sink);
            proof {
                lemma_join_join(row_events, Seq::empty(), Walk::Fail(Seq::empty()));
            }
            match r {
                Ok(()) => {},
                Err(e) => {
                    proof {
                        if k0 is Count {
                            assert(k_row is Count);
                            assert(k1 is Count);
                            if let Walk::Fail(m2) = this {
                                lemma_row_fails(events, total, (frame.mcus_y - row) as nat, across, comps,
                                    codes_view(read_with@), s, marker, row_start, row_events, row_total,
                                    (frame.mcus_x - col) as nat, p0, m2);
                            }
                        }
                        if let Walk::Done(all, _) = total {
                            if k0.takes_all(all) {
                                lemma_row_takes(k0, events, total, (frame.mcus_y - row) as nat, across, comps,
                                    codes_view(read_with@), s, marker, row_start, row_events, row_total,
                                    (frame.mcus_x - col) as nat, p0);
                                lemma_takes_kept(k0, events, k_row);
                                lemma_takes_kept(k_row, row_events, k1);
                            }
                        }
                    }
                    return Err(e);
                },
            }
            proof {
                if let Walk::Done(e2, p) = this {
                    lemma_took_chain(k_row, k1, *sink, row_events, e2);
                    lemma_join_join(row_events, e2, mcus_walk((frame.mcus_x - col - 1) as nat, comps, codes_view(read_with@), s, marker, p));
                    row_events = row_events + e2;
                }
            }
            col = col + 1;
        }
        proof {
            lemma_join_join(row_events, Seq::empty(), Walk::Done(Seq::empty(), reader.pos()));
            assert(row_events + Seq::<Event>::empty() =~= row_events);
            lemma_took_chain(k0, k_row, *sink, events, row_events);
            lemma_join_join(events, row_events, rows_walk((frame.mcus_y - row - 1) as nat, across, comps, codes_view(read_with@), s, marker, reader.pos()));
            events = events + row_events;
        }
        row = row + 1;
    }
    proof {
        lemma_join_join(events, Seq::empty(), Walk::Done(Seq::empty(), reader.pos()));
        assert(events + Seq::<Event>::empty() =~= events);
        bits::lemma_destuff_len(scan@, 0);
        bits::lemma_destuff_len(scan@, reader.at as int);
        assert(reader.pos() <= 8 * s.len());
    }
    Ok(())
}

} // verus!
