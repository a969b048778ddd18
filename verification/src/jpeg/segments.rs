//! The header segments the recoder reads and writes: DHT (the Huffman tables),
//! SOF0 (the frame: its size and its components' sampling) and SOS (which tables
//! each component's symbols are coded with).
//!
//! Each reader is stated against a function on the segment's bytes that says what
//! it holds, or the sentence it is refused with.

use vstd::prelude::*;
use super::scan::{self, CodeView, Component, Frame, CLASS_SLOTS, TABLE_SLOTS};
use super::table::{self, Table};

verus! {

pub open spec fn dht_short_sentence() -> Seq<char> {
    "A Huffman table segment of the page stops short."@
}

pub open spec fn dht_class_sentence() -> Seq<char> {
    "The page names a Huffman table a baseline JPEG cannot have."@
}

/// What the DHT segment body `body` does to the eight table slots, reading its
/// tables from offset `at` on: each table lands in slot `class * 4 + id`, over
/// whatever was there.
pub open spec fn dht_from(body: Seq<u8>, at: int, slots: Seq<Option<CodeView>>) -> Result<
    Seq<Option<CodeView>>,
    Seq<char>,
>
    decreases body.len() - at,
{
    if at < 0 || at >= body.len() {
        Ok(slots)
    } else {
        let class = body[at] / 16;
        let id = body[at] % 16;
        if class > 1 || id >= 4 {
            Err(dht_class_sentence())
        } else if at + 17 > body.len() {
            Err(dht_short_sentence())
        } else {
            let counts = body.subrange(at + 1, at + 17);
            let total = table::total_codes(counts);
            proof {
                table::lemma_first_code_capped(counts, 17);
            }
            if at + 17 + total > body.len() {
                Err(dht_short_sentence())
            } else if !super::kraft::proper_code(counts) {
                Err(crate::text::too_many_codes_sentence())
            } else {
                dht_from(
                    body,
                    at + 17 + total,
                    slots.update(class * 4 + id, Some((counts, body.subrange(at + 17, at + 17 + total)))),
                )
            }
        }
    }
}

/// Appends `bytes`.
pub fn append_bytes(out: &mut Vec<u8>, bytes: &[u8])
    ensures
        final(out)@ == old(out)@ + bytes@,
{
    let mut i: usize = 0;
    while i < bytes.len()
        invariant
            i <= bytes@.len(),
            out@ == old(out)@ + bytes@.subrange(0, i as int),
        decreases bytes@.len() - i,
    {
        out.push(bytes[i]);
        i = i + 1;
        proof {
            assert(bytes@.subrange(0, i as int) =~= bytes@.subrange(0, i - 1) + seq![bytes@[i - 1]]);
        }
    }
    proof {
        assert(bytes@.subrange(0, bytes@.len() as int) =~= bytes@);
    }
}

/// The bytes `from..to` of `data`, as a vector of their own.
pub fn copy_range(data: &[u8], from: usize, to: usize) -> (v: Vec<u8>)
    requires
        from <= to <= data@.len(),
    ensures
        v@ == data@.subrange(from as int, to as int),
{
    let mut v: Vec<u8> = Vec::new();
    let mut i: usize = from;
    while i < to
        invariant
            from <= i <= to,
            to <= data@.len(),
            v@ == data@.subrange(from as int, i as int),
        decreases to - i,
    {
        v.push(data[i]);
        i = i + 1;
        proof {
            assert(data@.subrange(from as int, i as int) =~= data@.subrange(from as int, i - 1)
                + seq![data@[i - 1]]);
        }
    }
    v
}

/// Reads the tables out of one DHT segment into their slots.
///
/// `body` is the segment without its marker and its length. Fails with a sentence
/// when the segment stops short, names a table a baseline JPEG cannot have, or
/// holds one whose codes do not fit their lengths.
pub fn read_tables(body: &[u8], tables: &mut Vec<Option<Table>>) -> (res: Result<(), String>)
    requires
        scan::tables_ok(old(tables)@),
    ensures
        scan::tables_ok(final(tables)@),
        match dht_from(body@, 0, scan::codes_view(old(tables)@)) {
            Ok(slots) => res is Ok && scan::codes_view(final(tables)@) == slots,
            Err(m) => res matches Err(e) && e@ == m,
        },
{
    let mut at: usize = 0;
    while at < body.len()
        invariant
            at <= body@.len(),
            scan::tables_ok(tables@),
            dht_from(body@, 0, scan::codes_view(old(tables)@)) == dht_from(
                body@,
                at as int,
                scan::codes_view(tables@),
            ),
        decreases body@.len() - at,
    {
        let byte = body[at];
        proof {
            scan::lemma_nibbles(byte);
        }
        let class = (byte >> 4) as usize;
        let id = (byte & 0x0F) as usize;
        if class > 1 || id >= CLASS_SLOTS {
            return Err(String::from_str("The page names a Huffman table a baseline JPEG cannot have."));
        }
        if body.len() - at < 17 {
            return Err(String::from_str("A Huffman table segment of the page stops short."));
        }
        let counts = copy_range(body, at + 1, at + 17);
        let mut total: usize = 0;
        let mut i: usize = 0;
        while i < 16
            invariant
                counts@.len() == 16,
                0 <= i <= 16,
                total == table::first_index(counts@, (i + 1) as int),
                total <= 255 * i,
            decreases 16 - i,
        {
            total = total + counts[i] as usize;
            i = i + 1;
        }
        let symbols_at = at + 17;
        if body.len() - symbols_at < total {
            return Err(String::from_str("A Huffman table segment of the page stops short."));
        }
        let symbols = copy_range(body, symbols_at, symbols_at + total);
        let ghost cv = counts@;
        let ghost sv = symbols@;
        let t = match Table::new(counts, symbols) {
            Ok(t) => t,
            Err(e) => {
                return Err(e);
            },
        };
        let slot = class * CLASS_SLOTS + id;
        let ghost before = tables@;
        tables.set(slot, Some(t));
        proof {
            assert(scan::codes_view(tables@) =~= scan::codes_view(before).update(
                slot as int,
                Some((cv, sv)),
            ));
            assert forall|k: int| 0 <= k < TABLE_SLOTS implies (#[trigger] tables@[k] matches Some(u)
                ==> u.wf()) by {
                if k != slot {
                    assert(tables@[k] == before[k]);
                }
            }
        }
        at = symbols_at + total;
    }
    Ok(())
}

pub open spec fn sof_short_sentence() -> Seq<char> {
    "The frame header of the page stops short."@
}

pub open spec fn no_size_sentence() -> Seq<char> {
    "The page's frame header gives no size or no component."@
}

pub open spec fn samples_nothing_sentence() -> Seq<char> {
    "A component of the page samples nothing."@
}

/// The big-endian 16-bit number at `at`.
pub open spec fn be16(data: Seq<u8>, at: int) -> int {
    data[at] * 256 + data[at + 1]
}

/// The sampling byte of component `i` of a SOF0 body.
pub open spec fn sampling(body: Seq<u8>, i: int) -> u8 {
    body[7 + 3 * i]
}

/// The sentence for the first of components `i` to `count` whose sampling byte is
/// missing or samples nothing.
pub open spec fn sampling_error(body: Seq<u8>, i: int, count: int) -> Option<Seq<char>>
    decreases count - i,
{
    if i < 0 || i >= count {
        None
    } else if 7 + 3 * i >= body.len() {
        Some(sof_short_sentence())
    } else if sampling(body, i) / 16 == 0 || sampling(body, i) % 16 == 0 {
        Some(samples_nothing_sentence())
    } else {
        sampling_error(body, i + 1, count)
    }
}

/// The most blocks any of the first `n` components has across one MCU, and at least 1.
pub open spec fn widest(body: Seq<u8>, n: int) -> int
    decreases n,
{
    if n <= 0 {
        1
    } else {
        let h = sampling(body, n - 1) / 16;
        let w = widest(body, n - 1);
        if h > w {
            h as int
        } else {
            w
        }
    }
}

/// The most blocks any of the first `n` components has down one MCU, and at least 1.
pub open spec fn tallest(body: Seq<u8>, n: int) -> int
    decreases n,
{
    if n <= 0 {
        1
    } else {
        let v = sampling(body, n - 1) % 16;
        let t = tallest(body, n - 1);
        if v > t {
            v as int
        } else {
            t
        }
    }
}

/// How many MCUs of `most` blocks of 8 pixels cover `size` pixels: a part of an
/// MCU at the edge is still coded whole.
pub open spec fn mcus_over(size: int, most: int) -> int {
    (size + 8 * most - 1) / (8 * most)
}

/// The components a SOF0 body describes, before the scan header names their tables.
pub open spec fn frame_comps(body: Seq<u8>, count: int) -> Seq<Component> {
    Seq::new(
        count as nat,
        |i: int|
            Component {
                h: sampling(body, i) / 16,
                v: sampling(body, i) % 16,
                dc: 0,
                ac: CLASS_SLOTS,
            },
    )
}

/// The components of a SOF0 body and how many MCUs the scan holds across and down,
/// or the sentence it is refused with.
pub open spec fn frame_of(body: Seq<u8>) -> Result<(Seq<Component>, int, int), Seq<char>> {
    if body.len() < 6 {
        Err(sof_short_sentence())
    } else {
        let height = be16(body, 1);
        let width = be16(body, 3);
        let count = body[5] as int;
        if width == 0 || height == 0 || count == 0 {
            Err(no_size_sentence())
        } else {
            match sampling_error(body, 0, count) {
                Some(m) => Err(m),
                None => Ok(
                    (
                        frame_comps(body, count),
                        mcus_over(width, widest(body, count)),
                        mcus_over(height, tallest(body, count)),
                    ),
                ),
            }
        }
    }
}

/// Reads the size and the sampling factors out of the SOF0 segment body.
pub fn read_frame(body: &[u8]) -> (res: Result<Frame, String>)
    ensures
        match frame_of(body@) {
            Ok(fv) => res matches Ok(f) && f.comps@ == fv.0 && f.mcus_x == fv.1 && f.mcus_y == fv.2
                && f.slots_ok(),
            Err(m) => res matches Err(e) && e@ == m,
        },
{
    if body.len() < 6 {
        return Err(String::from_str("The frame header of the page stops short."));
    }
    let height = (body[1] as usize) * 256 + body[2] as usize;
    let width = (body[3] as usize) * 256 + body[4] as usize;
    let count = body[5] as usize;
    if width == 0 || height == 0 || count == 0 {
        return Err(String::from_str("The page's frame header gives no size or no component."));
    }
    let mut comps: Vec<Component> = Vec::new();
    let mut most_h: usize = 1;
    let mut most_v: usize = 1;
    let mut index: usize = 0;
    while index < count
        invariant
            body@.len() >= 6,
            count == body@[5],
            width == be16(body@, 3),
            height == be16(body@, 1),
            width != 0 && height != 0 && count != 0,
            index <= count,
            comps@.len() == index,
            forall|j: int| 0 <= j < index ==> #[trigger] comps@[j] == frame_comps(body@, count as int)[j],
            sampling_error(body@, 0, count as int) == sampling_error(body@, index as int, count as int),
            most_h == widest(body@, index as int),
            most_v == tallest(body@, index as int),
            1 <= most_h <= 15,
            1 <= most_v <= 15,
        decreases count - index,
    {
        if index * 3 + 7 >= body.len() {
            return Err(String::from_str("The frame header of the page stops short."));
        }
        let byte = body[7 + index * 3];
        proof {
            scan::lemma_nibbles(byte);
        }
        let h = byte >> 4;
        let v = byte & 0x0F;
        if h == 0 || v == 0 {
            return Err(String::from_str("A component of the page samples nothing."));
        }
        if h as usize > most_h {
            most_h = h as usize;
        }
        if v as usize > most_v {
            most_v = v as usize;
        }
        comps.push(Component { h, v, dc: 0, ac: CLASS_SLOTS });
        index = index + 1;
    }
    let f = Frame {
        comps,
        mcus_x: (width + 8 * most_h - 1) / (8 * most_h),
        mcus_y: (height + 8 * most_v - 1) / (8 * most_v),
    };
    proof {
        assert(f.comps@ =~= frame_comps(body@, count as int));
    }
    Ok(f)
}

pub open spec fn sos_short_sentence() -> Seq<char> {
    "The scan header of the page stops short."@
}

pub open spec fn not_every_component_sentence() -> Seq<char> {
    "The page's scan does not cover every component of its frame."@
}

pub open spec fn sos_table_sentence() -> Seq<char> {
    "The page's scan names a Huffman table a baseline JPEG cannot have."@
}

pub open spec fn not_baseline_sentence() -> Seq<char> {
    "The page's scan covers only part of each block, so it is not baseline."@
}

/// The table byte of component `i` of a SOS body: the DC table in the high nibble,
/// the AC table in the low one.
pub open spec fn table_byte(body: Seq<u8>, i: int) -> u8 {
    body[2 + 2 * i]
}

/// The sentence for the first of components `i` to `n` whose table byte is missing
/// or names a table a baseline JPEG cannot have.
pub open spec fn slots_error(body: Seq<u8>, i: int, n: int) -> Option<Seq<char>>
    decreases n - i,
{
    if i < 0 || i >= n {
        None
    } else if 2 + 2 * i >= body.len() {
        Some(sos_short_sentence())
    } else if table_byte(body, i) / 16 >= 4 || table_byte(body, i) % 16 >= 4 {
        Some(sos_table_sentence())
    } else {
        slots_error(body, i + 1, n)
    }
}

/// The components with the tables the SOS body names for them.
pub open spec fn scan_comps(body: Seq<u8>, comps: Seq<Component>) -> Seq<Component> {
    Seq::new(
        comps.len(),
        |i: int|
            Component {
                h: comps[i].h,
                v: comps[i].v,
                dc: (table_byte(body, i) / 16) as usize,
                ac: (CLASS_SLOTS + table_byte(body, i) % 16) as usize,
            },
    )
}

/// The components once the SOS body has named their tables, or the sentence it is
/// refused with: it must cover every component and the whole block, coefficient 0
/// to 63, as a baseline scan does.
pub open spec fn scan_header_of(body: Seq<u8>, comps: Seq<Component>) -> Result<Seq<Component>, Seq<char>> {
    let n = comps.len() as int;
    if body.len() < 1 {
        Err(sos_short_sentence())
    } else if body[0] != n {
        Err(not_every_component_sentence())
    } else {
        match slots_error(body, 0, n) {
            Some(m) => Err(m),
            None => if 2 + 2 * n >= body.len() {
                Err(sos_short_sentence())
            } else if body[1 + 2 * n] == 0 && body[2 + 2 * n] == 63 {
                Ok(scan_comps(body, comps))
            } else {
                Err(not_baseline_sentence())
            },
        }
    }
}

/// Reads which two tables each component's symbols are coded with out of the SOS
/// segment body.
pub fn read_scan_header(body: &[u8], comps: &mut Vec<Component>) -> (res: Result<(), String>)
    ensures
        final(comps)@.len() == old(comps)@.len(),
        forall|i: int|
            0 <= i < old(comps)@.len() ==> (#[trigger] final(comps)@[i]).h == old(comps)@[i].h
                && final(comps)@[i].v == old(comps)@[i].v,
        res is Ok ==> forall|i: int|
            0 <= i < final(comps)@.len() ==> (#[trigger] final(comps)@[i]).dc < CLASS_SLOTS && CLASS_SLOTS
                <= final(comps)@[i].ac < TABLE_SLOTS,
        match scan_header_of(body@, old(comps)@) {
            Ok(c) => res is Ok && final(comps)@ == c,
            Err(m) => res matches Err(e) && e@ == m,
        },
{
    if body.len() < 1 {
        return Err(String::from_str("The scan header of the page stops short."));
    }
    let count = body[0] as usize;
    if count != comps.len() {
        return Err(String::from_str("The page's scan does not cover every component of its frame."));
    }
    let mut index: usize = 0;
    while index < count
        invariant
            body@.len() >= 1,
            count == body@[0],
            count == comps@.len(),
            comps@.len() == old(comps)@.len(),
            index <= count,
            forall|i: int|
                0 <= i < old(comps)@.len() ==> (#[trigger] comps@[i]).h == old(comps)@[i].h
                    && comps@[i].v == old(comps)@[i].v,
            forall|i: int| 0 <= i < index ==> #[trigger] comps@[i] == scan_comps(body@, old(comps)@)[i],
            forall|i: int| 0 <= i < index ==> (#[trigger] comps@[i]).dc < CLASS_SLOTS && CLASS_SLOTS <= comps@[i].ac < TABLE_SLOTS,
            slots_error(body@, 0, count as int) == slots_error(body@, index as int, count as int),
        decreases count - index,
    {
        if 2 + index * 2 >= body.len() {
            return Err(String::from_str("The scan header of the page stops short."));
        }
        let slots = body[2 + index * 2];
        proof {
            scan::lemma_nibbles(slots);
        }
        let dc = (slots >> 4) as usize;
        let ac = (slots & 0x0F) as usize;
        if dc >= CLASS_SLOTS || ac >= CLASS_SLOTS {
            return Err(String::from_str("The page's scan names a Huffman table a baseline JPEG cannot have."));
        }
        let h = comps[index].h;
        let v = comps[index].v;
        comps.set(index, Component { h, v, dc, ac: CLASS_SLOTS + ac });
        index = index + 1;
    }
    if 2 + count * 2 >= body.len() {
        return Err(String::from_str("The scan header of the page stops short."));
    }
    if body[1 + count * 2] == 0 && body[2 + count * 2] == 63 {
        proof {
            assert(comps@ =~= scan_comps(body@, old(comps)@));
        }
        Ok(())
    } else {
        Err(String::from_str("The page's scan covers only part of each block, so it is not baseline."))
    }
}

/// The DHT segment that carries the table `t` of slot `slot`: the marker, the
/// length (which counts itself), the class and id byte, the 16 counts, the symbols.
pub open spec fn dht_segment(slot: int, t: CodeView) -> Seq<u8> {
    let n = 19 + t.1.len();
    seq![0xFFu8, 0xC4u8, (n / 256) as u8, (n % 256) as u8, ((slot / 4) * 16 + slot % 4) as u8] + t.0
        + t.1
}

/// The slots the components use, in the order their tables go out: each
/// component's DC slot, then its AC slot.
pub open spec fn slot_order(comps: Seq<Component>) -> Seq<usize> {
    Seq::new(
        2 * comps.len(),
        |j: int|
            if j % 2 == 0 {
                comps[j / 2].dc
            } else {
                comps[j / 2].ac
            },
    )
}

/// The DHT segment of one slot, unless it went out already or holds no table.
pub open spec fn table_out(done: bool, slot: usize, tables: Seq<Option<CodeView>>) -> Seq<u8> {
    if done {
        seq![]
    } else {
        match tables[slot as int] {
            Some(t) => dht_segment(slot as int, t),
            None => seq![],
        }
    }
}

/// The DHT segments for the first `n` slots of `order`: each slot at its first
/// appearance, if it holds a table.
pub open spec fn tables_out(order: Seq<usize>, n: int, tables: Seq<Option<CodeView>>) -> Seq<u8>
    decreases n,
{
    if n <= 0 {
        seq![]
    } else {
        tables_out(order, n - 1, tables) + table_out(
            order.take(n - 1).contains(order[n - 1]),
            order[n - 1],
            tables,
        )
    }
}

/// Writes the DHT segment of one slot unless it went out already.
fn put_table(slot: usize, tables: &Vec<Option<Table>>, written: &mut Vec<bool>, out: &mut Vec<u8>)
    requires
        slot < TABLE_SLOTS,
        old(written)@.len() == TABLE_SLOTS,
        scan::tables_ok(tables@),
    ensures
        final(written)@ == old(written)@.update(slot as int, true),
        final(out)@ == old(out)@ + table_out(old(written)@[slot as int], slot, scan::codes_view(tables@)),
{
    if written[slot] {
        return;
    }
    written.set(slot, true);
    match &tables[slot] {
        Some(table) => {
            proof {
                assert(tables@[slot as int] matches Some(t) ==> t.wf());
                table::lemma_first_code_capped(table.counts@, 17);
            }
            let n = 19 + table.symbols.len();
            let ghost before = out@;
            out.push(0xFF);
            out.push(0xC4);
            out.push((n / 256) as u8);
            out.push((n % 256) as u8);
            out.push(((slot / 4) * 16 + slot % 4) as u8);
            append_bytes(out, table.counts.as_slice());
            append_bytes(out, table.symbols.as_slice());
            proof {
                assert(scan::codes_view(tables@)[slot as int] == Some(scan::code_view(*table)));
                assert(out@ =~= before + dht_segment(slot as int, scan::code_view(*table)));
            }
        },
        None => {
            proof {
                assert(scan::codes_view(tables@)[slot as int] == None::<CodeView>);
                assert(out@ =~= old(out)@ + Seq::<u8>::empty());
            }
        },
    }
}

/// Writes one DHT segment for each table the scan uses, walking the components and
/// taking each one's DC table and then its AC table, which is libjpeg's order.
pub fn write_tables(frame: &Frame, tables: &Vec<Option<Table>>, out: &mut Vec<u8>)
    requires
        frame.slots_ok(),
        scan::tables_ok(tables@),
    ensures
        final(out)@ == old(out)@ + tables_out(
            slot_order(frame.comps@),
            2 * frame.comps@.len() as int,
            scan::codes_view(tables@),
        ),
{
    let ghost order = slot_order(frame.comps@);
    let ghost views = scan::codes_view(tables@);
    let mut written: Vec<bool> = vec![false; TABLE_SLOTS];
    let mut i: usize = 0;
    while i < frame.comps.len()
        invariant
            frame.slots_ok(),
            scan::tables_ok(tables@),
            order == slot_order(frame.comps@),
            views == scan::codes_view(tables@),
            i <= frame.comps@.len(),
            written@.len() == TABLE_SLOTS,
            forall|s: int| 0 <= s < TABLE_SLOTS ==> (#[trigger] written@[s] <==> order.take(2 * i).contains(s as usize)),
            out@ == old(out)@ + tables_out(order, 2 * i, views),
        decreases frame.comps@.len() - i,
    {
        let dc = frame.comps[i].dc;
        let ac = frame.comps[i].ac;
        proof {
            assert(frame.comps@[i as int].dc < CLASS_SLOTS);
            assert(order[2 * i] == dc);
            assert(order[2 * i + 1] == ac);
        }
        let ghost w0 = written@;
        let ghost o0 = out@;
        put_table(dc, tables, &mut written, out);
        proof {
            assert(order.take(2 * i + 1) =~= order.take(2 * i).push(dc));
            assert(w0[dc as int] == order.take(2 * i).contains(dc));
            assert(tables_out(order, 2 * i + 1, views) == tables_out(order, 2 * i, views) + table_out(
                order.take(2 * i).contains(dc),
                dc,
                views,
            ));
            assert forall|s: int| 0 <= s < TABLE_SLOTS implies (#[trigger] written@[s]
                <==> order.take(2 * i + 1).contains(s as usize)) by {
                if s == dc {
                    assert(order.take(2 * i + 1)[2 * i] == dc);
                } else {
                    assert(written@[s] == w0[s]);
                    if order.take(2 * i + 1).contains(s as usize) {
                        let k = choose|k: int| 0 <= k < 2 * i + 1 && #[trigger] order.take(2 * i + 1)[k] == s as usize;
                        assert(order.take(2 * i)[k] == s as usize);
                    }
                    if order.take(2 * i).contains(s as usize) {
                        let k = choose|k: int| 0 <= k < 2 * i && #[trigger] order.take(2 * i)[k] == s as usize;
                        assert(order.take(2 * i + 1)[k] == s as usize);
                    }
                }
            }
            assert(out@ =~= old(out)@ + tables_out(order, 2 * i + 1, views));
        }
        let ghost w1 = written@;
        put_table(ac, tables, &mut written, out);
        proof {
            assert(order.take(2 * i + 2) =~= order.take(2 * i + 1).push(ac));
            assert(w1[ac as int] == order.take(2 * i + 1).contains(ac));
            assert(tables_out(order, 2 * i + 2, views) == tables_out(order, 2 * i + 1, views) + table_out(
                order.take(2 * i + 1).contains(ac),
                ac,
                views,
            ));
            assert forall|s: int| 0 <= s < TABLE_SLOTS implies (#[trigger] written@[s]
                <==> order.take(2 * i + 2).contains(s as usize)) by {
                if s == ac {
                    assert(order.take(2 * i + 2)[2 * i + 1] == ac);
                } else {
                    assert(written@[s] == w1[s]);
                    if order.take(2 * i + 2).contains(s as usize) {
                        let k = choose|k: int| 0 <= k < 2 * i + 2 && #[trigger] order.take(2 * i + 2)[k] == s as usize;
                        assert(order.take(2 * i + 1)[k] == s as usize);
                    }
                    if order.take(2 * i + 1).contains(s as usize) {
                        let k = choose|k: int| 0 <= k < 2 * i + 1 && #[trigger] order.take(2 * i + 1)[k] == s as usize;
                        assert(order.take(2 * i + 2)[k] == s as usize);
                    }
                }
            }
            assert(out@ =~= old(out)@ + tables_out(order, 2 * i + 2, views));
        }
        i = i + 1;
    }
}

} // verus!
