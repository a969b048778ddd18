//! Why a recoded file reads back as a file: its header segments, read the way the
//! recoder reads a page, give the same frame and scan header and exactly the new
//! tables, and the scan after them is the recoded one.

use vstd::prelude::*;
use super::bits;
use super::kraft;
use super::optimal;
use super::recode::{self, Gathered};
use super::replay;
use super::scan::{self, CodeView, Component, Event, Walk};
use super::segments;
use super::table::{self, Table};

verus! {

/// `seg` is one whole segment: a marker, then a length that counts itself, then
/// the body.
pub open spec fn one_segment(seg: Seq<u8>) -> bool {
    &&& seg.len() >= 4
    &&& seg[0] == 0xFF
    &&& segments::be16(seg, 2) >= 2
    &&& seg.len() == 2 + segments::be16(seg, 2)
}

/// The body of a segment.
pub open spec fn body_of(seg: Seq<u8>) -> Seq<u8> {
    seg.subrange(4, seg.len() as int)
}

/// A marker whose segment the recoder keeps with the others at the head of the file:
/// no table, frame, scan, restart or marker that cannot stand before a scan.
pub open spec fn head_marker(m: u8) -> bool {
    !(m == 0x01 || (0xD0 <= m && m <= 0xD9) || m == 0xC4 || m == 0xDB || m == 0xC0 || m == 0xDD || (0xC1 <= m
        && m <= 0xCF) || m == 0xDA)
}

/// `bytes` is whole segments one after the other: quantisation tables when `quant`
/// holds, segments for the head otherwise.
pub open spec fn segments_of(bytes: Seq<u8>, quant: bool) -> bool
    decreases bytes.len(),
{
    if bytes.len() == 0 {
        true
    } else if bytes.len() < 4 || segments::be16(bytes, 2) < 2 || 2 + segments::be16(bytes, 2) > bytes.len() {
        false
    } else {
        &&& bytes[0] == 0xFF
        &&& (if quant {
            bytes[1] == 0xDB
        } else {
            head_marker(bytes[1])
        })
        &&& segments_of(bytes.skip(2 + segments::be16(bytes, 2)), quant)
    }
}

/// A segment found at `p` in `out` reads as itself there.
proof fn lemma_segment_at(out: Seq<u8>, p: int, seg: Seq<u8>)
    requires
        0 <= p,
        p + seg.len() <= out.len(),
        out.subrange(p, p + seg.len()) == seg,
        one_segment(seg),
    ensures
        out[p] == 0xFF,
        out[p + 1] == seg[1],
        p + 4 <= out.len(),
        segments::be16(out, p + 2) == segments::be16(seg, 2),
        p + 2 + segments::be16(out, p + 2) == p + seg.len(),
        out.subrange(p, p + 2 + segments::be16(out, p + 2)) == seg,
        out.subrange(p + 4, p + 2 + segments::be16(out, p + 2)) == body_of(seg),
{
    assert(out[p] == seg[0]);
    assert(out[p + 1] == seg[1]);
    assert(out[p + 2] == seg[2]);
    assert(out[p + 3] == seg[3]);
    assert(out.subrange(p + 4, p + seg.len()) =~= body_of(seg));
}

/// Whole segments after one another.
proof fn lemma_segments_then(a: Seq<u8>, seg: Seq<u8>, quant: bool)
    requires
        segments_of(a, quant),
        one_segment(seg),
        quant ==> seg[1] == 0xDB,
        !quant ==> head_marker(seg[1]),
    ensures
        segments_of(a + seg, quant),
    decreases a.len(),
{
    if a.len() == 0 {
        assert(a + seg =~= seg);
        assert(seg.skip(2 + segments::be16(seg, 2)) =~= Seq::<u8>::empty());
        assert(segments_of(Seq::<u8>::empty(), quant));
        assert(segments_of(seg, quant));
    } else {
        let n = 2 + segments::be16(a, 2);
        lemma_segments_then(a.skip(n), seg, quant);
        let both = a + seg;
        assert(both[0] == a[0] && both[1] == a[1] && both[2] == a[2] && both[3] == a[3]);
        assert(segments::be16(both, 2) == segments::be16(a, 2));
        assert(both.skip(n) =~= a.skip(n) + seg);
        assert(segments_of(both.skip(2 + segments::be16(both, 2)), quant));
    }
}

/// Reading over segments for the head adds them to the head.
proof fn lemma_pass_head(out: Seq<u8>, p: int, g: Gathered, bytes: Seq<u8>)
    requires
        0 <= p,
        p + bytes.len() <= out.len(),
        out.subrange(p, p + bytes.len()) == bytes,
        segments_of(bytes, false),
    ensures
        recode::segments_from(out, p, g) == recode::segments_from(
            out,
            p + bytes.len(),
            Gathered { head: g.head + bytes, ..g },
        ),
    decreases bytes.len(),
{
    if bytes.len() == 0 {
        assert(g.head + bytes =~= g.head);
        assert(Gathered { head: g.head + bytes, ..g } == g);
    } else {
        let n = 2 + segments::be16(bytes, 2);
        let seg = bytes.subrange(0, n);
        let rest = bytes.skip(n);
        assert(seg[2] == bytes[2] && seg[3] == bytes[3]);
        assert(out.subrange(p, p + seg.len()) =~= seg);
        lemma_segment_at(out, p, seg);
        let g1 = Gathered { head: g.head + seg, ..g };
        assert(out.subrange(p + n, p + n + rest.len()) =~= rest);
        lemma_pass_head(out, p + n, g1, rest);
        assert(g1.head + rest =~= g.head + bytes);
    }
}

/// Reading over quantisation table segments adds them to the tables kept.
proof fn lemma_pass_quant(out: Seq<u8>, p: int, g: Gathered, bytes: Seq<u8>)
    requires
        0 <= p,
        p + bytes.len() <= out.len(),
        out.subrange(p, p + bytes.len()) == bytes,
        segments_of(bytes, true),
    ensures
        recode::segments_from(out, p, g) == recode::segments_from(
            out,
            p + bytes.len(),
            Gathered { quant: g.quant + bytes, ..g },
        ),
    decreases bytes.len(),
{
    if bytes.len() == 0 {
        assert(g.quant + bytes =~= g.quant);
        assert(Gathered { quant: g.quant + bytes, ..g } == g);
    } else {
        let n = 2 + segments::be16(bytes, 2);
        let seg = bytes.subrange(0, n);
        let rest = bytes.skip(n);
        assert(seg[2] == bytes[2] && seg[3] == bytes[3]);
        assert(out.subrange(p, p + seg.len()) =~= seg);
        lemma_segment_at(out, p, seg);
        let g1 = Gathered { quant: g.quant + seg, ..g };
        assert(out.subrange(p + n, p + n + rest.len()) =~= rest);
        lemma_pass_quant(out, p + n, g1, rest);
        assert(g1.quant + rest =~= g.quant + bytes);
    }
}


/// Reading over a frame header adds it and its frame.
proof fn lemma_pass_frame(out: Seq<u8>, p: int, g: Gathered, fb: Seq<u8>, f: (Seq<Component>, int, int))
    requires
        0 <= p,
        p + fb.len() <= out.len(),
        out.subrange(p, p + fb.len()) == fb,
        one_segment(fb),
        fb[1] == 0xC0,
        g.frame is None,
        segments::frame_of(body_of(fb)) == Ok::<(Seq<Component>, int, int), Seq<char>>(f),
    ensures
        recode::segments_from(out, p, g) == recode::segments_from(
            out,
            p + fb.len(),
            Gathered { frame_bytes: g.frame_bytes + fb, frame: Some(f), ..g },
        ),
{
    lemma_segment_at(out, p, fb);
}

/// A table the recoder can write: sixteen counts whose codes fit their lengths, and as many
/// symbols as they announce.
pub open spec fn writable(t: CodeView) -> bool {
    &&& t.0.len() == 16
    &&& table::total_codes(t.0) == t.1.len()
    &&& kraft::proper_code(t.0)
}

/// The DHT segment written for a table is one segment, and reading it puts that table
/// in its slot.
proof fn lemma_pass_table(out: Seq<u8>, p: int, g: Gathered, slot: int, t: CodeView)
    requires
        0 <= slot < 8,
        writable(t),
        0 <= p,
        p + segments::dht_segment(slot, t).len() <= out.len(),
        out.subrange(p, p + segments::dht_segment(slot, t).len()) == segments::dht_segment(slot, t),
    ensures
        recode::segments_from(out, p, g) == recode::segments_from(
            out,
            p + segments::dht_segment(slot, t).len(),
            Gathered { tables: g.tables.update(slot, Some(t)), ..g },
        ),
{
    let d = segments::dht_segment(slot, t);
    let n = 19 + t.1.len();
    table::lemma_first_code_capped(t.0, 17);
    assert(n < 65536);
    let byte = ((slot / 4) * 16 + slot % 4) as u8;
    assert(d[2] == (n / 256) as u8 && d[3] == (n % 256) as u8 && d[4] == byte);
    assert(segments::be16(d, 2) == n);
    assert(one_segment(d));
    lemma_segment_at(out, p, d);
    let body = body_of(d);
    assert(body[0] == byte);
    if slot < 4 {
        assert(byte == slot);
    } else {
        assert(byte == 16 + slot - 4);
    }
    assert(byte / 16 == slot / 4 && byte % 16 == slot % 4);
    assert(body.subrange(1, 17) =~= t.0);
    assert(body.subrange(17, 17 + t.1.len() as int) =~= t.1);
    assert(body.len() == 17 + t.1.len());
    assert((byte / 16) * 4 + byte % 16 == slot);
    assert(segments::dht_from(body, 17 + t.1.len() as int, g.tables.update(slot, Some(t))) == Ok::<
        Seq<Option<CodeView>>,
        Seq<char>,
    >(g.tables.update(slot, Some(t))));
    assert(segments::dht_from(body, 0, g.tables) == Ok::<Seq<Option<CodeView>>, Seq<char>>(
        g.tables.update(slot, Some(t)),
    ));
}

/// Reading a scan header once the frame is known ends the reading there.
proof fn lemma_read_sos(
    out: Seq<u8>,
    p: int,
    g: Gathered,
    sos: Seq<u8>,
    f: (Seq<Component>, int, int),
    comps: Seq<Component>,
)
    requires
        0 <= p,
        p + sos.len() <= out.len(),
        out.subrange(p, p + sos.len()) == sos,
        one_segment(sos),
        sos[1] == 0xDA,
        g.frame == Some(f),
        segments::scan_header_of(body_of(sos), f.0) == Ok::<Seq<Component>, Seq<char>>(comps),
    ensures
        recode::segments_from(out, p, g) == Ok::<(Gathered, int, int), Seq<char>>(
            (Gathered { frame: Some((comps, f.1, f.2)), ..g }, p, segments::be16(sos, 2)),
        ),
{
    lemma_segment_at(out, p, sos);
}

/// The tables the first `n` slots of `order` put in place over `base`: each slot at
/// its first appearance, if it holds a table.
pub open spec fn tables_in(
    order: Seq<usize>,
    n: int,
    cv: Seq<Option<CodeView>>,
    base: Seq<Option<CodeView>>,
) -> Seq<Option<CodeView>>
    decreases n,
{
    if n <= 0 {
        base
    } else {
        let prev = tables_in(order, n - 1, cv, base);
        let slot = order[n - 1];
        if !order.take(n - 1).contains(slot) && cv[slot as int] is Some {
            prev.update(slot as int, cv[slot as int])
        } else {
            prev
        }
    }
}

/// Reading the DHT segments written for the first `n` slots of `order` puts their
/// tables in place.
proof fn lemma_pass_tables(
    out: Seq<u8>,
    p: int,
    g: Gathered,
    order: Seq<usize>,
    n: int,
    cv: Seq<Option<CodeView>>,
)
    requires
        0 <= n <= order.len(),
        forall|j: int| 0 <= j < order.len() ==> (#[trigger] order[j]) < 8,
        forall|s: int| 0 <= s < 8 ==> (#[trigger] cv[s] matches Some(t) ==> writable(t)),
        0 <= p,
        p + segments::tables_out(order, n, cv).len() <= out.len(),
        out.subrange(p, p + segments::tables_out(order, n, cv).len()) == segments::tables_out(order, n, cv),
    ensures
        recode::segments_from(out, p, g) == recode::segments_from(
            out,
            p + segments::tables_out(order, n, cv).len(),
            Gathered { tables: tables_in(order, n, cv, g.tables), ..g },
        ),
    decreases n,
{
    if n == 0 {
        assert(Gathered { tables: tables_in(order, n, cv, g.tables), ..g } == g);
    } else {
        let before = segments::tables_out(order, n - 1, cv);
        let slot = order[n - 1];
        let done = order.take(n - 1).contains(slot);
        let last = segments::table_out(done, slot, cv);
        assert(segments::tables_out(order, n, cv) == before + last);
        assert(out.subrange(p, p + before.len()) =~= before);
        lemma_pass_tables(out, p, g, order, n - 1, cv);
        let g1 = Gathered { tables: tables_in(order, n - 1, cv, g.tables), ..g };
        if !done && cv[slot as int] is Some {
            let t = cv[slot as int].unwrap();
            assert(last == segments::dht_segment(slot as int, t));
            let whole = out.subrange(p, p + before.len() + last.len());
            assert(whole == before + last);
            assert forall|k: int| 0 <= k < last.len() implies out.subrange(
                p + before.len(),
                p + before.len() + last.len(),
            )[k] == last[k] by {
                assert(whole[before.len() + k] == last[k]);
            }
            assert(out.subrange(p + before.len(), p + before.len() + last.len()) =~= last);
            lemma_pass_table(out, p + before.len(), g1, slot as int, t);
        } else {
            assert(last =~= Seq::<u8>::empty());
        }
    }
}

/// What the slots hold once the tables are read: the table of every slot `order`
/// names that holds one, and `base` elsewhere.
proof fn lemma_tables_in(order: Seq<usize>, n: int, cv: Seq<Option<CodeView>>, base: Seq<Option<CodeView>>, s: int)
    requires
        0 <= n <= order.len(),
        base.len() <= usize::MAX,
        forall|j: int| 0 <= j < order.len() ==> (#[trigger] order[j] as int) < base.len(),
        0 <= s < base.len(),
    ensures
        tables_in(order, n, cv, base).len() == base.len(),
        tables_in(order, n, cv, base)[s] == (if order.take(n).contains(s as usize) && cv[s] is Some {
            cv[s]
        } else {
            base[s]
        }),
    decreases n,
{
    if n == 0 {
        assert(order.take(0) =~= Seq::<usize>::empty());
    } else {
        lemma_tables_in(order, n - 1, cv, base, s);
        let slot = order[n - 1];
        lemma_tables_in(order, n - 1, cv, base, slot as int);
        let now = order.take(n);
        let before = order.take(n - 1);
        assert(now =~= before.push(slot));
        assert(now.contains(s as usize) <==> (before.contains(s as usize) || slot as int == s)) by {
            if now.contains(s as usize) && !before.contains(s as usize) {
                let j = choose|j: int| 0 <= j < now.len() && #[trigger] now[j] == s as usize;
                if j < n - 1 {
                    assert(before[j] == now[j]);
                    assert(before.contains(s as usize));
                } else {
                    assert(now[j] == slot);
                }
            }
            if before.contains(s as usize) {
                let j = choose|j: int| 0 <= j < before.len() && #[trigger] before[j] == s as usize;
                assert(now[j] == s as usize);
            }
            if slot as int == s {
                assert(now[n - 1] == slot);
            }
        }
    }
}


/// What has been gathered keeps its shape: the head and the quantisation tables are
/// whole segments, and the frame header, once there is one, is one segment that reads
/// as the frame.
pub open spec fn gathered_shape(g: Gathered) -> bool {
    &&& segments_of(g.head, false)
    &&& segments_of(g.quant, true)
    &&& match g.frame {
        None => g.frame_bytes.len() == 0,
        Some(f) => one_segment(g.frame_bytes) && g.frame_bytes[1] == 0xC0 && segments::frame_of(
            body_of(g.frame_bytes),
        ) == Ok::<(Seq<Component>, int, int), Seq<char>>(f),
    }
}

/// What reading a page up to its scan header gathered: the head and quantisation
/// segments in shape, one frame header read as some frame, and a scan header at `at`
/// that names the components' tables of that frame.
pub open spec fn read_up_to_scan(jpeg: Seq<u8>, g: Gathered, at: int, len: int) -> bool {
    let sos = jpeg.subrange(at, at + 2 + len);
    &&& segments_of(g.head, false)
    &&& segments_of(g.quant, true)
    &&& one_segment(g.frame_bytes)
    &&& g.frame_bytes[1] == 0xC0
    &&& 0 <= at
    &&& at + 2 + len <= jpeg.len()
    &&& one_segment(sos)
    &&& sos[1] == 0xDA
    &&& segments::be16(sos, 2) == len
    &&& segments::frame_of(body_of(g.frame_bytes)) matches Ok(f0) && segments::scan_header_of(body_of(sos), f0.0) matches Ok(
        comps,
    ) && g.frame == Some((comps, f0.1, f0.2))
}

/// Reading a page's segments keeps what it gathers in shape.
proof fn lemma_gathered_shape(jpeg: Seq<u8>, at: int, g: Gathered)
    requires
        recode::segments_from(jpeg, at, g) is Ok,
        gathered_shape(g),
    ensures
        recode::segments_from(jpeg, at, g) matches Ok((g2, a2, l2)) && read_up_to_scan(jpeg, g2, a2, l2),
    decreases jpeg.len() - at,
{
    let marker = jpeg[at + 1];
    let len = segments::be16(jpeg, at + 2);
    let segment = jpeg.subrange(at, at + 2 + len);
    let body = jpeg.subrange(at + 4, at + 2 + len);
    let next = at + 2 + len;
    assert(segment[0] == jpeg[at] && segment[1] == marker && segment[2] == jpeg[at + 2] && segment[3] == jpeg[at + 3]);
    assert(one_segment(segment));
    assert(body_of(segment) =~= body);
    if marker == 0xC4 {
        match segments::dht_from(body, 0, g.tables) {
            Ok(t) => {
                lemma_gathered_shape(jpeg, next, Gathered { tables: t, ..g });
            },
            Err(_) => {},
        }
    } else if marker == 0xDB {
        lemma_segments_then(g.quant, segment, true);
        lemma_gathered_shape(jpeg, next, Gathered { quant: g.quant + segment, ..g });
    } else if marker == 0xC0 {
        match segments::frame_of(body) {
            Ok(f) => {
                assert(g.frame_bytes + segment =~= segment);
                lemma_gathered_shape(
                    jpeg,
                    next,
                    Gathered { frame_bytes: g.frame_bytes + segment, frame: Some(f), ..g },
                );
            },
            Err(_) => {},
        }
    } else if marker == 0xDA {
        assert(segments::be16(segment, 2) == len);
    } else if marker == 0xDD || (0xC1 <= marker && marker <= 0xCF) {
    } else {
        assert(head_marker(marker));
        lemma_segments_then(g.head, segment, false);
        lemma_gathered_shape(jpeg, next, Gathered { head: g.head + segment, ..g });
    }
}


/// A slot the new tables fill is one the components name, so its table goes out.
proof fn lemma_fresh_slot_goes_out(
    events: Seq<Event>,
    fresh: Seq<Option<Table>>,
    comps: Seq<Component>,
    s: int,
)
    requires
        0 <= s < 8,
        replay::named_by(events, comps),
        fresh[s] is Some ==> recode::slot_used(events, s),
    ensures
        fresh[s] is Some ==> segments::slot_order(comps).take(2 * comps.len() as int).contains(s as usize),
{
    if fresh[s] is Some {
        let k = choose|k: int| 0 <= k < 257 && #[trigger] scan::histogram(events, s * 257 + k) > 0;
        replay::lemma_histogram_found(events, s * 257 + k);
        let i = choose|i: int| 0 <= i < events.len() && #[trigger] events[i].0 * 257 + events[i].1 == s * 257 + k;
        let e = events[i];
        assert(e.0 == s) by (nonlinear_arith)
            requires
                e.0 * 257 + e.1 == s * 257 + k,
                0 <= e.1 < 256,
                0 <= k < 257,
                0 <= e.0,
                0 <= s,
        {
            if e.0 > s {
                assert(e.0 * 257 >= s * 257 + 257);
            } else if e.0 < s {
                assert(s * 257 >= e.0 * 257 + 257);
            }
        }
        assert(replay::names_slot(comps, events[i].0));
        let j = choose|j: int| 0 <= j < comps.len() && ((#[trigger] comps[j]).dc == e.0 || comps[j].ac == e.0);
        let order = segments::slot_order(comps);
        assert(order.take(2 * comps.len() as int) =~= order);
        if comps[j].dc == e.0 {
            assert(order[2 * j] == s as usize);
        } else {
            assert(order[2 * j + 1] == s as usize);
        }
    }
}

/// A file made of the SOI marker, head segments, quantisation tables, a frame header,
/// DHT segments, a scan header and whatever follows reads up to its scan header as
/// exactly those parts.
proof fn lemma_read_output(
    out: Seq<u8>,
    head: Seq<u8>,
    quant: Seq<u8>,
    fb: Seq<u8>,
    f0: (Seq<Component>, int, int),
    order: Seq<usize>,
    n: int,
    cv: Seq<Option<CodeView>>,
    sos: Seq<u8>,
    comps0: Seq<Component>,
    tail: Seq<u8>,
)
    requires
        segments_of(head, false),
        segments_of(quant, true),
        one_segment(fb),
        fb[1] == 0xC0,
        segments::frame_of(body_of(fb)) == Ok::<(Seq<Component>, int, int), Seq<char>>(f0),
        0 <= n <= order.len(),
        forall|j: int| 0 <= j < order.len() ==> (#[trigger] order[j]) < 8,
        forall|s: int| 0 <= s < 8 ==> (#[trigger] cv[s] matches Some(t) ==> writable(t)),
        one_segment(sos),
        sos[1] == 0xDA,
        segments::scan_header_of(body_of(sos), f0.0) == Ok::<Seq<Component>, Seq<char>>(comps0),
        out == seq![0xFFu8, 0xD8u8] + head + quant + fb + segments::tables_out(order, n, cv) + sos + tail,
    ensures
        recode::segments_from(out, 2, recode::nothing_gathered()) == Ok::<(Gathered, int, int), Seq<char>>(
            (
                Gathered {
                    head,
                    quant,
                    frame_bytes: fb,
                    frame: Some((comps0, f0.1, f0.2)),
                    tables: tables_in(order, n, cv, recode::nothing_gathered().tables),
                },
                2 + head.len() + quant.len() + fb.len() + segments::tables_out(order, n, cv).len() as int,
                segments::be16(sos, 2),
            ),
        ),
{
    let tabs = segments::tables_out(order, n, cv);
    let p1: int = 2 + head.len() as int;
    let p2: int = p1 + quant.len();
    let p3: int = p2 + fb.len();
    let p4: int = p3 + tabs.len();
    let nothing = recode::nothing_gathered();
    assert(out.subrange(2, p1) =~= head);
    assert(out.subrange(p1, p2) =~= quant);
    assert(out.subrange(p2, p3) =~= fb);
    assert(out.subrange(p3, p4) =~= tabs);
    assert(out.subrange(p4, p4 + sos.len() as int) =~= sos);
    let g1 = Gathered { head: nothing.head + head, ..nothing };
    lemma_pass_head(out, 2, nothing, head);
    let g2 = Gathered { quant: g1.quant + quant, ..g1 };
    lemma_pass_quant(out, p1, g1, quant);
    let g3 = Gathered { frame_bytes: g2.frame_bytes + fb, frame: Some(f0), ..g2 };
    lemma_pass_frame(out, p2, g2, fb, f0);
    let g4 = Gathered { tables: tables_in(order, n, cv, g3.tables), ..g3 };
    lemma_pass_tables(out, p3, g3, order, n, cv);
    lemma_read_sos(out, p4, g4, sos, f0, comps0);
    assert(nothing.head + head =~= head);
    assert(nothing.quant + quant =~= quant);
    assert(nothing.frame_bytes + fb =~= fb);
}

/// The tables read back from a rehuffed file are the new tables: every slot the
/// new tables fill is one the components name, so its table went out.
proof fn lemma_tables_come_back(events: Seq<Event>, fresh: Seq<Option<Table>>, comps: Seq<Component>)
    requires
        fresh.len() == 8,
        replay::named_by(events, comps),
        forall|s: int| 0 <= s < 8 ==> ((#[trigger] fresh[s]) is Some ==> recode::slot_used(events, s)),
        forall|j: int| 0 <= j < segments::slot_order(comps).len() ==> (#[trigger] segments::slot_order(comps)[j]) < 8,
    ensures
        tables_in(
            segments::slot_order(comps),
            2 * comps.len() as int,
            scan::codes_view(fresh),
            recode::nothing_gathered().tables,
        ) == scan::codes_view(fresh),
{
    let order = segments::slot_order(comps);
    let n = 2 * comps.len() as int;
    let cv = scan::codes_view(fresh);
    let base = recode::nothing_gathered().tables;
    assert forall|s: int| 0 <= s < 8 implies tables_in(order, n, cv, base)[s] == cv[s] by {
        lemma_tables_in(order, n, cv, base, s);
        lemma_fresh_slot_goes_out(events, fresh, comps, s);
    }
    lemma_tables_in(order, n, cv, base, 0);
    assert(tables_in(order, n, cv, base) =~= cv);
}

/// Rehuffing keeps the picture, read as a whole file: the file that comes back, read
/// segment by segment the way the recoder reads a page, gives the same frame and scan
/// header and exactly the new tables, and its scan, read with them, gives the same
/// symbols and raw bits, in the same order, as the page's own scan.
#[verifier::rlimit(60)]
#[verifier::spinoff_prover]
pub proof fn lemma_rehuffed_file_reads_the_same(
    jpeg: Seq<u8>,
    g: Gathered,
    at: int,
    len: int,
    events: Seq<Event>,
    end: int,
    out: Seq<u8>,
    fresh: Seq<Option<Table>>,
)
    requires
        recode::segments_from(jpeg, 2, recode::nothing_gathered()) == Ok::<(Gathered, int, int), Seq<char>>(
            (g, at, len),
        ),
        scan::rows_walk(
            g.frame.unwrap().2 as nat,
            g.frame.unwrap().1 as nat,
            g.frame.unwrap().0,
            g.tables,
            bits::destuff_from(jpeg.subrange(at + 2 + len, jpeg.len() as int), 0),
            bits::ends_at_marker(jpeg.subrange(at + 2 + len, jpeg.len() as int), 0),
            0,
        ) == Walk::Done(events, end),
        recode::written_with(
            out,
            recode::copied_before(g),
            g.frame.unwrap().0,
            jpeg.subrange(at, at + 2 + len),
            events,
            fresh,
        ),
    ensures
        out.len() >= 2 && out[0] == 0xFF && out[1] == 0xD8,
        recode::segments_from(out, 2, recode::nothing_gathered()) matches Ok((g2, at2, len2)) && g2.frame == g.frame
            && g2.head == g.head && g2.quant == g.quant && g2.frame_bytes == g.frame_bytes
            && out.subrange(at2, at2 + 2 + len2) == jpeg.subrange(at, at + 2 + len)
            && g2.tables == scan::codes_view(fresh) && scan::rows_walk(
            g.frame.unwrap().2 as nat,
            g.frame.unwrap().1 as nat,
            g.frame.unwrap().0,
            g2.tables,
            bits::destuff_from(out.subrange(at2 + 2 + len2, out.len() as int), 0),
            bits::ends_at_marker(out.subrange(at2 + 2 + len2, out.len() as int), 0),
            0,
        ) == Walk::Done(events, scan::encode(events, fresh).len() as int),
{
    let f = g.frame.unwrap();
    let comps = f.0;
    let sos = jpeg.subrange(at, at + 2 + len);
    let before = recode::copied_before(g);
    let cv = scan::codes_view(fresh);
    let order = segments::slot_order(comps);
    let n = 2 * comps.len() as int;
    let tabs = segments::tables_out(order, n, cv);
    let tail = bits::stuff(bits::pack(recode::padded(scan::encode(events, fresh)))) + seq![0xFFu8, 0xD9u8];
    let nothing = recode::nothing_gathered();
    replay::lemma_rehuffed_scan_reads_the_same(jpeg, g, at, len, events, end, out, fresh);
    assert(gathered_shape(nothing)) by {
        assert(segments_of(nothing.head, false));
        assert(segments_of(nothing.quant, true));
    }
    lemma_gathered_shape(jpeg, 2, nothing);
    replay::lemma_segments_sound(jpeg, 2, nothing);
    let f0 = segments::frame_of(body_of(g.frame_bytes))->Ok_0;
    let comps0 = segments::scan_header_of(body_of(sos), f0.0)->Ok_0;
    assert(out == seq![0xFFu8, 0xD8u8] + g.head + g.quant + g.frame_bytes + tabs + sos + tail);
    assert(forall|j: int| 0 <= j < order.len() ==> (#[trigger] order[j]) < 8) by {
        assert(replay::comps_sound(comps));
    }
    assert(forall|s: int| 0 <= s < 8 ==> (#[trigger] cv[s] matches Some(t) ==> writable(t))) by {
        assert forall|s: int| 0 <= s < 8 implies (#[trigger] cv[s] matches Some(t) ==> writable(t)) by {
            if fresh[s] is Some {
                assert(fresh[s].unwrap().wf());
            }
        }
    }
    lemma_read_output(out, g.head, g.quant, g.frame_bytes, f0, order, n, cv, sos, comps0, tail);
    replay::lemma_rows_named(
        f.2 as nat,
        f.1 as nat,
        comps,
        g.tables,
        bits::destuff_from(jpeg.subrange(at + 2 + len, jpeg.len() as int), 0),
        bits::ends_at_marker(jpeg.subrange(at + 2 + len, jpeg.len() as int), 0),
        0,
    );
    lemma_tables_come_back(events, fresh, comps);
    let p4 = 2 + g.head.len() + g.quant.len() + g.frame_bytes.len() + tabs.len();
    assert(out.subrange(p4 + 2 + len, out.len() as int) =~= replay::scan_part(out, before, comps, sos, fresh));
    assert(out.subrange(p4 as int, p4 + 2 + len) == sos) by {
        assert(segments::be16(sos, 2) == len);
        assert(out.subrange(p4 as int, p4 + 2 + len) =~= sos);
    }
}

/// Two sequences of symbols, each in libjpeg's order for depths `cs` and each holding
/// the same symbols, are one and the same sequence.
proof fn lemma_same_order(cs: Seq<u16>, a: Seq<u8>, b: Seq<u8>)
    requires
        forall|i: int, j: int| 0 <= i < j < a.len() ==> optimal::placed_before(cs, #[trigger] a[i], #[trigger] a[j]),
        forall|i: int, j: int| 0 <= i < j < b.len() ==> optimal::placed_before(cs, #[trigger] b[i], #[trigger] b[j]),
        forall|x: u8| a.contains(x) <==> b.contains(x),
    ensures
        a == b,
    decreases a.len() + b.len(),
{
    if a.len() == 0 {
        if b.len() > 0 {
            assert(b.contains(b[0]));
        }
        assert(a =~= b);
    } else if b.len() == 0 {
        assert(a.contains(a[0]));
    } else {
        assert(a.contains(a[0]));
        assert(b.contains(b[0]));
        let k = choose|k: int| 0 <= k < b.len() && b[k] == a[0];
        let m = choose|m: int| 0 <= m < a.len() && a[m] == b[0];
        if k > 0 && m > 0 {
            assert(optimal::placed_before(cs, b[0], b[k]));
            assert(optimal::placed_before(cs, a[0], a[m]));
        }
        assert(a[0] == b[0]) by {
            if k > 0 && m == 0 {
            } else if k == 0 {
            }
        }
        let a1 = a.drop_first();
        let b1 = b.drop_first();
        assert forall|x: u8| a1.contains(x) <==> b1.contains(x) by {
            if a1.contains(x) {
                let i = choose|i: int| 0 <= i < a1.len() && a1[i] == x;
                assert(a[i + 1] == x);
                assert(optimal::placed_before(cs, a[0], a[i + 1]));
                assert(b.contains(x));
                let j = choose|j: int| 0 <= j < b.len() && b[j] == x;
                assert(j != 0);
                assert(b1[j - 1] == x);
            }
            if b1.contains(x) {
                let i = choose|i: int| 0 <= i < b1.len() && b1[i] == x;
                assert(b[i + 1] == x);
                assert(optimal::placed_before(cs, b[0], b[i + 1]));
                assert(a.contains(x));
                let j = choose|j: int| 0 <= j < a.len() && a[j] == x;
                assert(j != 0);
                assert(a1[j - 1] == x);
            }
        }
        assert forall|i: int, j: int| 0 <= i < j < a1.len() implies optimal::placed_before(
            cs,
            #[trigger] a1[i],
            #[trigger] a1[j],
        ) by {
            assert(a1[i] == a[i + 1] && a1[j] == a[j + 1]);
        }
        assert forall|i: int, j: int| 0 <= i < j < b1.len() implies optimal::placed_before(
            cs,
            #[trigger] b1[i],
            #[trigger] b1[j],
        ) by {
            assert(b1[i] == b[i + 1] && b1[j] == b[j + 1]);
        }
        lemma_same_order(cs, a1, b1);
        assert(a =~= b) by {
            assert forall|i: int| 0 <= i < a.len() implies a[i] == b[i] by {
                if i > 0 {
                    assert(a[i] == a1[i - 1] && b[i] == b1[i - 1]);
                }
            }
        }
    }
}

/// Two new tables built for the same slot from the same events have the same counts,
/// symbols and code words.
proof fn lemma_one_table_per_slot(t1: Table, t2: Table, events: Seq<Event>, slot: int)
    requires
        t1.wf(),
        t2.wf(),
        recode::fits_slot(t1, events, slot),
        recode::fits_slot(t2, events, slot),
    ensures
        t1.counts@ == t2.counts@,
        t1.symbols@ == t2.symbols@,
        t1.codes@ == t2.codes@,
{
    let cs = super::optimal::huffman_depths_of(recode::slot_counts_of(events, slot));
    assert forall|x: u8| t1.symbols@.contains(x) <==> t2.symbols@.contains(x) by {
        if t1.symbols@.contains(x) {
            let i = choose|i: int| 0 <= i < t1.symbols@.len() && t1.symbols@[i] == x;
            assert(scan::histogram(events, slot * 257 + t1.symbols@[i]) > 0);
            assert(t2.symbols@.contains((x as int) as u8));
        }
        if t2.symbols@.contains(x) {
            let i = choose|i: int| 0 <= i < t2.symbols@.len() && t2.symbols@[i] == x;
            assert(scan::histogram(events, slot * 257 + t2.symbols@[i]) > 0);
            assert(t1.symbols@.contains((x as int) as u8));
        }
    }
    lemma_same_order(cs, t1.symbols@, t2.symbols@);
    assert forall|i: int| 0 <= i < 256 implies t1.codes@[i] == t2.codes@[i] by {
        let x = i as u8;
        assert(t1.codes@[x as int] == table::code_of(t1.counts@, t1.symbols@, x, t1.symbols@.len() as int));
        assert(t2.codes@[x as int] == table::code_of(t2.counts@, t2.symbols@, x, t2.symbols@.len() as int));
    }
    assert(t1.codes@ =~= t2.codes@);
}

/// Events written with two sets of new tables that agree slot by slot come out as
/// the same bits.
proof fn lemma_encode_same(events: Seq<Event>, f1: Seq<Option<Table>>, f2: Seq<Option<Table>>)
    requires
        replay::slots_below(events, 8),
        forall|s: int|
            0 <= s < 8 ==> ((#[trigger] f1[s] is None && f2[s] is None) || (f1[s] is Some && f2[s] is Some
                && f1[s].unwrap().codes@ == f2[s].unwrap().codes@)),
    ensures
        scan::encode(events, f1) == scan::encode(events, f2),
    decreases events.len(),
{
    if events.len() > 0 {
        let e = events.last();
        assert(events[events.len() - 1] == e);
        assert(replay::slots_below(events.drop_last(), 8)) by {
            assert forall|i: int| 0 <= i < events.drop_last().len() implies ((#[trigger] events.drop_last()[i]).0 as int)
                < 8 by {
                assert(events.drop_last()[i] == events[i]);
            }
        }
        lemma_encode_same(events.drop_last(), f1, f2);
        let s = e.0 as int;
        assert(f1[s] is None ==> f1[s] == f2[s]);
    }
}

/// Rehuffing settles: a page that comes back from the recoder comes back again,
/// byte for byte the same, when it is recoded a second time. Its scan reads the same
/// symbols, which count the same, which build the same tables. `first` and `second`
/// are what two calls of `rehuff` return, the second on the bytes of the first:
/// `rehuff_result` is exactly what `rehuff` ensures of its result.
pub proof fn lemma_rehuff_settles(jpeg: Seq<u8>, first: Result<Vec<u8>, String>, second: Result<Vec<u8>, String>)
    requires
        recode::rehuff_result(jpeg, first),
        first is Ok,
        recode::rehuff_result(first->Ok_0@, second),
    ensures
        second matches Ok(again) && again@ == first->Ok_0@,
{
    let out = first->Ok_0@;
    let nothing = recode::nothing_gathered();
    let (g, at, len) = recode::segments_from(jpeg, 2, nothing)->Ok_0;
    let f = g.frame.unwrap();
    let scan_in = jpeg.subrange(at + 2 + len, jpeg.len() as int);
    let walk = scan::rows_walk(
        f.2 as nat,
        f.1 as nat,
        f.0,
        g.tables,
        bits::destuff_from(scan_in, 0),
        bits::ends_at_marker(scan_in, 0),
        0,
    );
    let events = walk->Done_0;
    let end = walk->Done_1;
    let sos = jpeg.subrange(at, at + 2 + len);
    let before = recode::copied_before(g);
    assert(recode::recoded(out, before, f.0, sos, events));
    let fresh = choose|fresh: Seq<Option<Table>>| #[trigger] recode::written_with(out, before, f.0, sos, events, fresh);
    lemma_rehuffed_file_reads_the_same(jpeg, g, at, len, events, end, out, fresh);
    let (g2, at2, len2) = recode::segments_from(out, 2, nothing)->Ok_0;
    assert(recode::copied_before(g2) == before);
    let again = second->Ok_0@;
    assert(second is Ok);
    assert(recode::recoded(again, before, f.0, sos, events));
    let fresh2 = choose|fresh2: Seq<Option<Table>>| #[trigger] recode::written_with(again, before, f.0, sos, events, fresh2);
    replay::lemma_segments_sound(jpeg, 2, nothing);
    replay::lemma_rows_slots(
        f.2 as nat,
        f.1 as nat,
        f.0,
        g.tables,
        bits::destuff_from(scan_in, 0),
        bits::ends_at_marker(scan_in, 0),
        0,
    );
    assert forall|s: int|
        0 <= s < 8 implies ((#[trigger] fresh[s] is None && fresh2[s] is None) || (fresh[s] is Some
        && fresh2[s] is Some && fresh[s].unwrap().codes@ == fresh2[s].unwrap().codes@)) by {
        if fresh[s] is Some {
            lemma_one_table_per_slot(fresh[s].unwrap(), fresh2[s].unwrap(), events, s);
        }
    }
    lemma_encode_same(events, fresh, fresh2);
    assert(scan::codes_view(fresh) =~= scan::codes_view(fresh2)) by {
        assert forall|s: int| 0 <= s < 8 implies scan::codes_view(fresh)[s] == scan::codes_view(fresh2)[s] by {
            if fresh[s] is Some {
                lemma_one_table_per_slot(fresh[s].unwrap(), fresh2[s].unwrap(), events, s);
            }
        }
    }
    assert(again =~= out);
}

} // verus!
