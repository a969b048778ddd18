//! Rewriting the entropy coding of a baseline JPEG with Huffman tables counted from
//! the page itself.
//!
//! The picture does not change: every symbol of the scan, and the raw bits after
//! it, is carried over as it is, only written with other code words. The scan is
//! walked twice rather than decoded into coefficients and held: once to count the
//! symbols, once to write them with the new tables.

use vstd::prelude::*;
use super::bits;
use super::kraft;
use super::optimal;
use super::replay;
use super::scan::{self, CodeView, Component, Event, Frame, Sink, Walk, SLOT_SYMBOLS, TABLE_SLOTS};
use super::segments;
use super::table::Table;

verus! {

/// What the segments before the scan have given so far: the segments copied as
/// they are (everything else, then the quantisation tables, then the frame
/// header), the frame, and the Huffman tables the scan is coded in.
#[verifier::ext_equal]
pub struct Gathered {
    pub head: Seq<u8>,
    pub quant: Seq<u8>,
    pub frame_bytes: Seq<u8>,
    pub frame: Option<(Seq<Component>, int, int)>,
    pub tables: Seq<Option<CodeView>>,
}

/// Nothing read yet: no segments, no frame, eight empty table slots.
pub open spec fn nothing_gathered() -> Gathered {
    Gathered {
        head: seq![],
        quant: seq![],
        frame_bytes: seq![],
        frame: None,
        tables: Seq::new(TABLE_SLOTS as nat, |i: int| None),
    }
}

pub open spec fn not_jpeg_sentence() -> Seq<char> {
    "This page does not start with a JPEG marker."@
}

pub open spec fn ends_before_scan_sentence() -> Seq<char> {
    "The page ends before its scan does."@
}

pub open spec fn stray_marker_sentence() -> Seq<char> {
    "The page holds a marker that cannot stand before a scan."@
}

pub open spec fn no_scan_sentence() -> Seq<char> {
    "The page ends before it has a scan."@
}

pub open spec fn no_length_sentence() -> Seq<char> {
    "A segment of the page has no length."@
}

pub open spec fn runs_past_sentence() -> Seq<char> {
    "A segment of the page runs past the end of the file."@
}

pub open spec fn too_short_sentence() -> Seq<char> {
    "A segment of the page is shorter than its own length."@
}

pub open spec fn two_frames_sentence() -> Seq<char> {
    "The page holds more than one frame header."@
}

pub open spec fn restart_sentence() -> Seq<char> {
    "The page carries restart markers, which this does not read."@
}

pub open spec fn not_baseline_sentence() -> Seq<char> {
    "Only a baseline JPEG can have its Huffman tables rebuilt."@
}

pub open spec fn no_frame_sentence() -> Seq<char> {
    "The page's scan has no frame header before it."@
}

/// Reads the segments from offset `at` up to the scan header. Gives what they
/// hold, with the frame's components carrying the tables the scan header names,
/// and where the scan header stands and its length; or the sentence the page is
/// refused with.
pub open spec fn segments_from(jpeg: Seq<u8>, at: int, g: Gathered) -> Result<(Gathered, int, int), Seq<char>>
    decreases jpeg.len() - at,
{
    if at < 0 || at + 2 > jpeg.len() {
        Err(ends_before_scan_sentence())
    } else if jpeg[at] != 0xFF {
        Err(crate::text::expected_marker_sentence(at as nat))
    } else {
        let marker = jpeg[at + 1];
        if marker == 0x01 || (0xD0 <= marker && marker <= 0xD8) {
            Err(stray_marker_sentence())
        } else if marker == 0xD9 {
            Err(no_scan_sentence())
        } else if at + 4 > jpeg.len() {
            Err(no_length_sentence())
        } else {
            let len = segments::be16(jpeg, at + 2);
            if at + 2 + len > jpeg.len() {
                Err(runs_past_sentence())
            } else if len < 2 {
                Err(too_short_sentence())
            } else {
                let segment = jpeg.subrange(at, at + 2 + len);
                let body = jpeg.subrange(at + 4, at + 2 + len);
                let next = at + 2 + len;
                if marker == 0xC4 {
                    match segments::dht_from(body, 0, g.tables) {
                        Err(m) => Err(m),
                        Ok(t) => segments_from(
                            jpeg,
                            next,
                            Gathered {
                                head: g.head,
                                quant: g.quant,
                                frame_bytes: g.frame_bytes,
                                frame: g.frame,
                                tables: t,
                            },
                        ),
                    }
                } else if marker == 0xDB {
                    segments_from(
                        jpeg,
                        next,
                        Gathered {
                            head: g.head,
                            quant: g.quant + segment,
                            frame_bytes: g.frame_bytes,
                            frame: g.frame,
                            tables: g.tables,
                        },
                    )
                } else if marker == 0xC0 {
                    if g.frame is Some {
                        Err(two_frames_sentence())
                    } else {
                        match segments::frame_of(body) {
                            Err(m) => Err(m),
                            Ok(f) => segments_from(
                                jpeg,
                                next,
                                Gathered {
                                    head: g.head,
                                    quant: g.quant,
                                    frame_bytes: g.frame_bytes + segment,
                                    frame: Some(f),
                                    tables: g.tables,
                                },
                            ),
                        }
                    }
                } else if marker == 0xDD {
                    Err(restart_sentence())
                } else if 0xC1 <= marker && marker <= 0xCF {
                    Err(not_baseline_sentence())
                } else if marker == 0xDA {
                    match g.frame {
                        None => Err(no_frame_sentence()),
                        Some(f) => match segments::scan_header_of(body, f.0) {
                            Err(m) => Err(m),
                            Ok(comps) => Ok(
                                (
                                    Gathered {
                                        head: g.head,
                                        quant: g.quant,
                                        frame_bytes: g.frame_bytes,
                                        frame: Some((comps, f.1, f.2)),
                                        tables: g.tables,
                                    },
                                    at,
                                    len,
                                ),
                            ),
                        },
                    }
                } else {
                    segments_from(
                        jpeg,
                        next,
                        Gathered {
                            head: g.head + segment,
                            quant: g.quant,
                            frame_bytes: g.frame_bytes,
                            frame: g.frame,
                            tables: g.tables,
                        },
                    )
                }
            }
        }
    }
}

/// What goes out before the new tables: the start of image marker and the
/// segments the recoder copies, each kind in the order it came in.
pub open spec fn copied_before(g: Gathered) -> Seq<u8> {
    seq![0xFFu8, 0xD8u8] + g.head + g.quant + g.frame_bytes
}

/// Whether the scan feeds any symbol to the table of `slot`.
pub open spec fn slot_used(events: Seq<Event>, slot: int) -> bool {
    exists|k: int| 0 <= k < SLOT_SYMBOLS && #[trigger] scan::histogram(events, slot * 257 + k) > 0
}

/// The bits padded to a whole byte with one bits, the way libjpeg does.
pub open spec fn padded(b: Seq<bool>) -> Seq<bool> {
    b + Seq::new(((8 - b.len() % 8) % 8) as nat, |i: int| true)
}

/// A new table for `slot` is the one libjpeg builds from that slot's counts: its
/// code lengths are those Huffman's method and Annex K's trade-down give, it holds
/// exactly the symbols the scan feeds to that slot, each once, shallower first and
/// smaller first among equals, and its code words fill their lengths but for one
/// code word, the all-ones word of the longest length, which stays free.
pub open spec fn fits_slot(t: Table, events: Seq<Event>, slot: int) -> bool {
    &&& t.counts@ == optimal::libjpeg_counts(optimal::huffman_depths_of(slot_counts_of(events, slot)))
    &&& forall|i: int, j: int|
        0 <= i < j < t.symbols@.len() ==> optimal::placed_before(
            optimal::huffman_depths_of(slot_counts_of(events, slot)),
            #[trigger] t.symbols@[i],
            #[trigger] t.symbols@[j],
        )
    &&& kraft::proper_code(t.counts@)
    &&& forall|k: int| 0 <= k < 256 && scan::histogram(events, slot * 257 + k) > 0 ==> #[trigger] t.symbols@.contains(k as u8)
    &&& forall|i: int| 0 <= i < t.symbols@.len() ==> scan::histogram(events, slot * 257 + #[trigger] t.symbols@[i]) > 0
    &&& forall|i: int, j: int| 0 <= i < j < t.symbols@.len() ==> #[trigger] t.symbols@[i] != #[trigger] t.symbols@[j]
    &&& exists|l: int| 1 <= l <= 16 && #[trigger] kraft::one_word_free(t.counts@, l)
}

/// `out` is `before`, then a DHT segment for each new table the components use,
/// then the scan header `sos`, then every event written with the new tables, then
/// the end of image marker; and the new tables are well formed, there is one
/// exactly for each slot the scan feeds, and it holds every symbol fed to it.
pub open spec fn written_with(
    out: Seq<u8>,
    before: Seq<u8>,
    comps: Seq<Component>,
    sos: Seq<u8>,
    events: Seq<Event>,
    fresh: Seq<Option<Table>>,
) -> bool {
    &&& scan::tables_ok(fresh)
    &&& forall|s: int| 0 <= s < TABLE_SLOTS ==> ((#[trigger] fresh[s]) is Some <==> slot_used(events, s))
    &&& forall|s: int| 0 <= s < TABLE_SLOTS ==> (#[trigger] fresh[s] matches Some(t) ==> fits_slot(t, events, s))
    &&& out == before + segments::tables_out(
        segments::slot_order(comps),
        2 * comps.len() as int,
        scan::codes_view(fresh),
    ) + sos + bits::stuff(bits::pack(padded(scan::encode(events, fresh)))) + seq![0xFFu8, 0xD9u8]
}

/// `out` is `before`, the new tables, `sos`, and the events written with those
/// tables, for some new tables of the shape [`written_with`] asks for.
pub open spec fn recoded(out: Seq<u8>, before: Seq<u8>, comps: Seq<Component>, sos: Seq<u8>, events: Seq<Event>) -> bool {
    exists|fresh: Seq<Option<Table>>| #[trigger] written_with(out, before, comps, sos, events, fresh)
}

/// What recoding the page `jpeg` gives: the sentence the header segments are
/// refused with, or the one the scan stops with; and once the scan has walked to its
/// end, either the file, with the same segments in libjpeg's order (APPn and the
/// rest, DQT, SOF0, the new DHTs, SOS) and the same events written with new tables,
/// or, exactly when Huffman's method gives some symbol of some slot a depth past 32
/// bits, the sentence saying so.
pub open spec fn rehuff_result(jpeg: Seq<u8>, res: Result<Vec<u8>, String>) -> bool {
    if jpeg.len() < 2 || jpeg[0] != 0xFF || jpeg[1] != 0xD8 {
        res matches Err(e) && e@ == not_jpeg_sentence()
    } else {
        match segments_from(jpeg, 2, nothing_gathered()) {
            Err(m) => res matches Err(e) && e@ == m,
            Ok((g, at, len)) => {
                let f = g.frame.unwrap();
                let scan = jpeg.subrange(at + 2 + len, jpeg.len() as int);
                match scan::rows_walk(
                    f.2 as nat,
                    f.1 as nat,
                    f.0,
                    g.tables,
                    bits::destuff_from(scan, 0),
                    bits::ends_at_marker(scan, 0),
                    0,
                ) {
                    Walk::Fail(m) => res matches Err(e) && e@ == m,
                    Walk::Done(events, _) => {
                        &&& res is Ok <==> tables_can_be_built(events)
                        &&& res matches Ok(out) ==> recoded(
                            out@,
                            copied_before(g),
                            f.0,
                            jpeg.subrange(at, at + 2 + len),
                            events,
                        )
                        &&& res matches Err(e) ==> e@ == optimal::longer_than_32_sentence()
                    },
                }
            },
        }
    }
}

proof fn lemma_sum_zero(s: Seq<u64>, n: int)
    requires
        0 <= n <= s.len(),
        forall|k: int| 0 <= k < s.len() ==> s[k] == 0,
    ensures
        optimal::sum_u64(s, n) == 0,
    decreases n,
{
    if n > 0 {
        lemma_sum_zero(s, n - 1);
    }
}

proof fn lemma_sum_grows(s: Seq<u64>, a: int, b: int)
    requires
        0 <= a <= b <= s.len(),
    ensures
        0 <= optimal::sum_u64(s, a) <= optimal::sum_u64(s, b),
    decreases b - a,
{
    if a < b {
        lemma_sum_grows(s, a, b - 1);
    } else {
        optimal::lemma_sum_u64_bounds(s, a);
    }
}

/// The sum over a window is the difference of the sums up to its two ends.
proof fn lemma_sum_window(s: Seq<u64>, from: int, to: int, m: int)
    requires
        0 <= from <= to <= s.len(),
        0 <= m <= to - from,
    ensures
        optimal::sum_u64(s.subrange(from, to), m) == optimal::sum_u64(s, from + m) - optimal::sum_u64(s, from),
    decreases m,
{
    if m > 0 {
        lemma_sum_window(s, from, to, m - 1);
    }
}

/// The 257 counters of one table slot.
fn slot_counts(counted: &Vec<u64>, slot: usize) -> (part: Vec<u64>)
    requires
        slot < TABLE_SLOTS,
        counted@.len() == TABLE_SLOTS * SLOT_SYMBOLS,
    ensures
        part@ == counted@.subrange(slot * 257, slot * 257 + 257),
{
    let from = slot * SLOT_SYMBOLS;
    let mut part: Vec<u64> = Vec::new();
    let mut i: usize = from;
    while i < from + SLOT_SYMBOLS
        invariant
            from == slot * 257,
            slot < TABLE_SLOTS,
            counted@.len() == TABLE_SLOTS * SLOT_SYMBOLS,
            from <= i <= from + 257,
            part@ == counted@.subrange(from as int, i as int),
        decreases from + 257 - i,
    {
        part.push(counted[i]);
        i = i + 1;
        proof {
            assert(counted@.subrange(from as int, i as int) =~= counted@.subrange(from as int, i - 1)
                + seq![counted@[i - 1]]);
        }
    }
    part
}

/// The counts Huffman's method is run on for the table of `slot`: how often the scan
/// feeds each symbol to that slot, and one for the reserved code point.
pub open spec fn slot_counts_of(events: Seq<Event>, slot: int) -> Seq<u64> {
    Seq::new(
        257,
        |k: int|
            if k == 256 {
                1u64
            } else {
                scan::histogram(events, slot * 257 + k) as u64
            },
    )
}

/// Huffman's method gives every symbol of every slot the scan feeds a depth of at
/// most 32 bits, so each of those slots can have a table.
pub open spec fn tables_can_be_built(events: Seq<Event>) -> bool {
    forall|s: int|
        0 <= s < TABLE_SLOTS && slot_used(events, s) ==> #[trigger] optimal::depths_fit(
            optimal::huffman_depths_of(slot_counts_of(events, s)),
        )
}

/// The reserved code point of a slot is never counted: every symbol is below 256.
proof fn lemma_reserved_never_counted(events: Seq<Event>, slot: int)
    requires
        0 <= slot,
    ensures
        scan::histogram(events, slot * 257 + 256) == 0,
    decreases events.len(),
{
    if events.len() > 0 {
        lemma_reserved_never_counted(events.drop_last(), slot);
        let a = events.last().0 as int;
        let b = events.last().1 as int;
        assert(a * 257 + b != slot * 257 + 256);
    }
}

/// One new table for each slot whose counters are not all zero, built from those
/// counters.
fn fresh_tables(counted: &Vec<u64>, Ghost(events): Ghost<Seq<Event>>) -> (res: Result<Vec<Option<Table>>, String>)
    requires
        counted@.len() == 2056,
        forall|k: int| 0 <= k < 2056 ==> #[trigger] counted@[k] == scan::histogram(events, k),
        optimal::sum_u64(counted@, 2056) < u64::MAX,
    ensures
        res matches Ok(fresh) ==> scan::tables_ok(fresh@) && (forall|s: int|
            0 <= s < TABLE_SLOTS ==> ((#[trigger] fresh@[s]) is Some <==> slot_used(events, s))) && (forall|s: int|
            0 <= s < TABLE_SLOTS ==> (#[trigger] fresh@[s] matches Some(t) ==> fits_slot(t, events, s))),
        res matches Err(e) ==> e@ == optimal::longer_than_32_sentence(),
        res is Ok <==> tables_can_be_built(events),
{
    let mut fresh: Vec<Option<Table>> = Vec::new();
    let mut slot: usize = 0;
    while slot < TABLE_SLOTS
        invariant
            slot <= TABLE_SLOTS,
            fresh@.len() == slot,
            counted@.len() == 2056,
            forall|k: int| 0 <= k < 2056 ==> #[trigger] counted@[k] == scan::histogram(events, k),
            optimal::sum_u64(counted@, 2056) < u64::MAX,
            forall|s: int| 0 <= s < slot ==> (#[trigger] fresh@[s] matches Some(t) ==> t.wf()),
            forall|s: int| 0 <= s < slot ==> ((#[trigger] fresh@[s]) is Some <==> slot_used(events, s)),
            forall|s: int| 0 <= s < slot ==> (#[trigger] fresh@[s] matches Some(t) ==> fits_slot(t, events, s)),
            forall|s: int|
                0 <= s < slot && slot_used(events, s) ==> #[trigger] optimal::depths_fit(
                    optimal::huffman_depths_of(slot_counts_of(events, s)),
                ),
        decreases TABLE_SLOTS - slot,
    {
        let part = slot_counts(&counted, slot);
        let mut any = false;
        let mut k: usize = 0;
        while k < SLOT_SYMBOLS
            invariant
                k <= 257,
                part@.len() == 257,
                any <==> exists|j: int| 0 <= j < k && #[trigger] part@[j] > 0,
            decreases 257 - k,
        {
            if part[k] > 0 {
                any = true;
            }
            k = k + 1;
        }
        proof {
            assert forall|j: int| 0 <= j < 257 implies #[trigger] part@[j] == scan::histogram(events, slot * 257 + j) by {
                assert(part@[j] == counted@[slot * 257 + j]);
            }
            if any {
                let j = choose|j: int| 0 <= j < 257 && #[trigger] part@[j] > 0;
                assert(scan::histogram(events, slot * 257 + j) > 0);
                lemma_reserved_never_counted(events, slot as int);
                assert(j < 256);
                assert(exists|a: int| 0 <= a < 256 && #[trigger] part@[a] > 0);
            } else {
                assert forall|j: int| 0 <= j < 257 implies !(#[trigger] scan::histogram(events, slot * 257 + j) > 0) by {
                    assert(part@[j] == scan::histogram(events, slot * 257 + j));
                }
            }
        }
        let ghost f0 = fresh@;
        if any {
            proof {
                lemma_sum_window(counted@, slot * 257, slot * 257 + 257, 257);
                lemma_sum_grows(counted@, slot * 257, slot * 257 + 257);
                lemma_sum_grows(counted@, slot * 257 + 257, 2056);
                lemma_reserved_never_counted(events, slot as int);
                assert(part@.update(256, 1u64) =~= slot_counts_of(events, slot as int)) by {
                    assert forall|k: int| 0 <= k < 256 implies part@.update(256, 1u64)[k] == slot_counts_of(
                        events,
                        slot as int,
                    )[k] by {
                        assert(part@[k] == scan::histogram(events, slot * 257 + k));
                    }
                }
            }
            match optimal::optimal_table(&part) {
                Ok(t) => {
                    proof {
                        assert forall|k: int|
                            0 <= k < 256 && scan::histogram(events, slot * 257 + k) > 0 implies #[trigger] t.symbols@.contains(
                            k as u8,
                        ) by {
                            assert(part@[k] == scan::histogram(events, slot * 257 + k));
                        }
                        assert forall|i: int| 0 <= i < t.symbols@.len() implies scan::histogram(
                            events,
                            slot * 257 + #[trigger] t.symbols@[i],
                        ) > 0 by {
                            assert(part@[t.symbols@[i] as int] > 0);
                        }
                        assert(fits_slot(t, events, slot as int));
                    }
                    fresh.push(Some(t));
                },
                Err(e) => {
                    proof {
                        assert(slot_used(events, slot as int));
                        assert(!optimal::depths_fit(optimal::huffman_depths_of(slot_counts_of(events, slot as int))));
                    }
                    return Err(e);
                },
            }
        } else {
            fresh.push(None);
        }
        proof {
            assert forall|s: int| 0 <= s < slot + 1 implies (#[trigger] fresh@[s] matches Some(t) ==> t.wf()) by {
                if s < slot {
                    assert(fresh@[s] == f0[s]);
                }
            }
            assert forall|s: int| 0 <= s < slot + 1 implies ((#[trigger] fresh@[s]) is Some <==> slot_used(events, s)) by {
                if s < slot {
                    assert(fresh@[s] == f0[s]);
                }
            }
            assert forall|s: int|
                0 <= s < slot + 1 && slot_used(events, s) implies #[trigger] optimal::depths_fit(
                optimal::huffman_depths_of(slot_counts_of(events, s)),
            ) by {
                if s == slot {
                    assert(any);
                }
            }
            assert forall|s: int| 0 <= s < slot + 1 implies (#[trigger] fresh@[s] matches Some(t) ==> fits_slot(
                t,
                events,
                s,
            )) by {
                if s < slot {
                    assert(fresh@[s] == f0[s]);
                }
            }
        }
        slot = slot + 1;
    }
    Ok(fresh)
}

/// A writer with new tables made for the events, as [`fresh_tables`] makes them, can
/// take each of the events.
proof fn lemma_fresh_takes(events: Seq<Event>, fresh: Seq<Option<Table>>, k: Sink)
    requires
        k matches Sink::Write(_, f) && f@ == fresh,
        fresh.len() == TABLE_SLOTS,
        forall|s: int| 0 <= s < TABLE_SLOTS ==> ((#[trigger] fresh[s]) is Some <==> slot_used(events, s)),
        forall|s: int| 0 <= s < TABLE_SLOTS ==> (#[trigger] fresh[s] matches Some(t) ==> fits_slot(t, events, s)),
    ensures
        k.takes_all(events),
{
    assert forall|i: int| 0 <= i < events.len() implies k.takes(#[trigger] events[i]) by {
        let e = events[i];
        let slot = e.0 as int;
        if slot < TABLE_SLOTS {
            replay::lemma_histogram_member(events, i);
            let key = e.1 as int;
            assert(scan::histogram(events, slot * 257 + key) > 0);
            assert(slot_used(events, slot));
            let t = fresh[slot].unwrap();
            assert(fits_slot(t, events, slot));
            assert(t.symbols@.contains(key as u8));
            assert(key as u8 == e.1);
        }
    }
}

/// Counts the symbols of the scan, builds a table for each slot the scan feeds, and
/// writes `out`, then the new tables, the scan header `sos`, the scan again with the
/// new tables, and the end of image marker.
#[verifier::rlimit(40)]
fn recode(scan: &[u8], sos: &[u8], frame: &Frame, read_with: &Vec<Option<Table>>, out: Vec<u8>) -> (res: Result<Vec<u8>, String>)
    requires
        frame.slots_ok(),
        scan::tables_ok(read_with@),
        8 * scan@.len() < u64::MAX,
    ensures
        match scan::scan_walk(
            *frame,
            scan::codes_view(read_with@),
            bits::destuff_from(scan@, 0),
            bits::ends_at_marker(scan@, 0),
        ) {
            Walk::Fail(m) => res matches Err(e) && e@ == m,
            Walk::Done(events, _) => {
                &&& res is Ok <==> tables_can_be_built(events)
                &&& res matches Ok(o) ==> recoded(o@, out@, frame.comps@, sos@, events)
                &&& res matches Err(e) ==> e@ == optimal::longer_than_32_sentence()
            },
        },
{
    let ghost out0 = out@;
    let ghost walk = scan::scan_walk(
        *frame,
        scan::codes_view(read_with@),
        bits::destuff_from(scan@, 0),
        bits::ends_at_marker(scan@, 0),
    );
    let counter: Vec<u64> = vec![0u64; TABLE_SLOTS * SLOT_SYMBOLS];
    proof {
        lemma_sum_zero(counter@, 2056);
    }
    let mut sink = Sink::Count(counter);
    let ghost k0 = sink;
    match scan::walk_scan(scan, frame, read_with, &mut sink) {
        Ok(()) => {},
        Err(e) => {
            return Err(e);
        },
    }
    let ghost events = match walk {
        Walk::Done(e, _) => e,
        Walk::Fail(_) => Seq::empty(),
    };
    let counted = match sink {
        Sink::Count(c) => c,
        Sink::Write(_, _) => {
            proof {
                assert(false);
            }
            return Err(String::from_str(""));
        },
    };
    proof {
        assert(forall|k: int| 0 <= k < 2056 ==> #[trigger] counted@[k] == scan::histogram(events, k));
    }
    let fresh = match fresh_tables(&counted, Ghost(events)) {
        Ok(f) => f,
        Err(e) => {
            return Err(e);
        },
    };
    let mut buf = out;
    let ghost before = buf@;
    segments::write_tables(frame, &fresh, &mut buf);
    segments::append_bytes(&mut buf, sos);
    let writer = bits::BitWriter::new(buf);
    let ghost fresh_v = fresh@;
    let mut sink2 = Sink::Write(writer, fresh);
    proof {
        lemma_fresh_takes(events, fresh_v, sink2);
    }
    match scan::walk_scan(scan, frame, read_with, &mut sink2) {
        Ok(()) => {},
        Err(e) => {
            proof {
                assert(false);
            }
            return Err(e);
        },
    }
    match sink2 {
        Sink::Write(w, _) => {
            let mut o = w.finish();
            o.push(0xFF);
            o.push(0xD9);
            proof {
                assert(w.bits@ =~= scan::encode(events, fresh_v));
                assert(o@ =~= before + segments::tables_out(
                    segments::slot_order(frame.comps@),
                    2 * frame.comps@.len() as int,
                    scan::codes_view(fresh_v),
                ) + sos@ + bits::stuff(bits::pack(padded(scan::encode(events, fresh_v)))) + seq![0xFFu8, 0xD9u8]);
                assert(written_with(o@, before, frame.comps@, sos@, events, fresh_v));
                assert(walk matches Walk::Done(e, _) && e == events);
                assert(before == out0);
            }
            Ok(o)
        },
        Sink::Count(_) => {
            proof {
                assert(false);
            }
            Err(String::from_str(""))
        },
    }
}

/// The frame as the spec functions see it.
pub open spec fn frame_view(f: Option<Frame>) -> Option<(Seq<Component>, int, int)> {
    match f {
        Some(f) => Some((f.comps@, f.mcus_x as int, f.mcus_y as int)),
        None => None,
    }
}

/// Rewrites the entropy coding of a baseline JPEG with Huffman tables counted from
/// the page itself.
///
/// The picture does not change: every symbol of the scan, and the raw bits after
/// it, is carried over, so the file decodes to the same pixels; only the code words
/// and the DHT segments that describe them are new. The segments go out in
/// libjpeg's order (APPn and the rest, DQT, SOF0, DHT, SOS), each copied as it
/// came. A file this will not touch (a progressive scan, restart markers,
/// arithmetic coding, a segment that stops short) is refused with a sentence
/// saying why, and the caller keeps the original bytes.
pub fn rehuff(jpeg: &[u8]) -> (res: Result<Vec<u8>, String>)
    requires
        jpeg@.len() < 0x2000_0000_0000_0000,
    ensures
        rehuff_result(jpeg@, res),
{
    if jpeg.len() < 2 || jpeg[0] != 0xFF || jpeg[1] != 0xD8 {
        return Err(String::from_str("This page does not start with a JPEG marker."));
    }
    let mut head: Vec<u8> = Vec::new();
    let mut quant: Vec<u8> = Vec::new();
    let mut frame_bytes: Vec<u8> = Vec::new();
    let mut frame: Option<Frame> = None;
    let mut tables: Vec<Option<Table>> = Vec::new();
    while tables.len() < TABLE_SLOTS
        invariant
            tables@.len() <= TABLE_SLOTS,
            forall|i: int| 0 <= i < tables@.len() ==> #[trigger] tables@[i] is None,
        decreases TABLE_SLOTS - tables@.len(),
    {
        tables.push(None);
    }
    proof {
        assert(scan::codes_view(tables@) =~= nothing_gathered().tables);
        assert(head@ =~= Seq::<u8>::empty());
        assert(quant@ =~= Seq::<u8>::empty());
        assert(frame_bytes@ =~= Seq::<u8>::empty());
    }
    let mut at: usize = 2;
    loop
        invariant
            2 <= at <= jpeg@.len(),
            jpeg@.len() < 0x2000_0000_0000_0000,
            jpeg@[0] == 0xFF && jpeg@[1] == 0xD8,
            scan::tables_ok(tables@),
            segments_from(jpeg@, 2, nothing_gathered()) == segments_from(
                jpeg@,
                at as int,
                Gathered {
                    head: head@,
                    quant: quant@,
                    frame_bytes: frame_bytes@,
                    frame: frame_view(frame),
                    tables: scan::codes_view(tables@),
                },
            ),
        decreases jpeg@.len() - at,
    {
        if jpeg.len() - at < 2 {
            return Err(String::from_str("The page ends before its scan does."));
        }
        if jpeg[at] != 0xFF {
            return Err(crate::text::sentence_expected_marker(at));
        }
        let marker = jpeg[at + 1];
        if marker == 0x01 || (0xD0 <= marker && marker <= 0xD8) {
            return Err(String::from_str("The page holds a marker that cannot stand before a scan."));
        }
        if marker == 0xD9 {
            return Err(String::from_str("The page ends before it has a scan."));
        }
        if jpeg.len() - at < 4 {
            return Err(String::from_str("A segment of the page has no length."));
        }
        let len = (jpeg[at + 2] as usize) * 256 + jpeg[at + 3] as usize;
        if jpeg.len() - at - 2 < len {
            return Err(String::from_str("A segment of the page runs past the end of the file."));
        }
        if len < 2 {
            return Err(String::from_str("A segment of the page is shorter than its own length."));
        }
        let segment = vstd::slice::slice_subrange(jpeg, at, at + 2 + len);
        let body = vstd::slice::slice_subrange(jpeg, at + 4, at + 2 + len);
        if marker == 0xC4 {
            match segments::read_tables(body, &mut tables) {
                Ok(()) => {},
                Err(e) => {
                    return Err(e);
                },
            }
        } else if marker == 0xDB {
            segments::append_bytes(&mut quant, segment);
        } else if marker == 0xC0 {
            if frame.is_some() {
                return Err(String::from_str("The page holds more than one frame header."));
            }
            match segments::read_frame(body) {
                Ok(f) => {
                    frame = Some(f);
                },
                Err(e) => {
                    return Err(e);
                },
            }
            segments::append_bytes(&mut frame_bytes, segment);
        } else if marker == 0xDD {
            return Err(String::from_str("The page carries restart markers, which this does not read."));
        } else if 0xC1 <= marker && marker <= 0xCF {
            return Err(String::from_str("Only a baseline JPEG can have its Huffman tables rebuilt."));
        } else if marker == 0xDA {
            let mut f = match frame {
                Some(f) => f,
                None => {
                    return Err(String::from_str("The page's scan has no frame header before it."));
                },
            };
            match segments::read_scan_header(body, &mut f.comps) {
                Ok(()) => {},
                Err(e) => {
                    return Err(e);
                },
            }
            let scan = vstd::slice::slice_subrange(jpeg, at + 2 + len, jpeg.len());
            let mut out: Vec<u8> = Vec::new();
            out.push(0xFF);
            out.push(0xD8);
            segments::append_bytes(&mut out, head.as_slice());
            segments::append_bytes(&mut out, quant.as_slice());
            segments::append_bytes(&mut out, frame_bytes.as_slice());
            proof {
                assert(out@ =~= seq![0xFFu8, 0xD8u8] + head@ + quant@ + frame_bytes@);
            }
            return recode(scan, segment, &f, &tables, out);
        } else {
            segments::append_bytes(&mut head, segment);
        }
        at = at + 2 + len;
    }
}

} // verus!
