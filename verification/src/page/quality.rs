//! How small a written page should be: the JPEG quality, and the longest edge the
//! page may keep.

use vstd::prelude::*;
use crate::text;

verus! {

/// JPEG quality of a page written unchanged, from 0 to 100.
pub const PAGE_JPEG_QUALITY: u8 = 85;

/// The longest edge that means "keep every pixel".
pub const KEEP_EVERY_PIXEL: u32 = 0;

/// The longest edge a page may keep: a memory cap, so that the page still fits in
/// a phone's memory while it is sharpened.
pub const LONGEST_EDGE: u32 = 3000;

/// How small a written page should be: the JPEG quality, and the longest edge the
/// page may keep.
///
/// A struct rather than a bare number, because a bare `45` at a call site cannot be
/// found again; a struct rather than an enum of rung names, because the rungs and
/// the numbers behind them are the client's product decision.
#[derive(Debug, Clone, Copy, PartialEq, Eq, Structural)]
pub struct PageQuality {
    /// JPEG quality from 1 to 100. Higher is a bigger, better looking page.
    pub jpeg_quality: u8,
    /// The longest edge the page may keep, in pixels, or zero to keep every pixel.
    pub longest_edge: u32,
}

impl PageQuality {
    /// Today's page: quality 85, every pixel kept. A page written with this is byte
    /// for byte the page the engine wrote before the setting existed.
    pub fn unchanged() -> (q: PageQuality)
        ensures
            q.jpeg_quality == PAGE_JPEG_QUALITY,
            q.longest_edge == KEEP_EVERY_PIXEL,
    {
        PageQuality { jpeg_quality: PAGE_JPEG_QUALITY, longest_edge: KEEP_EVERY_PIXEL }
    }
}

/// "The page quality must be between 1 and 100, but was `q`."
pub open spec fn quality_sentence(q: int) -> Seq<char> {
    "The page quality must be between 1 and 100, but was "@ + text::signed_decimal(q) + "."@
}

/// The sentence a page quality that asks for resampling is refused with.
pub open spec fn shrink_sentence(edge: nat) -> Seq<char> {
    "The page cannot be shrunk to "@ + text::decimal(edge)
        + " pixels while it is written, because it is already sharpened by then. Shrink it before sharpening and leave the longest edge at 0."@
}

fn sentence_quality(q: i64) -> (s: String)
    ensures
        s@ == quality_sentence(q as int),
{
    let mut s = String::from_str("The page quality must be between 1 and 100, but was ");
    text::push_signed(&mut s, q);
    s.append(".");
    s
}

/// Checks the quality a page is written with: the JPEG quality must be 1 to 100,
/// and the longest edge zero, since a page cannot be resampled once it is
/// sharpened.
pub fn check_quality(quality: PageQuality) -> (res: Result<(), String>)
    ensures
        !(1 <= quality.jpeg_quality <= 100) ==> (res matches Err(e) && e@ == quality_sentence(
            quality.jpeg_quality as int,
        )),
        1 <= quality.jpeg_quality <= 100 && quality.longest_edge != 0 ==> (res matches Err(e) && e@
            == shrink_sentence(quality.longest_edge as nat)),
        1 <= quality.jpeg_quality <= 100 && quality.longest_edge == 0 ==> res is Ok,
{
    if !(1 <= quality.jpeg_quality && quality.jpeg_quality <= 100) {
        return Err(sentence_quality(quality.jpeg_quality as i64));
    }
    if quality.longest_edge != KEEP_EVERY_PIXEL {
        let mut s = String::from_str("The page cannot be shrunk to ");
        text::push_decimal(&mut s, quality.longest_edge as u64);
        s.append(
            " pixels while it is written, because it is already sharpened by then. Shrink it before sharpening and leave the longest edge at 0.",
        );
        return Err(s);
    }
    Ok(())
}

/// One rung of the page size setting the user is given, as a client hands it over:
/// the JPEG quality and the longest edge, or `KEEP_EVERY_PIXEL` for every pixel.
#[derive(Debug, Clone, Copy)]
pub struct FreepdfPageQuality {
    pub jpeg_quality: i32,
    pub longest_edge: i32,
}

/// "A page cannot keep a longest edge of `edge` pixels."
pub open spec fn negative_edge_sentence(edge: int) -> Seq<char> {
    "A page cannot keep a longest edge of "@ + text::signed_decimal(edge) + " pixels."@
}

/// The sentence an edge above the memory cap is refused with.
pub open spec fn edge_over_cap_sentence(edge: nat) -> Seq<char> {
    "A page cannot keep a longest edge of "@ + text::decimal(edge)
        + " pixels. 3000 is the most, so that the page still fits in the phone's memory while it is sharpened."@
}

/// The numbers behind the rung a client picked: the quality to write the page
/// with, and the longest edge to shrink it to first, if any.
///
/// No rung is the original page. A quality outside 1 to 100 is refused, and so is
/// a longest edge below zero or above the memory cap; zero keeps every pixel.
pub fn rung_numbers(rung: Option<FreepdfPageQuality>) -> (res: Result<(PageQuality, Option<u32>), String>)
    ensures
        rung is None ==> res == Ok::<(PageQuality, Option<u32>), String>(
            (PageQuality { jpeg_quality: PAGE_JPEG_QUALITY, longest_edge: KEEP_EVERY_PIXEL }, None),
        ),
        rung matches Some(r) ==> {
            let q = r.jpeg_quality as int;
            let e = r.longest_edge as int;
            &&& !(1 <= q <= 100) ==> (res matches Err(m) && m@ == quality_sentence(q))
            &&& (1 <= q <= 100 && e == 0) ==> res == Ok::<(PageQuality, Option<u32>), String>(
                (PageQuality { jpeg_quality: q as u8, longest_edge: KEEP_EVERY_PIXEL }, None),
            )
            &&& (1 <= q <= 100 && e < 0) ==> (res matches Err(m) && m@ == negative_edge_sentence(e))
            &&& (1 <= q <= 100 && e > LONGEST_EDGE) ==> (res matches Err(m) && m@
                == edge_over_cap_sentence(e as nat))
            &&& (1 <= q <= 100 && 0 < e <= LONGEST_EDGE) ==> res == Ok::<
                (PageQuality, Option<u32>),
                String,
            >((PageQuality { jpeg_quality: q as u8, longest_edge: KEEP_EVERY_PIXEL }, Some(e as u32)))
        },
{
    let rung = match rung {
        None => {
            return Ok((PageQuality::unchanged(), None));
        },
        Some(r) => r,
    };
    if !(1 <= rung.jpeg_quality && rung.jpeg_quality <= 100) {
        return Err(sentence_quality(rung.jpeg_quality as i64));
    }
    let quality = PageQuality { jpeg_quality: rung.jpeg_quality as u8, longest_edge: KEEP_EVERY_PIXEL };
    if rung.longest_edge == 0 {
        return Ok((quality, None));
    }
    if rung.longest_edge < 0 {
        let mut s = String::from_str("A page cannot keep a longest edge of ");
        text::push_signed(&mut s, rung.longest_edge as i64);
        s.append(" pixels.");
        return Err(s);
    }
    let edge = rung.longest_edge as u32;
    if edge > LONGEST_EDGE {
        let mut s = String::from_str("A page cannot keep a longest edge of ");
        text::push_decimal(&mut s, edge as u64);
        s.append(
            " pixels. 3000 is the most, so that the page still fits in the phone's memory while it is sharpened.",
        );
        return Err(s);
    }
    Ok((quality, Some(edge)))
}

} // verus!
