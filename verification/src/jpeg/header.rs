//! What a page's JPEG header says of it, read without decoding a single pixel: the
//! PDF embeds the page as it is and only needs its size and whether it is grey.

use vstd::prelude::*;
use image::ImageDecoder;

verus! {

/// The width, height and greyness the `image` crate's JPEG decoder reads from the
/// header of `jpeg`, or nothing where it refuses the header.
pub uninterp spec fn jpeg_header_of(jpeg: Seq<u8>) -> Option<(u32, u32, bool)>;

/// `JpegDecoder::new` on the bytes, then its `dimensions` and whether its
/// `color_type` is `L8`. Gives what `jpeg_header_of` names, or the decoder's error as
/// text, of which nothing is claimed.
#[verifier::external_body]
fn jpeg_header(jpeg: &[u8]) -> (res: Result<(u32, u32, bool), String>)
    ensures
        res is Ok <==> jpeg_header_of(jpeg@) is Some,
        res matches Ok(v) ==> Some(v) == jpeg_header_of(jpeg@),
{
    let decoder = image::codecs::jpeg::JpegDecoder::new(std::io::Cursor::new(jpeg)).map_err(|e| e.to_string())?;
    let (width, height) = decoder.dimensions();
    let grey = match decoder.color_type() {
        image::ColorType::L8 => true,
        _ => false,
    };
    Ok((width, height, grey))
}

/// Width, height, and whether the JPEG is grey, read from its header.
///
/// Building the decoder reads the header and stops there, so no pixel of the page is
/// ever touched - which is what lets a long scan go into the PDF page by page.
pub fn jpeg_shape(jpeg: &[u8]) -> (res: Result<(usize, usize, bool), String>)
    ensures
        res is Ok <==> jpeg_header_of(jpeg@) is Some,
        res matches Ok(v) ==> jpeg_header_of(jpeg@) == Some((v.0 as u32, v.1 as u32, v.2)),
        res matches Ok(v) ==> v.0 == jpeg_header_of(jpeg@).unwrap().0 && v.1 == jpeg_header_of(jpeg@).unwrap().1,
{
    match jpeg_header(jpeg) {
        Ok((width, height, grey)) => Ok((width as usize, height as usize, grey)),
        Err(e) => Err(e),
    }
}

} // verus!
