//! The tools that take a whole picture: turning it by quarter turns, dropping its
//! colour, cutting it to a box, and writing it as a page. The pixels themselves are
//! the `image` crate's; what is decided here is which call to make and when to
//! refuse.

use vstd::prelude::*;
use image::DynamicImage;
use super::quality::{self, PageQuality};
use crate::jpeg::recode;
use crate::text;

verus! {

#[verifier::external_type_specification]
#[verifier::external_body]
pub struct ExDynamicImage(image::DynamicImage);

/// The width and height of a picture, in pixels, as `DynamicImage::width` and
/// `DynamicImage::height` give them.
pub uninterp spec fn picture_size(img: DynamicImage) -> (u32, u32);

/// Whether every pixel of a picture is a shade of grey, with no colour in it.
pub uninterp spec fn colourless(img: DynamicImage) -> bool;

/// The bytes of the channel values of the pixel at column `x` and row `y`.
pub uninterp spec fn pixel_bytes(img: DynamicImage, x: int, y: int) -> Seq<u8>;

/// `turned` is `img` turned `quarters` quarter turns clockwise: its size, and where
/// each pixel of `img` lands in it.
pub open spec fn turned_by(img: DynamicImage, turned: DynamicImage, quarters: int) -> bool {
    let (w, h) = picture_size(img);
    let (w, h) = (w as int, h as int);
    if quarters == 1 {
        &&& picture_size(turned) == (picture_size(img).1, picture_size(img).0)
        &&& forall|x: int, y: int|
            0 <= x < w && 0 <= y < h ==> pixel_bytes(turned, h - 1 - y, x) == #[trigger] pixel_bytes(img, x, y)
    } else if quarters == 2 {
        &&& picture_size(turned) == picture_size(img)
        &&& forall|x: int, y: int|
            0 <= x < w && 0 <= y < h ==> pixel_bytes(turned, w - 1 - x, h - 1 - y) == #[trigger] pixel_bytes(
                img,
                x,
                y,
            )
    } else if quarters == 3 {
        &&& picture_size(turned) == (picture_size(img).1, picture_size(img).0)
        &&& forall|x: int, y: int|
            0 <= x < w && 0 <= y < h ==> pixel_bytes(turned, y, w - 1 - x) == #[trigger] pixel_bytes(img, x, y)
    } else {
        &&& picture_size(turned) == picture_size(img)
        &&& forall|x: int, y: int| 0 <= x < w && 0 <= y < h ==> pixel_bytes(turned, x, y) == #[trigger] pixel_bytes(img, x, y)
    }
}

/// `DynamicImage::clone`: the same picture, so of the same size, with the same
/// pixels, and as grey as it.
#[verifier::external_body]
fn copy_of(img: &DynamicImage) -> (copy: DynamicImage)
    ensures
        copy == *img,
        picture_size(copy) == picture_size(*img),
        forall|x: int, y: int|
            0 <= x < picture_size(*img).0 && 0 <= y < picture_size(*img).1 ==> pixel_bytes(copy, x, y) == #[trigger] pixel_bytes(
                *img,
                x,
                y,
            ),
        colourless(copy) == colourless(*img),
{
    img.clone()
}

/// `DynamicImage::rotate90`: the picture turned a quarter clockwise, so its width
/// and height trade places, and the pixel at (x, y) goes to (height - 1 - y, x).
#[verifier::external_body]
fn turned_90(img: &DynamicImage) -> (turned: DynamicImage)
    ensures
        picture_size(turned) == (picture_size(*img).1, picture_size(*img).0),
        forall|x: int, y: int|
            0 <= x < picture_size(*img).0 && 0 <= y < picture_size(*img).1 ==> pixel_bytes(turned, picture_size(*img).1 - 1 - y, x) == #[trigger] pixel_bytes(
                *img,
                x,
                y,
            ),
{
    img.rotate90()
}

/// `DynamicImage::rotate180`: the picture turned half round, of the same size; the
/// pixel at (x, y) goes to (width - 1 - x, height - 1 - y).
#[verifier::external_body]
fn turned_180(img: &DynamicImage) -> (turned: DynamicImage)
    ensures
        picture_size(turned) == picture_size(*img),
        forall|x: int, y: int|
            0 <= x < picture_size(*img).0 && 0 <= y < picture_size(*img).1 ==> pixel_bytes(turned, picture_size(*img).0 - 1 - x, picture_size(*img).1 - 1 - y) == #[trigger] pixel_bytes(
                *img,
                x,
                y,
            ),
{
    img.rotate180()
}

/// `DynamicImage::rotate270`: the picture turned three quarters clockwise, so its
/// width and height trade places, and the pixel at (x, y) goes to (y, width - 1 - x).
#[verifier::external_body]
fn turned_270(img: &DynamicImage) -> (turned: DynamicImage)
    ensures
        picture_size(turned) == (picture_size(*img).1, picture_size(*img).0),
        forall|x: int, y: int|
            0 <= x < picture_size(*img).0 && 0 <= y < picture_size(*img).1 ==> pixel_bytes(turned, y, picture_size(*img).0 - 1 - x) == #[trigger] pixel_bytes(
                *img,
                x,
                y,
            ),
{
    img.rotate270()
}

/// What `DynamicImage::grayscale` returns for a picture: the same picture without
/// its colour, each pixel's brightness kept.
pub uninterp spec fn greyscale_version(img: DynamicImage) -> DynamicImage;

/// `DynamicImage::grayscale`: what `greyscale_version` names, a grey picture of the
/// same size.
#[verifier::external_body]
fn greyed(img: &DynamicImage) -> (grey: DynamicImage)
    ensures
        grey == greyscale_version(*img),
        picture_size(grey) == picture_size(*img),
        colourless(grey),
{
    img.grayscale()
}

/// `DynamicImage::crop_imm`: the part of the picture in the box. A box that lies
/// inside the picture gives a picture of the box's size whose pixel at (i, j) is the
/// picture's at (x + i, y + j); nothing is claimed when the box sticks out (the crate
/// clamps it then).
#[verifier::external_body]
fn cut_out(img: &DynamicImage, x: u32, y: u32, width: u32, height: u32) -> (part: DynamicImage)
    ensures
        x + width <= picture_size(*img).0 && y + height <= picture_size(*img).1 ==> picture_size(part) == (
            width,
            height,
        ),
        x + width <= picture_size(*img).0 && y + height <= picture_size(*img).1 ==> forall|i: int, j: int|
            0 <= i < width && 0 <= j < height ==> #[trigger] pixel_bytes(part, i, j) == pixel_bytes(
                *img,
                x + i,
                y + j,
            ),
{
    img.crop_imm(x, y, width, height)
}

/// `part` is the `width` by `height` box of `img` whose top left corner is at
/// (`x`, `y`), pixel for pixel.
pub open spec fn cut_from(img: DynamicImage, part: DynamicImage, x: u32, y: u32, width: u32, height: u32) -> bool {
    &&& picture_size(part) == (width, height)
    &&& forall|i: int, j: int|
        0 <= i < width && 0 <= j < height ==> #[trigger] pixel_bytes(part, i, j) == pixel_bytes(img, x + i, y + j)
}

/// `DynamicImage::width`.
#[verifier::external_body]
fn width_of(img: &DynamicImage) -> (w: u32)
    ensures
        w == picture_size(*img).0,
{
    img.width()
}

/// `DynamicImage::height`.
#[verifier::external_body]
fn height_of(img: &DynamicImage) -> (h: u32)
    ensures
        h == picture_size(*img).1,
{
    img.height()
}

/// What `DynamicImage::resize` into an `edge` by `edge` box with the Lanczos filter
/// returns for a picture: the picture scaled, keeping its shape, to the largest size
/// that fits the box.
pub uninterp spec fn resized_version(img: DynamicImage, edge: u32) -> DynamicImage;

/// `DynamicImage::resize` into an `edge` by `edge` box with the Lanczos filter: what
/// `resized_version` names. Of a picture with both sides at least one pixel, each
/// side of the result is between one pixel and `edge`.
#[verifier::external_body]
fn resized(img: &DynamicImage, edge: u32) -> (small: DynamicImage)
    ensures
        small == resized_version(*img, edge),
        picture_size(*img).0 >= 1 && picture_size(*img).1 >= 1 && edge >= 1 ==> 1 <= picture_size(small).0
            <= edge && 1 <= picture_size(small).1 <= edge,
{
    img.resize(edge, edge, image::imageops::FilterType::Lanczos3)
}

/// What `DynamicImage::thumbnail` into an `edge` by `edge` box returns for a
/// picture: the picture scaled down with the fast box filter, keeping its shape, to
/// the largest size that fits the box.
pub uninterp spec fn thumbnail_version(img: DynamicImage, edge: u32) -> DynamicImage;

/// `DynamicImage::thumbnail` into an `edge` by `edge` box: what `thumbnail_version`
/// names. Of a picture with both sides at least one pixel, each side of the result
/// is between one pixel and `edge`.
#[verifier::external_body]
fn thumbnailed(img: &DynamicImage, edge: u32) -> (small: DynamicImage)
    ensures
        small == thumbnail_version(*img, edge),
        picture_size(*img).0 >= 1 && picture_size(*img).1 >= 1 && edge >= 1 ==> 1 <= picture_size(small).0
            <= edge && 1 <= picture_size(small).1 <= edge,
{
    img.thumbnail(edge, edge)
}

/// Whether the picture is stored as 8-bit grey or 8-bit RGB, the two kinds of
/// picture a JPEG holds as they are.
pub uninterp spec fn jpeg_ready(img: DynamicImage) -> bool;

/// Whether the picture is a `DynamicImage::ImageLuma8` or a
/// `DynamicImage::ImageRgb8`: what `jpeg_ready` names.
#[verifier::external_body]
fn is_luma8_or_rgb8(img: &DynamicImage) -> (ready: bool)
    ensures
        ready == jpeg_ready(*img),
{
    match img {
        DynamicImage::ImageLuma8(_) => true,
        DynamicImage::ImageRgb8(_) => true,
        _ => false,
    }
}

/// The picture as 8-bit RGB, as `DynamicImage::to_rgb8` makes it.
pub uninterp spec fn rgb8_version(img: DynamicImage) -> DynamicImage;

/// `DynamicImage::to_rgb8`, held as a `DynamicImage::ImageRgb8`: what
/// `rgb8_version` names, a picture of the same size that a JPEG holds as it is.
#[verifier::external_body]
fn as_rgb8(img: &DynamicImage) -> (rgb: DynamicImage)
    ensures
        rgb == rgb8_version(*img),
        jpeg_ready(rgb),
        picture_size(rgb) == picture_size(*img),
{
    DynamicImage::ImageRgb8(img.to_rgb8())
}

/// The bytes `DynamicImage::write_with_encoder` writes for a picture with a
/// `JpegEncoder` at a quality, or the text of the encoder's error.
pub uninterp spec fn jpeg_encoding(img: DynamicImage, quality: u8) -> Result<Seq<u8>, Seq<char>>;

/// `DynamicImage::write_with_encoder` with a `JpegEncoder::new_with_quality`. Gives
/// the JPEG's bytes or the encoder's error as text, which are what `jpeg_encoding`
/// names for that picture and quality.
#[verifier::external_body]
fn encode(img: &DynamicImage, quality: u8) -> (res: Result<Vec<u8>, String>)
    ensures
        match jpeg_encoding(*img, quality) {
            Ok(bytes) => res matches Ok(b) && b@ == bytes,
            Err(why) => res matches Err(e) && e@ == why,
        },
{
    let mut jpeg = Vec::new();
    img.write_with_encoder(image::codecs::jpeg::JpegEncoder::new_with_quality(&mut jpeg, quality))
        .map_err(|e| e.to_string())?;
    Ok(jpeg)
}

/// The picture a page is encoded from: as it is when it is 8-bit grey or 8-bit RGB,
/// so a greyed page stays grey, and made 8-bit RGB first otherwise, since a JPEG
/// holds nothing else.
pub open spec fn encoded_from(img: DynamicImage) -> DynamicImage {
    if jpeg_ready(img) {
        img
    } else {
        rgb8_version(img)
    }
}

/// "Rotation must be 0, 90, 180 or 270 degrees, but was `degrees`."
pub open spec fn rotation_sentence(degrees: nat) -> Seq<char> {
    "Rotation must be 0, 90, 180 or 270 degrees, but was "@ + text::decimal(degrees) + "."@
}

/// Which quarter turn `degrees` is, counted round the full circle: 0, 1, 2 or 3, or
/// the sentence an angle that is no quarter turn is refused with.
///
/// Quarter turns only: straightening a photo by a few degrees needs pixel
/// interpolation and an opinion about the new borders.
pub fn quarter_turns(degrees: u32) -> (res: Result<u8, String>)
    ensures
        degrees % 90 == 0 ==> res == Ok::<u8, String>(((degrees % 360) / 90) as u8),
        degrees % 90 != 0 ==> (res matches Err(e) && e@ == rotation_sentence(degrees as nat)),
{
    let turn = degrees % 360;
    if turn == 0 {
        Ok(0)
    } else if turn == 90 {
        Ok(1)
    } else if turn == 180 {
        Ok(2)
    } else if turn == 270 {
        Ok(3)
    } else {
        let mut s = String::from_str("Rotation must be 0, 90, 180 or 270 degrees, but was ");
        text::push_decimal(&mut s, degrees as u64);
        s.append(".");
        Err(s)
    }
}

/// Turns the picture clockwise, by quarter turns only. An angle that is no quarter
/// turn is refused with a sentence saying what was asked.
pub fn rotate(img: &DynamicImage, degrees: u32) -> (res: Result<DynamicImage, String>)
    ensures
        degrees % 90 == 0 <==> res is Ok,
        degrees % 90 != 0 ==> (res matches Err(e) && e@ == rotation_sentence(degrees as nat)),
        res matches Ok(turned) ==> turned_by(*img, turned, ((degrees % 360) / 90) as int),
        degrees % 360 == 0 ==> res == Ok::<DynamicImage, String>(*img),
{
    match quarter_turns(degrees) {
        Ok(0) => Ok(copy_of(img)),
        Ok(1) => Ok(turned_90(img)),
        Ok(2) => Ok(turned_180(img)),
        Ok(_) => Ok(turned_270(img)),
        Err(e) => Err(e),
    }
}

/// Drops the colour, keeping the brightness of every pixel: grey scans of text are
/// smaller in the PDF and easier to read than colour photos of paper.
pub fn to_grayscale(img: &DynamicImage) -> (grey: DynamicImage)
    ensures
        grey == greyscale_version(*img),
        picture_size(grey) == picture_size(*img),
        colourless(grey),
{
    greyed(img)
}

pub open spec fn empty_box_sentence() -> Seq<char> {
    "The crop box must be wider and taller than zero pixels."@
}

/// "A `width`x`height` crop at (`x`, `y`) does not fit inside the
/// `image_width`x`image_height` image."
pub open spec fn misfit_sentence(x: nat, y: nat, width: nat, height: nat, image_width: nat, image_height: nat) -> Seq<char> {
    "A "@ + text::decimal(width) + "x"@ + text::decimal(height) + " crop at ("@ + text::decimal(x) + ", "@
        + text::decimal(y) + ") does not fit inside the "@ + text::decimal(image_width) + "x"@
        + text::decimal(image_height) + " image."@
}

/// Whether the box fits inside an image of that size.
pub open spec fn box_fits(x: int, y: int, width: int, height: int, image_width: int, image_height: int) -> bool {
    x + width <= image_width && y + height <= image_height
}

/// Checks a crop box against the size of the image it cuts: it must be wider and
/// taller than nothing, and fit inside the image. A box that does not fit is refused
/// rather than clamped to the edge: a silently shrunk crop looks like the tool
/// ignored the user.
pub fn check_crop(x: u32, y: u32, width: u32, height: u32, image_width: u32, image_height: u32) -> (res: Result<(), String>)
    ensures
        (width == 0 || height == 0) ==> (res matches Err(e) && e@ == empty_box_sentence()),
        width != 0 && height != 0 && !box_fits(x as int, y as int, width as int, height as int, image_width as int, image_height as int)
            ==> (res matches Err(e) && e@ == misfit_sentence(
            x as nat,
            y as nat,
            width as nat,
            height as nat,
            image_width as nat,
            image_height as nat,
        )),
        width != 0 && height != 0 && box_fits(x as int, y as int, width as int, height as int, image_width as int, image_height as int)
            ==> res is Ok,
{
    if width == 0 || height == 0 {
        return Err(String::from_str("The crop box must be wider and taller than zero pixels."));
    }
    let fits_across = match x.checked_add(width) {
        Some(right) => right <= image_width,
        None => false,
    };
    let fits_down = match y.checked_add(height) {
        Some(bottom) => bottom <= image_height,
        None => false,
    };
    if !fits_across || !fits_down {
        let mut s = String::from_str("A ");
        text::push_decimal(&mut s, width as u64);
        s.append("x");
        text::push_decimal(&mut s, height as u64);
        s.append(" crop at (");
        text::push_decimal(&mut s, x as u64);
        s.append(", ");
        text::push_decimal(&mut s, y as u64);
        s.append(") does not fit inside the ");
        text::push_decimal(&mut s, image_width as u64);
        s.append("x");
        text::push_decimal(&mut s, image_height as u64);
        s.append(" image.");
        return Err(s);
    }
    Ok(())
}

/// Cuts the image down to the box the user drew, measured in pixels from the top left
/// corner. A box with no width or height is refused, and so is one that does not fit
/// inside the image, with a sentence naming both sizes.
pub fn crop(img: &DynamicImage, x: u32, y: u32, width: u32, height: u32) -> (res: Result<DynamicImage, String>)
    ensures
        ({
            let (image_width, image_height) = picture_size(*img);
            &&& (width == 0 || height == 0) ==> (res matches Err(e) && e@ == empty_box_sentence())
            &&& width != 0 && height != 0 && !box_fits(
                x as int,
                y as int,
                width as int,
                height as int,
                image_width as int,
                image_height as int,
            ) ==> (res matches Err(e) && e@ == misfit_sentence(
                x as nat,
                y as nat,
                width as nat,
                height as nat,
                image_width as nat,
                image_height as nat,
            ))
            &&& width != 0 && height != 0 && box_fits(
                x as int,
                y as int,
                width as int,
                height as int,
                image_width as int,
                image_height as int,
            ) ==> (res matches Ok(part) && cut_from(*img, part, x, y, width, height))
        }),
{
    let image_width = width_of(img);
    let image_height = height_of(img);
    match check_crop(x, y, width, height, image_width, image_height) {
        Ok(()) => Ok(cut_out(img, x, y, width, height)),
        Err(e) => Err(e),
    }
}

/// `out` is the page `jpeg` as it is written: what recoding gives when the recoder
/// takes the page, and `jpeg` itself when it refuses it or the page is too long to
/// be walked.
pub open spec fn written_page(jpeg: Seq<u8>, out: Seq<u8>) -> bool {
    &&& jpeg.len() < 0x2000_0000_0000_0000 ==> exists|res: Result<Vec<u8>, String>| #[trigger] recode::rehuff_result(jpeg, res)
        && (res matches Ok(s) ==> out == s@) && (res is Err ==> out == jpeg)
    &&& jpeg.len() >= 0x2000_0000_0000_0000 ==> out == jpeg
}

/// The page as it is written: the recoded JPEG when the recoder takes it, and the
/// encoder's own bytes when it refuses them, so a page is never lost to it.
pub fn smaller_or_same(jpeg: Vec<u8>) -> (out: Vec<u8>)
    ensures
        written_page(jpeg@, out@),
{
    if jpeg.len() as u64 >= 0x2000_0000_0000_0000u64 {
        return jpeg;
    }
    let res = recode::rehuff(jpeg.as_slice());
    proof {
        assert(recode::rehuff_result(jpeg@, res));
    }
    match res {
        Ok(smaller) => smaller,
        Err(_) => jpeg,
    }
}

/// The shortest edge, in pixels, a page may be shrunk to and still be read.
pub const SMALLEST_READABLE_EDGE: u32 = 200;

/// "A page cannot be shrunk to `edge` pixels and still be read. 200 is the least."
pub open spec fn unreadable_edge_sentence(edge: nat) -> Seq<char> {
    "A page cannot be shrunk to "@ + text::decimal(edge) + " pixels and still be read. 200 is the least."@
}

/// What fitting a picture of `size` within `edge` pixels gives: a bound under the
/// readable least is refused; a picture that already fits comes back at its own
/// size; a larger one comes back with neither side longer than `edge`.
pub open spec fn fitted(img: DynamicImage, edge: u32, res: Result<DynamicImage, String>) -> bool {
    let size = picture_size(img);
    &&& edge < SMALLEST_READABLE_EDGE ==> (res matches Err(e) && e@ == unreadable_edge_sentence(edge as nat))
    &&& edge >= SMALLEST_READABLE_EDGE && size.0 <= edge && size.1 <= edge ==> res == Ok::<DynamicImage, String>(img)
    &&& edge >= SMALLEST_READABLE_EDGE && (size.0 > edge || size.1 > edge) ==> res == Ok::<DynamicImage, String>(
        resized_version(img, edge),
    )
    &&& (size.0 > edge || size.1 > edge) && size.0 >= 1 && size.1 >= 1 ==> (res matches Ok(page) ==> 1
        <= picture_size(page).0 <= edge && 1 <= picture_size(page).1 <= edge)
}

/// Shrinks the page until neither edge is longer than `edge`, keeping its shape. It
/// never enlarges, and refuses a bound too small for a readable page.
pub fn fit_within(img: &DynamicImage, edge: u32) -> (res: Result<DynamicImage, String>)
    ensures
        fitted(*img, edge, res),
{
    if edge < SMALLEST_READABLE_EDGE {
        let mut s = String::from_str("A page cannot be shrunk to ");
        text::push_decimal(&mut s, edge as u64);
        s.append(" pixels and still be read. 200 is the least.");
        return Err(s);
    }
    let width = width_of(img);
    let height = height_of(img);
    if width <= edge && height <= edge {
        return Ok(copy_of(img));
    }
    Ok(resized(img, edge))
}

/// Brings the page to its rung's size before it is sharpened and written.
///
/// With a rung, the page is fitted within the rung's edge as [`fit_within`] does.
/// Without one, every pixel is kept that the memory cap, [`quality::LONGEST_EDGE`],
/// allows: a larger page is scaled down to it with the fast box filter, and a page
/// within it comes back as it is.
pub fn fit_to_the_page_size(img: DynamicImage, longest_edge: Option<u32>) -> (res: Result<DynamicImage, String>)
    ensures
        ({
            let size = picture_size(img);
            match longest_edge {
                Some(edge) => fitted(img, edge, res),
                None => if size.0 > quality::LONGEST_EDGE || size.1 > quality::LONGEST_EDGE {
                    res == Ok::<DynamicImage, String>(thumbnail_version(img, quality::LONGEST_EDGE)) && (
                    size.0 >= 1 && size.1 >= 1 ==> 1 <= picture_size(thumbnail_version(img, quality::LONGEST_EDGE)).0
                        <= quality::LONGEST_EDGE && 1 <= picture_size(thumbnail_version(img, quality::LONGEST_EDGE)).1
                        <= quality::LONGEST_EDGE)
                } else {
                    res == Ok::<DynamicImage, String>(img)
                },
            }
        }),
{
    match longest_edge {
        Some(edge) => fit_within(&img, edge),
        None => {
            let width = width_of(&img);
            let height = height_of(&img);
            if width > quality::LONGEST_EDGE || height > quality::LONGEST_EDGE {
                Ok(thumbnailed(&img, quality::LONGEST_EDGE))
            } else {
                Ok(img)
            }
        },
    }
}

/// "Failed to encode the page for `path`: `why`"
pub open spec fn encode_failed_sentence(path: Seq<char>, why: Seq<char>) -> Seq<char> {
    "Failed to encode the page for "@ + path + ": "@ + why
}

/// The bytes of one finished page, as the JPEG that will go into the PDF: the quality
/// is checked first, then the page is encoded at it (8-bit grey and 8-bit RGB as they
/// are, so grey stays grey; anything else made 8-bit RGB first), and its Huffman tables are rebuilt from its own symbol counts when
/// the recoder takes it. `path` is where the page will be written, which an encoder
/// failure names.
pub fn page_bytes(img: &DynamicImage, path: &str, quality: PageQuality) -> (res: Result<Vec<u8>, String>)
    ensures
        !(1 <= quality.jpeg_quality <= 100) ==> (res matches Err(e) && e@ == quality::quality_sentence(
            quality.jpeg_quality as int,
        )),
        1 <= quality.jpeg_quality <= 100 && quality.longest_edge != 0 ==> (res matches Err(e) && e@
            == quality::shrink_sentence(quality.longest_edge as nat)),
        1 <= quality.jpeg_quality <= 100 && quality.longest_edge == 0 ==> match jpeg_encoding(
            encoded_from(*img),
            quality.jpeg_quality,
        ) {
            Ok(bytes) => res matches Ok(page) && written_page(bytes, page@),
            Err(why) => res matches Err(e) && e@ == encode_failed_sentence(path@, why),
        },
{
    match quality::check_quality(quality) {
        Ok(()) => {},
        Err(e) => {
            return Err(e);
        },
    }
    let encoded = if is_luma8_or_rgb8(img) {
        encode(img, quality.jpeg_quality)
    } else {
        let rgb = as_rgb8(img);
        encode(&rgb, quality.jpeg_quality)
    };
    let jpeg = match encoded {
        Ok(bytes) => bytes,
        Err(why) => {
            let mut s = String::from_str("Failed to encode the page for ");
            s.append(path);
            s.append(": ");
            s.append(why.as_str());
            proof {
                assert(s@ == encode_failed_sentence(path@, why@));
            }
            return Err(s);
        },
    };
    Ok(smaller_or_same(jpeg))
}

} // verus!
