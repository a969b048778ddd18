//! The page settings, the brightness levels, the sheet mask and the picture tools.

use freepdf::page::levels::{darkest_ink, levels_from_histograms, paper_floor};
use freepdf::page::picture::{check_crop, page_bytes, quarter_turns, smaller_or_same};
use freepdf::page::quality::check_quality;
use freepdf::{
    crop, rotate, rung_numbers, suggest_levels, to_grayscale, FreepdfPageQuality, Levels,
    PageQuality, Rect, SheetMask,
};
use image::{DynamicImage, Rgb, RgbImage};

/// A gradient, not one flat colour: a flat image compresses to almost nothing and
/// would still look fine if the pixel buffer were handed over wrongly.
fn test_image(width: u32, height: u32) -> DynamicImage {
    let mut img = RgbImage::new(width, height);
    for (x, y, pixel) in img.enumerate_pixels_mut() {
        *pixel = Rgb([(x % 256) as u8, (y % 256) as u8, 128]);
    }
    DynamicImage::ImageRgb8(img)
}

#[test]
fn a_quarter_turn_swaps_width_and_height() {
    let turned = rotate(&test_image(200, 300), 90).expect("rotating failed");

    assert_eq!((turned.width(), turned.height()), (300, 200));
}

#[test]
fn rotating_by_a_free_angle_is_refused() {
    assert!(rotate(&test_image(200, 300), 3).is_err());
}

#[test]
fn grayscale_leaves_no_colour_behind() {
    let grey = to_grayscale(&test_image(20, 20)).to_rgb8();

    let pixel = grey.get_pixel(7, 11);
    assert_eq!(pixel[0], pixel[1]);
    assert_eq!(pixel[1], pixel[2]);
}

#[test]
fn crop_cuts_to_the_requested_box() {
    let cut = crop(&test_image(200, 300), 10, 20, 50, 60).expect("cropping failed");

    assert_eq!((cut.width(), cut.height()), (50, 60));
}

#[test]
fn a_crop_that_does_not_fit_is_refused() {
    let img = test_image(200, 300);

    assert!(crop(&img, 180, 0, 50, 10).is_err(), "box runs past the right edge");
    assert!(crop(&img, 0, 280, 10, 50).is_err(), "box runs past the bottom edge");
    assert!(crop(&img, 0, 0, 0, 10).is_err(), "box has no width");
    assert!(crop(&img, u32::MAX, 0, 10, 10).is_err(), "box overflows u32");
}

#[test]
fn a_crop_that_does_not_fit_says_both_sizes() {
    assert_eq!(
        check_crop(180, 0, 50, 10, 200, 300).unwrap_err(),
        "A 50x10 crop at (180, 0) does not fit inside the 200x300 image."
    );
    assert_eq!(
        check_crop(0, 0, 0, 10, 200, 300).unwrap_err(),
        "The crop box must be wider and taller than zero pixels."
    );
    assert!(check_crop(150, 240, 50, 60, 200, 300).is_ok());
}

#[test]
fn turns_are_counted_round_the_circle() {
    assert_eq!(quarter_turns(0).unwrap(), 0);
    assert_eq!(quarter_turns(450).unwrap(), 1);
    assert_eq!(quarter_turns(540).unwrap(), 2);
    assert_eq!(quarter_turns(270).unwrap(), 3);
    assert_eq!(quarter_turns(45).unwrap_err(), "Rotation must be 0, 90, 180 or 270 degrees, but was 45.");
}

#[test]
fn unchanged_levels_are_unchanged() {
    assert!(Levels::unchanged().are_unchanged());
    assert_eq!(Levels::unchanged(), Levels { black: [0; 3], white: [255; 3] });
    assert!(!Levels { black: [0, 0, 1], white: [255; 3] }.are_unchanged());
}

/// A histogram of `ink` pixels at 30 and a paper hump from 180 to 220, peaking at 200.
fn document_histogram() -> [u32; 256] {
    let mut counts = [0u32; 256];
    counts[30] = 500;
    for v in 180..=220usize {
        counts[v] = 1000 - 40 * (v as i32 - 200).unsigned_abs();
    }
    counts
}

#[test]
fn the_ink_is_past_the_darkest_percent() {
    let mut counts = [0u32; 256];
    counts[5] = 1;
    counts[40] = 99;
    counts[200] = 900;
    // 1000 pixels: the darkest 10 may be noise, so the one speck at 5 is skipped.
    assert_eq!(darkest_ink(&counts), 40);
    assert_eq!(darkest_ink(&[0u32; 256]), 0);
}

#[test]
fn the_paper_floor_is_the_lower_edge_of_the_hump() {
    let counts = document_histogram();
    assert_eq!(paper_floor(&counts), 180);
    assert_eq!(darkest_ink(&counts), 30);
}

#[test]
fn a_tie_for_the_peak_goes_to_the_brighter_value() {
    let mut counts = [0u32; 256];
    counts[100] = 50;
    counts[200] = 50;
    assert_eq!(paper_floor(&counts), 200);
}

#[test]
fn levels_are_suggested_per_channel() {
    let mut flat = [0u32; 256];
    flat[130] = 2500;
    let levels = levels_from_histograms(&[document_histogram(), flat, document_histogram()]);
    assert_eq!(levels.black, [30, 0, 30]);
    assert_eq!(levels.white, [180, 255, 180]);
}

#[test]
fn a_flat_picture_gets_unchanged_levels() {
    let flat = RgbImage::from_pixel(50, 50, Rgb([130, 130, 130])).into_raw();
    assert!(suggest_levels(&flat, 50, None).are_unchanged());
}

#[test]
fn only_the_paper_is_measured() {
    // Two pixels across: a dark table on the left, paper with a little writing on
    // the right.
    let mut rgb = Vec::new();
    for y in 0..100u32 {
        rgb.extend_from_slice(&[5, 5, 5]);
        let v = if y < 10 { 40 } else { 200 };
        rgb.extend_from_slice(&[v, v, v]);
    }
    let mask = SheetMask::new(Rect { x: 1, y: 0, width: 1, height: 100 }, vec![false, true], 2, 1, 2, 100)
        .expect("the mask has a shape");
    let on_paper = suggest_levels(&rgb, 2, Some(&mask));
    assert_eq!(on_paper, Levels { black: [40; 3], white: [200; 3] });
    let everywhere = suggest_levels(&rgb, 2, None);
    assert_eq!(everywhere, Levels { black: [5; 3], white: [200; 3] });
}

#[test]
fn the_mask_answers_for_the_full_sized_picture() {
    let on_paper = vec![false, false, false, false, true, false, false, false, false];
    let mask = SheetMask::new(Rect { x: 30, y: 30, width: 30, height: 30 }, on_paper, 3, 3, 90, 90).unwrap();
    assert!(mask.contains(45, 45));
    assert!(!mask.contains(10, 45));
    assert!(!mask.contains(89, 89));
    assert!(!mask.runs_off_the_picture());
    assert!(!mask.is_the_whole_image());
}

#[test]
fn a_sheet_touching_the_border_runs_off() {
    let mask = SheetMask::new(Rect { x: 0, y: 0, width: 90, height: 90 }, vec![true; 9], 3, 3, 90, 90).unwrap();
    assert!(mask.runs_off_the_picture());
    assert!(mask.is_the_whole_image());
    assert!(SheetMask::new(Rect { x: 0, y: 0, width: 1, height: 1 }, vec![true; 8], 3, 3, 90, 90).is_none());
}

#[test]
fn no_rung_is_the_original_page() {
    let (quality, edge) = rung_numbers(None).unwrap();
    assert_eq!(quality, PageQuality::unchanged());
    assert_eq!(quality, PageQuality { jpeg_quality: 85, longest_edge: 0 });
    assert_eq!(edge, None);
}

#[test]
fn a_rung_is_read_into_its_numbers() {
    let (quality, edge) = rung_numbers(Some(FreepdfPageQuality { jpeg_quality: 45, longest_edge: 800 })).unwrap();
    assert_eq!(quality, PageQuality { jpeg_quality: 45, longest_edge: 0 });
    assert_eq!(edge, Some(800));
    let (_, edge) = rung_numbers(Some(FreepdfPageQuality { jpeg_quality: 100, longest_edge: 0 })).unwrap();
    assert_eq!(edge, None);
}

#[test]
fn a_rung_out_of_range_is_refused_with_its_number() {
    let why = rung_numbers(Some(FreepdfPageQuality { jpeg_quality: 0, longest_edge: 0 })).unwrap_err();
    assert_eq!(why, "The page quality must be between 1 and 100, but was 0.");
    let why = rung_numbers(Some(FreepdfPageQuality { jpeg_quality: -7, longest_edge: 0 })).unwrap_err();
    assert_eq!(why, "The page quality must be between 1 and 100, but was -7.");
    let why = rung_numbers(Some(FreepdfPageQuality { jpeg_quality: 50, longest_edge: -1 })).unwrap_err();
    assert_eq!(why, "A page cannot keep a longest edge of -1 pixels.");
    let why = rung_numbers(Some(FreepdfPageQuality { jpeg_quality: 50, longest_edge: 5000 })).unwrap_err();
    assert_eq!(
        why,
        "A page cannot keep a longest edge of 5000 pixels. 3000 is the most, so that the page still fits in the phone's memory while it is sharpened."
    );
}

#[test]
fn a_page_quality_is_checked_before_anything_is_encoded() {
    assert!(check_quality(PageQuality::unchanged()).is_ok());
    assert_eq!(
        check_quality(PageQuality { jpeg_quality: 101, longest_edge: 0 }).unwrap_err(),
        "The page quality must be between 1 and 100, but was 101."
    );
    assert_eq!(
        check_quality(PageQuality { jpeg_quality: 85, longest_edge: 1200 }).unwrap_err(),
        "The page cannot be shrunk to 1200 pixels while it is written, because it is already sharpened by then. Shrink it before sharpening and leave the longest edge at 0."
    );
}

#[test]
fn a_written_page_holds_the_same_pixels_in_fewer_bytes() {
    let img = test_image(300, 200);
    let bytes = page_bytes(&img, "page.jpg", PageQuality::unchanged()).expect("writing the page failed");
    let mut plain = Vec::new();
    img.write_with_encoder(image::codecs::jpeg::JpegEncoder::new_with_quality(&mut plain, 85)).unwrap();
    assert!(bytes.len() < plain.len());
    let back = image::load_from_memory(&bytes).unwrap().to_rgb8().into_raw();
    let expected = image::load_from_memory(&plain).unwrap().to_rgb8().into_raw();
    assert_eq!(back, expected);
}

#[test]
fn a_page_the_recoder_refuses_keeps_its_bytes() {
    assert_eq!(smaller_or_same(b"not a jpeg".to_vec()), b"not a jpeg".to_vec());
}

#[test]
fn a_bound_too_small_to_read_is_refused() {
    let img = test_image(200, 300);
    assert_eq!(
        freepdf::page::picture::fit_within(&img, 150).err().as_deref(),
        Some("A page cannot be shrunk to 150 pixels and still be read. 200 is the least.")
    );
}

#[test]
fn a_page_that_fits_is_never_enlarged() {
    let img = test_image(200, 300);
    let fitted = freepdf::page::picture::fit_within(&img, 1000).expect("fits");
    assert_eq!((fitted.width(), fitted.height()), (200, 300));
}

#[test]
fn a_larger_page_is_shrunk_keeping_its_shape() {
    let img = test_image(200, 300);
    let fitted = freepdf::page::picture::fit_within(&img, 250).expect("shrinks");
    assert_eq!((fitted.width(), fitted.height()), (167, 250));
}

#[test]
fn without_a_rung_a_page_under_the_cap_is_kept() {
    let img = test_image(200, 300);
    let kept = freepdf::page::picture::fit_to_the_page_size(img, None).expect("kept");
    assert_eq!((kept.width(), kept.height()), (200, 300));
}

#[test]
fn without_a_rung_a_page_over_the_cap_is_brought_down_to_it() {
    let img = test_image(3100, 20);
    let capped = freepdf::page::picture::fit_to_the_page_size(img, None).expect("capped");
    assert!(capped.width() <= 3000 && capped.height() <= 3000);
    assert_eq!(capped.width(), 3000);
}

#[test]
fn a_rung_under_the_readable_least_is_refused() {
    let img = test_image(200, 300);
    assert!(freepdf::page::picture::fit_to_the_page_size(img, Some(120)).is_err());
}

#[test]
fn the_header_gives_the_size_and_the_greyness() {
    let grey = DynamicImage::ImageLuma8(image::GrayImage::new(40, 24));
    let mut jpeg = Vec::new();
    grey.write_with_encoder(image::codecs::jpeg::JpegEncoder::new_with_quality(&mut jpeg, 80))
        .expect("encodes");
    assert_eq!(freepdf::jpeg::header::jpeg_shape(&jpeg), Ok((40, 24, true)));
    let colour = test_image(16, 8);
    let mut jpeg = Vec::new();
    colour
        .to_rgb8()
        .write_with_encoder(image::codecs::jpeg::JpegEncoder::new_with_quality(&mut jpeg, 80))
        .expect("encodes");
    assert_eq!(freepdf::jpeg::header::jpeg_shape(&jpeg), Ok((16, 8, false)));
}

#[test]
fn bytes_that_are_no_jpeg_have_no_header() {
    assert!(freepdf::jpeg::header::jpeg_shape(&[1, 2, 3]).is_err());
}

#[test]
fn a_grey_copy_keeps_its_size() {
    let img = test_image(30, 20);
    let grey = freepdf::to_grayscale(&img);
    assert_eq!((grey.width(), grey.height()), (30, 20));
    assert!(grey.to_rgb8().pixels().all(|p| p.0[0] == p.0[1] && p.0[1] == p.0[2]));
}

#[test]
fn a_quarter_turn_clockwise_puts_the_left_column_on_top() {
    let img = test_image(5, 3);
    let turned = rotate(&img, 90).expect("a quarter turn").to_rgb8();
    let before = img.to_rgb8();
    for y in 0..3 {
        for x in 0..5 {
            assert_eq!(turned.get_pixel(3 - 1 - y, x), before.get_pixel(x, y));
        }
    }
    let back = rotate(&img, 270).expect("three quarters").to_rgb8();
    for y in 0..3 {
        for x in 0..5 {
            assert_eq!(back.get_pixel(y, 5 - 1 - x), before.get_pixel(x, y));
        }
    }
}

#[test]
fn a_crop_keeps_the_pixels_of_its_box() {
    let img = test_image(40, 30);
    let part = crop(&img, 7, 5, 10, 4).expect("fits").to_rgb8();
    let before = img.to_rgb8();
    for j in 0..4 {
        for i in 0..10 {
            assert_eq!(part.get_pixel(i, j), before.get_pixel(7 + i, 5 + j));
        }
    }
}

#[test]
fn a_grey_page_is_encoded_grey_and_a_page_with_alpha_as_rgb() {
    let grey = DynamicImage::ImageLuma8(image::GrayImage::from_pixel(24, 16, image::Luma([90])));
    let bytes = page_bytes(&grey, "grey.jpg", PageQuality::unchanged()).expect("grey encodes");
    assert_eq!(freepdf::jpeg::header::jpeg_shape(&bytes), Ok((24, 16, true)));
    let with_alpha = DynamicImage::ImageRgba8(image::RgbaImage::from_pixel(24, 16, image::Rgba([200, 10, 10, 255])));
    let bytes = page_bytes(&with_alpha, "alpha.jpg", PageQuality::unchanged()).expect("rgba encodes");
    assert_eq!(freepdf::jpeg::header::jpeg_shape(&bytes), Ok((24, 16, false)));
}

/// A photographed page: paper, unevenly lit from 150 to 200 and warm (more red than
/// blue), with a band of writing across it.
fn photographed_document() -> DynamicImage {
    let mut img = RgbImage::new(200, 200);
    for (x, _y, pixel) in img.enumerate_pixels_mut() {
        let brightness = 150 + (x / 4) as u8;
        *pixel = Rgb([brightness + 12, brightness, brightness - 10]);
    }
    for y in 80..120 {
        for x in 40..160 {
            img.put_pixel(x, y, Rgb([58, 55, 52]));
        }
    }
    DynamicImage::ImageRgb8(img)
}

#[test]
fn suggested_levels_separate_the_writing_from_the_paper() {
    let page = photographed_document().to_rgb8();
    let levels = suggest_levels(page.as_raw(), page.width(), None);

    for channel in 0..3 {
        assert!(
            levels.black[channel] > 40 && levels.black[channel] < 80,
            "the black end should land on the writing, but was {:?}",
            levels.black
        );
        assert!(
            levels.white[channel] > 100 && levels.white[channel] < 190,
            "the white end should land below the darkest paper, but was {:?}",
            levels.white
        );
    }

    // Warm light means more red than blue, so red needs the higher white end.
    assert!(
        levels.white[0] > levels.white[2],
        "the colour cast was not measured: {:?}",
        levels.white
    );
}

#[test]
fn an_image_without_paper_is_left_alone() {
    let flat = RgbImage::from_pixel(50, 50, Rgb([130, 130, 130]));

    let levels = suggest_levels(flat.as_raw(), flat.width(), None);

    assert!(levels.are_unchanged(), "a flat image was stretched: {levels:?}");
}

#[test]
fn a_shrunk_page_is_the_lanczos_resize_of_the_whole_page() {
    let img = test_image(200, 300);
    let fitted = freepdf::page::picture::fit_within(&img, 250).expect("shrinks");
    let expected = img.resize(250, 250, image::imageops::FilterType::Lanczos3);
    assert_eq!(fitted.to_rgb8().into_raw(), expected.to_rgb8().into_raw());
}

#[test]
fn the_grey_page_is_the_grayscale_of_the_page_itself() {
    let img = test_image(30, 20);
    assert_eq!(to_grayscale(&img).to_luma8().into_raw(), img.grayscale().to_luma8().into_raw());
}
