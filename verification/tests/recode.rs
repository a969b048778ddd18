//! The Huffman recoder, checked on pages the `image` crate's encoder wrote: the
//! recoded page must decode to the same pixels, and a file it will not touch must be
//! refused with a sentence.

use freepdf::rehuff;
use image::codecs::jpeg::JpegEncoder;
use image::{DynamicImage, GrayImage, Luma, Rgb, RgbImage};

/// A page with something on it: a gradient and a few hard edges, so that the scan
/// uses many symbols and not only the flat ones.
fn busy_page(width: u32, height: u32) -> DynamicImage {
    let mut img = RgbImage::new(width, height);
    for (x, y, pixel) in img.enumerate_pixels_mut() {
        let ink = (x / 7 + y / 5) % 3 == 0;
        let base = ((x * 3 + y * 5) % 256) as u8;
        *pixel = if ink { Rgb([20, 30, 40]) } else { Rgb([base, 255 - base, (x ^ y) as u8]) };
    }
    DynamicImage::ImageRgb8(img)
}

fn encoded(img: &DynamicImage, quality: u8) -> Vec<u8> {
    let mut jpeg = Vec::new();
    img.write_with_encoder(JpegEncoder::new_with_quality(&mut jpeg, quality))
        .expect("encoding the test page failed");
    jpeg
}

fn pixels(jpeg: &[u8]) -> Vec<u8> {
    image::load_from_memory(jpeg).expect("the page does not decode").to_rgb8().into_raw()
}

#[test]
fn a_recoded_page_decodes_to_the_same_pixels() {
    let jpeg = encoded(&busy_page(120, 90), 85);
    let smaller = rehuff(&jpeg).expect("the recoder refused its own encoder's page");
    assert_eq!(pixels(&smaller), pixels(&jpeg));
}

#[test]
fn a_recoded_page_is_smaller() {
    let jpeg = encoded(&busy_page(256, 256), 85);
    let smaller = rehuff(&jpeg).expect("the recoder refused its own encoder's page");
    assert!(smaller.len() < jpeg.len(), "{} bytes became {}", jpeg.len(), smaller.len());
}

#[test]
fn a_grey_page_is_recoded_too() {
    let mut img = GrayImage::new(64, 48);
    for (x, y, pixel) in img.enumerate_pixels_mut() {
        *pixel = Luma([((x * 4) ^ (y * 3)) as u8]);
    }
    let img = DynamicImage::ImageLuma8(img);
    let jpeg = encoded(&img, 60);
    let smaller = rehuff(&jpeg).expect("the recoder refused a grey page");
    let back = image::load_from_memory(&smaller).expect("the grey page does not decode");
    assert_eq!(back.to_luma8().into_raw(), image::load_from_memory(&jpeg).unwrap().to_luma8().into_raw());
}

#[test]
fn the_recoded_page_keeps_its_markers_in_order() {
    let jpeg = encoded(&busy_page(40, 40), 75);
    let smaller = rehuff(&jpeg).unwrap();
    assert_eq!(&smaller[..2], &[0xFF, 0xD8]);
    assert_eq!(&smaller[smaller.len() - 2..], &[0xFF, 0xD9]);
    let dht = smaller.windows(2).position(|w| w == [0xFF, 0xC4]).expect("no table written");
    let sof = smaller.windows(2).position(|w| w == [0xFF, 0xC0]).expect("no frame header");
    let sos = smaller.windows(2).position(|w| w == [0xFF, 0xDA]).expect("no scan header");
    assert!(sof < dht && dht < sos);
}

#[test]
fn recoding_twice_changes_nothing_more() {
    let jpeg = encoded(&busy_page(100, 60), 90);
    let once = rehuff(&jpeg).unwrap();
    let twice = rehuff(&once).unwrap();
    assert_eq!(pixels(&twice), pixels(&jpeg));
    assert_eq!(twice, once);
}

#[test]
fn something_that_is_no_jpeg_is_refused() {
    assert_eq!(rehuff(b"hello").unwrap_err(), "This page does not start with a JPEG marker.");
    assert_eq!(rehuff(&[]).unwrap_err(), "This page does not start with a JPEG marker.");
}

#[test]
fn a_page_without_a_scan_is_refused() {
    assert_eq!(rehuff(&[0xFF, 0xD8, 0xFF, 0xD9]).unwrap_err(), "The page ends before it has a scan.");
    assert_eq!(rehuff(&[0xFF, 0xD8]).unwrap_err(), "The page ends before its scan does.");
}

#[test]
fn a_stray_byte_names_where_it_stands() {
    assert_eq!(rehuff(&[0xFF, 0xD8, 0x00, 0x00]).unwrap_err(), "Expected a marker at byte 2 of the page.");
}

#[test]
fn a_progressive_page_is_refused() {
    assert_eq!(
        rehuff(&[0xFF, 0xD8, 0xFF, 0xC2, 0x00, 0x02]).unwrap_err(),
        "Only a baseline JPEG can have its Huffman tables rebuilt."
    );
}

#[test]
fn restart_markers_are_refused() {
    assert_eq!(
        rehuff(&[0xFF, 0xD8, 0xFF, 0xDD, 0x00, 0x04, 0x00, 0x10]).unwrap_err(),
        "The page carries restart markers, which this does not read."
    );
}

#[test]
fn a_segment_that_lies_about_its_length_is_refused() {
    assert_eq!(
        rehuff(&[0xFF, 0xD8, 0xFF, 0xE0, 0x00, 0x10, 0x00]).unwrap_err(),
        "A segment of the page runs past the end of the file."
    );
    assert_eq!(
        rehuff(&[0xFF, 0xD8, 0xFF, 0xE0, 0x00, 0x01, 0x00]).unwrap_err(),
        "A segment of the page is shorter than its own length."
    );
    assert_eq!(rehuff(&[0xFF, 0xD8, 0xFF, 0xE0, 0x00]).unwrap_err(), "A segment of the page has no length.");
}

#[test]
fn a_cut_off_page_is_refused_and_never_guessed() {
    let jpeg = encoded(&busy_page(64, 64), 85);
    for keep in [jpeg.len() / 2, jpeg.len() - 40] {
        assert!(rehuff(&jpeg[..keep]).is_err(), "a page cut at {keep} bytes was recoded");
    }
}

#[test]
fn a_scan_before_its_frame_is_refused() {
    assert_eq!(
        rehuff(&[0xFF, 0xD8, 0xFF, 0xDA, 0x00, 0x02]).unwrap_err(),
        "The page's scan has no frame header before it."
    );
}

#[test]
fn counts_that_ask_for_more_codes_than_their_lengths_hold_are_refused() {
    let mut counts = vec![0u8; 16];
    counts[0] = 3;
    let made = freepdf::jpeg::table::Table::new(counts, vec![1, 2, 3]);
    assert_eq!(
        made.err().as_deref(),
        Some("A Huffman table holds more codes than its lengths allow.")
    );
}

#[test]
fn counts_that_fill_their_lengths_exactly_are_taken() {
    let mut counts = vec![0u8; 16];
    counts[0] = 1;
    counts[1] = 2;
    assert!(freepdf::jpeg::table::Table::new(counts, vec![1, 2, 3]).is_ok());
}

#[test]
fn a_code_word_written_with_a_table_reads_back_as_its_symbol() {
    let mut counts = vec![0u8; 16];
    counts[0] = 1;
    counts[1] = 1;
    counts[2] = 2;
    let table = freepdf::jpeg::table::Table::new(counts, vec![7, 0xFF, 3, 200]).expect("fits");
    for symbol in [7u8, 0xFF, 3, 200] {
        let (code, len) = table.codes[symbol as usize];
        let mut writer = freepdf::jpeg::bits::BitWriter::new(Vec::new());
        writer.put(code as u32, len);
        writer.put(0xFFFF, 16);
        let bytes = writer.finish();
        let mut reader = freepdf::jpeg::bits::BitReader::new(&bytes);
        assert_eq!(reader.symbol(&table), Ok(symbol));
    }
}

#[test]
fn two_symbols_counted_once_get_the_shortest_codes_and_keep_the_all_ones_word_free() {
    let mut counted = vec![0u64; 257];
    counted[0] = 1;
    counted[1] = 1;
    let table = freepdf::jpeg::optimal::optimal_table(&counted).expect("builds");
    let mut counts = vec![0u8; 16];
    counts[0] = 1;
    counts[1] = 1;
    assert_eq!(table.counts, counts);
    assert_eq!(table.symbols, vec![0, 1]);
    assert_eq!(table.codes[0], (0b0, 1));
    assert_eq!(table.codes[1], (0b10, 2));
}

fn one_block_page(dht: &[u8]) -> Vec<u8> {
    let mut jpeg = vec![0xFF, 0xD8];
    jpeg.extend_from_slice(&[0xFF, 0xC0, 0x00, 0x0B, 0x08, 0x00, 0x08, 0x00, 0x08, 0x01, 0x01, 0x11, 0x00]);
    jpeg.extend_from_slice(dht);
    jpeg.extend_from_slice(&[0xFF, 0xDA, 0x00, 0x08, 0x01, 0x01, 0x00, 0x00, 0x3F, 0x00]);
    jpeg.extend_from_slice(&[0x3F, 0xFF, 0xD9]);
    jpeg
}

fn one_symbol_table(class_and_id: u8) -> Vec<u8> {
    let mut table = vec![class_and_id, 0x01];
    table.extend_from_slice(&[0u8; 15]);
    table.push(0x00);
    table
}

#[test]
fn a_one_block_page_is_written_with_one_table_per_class() {
    let mut old_dht = vec![0xFF, 0xC4, 0x00, 0x26];
    old_dht.extend(one_symbol_table(0x00));
    old_dht.extend(one_symbol_table(0x10));
    let page = one_block_page(&old_dht);
    assert_eq!(page.len(), 68);
    let mut new_dht = vec![0xFF, 0xC4, 0x00, 0x14];
    new_dht.extend(one_symbol_table(0x00));
    new_dht.extend_from_slice(&[0xFF, 0xC4, 0x00, 0x14]);
    new_dht.extend(one_symbol_table(0x10));
    let expected = one_block_page(&new_dht);
    assert_eq!(expected.len(), 72);
    assert_eq!(rehuff(&page), Ok(expected));
}
