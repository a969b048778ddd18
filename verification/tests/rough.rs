//! The rough area search on small hand-drawn pictures: which pixels are background,
//! which patch is the sheet, and the brightness measurements around them.

use freepdf::page::grid::visit_neighbours;
use freepdf::page::rough::{
    brightness_histogram, dark_area_reaching_the_border, largest_blob, middle_brightness, middle_of_the_scanline,
};
use freepdf::Rect;

/// A picture from rows of text: `#` is set, anything else is not.
fn picture(rows: &[&str]) -> (Vec<bool>, u32, u32) {
    let width = rows[0].len() as u32;
    let height = rows.len() as u32;
    let pixels = rows.iter().flat_map(|row| row.chars().map(|c| c == '#')).collect();
    (pixels, width, height)
}

#[test]
fn neighbours_are_left_right_up_down_and_stay_inside() {
    assert_eq!(visit_neighbours(4, 3, 3), vec![3, 5, 1, 7]);
    assert_eq!(visit_neighbours(0, 3, 3), vec![1, 3]);
    assert_eq!(visit_neighbours(8, 3, 3), vec![7, 5]);
    assert_eq!(visit_neighbours(2, 3, 1), vec![1]);
    assert_eq!(visit_neighbours(0, 1, 1), Vec::<usize>::new());
}

#[test]
fn the_background_is_the_dark_reaching_the_edge() {
    // `#` is bright. The dark hole in the middle is enclosed and is not background.
    let (bright, width, height) = picture(&[
        ".......", //
        ".#####.", //
        ".#...#.", //
        ".#####.", //
        ".......", //
    ]);
    let outside = dark_area_reaching_the_border(&bright, width, height);
    for (index, &is_outside) in outside.iter().enumerate() {
        let (x, y) = (index as u32 % width, index as u32 / width);
        let on_edge = x == 0 || y == 0 || x == width - 1 || y == height - 1;
        assert_eq!(is_outside, on_edge, "pixel ({x}, {y})");
    }
}

#[test]
fn a_bright_border_keeps_everything_inside() {
    let (bright, width, height) = picture(&["####", "#..#", "####"]);
    let outside = dark_area_reaching_the_border(&bright, width, height);
    assert!(outside.iter().all(|&o| !o));
}

#[test]
fn a_dark_channel_to_the_edge_is_background() {
    let (bright, width, height) = picture(&["#.###", "#.#.#", "#####"]);
    let outside = dark_area_reaching_the_border(&bright, width, height);
    assert_eq!(outside, vec![false, true, false, false, false, false, true, false, false, false, false, false, false, false, false]);
}

#[test]
fn the_largest_patch_wins_with_its_box_and_mask() {
    let (inside, width, height) = picture(&[
        "##.....", //
        "##..###", //
        "....###", //
        "......#", //
    ]);
    let (area, rect, mask) = largest_blob(&inside, width, height).expect("there are patches");
    assert_eq!(area, 7);
    assert_eq!(rect, Rect { x: 4, y: 1, width: 3, height: 3 });
    let expected: Vec<bool> = picture(&[".......", "....###", "....###", "......#"]).0;
    assert_eq!(mask, expected);
}

#[test]
fn of_two_patches_as_big_the_first_is_kept() {
    let (inside, width, height) = picture(&["##..##", "......", "##..##"]);
    let (area, rect, _) = largest_blob(&inside, width, height).unwrap();
    assert_eq!(area, 2);
    assert_eq!(rect, Rect { x: 0, y: 0, width: 2, height: 1 });
}

#[test]
fn patches_touching_only_at_a_corner_stay_apart() {
    let (inside, width, height) = picture(&["#..", ".#.", "..#"]);
    let (area, rect, _) = largest_blob(&inside, width, height).unwrap();
    assert_eq!(area, 1);
    assert_eq!(rect, Rect { x: 0, y: 0, width: 1, height: 1 });
}

#[test]
fn nothing_set_has_no_patch() {
    let (inside, width, height) = picture(&["...", "..."]);
    assert!(largest_blob(&inside, width, height).is_none());
    assert!(largest_blob(&Vec::new(), 0, 0).is_none());
}

#[test]
fn the_histogram_counts_every_brightness() {
    let counts = brightness_histogram(&[0, 255, 7, 7, 0, 7]);
    assert_eq!(counts[0], 2);
    assert_eq!(counts[7], 3);
    assert_eq!(counts[255], 1);
    assert_eq!(counts.iter().map(|&c| c as u64).sum::<u64>(), 6);
}

#[test]
fn the_middle_brightness_has_half_the_pixels_below_it() {
    let mut counts = [0u32; 256];
    counts[10] = 3;
    counts[200] = 4;
    assert_eq!(middle_brightness(&counts), Some(200));
    counts[10] = 4;
    assert_eq!(middle_brightness(&counts), Some(10));
    assert_eq!(middle_brightness(&[0u32; 256]), None);
}

#[test]
fn the_middle_of_a_scanline_is_its_middle_place() {
    assert_eq!(middle_of_the_scanline(&vec![3, 4, 5, 9]), Some(5));
    assert_eq!(middle_of_the_scanline(&vec![8]), Some(8));
    assert_eq!(middle_of_the_scanline(&vec![]), None);
}
