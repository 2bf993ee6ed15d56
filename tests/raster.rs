use buddhabrot::codec::encode_counters;
use buddhabrot::raster::{Image, ImageData};
use buddhabrot::vec::filled_with;
use image::ColorType;

fn image_of(counts: &[u32], width: usize, height: usize) -> ImageData {
    ImageData::read_fully(&encode_counters(counts), width, height)
}

#[test]
fn read_fully_pads_short_files_with_zeros() {
    let image = ImageData::read_fully(&[7, 0, 0, 0, 1, 1], 2, 2);
    assert_eq!(image.data(), &vec![7, 0, 0, 0]);
    assert_eq!(image.width(), 2);
    assert_eq!(image.height(), 2);
}

#[test]
fn heights_are_counted() {
    let image = image_of(&[3, 1, 3, 0, 3, 1], 3, 2);
    let heights = image.count_heights();
    assert_eq!(heights.len(), 3);
    assert_eq!(heights[&0], 1);
    assert_eq!(heights[&1], 2);
    assert_eq!(heights[&3], 3);
    assert_eq!(image.highest(), 3);
    assert_eq!(image.sum(), 11);
}

#[test]
fn join_takes_the_second_counters() {
    let a = image_of(&[1, 2, 3, 4], 2, 2);
    let b = image_of(&[5, 6, 7, 8, 9], 5, 1);
    let joined = ImageData::join(a, b);
    assert_eq!(joined.data(), &vec![5, 6, 7, 8]);
    assert_eq!(joined.width(), 2);
}

#[test]
fn map_applies_to_each_counter() {
    let mut image = image_of(&[1, 2, 3], 3, 1);
    image.map(&|v: u32| v * 10 + 1);
    assert_eq!(image.data(), &vec![11, 21, 31]);
    image.map(&|v: u32| v + 1).map(&|v: u32| v * 2);
    assert_eq!(image.data(), &vec![24, 44, 64]);
}

#[test]
fn mapping_to_gray_uses_the_peak() {
    let image = image_of(&[0, 5, 10, 2], 2, 2);
    let gray = image.map_to_image1(&|v: u32, peak: u32| (v * 255 / peak) as u8, ColorType::Gray(8));
    assert_eq!(gray.data(), &vec![0, 127, 255, 51]);
    assert_eq!(gray.width(), 2);
    assert_eq!(gray.height(), 2);
    assert_eq!(gray.color_type(), ColorType::Gray(8));
}

#[test]
fn mapping_to_colour_gives_three_bytes() {
    let image = image_of(&[1, 4], 2, 1);
    let rgb = image.map_to_image3(&|v: u32, peak: u32| [v as u8, peak as u8, 9], ColorType::RGB(8));
    assert_eq!(rgb.data(), &vec![1, 4, 9, 4, 4, 9]);
}

#[test]
fn channels_are_interleaved() {
    let base = image_of(&[1, 2], 2, 1);
    let r = base.map_to_image1(&|v: u32, _p: u32| v as u8, ColorType::Gray(8));
    let g = base.map_to_image1(&|v: u32, _p: u32| (v + 10) as u8, ColorType::Gray(8));
    let b = base.map_to_image1(&|v: u32, _p: u32| (v + 20) as u8, ColorType::Gray(8));
    let rgb = Image::join(&r, &g, &b, ColorType::RGB(8));
    assert_eq!(rgb.data(), &vec![1, 11, 21, 2, 12, 22]);
    assert_eq!(rgb.color_type(), ColorType::RGB(8));
}

#[test]
fn filled_with_repeats_the_value() {
    assert_eq!(filled_with(7u32, 3), vec![7, 7, 7]);
    assert!(filled_with(String::from("a"), 0).is_empty());
    assert_eq!(filled_with(String::from("ab"), 2), vec!["ab".to_string(), "ab".to_string()]);
}
