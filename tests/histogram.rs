use buddhabrot::codec::{decode_counters, encode_counters};
use buddhabrot::raster::ImageData;
use buddhabrot::regions::RegionBuffers;

/// Flushes every dirty region of `buffers` into `file`, as teardown does.
fn flush_all(buffers: &mut RegionBuffers, file: &mut Vec<u8>) {
    for r in buffers.dirty_regions() {
        flush_one(buffers, file, r);
    }
}

fn flush_one(buffers: &mut RegionBuffers, file: &mut Vec<u8>, r: usize) {
    let size = buffers.file_buffer_size();
    let start = buffers.region_byte_offset(r) as usize;
    let end = start + 4 * size;
    let mut counts = decode_counters(&file[start..end]);
    buffers.flush_region(r, &mut counts);
    let bytes = encode_counters(&counts);
    file[start..end].copy_from_slice(&bytes);
}

fn new_file(buffers: &RegionBuffers) -> Vec<u8> {
    vec![0u8; buffers.file_len_bytes() as usize]
}

#[test]
fn counters_are_little_endian() {
    assert_eq!(encode_counters(&[1, 0x0102_0304]), vec![1, 0, 0, 0, 4, 3, 2, 1]);
    assert_eq!(decode_counters(&[4, 3, 2, 1, 255, 255, 255, 255, 9]), vec![0x0102_0304, u32::MAX]);
}

#[test]
fn counters_round_trip() {
    let counts = vec![0, 1, 255, 256, 65_535, 1 << 24, u32::MAX, 123_456_789];
    assert_eq!(decode_counters(&encode_counters(&counts)), counts);
}

#[test]
fn empty_bucket_gives_zeroed_file() {
    let mut buffers = RegionBuffers::new(100, 100, 100, 10);
    assert_eq!(buffers.region_count(), 100);
    let mut file = new_file(&buffers);
    assert_eq!(file.len(), 100 * 100 * 4);
    flush_all(&mut buffers, &mut file);
    let image = ImageData::read_fully(&file, 100, 100);
    assert_eq!(image.data().len(), 10_000);
    assert!(image.data().iter().all(|c| *c == 0));
    assert_eq!(image.sum(), 0);
}

#[test]
fn file_is_padded_to_whole_regions() {
    let buffers = RegionBuffers::new(10, 10, 30, 2);
    assert_eq!(buffers.region_count(), 4);
    assert_eq!(buffers.file_len_bytes(), 4 * 30 * 4);
    assert_eq!(buffers.region_byte_offset(3), 3 * 30 * 4);
}

#[test]
fn region_flush_after_cutoff() {
    let mut buffers = RegionBuffers::new(10, 10, 25, 2);
    assert_eq!(buffers.region_count(), 4);
    let mut file = new_file(&buffers);
    assert_eq!(buffers.add_pixel(0, 0), None);
    assert_eq!(buffers.add_pixel(0, 0), None);
    assert_eq!(buffers.add_pixel(0, 0), Some(0));
    flush_one(&mut buffers, &mut file, 0);
    assert!(buffers.dirty_regions().is_empty());
    flush_all(&mut buffers, &mut file);
    let image = ImageData::read_fully(&file, 10, 10);
    assert_eq!(image.data()[0], 3);
    assert_eq!(image.sum(), 3);
}

#[test]
fn pixels_off_the_grid_are_dropped() {
    let mut buffers = RegionBuffers::new(10, 10, 25, 100);
    assert_eq!(buffers.add_pixel(10, 0), None);
    assert_eq!(buffers.add_pixel(0, 10), None);
    assert!(buffers.dirty_regions().is_empty());
    assert_eq!(buffers.add_pixel(9, 9), None);
    assert_eq!(buffers.dirty_regions(), vec![3]);
}

#[test]
fn regions_straddle_rows() {
    let mut buffers = RegionBuffers::new(10, 10, 25, 100);
    buffers.add_pixel(4, 2);
    buffers.add_pixel(5, 2);
    buffers.add_pixel(9, 9);
    assert_eq!(buffers.dirty_regions(), vec![0, 1, 3]);
    let mut file = new_file(&buffers);
    flush_all(&mut buffers, &mut file);
    let image = ImageData::read_fully(&file, 10, 10);
    assert_eq!(image.data()[24], 1);
    assert_eq!(image.data()[25], 1);
    assert_eq!(image.data()[99], 1);
    assert_eq!(image.sum(), 3);
}

#[test]
fn every_accepted_increment_reaches_the_file() {
    let mut buffers = RegionBuffers::new(7, 5, 4, 1);
    let mut file = new_file(&buffers);
    let mut accepted = 0u32;
    for k in 0u64..200 {
        let x = (k * 7) % 9;
        let y = (k * 3) % 6;
        if x < 7 && y < 5 {
            accepted += 1;
        }
        if let Some(r) = buffers.add_pixel(x, y) {
            flush_one(&mut buffers, &mut file, r);
        }
    }
    flush_all(&mut buffers, &mut file);
    let image = ImageData::read_fully(&file, 7, 5);
    assert_eq!(image.sum(), accepted);
    let total: u32 = decode_counters(&file).iter().sum();
    assert_eq!(total, accepted);
}

#[test]
fn flushing_before_teardown_changes_nothing() {
    let run = |flush_early: bool| {
        let mut buffers = RegionBuffers::new(6, 6, 8, 3);
        let mut file = new_file(&buffers);
        for k in 0u64..40 {
            if let Some(r) = buffers.add_pixel(k % 6, (k / 3) % 6) {
                flush_one(&mut buffers, &mut file, r);
            }
        }
        if flush_early {
            for r in 0..buffers.region_count() {
                flush_one(&mut buffers, &mut file, r);
            }
        }
        flush_all(&mut buffers, &mut file);
        file
    };
    assert_eq!(run(true), run(false));
}

#[test]
fn counters_saturate() {
    let mut buffers = RegionBuffers::new(2, 2, 4, 10);
    buffers.add_pixel(1, 0);
    buffers.add_pixel(1, 0);
    let mut counts = vec![0, u32::MAX - 1, 5, 0];
    buffers.flush_region(0, &mut counts);
    assert_eq!(counts, vec![0, u32::MAX, 5, 0]);
}
