use rxing::common::{BitArray, GlobalHistogramBinarizer, HybridBinarizer};
use rxing::Exceptions;

fn histogram_of(counts: &[(usize, u32)]) -> Vec<u32> {
    let mut buckets = vec![0u32; 32];
    for (bucket, count) in counts.iter() {
        buckets[*bucket] = *count;
    }
    buckets
}

#[test]
fn black_point_lies_in_the_valley() {
    // peaks at buckets 4 and 20, nothing between them: every bucket
    // between the peaks scores (x - 4)^2 * (20 - x) * 100, greatest at 15
    let buckets = histogram_of(&[(4, 100), (20, 60)]);
    assert_eq!(
        GlobalHistogramBinarizer::estimateBlackPoint(&buckets),
        Ok(15 << 3)
    );
}

#[test]
fn black_point_prefers_a_low_valley() {
    let mut buckets = histogram_of(&[(2, 50), (28, 80)]);
    for b in 3..28 {
        buckets[b] = 80;
    }
    buckets[10] = 0;
    // the tallest peak is the first of the buckets of 80, bucket 3; the
    // second peak is bucket 28; only bucket 10 is lower than the peak
    assert_eq!(
        GlobalHistogramBinarizer::estimateBlackPoint(&buckets),
        Ok(10 << 3)
    );
}

#[test]
fn peaks_too_close_mean_no_contrast() {
    let buckets = histogram_of(&[(10, 100), (12, 90)]);
    assert_eq!(
        GlobalHistogramBinarizer::estimateBlackPoint(&buckets),
        Err(Exceptions::NotFoundException)
    );
    let apart = histogram_of(&[(10, 100), (13, 90)]);
    assert_eq!(
        GlobalHistogramBinarizer::estimateBlackPoint(&apart),
        Ok(12 << 3)
    );
}

#[test]
fn empty_histogram_has_no_black_point() {
    assert_eq!(
        GlobalHistogramBinarizer::estimateBlackPoint(&vec![0u32; 32]),
        Err(Exceptions::NotFoundException)
    );
}

#[test]
fn uniform_dark_image_is_not_found() {
    for luminance in [0u8, 7, 8, 23] {
        let binarizer = GlobalHistogramBinarizer::new(20, 20, vec![luminance; 400]);
        assert_eq!(
            binarizer.getBlackMatrix().err(),
            Some(Exceptions::NotFoundException)
        );
        let mut row = BitArray::new();
        assert_eq!(
            binarizer.getBlackRow(3, &mut row).err(),
            Some(Exceptions::NotFoundException)
        );
    }
}

#[test]
fn uniform_light_image_is_all_white() {
    // the one peak lies far from bucket 0, which counts as the second peak
    let binarizer = GlobalHistogramBinarizer::new(20, 20, vec![255u8; 400]);
    let matrix = binarizer.getBlackMatrix().unwrap();
    assert_eq!(matrix.getEnclosingRectangle(), None);
}

#[test]
fn global_matrix_thresholds_every_pixel() {
    let width = 20;
    let height = 10;
    let mut luminances = vec![0u8; width * height];
    for y in 0..height {
        for x in 0..width {
            luminances[y * width + x] = if x < 10 { 30 } else { 220 };
        }
    }
    let binarizer = GlobalHistogramBinarizer::new(width, height, luminances);
    assert_eq!(binarizer.getWidth(), 20);
    assert_eq!(binarizer.getHeight(), 10);
    let matrix = binarizer.getBlackMatrix().unwrap();
    for y in 0..height {
        for x in 0..width {
            assert_eq!(matrix.get(x as u32, y as u32), x < 10);
        }
    }
}

#[test]
fn global_matrix_of_an_empty_image_is_refused() {
    let binarizer = GlobalHistogramBinarizer::new(0, 0, vec![]);
    assert_eq!(
        binarizer.getBlackMatrix().err(),
        Some(Exceptions::IllegalArgumentException)
    );
}

#[test]
fn black_row_is_sharpened() {
    // dark pixels 20, light pixels 200: histogram peaks at buckets 2 and 25
    let row: Vec<u8> = vec![200, 200, 20, 20, 200, 200, 20, 200, 200, 200];
    let binarizer = GlobalHistogramBinarizer::new(10, 1, row.clone());
    let mut scratch = BitArray::new();
    let bits = binarizer.getBlackRow(0, &mut scratch).unwrap();
    assert_eq!(bits.getSize(), 10);
    // the black point: peaks 25 (seven pixels) and 2; the valley score
    // (x - 2)^2 * (25 - x) * 7 is greatest at bucket 17
    let black_point = 17 * 8;
    for x in 0..10usize {
        let expected = if x == 0 || x == 9 {
            false
        } else {
            let v = 4 * row[x] as i32 - row[x - 1] as i32 - row[x + 1] as i32;
            v / 2 < black_point
        };
        assert_eq!(bits.get(x), expected);
    }
    assert!(bits.get(2) && bits.get(3) && bits.get(6));
    assert!(!bits.get(4) && !bits.get(7));
}

#[test]
fn black_row_of_a_narrow_image() {
    let mut luminances = vec![0u8; 2 * 40];
    for y in 0..40 {
        luminances[2 * y] = 10;
        luminances[2 * y + 1] = 250;
    }
    let binarizer = GlobalHistogramBinarizer::new(2, 40, luminances);
    let mut scratch = BitArray::with_size(64);
    let bits = binarizer.getBlackRow(7, &mut scratch).unwrap();
    assert_eq!(bits.getSize(), 64);
    assert!(bits.get(0));
    assert!(!bits.get(1));
    assert_eq!(bits.getNextSet(1), 64);
}

#[test]
fn hybrid_checkerboard_comes_out_as_it_is() {
    let width = 40;
    let height = 40;
    let mut luminances = vec![0u8; width * height];
    for y in 0..height {
        for x in 0..width {
            luminances[y * width + x] = if (x + y) % 2 == 0 { 0 } else { 255 };
        }
    }
    let binarizer = HybridBinarizer::new(width, height, luminances);
    let matrix = binarizer.getBlackMatrix().unwrap();
    assert_eq!(matrix.getWidth(), 40);
    assert_eq!(matrix.getHeight(), 40);
    for y in 0..height {
        for x in 0..width {
            assert_eq!(matrix.get(x as u32, y as u32), (x + y) % 2 == 0);
        }
    }
}

#[test]
fn hybrid_blocks_overlap_at_the_edges() {
    // 43 by 41 pixels: the last blocks lie over the ones before them
    let width = 43;
    let height = 41;
    let mut luminances = vec![0u8; width * height];
    for y in 0..height {
        for x in 0..width {
            luminances[y * width + x] = if (x / 2 + y / 2) % 2 == 0 { 10 } else { 240 };
        }
    }
    let binarizer = HybridBinarizer::new(width, height, luminances);
    let matrix = binarizer.getBlackMatrix().unwrap();
    for y in 0..height {
        for x in 0..width {
            assert_eq!(matrix.get(x as u32, y as u32), (x / 2 + y / 2) % 2 == 0);
        }
    }
}

#[test]
fn hybrid_flat_image_takes_half_the_darkest_pixel() {
    // every block is flat: its black point is half its darkest pixel, and
    // no pixel is as dark as that
    let binarizer = HybridBinarizer::new(40, 40, vec![100u8; 1600]);
    let matrix = binarizer.getBlackMatrix().unwrap();
    assert_eq!(matrix.getEnclosingRectangle(), None);
    // black pixels are black even where the threshold is 0
    let black = HybridBinarizer::new(40, 40, vec![0u8; 1600]);
    let all = black.getBlackMatrix().unwrap();
    assert_eq!(all.getEnclosingRectangle(), Some(vec![0, 0, 40, 40]));
}

#[test]
fn hybrid_black_points_of_flat_blocks_follow_their_neighbors() {
    let width = 40u32;
    let height = 40u32;
    let mut luminances = vec![200u8; 1600];
    // the first block has contrast: half 0, half 255
    for y in 0..8usize {
        for x in 0..8usize {
            luminances[y * 40 + x] = if x < 4 { 0 } else { 255 };
        }
    }
    let points = HybridBinarizer::calculateBlackPoints(&luminances, 5, 5, width, height);
    assert_eq!(points.len(), 5);
    assert_eq!(points[0], vec![127, 100, 100, 100, 100]);
    // (100 + 2 * 100 + 127) / 4 = 106, which is more than half of 200
    assert_eq!(points[1], vec![100, 106, 103, 101, 100]);
}

#[test]
fn hybrid_small_image_falls_back_to_the_global_black_point() {
    let width = 39;
    let height = 40;
    let mut luminances = vec![0u8; width * height];
    for y in 0..height {
        for x in 0..width {
            luminances[y * width + x] = if x % 2 == 0 { 20 } else { 230 };
        }
    }
    let hybrid = HybridBinarizer::new(width, height, luminances.clone());
    let global = GlobalHistogramBinarizer::new(width, height, luminances);
    assert_eq!(hybrid.getBlackMatrix().unwrap(), global.getBlackMatrix().unwrap());
    let uniform = HybridBinarizer::new(10, 10, vec![0u8; 100]);
    assert_eq!(
        uniform.getBlackMatrix().err(),
        Some(Exceptions::NotFoundException)
    );
}

#[test]
fn hybrid_rows_are_binarized_globally() {
    let row: Vec<u8> = vec![200, 200, 20, 20, 200, 200, 20, 200, 200, 200];
    let hybrid = HybridBinarizer::new(10, 1, row.clone());
    let global = GlobalHistogramBinarizer::new(10, 1, row);
    let mut a = BitArray::new();
    let mut b = BitArray::new();
    assert_eq!(
        hybrid.getBlackRow(0, &mut a).unwrap(),
        global.getBlackRow(0, &mut b).unwrap()
    );
}
