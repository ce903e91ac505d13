//! Binarization with a local threshold for each block of 8 by 8 pixels.

use crate::common::bit_array::BitArray;
use crate::common::bit_matrix::{stride, BitMatrix};
use crate::common::global_histogram_binarizer::{
    black_point, global_black_point, histogram, lemma_pixel_index, matrix_fits,
    row_pixel_is_black, GlobalHistogramBinarizer, MAX_WIDTH,
};
use crate::exceptions::Exceptions;
use vstd::prelude::*;

verus! {

/// The side of a block in pixels.
pub const BLOCK_SIZE: usize = 8;

/// The smallest dimension in each axis that local thresholding accepts:
/// five blocks.
pub const MINIMUM_DIMENSION: usize = 40;

/// The greatest difference of luminances that a flat block shows.
pub const MIN_DYNAMIC_RANGE: usize = 24;

/// The number of blocks along a side of `side` pixels.
pub open spec fn block_count(side: int) -> int {
    (side + 7) / 8
}

/// The first pixel of block `i` along a side: blocks follow each other,
/// but the last one is moved back so that it ends with the side.
pub open spec fn block_offset(i: int, side: int) -> int {
    if 8 * i > side - 8 {
        side - 8
    } else {
        8 * i
    }
}

/// The `k`-th pixel of the block at `(xoff, yoff)`, row by row.
pub open spec fn block_pixel(lum: Seq<u8>, width: int, xoff: int, yoff: int, k: int) -> int {
    lum[(yoff + k / 8) * width + xoff + k % 8] as int
}

/// The sum of the first `n` pixels of a block.
pub open spec fn block_sum(lum: Seq<u8>, width: int, xoff: int, yoff: int, n: int) -> int
    decreases n,
{
    if n <= 0 {
        0
    } else {
        block_sum(lum, width, xoff, yoff, n - 1) + block_pixel(lum, width, xoff, yoff, n - 1)
    }
}

/// The least of the first `n` pixels of a block; 255 where there is none.
pub open spec fn block_min(lum: Seq<u8>, width: int, xoff: int, yoff: int, n: int) -> int
    decreases n,
{
    if n <= 0 {
        255
    } else {
        let rest = block_min(lum, width, xoff, yoff, n - 1);
        let p = block_pixel(lum, width, xoff, yoff, n - 1);
        if p < rest {
            p
        } else {
            rest
        }
    }
}

/// The greatest of the first `n` pixels of a block; 0 where there is none.
pub open spec fn block_max(lum: Seq<u8>, width: int, xoff: int, yoff: int, n: int) -> int
    decreases n,
{
    if n <= 0 {
        0
    } else {
        let rest = block_max(lum, width, xoff, yoff, n - 1);
        let p = block_pixel(lum, width, xoff, yoff, n - 1);
        if p > rest {
            p
        } else {
            rest
        }
    }
}

/// The black point of block `(bx, by)`.  A block with contrast takes the
/// average of its pixels.  A flat block takes half its darkest pixel, and
/// away from the top and left edges at least the weighted average of the
/// black points of the blocks above and to the left.
pub open spec fn black_point_at(lum: Seq<u8>, width: int, height: int, bx: int, by: int) -> int
    decreases by, bx,
{
    let xoff = block_offset(bx, width);
    let yoff = block_offset(by, height);
    let sum = block_sum(lum, width, xoff, yoff, 64);
    let min = block_min(lum, width, xoff, yoff, 64);
    let max = block_max(lum, width, xoff, yoff, 64);
    if max - min > MIN_DYNAMIC_RANGE {
        sum / 64
    } else if bx > 0 && by > 0 {
        let neighbors = (black_point_at(lum, width, height, bx, by - 1) + 2 * black_point_at(
            lum,
            width,
            height,
            bx - 1,
            by,
        ) + black_point_at(lum, width, height, bx - 1, by - 1)) / 4;
        if min / 2 < neighbors {
            neighbors
        } else {
            min / 2
        }
    } else {
        min / 2
    }
}

/// `value` kept within `2..=max`.
pub open spec fn capped(value: int, max: int) -> int {
    if value < 2 {
        2
    } else if value < max {
        value
    } else {
        max
    }
}

/// The sum of the black points of five blocks in a row, centered on `(bx, by)`.
pub open spec fn row_of_five(lum: Seq<u8>, width: int, height: int, bx: int, by: int) -> int {
    black_point_at(lum, width, height, bx - 2, by) + black_point_at(lum, width, height, bx - 1, by)
        + black_point_at(lum, width, height, bx, by) + black_point_at(
        lum,
        width,
        height,
        bx + 1,
        by,
    ) + black_point_at(lum, width, height, bx + 2, by)
}

/// The threshold of block `(bx, by)`: the mean of the black points of the
/// five by five blocks around it, the center kept two blocks away from
/// the edges.
#[verifier::opaque]
pub open spec fn block_threshold(lum: Seq<u8>, width: int, height: int, bx: int, by: int) -> int {
    let left = capped(bx, block_count(width) - 3);
    let top = capped(by, block_count(height) - 3);
    (row_of_five(lum, width, height, left, top - 2) + row_of_five(lum, width, height, left, top - 1)
        + row_of_five(lum, width, height, left, top) + row_of_five(lum, width, height, left, top + 1)
        + row_of_five(lum, width, height, left, top + 2)) / 25
}

/// Block `b` along a side holds pixel `p`.
pub open spec fn block_covers(b: int, side: int, p: int) -> bool {
    block_offset(b, side) <= p < block_offset(b, side) + 8
}

/// Block `(bx, by)` holds pixel `(px, py)` and finds it black.
pub open spec fn black_by_block(
    lum: Seq<u8>,
    width: int,
    height: int,
    bx: int,
    by: int,
    px: int,
    py: int,
) -> bool {
    &&& 0 <= bx < block_count(width)
    &&& 0 <= by < block_count(height)
    &&& block_covers(bx, width, px)
    &&& block_covers(by, height, py)
    &&& lum[py * width + px] <= block_threshold(lum, width, height, bx, by)
}

/// Whether a pixel is black: it is so if one of the blocks that hold it
/// finds it black.  A pixel is held by its own block and, near the right
/// or the bottom edge, by the last block as well.
pub open spec fn hybrid_pixel(lum: Seq<u8>, width: int, height: int, px: int, py: int) -> bool {
    let last_x = block_count(width) - 1;
    let last_y = block_count(height) - 1;
    ||| black_by_block(lum, width, height, px / 8, py / 8, px, py)
    ||| black_by_block(lum, width, height, last_x, py / 8, px, py)
    ||| black_by_block(lum, width, height, px / 8, last_y, px, py)
    ||| black_by_block(lum, width, height, last_x, last_y, px, py)
}

/// `table[by][bx]` is the black point of block `(bx, by)`, for the first `rows` rows.
pub open spec fn holds_black_points(
    table: Seq<Vec<u32>>,
    lum: Seq<u8>,
    width: int,
    height: int,
    rows: int,
) -> bool {
    &&& table.len() == rows
    &&& forall|by: int|
        0 <= by < rows ==> (#[trigger] table[by])@.len() == block_count(width)
    &&& forall|bx: int, by: int|
        0 <= by < rows && 0 <= bx < block_count(width) ==> #[trigger] table[by]@[bx]
            == black_point_at(lum, width, height, bx, by)
}

/// The sum of `n` pixels is at most `255 * n`; the least and the greatest lie in `0..=255`.
pub proof fn lemma_block_stats(lum: Seq<u8>, width: int, xoff: int, yoff: int, n: int)
    requires
        0 <= n,
    ensures
        0 <= block_sum(lum, width, xoff, yoff, n) <= 255 * n,
        0 <= block_min(lum, width, xoff, yoff, n) <= 255,
        0 <= block_max(lum, width, xoff, yoff, n) <= 255,
    decreases n,
{
    if n > 0 {
        lemma_block_stats(lum, width, xoff, yoff, n - 1);
    }
}

/// A black point is a luminance.
pub proof fn lemma_black_point_range(lum: Seq<u8>, width: int, height: int, bx: int, by: int)
    requires
        0 <= bx,
        0 <= by,
    ensures
        0 <= black_point_at(lum, width, height, bx, by) <= 255,
    decreases by, bx,
{
    let xoff = block_offset(bx, width);
    let yoff = block_offset(by, height);
    lemma_block_stats(lum, width, xoff, yoff, 64);
    if bx > 0 && by > 0 {
        lemma_black_point_range(lum, width, height, bx, by - 1);
        lemma_black_point_range(lum, width, height, bx - 1, by);
        lemma_black_point_range(lum, width, height, bx - 1, by - 1);
    }
}

/// Binarizes with a local threshold.  It is designed for high frequency
/// images of barcodes with black data on white backgrounds, where it does
/// better than a global black point under shadows and gradients.  Rows
/// are still binarized with the histogram of the row.
pub struct HybridBinarizer {
    ghb: GlobalHistogramBinarizer,
}

impl HybridBinarizer {
    /// The binarizer for rows and for images that are too small.
    pub closed spec fn global(&self) -> GlobalHistogramBinarizer {
        self.ghb
    }

    pub open spec fn width(&self) -> nat {
        self.global().width()
    }

    pub open spec fn height(&self) -> nat {
        self.global().height()
    }

    pub open spec fn luminances(&self) -> Seq<u8> {
        self.global().luminances()
    }

    pub open spec fn wf(&self) -> bool {
        self.global().wf()
    }

    /// A binarizer over an image given as its luminances, row by row.
    pub fn new(width: usize, height: usize, luminances: Vec<u8>) -> (r: Self)
        requires
            luminances@.len() == width * height,
            width <= MAX_WIDTH,
        ensures
            r.wf(),
            r.width() == width,
            r.height() == height,
            r.luminances() == luminances@,
    {
        Self { ghb: GlobalHistogramBinarizer::new(width, height, luminances) }
    }

    /// A fresh binarizer over another image.
    pub fn createBinarizer(&self, width: usize, height: usize, luminances: Vec<u8>) -> (r: Self)
        requires
            luminances@.len() == width * height,
            width <= MAX_WIDTH,
        ensures
            r.wf(),
            r.width() == width,
            r.height() == height,
            r.luminances() == luminances@,
    {
        HybridBinarizer::new(width, height, luminances)
    }

    pub fn getLuminanceSource(&self) -> (r: &Vec<u8>)
        ensures
            r@ == self.luminances(),
    {
        self.ghb.getLuminanceSource()
    }

    pub fn getWidth(&self) -> (r: usize)
        ensures
            r == self.width(),
    {
        self.ghb.getWidth()
    }

    pub fn getHeight(&self) -> (r: usize)
        ensures
            r == self.height(),
    {
        self.ghb.getHeight()
    }

    /// Binarizes one row, as the global binarizer does.
    pub fn getBlackRow(&self, y: usize, row: &mut BitArray) -> (r: Result<BitArray, Exceptions>)
        requires
            self.wf(),
            y < self.height(),
            old(row).wf(),
        ensures
            *final(row) == *old(row),
            match black_point(histogram(self.global().row(y as int))) {
                None => r is Err && r->Err_0 == Exceptions::NotFoundException,
                Some(bp) => r matches Ok(a) && a.wf() && a.size() == (if old(row).size()
                    < self.width() {
                    self.width()
                } else {
                    old(row).size()
                }) && forall|x: int|
                    0 <= x < a.capacity() ==> #[trigger] a.cells()[x] == row_pixel_is_black(
                        self.global().row(y as int),
                        x,
                        bp,
                    ),
            },
    {
        self.ghb.getBlackRow(y, row)
    }

    /// Binarizes the whole image: block by block where both dimensions
    /// reach five blocks, else with the global black point.
    pub fn getBlackMatrix(&self) -> (r: Result<BitMatrix, Exceptions>)
        requires
            self.wf(),
        ensures
            !matrix_fits(self.width() as int, self.height() as int) ==> r is Err && r->Err_0
                == Exceptions::IllegalArgumentException,
            matrix_fits(self.width() as int, self.height() as int) && self.width()
                >= MINIMUM_DIMENSION && self.height() >= MINIMUM_DIMENSION ==> (r matches Ok(m)
                && m.wf() && m.width() == self.width() && m.height() == self.height() && forall|
                x: int,
                y: int,
            |
                0 <= y < self.height() && 0 <= x < stride(self.width()) ==> #[trigger] m@.cell(x, y)
                    == (x < self.width() && hybrid_pixel(
                    self.luminances(),
                    self.width() as int,
                    self.height() as int,
                    x,
                    y,
                ))),
            matrix_fits(self.width() as int, self.height() as int) && !(self.width()
                >= MINIMUM_DIMENSION && self.height() >= MINIMUM_DIMENSION) ==> match global_black_point(
                self.luminances(),
                self.width() as int,
                self.height() as int,
            ) {
                None => r is Err && r->Err_0 == Exceptions::NotFoundException,
                Some(bp) => r matches Ok(m) && m.wf() && m.width() == self.width() && m.height()
                    == self.height() && forall|x: int, y: int|
                    0 <= y < self.height() && 0 <= x < stride(self.width()) ==> #[trigger] m@.cell(
                        x,
                        y,
                    ) == (x < self.width() && self.luminances()[y * self.width() + x] < bp),
            },
    {
        let width = self.ghb.getWidth();
        let height = self.ghb.getHeight();
        if width >= MINIMUM_DIMENSION && height >= MINIMUM_DIMENSION {
            if height > u32::MAX as usize {
                return Err(Exceptions::IllegalArgumentException);
            }
            let mut new_matrix = match BitMatrix::new(width as u32, height as u32) {
                Ok(m) => m,
                Err(e) => {
                    return Err(e);
                },
            };
            let luminances = self.ghb.getLuminanceSource();
            let mut sub_width = width / BLOCK_SIZE;
            if width % BLOCK_SIZE != 0 {
                sub_width += 1;
            }
            let mut sub_height = height / BLOCK_SIZE;
            if height % BLOCK_SIZE != 0 {
                sub_height += 1;
            }
            let black_points = Self::calculateBlackPoints(
                luminances.as_slice(),
                sub_width as u32,
                sub_height as u32,
                width as u32,
                height as u32,
            );
            let ghost blank = new_matrix@;
            Self::calculateThresholdForBlock(
                luminances.as_slice(),
                sub_width as u32,
                sub_height as u32,
                width as u32,
                height as u32,
                &black_points,
                &mut new_matrix,
            );
            proof {
                assert forall|x: int, y: int|
                    0 <= y < self.height() && 0 <= x < stride(
                        self.width(),
                    ) implies #[trigger] new_matrix@.cell(x, y) == (x < self.width()
                    && hybrid_pixel(
                    self.luminances(),
                    self.width() as int,
                    self.height() as int,
                    x,
                    y,
                )) by {
                    assert(!blank.cell(x, y));
                }
            }
            Ok(new_matrix)
        } else {
            // If the image is too small, fall back to the global histogram approach.
            self.ghb.getBlackMatrix()
        }
    }

    /// The sum, the least and the greatest of the 64 pixels of a block.
    fn block_stats(luminances: &[u8], width: usize, height: usize, xoffset: usize, yoffset: usize) -> (r:
        (u32, u8, u8))
        requires
            luminances@.len() == width * height,
            xoffset + 8 <= width,
            yoffset + 8 <= height,
        ensures
            r.0 == block_sum(luminances@, width as int, xoffset as int, yoffset as int, 64),
            r.1 == block_min(luminances@, width as int, xoffset as int, yoffset as int, 64),
            r.2 == block_max(luminances@, width as int, xoffset as int, yoffset as int, 64),
    {
        let total = luminances.len();
        let mut sum: u32 = 0;
        let mut min: u8 = 0xFF;
        let mut max: u8 = 0;
        let mut k: usize = 0;
        while k < 64
            invariant
                k <= 64,
                total == luminances@.len(),
                luminances@.len() == width * height,
                xoffset + 8 <= width,
                yoffset + 8 <= height,
                sum == block_sum(luminances@, width as int, xoffset as int, yoffset as int, k as int),
                min == block_min(luminances@, width as int, xoffset as int, yoffset as int, k as int),
                max == block_max(luminances@, width as int, xoffset as int, yoffset as int, k as int),
                sum <= 255 * k,
            decreases 64 - k,
        {
            let yy = k / 8;
            let xx = k % 8;
            proof {
                lemma_pixel_index(
                    (yoffset + yy) as int,
                    (xoffset + xx) as int,
                    width as int,
                    height as int,
                );
            }
            let pixel = luminances[(yoffset + yy) * width + xoffset + xx];
            sum += pixel as u32;
            if pixel < min {
                min = pixel;
            }
            if pixel > max {
                max = pixel;
            }
            k += 1;
        }
        (sum, min, max)
    }

    /// The first pixel of block `i` along a side of `side` pixels.
    fn offset_of(i: u32, side: u32) -> (r: usize)
        requires
            side >= 8,
            i < block_count(side as int),
        ensures
            r == block_offset(i as int, side as int),
            r + 8 <= side,
    {
        let max_offset = side - 8;
        let offset = if i as u64 * 8 > max_offset as u64 {
            max_offset
        } else {
            i * 8
        };
        offset as usize
    }

    /// Calculates a single black point for each block of pixels.
    pub fn calculateBlackPoints(
        luminances: &[u8],
        sub_width: u32,
        sub_height: u32,
        width: u32,
        height: u32,
    ) -> (r: Vec<Vec<u32>>)
        requires
            luminances@.len() == width * height,
            width >= 8,
            height >= 8,
            sub_width == block_count(width as int),
            sub_height == block_count(height as int),
        ensures
            holds_black_points(r@, luminances@, width as int, height as int, sub_height as int),
    {
        let ghost lum = luminances@;
        let mut black_points: Vec<Vec<u32>> = Vec::new();
        let mut y: u32 = 0;
        while y < sub_height
            invariant
                y <= sub_height,
                lum == luminances@,
                luminances@.len() == width * height,
                width >= 8,
                height >= 8,
                sub_width == block_count(width as int),
                sub_height == block_count(height as int),
                holds_black_points(black_points@, lum, width as int, height as int, y as int),
            decreases sub_height - y,
        {
            let yoffset = Self::offset_of(y, height);
            let mut row_points: Vec<u32> = Vec::new();
            let mut x: u32 = 0;
            while x < sub_width
                invariant
                    x <= sub_width,
                    y < sub_height,
                    lum == luminances@,
                    luminances@.len() == width * height,
                    width >= 8,
                    height >= 8,
                    sub_width == block_count(width as int),
                    sub_height == block_count(height as int),
                    yoffset == block_offset(y as int, height as int),
                    yoffset + 8 <= height,
                    holds_black_points(black_points@, lum, width as int, height as int, y as int),
                    row_points@.len() == x,
                    forall|bx: int|
                        0 <= bx < x ==> #[trigger] row_points@[bx] == black_point_at(
                            lum,
                            width as int,
                            height as int,
                            bx,
                            y as int,
                        ),
                decreases sub_width - x,
            {
                let xoffset = Self::offset_of(x, width);
                let (sum, min, max) = Self::block_stats(
                    luminances,
                    width as usize,
                    height as usize,
                    xoffset,
                    yoffset,
                );
                proof {
                    lemma_block_stats(lum, width as int, xoffset as int, yoffset as int, 64);
                }
                // The default estimate is the average of the values in the block.
                let mut average: u32 = sum / 64;
                if max - min <= MIN_DYNAMIC_RANGE as u8 {
                    // The block is flat: only light or only dark pixels.  Assume
                    // that it is background, and take half its darkest pixel.
                    average = min as u32 / 2;
                    if y > 0 && x > 0 {
                        // Blocks that have neighbors are held to the black
                        // points found above and to the left of them.
                        proof {
                            lemma_black_point_range(
                                lum,
                                width as int,
                                height as int,
                                x as int,
                                y - 1,
                            );
                            lemma_black_point_range(
                                lum,
                                width as int,
                                height as int,
                                x - 1,
                                y as int,
                            );
                            lemma_black_point_range(lum, width as int, height as int, x - 1, y - 1);
                            assert(black_points@[y - 1]@[x as int] == black_point_at(
                                lum,
                                width as int,
                                height as int,
                                x as int,
                                y - 1,
                            ));
                            assert(black_points@[y - 1]@[x - 1] == black_point_at(
                                lum,
                                width as int,
                                height as int,
                                x - 1,
                                y - 1,
                            ));
                        }
                        let above = &black_points[(y - 1) as usize];
                        let average_neighbor_black_point: u32 = (above[x as usize] + 2
                            * row_points[(x - 1) as usize] + above[(x - 1) as usize]) / 4;
                        if average < average_neighbor_black_point {
                            average = average_neighbor_black_point;
                        }
                    }
                }
                row_points.push(average);
                x += 1;
            }
            let ghost before = black_points@;
            black_points.push(row_points);
            proof {
                assert forall|bx: int, by: int|
                    0 <= by < y + 1 && 0 <= bx < block_count(
                        width as int,
                    ) implies #[trigger] black_points@[by]@[bx] == black_point_at(
                    lum,
                    width as int,
                    height as int,
                    bx,
                    by,
                ) by {
                    if by < y {
                        assert(black_points@[by] == before[by]);
                    }
                }
            }
            y += 1;
        }
        black_points
    }

    /// `value` kept within `2..=max`.
    fn cap(value: u32, max: u32) -> (r: u32)
        ensures
            r == capped(value as int, max as int),
    {
        if value < 2 {
            2
        } else if value < max {
            value
        } else {
            max
        }
    }

    /// The sum of five black points in a row of the table.
    fn sum_of_five(
        black_points: &Vec<Vec<u32>>,
        left: u32,
        row: u32,
        Ghost(lum): Ghost<Seq<u8>>,
        Ghost(width): Ghost<int>,
        Ghost(height): Ghost<int>,
    ) -> (r: u32)
        requires
            holds_black_points(black_points@, lum, width, height, block_count(height)),
            2 <= left,
            left + 2 < block_count(width),
            row < block_count(height),
        ensures
            r == row_of_five(lum, width, height, left as int, row as int),
            r <= 5 * 255,
    {
        let black_row = &black_points[row as usize];
        proof {
            lemma_black_point_range(lum, width, height, left - 2, row as int);
            lemma_black_point_range(lum, width, height, left - 1, row as int);
            lemma_black_point_range(lum, width, height, left as int, row as int);
            lemma_black_point_range(lum, width, height, left + 1, row as int);
            lemma_black_point_range(lum, width, height, left + 2, row as int);
            assert(black_points@[row as int]@[left - 2] == black_point_at(
                lum,
                width,
                height,
                left - 2,
                row as int,
            ));
            assert(black_points@[row as int]@[left - 1] == black_point_at(
                lum,
                width,
                height,
                left - 1,
                row as int,
            ));
            assert(black_points@[row as int]@[left as int] == black_point_at(
                lum,
                width,
                height,
                left as int,
                row as int,
            ));
            assert(black_points@[row as int]@[left + 1] == black_point_at(
                lum,
                width,
                height,
                left + 1,
                row as int,
            ));
            assert(black_points@[row as int]@[left + 2] == black_point_at(
                lum,
                width,
                height,
                left + 2,
                row as int,
            ));
        }
        let at = left as usize;
        let n = black_row.len();
        assert(n == block_count(width));
        black_row[at - 2] + black_row[at - 1] + black_row[at] + black_row[at + 1] + black_row[at + 2]
    }

    /// For each block, takes the mean black point of the five by five
    /// blocks around it as the threshold of its pixels.  The blocks at the
    /// right and at the bottom lie over their neighbors where the
    /// dimensions are no multiples of the block size.
    pub fn calculateThresholdForBlock(
        luminances: &[u8],
        sub_width: u32,
        sub_height: u32,
        width: u32,
        height: u32,
        black_points: &Vec<Vec<u32>>,
        matrix: &mut BitMatrix,
    )
        requires
            luminances@.len() == width * height,
            sub_width == block_count(width as int),
            sub_height == block_count(height as int),
            sub_width >= 5,
            sub_height >= 5,
            holds_black_points(
                black_points@,
                luminances@,
                width as int,
                height as int,
                sub_height as int,
            ),
            old(matrix).wf(),
            old(matrix).width() == width,
            old(matrix).height() == height,
        ensures
            final(matrix).wf(),
            final(matrix).width() == width,
            final(matrix).height() == height,
            forall|i: int, j: int|
                0 <= j < height && 0 <= i < stride(width as nat) ==> #[trigger] final(matrix)@.cell(
                    i,
                    j,
                ) == (old(matrix)@.cell(i, j) || (i < width && hybrid_pixel(
                    luminances@,
                    width as int,
                    height as int,
                    i,
                    j,
                ))),
    {
        let ghost lum = luminances@;
        let ghost w = width as int;
        let ghost h = height as int;
        let ghost start = matrix@;
        let mut y: u32 = 0;
        while y < sub_height
            invariant
                y <= sub_height,
                lum == luminances@,
                w == width,
                h == height,
                luminances@.len() == width * height,
                sub_width == block_count(w),
                sub_height == block_count(h),
                sub_width >= 5,
                sub_height >= 5,
                holds_black_points(black_points@, lum, w, h, sub_height as int),
                matrix.wf(),
                matrix.width() == width,
                matrix.height() == height,
                forall|i: int, j: int|
                    0 <= j < height && 0 <= i < stride(width as nat) ==> #[trigger] matrix@.cell(i, j)
                        == (start.cell(i, j) || (i < width && seen_black(
                        lum,
                        w,
                        h,
                        i,
                        j,
                        0,
                        y as int,
                    ))),
            decreases sub_height - y,
        {
            let yoffset = Self::offset_of(y, height);
            let top = Self::cap(y, sub_height - 3);
            let mut x: u32 = 0;
            while x < sub_width
                invariant
                    x <= sub_width,
                    y < sub_height,
                    lum == luminances@,
                    w == width,
                    h == height,
                    luminances@.len() == width * height,
                    sub_width == block_count(w),
                    sub_height == block_count(h),
                    sub_width >= 5,
                    sub_height >= 5,
                    yoffset == block_offset(y as int, h),
                    yoffset + 8 <= height,
                    top == capped(y as int, sub_height - 3),
                    holds_black_points(black_points@, lum, w, h, sub_height as int),
                    matrix.wf(),
                    matrix.width() == width,
                    matrix.height() == height,
                    forall|i: int, j: int|
                        0 <= j < height && 0 <= i < stride(width as nat) ==> #[trigger] matrix@.cell(
                            i,
                            j,
                        ) == (start.cell(i, j) || (i < width && seen_black(
                            lum,
                            w,
                            h,
                            i,
                            j,
                            x as int,
                            y as int,
                        ))),
                decreases sub_width - x,
            {
                let xoffset = Self::offset_of(x, width);
                let left = Self::cap(x, sub_width - 3);
                let sum = Self::sum_of_five(black_points, left, top - 2, Ghost(lum), Ghost(w), Ghost(h))
                    + Self::sum_of_five(black_points, left, top - 1, Ghost(lum), Ghost(w), Ghost(h))
                    + Self::sum_of_five(black_points, left, top, Ghost(lum), Ghost(w), Ghost(h))
                    + Self::sum_of_five(black_points, left, top + 1, Ghost(lum), Ghost(w), Ghost(h))
                    + Self::sum_of_five(black_points, left, top + 2, Ghost(lum), Ghost(w), Ghost(h));
                let average = sum / 25;
                let ghost prev = matrix@;
                Self::thresholdBlock(luminances, xoffset as u32, yoffset as u32, average, width, matrix);
                proof {
                    assert(average == block_threshold(lum, w, h, x as int, y as int)) by {
                        reveal(block_threshold);
                    }
                    assert forall|i: int, j: int|
                        0 <= j < height && 0 <= i < stride(
                            width as nat,
                        ) implies #[trigger] matrix@.cell(i, j) == (start.cell(i, j) || (i < width
                        && seen_black(lum, w, h, i, j, x + 1, y as int))) by {
                        assert(prev.cell(i, j) == (start.cell(i, j) || (i < width && seen_black(
                            lum,
                            w,
                            h,
                            i,
                            j,
                            x as int,
                            y as int,
                        ))));
                        if i < width {
                            lemma_seen_step(lum, w, h, i, j, x as int, y as int);
                        }
                    }
                }
                x += 1;
            }
            proof {
                assert forall|i: int, j: int|
                    0 <= j < height && 0 <= i < stride(width as nat) implies #[trigger] matrix@.cell(
                    i,
                    j,
                ) == (start.cell(i, j) || (i < width && seen_black(lum, w, h, i, j, 0, y + 1))) by {
                    if i < width {
                        lemma_seen_row(lum, w, h, i, j, y as int);
                    }
                }
            }
            y += 1;
        }
        proof {
            assert forall|i: int, j: int|
                0 <= j < height && 0 <= i < stride(width as nat) implies #[trigger] matrix@.cell(i, j)
                == (start.cell(i, j) || (i < width && hybrid_pixel(lum, w, h, i, j))) by {
                if i < width {
                    lemma_seen_all(lum, w, h, i, j);
                }
            }
        }
    }

    /// Applies a single threshold to a block of pixels: a pixel whose
    /// luminance does not exceed the threshold is set.
    pub fn thresholdBlock(
        luminances: &[u8],
        xoffset: u32,
        yoffset: u32,
        threshold: u32,
        stride_of_image: u32,
        matrix: &mut BitMatrix,
    )
        requires
            luminances@.len() == stride_of_image * old(matrix).height(),
            old(matrix).wf(),
            old(matrix).width() == stride_of_image,
            xoffset + 8 <= old(matrix).width(),
            yoffset + 8 <= old(matrix).height(),
        ensures
            final(matrix).wf(),
            final(matrix).width() == old(matrix).width(),
            final(matrix).height() == old(matrix).height(),
            forall|i: int, j: int|
                0 <= j < old(matrix).height() && 0 <= i < stride(old(matrix).width())
                    ==> #[trigger] final(matrix)@.cell(i, j) == (old(matrix)@.cell(i, j) || (xoffset
                    <= i < xoffset + 8 && yoffset <= j < yoffset + 8 && luminances@[j
                    * stride_of_image + i] <= threshold)),
    {
        let ghost start = matrix@;
        let ghost lum = luminances@;
        let width = stride_of_image as usize;
        let rows = matrix.getHeight();
        let ghost height = rows as int;
        let total = luminances.len();
        let mut k: usize = 0;
        while k < 64
            invariant
                k <= 64,
                lum == luminances@,
                total == lum.len(),
                rows == height,
                width == stride_of_image,
                lum.len() == width * height,
                matrix.wf(),
                matrix.width() == stride_of_image,
                matrix.height() == height,
                matrix.height() == old(matrix).height(),
                matrix.width() == old(matrix).width(),
                xoffset + 8 <= width,
                yoffset + 8 <= height,
                forall|i: int, j: int|
                    0 <= j < height && 0 <= i < stride(width as nat) ==> #[trigger] matrix@.cell(i, j)
                        == (start.cell(i, j) || (xoffset <= i < xoffset + 8 && yoffset <= j < yoffset
                        + 8 && (j - yoffset) * 8 + (i - xoffset) < k && lum[j * width + i]
                        <= threshold)),
            decreases 64 - k,
        {
            let yy = (k / 8) as u32;
            let xx = (k % 8) as u32;
            proof {
                lemma_pixel_index(
                    (yoffset + yy) as int,
                    (xoffset + xx) as int,
                    width as int,
                    height as int,
                );
            }
            let ghost prev = matrix@;
            // Comparison needs to be <= so that black == 0 pixels are black even if the threshold is 0.
            if luminances[(yoffset + yy) as usize * width + (xoffset + xx) as usize] as u32
                <= threshold {
                matrix.set(xoffset + xx, yoffset + yy);
            }
            proof {
                matrix.lemma_cells();
                assert forall|i: int, j: int|
                    0 <= j < height && 0 <= i < stride(width as nat) implies #[trigger] matrix@.cell(
                    i,
                    j,
                ) == (start.cell(i, j) || (xoffset <= i < xoffset + 8 && yoffset <= j < yoffset + 8
                    && (j - yoffset) * 8 + (i - xoffset) < k + 1 && lum[j * width + i]
                    <= threshold)) by {
                    assert(matrix@.cell(i, j) == if i == xoffset + xx && j == yoffset + yy && lum[(
                    yoffset + yy) * width + xoffset + xx] <= threshold {
                        true
                    } else {
                        prev.cell(i, j)
                    });
                }
            }
            k += 1;
        }
    }
}

/// Block `(bx, by)` comes before block `(x, y)`, rows from the top and
/// each row from the left.
pub open spec fn block_before(bx: int, by: int, x: int, y: int) -> bool {
    by < y || (by == y && bx < x)
}

/// One of the blocks before `(x, y)` holds the pixel and finds it black.
pub open spec fn seen_black(
    lum: Seq<u8>,
    width: int,
    height: int,
    px: int,
    py: int,
    x: int,
    y: int,
) -> bool {
    let last_x = block_count(width) - 1;
    let last_y = block_count(height) - 1;
    ||| (block_before(px / 8, py / 8, x, y) && black_by_block(
        lum,
        width,
        height,
        px / 8,
        py / 8,
        px,
        py,
    ))
    ||| (block_before(last_x, py / 8, x, y) && black_by_block(
        lum,
        width,
        height,
        last_x,
        py / 8,
        px,
        py,
    ))
    ||| (block_before(px / 8, last_y, x, y) && black_by_block(
        lum,
        width,
        height,
        px / 8,
        last_y,
        px,
        py,
    ))
    ||| (block_before(last_x, last_y, x, y) && black_by_block(
        lum,
        width,
        height,
        last_x,
        last_y,
        px,
        py,
    ))
}

/// A block that holds a pixel is the block of the pixel or the last block.
pub proof fn lemma_covering_block(b: int, side: int, p: int)
    requires
        side >= 8,
        0 <= p < side,
        0 <= b < block_count(side),
        block_covers(b, side, p),
    ensures
        b == p / 8 || b == block_count(side) - 1,
{
}

/// Taking block `(x, y)` into account adds the pixels that it finds black.
pub proof fn lemma_seen_step(lum: Seq<u8>, width: int, height: int, px: int, py: int, x: int, y: int)
    requires
        width >= 8,
        height >= 8,
        0 <= px < width,
        0 <= py < height,
        0 <= x < block_count(width),
        0 <= y < block_count(height),
    ensures
        seen_black(lum, width, height, px, py, x + 1, y) == (seen_black(
            lum,
            width,
            height,
            px,
            py,
            x,
            y,
        ) || (block_covers(x, width, px) && block_covers(y, height, py) && lum[py * width + px]
            <= block_threshold(lum, width, height, x, y))),
{
    if block_covers(x, width, px) && block_covers(y, height, py) {
        lemma_covering_block(x, width, px);
        lemma_covering_block(y, height, py);
    }
}

/// After the last block of a row, the next row begins.
pub proof fn lemma_seen_row(lum: Seq<u8>, width: int, height: int, px: int, py: int, y: int)
    requires
        width >= 8,
        height >= 8,
        0 <= px < width,
        0 <= py < height,
    ensures
        seen_black(lum, width, height, px, py, block_count(width), y) == seen_black(
            lum,
            width,
            height,
            px,
            py,
            0,
            y + 1,
        ),
{
}

/// After the last row, every block has been taken into account.
pub proof fn lemma_seen_all(lum: Seq<u8>, width: int, height: int, px: int, py: int)
    requires
        width >= 8,
        height >= 8,
        0 <= px < width,
        0 <= py < height,
    ensures
        seen_black(lum, width, height, px, py, 0, block_count(height)) == hybrid_pixel(
            lum,
            width,
            height,
            px,
            py,
        ),
{
}

} // verus!
