//! Binarization with one black point for the whole image, estimated from
//! a histogram of luminances.

use crate::common::bit_array::BitArray;
use crate::common::bit_matrix::{stride, words_per_row, BitMatrix};
use crate::exceptions::Exceptions;
use vstd::prelude::*;

verus! {

/// The number of buckets of a histogram: one for every eight luminances.
pub const LUMINANCE_BUCKETS: usize = 32;

/// The widest image whose sampled pixels can be counted in 32 bits.
pub const MAX_WIDTH: usize = 0x3FFF_FFFF;

/// The histogram bucket of a luminance.
pub open spec fn bucket_of(luminance: u8) -> int {
    luminance as int / 8
}

/// The number of the first `n` samples that fall into `bucket`.
pub open spec fn count_in_bucket(samples: Seq<u8>, n: int, bucket: int) -> int
    decreases n,
{
    if n <= 0 {
        0
    } else {
        count_in_bucket(samples, n - 1, bucket) + if bucket_of(samples[n - 1]) == bucket {
            1int
        } else {
            0int
        }
    }
}

/// The histogram of a sequence of samples.
pub open spec fn histogram(samples: Seq<u8>) -> Seq<int> {
    Seq::new(LUMINANCE_BUCKETS as nat, |b: int| count_in_bucket(samples, samples.len() as int, b))
}

/// The first index below `n` at which `f` is greatest; 0 if `n` is not positive.
pub open spec fn first_max(f: Seq<int>, n: int) -> int
    decreases n,
{
    if n <= 1 {
        0
    } else {
        let best = first_max(f, n - 1);
        if f[n - 1] > f[best] {
            n - 1
        } else {
            best
        }
    }
}

/// The last index in `lo..hi` at which `f` is greatest; `hi - 1` if the range is empty.
pub open spec fn last_max(f: Seq<int>, lo: int, hi: int) -> int
    decreases hi - lo,
{
    if hi - lo <= 1 {
        hi - 1
    } else {
        let best = last_max(f, lo + 1, hi);
        if f[lo] > f[best] {
            lo
        } else {
            best
        }
    }
}

pub proof fn lemma_first_max(f: Seq<int>, n: int)
    requires
        n >= 1,
    ensures
        0 <= first_max(f, n) < n,
        forall|j: int| 0 <= j < n ==> #[trigger] f[j] <= f[first_max(f, n)],
        forall|j: int| 0 <= j < first_max(f, n) ==> #[trigger] f[j] < f[first_max(f, n)],
    decreases n,
{
    if n > 1 {
        lemma_first_max(f, n - 1);
    }
}

pub proof fn lemma_last_max(f: Seq<int>, lo: int, hi: int)
    requires
        lo < hi,
    ensures
        lo <= last_max(f, lo, hi) < hi,
        forall|j: int| lo <= j < hi ==> #[trigger] f[j] <= f[last_max(f, lo, hi)],
        forall|j: int| last_max(f, lo, hi) < j < hi ==> #[trigger] f[j] < f[last_max(f, lo, hi)],
    decreases hi - lo,
{
    if hi - lo > 1 {
        lemma_last_max(f, lo + 1, hi);
    }
}

/// How much a bucket counts as the second peak: its count times the
/// square of its distance from the tallest peak.
pub open spec fn peak_score(buckets: Seq<int>, tallest: int, x: int) -> int {
    buckets[x] * ((x - tallest) * (x - tallest))
}

/// How much a bucket between the peaks counts as the valley: low, and
/// closer to the white peak.
pub open spec fn valley_score(buckets: Seq<int>, dark: int, light: int, max_count: int, x: int) -> int {
    ((x - dark) * (x - dark)) * ((light - x) * (max_count - buckets[x]))
}

/// The peak scores of all buckets.
pub open spec fn peak_scores(buckets: Seq<int>, tallest: int) -> Seq<int> {
    Seq::new(buckets.len(), |x: int| peak_score(buckets, tallest, x))
}

/// The valley scores of all buckets.
pub open spec fn valley_scores(buckets: Seq<int>, dark: int, light: int, max_count: int) -> Seq<
    int,
> {
    Seq::new(buckets.len(), |x: int| valley_score(buckets, dark, light, max_count, x))
}

/// The tallest peak of a histogram.
pub open spec fn tallest_peak(buckets: Seq<int>) -> int {
    first_max(buckets, buckets.len() as int)
}

/// The second peak: the bucket with the best peak score.
pub open spec fn second_peak(buckets: Seq<int>) -> int {
    first_max(peak_scores(buckets, tallest_peak(buckets)), buckets.len() as int)
}

/// The lower of the two peaks.
pub open spec fn dark_peak(buckets: Seq<int>) -> int {
    if tallest_peak(buckets) > second_peak(buckets) {
        second_peak(buckets)
    } else {
        tallest_peak(buckets)
    }
}

/// The higher of the two peaks.
pub open spec fn light_peak(buckets: Seq<int>) -> int {
    if tallest_peak(buckets) > second_peak(buckets) {
        tallest_peak(buckets)
    } else {
        second_peak(buckets)
    }
}

/// The two peaks lie too close together to tell black from white.
pub open spec fn too_little_contrast(buckets: Seq<int>) -> bool {
    light_peak(buckets) - dark_peak(buckets) <= buckets.len() / 16
}

/// The bucket of the valley between the two peaks.
pub open spec fn valley(buckets: Seq<int>) -> int {
    let dark = dark_peak(buckets);
    let light = light_peak(buckets);
    let max_count = buckets[tallest_peak(buckets)];
    last_max(valley_scores(buckets, dark, light, max_count), dark + 1, light)
}

/// The black point of a histogram: the lowest luminance of the valley
/// bucket, or nothing where the contrast is too little.
pub open spec fn black_point(buckets: Seq<int>) -> Option<int> {
    if too_little_contrast(buckets) {
        None
    } else {
        Some(valley(buckets) * 8)
    }
}

/// The counts of a histogram as integers.
pub open spec fn counts(buckets: Seq<u32>) -> Seq<int> {
    Seq::new(buckets.len(), |i: int| buckets[i] as int)
}

/// A histogram whose samples all fall into one of the three darkest
/// buckets has too little contrast for a black point.
pub proof fn lemma_uniform_dark_has_no_black_point(buckets: Seq<int>, bucket: int)
    requires
        buckets.len() == LUMINANCE_BUCKETS,
        0 <= bucket <= 2,
        forall|x: int| 0 <= x < buckets.len() && x != bucket ==> buckets[x] == 0,
        buckets[bucket] > 0,
    ensures
        black_point(buckets) is None,
{
    let n = buckets.len() as int;
    let f = buckets;
    lemma_first_max(f, n);
    let p1 = tallest_peak(buckets);
    assert(p1 == bucket) by {
        if p1 != bucket {
            assert(f[bucket] <= f[p1]);
        }
    }
    let g = peak_scores(buckets, p1);
    lemma_first_max(g, n);
    let p2 = second_peak(buckets);
    assert forall|x: int| 0 <= x < n implies g[x] == 0 by {
        if x != bucket {
            assert(buckets[x] == 0);
            assert(buckets[x] * ((x - p1) * (x - p1)) == 0) by (nonlinear_arith)
                requires
                    buckets[x] == 0,
            ;
        } else {
            assert(buckets[x] * ((x - p1) * (x - p1)) == 0) by (nonlinear_arith)
                requires
                    x == p1,
            ;
        }
    }
    assert(p2 == 0) by {
        if p2 != 0 {
            assert(g[0] < g[p2]);
        }
    }
}

/// Binarizes with one black point for the whole image.  It is suitable
/// where local thresholding is too costly; because the black point is
/// global, it cannot handle difficult shadows and gradients.
pub struct GlobalHistogramBinarizer {
    luminances: Vec<u8>,
    width: usize,
    height: usize,
}

/// The pixels that are sampled for the histogram of a whole image: of
/// each of the rows at one to four fifths of the height, the columns from
/// one fifth to four fifths of the width.
pub open spec fn sampled_pixels(luminances: Seq<u8>, width: int, height: int) -> Seq<u8> {
    sampled_row(luminances, width, height, 1) + sampled_row(luminances, width, height, 2)
        + sampled_row(luminances, width, height, 3) + sampled_row(luminances, width, height, 4)
}

pub open spec fn sampled_row(luminances: Seq<u8>, width: int, height: int, k: int) -> Seq<u8> {
    let row = height * k / 5;
    luminances.subrange(row * width + width / 5, row * width + width * 4 / 5)
}

/// The black point of a whole image, if it has enough contrast.
pub open spec fn global_black_point(luminances: Seq<u8>, width: int, height: int) -> Option<int> {
    black_point(histogram(sampled_pixels(luminances, width, height)))
}

/// Whether a matrix of these dimensions can be held.
pub open spec fn matrix_fits(width: int, height: int) -> bool {
    1 <= width <= u32::MAX && 1 <= height <= u32::MAX && words_per_row(width as nat) * height
        <= usize::MAX
}

/// The histogram that `buckets` holds is that of `samples`.
pub open spec fn holds_histogram(buckets: Seq<u32>, samples: Seq<u8>) -> bool {
    &&& buckets.len() == LUMINANCE_BUCKETS
    &&& forall|b: int|
        0 <= b < LUMINANCE_BUCKETS ==> #[trigger] buckets[b] == count_in_bucket(
            samples,
            samples.len() as int,
            b,
        )
}

/// A row index and a column below the width address a pixel of the image.
pub proof fn lemma_pixel_index(y: int, x: int, width: int, height: int)
    requires
        0 <= y < height,
        0 <= x <= width,
    ensures
        0 <= y * width,
        y * width + x <= width * height,
        x < width ==> y * width + x < width * height,
{
    assert(0 <= y * width && y * width + width <= width * height) by (nonlinear_arith)
        requires
            0 <= y < height,
            0 <= width,
    ;
}

/// Whether the sharpened pixel reads as black: a `-1 4 -1` box filter with
/// a weight of 2, the quotient rounded towards zero.
pub open spec fn sharpened_is_black(left: u8, center: u8, right: u8, black_point: int) -> bool {
    let v = 4 * center - left - right;
    (if v >= 0 {
        v / 2
    } else {
        -((-v) / 2)
    }) < black_point
}

/// Whether pixel `x` of a row reads as black.
pub open spec fn row_pixel_is_black(row: Seq<u8>, x: int, black_point: int) -> bool {
    if row.len() < 3 {
        0 <= x < row.len() && row[x] < black_point
    } else {
        1 <= x < row.len() - 1 && sharpened_is_black(row[x - 1], row[x], row[x + 1], black_point)
    }
}

impl GlobalHistogramBinarizer {
    pub closed spec fn width(&self) -> nat {
        self.width as nat
    }

    pub closed spec fn height(&self) -> nat {
        self.height as nat
    }

    /// The luminances of all pixels, row by row.
    pub closed spec fn luminances(&self) -> Seq<u8> {
        self.luminances@
    }

    pub open spec fn wf(&self) -> bool {
        &&& self.luminances().len() == self.width() * self.height()
        &&& self.width() <= MAX_WIDTH
    }

    /// Row `y` of the image.
    pub open spec fn row(&self, y: int) -> Seq<u8> {
        self.luminances().subrange(y * self.width(), y * self.width() + self.width())
    }

    /// A binarizer over an image given as its luminances, row by row.
    pub fn new(width: usize, height: usize, luminances: Vec<u8>) -> (r: Self)
        requires
            luminances@.len() == width * height,
            width <= MAX_WIDTH,
        ensures
            r.wf(),
            r.width() == width,
            r.height() == height,
            r.luminances() == luminances@,
    {
        Self { luminances, width, height }
    }

    /// A fresh binarizer over another image.
    pub fn createBinarizer(&self, width: usize, height: usize, luminances: Vec<u8>) -> (r: Self)
        requires
            luminances@.len() == width * height,
            width <= MAX_WIDTH,
        ensures
            r.wf(),
            r.width() == width,
            r.height() == height,
            r.luminances() == luminances@,
    {
        GlobalHistogramBinarizer::new(width, height, luminances)
    }

    /// The luminances that this binarizer works on.
    pub fn getLuminanceSource(&self) -> (r: &Vec<u8>)
        ensures
            r@ == self.luminances(),
    {
        &self.luminances
    }

    pub fn getWidth(&self) -> (r: usize)
        ensures
            r == self.width(),
    {
        self.width
    }

    pub fn getHeight(&self) -> (r: usize)
        ensures
            r == self.height(),
    {
        self.height
    }

    /// Index of the first pixel of row `y` in the luminance buffer.
    fn row_start(&self, y: usize) -> (r: usize)
        requires
            self.wf(),
            y < self.height(),
        ensures
            r == y * self.width(),
            r + self.width() <= self.luminances().len(),
            r + self.width() <= usize::MAX,
    {
        let total = self.luminances.len();
        proof {
            lemma_pixel_index(y as int, self.width as int, self.width as int, self.height as int);
            assert(total == self.width * self.height);
        }
        y * self.width
    }

    /// Applies simple sharpening to the row data and thresholds it with
    /// the black point of the row.  The buffer of `row` is taken over if it
    /// is long enough.
    pub fn getBlackRow(&self, y: usize, row: &mut BitArray) -> (r: Result<BitArray, Exceptions>)
        requires
            self.wf(),
            y < self.height(),
            old(row).wf(),
        ensures
            *final(row) == *old(row),
            match black_point(histogram(self.row(y as int))) {
                None => r is Err && r->Err_0 == Exceptions::NotFoundException,
                Some(bp) => r matches Ok(a) && a.wf() && a.size() == (if old(row).size()
                    < self.width() {
                    self.width()
                } else {
                    old(row).size()
                }) && forall|x: int|
                    0 <= x < a.capacity() ==> #[trigger] a.cells()[x] == row_pixel_is_black(
                        self.row(y as int),
                        x,
                        bp,
                    ),
            },
    {
        let width = self.width;
        let mut rw: BitArray = if row.getSize() < width {
            BitArray::with_size(width)
        } else {
            let mut z = row.clone();
            z.clear();
            z
        };
        proof {
            crate::common::bits::lemma_zero_word(0u32);
            assert forall|x: int| 0 <= x < rw.capacity() implies !#[trigger] rw.cells()[x] by {
                assert(rw.cells()[x] == crate::common::bits::word_bit(rw.words()[x / 32], x % 32));
            }
        }
        let offset = self.row_start(y);
        let ghost line = self.row(y as int);
        let mut buckets: Vec<u32> = vec![0u32; LUMINANCE_BUCKETS];
        self.count_pixels(&mut buckets, offset, offset + width, Ghost(Seq::empty()));
        proof {
            assert(Seq::<u8>::empty() + line =~= line);
            assert(counts(buckets@) =~= histogram(line));
        }
        let black_point = match Self::estimateBlackPoint(buckets.as_slice()) {
            Ok(p) => p,
            Err(e) => {
                return Err(e);
            },
        };
        if width < 3 {
            // Special case for very small images
            let mut x: usize = 0;
            while x < width
                invariant
                    x <= width < 3,
                    width == self.width,
                    offset == y * width,
                    offset + width <= self.luminances@.len(),
                    offset + width <= usize::MAX,
                    line == self.row(y as int),
                    rw.wf(),
                    rw.size() >= width,
                    rw.size() == (if old(row).size() < self.width() {
                        self.width()
                    } else {
                        old(row).size()
                    }),
                    forall|i: int|
                        0 <= i < rw.capacity() ==> #[trigger] rw.cells()[i] == (i < x
                            && row_pixel_is_black(line, i, black_point as int)),
                decreases width - x,
            {
                let ghost prev = rw.cells();
                if (self.luminances[offset + x] as u32) < black_point {
                    rw.set(x);
                }
                proof {
                    assert(line[x as int] == self.luminances@[offset + x]);
                    assert forall|i: int| 0 <= i < rw.capacity() implies #[trigger] rw.cells()[i]
                        == (i < x + 1 && row_pixel_is_black(line, i, black_point as int)) by {
                        assert(prev[i] == (i < x && row_pixel_is_black(line, i, black_point as int)));
                    }
                }
                x += 1;
            }
        } else {
            let mut x: usize = 1;
            while x < width - 1
                invariant
                    1 <= x <= width - 1,
                    width >= 3,
                    width == self.width,
                    offset == y * width,
                    offset + width <= self.luminances@.len(),
                    offset + width <= usize::MAX,
                    line == self.row(y as int),
                    8 <= black_point <= 240,
                    rw.wf(),
                    rw.size() >= width,
                    rw.size() == (if old(row).size() < self.width() {
                        self.width()
                    } else {
                        old(row).size()
                    }),
                    forall|i: int|
                        0 <= i < rw.capacity() ==> #[trigger] rw.cells()[i] == (i < x
                            && row_pixel_is_black(line, i, black_point as int)),
                decreases width - x,
            {
                let ghost prev = rw.cells();
                let left = self.luminances[offset + x - 1] as i32;
                let center = self.luminances[offset + x] as i32;
                let right = self.luminances[offset + x + 1] as i32;
                // A simple -1 4 -1 box filter with a weight of 2.
                let v: i32 = center * 4 - left - right;
                let half: i32 = if v >= 0 {
                    v / 2
                } else {
                    -((-v) / 2)
                };
                if half < black_point as i32 {
                    rw.set(x);
                }
                proof {
                    assert(line[x - 1] == self.luminances@[offset + x - 1]);
                    assert(line[x as int] == self.luminances@[offset + x]);
                    assert(line[x + 1] == self.luminances@[offset + x + 1]);
                    assert forall|i: int| 0 <= i < rw.capacity() implies #[trigger] rw.cells()[i]
                        == (i < x + 1 && row_pixel_is_black(line, i, black_point as int)) by {
                        assert(prev[i] == (i < x && row_pixel_is_black(line, i, black_point as int)));
                    }
                }
                x += 1;
            }
        }
        Ok(rw)
    }

    /// Thresholds the whole image with its global black point.  The data
    /// is not sharpened, as this is meant for two-dimensional symbols.
    pub fn getBlackMatrix(&self) -> (r: Result<BitMatrix, Exceptions>)
        requires
            self.wf(),
        ensures
            !matrix_fits(self.width() as int, self.height() as int) ==> r is Err && r->Err_0
                == Exceptions::IllegalArgumentException,
            matrix_fits(self.width() as int, self.height() as int) ==> match global_black_point(
                self.luminances(),
                self.width() as int,
                self.height() as int,
            ) {
                None => r is Err && r->Err_0 == Exceptions::NotFoundException,
                Some(bp) => r matches Ok(m) && m.wf() && m.width() == self.width() && m.height()
                    == self.height() && forall|x: int, y: int|
                    0 <= y < self.height() && 0 <= x < stride(self.width()) ==> #[trigger] m@.cell(
                        x,
                        y,
                    ) == (x < self.width() && self.luminances()[y * self.width() + x] < bp),
            },
    {
        let width = self.width;
        let height = self.height;
        if height > u32::MAX as usize {
            return Err(Exceptions::IllegalArgumentException);
        }
        let mut matrix = match BitMatrix::new(width as u32, height as u32) {
            Ok(m) => m,
            Err(e) => {
                return Err(e);
            },
        };
        // Quickly calculates the histogram by sampling four rows from the image.
        let mut buckets: Vec<u32> = vec![0u32; LUMINANCE_BUCKETS];
        let ghost mut seen: Seq<u8> = Seq::empty();
        let left = width / 5;
        let right = (width * 4) / 5;
        let mut k: usize = 1;
        while k < 5
            invariant
                1 <= k <= 5,
                self.wf(),
                width == self.width,
                height == self.height,
                height >= 1,
                left == width / 5,
                right == (width * 4) / 5,
                holds_histogram(buckets@, seen),
                seen.len() <= (k - 1) * MAX_WIDTH,
                seen == if k == 1 {
                    Seq::<u8>::empty()
                } else if k == 2 {
                    sampled_row(self.luminances(), width as int, height as int, 1)
                } else if k == 3 {
                    sampled_row(self.luminances(), width as int, height as int, 1) + sampled_row(
                        self.luminances(),
                        width as int,
                        height as int,
                        2,
                    )
                } else if k == 4 {
                    sampled_row(self.luminances(), width as int, height as int, 1) + sampled_row(
                        self.luminances(),
                        width as int,
                        height as int,
                        2,
                    ) + sampled_row(self.luminances(), width as int, height as int, 3)
                } else {
                    sampled_pixels(self.luminances(), width as int, height as int)
                },
            decreases 5 - k,
        {
            let row = (height / 5) * k + ((height % 5) * k) / 5;
            proof {
                assert(row == height * k / 5);
            }
            let start = self.row_start(row);
            let from = start + left;
            let to = start + right;
            self.count_pixels(&mut buckets, from, to, Ghost(seen));
            proof {
                seen = seen + self.luminances().subrange(from as int, to as int);
            }
            k += 1;
        }
        proof {
            assert(counts(buckets@) =~= histogram(seen));
        }
        let black_point = match Self::estimateBlackPoint(buckets.as_slice()) {
            Ok(p) => p,
            Err(e) => {
                return Err(e);
            },
        };
        // Only now the whole image is read: fail quickly where there is no contrast.
        proof {
            matrix.lemma_cells();
        }
        let mut y: usize = 0;
        while y < height
            invariant
                y <= height,
                self.wf(),
                width == self.width,
                height == self.height,
                height <= u32::MAX,
                matrix.wf(),
                matrix.width() == width,
                matrix.height() == height,
                forall|i: int, j: int|
                    0 <= j < height && 0 <= i < stride(width as nat) ==> #[trigger] matrix@.cell(i, j)
                        == (i < width && j < y && self.luminances()[j * width + i] < black_point),
            decreases height - y,
        {
            let offset = self.row_start(y);
            let mut x: usize = 0;
            while x < width
                invariant
                    x <= width,
                    y < height,
                    self.wf(),
                    width == self.width,
                    height == self.height,
                    height <= u32::MAX,
                    offset == y * width,
                    offset + width <= self.luminances@.len(),
                    offset + width <= usize::MAX,
                    matrix.wf(),
                    matrix.width() == width,
                    matrix.height() == height,
                    forall|i: int, j: int|
                        0 <= j < height && 0 <= i < stride(width as nat) ==> #[trigger] matrix@.cell(
                            i,
                            j,
                        ) == (i < width && (j < y || (j == y && i < x)) && self.luminances()[j
                            * width + i] < black_point),
                decreases width - x,
            {
                let ghost prev = matrix@;
                let pixel = self.luminances[offset + x];
                if (pixel as u32) < black_point {
                    matrix.set(x as u32, y as u32);
                }
                proof {
                    matrix.lemma_cells();
                    assert forall|i: int, j: int|
                        0 <= j < height && 0 <= i < stride(
                            width as nat,
                        ) implies #[trigger] matrix@.cell(i, j) == (i < width && (j < y || (j == y
                        && i < x + 1)) && self.luminances()[j * width + i] < black_point) by {
                        assert(matrix@.cell(i, j) == if i == x && j == y && pixel < black_point {
                            true
                        } else {
                            prev.cell(i, j)
                        });
                    }
                }
                x += 1;
            }
            y += 1;
        }
        Ok(matrix)
    }

    /// Adds the pixels `from..to` of the luminance buffer to a histogram.
    fn count_pixels(&self, buckets: &mut Vec<u32>, from: usize, to: usize, Ghost(seen): Ghost<Seq<u8>>)
        requires
            from <= to <= self.luminances().len(),
            seen.len() + (to - from) <= u32::MAX,
            holds_histogram(old(buckets)@, seen),
        ensures
            holds_histogram(
                final(buckets)@,
                seen + self.luminances().subrange(from as int, to as int),
            ),
    {
        let ghost added = self.luminances().subrange(from as int, to as int);
        let mut x = from;
        proof {
            assert((seen + added.take(0)) =~= seen);
        }
        while x < to
            invariant
                from <= x <= to,
                to <= self.luminances@.len(),
                buckets@.len() == LUMINANCE_BUCKETS,
                added == self.luminances().subrange(from as int, to as int),
                seen.len() + (to - from) <= u32::MAX,
                forall|b: int|
                    0 <= b < LUMINANCE_BUCKETS ==> #[trigger] buckets@[b] == count_in_bucket(
                        seen + added.take(x - from),
                        seen.len() + (x - from),
                        b,
                    ),
            decreases to - x,
        {
            let pixel = self.luminances[x];
            let b = (pixel / 8) as usize;
            let ghost before = seen + added.take(x - from);
            let ghost after = seen + added.take(x - from + 1);
            proof {
                assert(after =~= before.push(pixel));
                assert(after.take(before.len() as int) =~= before);
                lemma_count_bound(before, before.len() as int, b as int);
                assert forall|c: int| 0 <= c < LUMINANCE_BUCKETS implies count_in_bucket(
                    after,
                    after.len() as int,
                    c,
                ) == count_in_bucket(before, before.len() as int, c) + if c == b {
                    1int
                } else {
                    0int
                } by {
                    lemma_count_prefix(after, before, before.len() as int, c);
                }
            }
            let old_count = buckets[b];
            buckets.set(b, old_count + 1);
            x += 1;
        }
        proof {
            assert(added.take(to - from) =~= added);
        }
    }

    /// Estimates the black point of a histogram of 32 buckets.
    pub fn estimateBlackPoint(buckets: &[u32]) -> (r: Result<u32, Exceptions>)
        requires
            buckets@.len() == LUMINANCE_BUCKETS,
        ensures
            match black_point(counts(buckets@)) {
                Some(p) => r == Ok::<u32, Exceptions>(p as u32) && 8 <= p <= 240,
                None => r == Err::<u32, Exceptions>(Exceptions::NotFoundException),
            },
    {
        let ghost c = counts(buckets@);
        let num_buckets = buckets.len();
        // Find the tallest peak in the histogram.
        let mut max_bucket_count: u32 = buckets[0];
        let mut first_peak: usize = 0;
        let ghost f = c;
        let mut x: usize = 1;
        while x < num_buckets
            invariant
                1 <= x <= num_buckets,
                num_buckets == LUMINANCE_BUCKETS,
                buckets@.len() == num_buckets,
                c == counts(buckets@),
                f == c,
                first_peak == first_max(f, x as int),
                first_peak < x,
                max_bucket_count == buckets[first_peak as int],
            decreases num_buckets - x,
        {
            if buckets[x] > max_bucket_count {
                first_peak = x;
                max_bucket_count = buckets[x];
            }
            x += 1;
        }
        let ghost tallest = first_peak as int;
        assert(tallest == tallest_peak(c));
        // Find the second-tallest peak which is somewhat far from the tallest peak.
        let ghost g = peak_scores(c, tallest);
        let mut second_peak: usize = 0;
        let mut second_peak_score: u64 = Self::peak_score_of(buckets, first_peak, 0);
        let mut x: usize = 1;
        while x < num_buckets
            invariant
                1 <= x <= num_buckets,
                num_buckets == LUMINANCE_BUCKETS,
                buckets@.len() == num_buckets,
                c == counts(buckets@),
                first_peak < num_buckets,
                tallest == first_peak,
                g == peak_scores(c, tallest),
                second_peak == first_max(g, x as int),
                second_peak < x,
                second_peak_score == g[second_peak as int],
            decreases num_buckets - x,
        {
            let score = Self::peak_score_of(buckets, first_peak, x);
            if score > second_peak_score {
                second_peak = x;
                second_peak_score = score;
            }
            x += 1;
        }
        assert(second_peak == crate::common::global_histogram_binarizer::second_peak(c));
        // Make sure the first peak corresponds to the black peak.
        let mut dark = first_peak;
        let mut light = second_peak;
        if first_peak > second_peak {
            dark = second_peak;
            light = first_peak;
        }
        // Too little contrast to pick a meaningful black point.
        if light - dark <= num_buckets / 16 {
            return Err(Exceptions::NotFoundException);
        }
        // Find a valley between them that is low and closer to the white peak.
        let ghost h = valley_scores(c, dark as int, light as int, max_bucket_count as int);
        let mut best_valley: usize = light - 1;
        proof {
            lemma_first_max(f, num_buckets as int);
            assert(c[light - 1] <= c[first_peak as int]);
        }
        let mut best_valley_score: u64 = Self::valley_score_of(
            buckets,
            dark,
            light,
            max_bucket_count,
            light - 1,
        );
        let mut x: usize = light - 1;
        while x > dark + 1
            invariant
                dark + 1 <= x <= light - 1,
                light < num_buckets,
                num_buckets == LUMINANCE_BUCKETS,
                buckets@.len() == num_buckets,
                c == counts(buckets@),
                first_peak < num_buckets,
                max_bucket_count == buckets[first_peak as int],
                forall|j: int| 0 <= j < num_buckets ==> c[j] <= c[first_peak as int],
                h == valley_scores(c, dark as int, light as int, max_bucket_count as int),
                best_valley == last_max(h, x as int, light as int),
                x <= best_valley < light,
                best_valley_score == h[best_valley as int],
            decreases x,
        {
            x -= 1;
            proof {
                assert(c[x as int] <= c[first_peak as int]);
            }
            let score = Self::valley_score_of(buckets, dark, light, max_bucket_count, x);
            if score > best_valley_score {
                best_valley = x;
                best_valley_score = score;
            }
        }
        assert(best_valley == valley(c));
        Ok((best_valley * 8) as u32)
    }

    fn peak_score_of(buckets: &[u32], first_peak: usize, x: usize) -> (r: u64)
        requires
            buckets@.len() == LUMINANCE_BUCKETS,
            first_peak < LUMINANCE_BUCKETS,
            x < LUMINANCE_BUCKETS,
        ensures
            r == peak_score(counts(buckets@), first_peak as int, x as int),
    {
        let distance: u64 = if x >= first_peak {
            (x - first_peak) as u64
        } else {
            (first_peak - x) as u64
        };
        let count = buckets[x] as u64;
        proof {
            let d = x as int - first_peak as int;
            assert(d * d == distance * distance) by (nonlinear_arith)
                requires
                    d == distance || d == -distance,
            ;
            assert(distance * distance <= 31 * 31) by (nonlinear_arith)
                requires
                    0 <= distance <= 31,
            ;
            assert(count * (distance * distance) <= 0xFFFF_FFFF * (31 * 31)) by (nonlinear_arith)
                requires
                    0 <= count <= 0xFFFF_FFFF,
                    0 <= distance * distance <= 31 * 31,
            ;
        }
        count * (distance * distance)
    }

    fn valley_score_of(
        buckets: &[u32],
        dark: usize,
        light: usize,
        max_count: u32,
        x: usize,
    ) -> (r: u64)
        requires
            buckets@.len() == LUMINANCE_BUCKETS,
            dark <= x < light,
            light < LUMINANCE_BUCKETS,
            buckets[x as int] <= max_count,
        ensures
            r == valley_score(counts(buckets@), dark as int, light as int, max_count as int, x as int),
    {
        let from_first = (x - dark) as u64;
        let to_second = (light - x) as u64;
        let room = (max_count - buckets[x]) as u64;
        proof {
            assert(from_first * from_first <= 31 * 31) by (nonlinear_arith)
                requires
                    0 <= from_first <= 31,
            ;
            assert(to_second * room <= 31 * 0xFFFF_FFFF) by (nonlinear_arith)
                requires
                    0 <= to_second <= 31,
                    0 <= room <= 0xFFFF_FFFF,
            ;
            assert((from_first * from_first) * (to_second * room) <= (31 * 31) * (31
                * 0xFFFF_FFFF)) by (nonlinear_arith)
                requires
                    0 <= from_first * from_first <= 31 * 31,
                    0 <= to_second * room <= 31 * 0xFFFF_FFFF,
            ;
        }
        (from_first * from_first) * (to_second * room)
    }
}

/// The count over a sequence that extends another by one sample.
pub proof fn lemma_count_prefix(longer: Seq<u8>, shorter: Seq<u8>, n: int, bucket: int)
    requires
        0 <= n == shorter.len(),
        longer.len() == n + 1,
        longer.take(n) == shorter,
    ensures
        count_in_bucket(longer, n + 1, bucket) == count_in_bucket(shorter, n, bucket) + if bucket_of(
            longer[n],
        ) == bucket {
            1int
        } else {
            0int
        },
{
    assert(shorter.take(n) =~= shorter);
    lemma_count_agrees(longer, shorter, n, bucket);
}

/// Counting depends on the counted prefix only.
pub proof fn lemma_count_agrees(a: Seq<u8>, b: Seq<u8>, n: int, bucket: int)
    requires
        0 <= n <= a.len(),
        n <= b.len(),
        a.take(n) == b.take(n),
    ensures
        count_in_bucket(a, n, bucket) == count_in_bucket(b, n, bucket),
    decreases n,
{
    if n > 0 {
        assert(a.take(n - 1) =~= a.take(n).take(n - 1));
        assert(b.take(n - 1) =~= b.take(n).take(n - 1));
        lemma_count_agrees(a, b, n - 1, bucket);
        assert(a[n - 1] == a.take(n)[n - 1]);
        assert(b[n - 1] == b.take(n)[n - 1]);
    }
}

/// No bucket counts more samples than there are.
pub proof fn lemma_count_bound(samples: Seq<u8>, n: int, bucket: int)
    requires
        0 <= n,
    ensures
        0 <= count_in_bucket(samples, n, bucket) <= n,
    decreases n,
{
    if n > 0 {
        lemma_count_bound(samples, n - 1, bucket);
    }
}

} // verus!
