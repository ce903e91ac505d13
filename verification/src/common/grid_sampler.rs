//! Sampling a grid of image points into a matrix of modules.
//!
//! The points come from a perspective transform; here they are whole
//! numbers, each coordinate cut off towards zero.

use crate::common::bit_matrix::{stride, BitMatrix};
use crate::common::global_histogram_binarizer::matrix_fits;
use crate::exceptions::Exceptions;
use vstd::prelude::*;

verus! {

/// A point lies more than one pixel off the image.
pub open spec fn off_image(x: i32, y: i32, width: int, height: int) -> bool {
    x < -1 || x > width || y < -1 || y > height
}

/// A coordinate that lies just off the image.
pub open spec fn needs_nudge(v: i32, limit: int) -> bool {
    v == -1 || v == limit
}

/// A coordinate moved back onto the image if it lies just off it.
pub open spec fn nudged(v: i32, limit: int) -> i32 {
    if v == -1 {
        0
    } else if v == limit {
        (limit - 1) as i32
    } else {
        v
    }
}

/// The points during a sweep, and whether no point was found off the image.
pub struct Sweep {
    pub points: Seq<i32>,
    pub ok: bool,
}

/// Checks and nudges the points from `offset` on towards the end, until a
/// point needs no nudge.
pub open spec fn sweep_forward(points: Seq<i32>, width: int, height: int, offset: int) -> Sweep
    decreases points.len() - offset,
{
    if offset < 0 || offset >= points.len() - 1 {
        Sweep { points, ok: true }
    } else if off_image(points[offset], points[offset + 1], width, height) {
        Sweep { points, ok: false }
    } else if needs_nudge(points[offset], width) || needs_nudge(points[offset + 1], height) {
        sweep_forward(
            points.update(offset, nudged(points[offset], width)).update(
                offset + 1,
                nudged(points[offset + 1], height),
            ),
            width,
            height,
            offset + 2,
        )
    } else {
        Sweep { points, ok: true }
    }
}

/// Checks and nudges the points from `offset` on towards the start, until
/// a point needs no nudge.
pub open spec fn sweep_backward(points: Seq<i32>, width: int, height: int, offset: int) -> Sweep
    decreases offset + 2,
{
    if offset < 0 || offset >= points.len() - 1 {
        Sweep { points, ok: true }
    } else if off_image(points[offset], points[offset + 1], width, height) {
        Sweep { points, ok: false }
    } else if needs_nudge(points[offset], width) || needs_nudge(points[offset + 1], height) {
        sweep_backward(
            points.update(offset, nudged(points[offset], width)).update(
                offset + 1,
                nudged(points[offset + 1], height),
            ),
            width,
            height,
            offset - 2,
        )
    } else {
        Sweep { points, ok: true }
    }
}

/// Both sweeps: from the start, then from the end.
pub open spec fn checked_and_nudged(points: Seq<i32>, width: int, height: int) -> Sweep {
    let forward = sweep_forward(points, width, height, 0);
    if forward.ok {
        sweep_backward(forward.points, width, height, forward.points.len() - 2)
    } else {
        forward
    }
}

/// The pixel coordinate that a point coordinate samples.
pub open spec fn sample_coordinate(v: i32) -> int {
    if v < 0 {
        0
    } else {
        v as int
    }
}

/// The first `n` points all sample a pixel of the image.
pub open spec fn points_in_image(points: Seq<i32>, width: int, height: int, n: int) -> bool {
    forall|k: int|
        0 <= k < n ==> sample_coordinate(#[trigger] points[2 * k]) < width && sample_coordinate(
            points[2 * k + 1],
        ) < height
}

/// Whether a row of points can be sampled: no end point lies off the
/// image, and after nudging every point samples a pixel of the image.
pub open spec fn row_can_be_sampled(points: Seq<i32>, width: int, height: int, n: int) -> bool {
    let swept = checked_and_nudged(points, width, height);
    swept.ok && points_in_image(swept.points, width, height, n)
}

/// A sweep keeps the number of points.
pub proof fn lemma_sweep_forward_len(points: Seq<i32>, width: int, height: int, offset: int)
    ensures
        sweep_forward(points, width, height, offset).points.len() == points.len(),
    decreases points.len() - offset,
{
    if !(offset < 0 || offset >= points.len() - 1) && !off_image(
        points[offset],
        points[offset + 1],
        width,
        height,
    ) && (needs_nudge(points[offset], width) || needs_nudge(points[offset + 1], height)) {
        lemma_sweep_forward_len(
            points.update(offset, nudged(points[offset], width)).update(
                offset + 1,
                nudged(points[offset + 1], height),
            ),
            width,
            height,
            offset + 2,
        );
    }
}

/// A sweep keeps the number of points.
pub proof fn lemma_sweep_backward_len(points: Seq<i32>, width: int, height: int, offset: int)
    ensures
        sweep_backward(points, width, height, offset).points.len() == points.len(),
    decreases offset + 2,
{
    if !(offset < 0 || offset >= points.len() - 1) && !off_image(
        points[offset],
        points[offset + 1],
        width,
        height,
    ) && (needs_nudge(points[offset], width) || needs_nudge(points[offset + 1], height)) {
        lemma_sweep_backward_len(
            points.update(offset, nudged(points[offset], width)).update(
                offset + 1,
                nudged(points[offset + 1], height),
            ),
            width,
            height,
            offset - 2,
        );
    }
}

/// A single point that lies exactly one pixel off the image is nudged onto
/// it; one that lies further off is refused.
pub proof fn lemma_nudge_single_point(x: i32, y: i32, width: int, height: int)
    requires
        1 <= width <= i32::MAX,
        1 <= height <= i32::MAX,
    ensures
        off_image(x, y, width, height) ==> !checked_and_nudged(seq![x, y], width, height).ok,
        !off_image(x, y, width, height) ==> checked_and_nudged(seq![x, y], width, height).ok
            && checked_and_nudged(seq![x, y], width, height).points == seq![
            nudged(x, width),
            nudged(y, height),
        ],
{
    let start = seq![x, y];
    if !off_image(x, y, width, height) {
        let moved = start.update(0, nudged(x, width)).update(1, nudged(y, height));
        assert(moved =~= seq![nudged(x, width), nudged(y, height)]);
        if needs_nudge(x, width) || needs_nudge(y, height) {
            assert(sweep_forward(moved, width, height, 2) == Sweep { points: moved, ok: true });
            assert(sweep_forward(start, width, height, 0).points == moved);
            assert(sweep_backward(moved, width, height, 0) == Sweep { points: moved, ok: true });
        } else {
            assert(sweep_backward(start, width, height, 0) == Sweep { points: start, ok: true });
            assert(start =~= seq![nudged(x, width), nudged(y, height)]);
        }
    }
}

/// Samples an image for a rectangular matrix of bits, along rows of points
/// that a perspective transform has mapped into the image.
pub struct DefaultGridSampler {}

impl DefaultGridSampler {
    /// Checks one point: whether it lies off the image, and else nudges
    /// it back onto the image if it lies just off it.  Returns whether the
    /// point lies off the image and whether it was nudged.
    fn check_point(points: &mut Vec<i32>, offset: usize, width: u32, height: u32) -> (r: (bool, bool))
        requires
            offset + 1 < old(points).len(),
            1 <= width <= i32::MAX,
            1 <= height <= i32::MAX,
        ensures
            final(points).len() == old(points).len(),
            r.0 == off_image(
                old(points)[offset as int],
                old(points)[offset + 1],
                width as int,
                height as int,
            ),
            r.0 ==> final(points)@ == old(points)@,
            !r.0 ==> r.1 == (needs_nudge(old(points)[offset as int], width as int) || needs_nudge(
                old(points)[offset + 1],
                height as int,
            )),
            !r.0 ==> final(points)@ == old(points)@.update(
                offset as int,
                nudged(old(points)[offset as int], width as int),
            ).update(offset + 1, nudged(old(points)[offset + 1], height as int)),
    {
        let x = points[offset];
        let y = points[offset + 1];
        if x < -1 || x as i64 > width as i64 || y < -1 || y as i64 > height as i64 {
            return (true, false);
        }
        let mut nudged = false;
        if x == -1 {
            points.set(offset, 0);
            nudged = true;
        } else if x as i64 == width as i64 {
            points.set(offset, (width - 1) as i32);
            nudged = true;
        }
        if y == -1 {
            points.set(offset + 1, 0);
            nudged = true;
        } else if y as i64 == height as i64 {
            points.set(offset + 1, (height - 1) as i32);
            nudged = true;
        }
        proof {
            assert(points@ =~= old(points)@.update(
                offset as int,
                crate::common::grid_sampler::nudged(old(points)[offset as int], width as int),
            ).update(
                offset + 1,
                crate::common::grid_sampler::nudged(old(points)[offset + 1], height as int),
            ));
        }
        (false, nudged)
    }

    /// Checks a row of points `x1, y1, ..., xn, yn` against the dimensions
    /// of the image, and nudges the end points back onto the image where
    /// they lie barely off it.  The points are checked from either end
    /// until one is found to need no nudge.
    pub fn checkAndNudgePoints(image: &BitMatrix, points: &mut Vec<i32>) -> (r: Result<
        (),
        Exceptions,
    >)
        requires
            image.wf(),
            image.width() <= i32::MAX,
            image.height() <= i32::MAX,
        ensures
            final(points)@ == checked_and_nudged(
                old(points)@,
                image.width() as int,
                image.height() as int,
            ).points,
            final(points).len() == old(points).len(),
            r is Ok <==> checked_and_nudged(
                old(points)@,
                image.width() as int,
                image.height() as int,
            ).ok,
            r is Err ==> r->Err_0 == Exceptions::NotFoundException,
    {
        let width = image.getWidth();
        let height = image.getHeight();
        let ghost w = width as int;
        let ghost h = height as int;
        let ghost start = points@;
        proof {
            lemma_sweep_forward_len(start, w, h, 0);
            lemma_sweep_backward_len(
                sweep_forward(start, w, h, 0).points,
                w,
                h,
                start.len() - 2,
            );
        }
        if points.len() < 2 {
            return Ok(());
        }
        // Check and nudge points from start until we see some that are OK:
        let max_offset = points.len() - 1;
        let mut nudged = true;
        let mut offset: usize = 0;
        while offset < max_offset && nudged
            invariant
                w == width,
                h == height,
                w == image.width(),
                h == image.height(),
                1 <= width <= i32::MAX,
                1 <= height <= i32::MAX,
                start == old(points)@,
                points.len() == start.len(),
                max_offset == points.len() - 1,
                offset <= points.len(),
                nudged ==> sweep_forward(start, w, h, 0) == sweep_forward(points@, w, h, offset as int),
                !nudged ==> sweep_forward(start, w, h, 0) == (Sweep { points: points@, ok: true }),
            decreases points.len() - offset,
        {
            let ghost prev = points@;
            let (off, moved) = Self::check_point(points, offset, width, height);
            if off {
                return Err(Exceptions::NotFoundException);
            }
            proof {
                if !moved {
                    assert(points@ =~= prev);
                }
            }
            nudged = moved;
            offset += 2;
        }
        // Check and nudge points from end:
        let ghost middle = points@;
        assert(sweep_forward(start, w, h, 0) == (Sweep { points: middle, ok: true }));
        proof {
            lemma_sweep_backward_len(middle, w, h, middle.len() - 2);
        }
        nudged = true;
        let mut offset: usize = points.len() - 2;
        let mut done = false;
        while !done && nudged
            invariant
                w == width,
                h == height,
                w == image.width(),
                h == image.height(),
                1 <= width <= i32::MAX,
                1 <= height <= i32::MAX,
                start == old(points)@,
                sweep_forward(start, w, h, 0) == (Sweep { points: middle, ok: true }),
                middle.len() == start.len(),
                points.len() == start.len(),
                points.len() >= 2,
                offset + 1 < points.len(),
                !done && nudged ==> sweep_backward(middle, w, h, middle.len() - 2)
                    == sweep_backward(points@, w, h, offset as int),
                done || !nudged ==> sweep_backward(middle, w, h, middle.len() - 2) == (Sweep {
                    points: points@,
                    ok: true,
                }),
            decreases offset + if !done && nudged { 2int } else { 0int },
        {
            let ghost prev = points@;
            let (off, moved) = Self::check_point(points, offset, width, height);
            if off {
                return Err(Exceptions::NotFoundException);
            }
            proof {
                if !moved {
                    assert(points@ =~= prev);
                } else if offset < 2 {
                    assert(sweep_backward(points@, w, h, offset - 2) == (Sweep {
                        points: points@,
                        ok: true,
                    }));
                }
            }
            nudged = moved;
            if offset >= 2 {
                offset -= 2;
            } else {
                done = true;
            }
        }
        Ok(())
    }

    /// Whether each of the first `n` points samples a pixel of the image.
    fn all_in_image(points: &Vec<i32>, width: u32, height: u32, n: u32) -> (r: bool)
        requires
            points.len() == 2 * n,
        ensures
            r == points_in_image(points@, width as int, height as int, n as int),
    {
        let mut x: u32 = 0;
        while x < n
            invariant
                x <= n,
                points.len() == 2 * n,
                points_in_image(points@, width as int, height as int, x as int),
            decreases n - x,
        {
            let px = points[2 * x as usize];
            let py = points[2 * x as usize + 1];
            let cx: u32 = if px < 0 {
                0
            } else {
                px as u32
            };
            let cy: u32 = if py < 0 {
                0
            } else {
                py as u32
            };
            if cx >= width || cy >= height {
                proof {
                    assert(!(sample_coordinate(points@[2 * x]) < width && sample_coordinate(
                        points@[2 * x + 1],
                    ) < height));
                }
                return false;
            }
            x += 1;
        }
        true
    }

    /// Samples one row of the grid: nudges the end points, then sets
    /// module `x` of row `y` where the image is set at the `x`-th point.
    pub fn sample_row(image: &BitMatrix, y: u32, points: &mut Vec<i32>, bits: &mut BitMatrix) -> (r:
        Result<(), Exceptions>)
        requires
            image.wf(),
            image.width() <= i32::MAX,
            image.height() <= i32::MAX,
            old(bits).wf(),
            y < old(bits).height(),
            old(points).len() == 2 * old(bits).width(),
        ensures
            final(bits).wf(),
            final(bits).width() == old(bits).width(),
            final(bits).height() == old(bits).height(),
            final(points).len() == old(points).len(),
            final(points)@ == checked_and_nudged(
                old(points)@,
                image.width() as int,
                image.height() as int,
            ).points,
            r is Ok <==> row_can_be_sampled(
                old(points)@,
                image.width() as int,
                image.height() as int,
                old(bits).width() as int,
            ),
            r is Err ==> r->Err_0 == Exceptions::NotFoundException,
            r is Ok ==> forall|i: int, j: int|
                0 <= j < old(bits).height() && 0 <= i < stride(old(bits).width())
                    ==> #[trigger] final(bits)@.cell(i, j) == (old(bits)@.cell(i, j) || (j == y && i
                    < old(bits).width() && image@.cell(
                    sample_coordinate(final(points)[2 * i]),
                    sample_coordinate(final(points)[2 * i + 1]),
                ))),
    {
        let ghost start = bits@;
        let dimension = bits.getWidth();
        // Quick check to see if points transformed to something inside the image;
        // sufficient to check the endpoints
        match Self::checkAndNudgePoints(image, points) {
            Ok(_) => {},
            Err(e) => {
                return Err(e);
            },
        }
        let width = image.getWidth();
        let height = image.getHeight();
        // The end points are in the image now; the points between them may
        // still lie outside where the transform is twisted.
        if !Self::all_in_image(points, width, height, dimension) {
            return Err(Exceptions::NotFoundException);
        }
        let mut x: u32 = 0;
        while x < dimension
            invariant
                x <= dimension,
                image.wf(),
                dimension == bits.width(),
                points.len() == 2 * dimension,
                width == image.width(),
                height == image.height(),
                points_in_image(points@, width as int, height as int, dimension as int),
                bits.wf(),
                bits.width() == old(bits).width(),
                bits.height() == old(bits).height(),
                y < bits.height(),
                forall|i: int, j: int|
                    0 <= j < bits.height() && 0 <= i < stride(bits.width()) ==> #[trigger] bits@.cell(
                        i,
                        j,
                    ) == (start.cell(i, j) || (j == y && i < x && image@.cell(
                        sample_coordinate(points[2 * i]),
                        sample_coordinate(points[2 * i + 1]),
                    ))),
            decreases dimension - x,
        {
            let px = points[2 * x as usize];
            let py = points[2 * x as usize + 1];
            let cx: u32 = if px < 0 {
                0
            } else {
                px as u32
            };
            let cy: u32 = if py < 0 {
                0
            } else {
                py as u32
            };
            proof {
                assert(sample_coordinate(points@[2 * x]) < width);
            }
            let ghost prev = bits@;
            if image.get(cx, cy) {
                // Black(-ish) pixel
                bits.set(x, y);
            }
            proof {
                bits.lemma_cells();
                assert forall|i: int, j: int|
                    0 <= j < bits.height() && 0 <= i < stride(
                        bits.width(),
                    ) implies #[trigger] bits@.cell(i, j) == (start.cell(i, j) || (j == y && i < x
                    + 1 && image@.cell(
                    sample_coordinate(points[2 * i]),
                    sample_coordinate(points[2 * i + 1]),
                ))) by {
                    assert(bits@.cell(i, j) == if i == x && j == y && image@.cell(
                        cx as int,
                        cy as int,
                    ) {
                        true
                    } else {
                        prev.cell(i, j)
                    });
                }
            }
            x += 1;
        }
        Ok(())
    }

    /// Samples a grid of `dimension_x` by `dimension_y` modules.  Row `y`
    /// of `points` holds the image points of the centers of the modules of
    /// row `y`, as `x1, y1, ..., xn, yn`.
    pub fn sample_grid(
        &self,
        image: &BitMatrix,
        dimension_x: u32,
        dimension_y: u32,
        points: &Vec<Vec<i32>>,
    ) -> (r: Result<BitMatrix, Exceptions>)
        requires
            image.wf(),
            image.width() <= i32::MAX,
            image.height() <= i32::MAX,
            points.len() == dimension_y,
            forall|y: int| 0 <= y < points.len() ==> (#[trigger] points[y]).len() == 2 * dimension_x,
        ensures
            dimension_x == 0 || dimension_y == 0 ==> r is Err && r->Err_0
                == Exceptions::NotFoundException,
            dimension_x > 0 && dimension_y > 0 && !matrix_fits(
                dimension_x as int,
                dimension_y as int,
            ) ==> r is Err && r->Err_0 == Exceptions::IllegalArgumentException,
            dimension_x > 0 && dimension_y > 0 && matrix_fits(
                dimension_x as int,
                dimension_y as int,
            ) ==> {
                &&& r is Ok <==> forall|y: int|
                    0 <= y < dimension_y ==> row_can_be_sampled(
                        (#[trigger] points[y])@,
                        image.width() as int,
                        image.height() as int,
                        dimension_x as int,
                    )
                &&& r is Err ==> r->Err_0 == Exceptions::NotFoundException
                &&& r matches Ok(m) ==> m.wf() && m.width() == dimension_x && m.height()
                    == dimension_y && forall|i: int, j: int|
                    0 <= j < dimension_y && 0 <= i < stride(dimension_x as nat) ==> #[trigger] m@.cell(
                        i,
                        j,
                    ) == (i < dimension_x && image@.cell(
                        sample_coordinate(
                            checked_and_nudged(
                                points[j]@,
                                image.width() as int,
                                image.height() as int,
                            ).points[2 * i],
                        ),
                        sample_coordinate(
                            checked_and_nudged(
                                points[j]@,
                                image.width() as int,
                                image.height() as int,
                            ).points[2 * i + 1],
                        ),
                    ))
            },
    {
        if dimension_x == 0 || dimension_y == 0 {
            return Err(Exceptions::NotFoundException);
        }
        let mut bits = match BitMatrix::new(dimension_x, dimension_y) {
            Ok(m) => m,
            Err(e) => {
                return Err(e);
            },
        };
        let ghost w = image.width() as int;
        let ghost h = image.height() as int;
        let mut y: u32 = 0;
        while y < dimension_y
            invariant
                y <= dimension_y,
                image.wf(),
                w == image.width(),
                h == image.height(),
                w <= i32::MAX,
                h <= i32::MAX,
                dimension_x > 0,
                dimension_y > 0,
                matrix_fits(dimension_x as int, dimension_y as int),
                points.len() == dimension_y,
                forall|k: int|
                    0 <= k < points.len() ==> (#[trigger] points[k]).len() == 2 * dimension_x,
                bits.wf(),
                bits.width() == dimension_x,
                bits.height() == dimension_y,
                forall|k: int|
                    0 <= k < y ==> row_can_be_sampled(
                        (#[trigger] points[k])@,
                        w,
                        h,
                        dimension_x as int,
                    ),
                forall|i: int, j: int|
                    0 <= j < dimension_y && 0 <= i < stride(dimension_x as nat) ==> #[trigger] bits@.cell(
                        i,
                        j,
                    ) == (j < y && i < dimension_x && image@.cell(
                        sample_coordinate(checked_and_nudged(points[j]@, w, h).points[2 * i]),
                        sample_coordinate(checked_and_nudged(points[j]@, w, h).points[2 * i + 1]),
                    )),
            decreases dimension_y - y,
        {
            let source = &points[y as usize];
            let mut row: Vec<i32> = Vec::new();
            let mut k: usize = 0;
            while k < source.len()
                invariant
                    k <= source.len(),
                    row@ == source@.take(k as int),
                decreases source.len() - k,
            {
                row.push(source[k]);
                k += 1;
                assert(row@ =~= source@.take(k as int));
            }
            assert(row@ =~= source@);
            let ghost prev = bits@;
            match Self::sample_row(image, y, &mut row, &mut bits) {
                Ok(_) => {},
                Err(e) => {
                    proof {
                        assert(!row_can_be_sampled(points[y as int]@, w, h, dimension_x as int));
                    }
                    return Err(e);
                },
            }
            proof {
                assert forall|i: int, j: int|
                    0 <= j < dimension_y && 0 <= i < stride(
                        dimension_x as nat,
                    ) implies #[trigger] bits@.cell(i, j) == (j < y + 1 && i < dimension_x
                    && image@.cell(
                    sample_coordinate(checked_and_nudged(points[j]@, w, h).points[2 * i]),
                    sample_coordinate(checked_and_nudged(points[j]@, w, h).points[2 * i + 1]),
                )) by {
                    assert(prev.cell(i, j) == (j < y && i < dimension_x && image@.cell(
                        sample_coordinate(checked_and_nudged(points[j]@, w, h).points[2 * i]),
                        sample_coordinate(checked_and_nudged(points[j]@, w, h).points[2 * i + 1]),
                    )));
                }
            }
            y += 1;
        }
        Ok(bits)
    }
}

} // verus!
