use rxing::common::{BitMatrix, DefaultGridSampler};
use rxing::Exceptions;

fn image() -> BitMatrix {
    let mut m = BitMatrix::new(10, 8).unwrap();
    for y in 0..8 {
        for x in 0..10 {
            if (x + 2 * y) % 3 == 0 {
                m.set(x, y);
            }
        }
    }
    m
}

#[test]
fn points_just_off_the_image_are_nudged() {
    let m = image();
    let mut points = vec![-1, 3, 5, 5, 10, 8];
    assert_eq!(DefaultGridSampler::checkAndNudgePoints(&m, &mut points), Ok(()));
    assert_eq!(points, vec![0, 3, 5, 5, 9, 7]);
    let mut corner = vec![-1, -1];
    assert_eq!(DefaultGridSampler::checkAndNudgePoints(&m, &mut corner), Ok(()));
    assert_eq!(corner, vec![0, 0]);
    let mut edge = vec![10, 0];
    assert_eq!(DefaultGridSampler::checkAndNudgePoints(&m, &mut edge), Ok(()));
    assert_eq!(edge, vec![9, 0]);
}

#[test]
fn points_further_off_the_image_are_not_found() {
    let m = image();
    for bad in [vec![-2, 3], vec![11, 3], vec![3, -2], vec![3, 9]] {
        let mut points = bad.clone();
        assert_eq!(
            DefaultGridSampler::checkAndNudgePoints(&m, &mut points),
            Err(Exceptions::NotFoundException)
        );
    }
    let mut at_end = vec![5, 5, 4, 4, 3, 9];
    assert_eq!(
        DefaultGridSampler::checkAndNudgePoints(&m, &mut at_end),
        Err(Exceptions::NotFoundException)
    );
}

#[test]
fn nudging_stops_at_the_first_point_in_bounds() {
    let m = image();
    // the third point lies between two points in bounds: it is not looked at
    let mut points = vec![-1, 0, 2, 2, -5, 2, 3, 3, 10, 7];
    assert_eq!(DefaultGridSampler::checkAndNudgePoints(&m, &mut points), Ok(()));
    assert_eq!(points, vec![0, 0, 2, 2, -5, 2, 3, 3, 9, 7]);
    // several points in a row are nudged from either end
    let mut run = vec![-1, 0, -1, 1, 4, 4, 5, 8, 10, 8];
    assert_eq!(DefaultGridSampler::checkAndNudgePoints(&m, &mut run), Ok(()));
    assert_eq!(run, vec![0, 0, 0, 1, 4, 4, 5, 7, 9, 7]);
}

#[test]
fn no_points_are_fine() {
    let m = image();
    let mut none: Vec<i32> = vec![];
    assert_eq!(DefaultGridSampler::checkAndNudgePoints(&m, &mut none), Ok(()));
    let mut one = vec![-7];
    assert_eq!(DefaultGridSampler::checkAndNudgePoints(&m, &mut one), Ok(()));
    assert_eq!(one, vec![-7]);
}

#[test]
fn sample_grid_reads_the_image_at_the_points() {
    let m = image();
    let sampler = DefaultGridSampler {};
    // sample the image at every second pixel
    let mut rows = Vec::new();
    for y in 0..4 {
        let mut row = Vec::new();
        for x in 0..5 {
            row.push(2 * x);
            row.push(2 * y);
        }
        rows.push(row);
    }
    let sampled = sampler.sample_grid(&m, 5, 4, &rows).unwrap();
    assert_eq!(sampled.getWidth(), 5);
    assert_eq!(sampled.getHeight(), 4);
    for y in 0..4 {
        for x in 0..5 {
            assert_eq!(sampled.get(x, y), m.get(2 * x, 2 * y));
        }
    }
}

#[test]
fn sample_grid_nudges_the_ends_of_each_row() {
    let m = image();
    let sampler = DefaultGridSampler {};
    let rows = vec![vec![-1, 0, 5, 0, 10, 0], vec![-1, 8, 5, 7, 10, -1]];
    let sampled = sampler.sample_grid(&m, 3, 2, &rows).unwrap();
    assert_eq!(sampled.get(0, 0), m.get(0, 0));
    assert_eq!(sampled.get(1, 0), m.get(5, 0));
    assert_eq!(sampled.get(2, 0), m.get(9, 0));
    assert_eq!(sampled.get(0, 1), m.get(0, 7));
    assert_eq!(sampled.get(1, 1), m.get(5, 7));
    assert_eq!(sampled.get(2, 1), m.get(9, 0));
}

#[test]
fn sample_grid_rejects_empty_dimensions() {
    let m = image();
    let sampler = DefaultGridSampler {};
    assert_eq!(
        sampler.sample_grid(&m, 0, 1, &vec![vec![]]).err(),
        Some(Exceptions::NotFoundException)
    );
    assert_eq!(
        sampler.sample_grid(&m, 1, 0, &vec![]).err(),
        Some(Exceptions::NotFoundException)
    );
}

#[test]
fn sample_grid_rejects_points_outside_the_image() {
    let m = image();
    let sampler = DefaultGridSampler {};
    // an end point two pixels off
    assert_eq!(
        sampler.sample_grid(&m, 2, 1, &vec![vec![-2, 0, 5, 5]]).err(),
        Some(Exceptions::NotFoundException)
    );
    // a point between end points in bounds
    assert_eq!(
        sampler
            .sample_grid(&m, 3, 1, &vec![vec![0, 0, 50, 0, 5, 5]])
            .err(),
        Some(Exceptions::NotFoundException)
    );
    // a negative point between end points in bounds samples the first pixel
    let sampled = sampler
        .sample_grid(&m, 3, 1, &vec![vec![3, 3, -4, -9, 5, 5]])
        .unwrap();
    assert_eq!(sampled.get(1, 0), m.get(0, 0));
}

#[test]
fn sample_row_sets_one_row() {
    let m = image();
    let mut bits = BitMatrix::new(3, 2).unwrap();
    let mut points = vec![0, 0, 3, 0, 6, 0];
    assert_eq!(
        DefaultGridSampler::sample_row(&m, 1, &mut points, &mut bits),
        Ok(())
    );
    for x in 0..3 {
        assert!(bits.get(x, 1));
        assert!(!bits.get(x, 0));
    }
}
