use rxing::common::{BitArray, BitMatrix};
use rxing::Exceptions;

fn pattern(width: u32, height: u32) -> BitMatrix {
    let mut m = BitMatrix::new(width, height).unwrap();
    for y in 0..height {
        for x in 0..width {
            if (x * 3 + y * 5 + x * y) % 7 < 3 {
                m.set(x, y);
            }
        }
    }
    m
}

#[test]
fn one_by_one_is_valid() {
    let m = BitMatrix::new(1, 1).unwrap();
    assert_eq!(m.getWidth(), 1);
    assert_eq!(m.getHeight(), 1);
    assert_eq!(m.getRowSize(), 1);
    assert!(!m.get(0, 0));
}

#[test]
fn zero_dimension_is_refused() {
    assert_eq!(BitMatrix::new(0, 1).err(), Some(Exceptions::IllegalArgumentException));
    assert_eq!(BitMatrix::new(0, 0).err(), Some(Exceptions::IllegalArgumentException));
    assert_eq!(BitMatrix::new(5, 0).err(), Some(Exceptions::IllegalArgumentException));
}

#[test]
fn fresh_matrix_is_blank() {
    for (w, h) in [(1u32, 1u32), (31, 3), (32, 2), (33, 5), (70, 4)] {
        let m = BitMatrix::new(w, h).unwrap();
        assert_eq!(m.getRowSize(), ((w + 31) / 32) as usize);
        for y in 0..h {
            for x in 0..w {
                assert!(!m.get(x, y));
            }
        }
        assert_eq!(m.getEnclosingRectangle(), None);
    }
}

#[test]
fn square_matrix() {
    let m = BitMatrix::with_single_dimension(33);
    assert_eq!(m.getWidth(), 33);
    assert_eq!(m.getHeight(), 33);
    assert_eq!(m.getTopLeftOnBit(), None);
}

#[test]
fn set_unset_and_flip() {
    let mut m = BitMatrix::new(40, 3).unwrap();
    m.set(35, 2);
    assert!(m.get(35, 2));
    assert!(!m.get(35, 1));
    assert!(!m.get(34, 2));
    m.flip_coords(35, 2);
    assert!(!m.get(35, 2));
    m.flip_coords(3, 0);
    assert!(m.get(3, 0));
    m.unset(3, 0);
    assert!(!m.get(3, 0));
    m.unset(3, 0);
    assert!(!m.get(3, 0));
}

#[test]
fn flip_self_flips_every_bit() {
    let mut m = pattern(37, 5);
    let before = m.clone();
    m.flip_self();
    for y in 0..5 {
        for x in 0..37 {
            assert_eq!(m.get(x, y), !before.get(x, y));
        }
    }
    m.flip_self();
    assert_eq!(m, before);
}

#[test]
fn clear_blanks_the_matrix() {
    let mut m = pattern(37, 5);
    m.clear();
    assert_eq!(m, BitMatrix::new(37, 5).unwrap());
}

#[test]
fn xor_flips_where_the_mask_is_set() {
    let mut m = pattern(37, 5);
    let before = m.clone();
    let mut mask = BitMatrix::new(37, 5).unwrap();
    mask.set(0, 0);
    mask.set(36, 4);
    assert_eq!(m.xor(&mask), Ok(()));
    for y in 0..5 {
        for x in 0..37 {
            assert_eq!(m.get(x, y), before.get(x, y) != mask.get(x, y));
        }
    }
}

#[test]
fn xor_rejects_another_shape() {
    let mut m = BitMatrix::new(4, 4).unwrap();
    assert_eq!(
        m.xor(&BitMatrix::new(4, 5).unwrap()),
        Err(Exceptions::IllegalArgumentException)
    );
    assert_eq!(
        m.xor(&BitMatrix::new(5, 4).unwrap()),
        Err(Exceptions::IllegalArgumentException)
    );
}

#[test]
fn set_region_sets_the_rectangle() {
    let mut m = BitMatrix::new(40, 10).unwrap();
    assert_eq!(m.setRegion(30, 2, 5, 3), Ok(()));
    for y in 0..10 {
        for x in 0..40 {
            assert_eq!(m.get(x, y), (30..35).contains(&x) && (2..5).contains(&y));
        }
    }
    assert_eq!(m.getEnclosingRectangle(), Some(vec![30, 2, 5, 3]));
}

#[test]
fn set_region_rejects_bad_rectangles() {
    let mut m = BitMatrix::new(10, 10).unwrap();
    assert_eq!(m.setRegion(0, 0, 0, 1), Err(Exceptions::IllegalArgumentException));
    assert_eq!(m.setRegion(0, 0, 1, 0), Err(Exceptions::IllegalArgumentException));
    assert_eq!(m.setRegion(5, 0, 6, 1), Err(Exceptions::IllegalArgumentException));
    assert_eq!(m.setRegion(0, 5, 1, 6), Err(Exceptions::IllegalArgumentException));
    assert_eq!(
        m.setRegion(u32::MAX, 0, 2, 1),
        Err(Exceptions::IllegalArgumentException)
    );
    assert_eq!(m, BitMatrix::new(10, 10).unwrap());
    assert_eq!(m.setRegion(0, 0, 10, 10), Ok(()));
}

#[test]
fn get_row_copies_a_row() {
    let m = pattern(70, 4);
    let small = BitArray::with_size(3);
    let row = m.getRow(2, &small);
    assert_eq!(row.getSize(), 70);
    for x in 0..70u32 {
        assert_eq!(row.get(x as usize), m.get(x, 2));
    }
    let mut big = BitArray::with_size(200);
    big.setRange(0, 200).unwrap();
    let row = m.getRow(1, &big);
    assert_eq!(row.getSize(), 200);
    for x in 0..200u32 {
        assert_eq!(row.get(x as usize), x < 70 && m.get(x, 1));
    }
}

#[test]
fn set_row_writes_a_row() {
    let mut m = BitMatrix::new(40, 3).unwrap();
    let mut row = BitArray::with_size(40);
    row.set(0);
    row.set(39);
    m.setRow(1, &row);
    for y in 0..3 {
        for x in 0..40 {
            assert_eq!(m.get(x, y), y == 1 && (x == 0 || x == 39));
        }
    }
}

#[test]
fn rotate_90_turns_counter_clockwise() {
    let m = pattern(37, 5);
    let mut r = m.clone();
    r.rotate90();
    assert_eq!(r.getWidth(), 5);
    assert_eq!(r.getHeight(), 37);
    for y in 0..5 {
        for x in 0..37 {
            // (x, y) goes to (y, width - 1 - x)
            assert_eq!(r.get(y, 36 - x), m.get(x, y));
        }
    }
}

#[test]
fn rotate_180_turns_upside_down() {
    for (w, h) in [(37u32, 5u32), (32, 4), (1, 1), (7, 1), (64, 3)] {
        let m = pattern(w, h);
        let mut r = m.clone();
        r.rotate180();
        assert_eq!(r.getWidth(), w);
        assert_eq!(r.getHeight(), h);
        for y in 0..h {
            for x in 0..w {
                assert_eq!(r.get(w - 1 - x, h - 1 - y), m.get(x, y));
            }
        }
    }
}

#[test]
fn four_quarter_turns_are_identity() {
    for (w, h) in [(37u32, 5u32), (32, 32), (1, 1), (3, 70)] {
        let m = pattern(w, h);
        let mut r = m.clone();
        for _ in 0..4 {
            assert_eq!(r.rotate(90), Ok(()));
        }
        assert_eq!(r, m);
    }
}

#[test]
fn half_turn_is_two_quarter_turns() {
    for (w, h) in [(37u32, 5u32), (32, 32), (1, 1), (3, 70)] {
        let m = pattern(w, h);
        let mut half = m.clone();
        assert_eq!(half.rotate(180), Ok(()));
        let mut twice = m.clone();
        assert_eq!(twice.rotate(90), Ok(()));
        assert_eq!(twice.rotate(90), Ok(()));
        assert_eq!(half, twice);
    }
}

#[test]
fn four_quarter_turns_drop_set_padding() {
    // flipping everything sets the padding of each row as well
    let mut m = BitMatrix::new(1, 1).unwrap();
    m.flip_self();
    let mut r = m.clone();
    for _ in 0..4 {
        r.rotate(90).unwrap();
    }
    assert!(r.get(0, 0));
    assert_ne!(r, m);
}

#[test]
fn rotate_by_multiples_of_90() {
    let m = pattern(9, 4);
    let mut a = m.clone();
    assert_eq!(a.rotate(0), Ok(()));
    assert_eq!(a, m);
    assert_eq!(a.rotate(360), Ok(()));
    assert_eq!(a, m);
    let mut b = m.clone();
    assert_eq!(b.rotate(270), Ok(()));
    let mut c = m.clone();
    c.rotate90();
    c.rotate180();
    assert_eq!(b, c);
    let mut d = m.clone();
    assert_eq!(d.rotate(450), Ok(()));
    let mut e = m.clone();
    e.rotate90();
    assert_eq!(d, e);
}

#[test]
fn rotate_rejects_other_angles() {
    let mut m = pattern(9, 4);
    let before = m.clone();
    assert_eq!(m.rotate(45), Err(Exceptions::IllegalArgumentException));
    assert_eq!(m.rotate(91), Err(Exceptions::IllegalArgumentException));
    assert_eq!(m, before);
}

#[test]
fn enclosing_rectangle_is_tight() {
    let mut m = BitMatrix::new(100, 50).unwrap();
    m.set(40, 10);
    assert_eq!(m.getEnclosingRectangle(), Some(vec![40, 10, 1, 1]));
    m.set(70, 30);
    assert_eq!(m.getEnclosingRectangle(), Some(vec![40, 10, 31, 21]));
    m.set(3, 45);
    assert_eq!(m.getEnclosingRectangle(), Some(vec![3, 10, 68, 36]));
    m.set(0, 0);
    m.set(99, 49);
    assert_eq!(m.getEnclosingRectangle(), Some(vec![0, 0, 100, 50]));
}

#[test]
fn top_left_and_bottom_right() {
    let mut m = BitMatrix::new(100, 50).unwrap();
    assert_eq!(m.getTopLeftOnBit(), None);
    assert_eq!(m.getBottomRightOnBit(), None);
    m.set(70, 10);
    m.set(40, 10);
    m.set(3, 45);
    m.set(90, 45);
    assert_eq!(m.getTopLeftOnBit(), Some(vec![40, 10]));
    assert_eq!(m.getBottomRightOnBit(), Some(vec![90, 45]));
}

#[test]
fn parse_bools_reads_a_grid() {
    let image = vec![
        vec![true, false, false],
        vec![false, true, true],
    ];
    let m = BitMatrix::parse_bools(&image);
    assert_eq!(m.getWidth(), 3);
    assert_eq!(m.getHeight(), 2);
    for y in 0..2 {
        for x in 0..3 {
            assert_eq!(m.get(x as u32, y as u32), image[y][x]);
        }
    }
}

#[test]
fn parse_strings_reads_a_three_by_three_matrix() {
    let m = BitMatrix::parse_strings("X.X\n.X.\nX.X", "X", ".").unwrap();
    assert_eq!(m.getWidth(), 3);
    assert_eq!(m.getHeight(), 3);
    assert_eq!(m.getEnclosingRectangle(), Some(vec![0, 0, 3, 3]));
    assert_eq!(m.getTopLeftOnBit(), Some(vec![0, 0]));
    assert_eq!(m.getBottomRightOnBit(), Some(vec![2, 2]));
    for y in 0..3 {
        for x in 0..3 {
            assert_eq!(m.get(x, y), (x + y) % 2 == 0);
        }
    }
}

#[test]
fn parse_strings_takes_long_tokens_and_any_line_breaks() {
    let m = BitMatrix::parse_strings("\r\nonoffon\r\n\r\noffoffon\n", "on", "off").unwrap();
    assert_eq!(m.getWidth(), 3);
    assert_eq!(m.getHeight(), 2);
    assert!(m.get(0, 0) && !m.get(1, 0) && m.get(2, 0));
    assert!(!m.get(0, 1) && !m.get(1, 1) && m.get(2, 1));
}

#[test]
fn parse_strings_rejects_ragged_rows() {
    assert_eq!(
        BitMatrix::parse_strings("X.X\n.X\n", "X", ".").err(),
        Some(Exceptions::IllegalArgumentException)
    );
    assert_eq!(
        BitMatrix::parse_strings("X.\n.X.", "X", ".").err(),
        Some(Exceptions::IllegalArgumentException)
    );
}

#[test]
fn parse_strings_rejects_unknown_tokens() {
    assert_eq!(
        BitMatrix::parse_strings("X.?\n", "X", ".").err(),
        Some(Exceptions::IllegalArgumentException)
    );
}

#[test]
fn parse_strings_rejects_an_empty_matrix() {
    assert_eq!(
        BitMatrix::parse_strings("", "X", ".").err(),
        Some(Exceptions::IllegalArgumentException)
    );
    assert_eq!(
        BitMatrix::parse_strings("\n\n", "X", ".").err(),
        Some(Exceptions::IllegalArgumentException)
    );
}

#[test]
fn to_string_ends_each_row_with_a_line_feed() {
    let m = BitMatrix::parse_strings("X.X\n.X.\nX.X", "X", ".").unwrap();
    assert_eq!(m.toString("X", "."), "X.X\n.X.\nX.X\n");
    assert_eq!(m.toString("1 ", "0 "), "1 0 1 \n0 1 0 \n1 0 1 \n");
    assert_eq!(m.to_string(), "X   X \n  X   \nX   X \n");
}

#[test]
fn text_round_trip() {
    let m = pattern(37, 5);
    let text = m.toString("#", "-");
    assert_eq!(BitMatrix::parse_strings(&text, "#", "-").unwrap(), m);
}
