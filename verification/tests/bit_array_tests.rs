use rxing::common::BitArray;
use rxing::Exceptions;

fn bits_of(a: &BitArray) -> Vec<bool> {
    let mut v = Vec::new();
    for i in 0..a.getSize() {
        v.push(a.get(i));
    }
    v
}

#[test]
fn new_array_is_empty() {
    let a = BitArray::new();
    assert_eq!(a.getSize(), 0);
    assert_eq!(a.getSizeInBytes(), 0);
    assert_eq!(a.getBitArray().len(), 0);
}

#[test]
fn with_size_allocates_whole_words() {
    assert_eq!(BitArray::with_size(0).getBitArray().len(), 0);
    assert_eq!(BitArray::with_size(1).getBitArray().len(), 1);
    assert_eq!(BitArray::with_size(32).getBitArray().len(), 1);
    assert_eq!(BitArray::with_size(33).getBitArray().len(), 2);
    assert_eq!(BitArray::with_size(33).getSizeInBytes(), 5);
    assert_eq!(BitArray::with_size(64).getSizeInBytes(), 8);
}

#[test]
fn set_then_get() {
    let mut a = BitArray::with_size(33);
    for i in 0..33 {
        assert!(!a.get(i));
        a.set(i);
        assert!(a.get(i));
    }
}

#[test]
fn set_touches_one_bit_only() {
    let mut a = BitArray::with_size(70);
    a.set(37);
    for i in 0..70 {
        assert_eq!(a.get(i), i == 37);
    }
    assert_eq!(a.getBitArray()[1], 1 << 5);
}

#[test]
fn flip_twice_is_identity() {
    let mut a = BitArray::with_initial_values(vec![0xDEADBEEF, 0x12345678], 64);
    let before = a.clone();
    for i in [0usize, 5, 31, 32, 63] {
        let was = a.get(i);
        a.flip(i);
        assert_eq!(a.get(i), !was);
        a.flip(i);
        assert_eq!(a, before);
    }
}

#[test]
fn get_next_set_scans_across_words() {
    let mut a = BitArray::with_size(100);
    assert_eq!(a.getNextSet(0), 100);
    a.set(31);
    a.set(63);
    a.set(64);
    assert_eq!(a.getNextSet(0), 31);
    assert_eq!(a.getNextSet(31), 31);
    assert_eq!(a.getNextSet(32), 63);
    assert_eq!(a.getNextSet(64), 64);
    assert_eq!(a.getNextSet(65), 100);
    assert_eq!(a.getNextSet(100), 100);
    assert_eq!(a.getNextSet(1000), 100);
}

#[test]
fn get_next_set_stops_at_size_before_padding() {
    // bit 40 is set in the buffer, but the array ends at 36
    let a = BitArray::with_initial_values(vec![0, 1 << 8], 36);
    assert_eq!(a.getNextSet(0), 36);
}

#[test]
fn get_next_unset_scans_across_words() {
    let mut a = BitArray::with_size(70);
    a.setRange(0, 70).unwrap();
    assert_eq!(a.getNextUnset(0), 70);
    a.flip(40);
    assert_eq!(a.getNextUnset(0), 40);
    assert_eq!(a.getNextUnset(41), 70);
    let b = BitArray::with_size(10);
    assert_eq!(b.getNextUnset(3), 3);
}

#[test]
fn set_bulk_replaces_a_word() {
    let mut a = BitArray::with_size(64);
    a.setBulk(32, 0xFFFF0000);
    for i in 0..64 {
        assert_eq!(a.get(i), i >= 48);
    }
}

#[test]
fn set_range_of_nothing_changes_nothing() {
    let mut a = BitArray::with_initial_values(vec![0b1010, 0], 40);
    let before = a.clone();
    for n in [0usize, 1, 32, 40] {
        assert_eq!(a.setRange(n, n), Ok(()));
        assert_eq!(a, before);
    }
}

#[test]
fn set_range_of_everything_sets_all_bits() {
    for size in [1usize, 31, 32, 33, 64, 65] {
        let mut a = BitArray::with_size(size);
        assert_eq!(a.setRange(0, size), Ok(()));
        for i in 0..size {
            assert!(a.get(i));
        }
        assert_eq!(a.getNextUnset(0), size);
    }
}

#[test]
fn set_range_sets_exactly_the_range() {
    let mut a = BitArray::with_size(100);
    a.setRange(30, 70).unwrap();
    for i in 0..100 {
        assert_eq!(a.get(i), (30..70).contains(&i));
    }
}

#[test]
fn set_range_rejects_bad_ranges() {
    let mut a = BitArray::with_size(10);
    assert_eq!(a.setRange(5, 4), Err(Exceptions::IllegalArgumentException));
    assert_eq!(a.setRange(0, 11), Err(Exceptions::IllegalArgumentException));
    assert_eq!(a, BitArray::with_size(10));
}

#[test]
fn is_range_tells_set_and_unset_ranges() {
    let mut a = BitArray::with_size(64);
    a.setRange(10, 50).unwrap();
    assert_eq!(a.isRange(10, 50, true), Ok(true));
    assert_eq!(a.isRange(9, 50, true), Ok(false));
    assert_eq!(a.isRange(10, 51, true), Ok(false));
    assert_eq!(a.isRange(0, 10, false), Ok(true));
    assert_eq!(a.isRange(50, 64, false), Ok(true));
    assert_eq!(a.isRange(49, 64, false), Ok(false));
    assert_eq!(a.isRange(20, 20, true), Ok(true));
    assert_eq!(a.isRange(20, 20, false), Ok(true));
    assert_eq!(a.isRange(3, 2, true), Err(Exceptions::IllegalArgumentException));
    assert_eq!(a.isRange(0, 65, true), Err(Exceptions::IllegalArgumentException));
}

#[test]
fn clear_clears_all_bits() {
    let mut a = BitArray::with_initial_values(vec![u32::MAX, u32::MAX], 40);
    a.clear();
    assert_eq!(a.getSize(), 40);
    assert_eq!(a.getBitArray(), &vec![0u32, 0]);
}

#[test]
fn append_bit_grows_the_array() {
    let mut a = BitArray::new();
    for i in 0..100 {
        a.appendBit(i % 3 == 0);
        assert_eq!(a.getSize(), i + 1);
    }
    for i in 0..100 {
        assert_eq!(a.get(i), i % 3 == 0);
    }
}

#[test]
fn growth_makes_room_for_a_third_more() {
    let mut a = BitArray::new();
    a.appendBit(true);
    // ceil(1 / 0.75) = 2 bits, one word
    assert_eq!(a.getBitArray().len(), 1);
    let mut b = BitArray::with_size(32);
    b.appendBit(true);
    // ceil(33 / 0.75) = 44 bits, two words
    assert_eq!(b.getBitArray().len(), 2);
    let mut c = BitArray::with_size(96);
    c.appendBit(false);
    // ceil(97 / 0.75) = 130 bits, five words
    assert_eq!(c.getBitArray().len(), 5);
}

#[test]
fn append_bits_writes_most_significant_first() {
    let mut a = BitArray::new();
    assert_eq!(a.appendBits(0x1E, 6), Ok(()));
    assert_eq!(bits_of(&a), vec![false, true, true, true, true, false]);
    assert_eq!(a.appendBits(0x5, 3), Ok(()));
    assert_eq!(
        bits_of(&a),
        vec![false, true, true, true, true, false, true, false, true]
    );
}

#[test]
fn append_bits_takes_up_to_32_bits() {
    let mut a = BitArray::new();
    assert_eq!(a.appendBits(0x80000001, 32), Ok(()));
    assert_eq!(a.getSize(), 32);
    assert!(a.get(0));
    assert!(a.get(31));
    assert_eq!(a.getNextSet(1), 31);
    assert_eq!(a.appendBits(0, 0), Ok(()));
    assert_eq!(a.getSize(), 32);
    assert_eq!(a.appendBits(0, 33), Err(Exceptions::IllegalArgumentException));
    assert_eq!(a.getSize(), 32);
}

#[test]
fn append_bit_array_concatenates() {
    let mut a = BitArray::new();
    a.appendBits(0b101, 3).unwrap();
    let mut b = BitArray::new();
    b.appendBits(0b0110, 4).unwrap();
    a.appendBitArray(b);
    assert_eq!(
        bits_of(&a),
        vec![true, false, true, false, true, true, false]
    );
}

#[test]
fn xor_combines_word_by_word() {
    let mut a = BitArray::with_initial_values(vec![0b1100], 4);
    let b = BitArray::with_initial_values(vec![0b1010], 4);
    assert_eq!(a.xor(&b), Ok(()));
    assert_eq!(a.getBitArray(), &vec![0b0110u32]);
}

#[test]
fn xor_rejects_another_size() {
    let mut a = BitArray::with_size(4);
    let b = BitArray::with_size(5);
    assert_eq!(a.xor(&b), Err(Exceptions::IllegalArgumentException));
}

#[test]
fn xor_accepts_a_shorter_buffer() {
    let mut a = BitArray::with_initial_values(vec![0b11, 0xFF], 2);
    let b = BitArray::with_initial_values(vec![0b01], 2);
    assert_eq!(a.xor(&b), Ok(()));
    assert_eq!(a.getBitArray(), &vec![0b10u32, 0xFF]);
}

#[test]
fn to_bytes_writes_most_significant_bit_first() {
    let mut a = BitArray::new();
    a.appendBits(0xAB, 8).unwrap();
    a.appendBits(0xCD, 8).unwrap();
    a.appendBits(0xEF, 8).unwrap();
    let mut out = vec![0u8; 4];
    a.toBytes(8, &mut out, 1, 2);
    assert_eq!(out, vec![0, 0xCD, 0xEF, 0]);
    a.toBytes(0, &mut out, 0, 1);
    assert_eq!(out, vec![0xAB, 0xCD, 0xEF, 0]);
    a.toBytes(4, &mut out, 3, 1);
    assert_eq!(out, vec![0xAB, 0xCD, 0xEF, 0xBC]);
}

#[test]
fn reverse_reverses_the_logical_bits() {
    for size in [1usize, 2, 31, 32, 33, 63, 64, 65, 100] {
        let mut a = BitArray::with_size(size);
        for i in 0..size {
            if (i * 7 + i / 3) % 5 < 2 {
                a.set(i);
            }
        }
        let before = bits_of(&a);
        a.reverse();
        assert_eq!(a.getSize(), size);
        let after = bits_of(&a);
        for i in 0..size {
            assert_eq!(after[i], before[size - 1 - i]);
        }
    }
}

#[test]
fn reverse_twice_is_identity() {
    for size in [0usize, 1, 17, 32, 45, 64, 97] {
        let mut a = BitArray::with_size(size);
        for i in 0..size {
            if i % 3 == 1 || i % 7 == 0 {
                a.set(i);
            }
        }
        let before = a.clone();
        a.reverse();
        a.reverse();
        assert_eq!(a, before);
    }
}

#[test]
fn reverse_clears_the_padding() {
    let mut a = BitArray::with_initial_values(vec![0xFFFFFFFF], 4);
    a.reverse();
    assert_eq!(a.getBitArray(), &vec![0xFu32]);
    // the padding is gone, so reversing again restores the logical bits only
    a.reverse();
    assert_eq!(a.getBitArray(), &vec![0xFu32]);
}

#[test]
fn reverse_of_an_empty_array() {
    let mut a = BitArray::new();
    a.reverse();
    assert_eq!(a.getSize(), 0);
}

#[test]
fn clone_is_equal() {
    let a = BitArray::with_initial_values(vec![1, 2, 3], 70);
    let b = a.clone();
    assert_eq!(a, b);
    assert_eq!(b.getSize(), 70);
    assert_eq!(b.getBitArray(), &vec![1u32, 2, 3]);
}

#[test]
fn array_as_text() {
    let mut a = BitArray::with_size(10);
    a.set(0);
    a.set(9);
    assert_eq!(a.to_string(), " X....... .X");
    assert_eq!(BitArray::new().to_string(), "");
}
