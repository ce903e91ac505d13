use rxing::common::{BitSource, BitSourceBuilder};
use rxing::Exceptions;

#[test]
fn read_bits_of_two_bytes() {
    let mut source = BitSource::new(vec![0xAB, 0xCD]);
    assert_eq!(source.available(), 16);
    assert_eq!(source.readBits(4), Ok(0xA));
    assert_eq!(source.getBitOffset(), 4);
    assert_eq!(source.getByteOffset(), 0);
    assert_eq!(source.readBits(4), Ok(0xB));
    assert_eq!(source.getBitOffset(), 0);
    assert_eq!(source.getByteOffset(), 1);
    assert_eq!(source.readBits(8), Ok(0xCD));
    assert_eq!(source.available(), 0);
}

#[test]
fn read_bits_across_bytes() {
    let mut source = BitSource::new(vec![1, 2, 3, 4, 5]);
    assert_eq!(source.available(), 40);
    assert_eq!(source.readBits(1), Ok(0));
    assert_eq!(source.available(), 39);
    assert_eq!(source.readBits(6), Ok(0));
    assert_eq!(source.available(), 33);
    assert_eq!(source.readBits(1), Ok(1));
    assert_eq!(source.available(), 32);
    assert_eq!(source.readBits(8), Ok(2));
    assert_eq!(source.available(), 24);
    assert_eq!(source.readBits(10), Ok(12));
    assert_eq!(source.available(), 14);
    assert_eq!(source.readBits(8), Ok(16));
    assert_eq!(source.available(), 6);
    assert_eq!(source.readBits(6), Ok(5));
    assert_eq!(source.available(), 0);
}

#[test]
fn read_more_than_eight_bits() {
    let mut source = BitSource::new(vec![0x12, 0x34, 0x56, 0x78, 0x9A]);
    assert_eq!(source.readBits(4), Ok(0x1));
    assert_eq!(source.readBits(32), Ok(0x23456789));
    assert_eq!(source.readBits(4), Ok(0xA));
    let mut wide = BitSource::new(vec![0xFF, 0xFF, 0xFF, 0xFF]);
    assert_eq!(wide.readBits(32), Ok(0xFFFFFFFF));
    let mut nine = BitSource::new(vec![0x80, 0x80]);
    assert_eq!(nine.readBits(9), Ok(0x101));
}

#[test]
fn read_bits_rejects_bad_counts() {
    let mut source = BitSource::new(vec![0xFF, 0xFF, 0xFF, 0xFF, 0xFF]);
    assert_eq!(source.readBits(0), Err(Exceptions::IllegalArgumentException));
    assert_eq!(source.readBits(33), Err(Exceptions::IllegalArgumentException));
    assert_eq!(source.available(), 40);
    assert_eq!(source.readBits(32), Ok(0xFFFFFFFF));
    assert_eq!(source.readBits(9), Err(Exceptions::IllegalArgumentException));
    assert_eq!(source.available(), 8);
    assert_eq!(source.readBits(8), Ok(0xFF));
    assert_eq!(source.readBits(1), Err(Exceptions::IllegalArgumentException));
}

#[test]
fn builder_writes_most_significant_first() {
    let mut builder = BitSourceBuilder::new();
    builder.write(0xA, 4);
    builder.write(0xB, 4);
    builder.write(0xCD, 8);
    assert_eq!(builder.toByteArray(), &vec![0xAB, 0xCD]);
}

#[test]
fn builder_pads_the_last_byte_with_zeros() {
    let mut builder = BitSourceBuilder::new();
    builder.write(0b101, 3);
    assert_eq!(builder.toByteArray(), &vec![0b1010_0000]);
    // the padding has been written: the next bits start a new byte
    builder.write(1, 1);
    assert_eq!(builder.toByteArray(), &vec![0b1010_0000, 0b1000_0000]);
}

#[test]
fn builder_takes_values_across_bytes() {
    let mut builder = BitSourceBuilder::new();
    builder.write(1, 1);
    builder.write(0x3FF, 10);
    builder.write(0, 2);
    builder.write(0x12345, 20);
    assert_eq!(
        builder.toByteArray(),
        &vec![0b1111_1111, 0b1110_0000, 0x91, 0xA2, 0b1000_0000]
    );
}

#[test]
fn builder_ignores_bits_beyond_the_count() {
    let mut builder = BitSourceBuilder::new();
    builder.write(0, 1);
    builder.write(0xFF, 1);
    builder.write(0xFFFFFFFF, 6);
    assert_eq!(builder.toByteArray(), &vec![0b0111_1111]);
}

#[test]
fn builder_of_nothing() {
    let mut builder = BitSourceBuilder::new();
    assert_eq!(builder.toByteArray().len(), 0);
    builder.write(7, 0);
    assert_eq!(builder.toByteArray().len(), 0);
}

#[test]
fn what_is_written_is_read_back() {
    let values: Vec<(u32, u32)> = vec![(5, 3), (0, 1), (0x1FFFF, 17), (0x80000001, 32), (1, 2)];
    let mut builder = BitSourceBuilder::new();
    for (value, bits) in values.iter() {
        builder.write(*value, *bits);
    }
    let bytes = builder.toByteArray().clone();
    let mut source = BitSource::new(bytes);
    for (value, bits) in values.iter() {
        assert_eq!(source.readBits(*bits as usize), Ok(*value));
    }
}
