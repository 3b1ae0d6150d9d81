use rgb48_codec::bitstream::{Bitstream, BitstreamError, BitstreamWriter};

#[test]
fn writes_read_back_in_order() {
    let writes: [(u64, usize); 7] = [
        (1, 1),
        (0b101, 3),
        (0, 0),
        (0xdead_beef, 32),
        (u64::MAX, 64),
        (0x3f, 6),
        (2, 2),
    ];
    let mut w = BitstreamWriter::new(Vec::new());
    for &(bits, n) in writes.iter() {
        w.write_bits(bits, n);
    }
    w.flush();
    let total: usize = writes.iter().map(|&(_, n)| n).sum();
    let bytes = w.finish();
    assert_eq!(bytes.len(), (total + 7) / 8);
    let mut r = Bitstream::new(&bytes);
    for &(bits, n) in writes.iter() {
        assert_eq!(r.read_bits(n), Ok(bits));
    }
}

#[test]
fn bits_cross_byte_boundaries_most_significant_first() {
    let mut w = BitstreamWriter::new(Vec::new());
    w.write_bits(0b101, 3);
    w.write_bits(0x1ff, 9);
    w.flush();
    assert_eq!(w.get_ref().clone(), vec![0b1011_1111, 0b1111_0000]);
}

#[test]
fn flush_on_an_aligned_writer_adds_nothing() {
    let mut w = BitstreamWriter::new(Vec::new());
    w.write_bits(0xab, 8);
    assert_eq!(w.get_ref().len(), 1);
    w.flush();
    assert_eq!(w.get_ref().clone(), vec![0xab]);
    w.flush();
    assert_eq!(w.get_ref().clone(), vec![0xab]);
    let mut empty = BitstreamWriter::new(Vec::new());
    empty.flush();
    assert_eq!(empty.get_ref().len(), 0);
}

#[test]
fn flush_pads_with_zero_bits() {
    let mut w = BitstreamWriter::new(vec![0x11]);
    w.write_bits(1, 1);
    assert_eq!(w.get_ref().len(), 1);
    w.flush();
    assert_eq!(w.get_ref().clone(), vec![0x11, 0x80]);
}

#[test]
fn long_writes_have_leading_zeros() {
    let mut w = BitstreamWriter::new(Vec::new());
    w.write_bits(1, 70);
    let bytes = w.finish();
    assert_eq!(bytes.len(), 9);
    let mut r = Bitstream::new(&bytes);
    assert_eq!(r.read_bits(6), Ok(0));
    assert_eq!(r.read_bits(64), Ok(1));
}

#[test]
fn peek_does_not_consume() {
    let bytes = [0b1100_1010u8, 0xff];
    let mut r = Bitstream::new(&bytes);
    assert_eq!(r.next_bits(4), Ok(0b1100));
    assert_eq!(r.next_bits(4), Ok(0b1100));
    assert_eq!(r.read_bits(3), Ok(0b110));
    assert_eq!(r.bytes_consumed(), 1);
    assert_eq!(r.next_bits(5), Ok(0b01010));
    assert_eq!(r.read_bits(0), Ok(0));
}

#[test]
fn reading_past_the_end_fails() {
    let bytes = [0xffu8];
    let mut r = Bitstream::new(&bytes);
    assert_eq!(r.next_bits(9), Err(BitstreamError::UnexpectedEof));
    assert_eq!(r.read_bits(5), Ok(0x1f));
    assert_eq!(r.read_bits(4), Err(BitstreamError::UnexpectedEof));
    assert_eq!(r.read_bits(3), Ok(7));
    let empty: [u8; 0] = [];
    let r = Bitstream::new(&empty);
    assert_eq!(r.next_bits(1), Err(BitstreamError::UnexpectedEof));
}

#[test]
fn a_full_byte_is_drained_at_once() {
    let mut w = BitstreamWriter::new(Vec::new());
    w.write_bits(0b101, 3);
    assert_eq!(w.get_ref().len(), 0);
    w.write_bits(0b11111, 5);
    assert_eq!(w.get_ref().clone(), vec![0xBF]);
    w.flush();
    assert_eq!(w.get_ref().clone(), vec![0xBF]);
}
