use gif_decoder::bit_reader::{BitReader, ByteSizeError};

#[test]
fn new_reader_has_no_bits() {
    let mut br = BitReader::new();
    assert_eq!(br.has_bits(0), Ok(false));
    assert_eq!(br.has_bits(1), Ok(false));
    assert_eq!(br.read_bits(0), Ok(0));
}

#[test]
fn read_back_a_pushed_byte() {
    let mut br = BitReader::new();
    assert!(br.push_bytes(&[0xAB]).is_none());
    assert_eq!(br.read_bits(8), Ok(0xAB));
    assert_eq!(br.has_bits(1), Ok(false));
}

#[test]
fn bits_come_least_significant_first() {
    let mut br = BitReader::new();
    br.push_bytes(&[0b1010_1100]);
    assert_eq!(br.read_bits(3), Ok(0b100));
    assert_eq!(br.read_bits(5), Ok(0b10101));
}

#[test]
fn reads_span_bytes() {
    let mut br = BitReader::new();
    br.push_bytes(&[0xFF, 0x01, 0x80]);
    assert_eq!(br.read_bits(12), Ok(0x1FF));
    assert_eq!(br.read_bits(12), Ok(0x800));
}

#[test]
fn two_bytes_read_back_little_endian() {
    let mut br = BitReader::new();
    br.push_bytes(&[0x34, 0x12]);
    assert_eq!(br.read_bits(16), Ok(0x1234));
}

#[test]
fn reads_wider_than_sixteen_bits_keep_the_low_sixteen() {
    let mut br = BitReader::new();
    br.push_bytes(&[0xFF, 0xFF, 0xFF]);
    assert_eq!(br.read_bits(20), Ok(0xFFFF));
    assert_eq!(br.has_bits(4), Ok(true));
    assert_eq!(br.read_bits(4), Ok(0xF));
}

#[test]
fn short_read_reports_bits_read() {
    let mut br = BitReader::new();
    br.push_bytes(&[0x12]);
    assert_eq!(br.read_bits(3), Ok(0x2));
    assert_eq!(br.read_bits(9), Err(ByteSizeError { len: 9, rbits: Some(5) }));
    assert_eq!(br.has_bits(1), Ok(false));
}

#[test]
fn has_bits_counts_remaining_bits() {
    let mut br = BitReader::new();
    br.push_bytes(&[0x00, 0x00]);
    assert_eq!(br.read_bits(3), Ok(0));
    assert_eq!(br.has_bits(12), Ok(true));
    assert_eq!(br.has_bits(13), Err(ByteSizeError { len: 13, rbits: None }));
    assert_eq!(br.read_bits(5), Ok(0));
    assert_eq!(br.has_bits(8), Ok(true));
    assert_eq!(br.has_bits(9), Ok(false));
    assert_eq!(br.has_bits(0), Ok(true));
}

#[test]
fn has_bits_true_means_read_succeeds() {
    let mut br = BitReader::new();
    br.push_bytes(&[0x5A, 0x03]);
    assert_eq!(br.read_bits(7), Ok(0x5A));
    assert_eq!(br.has_bits(9), Ok(true));
    assert_eq!(br.read_bits(9), Ok(0x06));
}

#[test]
fn push_keeps_unread_bits_in_front() {
    let mut br = BitReader::new();
    br.push_bytes(&[0xF0]);
    assert_eq!(br.read_bits(4), Ok(0x0));
    assert!(br.push_bytes(&[0x0A]).is_none());
    assert_eq!(br.read_bits(8), Ok(0xAF));
    assert_eq!(br.has_bits(4), Ok(true));
    assert_eq!(br.read_bits(4), Ok(0x0));
    assert_eq!(br.has_bits(1), Ok(false));
}

#[test]
fn push_after_everything_was_read_starts_afresh() {
    let mut br = BitReader::new();
    br.push_bytes(&[0x01]);
    assert_eq!(br.read_bits(8), Ok(1));
    br.push_bytes(&[0x02, 0x03]);
    assert_eq!(br.read_bits(16), Ok(0x0302));
}

#[test]
fn bit_reader_shifts_or_default() {
    let mut br = BitReader::new();
    assert_eq!(br.shl_or(0x00FF, 4, 7), 0x0FF0);
    assert_eq!(br.shl_or(0x8001, 1, 7), 0x0002);
    assert_eq!(br.shl_or(1, 16, 7), 7);
    assert_eq!(br.shr_or(0xFF00, 8, 7), 0x00FF);
    assert_eq!(br.shr_or(0xFF00, 15, 7), 0x0001);
    assert_eq!(br.shr_or(0xFF00, 16, 7), 7);
}

#[test]
fn every_pushed_byte_reads_back_then_nothing_is_left() {
    let bytes = [0x00, 0x7F, 0x80, 0xFF, 0x5A];
    let mut br = BitReader::new();
    assert!(br.push_bytes(&bytes).is_none());
    for b in bytes {
        assert_eq!(br.read_bits(8), Ok(b as u16));
    }
    assert_eq!(br.read_bits(1), Err(ByteSizeError { len: 1, rbits: Some(0) }));
}
