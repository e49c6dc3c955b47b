use gif_decoder::bit_reader::BitReader;
use gif_decoder::error::DecodeError;
use gif_decoder::lzw::LzwDecoder;

#[test]
fn start_state_codes() {
    let d = LzwDecoder::new(2, 4);
    assert_eq!(d.clear_code(), 4);
    assert_eq!(d.eoi_code(), 5);
    assert_eq!(d.size(), 3);
    assert!(d.index_stream().is_empty());
}

#[test]
fn first_code_must_follow_a_clear_code() {
    let mut d = LzwDecoder::new(2, 4);
    assert_eq!(d.step(1), Err(1));
}

#[test]
fn literal_after_clear_is_itself() {
    let mut d = LzwDecoder::new(2, 4);
    assert_eq!(d.step(4), Ok(()));
    assert_eq!(d.step(3), Ok(()));
    assert_eq!(d.index_stream(), &vec![3]);
}

#[test]
fn code_not_yet_assigned_repeats_previous_entry() {
    let mut d = LzwDecoder::new(2, 4);
    d.step(4).unwrap();
    d.step(1).unwrap();
    assert_eq!(d.step(6), Ok(()));
    assert_eq!(d.index_stream(), &vec![1, 1, 1]);
    assert_eq!(d.size(), 3);
    assert_eq!(d.step(6), Ok(()));
    assert_eq!(d.index_stream(), &vec![1, 1, 1, 1, 1]);
    assert_eq!(d.size(), 4);
    assert_eq!(d.step(7), Ok(()));
    assert_eq!(d.index_stream(), &vec![1, 1, 1, 1, 1, 1, 1, 1]);
}

#[test]
fn table_entries_grow_by_one_index() {
    let mut d = LzwDecoder::new(2, 4);
    d.step(4).unwrap();
    d.step(1).unwrap();
    d.step(2).unwrap();
    d.step(6).unwrap();
    assert_eq!(d.index_stream(), &vec![1, 2, 1, 2]);
    d.step(7).unwrap();
    assert_eq!(d.index_stream(), &vec![1, 2, 1, 2, 2, 1]);
}

#[test]
fn clear_code_resets_the_table() {
    let mut d = LzwDecoder::new(2, 4);
    d.step(4).unwrap();
    d.step(1).unwrap();
    d.step(6).unwrap();
    d.step(6).unwrap();
    assert_eq!(d.size(), 4);
    d.step(4).unwrap();
    assert_eq!(d.size(), 3);
    d.step(0).unwrap();
    assert_eq!(d.index_stream(), &vec![1, 1, 1, 1, 1, 0]);
}

#[test]
fn previous_end_code_has_no_entry() {
    let mut d = LzwDecoder::new(2, 4);
    d.step(4).unwrap();
    d.step(1).unwrap();
    d.push_eoi();
    assert_eq!(d.step(3), Err(4));
    let mut d = LzwDecoder::new(2, 4);
    d.step(4).unwrap();
    d.step(1).unwrap();
    d.push_eoi();
    assert_eq!(d.step(7), Err(3));
}

#[test]
fn decode_codes_stops_at_end_code() {
    let mut d = LzwDecoder::new(2, 4);
    let mut br = BitReader::new();
    // 100 001 101 then 0110 left over
    br.push_bytes(&[0x4C, 0x6B]);
    assert_eq!(d.decode_codes(&mut br), Ok(()));
    assert_eq!(d.index_stream(), &vec![1]);
    assert_eq!(br.has_bits(7), Ok(true));
    assert_eq!(br.has_bits(8), Ok(false));
}

#[test]
fn decode_codes_stops_when_bits_run_short() {
    let mut d = LzwDecoder::new(2, 4);
    let mut br = BitReader::new();
    // 100 001 and two bits left
    br.push_bytes(&[0x0C]);
    assert_eq!(d.decode_codes(&mut br), Ok(()));
    assert_eq!(d.index_stream(), &vec![1]);
    assert_eq!(br.has_bits(2), Ok(true));
}

#[test]
fn decode_codes_without_enough_bits_fails() {
    let mut d = LzwDecoder::new(2, 4);
    let mut br = BitReader::new();
    br.push_bytes(&[]);
    assert_eq!(
        d.decode_codes(&mut br),
        Err(DecodeError::BitRead(gif_decoder::bit_reader::ByteSizeError { len: 3, rbits: Some(0) }))
    );
}
