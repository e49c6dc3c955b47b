use gif_decoder::error::DecodeError;
use gif_decoder::gif::{
    ByteSizeError, Color, Decoder, Gif, GraphicsControlExtension, ImageDescriptor,
    LogicalScreenDescriptor, ParsedFrame,
};

/// A 10 by 10 image with a four-colour global table, a graphic control
/// extension and one image whose LZW data decode to 100 indices.
fn sample_gif() -> Vec<u8> {
    vec![
        0x47, 0x49, 0x46, 0x38, 0x39, 0x61, 0x0A, 0x00, 0x0A, 0x00, 0x91, 0x00, 0x00, 0xFF, 0xFF,
        0xFF, 0xFF, 0x00, 0x00, 0x00, 0x00, 0xFF, 0x00, 0x00, 0x00, 0x21, 0xF9, 0x04, 0x00, 0x00,
        0x00, 0x00, 0x00, 0x2C, 0x00, 0x00, 0x00, 0x00, 0x0A, 0x00, 0x0A, 0x00, 0x00, 0x02, 0x16,
        0x8C, 0x2D, 0x99, 0x87, 0x2A, 0x1C, 0xDC, 0x33, 0xA0, 0x02, 0x75, 0xEC, 0x95, 0xFA, 0xA8,
        0xDE, 0x60, 0x8C, 0x04, 0x91, 0x4C, 0x01, 0x00, 0x3B,
    ]
}

fn sample_indices() -> Vec<u8> {
    vec![
        1, 1, 1, 1, 1, 2, 2, 2, 2, 2, 1, 1, 1, 1, 1, 2, 2, 2, 2, 2, 1, 1, 1, 1, 1, 2, 2, 2, 2, 2,
        1, 1, 1, 0, 0, 0, 0, 2, 2, 2, 1, 1, 1, 0, 0, 0, 0, 2, 2, 2, 2, 2, 2, 0, 0, 0, 0, 1, 1, 1,
        2, 2, 2, 0, 0, 0, 0, 1, 1, 1, 2, 2, 2, 2, 2, 1, 1, 1, 1, 1, 2, 2, 2, 2, 2, 1, 1, 1, 1, 1,
        2, 2, 2, 2, 2, 1, 1, 1, 1, 1,
    ]
}

/// A file with only a header, a descriptor with a two-colour table and the
/// given blocks after it.
fn with_blocks(blocks: &[u8]) -> Vec<u8> {
    let mut c = vec![
        0x47, 0x49, 0x46, 0x38, 0x37, 0x61, 0x02, 0x00, 0x01, 0x00, 0x80, 0x00, 0x00, 0x00, 0x00,
        0x00, 0xFF, 0xFF, 0xFF,
    ];
    c.extend_from_slice(blocks);
    c
}

fn color(r: u8, g: u8, b: u8) -> Color {
    Color { red: r, green: g, blue: b, alpha: 255 }
}

#[test]
fn decodes_sample_image() {
    let mut d = Decoder { offset: 0 };
    let contents = sample_gif();
    let gif = d.decode_bytes(&contents).unwrap();
    assert_eq!(gif.version, "89a");
    assert_eq!(gif.lsd.width, 10);
    assert_eq!(gif.lsd.height, 10);
    assert!(gif.lsd.global_color_flag);
    assert_eq!(gif.lsd.color_resolution, 0x10);
    assert!(!gif.lsd.sorted_flag);
    assert_eq!(gif.lsd.global_color_size, 1);
    assert_eq!(
        gif.global_table,
        Some(vec![color(255, 255, 255), color(255, 0, 0), color(0, 0, 255), color(0, 0, 0)])
    );
    assert_eq!(gif.frames.len(), 1);
    let frame = &gif.frames[0];
    assert_eq!(frame.im.width, 10);
    assert_eq!(frame.im.height, 10);
    assert!(!frame.im.local_color_table_flag);
    assert_eq!(frame.local_table, None);
    assert_eq!(frame.gcd.delay_time, 0);
    assert_eq!(frame.indices, sample_indices());
    assert_eq!(d.offset, contents.len() - 1);
    assert_eq!(contents[d.offset], 0x3B);
}

#[test]
fn header_bytes_give_only_the_version() {
    let mut other = sample_gif();
    other[0] = b'X';
    other[1] = b'Y';
    other[2] = b'Z';
    other[3] = b'8';
    other[4] = b'7';
    other[5] = b'a';
    let mut d1 = Decoder { offset: 0 };
    let mut d2 = Decoder { offset: 1234 };
    let g1 = d1.decode_bytes(&sample_gif()).unwrap();
    let g2 = d2.decode_bytes(&other).unwrap();
    assert_eq!(g1.version, "89a");
    assert_eq!(g2.version, "87a");
    assert_eq!(g1.lsd, g2.lsd);
    assert_eq!(g1.global_table, g2.global_table);
    assert_eq!(g1.frames.len(), g2.frames.len());
    assert_eq!(g1.frames[0].indices, g2.frames[0].indices);
    assert_eq!(g1.frames[0].im, g2.frames[0].im);
    assert_eq!(g1.frames[0].gcd, g2.frames[0].gcd);
    assert_eq!(d1.offset, d2.offset);
}

#[test]
fn truncated_files_end_unexpectedly() {
    let contents = sample_gif();
    for cut in [0usize, 5, 12, 20, 30, 40, 46, 60, 68] {
        let mut d = Decoder { offset: 0 };
        let r = d.decode_bytes(&contents[..cut]);
        assert!(matches!(r, Err(DecodeError::UnexpectedEnd)), "cut at {}", cut);
    }
}

#[test]
fn version_that_is_not_utf8_is_empty() {
    let mut contents = with_blocks(&[0x3B]);
    contents[3] = 0xFF;
    let mut d = Decoder { offset: 0 };
    let gif = d.decode_bytes(&contents).unwrap();
    assert_eq!(gif.version, "");
    assert_eq!(gif.lsd.width, 2);
    assert_eq!(gif.lsd.height, 1);
    assert_eq!(gif.global_table, Some(vec![color(0, 0, 0), color(255, 255, 255)]));
    assert_eq!(d.offset, 19);
}

#[test]
fn global_table_is_read_without_its_flag() {
    let mut contents = with_blocks(&[0x3B]);
    contents[10] = 0x00;
    let mut d = Decoder { offset: 0 };
    let gif = d.decode_bytes(&contents).unwrap();
    assert!(!gif.lsd.global_color_flag);
    assert_eq!(gif.global_table.map(|t| t.len()), Some(2));
}

#[test]
fn minimum_code_size_zero_is_refused() {
    let contents = with_blocks(&[
        0x2C, 0, 0, 0, 0, 1, 0, 1, 0, 0x00, 0x00, 0x01, 0x00, 0x00, 0x3B,
    ]);
    let mut d = Decoder { offset: 0 };
    assert!(matches!(d.decode_bytes(&contents), Err(DecodeError::InvalidMinimumCodeSize)));
}

#[test]
fn minimum_code_size_nine_is_refused() {
    let contents = with_blocks(&[
        0x2C, 0, 0, 0, 0, 1, 0, 1, 0, 0x00, 0x09, 0x01, 0x00, 0x00, 0x3B,
    ]);
    let mut d = Decoder { offset: 0 };
    assert!(matches!(d.decode_bytes(&contents), Err(DecodeError::InvalidMinimumCodeSize)));
}

#[test]
fn image_data_starting_without_clear_code_is_invalid() {
    // Minimum code size 2: codes are 3 bits; the first code is 1, not the clear code 4.
    let contents = with_blocks(&[
        0x2C, 0, 0, 0, 0, 1, 0, 1, 0, 0x00, 0x02, 0x01, 0x01, 0x00, 0x3B,
    ]);
    let mut d = Decoder { offset: 0 };
    assert!(matches!(d.decode_bytes(&contents), Err(DecodeError::InvalidCode(1))));
}

#[test]
fn empty_image_data_runs_out_of_bits() {
    let contents = with_blocks(&[0x2C, 0, 0, 0, 0, 1, 0, 1, 0, 0x00, 0x02, 0x00, 0x00, 0x3B]);
    let mut d = Decoder { offset: 0 };
    let r = d.decode_bytes(&contents);
    assert_eq!(
        r.err(),
        Some(DecodeError::BitRead(ByteSizeError { len: 3, rbits: Some(0) }))
    );
}

#[test]
fn clear_literal_end_decodes_one_index() {
    // Codes of 3 bits: clear (4), 1, end of information (5): 100 001 101.
    let contents = with_blocks(&[
        0x2C, 0, 0, 0, 0, 1, 0, 1, 0, 0x00, 0x02, 0x02, 0x4C, 0x01, 0x00, 0x3B,
    ]);
    let mut d = Decoder { offset: 0 };
    let gif = d.decode_bytes(&contents).unwrap();
    assert_eq!(gif.frames.len(), 1);
    assert_eq!(gif.frames[0].indices, vec![1]);
    assert_eq!(gif.frames[0].gcd, GraphicsControlExtension::default());
}

#[test]
fn local_color_table_is_read() {
    let contents = with_blocks(&[
        0x2C, 0, 0, 0, 0, 1, 0, 1, 0, 0x80, 1, 2, 3, 4, 5, 6, 0x02, 0x02, 0x4C, 0x01, 0x00,
        0x3B,
    ]);
    let mut d = Decoder { offset: 0 };
    let gif = d.decode_bytes(&contents).unwrap();
    let frame = &gif.frames[0];
    assert!(frame.im.local_color_table_flag);
    assert_eq!(frame.im.local_color_table_size, 0);
    assert_eq!(frame.local_table, Some(vec![color(1, 2, 3), color(4, 5, 6)]));
    assert_eq!(frame.indices, vec![1]);
}

#[test]
fn extensions_are_skipped_and_control_goes_to_next_image() {
    let contents = with_blocks(&[
        // comment
        0x21, 0xFE, 0x03, b'a', b'b', b'c', 0x00,
        // plain text: block of 2, then one sub-block of 1
        0x21, 0x01, 0x02, 9, 9, 0x01, 7, 0x00,
        // application extension "NETSCAPE2.0" with one sub-block
        0x21, 0xFF, 0x0B, b'N', b'E', b'T', b'S', b'C', b'A', b'P', b'E', b'2', b'.', b'0',
        0x03, 0x01, 0x00, 0x00, 0x00,
        // unknown label
        0x21, 0x42,
        // graphic control: disposal bits 0x08, user input, transparent, delay 0x0102, index 5
        0x21, 0xF9, 0x04, 0x0B, 0x02, 0x01, 0x05, 0x00,
        // image
        0x2C, 0, 0, 0, 0, 1, 0, 1, 0, 0x00, 0x02, 0x02, 0x4C, 0x01, 0x00,
        // second image, without a control extension
        0x2C, 0, 0, 0, 0, 1, 0, 1, 0, 0x00, 0x02, 0x02, 0x4C, 0x01, 0x00,
        0x3B,
    ]);
    let mut d = Decoder { offset: 0 };
    let gif = d.decode_bytes(&contents).unwrap();
    assert_eq!(gif.frames.len(), 2);
    let g = gif.frames[0].gcd;
    assert_eq!(g.disposal_method, 0x08);
    assert!(g.user_input_flag);
    assert!(g.transparent_color_flag);
    assert_eq!(g.delay_time, 0x0102);
    assert_eq!(g.transparent_color_index, 5);
    assert_eq!(gif.frames[1].gcd, GraphicsControlExtension::default());
    assert_eq!(contents[d.offset], 0x3B);
    assert_eq!(d.offset, contents.len() - 1);
}

#[test]
fn application_extension_gives_its_identifier() {
    let contents = vec![0x0B, b'N', b'E', b'T', b'S', b'C', b'A', b'P', b'E', b'2', b'.', b'0', 0x03, 0x01, 0x00, 0x00, 0x00, 0xAA];
    let mut d = Decoder { offset: 0 };
    assert_eq!(d.handle_application_extension(&contents).unwrap(), "NETSCAPE2.0");
    assert_eq!(d.offset, 17);
}

#[test]
fn application_identifier_that_is_not_utf8_is_empty() {
    let contents = vec![0x02, 0xC3, 0x28, 0x01, 0x07, 0x00];
    let mut d = Decoder { offset: 0 };
    assert_eq!(d.handle_application_extension(&contents).unwrap(), "");
    assert_eq!(d.offset, 6);
}

#[test]
fn zero_first_sub_block_size_still_reads_another_size() {
    let mut d = Decoder { offset: 0 };
    assert_eq!(d.handle_comment_extension(&[0x00]), Err(DecodeError::UnexpectedEnd));
    let mut d = Decoder { offset: 0 };
    assert_eq!(d.handle_comment_extension(&[0x00, 0x00]), Ok(()));
    assert_eq!(d.offset, 2);
}

#[test]
fn sub_blocks_need_their_terminator() {
    let mut d = Decoder { offset: 0 };
    assert_eq!(d.skip_data_sub_blocks(&[1, 2, 0], 2), Ok(()));
    assert_eq!(d.offset, 3);
    let mut d = Decoder { offset: 0 };
    assert_eq!(d.skip_data_sub_blocks(&[1, 2], 2), Err(DecodeError::UnexpectedEnd));
    let mut d = Decoder { offset: 0 };
    assert_eq!(d.skip_data_sub_blocks(&[0], 0), Ok(()));
    assert_eq!(d.offset, 1);
}

#[test]
fn comment_and_plain_text_handlers_move_past_their_data() {
    let mut d = Decoder { offset: 1 };
    assert_eq!(d.handle_comment_extension(&[0xEE, 0x02, 7, 7, 0x00, 0xEE]), Ok(()));
    assert_eq!(d.offset, 5);
    let mut d = Decoder { offset: 0 };
    assert_eq!(d.handle_plain_text_extension(&[0x01, 9, 0x01, 8, 0x00]), Ok(()));
    assert_eq!(d.offset, 5);
    let mut d = Decoder { offset: 0 };
    assert_eq!(d.handle_plain_text_extension(&[0x05, 9]), Err(DecodeError::UnexpectedEnd));
}

#[test]
fn graphic_control_extension_fields() {
    let mut d = Decoder { offset: 2 };
    let g = d.handle_graphic_control_extension(&[0x21, 0xF9, 0x04, 0x1D, 0x34, 0x12, 0x09, 0x00]).unwrap();
    assert_eq!(g.disposal_method, 0x1C);
    assert!(!g.user_input_flag);
    assert!(g.transparent_color_flag);
    assert_eq!(g.delay_time, 0x1234);
    assert_eq!(g.transparent_color_index, 9);
    assert_eq!(d.offset, 8);
    let mut d = Decoder { offset: 3 };
    assert_eq!(
        d.handle_graphic_control_extension(&[0x21, 0xF9, 0x04, 0x1D, 0x34, 0x12, 0x09, 0x00]),
        Err(DecodeError::UnexpectedEnd)
    );
}

#[test]
fn decoder_shifts_or_default() {
    let mut d = Decoder { offset: 4 };
    assert_eq!(d.shl_or(2, 0, 9), 2);
    assert_eq!(d.shl_or(2, 7, 9), 256);
    assert_eq!(d.shl_or(2, 8, 9), 9);
    assert_eq!(d.shr_or(0x80, 7, 9), 1);
    assert_eq!(d.shr_or(0x80, 8, 9), 9);
    d.increment_offset(3);
    assert_eq!(d.offset, 7);
}

#[test]
fn defaults_are_empty() {
    let gif = Gif::default();
    assert_eq!(gif.version, "");
    assert_eq!(gif.lsd, LogicalScreenDescriptor::default());
    assert_eq!(gif.lsd.width, 0);
    assert!(!gif.lsd.global_color_flag);
    assert_eq!(gif.global_table, None);
    assert!(gif.frames.is_empty());
    let frame = ParsedFrame::default();
    assert_eq!(frame.im, ImageDescriptor::default());
    assert_eq!(frame.im.width, 0);
    assert_eq!(frame.gcd, GraphicsControlExtension::default());
    assert_eq!(frame.local_table, None);
    assert!(frame.indices.is_empty());
}
