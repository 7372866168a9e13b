use minijson::json::lexer::{JsonTokenType, Token};
use minijson::utf8::{
    get_head_data, get_head_type, next_codepoint, next_codepoint_head, tail_data, tail_masked,
    UTF8HeadType,
};

#[test]
fn head_types_follow_bit_patterns() {
    assert_eq!(get_head_type(0x41), UTF8HeadType::Single);
    assert_eq!(get_head_type(0xc3), UTF8HeadType::Double);
    assert_eq!(get_head_type(0xe6), UTF8HeadType::Triple);
    assert_eq!(get_head_type(0xf0), UTF8HeadType::Quad);
    assert_eq!(get_head_type(0x80), UTF8HeadType::Unknown);
    assert_eq!(get_head_type(0xf8), UTF8HeadType::Unknown);
}

#[test]
fn head_data_strips_markers() {
    assert_eq!(get_head_data(0x41), Some(0x41));
    assert_eq!(get_head_data(0xc3), Some(0x03));
    assert_eq!(get_head_data(0xe6), Some(0x06));
    assert_eq!(get_head_data(0xf0), Some(0x00));
    assert_eq!(get_head_data(0x80), None);
}

#[test]
fn tail_bits_mask_and_shift() {
    assert_eq!(tail_data(0xa9), 0x29);
    assert_eq!(tail_masked(0xa9, 1), 0x29);
    assert_eq!(tail_masked(0xa9, 2), 0x29 << 6);
    assert_eq!(tail_masked(0xa9, 3), 0x29 << 12);
}

#[test]
fn decode_ascii() {
    let bytes = vec![0x41u8];
    let mut pos: usize = 0;
    assert_eq!(next_codepoint(&bytes, &mut pos), Some('A'));
    assert_eq!(pos, 1);
}

#[test]
fn decode_two_byte_sequence() {
    let bytes = vec![0xc3u8, 0xa9];
    let mut pos: usize = 0;
    assert_eq!(next_codepoint(&bytes, &mut pos), Some('\u{e9}'));
    assert_eq!(pos, 2);
}

#[test]
fn decode_three_byte_sequence() {
    let bytes = vec![0xe6u8, 0x97, 0xa5];
    let mut pos: usize = 0;
    assert_eq!(next_codepoint(&bytes, &mut pos), Some('\u{65e5}'));
    assert_eq!(pos, 3);
}

#[test]
fn decode_four_byte_sequence() {
    let bytes = vec![0xf0u8, 0x9f, 0x98, 0x80];
    let mut pos: usize = 0;
    assert_eq!(next_codepoint(&bytes, &mut pos), Some('\u{1f600}'));
    assert_eq!(pos, 4);
}

#[test]
fn unknown_head_byte_fails() {
    let bytes = vec![0x80u8, 0x41];
    let mut pos: usize = 0;
    assert_eq!(next_codepoint(&bytes, &mut pos), None);
}

#[test]
fn truncated_sequence_fails_without_consuming_tails() {
    let bytes = vec![0xe6u8, 0x97];
    let mut pos: usize = 1;
    assert_eq!(next_codepoint_head(&bytes, &mut pos, 0xe6), None);
    assert_eq!(pos, 1);
}

#[test]
fn surrogate_codepoint_fails() {
    // 0xed 0xa0 0x80 would decode to 0xd800, which is no Unicode scalar.
    let bytes = vec![0xedu8, 0xa0, 0x80];
    let mut pos: usize = 0;
    assert_eq!(next_codepoint(&bytes, &mut pos), None);
}

#[test]
fn token_new_pairs_lexeme_and_kind() {
    let t = Token::new("42".to_string(), JsonTokenType::Number);
    assert_eq!(t.0, "42");
    assert_eq!(t.1, JsonTokenType::Number);
}
