use file::decode_text;
use file::encode_text;
use file::lines_text;
use file::split_lines;
use file::InvalidData;

#[test]
fn text_round_trip_ascii() {
    let text = "Hello, World!";
    let bytes = encode_text(text);
    assert_eq!(bytes, text.as_bytes().to_vec());
    assert_eq!(decode_text(&bytes).unwrap(), text);
}

#[test]
fn text_round_trip_multibyte() {
    let text = "h\u{e9}llo \u{3b1}\u{3b2} \u{1f389}";
    let bytes = encode_text(text);
    assert_eq!(decode_text(&bytes).unwrap(), text);
}

#[test]
fn text_round_trip_empty() {
    let bytes = encode_text("");
    assert_eq!(bytes.len(), 0);
    assert_eq!(decode_text(&bytes).unwrap(), "");
}

#[test]
fn decode_multibyte_sequence() {
    // 0xC3 0xA9 is the two-byte encoding of U+00E9.
    assert_eq!(decode_text(&[0xC3, 0xA9]).unwrap(), "\u{e9}");
}

#[test]
fn decode_rejects_invalid_utf8() {
    assert_eq!(decode_text(&[0x80]), Err(InvalidData));
}

#[test]
fn decode_rejects_truncated_sequence() {
    // A two-byte leading byte with no continuation byte after it.
    assert_eq!(decode_text(&[0xC3]), Err(InvalidData));
}

#[test]
fn decode_rejects_overlong_encoding() {
    // 0xC0 0x80 would decode to 0, but 0 has a one-byte encoding.
    assert_eq!(decode_text(&[0xC0, 0x80]), Err(InvalidData));
}

#[test]
fn lines_without_final_terminator() {
    assert_eq!(lines_text(b"a\nb\nc").unwrap(), vec!["a", "b", "c"]);
}

#[test]
fn lines_with_final_terminator() {
    assert_eq!(lines_text(b"a\nb\n").unwrap(), vec!["a", "b"]);
}

#[test]
fn lines_of_empty_input() {
    assert_eq!(lines_text(b"").unwrap().len(), 0);
}

#[test]
fn lines_single_newline() {
    assert_eq!(lines_text(b"\n").unwrap(), vec![""]);
}

#[test]
fn lines_keep_inner_empty_line() {
    assert_eq!(lines_text(b"a\n\nb").unwrap(), vec!["a", "", "b"]);
}

#[test]
fn lines_strip_carriage_return_before_line_feed() {
    assert_eq!(lines_text(b"a\r\nb\r\n").unwrap(), vec!["a", "b"]);
}

#[test]
fn lines_keep_lone_carriage_return() {
    assert_eq!(lines_text(b"a\rb\na\r").unwrap(), vec!["a\rb", "a\r"]);
}

#[test]
fn lines_reject_invalid_line() {
    assert_eq!(lines_text(b"ok\n\x80\nalso ok"), Err(InvalidData));
}

#[test]
fn split_keeps_raw_segments() {
    let segments = split_lines(b"a\n\x80\x0D\nc");
    assert_eq!(segments, vec![b"a".to_vec(), vec![0x80], b"c".to_vec()]);
}

#[test]
fn split_of_empty_input() {
    assert_eq!(split_lines(b"").len(), 0);
}
