use kctrl::serial::{bytes_to_send, line_bytes_to_send, line_of_bytes, text_of_bytes, LINE_END};

#[test]
fn bytes_become_characters() {
    assert_eq!(text_of_bytes(b"abc"), "abc");
    assert_eq!(text_of_bytes(&[0x41, 0xE9]), "A\u{e9}");
    assert_eq!(text_of_bytes(&[]), "");
}

#[test]
fn line_loses_trailing_white_space() {
    assert_eq!(line_of_bytes(b"value 12 \r"), "value 12");
    assert_eq!(line_of_bytes(b"  lead"), "  lead");
    assert_eq!(line_of_bytes(b" \t "), "");
}

#[test]
fn line_trim_matches_std_for_every_byte() {
    for b in 0u8..=255 {
        let bytes = [b'x', b];
        let expected: String = bytes.iter().map(|c| *c as char).collect::<String>().trim_end().to_string();
        assert_eq!(line_of_bytes(&bytes), expected, "byte {}", b);
    }
}

#[test]
fn text_is_sent_last_character_first() {
    assert_eq!(bytes_to_send("abc"), vec![b'c', b'b', b'a']);
    assert_eq!(bytes_to_send(""), Vec::<u8>::new());
    assert_eq!(bytes_to_send("\u{e9}\u{101}"), vec![0x01, 0xE9]);
}

#[test]
fn line_is_sent_terminator_first() {
    assert_eq!(line_bytes_to_send("ok"), vec![LINE_END, b'k', b'o']);
    assert_eq!(LINE_END, b'\n');
}
