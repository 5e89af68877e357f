use kctrl::protocol::{
    handshake_reply, ProtoParser, Value, HANDSHAKE_VAL_ID, HANDSHAKE_VAL_LEN, LCDCLEAR_VAL_ID,
    LCDCLEAR_VAL_LEN, LCDWRITE_VAL_ID, LED_1_VAL_ID, LED_1_VAL_LEN, RECIEVED_VAL_ID,
    RECIEVED_VAL_LEN,
};

fn feed(p: &mut ProtoParser, bytes: &[u8]) -> Vec<Option<Value>> {
    bytes.iter().map(|b| p.parse(*b)).collect()
}

fn lcd(l1: &str, l2: &str) -> Value {
    Value::Lcdwrite(l1.to_string(), l2.to_string())
}

#[test]
fn repr_flag_messages() {
    assert_eq!(Value::Lcdclear(false).repr(), vec![1, 0]);
    assert_eq!(Value::Lcdclear(true).repr(), vec![1, 1]);
    assert_eq!(Value::Led_1(true).repr(), vec![2, 1]);
    assert_eq!(Value::Led_1(false).repr(), vec![2, 0]);
    assert_eq!(Value::Handshake(true).repr(), vec![3, 1]);
    assert_eq!(Value::Recieved(true).repr(), vec![4, 1]);
    assert_eq!(Value::Recieved(false).repr(), vec![4, 0]);
}

#[test]
fn repr_lcd_write() {
    let bytes = lcd("Hello,", "world!").repr();
    let mut expected = vec![0u8];
    expected.extend_from_slice(b"Hello,");
    expected.push(255);
    expected.extend_from_slice(b"world!");
    expected.push(255);
    assert_eq!(bytes, expected);
}

#[test]
fn repr_lcd_write_utf8() {
    assert_eq!(lcd("\u{e9}", "").repr(), vec![0, 0xC3, 0xA9, 255, 255]);
    assert_eq!(lcd("", "").repr(), vec![0, 255, 255]);
}

#[test]
fn constants_match_frames() {
    assert_eq!(LCDWRITE_VAL_ID, 0);
    assert_eq!(Value::Lcdclear(true).repr().len(), LCDCLEAR_VAL_LEN);
    assert_eq!(Value::Led_1(true).repr().len(), LED_1_VAL_LEN);
    assert_eq!(Value::Handshake(true).repr().len(), HANDSHAKE_VAL_LEN);
    assert_eq!(Value::Recieved(true).repr().len(), RECIEVED_VAL_LEN);
    assert_eq!(Value::Lcdclear(true).repr()[0] as usize, LCDCLEAR_VAL_ID);
    assert_eq!(Value::Led_1(true).repr()[0] as usize, LED_1_VAL_ID);
    assert_eq!(Value::Handshake(true).repr()[0] as usize, HANDSHAKE_VAL_ID);
    assert_eq!(Value::Recieved(true).repr()[0] as usize, RECIEVED_VAL_ID);
}

#[test]
fn parse_flag_messages() {
    let mut p = ProtoParser::new();
    assert!(p.parse(1).is_none());
    assert!(matches!(p.parse(1), Some(Value::Lcdclear(true))));
    assert!(p.parse(2).is_none());
    assert!(matches!(p.parse(0), Some(Value::Led_1(false))));
    assert!(p.parse(3).is_none());
    assert!(matches!(p.parse(1), Some(Value::Handshake(true))));
    assert!(p.parse(4).is_none());
    assert!(matches!(p.parse(0), Some(Value::Recieved(false))));
}

#[test]
fn flag_is_lowest_bit() {
    let mut p = ProtoParser::new();
    assert!(p.parse(3).is_none());
    assert!(matches!(p.parse(0xFE), Some(Value::Handshake(false))));
    assert!(p.parse(2).is_none());
    assert!(matches!(p.parse(0x81), Some(Value::Led_1(true))));
}

#[test]
fn parse_lcd_write_completes_on_last_byte() {
    let mut p = ProtoParser::new();
    let bytes = lcd("ab", "c").repr();
    let results = feed(&mut p, &bytes);
    for r in &results[..results.len() - 1] {
        assert!(r.is_none());
    }
    match results.last().unwrap() {
        Some(Value::Lcdwrite(l1, l2)) => {
            assert_eq!(l1, "ab");
            assert_eq!(l2, "c");
        }
        _ => panic!("no message"),
    }
}

#[test]
fn parse_lcd_write_empty_first_line() {
    let mut p = ProtoParser::new();
    let results = feed(&mut p, &[0, 255, b'x', 255]);
    assert!(results[..3].iter().all(|r| r.is_none()));
    match &results[3] {
        Some(Value::Lcdwrite(l1, l2)) => {
            assert_eq!(l1, "");
            assert_eq!(l2, "x");
        }
        _ => panic!("no message"),
    }
}

#[test]
fn empty_second_line_completes() {
    let mut p = ProtoParser::new();
    let bytes = lcd("H", "").repr();
    assert_eq!(bytes, vec![0, 72, 255, 255]);
    let results = feed(&mut p, &bytes);
    assert!(results[..3].iter().all(|r| r.is_none()));
    assert!(matches!(&results[3], Some(Value::Lcdwrite(a, b)) if a == "H" && b.is_empty()));
    let later = feed(&mut p, &Value::Led_1(true).repr());
    assert!(later[0].is_none());
    assert!(matches!(later[1], Some(Value::Led_1(true))));
}

#[test]
fn both_lines_empty_completes() {
    let mut p = ProtoParser::new();
    let results = feed(&mut p, &lcd("", "").repr());
    assert!(matches!(&results[2], Some(Value::Lcdwrite(a, b)) if a.is_empty() && b.is_empty()));
}

#[test]
fn two_terminators_resynchronise() {
    let mut p = ProtoParser::new();
    assert!(feed(&mut p, &[0, 72]).iter().all(|r| r.is_none()));
    let mut bytes = vec![255u8, 255];
    bytes.extend(Value::Led_1(true).repr());
    let results = feed(&mut p, &bytes);
    assert!(results[0].is_none());
    assert!(matches!(&results[1], Some(Value::Lcdwrite(a, b)) if a == "H" && b.is_empty()));
    assert!(results[2].is_none());
    assert!(matches!(results[3], Some(Value::Led_1(true))));
}

#[test]
fn two_terminators_end_a_flag_frame() {
    let mut p = ProtoParser::new();
    assert!(p.parse(3).is_none());
    assert!(matches!(p.parse(255), Some(Value::Handshake(true))));
    assert!(p.parse(255).is_none());
    assert!(p.parse(1).is_none());
    assert!(matches!(p.parse(0), Some(Value::Lcdclear(false))));
}

#[test]
fn non_ascii_text_is_read_byte_by_byte() {
    let mut p = ProtoParser::new();
    let results = feed(&mut p, &lcd("\u{e9}", "x").repr());
    match results.last().unwrap() {
        Some(Value::Lcdwrite(l1, l2)) => {
            assert_eq!(l1, "\u{c3}\u{a9}");
            assert_eq!(l2, "x");
        }
        _ => panic!("no message"),
    }
}

#[test]
fn noise_before_a_message_is_skipped() {
    let mut p = ProtoParser::new();
    let results = feed(&mut p, &[9, 200, 255, 5, 2, 1]);
    assert!(results[..5].iter().all(|r| r.is_none()));
    assert!(matches!(results[5], Some(Value::Led_1(true))));
}

#[test]
fn read_back_every_kind() {
    let messages = vec![
        lcd("Hello,", "world!"),
        Value::Lcdclear(false),
        Value::Led_1(true),
        Value::Handshake(false),
        Value::Recieved(true),
        lcd("", "z"),
        lcd("H", ""),
        lcd("", ""),
    ];
    for m in messages {
        let mut p = ProtoParser::new();
        let bytes = m.repr();
        let results = feed(&mut p, &bytes);
        assert!(results[..bytes.len() - 1].iter().all(|r| r.is_none()));
        let back = results.last().unwrap().clone().unwrap();
        assert_eq!(back.repr(), bytes);
    }
}

#[test]
fn stream_of_messages_read_in_order() {
    let mut p = ProtoParser::new();
    let mut bytes = Value::Lcdclear(false).repr();
    bytes.extend(lcd("Hi", "there").repr());
    bytes.extend(Value::Led_1(true).repr());
    let got: Vec<Value> = feed(&mut p, &bytes).into_iter().flatten().collect();
    assert_eq!(got.len(), 3);
    assert!(matches!(got[0], Value::Lcdclear(false)));
    assert!(matches!(&got[1], Value::Lcdwrite(a, b) if a == "Hi" && b == "there"));
    assert!(matches!(got[2], Value::Led_1(true)));
}

#[test]
fn parser_idle_after_message() {
    let mut p = ProtoParser::new();
    assert!(p.parse(4).is_none());
    assert!(p.parse(1).is_some());
    assert!(p.parse(7).is_none());
    assert!(p.parse(4).is_none());
    assert!(matches!(p.parse(1), Some(Value::Recieved(true))));
}

#[test]
fn handshake_is_acknowledged() {
    assert_eq!(handshake_reply(&Some(Value::Handshake(false))), Some(vec![4, 1]));
    assert_eq!(handshake_reply(&Some(Value::Handshake(true))), Some(vec![4, 1]));
    assert_eq!(handshake_reply(&Some(Value::Led_1(true))), None);
    assert_eq!(handshake_reply(&None), None);
}
