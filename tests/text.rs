use text_searcher::{Phrase, Text};

#[test]
fn printable_text_round_trips() {
    let s = "Hello, World! ~ {x} 0123";
    assert_eq!(s, Text::from_str(s).to_string());
}

#[test]
fn display_replaces_controls_and_others() {
    let t = Text(vec![65, 10, 9, 13, 0, 7, 200, 0x1F600, 126, 127]);
    assert_eq!("A    ???~?", t.to_string());
}

#[test]
fn from_slice_one_byte_applies_shift() {
    let t = Text::from_slice(&[110, 111, 2], 13, 1);
    assert_eq!(vec![97, 98, (2i32 - 13) as u32], t.0);
}

#[test]
fn from_slice_two_bytes_ignores_trailing_byte() {
    let t = Text::from_slice(&[0x41, 0x00, 0x00, 0x42, 0x7f], 0, 2);
    assert_eq!(vec![0x41, 0x4200], t.0);
    let t = Text::from_slice_2bytes(&[0x41, 0x01], 0x100);
    assert_eq!(vec![0x41], t.0);
}

#[test]
fn from_slice_negative_shift() {
    let t = Text::from_slice_1byte(&[255], -1);
    assert_eq!(vec![256], t.0);
}

#[test]
fn phrase_parse_splits_on_ascii_whitespace() {
    let p = Phrase::parse("  sum my\tcount\n");
    assert_eq!(Phrase::from_strs(&["sum", "my", "count"]), p);
    assert_eq!("sum my count", p.to_string());
    assert_eq!(0, Phrase::parse(" \t ").0.len());
}
