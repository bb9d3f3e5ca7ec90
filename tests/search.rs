use text_searcher::{
    get_2bytes, search, search_2bytes, search_2bytes_with_diff, search_multibyte, search_with_diff, Text,
};

#[test]
fn test_search() {
    let b: Vec<u8> = "This is the text we're testing".bytes().collect();

    let a = Text::from_str("text");
    assert!(search(&a.0, &b).is_some());
    let a = Text::from_str("text!");
    assert!(search(&a.0, &b).is_none());
    let a = Text::from_str("e're");
    assert!(search(&a.0, &b).is_some());
    let a = Text::from_str("this");
    assert!(search(&a.0, &b).is_none());
}

#[test]
fn search_reports_first_index_and_inferred_shift() {
    let b: Vec<u8> = "xx ifmmp yy".bytes().collect();
    let a = Text::from_str("hello");
    let t = search(&a.0, &b).unwrap();
    assert_eq!((3, 1, 1), (t.index, t.codepoint_diff, t.bytes_per_character));
    assert!(search_with_diff(&a.0, &b, 0).is_none());
    let t = search_with_diff(&a.0, &b, 1).unwrap();
    assert_eq!(3, t.index);
}

#[test]
fn search_negative_shift() {
    let b: Vec<u8> = "ABC".bytes().collect();
    let a = Text::from_str("bcd");
    let t = search(&a.0, &b).unwrap();
    assert_eq!((0, -33), (t.index, t.codepoint_diff));
}

#[test]
fn search_empty_or_too_long_token_finds_nothing() {
    let b: Vec<u8> = "abc".bytes().collect();
    assert!(search(&[], &b).is_none());
    assert!(search_2bytes(&[], &b).is_none());
    let a = Text::from_str("abcd");
    assert!(search(&a.0, &b).is_none());
    assert!(search_multibyte(&a.0, &b, None).is_none());
}

#[test]
fn search_2bytes_little_and_big_endian() {
    let le: Vec<u8> = "zzhi".bytes().flat_map(|b| [b, 0]).collect();
    let a = Text::from_str("hi");
    let t = search_2bytes(&a.0, &le).unwrap();
    assert_eq!((4, 0, 2), (t.index, t.codepoint_diff, t.bytes_per_character));
    let be: Vec<u8> = "zzhiq".bytes().flat_map(|b| [0, b]).collect();
    assert!(search_2bytes(&a.0, &be).is_none());
    let t = search_2bytes(&a.0, &be[1..]).unwrap();
    assert_eq!((4, 0, 2), (t.index, t.codepoint_diff, t.bytes_per_character));
    assert!(search_2bytes_with_diff(&a.0, &le, 0).is_some());
    assert!(search_2bytes_with_diff(&a.0, &le, 5).is_none());
}

#[test]
fn search_multibyte_prefers_one_byte() {
    let le: Vec<u8> = "hi".bytes().flat_map(|b| [b, 0]).collect();
    let a = Text::from_str("hi");
    let t = search_multibyte(&a.0, &le, None).unwrap();
    assert_eq!(2, t.bytes_per_character);
    let plain: Vec<u8> = "hi".bytes().collect();
    let t = search_multibyte(&a.0, &plain, Some(0)).unwrap();
    assert_eq!((0, 0, 1), (t.index, t.codepoint_diff, t.bytes_per_character));
}

#[test]
fn get_2bytes_is_little_endian() {
    assert_eq!(0x1234, get_2bytes(&[0x99, 0x77, 0x34, 0x12], 1));
}
