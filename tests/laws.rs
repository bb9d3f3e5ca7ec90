use text_searcher::{Finder, Phrase, PhraseInstance, PhraseInstanceGroup, Text};

fn instances(groups: &[PhraseInstanceGroup]) -> Vec<PhraseInstance> {
    groups.iter().flat_map(|g| g.0.iter()).cloned().collect()
}

#[test]
fn same_stream_twice_gives_same_groups() {
    let input = b"the quick brown fox jumps over the lazy dog, the quick brown fox".to_vec();
    let phrases = [Phrase::from_strs(&["quick", "fox"]), Phrase::from_strs(&["lazy"])];
    let a = Finder::find_all(&phrases, 16, 8, &input);
    let b = Finder::find_all(&phrases, 16, 8, &input);
    assert_eq!(a, b);
    assert!(!a.is_empty());
}

#[test]
fn stepping_matches_find_all() {
    let input = b"abc famine where xyz famine where".to_vec();
    let phrases = [Phrase::from_strs(&["famine", "where"])];
    let all = Finder::find_all(&phrases, 24, 12, &input);
    let mut finder = Finder::new(&phrases, 24, 12);
    let mut stepped = Vec::new();
    for b in &input {
        if let Some(g) = finder.push_byte(*b) {
            stepped.push(g);
        }
    }
    while let Some(g) = finder.flush() {
        stepped.push(g);
    }
    assert_eq!(all, stepped);
    assert_eq!(input.len() + 6, finder.file_pos());
    assert_eq!(24, finder.context_size());
}

#[test]
fn hit_position_decodes_to_token() {
    let input: Vec<u8> = b"....xx ifmmp world....".to_vec();
    let phrases = [Phrase::from_strs(&["hello"])];
    let found = instances(&Finder::find_all(&phrases, 16, 8, &input));
    assert!(!found.is_empty());
    for x in found {
        let tail = &input[x.file_pos..];
        let text = Text::from_slice(tail, x.codepoint_diff, x.bytes_per_character);
        assert_eq!(Text::from_str("hello").0, text.0[..5].to_vec());
    }
}

#[test]
fn every_token_decodes_under_reported_shift() {
    let plain = b"xxxx within thine own deep sunken eyes xxxx";
    let input: Vec<u8> = plain.iter().map(|b| b + 3).collect();
    let phrases = [Phrase::from_strs(&["within", "sunken", "deep"])];
    let found = instances(&Finder::find_all(&phrases, 64, 32, &input));
    assert_eq!(1, found.len());
    let x = found[0];
    assert_eq!((3, 1), (x.codepoint_diff, x.bytes_per_character));
    let decoded = Text::from_slice(&input[x.file_pos..], x.codepoint_diff, x.bytes_per_character).to_string();
    assert!(decoded.starts_with("within"));
    assert!(decoded.contains("sunken") && decoded.contains("deep"));
}

#[test]
fn full_buffer_hits_never_repeat_a_position() {
    let input: Vec<u8> = b"ab ab ab ab ab ab ab ab ab ab ab ab ab ab ab ab".to_vec();
    let phrases = [Phrase::from_strs(&["ab"])];
    let found = instances(&Finder::find_all(&phrases, 8, 4, &input));
    let positions: Vec<usize> = found.iter().filter(|x| x.file_pos >= 8).map(|x| x.file_pos).collect();
    for w in positions.windows(2) {
        assert!(w[0] < w[1]);
    }
}

#[test]
fn fill_phase_can_report_a_position_twice() {
    let input: Vec<u8> = b"qqabqqqq".to_vec();
    let phrases = [Phrase::from_strs(&["ab"])];
    let found = instances(&Finder::find_all(&phrases, 8, 4, &input));
    assert_eq!(2, found[0].file_pos);
    assert_eq!(2, found[1].file_pos);
}

#[test]
fn zeroing_tail_keeps_reading_steps() {
    let input: Vec<u8> = b"zz famine where abundance lies here and more".to_vec();
    let tail = 40 - 30;
    let mut zeroed = input.clone();
    let n = zeroed.len();
    for b in &mut zeroed[n - tail..] {
        *b = 0;
    }
    let phrases = [Phrase::from_strs(&["famine", "where"])];
    let run = |bytes: &[u8]| {
        let mut finder = Finder::new(&phrases, 40, 20);
        let mut out = Vec::new();
        for b in bytes {
            out.push(finder.push_byte(*b));
        }
        out
    };
    let a = run(&input);
    let b = run(&zeroed);
    assert_eq!(a, b);
    assert!(a.iter().any(|g| g.is_some()));
}

#[test]
fn context_and_window_ranges() {
    let phrases = [Phrase::from_strs(&["zzzz"])];
    let mut finder = Finder::new(&phrases, 8, 4);
    for b in b"abcdefghij" {
        finder.push_byte(*b);
    }
    assert_eq!(2..10, finder.get_context_range());
    assert_eq!(4..8, finder.get_window_range());
    assert_eq!(Text::from_str("cdefghij"), finder.get_context(0, 1));
}
