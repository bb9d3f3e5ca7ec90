use text_searcher::{Finder, Phrase, PhraseInstance, PhraseInstanceGroup, Text};

/// Shakespeare, sonnet 1.
const TEST_TEXT_1: &str = "From fairest creatures we desire increase,\n\
\x20 That thereby beauty's rose might never die,\n\
\x20 But as the riper should by time decease,\n\
\x20 His tender heir might bear his memory:\n\
\x20 But thou contracted to thine own bright eyes,\n\
\x20 Feed'st thy light's flame with self-substantial fuel,\n\
\x20 Making a famine where abundance lies,\n\
\x20 Thy self thy foe, to thy sweet self too cruel:\n\
\x20 Thou that art now the world's fresh ornament,\n\
\x20 And only herald to the gaudy spring,\n\
\x20 Within thine own bud buriest thy content,\n\
\x20 And tender churl mak'st waste in niggarding:\n\
\x20 Pity the world, or else this glutton be,\n\
\x20 To eat the world's due, by the grave and thee.";

/// Shakespeare, sonnet 2.
const TEST_TEXT_2: &str = "\n\
\x20 When forty winters shall besiege thy brow,\n\
\x20 And dig deep trenches in thy beauty's field,\n\
\x20 Thy youth's proud livery so gazed on now,\n\
\x20 Will be a tatter'd weed of small worth held:\n\
\x20 Then being asked, where all thy beauty lies,\n\
\x20 Where all the treasure of thy lusty days;\n\
\x20 To say, within thine own deep sunken eyes,\n\
\x20 Were an all-eating shame, and thriftless praise.\n\
\x20 How much more praise deserv'd thy beauty's use,\n\
\x20 If thou couldst answer 'This fair child of mine\n\
\x20 Shall sum my count, and make my old excuse,'\n\
\x20 Proving his beauty by succession thine!\n\
\x20 This were to be new made when thou art old,\n\
\x20 And see thy blood warm when thou feel'st it cold.";

/// Pushes bytes of `input` from `*at` on until a step reports a group; once the input is
/// spent, flushes.
fn next_group(finder: &mut Finder, input: &[u8], at: &mut usize) -> Option<PhraseInstanceGroup> {
    while *at < input.len() {
        let b = input[*at];
        *at += 1;
        if let Some(g) = finder.push_byte(b) {
            return Some(g);
        }
    }
    finder.flush()
}

fn all_instances(phrases: &[Phrase], context_size: usize, window_size: usize, input: &[u8]) -> Vec<PhraseInstance> {
    let groups: Vec<PhraseInstanceGroup> = Finder::find_all(phrases, context_size, window_size, input);
    groups.iter().flat_map(|group| group.0.iter()).map(|instance| instance.clone()).collect()
}

#[test]
fn test_finder_1() {
    let input: &[u8] = TEST_TEXT_1.as_bytes();
    let phrase = Phrase::from_strs(&["famine", "where"]);
    let phrases = &[phrase];
    let expected = vec![PhraseInstance { phrase_index: 0, codepoint_diff: 0, file_pos: 288, bytes_per_character: 1 }];
    let actual = all_instances(phrases, 40, 20, input);
    assert_eq!(expected, actual);
}

#[test]
fn test_finder_2() {
    let input: &[u8] = TEST_TEXT_2.as_bytes();
    let phrase = Phrase::from_strs(&["within", "sunken", "deep"]);
    let phrases = &[phrase];
    let expected = vec![PhraseInstance { phrase_index: 0, codepoint_diff: 0, file_pos: 285, bytes_per_character: 1 }];
    let actual = all_instances(phrases, 64, 32, input);
    assert_eq!(expected, actual);
}

#[test]
fn test_finder_edgecase() {
    let input: &[u8] = "Four letter word".as_bytes();
    let phrase = Phrase::from_strs(&["word"]);
    let phrases = &[phrase];
    let expected = vec![PhraseInstance { phrase_index: 0, codepoint_diff: 0, file_pos: 12, bytes_per_character: 1 }];
    let actual = all_instances(phrases, 8, 4, input);
    assert_eq!(expected, actual);
}

#[test]
fn test_finder_multiphrase() {
    let input: &[u8] = TEST_TEXT_2.as_bytes();
    let phrase1 = Phrase::from_strs(&["within", "sunken", "deep"]);
    let phrase2 = Phrase::from_strs(&["sum", "my", "count"]);
    let phrases = &[phrase1, phrase2];
    let expected = vec![
        PhraseInstance { phrase_index: 0, codepoint_diff: 0, file_pos: 285, bytes_per_character: 1 },
        PhraseInstance { phrase_index: 1, file_pos: 479, codepoint_diff: 0, bytes_per_character: 1 },
    ];
    let actual = all_instances(phrases, 64, 32, input);
    assert_eq!(expected, actual);
}

#[test]
fn test_finder_context() {
    let input: &[u8] = TEST_TEXT_1.as_bytes();
    let phrase = Phrase::from_strs(&["famine", "where"]);
    let phrases = &[phrase];
    let mut finder = Finder::new(phrases, 40, 20);
    let mut at = 0;
    next_group(&mut finder, input, &mut at).unwrap();
    let context = finder.get_context(0, 1);
    assert_eq!(Text::from_str(" fuel,\n  Making a famine where abundance"), context);
}

#[test]
fn test_finder_u16_le() {
    let input: &[u8] = TEST_TEXT_2.as_bytes();
    let input_le: Vec<u8> = input.iter().flat_map(|b| [*b, 0]).collect();
    let phrase = Phrase::from_strs(&["within", "sunken", "deep"]);
    let phrases = &[phrase];
    let expected = vec![PhraseInstance { phrase_index: 0, codepoint_diff: 0, file_pos: 570, bytes_per_character: 2 }];
    let actual = all_instances(phrases, 128, 64, &input_le);
    assert_eq!(expected, actual);
}

#[test]
fn test_finder_u16_be() {
    let input: &[u8] = TEST_TEXT_2.as_bytes();
    let input_be: Vec<u8> = input.iter().flat_map(|b| [0, *b]).collect();
    let phrase = Phrase::from_strs(&["within", "sunken", "deep"]);
    let phrases = &[phrase];
    let expected = vec![PhraseInstance { phrase_index: 0, codepoint_diff: 0, file_pos: 571, bytes_per_character: 2 }];
    let actual = all_instances(phrases, 128, 64, &input_be);
    assert_eq!(expected, actual);
}

#[test]
fn test_finder_offset13() {
    let input: &[u8] = TEST_TEXT_2.as_bytes();
    let rotated_input: Vec<u8> = input.iter().map(|b| b + 13).collect();
    let phrase = Phrase::from_strs(&["within", "sunken", "deep"]);
    let phrases = &[phrase];
    let expected = vec![PhraseInstance { phrase_index: 0, codepoint_diff: 13, file_pos: 285, bytes_per_character: 1 }];
    let actual = all_instances(phrases, 64, 32, &rotated_input);
    assert_eq!(expected, actual);
}

#[test]
fn test_edgecase() {
    let input: &[u8] = "fuel,   Making a famine w".as_bytes();
    let phrase = Phrase::from_strs(&["Making", "a"]);
    let phrases = &[phrase];
    let mut finder = Finder::new(phrases, 64, 32);
    let mut at = 0;
    let found = next_group(&mut finder, input, &mut at);
    let expected = Some(PhraseInstanceGroup(vec![PhraseInstance {
        phrase_index: 0,
        file_pos: 8,
        codepoint_diff: 0,
        bytes_per_character: 1,
    }]));
    assert_eq!(expected, found);
}
