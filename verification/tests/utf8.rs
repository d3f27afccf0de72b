use corpus_count::utf8::{byte_len, char_offsets, slice, substring};

#[test]
fn offsets_of_ascii_text_count_up() {
    assert_eq!(char_offsets("hello"), vec![0, 1, 2, 3, 4]);
    assert_eq!(char_offsets(""), Vec::<usize>::new());
}

#[test]
fn offsets_skip_over_multi_byte_characters() {
    // one, three, two and four bytes
    assert_eq!(char_offsets("a€ü😀b"), vec![0, 1, 4, 6, 10]);
    let text = "tüdelü 日本語";
    let expected: Vec<usize> = text.char_indices().map(|(i, _)| i).collect();
    assert_eq!(char_offsets(text), expected);
}

#[test]
fn byte_len_is_the_length_of_the_encoding() {
    assert_eq!(byte_len(""), 0);
    assert_eq!(byte_len("abc"), 3);
    assert_eq!(byte_len("a€ü😀b"), 11);
}

#[test]
fn slice_cuts_between_byte_offsets() {
    let text = "a€ü😀b";
    assert_eq!(slice(text, 0, 11), text);
    assert_eq!(slice(text, 1, 4), "€");
    assert_eq!(slice(text, 4, 10), "ü😀");
    assert_eq!(slice(text, 6, 6), "");
    assert_eq!(slice(text, 11, 11), "");
}

#[test]
fn substring_cuts_between_character_positions() {
    let text = "a€ü😀b";
    let offsets = char_offsets(text);
    assert_eq!(substring(text, &offsets, 0, 5), text);
    assert_eq!(substring(text, &offsets, 1, 2), "€");
    assert_eq!(substring(text, &offsets, 2, 4), "ü😀");
    assert_eq!(substring(text, &offsets, 4, 5), "b");
    assert_eq!(substring(text, &offsets, 5, 5), "");
    assert_eq!(substring(text, &offsets, 0, 0), "");
    let chars: Vec<char> = text.chars().collect();
    for from in 0..=chars.len() {
        for to in from..=chars.len() {
            let expected: String = chars[from..to].iter().collect();
            assert_eq!(substring(text, &offsets, from, to), expected);
        }
    }
}
