use corpus_count::ngrams::NGrams;

fn collect(text: &str, min_n: usize, max_n: usize) -> Vec<String> {
    let mut grams = NGrams::new(text, min_n, max_n);
    let mut out = Vec::new();
    while let Some(gram) = grams.next() {
        out.push(gram.to_string());
    }
    out
}

fn expected_count(chars: usize, min_n: usize, max_n: usize) -> usize {
    let mut sum = 0;
    for i in 0..chars {
        let longest = std::cmp::min(max_n, chars - i);
        if longest >= min_n {
            sum += longest - min_n + 1;
        }
    }
    sum
}

#[test]
fn hello_two_to_three() {
    assert_eq!(
        collect("hello", 2, 3),
        vec!["hel", "he", "ell", "el", "llo", "ll", "lo"]
    );
}

#[test]
fn hello_two_to_three_has_seven_items() {
    assert_eq!(collect("hello", 2, 3).len(), 7);
}

#[test]
fn empty_string_has_no_ngrams() {
    assert_eq!(collect("", 1, 3), Vec::<String>::new());
    let mut grams = NGrams::new("", 1, 1);
    assert_eq!(grams.next(), None);
    assert_eq!(grams.next(), None);
}

#[test]
fn string_shorter_than_min_n_has_no_ngrams() {
    assert_eq!(collect("ab", 3, 6), Vec::<String>::new());
    assert_eq!(collect("a", 2, 2), Vec::<String>::new());
}

#[test]
fn string_of_exactly_min_n_has_one_ngram() {
    assert_eq!(collect("abc", 3, 6), vec!["abc"]);
}

#[test]
fn last_anchor_with_min_n_left_gives_one_ngram() {
    assert_eq!(collect("abcd", 3, 4), vec!["abcd", "abc", "bcd"]);
}

#[test]
fn fixed_width_is_a_sliding_window() {
    assert_eq!(collect("hello", 2, 2), vec!["he", "el", "ll", "lo"]);
    assert_eq!(collect("hello", 5, 5), vec!["hello"]);
    assert_eq!(collect("hello", 6, 6), Vec::<String>::new());
    for k in 1..8 {
        let text = "abcdefg";
        let windows = collect(text, k, k);
        assert_eq!(windows.len(), text.len() - k + 1);
        for (i, w) in windows.iter().enumerate() {
            assert_eq!(w, &text[i..i + k]);
        }
    }
}

#[test]
fn unigrams_are_the_characters() {
    assert_eq!(collect("abc", 1, 1), vec!["a", "b", "c"]);
}

#[test]
fn duplicates_are_emitted_again() {
    assert_eq!(collect("aaa", 1, 2), vec!["aa", "a", "aa", "a", "a"]);
}

#[test]
fn max_n_beyond_the_text_is_clipped() {
    assert_eq!(collect("ab", 1, 10), vec!["ab", "a", "b"]);
    assert_eq!(collect("ab", 1, usize::MAX), vec!["ab", "a", "b"]);
}

#[test]
fn count_is_the_sum_over_anchors() {
    let texts = ["", "a", "ab", "hello", "hello world", "tüdelü", "日本語のテキスト"];
    for text in texts.iter() {
        let chars = text.chars().count();
        for min_n in 1..5 {
            for max_n in min_n..7 {
                assert_eq!(
                    collect(text, min_n, max_n).len(),
                    expected_count(chars, min_n, max_n)
                );
            }
        }
    }
    assert_eq!(collect("hello world", 3, 6).len(), 30);
}

#[test]
fn multi_byte_characters_are_never_split() {
    // "€" takes three bytes, "ü" two, the emoji four.
    let text = "a€büc😀d";
    let chars: Vec<char> = text.chars().collect();
    let grams = collect(text, 1, 3);
    assert_eq!(grams.len(), expected_count(chars.len(), 1, 3));
    let mut k = 0;
    for start in 0..chars.len() {
        let longest = std::cmp::min(3, chars.len() - start);
        for len in (1..=longest).rev() {
            let expected: String = chars[start..start + len].iter().collect();
            assert_eq!(grams[k], expected);
            assert_eq!(grams[k].chars().count(), len);
            k += 1;
        }
    }
    assert_eq!(k, grams.len());
    assert_eq!(
        collect("€ü", 1, 2),
        vec!["€ü", "€", "ü"]
    );
}

#[test]
fn combining_characters_stay_whole_scalars() {
    // "e" followed by a combining acute accent: two characters, three bytes.
    let text = "e\u{301}x";
    assert_eq!(collect(text, 2, 2), vec!["e\u{301}", "\u{301}x"]);
}

#[test]
fn items_are_views_into_the_text() {
    let text = String::from("hello");
    let mut grams = NGrams::new(&text, 2, 3);
    let first = grams.next().unwrap();
    let range = text.as_bytes().as_ptr_range();
    assert!(range.start <= first.as_ptr() && first.as_ptr() < range.end);
}

#[test]
fn exhausted_generator_stays_exhausted() {
    let mut grams = NGrams::new("abc", 2, 3);
    assert_eq!(grams.next(), Some("abc"));
    assert_eq!(grams.next(), Some("ab"));
    assert_eq!(grams.next(), Some("bc"));
    for _ in 0..5 {
        assert_eq!(grams.next(), None);
    }
}

#[test]
fn size_hint_counts_lengths_per_character_left() {
    let mut grams = NGrams::new("hello", 2, 3);
    assert_eq!(grams.size_hint(), (10, Some(10)));
    grams.next();
    grams.next();
    assert_eq!(grams.size_hint(), (10, Some(10)));
    grams.next();
    assert_eq!(grams.size_hint(), (8, Some(8)));
    while grams.next().is_some() {}
    let (low, high) = grams.size_hint();
    assert_eq!(Some(low), high);
    assert!(low <= 2);
}

#[test]
fn a_new_generator_starts_over() {
    assert_eq!(collect("hello", 2, 3), collect("hello", 2, 3));
}

#[test]
fn generator_is_found_at_the_crate_root() {
    let mut grams = corpus_count::NGrams::new("ab", 2, 2);
    assert_eq!(grams.next(), Some("ab"));
    assert_eq!(
        corpus_count::counted_into_sorted(vec![("a".to_string(), 1)], None),
        vec![("a".to_string(), 1)]
    );
}
