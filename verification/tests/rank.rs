use corpus_count::rank::{counted_into_sorted, precedes, text_precedes};

fn tallies(items: &[(&str, usize)]) -> Vec<(String, usize)> {
    items.iter().map(|(s, n)| (s.to_string(), *n)).collect()
}

#[test]
fn sorts_by_descending_count_then_ascending_string() {
    let items = tallies(&[("b", 1), ("c", 3), ("a", 1), ("d", 2), ("aa", 1)]);
    assert_eq!(
        counted_into_sorted(items, None),
        tallies(&[("c", 3), ("d", 2), ("a", 1), ("aa", 1), ("b", 1)])
    );
}

#[test]
fn filter_drops_counts_below_the_minimum() {
    let items = tallies(&[("b", 1), ("c", 3), ("a", 1), ("d", 2)]);
    assert_eq!(
        counted_into_sorted(items.clone(), Some(2)),
        tallies(&[("c", 3), ("d", 2)])
    );
    assert_eq!(counted_into_sorted(items.clone(), Some(3)), tallies(&[("c", 3)]));
    assert_eq!(counted_into_sorted(items.clone(), Some(4)), tallies(&[]));
    assert_eq!(
        counted_into_sorted(items.clone(), Some(0)),
        counted_into_sorted(items, None)
    );
}

#[test]
fn filter_keeps_counts_equal_to_the_minimum() {
    let items = tallies(&[("x", 5), ("y", 4), ("z", 5)]);
    assert_eq!(
        counted_into_sorted(items, Some(5)),
        tallies(&[("x", 5), ("z", 5)])
    );
}

#[test]
fn filtering_commutes_with_ranking() {
    let items = tallies(&[
        ("the", 10),
        ("a", 7),
        ("of", 7),
        ("zebra", 1),
        ("apple", 1),
        ("b", 2),
        ("c", 2),
        ("å", 2),
    ]);
    for m in 0..12 {
        let filtered_first = counted_into_sorted(items.clone(), Some(m));
        let ranked_first: Vec<(String, usize)> = counted_into_sorted(items.clone(), None)
            .into_iter()
            .filter(|(_, n)| *n >= m)
            .collect();
        assert_eq!(filtered_first, ranked_first);
    }
}

#[test]
fn ranking_does_not_depend_on_the_order_handed_over() {
    let a = tallies(&[("x", 2), ("y", 2), ("w", 9), ("z", 1), ("v", 2)]);
    let mut b = a.clone();
    b.reverse();
    let mut c = a.clone();
    c.rotate_left(2);
    let ranked = counted_into_sorted(a, None);
    assert_eq!(ranked, counted_into_sorted(b, None));
    assert_eq!(ranked, counted_into_sorted(c, None));
    assert_eq!(ranked, tallies(&[("w", 9), ("v", 2), ("x", 2), ("y", 2), ("z", 1)]));
}

#[test]
fn empty_and_single_lists() {
    assert_eq!(counted_into_sorted(Vec::new(), None), tallies(&[]));
    assert_eq!(counted_into_sorted(Vec::new(), Some(1)), tallies(&[]));
    assert_eq!(counted_into_sorted(tallies(&[("a", 1)]), None), tallies(&[("a", 1)]));
}

#[test]
fn long_lists_are_sorted() {
    let mut items = Vec::new();
    let mut seed: usize = 12345;
    for i in 0..1000 {
        seed = (seed * 1103515245 + 12345) % 2147483648;
        items.push((format!("w{}", i), seed % 17));
    }
    let mut expected = items.clone();
    expected.sort_by(|(t1, c1), (t2, c2)| c2.cmp(c1).then(t1.cmp(t2)));
    assert_eq!(counted_into_sorted(items, None), expected);
}

#[test]
fn strings_compare_by_scalar_value() {
    assert!(text_precedes("", ""));
    assert!(text_precedes("", "a"));
    assert!(!text_precedes("a", ""));
    assert!(text_precedes("a", "a"));
    assert!(text_precedes("a", "ab"));
    assert!(!text_precedes("ab", "a"));
    assert!(text_precedes("ab", "b"));
    assert!(text_precedes("Z", "a"));
    assert!(text_precedes("z", "ä"));
    assert!(text_precedes("ä", "€"));
    assert!(text_precedes("\u{ffff}", "\u{10000}"));
    assert!(!text_precedes("\u{10000}", "\u{ffff}"));
    let texts = ["", "a", "ab", "b", "ä", "€", "😀", "\u{e000}", "\u{d7ff}", "zz"];
    for a in texts.iter() {
        for b in texts.iter() {
            assert_eq!(text_precedes(a, b), a <= b);
        }
    }
}

#[test]
fn greater_count_precedes() {
    let a = ("b".to_string(), 2);
    let b = ("a".to_string(), 1);
    assert!(precedes(&a, &b));
    assert!(!precedes(&b, &a));
    let c = ("a".to_string(), 2);
    assert!(precedes(&c, &a));
    assert!(!precedes(&a, &c));
    assert!(precedes(&a, &a));
}

#[test]
fn multi_byte_strings_rank_by_scalar_value() {
    let items = tallies(&[("é", 1), ("z", 1), ("e", 1), ("日", 1), ("~", 1)]);
    assert_eq!(
        counted_into_sorted(items, None),
        tallies(&[("e", 1), ("z", 1), ("~", 1), ("é", 1), ("日", 1)])
    );
}
