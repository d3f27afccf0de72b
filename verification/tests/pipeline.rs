use corpus_count::counter::Counter;
use corpus_count::error::Error;
use corpus_count::pipeline::{
    count_ngrams, count_words, expand, mark, ranked_lists, Config, Lists, Settings,
};
use corpus_count::record::record_line;

fn settings(min_n: usize, max_n: usize) -> Settings {
    Settings {
        token_min: 1,
        ngram_min: 1,
        min_n,
        max_n,
        filter_first: false,
        bracket: true,
    }
}

fn count(corpus: &[&str]) -> Counter {
    let mut counter = Counter::new();
    for line in corpus.iter() {
        counter = count_words(counter, line).unwrap();
    }
    counter
}

fn config(settings: Settings) -> Config {
    Config::new(settings).ok().unwrap()
}

fn run(corpus: &[&str], settings: &Settings, with_ngrams: bool) -> Lists {
    ranked_lists(count(corpus), &config(*settings), with_ngrams).unwrap()
}

fn sink(list: &[(String, usize)]) -> String {
    let mut out = String::new();
    for (text, n) in list.iter() {
        out.push_str(&record_line(text, *n));
    }
    out
}

fn tallies(items: &[(&str, usize)]) -> Vec<(String, usize)> {
    items.iter().map(|(s, n)| (s.to_string(), *n)).collect()
}

#[test]
fn token_counts_of_a_small_corpus() {
    let lists = run(&["a a b"], &settings(3, 6), false);
    assert_eq!(lists.tokens, tallies(&[("a", 2), ("b", 1)]));
    assert_eq!(lists.ngrams, None);
    assert_eq!(sink(&lists.tokens), "a\t2\nb\t1\n");
}

#[test]
fn ngram_counts_of_one_bracketed_token() {
    let lists = run(&["ab"], &settings(1, 2), true);
    assert_eq!(sink(&lists.tokens), "ab\t1\n");
    assert_eq!(
        lists.ngrams,
        Some(tallies(&[
            ("<", 1),
            ("<a", 1),
            (">", 1),
            ("a", 1),
            ("ab", 1),
            ("b", 1),
            ("b>", 1)
        ]))
    );
}

#[test]
fn ngrams_are_weighted_by_the_token_count() {
    let mut cfg = settings(2, 2);
    cfg.bracket = false;
    let lists = run(&["ab ab abc", "bc ab"], &cfg, true);
    assert_eq!(lists.tokens, tallies(&[("ab", 3), ("abc", 1), ("bc", 1)]));
    // "ab" comes from "ab" three times and from "abc" once; "bc" from "abc"
    // and from "bc".
    assert_eq!(lists.ngrams, Some(tallies(&[("ab", 4), ("bc", 2)])));
}

#[test]
fn repeated_ngrams_in_one_token_count_each_time() {
    let mut cfg = settings(1, 1);
    cfg.bracket = false;
    let lists = run(&["aaa aaa"], &cfg, true);
    assert_eq!(lists.ngrams, Some(tallies(&[("a", 6)])));
}

#[test]
fn without_ngrams_the_token_minimum_always_applies() {
    let mut cfg = settings(3, 6);
    cfg.token_min = 2;
    let corpus = ["a a b c c c"];
    assert_eq!(run(&corpus, &cfg, false).tokens, tallies(&[("c", 3), ("a", 2)]));
    cfg.filter_first = true;
    assert_eq!(run(&corpus, &cfg, false).tokens, tallies(&[("c", 3), ("a", 2)]));
}

#[test]
fn with_ngrams_the_token_minimum_applies_only_when_filtering_first() {
    let mut cfg = settings(1, 1);
    cfg.bracket = false;
    cfg.token_min = 2;
    let corpus = ["a a b"];
    let unfiltered = run(&corpus, &cfg, true);
    assert_eq!(unfiltered.tokens, tallies(&[("a", 2), ("b", 1)]));
    assert_eq!(unfiltered.ngrams, Some(tallies(&[("a", 2), ("b", 1)])));
    cfg.filter_first = true;
    let filtered = run(&corpus, &cfg, true);
    assert_eq!(filtered.tokens, tallies(&[("a", 2)]));
    assert_eq!(filtered.ngrams, Some(tallies(&[("a", 2)])));
}

#[test]
fn the_ngram_minimum_always_applies() {
    let mut cfg = settings(1, 1);
    cfg.bracket = false;
    cfg.ngram_min = 2;
    let lists = run(&["ab b"], &cfg, true);
    assert_eq!(lists.ngrams, Some(tallies(&[("b", 2)])));
}

#[test]
fn tokens_shorter_than_min_n_give_no_ngrams() {
    let mut cfg = settings(3, 6);
    cfg.bracket = false;
    let lists = run(&["ab cd"], &cfg, true);
    assert_eq!(lists.ngrams, Some(tallies(&[])));
    cfg.bracket = true;
    let lists = run(&["a"], &cfg, true);
    assert_eq!(lists.ngrams, Some(tallies(&[("<a>", 1)])));
}

#[test]
fn an_empty_corpus_gives_empty_lists() {
    let lists = run(&[], &settings(3, 6), true);
    assert_eq!(lists.tokens, tallies(&[]));
    assert_eq!(lists.ngrams, Some(tallies(&[])));
    let lists = run(&["", "  "], &settings(3, 6), false);
    assert_eq!(lists.tokens, tallies(&[]));
}

#[test]
fn a_second_run_gives_the_same_output() {
    let corpus = [
        "the quick brown fox jumps over the lazy dog",
        "the dog barks  the fox runs",
        "über straße naïve",
    ];
    let cfg = settings(3, 6);
    let first = run(&corpus, &cfg, true);
    let second = run(&corpus, &cfg, true);
    assert_eq!(sink(&first.tokens), sink(&second.tokens));
    assert_eq!(
        sink(&first.ngrams.unwrap()),
        sink(&second.ngrams.unwrap())
    );
}

#[test]
fn the_order_of_lines_does_not_change_the_output() {
    let cfg = settings(2, 3);
    let a = run(&["b a", "c a b", "d"], &cfg, true);
    let b = run(&["d", "c a b", "b a"], &cfg, true);
    assert_eq!(a.tokens, b.tokens);
    assert_eq!(a.ngrams, b.ngrams);
}

#[test]
fn brackets_mark_the_token() {
    assert_eq!(mark("ab", true), "<ab>");
    assert_eq!(mark("ab", false), "ab");
    assert_eq!(mark("", true), "<>");
    assert_eq!(mark("日本", true), "<日本>");
}

#[test]
fn count_words_credits_one_per_token() {
    let counter = count(&["a b a", "a"]);
    assert_eq!(counter.get("a"), Some(3));
    assert_eq!(counter.get("b"), Some(1));
    assert_eq!(counter.get("c"), None);
}

#[test]
fn count_words_fails_on_overflow() {
    let mut counter = Counter::new();
    counter.add("a", usize::MAX).unwrap();
    assert_eq!(count_words(counter, "b a").err(), Some(Error::CountOverflow));
}

#[test]
fn count_ngrams_credits_the_token_count() {
    let cfg = settings(1, 2);
    let counter = count_ngrams(Counter::new(), &("ab".to_string(), 3), &config(cfg)).unwrap();
    assert_eq!(counter.get("<a"), Some(3));
    assert_eq!(counter.get("<"), Some(3));
    assert_eq!(counter.get("ab"), Some(3));
    assert_eq!(counter.get("b>"), Some(3));
    assert_eq!(counter.get(">"), Some(3));
    assert_eq!(counter.get("<ab"), None);
}

#[test]
fn expand_fails_on_overflow() {
    let mut cfg = settings(1, 1);
    cfg.bracket = false;
    let tokens = tallies(&[("ab", usize::MAX), ("b", 1)]);
    assert_eq!(expand(&tokens, &config(cfg)).err(), Some(Error::CountOverflow));
    let tokens = tallies(&[("ab", usize::MAX), ("c", 1)]);
    let counter = expand(&tokens, &config(cfg)).unwrap();
    assert_eq!(counter.get("a"), Some(usize::MAX));
    assert_eq!(counter.get("c"), Some(1));
}

#[test]
fn ranked_lists_fail_on_overflow_of_ngram_counts() {
    let mut cfg = settings(1, 1);
    cfg.bracket = false;
    let mut counter = Counter::new();
    counter.add("aa", usize::MAX).unwrap();
    assert_eq!(ranked_lists(counter, &config(cfg), true).err(), Some(Error::CountOverflow));
    let mut counter = Counter::new();
    counter.add("aa", usize::MAX).unwrap();
    assert_eq!(
        ranked_lists(counter, &config(cfg), false).unwrap().tokens,
        tallies(&[("aa", usize::MAX)])
    );
}

#[test]
fn a_range_of_lengths_is_accepted() {
    assert_eq!(Config::new(settings(1, 1)).ok().unwrap().settings(), settings(1, 1));
    let mut wanted = settings(3, 6);
    wanted.token_min = 5;
    wanted.ngram_min = 7;
    wanted.filter_first = true;
    wanted.bracket = false;
    assert_eq!(Config::new(wanted).ok().unwrap().settings(), wanted);
    assert!(Config::new(settings(1, usize::MAX)).is_ok());
}

#[test]
fn a_minimum_of_zero_is_refused() {
    assert_eq!(Config::new(settings(0, 6)).err(), Some(Error::ZeroLength));
    assert_eq!(Config::new(settings(0, 0)).err(), Some(Error::ZeroLength));
}

#[test]
fn a_maximum_below_the_minimum_is_refused() {
    assert_eq!(Config::new(settings(4, 3)).err(), Some(Error::EmptyRange));
    assert_eq!(Config::new(settings(usize::MAX, 1)).err(), Some(Error::EmptyRange));
}
