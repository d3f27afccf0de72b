use corpus_count::record::{decimal_text, record_line};

#[test]
fn numbers_in_decimal_digits() {
    assert_eq!(decimal_text(0), "0");
    assert_eq!(decimal_text(7), "7");
    assert_eq!(decimal_text(10), "10");
    assert_eq!(decimal_text(109), "109");
    assert_eq!(decimal_text(1234567890), "1234567890");
    assert_eq!(decimal_text(usize::MAX), usize::MAX.to_string());
    for n in 0..1200 {
        assert_eq!(decimal_text(n), n.to_string());
    }
}

#[test]
fn record_is_string_tab_count_newline() {
    assert_eq!(record_line("a", 2), "a\t2\n");
    assert_eq!(record_line("<ab>", 17), "<ab>\t17\n");
    assert_eq!(record_line("日本", 100), "日本\t100\n");
    assert_eq!(record_line("", 0), "\t0\n");
}
