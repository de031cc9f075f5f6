use dedup_lines::order::line_less;

#[test]
fn less_orders_by_first_difference() {
    assert!(line_less("apple", "banana"));
    assert!(!line_less("banana", "apple"));
    assert!(line_less("abc", "abd"));
    assert!(!line_less("abd", "abc"));
}

#[test]
fn less_is_false_for_equal_lines() {
    assert!(!line_less("", ""));
    assert!(!line_less("x", "x"));
    assert!(!line_less("same line", "same line"));
}

#[test]
fn less_puts_a_prefix_first() {
    assert!(line_less("", "a"));
    assert!(!line_less("a", ""));
    assert!(line_less("app", "apple"));
    assert!(!line_less("apple", "app"));
}

#[test]
fn less_is_case_and_digit_sensitive() {
    assert!(line_less("Zebra", "apple"));
    assert!(line_less("10", "9"));
    assert!(line_less("a\tb", "a b"));
}

#[test]
fn less_orders_by_scalar_value_beyond_ascii() {
    assert!(line_less("z", "\u{e9}"));
    assert!(line_less("\u{e9}", "\u{4e2d}"));
    assert!(line_less("\u{ffff}", "\u{10000}"));
    assert!(!line_less("\u{10000}", "\u{ffff}"));
    assert!(line_less("a\u{e9}", "a\u{ea}"));
}

#[test]
fn less_agrees_with_the_order_of_str() {
    let samples = [
        "", "a", "A", "aa", "ab", "b", "banana", "apple", "cherry", " ", "~", "\u{7f}", "\u{80}",
        "\u{7ff}", "\u{800}", "\u{d7ff}", "\u{e000}", "\u{ffff}", "\u{10000}", "\u{10ffff}",
        "a\u{10000}", "a\u{ffff}", "\u{e9}t\u{e9}", "ete", "0", "00", "1",
    ];
    for a in samples.iter() {
        for b in samples.iter() {
            assert_eq!(line_less(a, b), a < b, "{:?} against {:?}", a, b);
        }
    }
}
