use pkgver::range::parse_range;
use pkgver::tokens::tokenize;

fn toks(s: &str) -> Vec<String> {
    tokenize(s)
}

#[test]
fn tokenize_empty_is_empty() {
    assert_eq!(toks(""), Vec::<String>::new());
}

#[test]
fn tokenize_simple_version() {
    assert_eq!(toks("1.2.3"), vec!["", "1", ".", "2", ".", "3"]);
}

#[test]
fn tokenize_leading_separator() {
    assert_eq!(toks(".1.2"), vec![".", "1", ".", "2"]);
}

#[test]
fn tokenize_trailing_separator() {
    assert_eq!(toks("1."), vec!["", "1", ".", ""]);
}

#[test]
fn tokenize_splits_digit_and_letter_runs() {
    assert_eq!(toks("1a2"), vec!["", "1", "", "a", "", "2"]);
}

#[test]
fn tokenize_mixed_separators() {
    assert_eq!(toks("1.2_alpha3-r4"), vec!["", "1", ".", "2", "_", "alpha", "", "3", "-", "r", "", "4"]);
}

#[test]
fn tokenize_never_fails_on_arbitrary_input() {
    // deliberately non-conforming inputs still split, with even length
    for s in ["...", "~~x~~", "a1b2c3", "-", "1..2", "\u{e9}clair"] {
        let t = toks(s);
        assert_eq!(t.len() % 2, 0);
        assert_eq!(t.concat(), s);
    }
}

#[test]
fn range_single_index() {
    assert_eq!(parse_range("2", 5).unwrap(), (2, 2));
}

#[test]
fn range_open_within_max() {
    assert_eq!(parse_range("2-", 5).unwrap(), (2, 5));
}

#[test]
fn range_open_past_max_collapses() {
    assert_eq!(parse_range("5-", 3).unwrap(), (5, 5));
}

#[test]
fn range_literal_pair() {
    // no clamping against the maximum
    assert_eq!(parse_range("2-7", 3).unwrap(), (2, 7));
}

#[test]
fn range_inverted_fails_for_any_max() {
    for max in [0, 1, 2, 3, 100, usize::MAX] {
        let e = parse_range("3-1", max).unwrap_err();
        assert_eq!(e.message, "invalid range: 3-1");
    }
}

#[test]
fn range_malformed_fails() {
    for bad in ["", "x", "-", "1x", "1-2x", "2--3", "-3", "1.2"] {
        let e = parse_range(bad, 10).unwrap_err();
        assert_eq!(e.message, format!("invalid range: {}", bad));
    }
}

#[test]
fn range_value_too_large_fails() {
    let e = parse_range("99999999999999999999999999", 3).unwrap_err();
    assert_eq!(e.message, "invalid range: 99999999999999999999999999");
}

#[test]
fn range_leading_zeros_accepted() {
    assert_eq!(parse_range("007", 3).unwrap(), (7, 7));
}
