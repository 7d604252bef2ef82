use pkgver::commands::{has, ver_cut, ver_rs, ver_test};

fn args(xs: &[&str]) -> Vec<String> {
    xs.iter().map(|s| String::from(*s)).collect()
}

#[test]
fn ver_cut_explicit_version() {
    assert_eq!(ver_cut(&args(&["2-3"]), "1.2.3.4").unwrap(), "2.3");
}

#[test]
fn ver_cut_two_args() {
    assert_eq!(ver_cut(&args(&["1-2", "1.2.3"]), "unused").unwrap(), "1.2");
}

#[test]
fn ver_cut_whole_range_returns_input_unchanged() {
    for s in ["1.2.3", ".1.2.3~", "a1b2", ""] {
        assert_eq!(ver_cut(&args(&["0-", s]), "").unwrap(), s);
    }
}

#[test]
fn ver_cut_start_zero_keeps_leading_separator() {
    assert_eq!(ver_cut(&args(&["0-1", ".1.2"]), "").unwrap(), ".1");
}

#[test]
fn ver_cut_out_of_bounds_yields_empty() {
    assert_eq!(ver_cut(&args(&["7-9", "1.2.3"]), "").unwrap(), "");
}

#[test]
fn ver_cut_bad_count() {
    let e = ver_cut(&args(&["1", "2", "3"]), "").unwrap_err();
    assert_eq!(e.message, "requires 1 or 2 args, got 3");
    let e = ver_cut(&args(&[]), "").unwrap_err();
    assert_eq!(e.message, "requires 1 or 2 args, got 0");
}

#[test]
fn ver_cut_bad_range() {
    let e = ver_cut(&args(&["x", "1.2.3"]), "").unwrap_err();
    assert_eq!(e.message, "invalid range: x");
}

#[test]
fn ver_rs_explicit_version() {
    assert_eq!(ver_rs(&args(&["2-3", "_", "1.2.3.4"]), "unused").unwrap(), "1.2_3_4");
}

#[test]
fn ver_rs_fallback_version() {
    assert_eq!(ver_rs(&args(&["1-1", "_"]), "1.2.3").unwrap(), "1_2.3");
}

#[test]
fn ver_rs_later_pairs_win() {
    assert_eq!(ver_rs(&args(&["1-2", "-", "2-2", "_", "1.2.3"]), "").unwrap(), "1-2_3");
}

#[test]
fn ver_rs_range_zero_reaches_leading_separator() {
    assert_eq!(ver_rs(&args(&["0-", "#"]), ".1.2").unwrap(), "#1#2");
}

#[test]
fn ver_rs_out_of_bounds_indices_ignored() {
    assert_eq!(ver_rs(&args(&["3-5", "_", "1.2.3.4"]), "").unwrap(), "1.2.3_4");
}

#[test]
fn ver_rs_bad_count() {
    let e = ver_rs(&args(&["1-2"]), "").unwrap_err();
    assert_eq!(e.message, "requires 2 or more args, got 1");
}

#[test]
fn ver_rs_bad_range_aborts() {
    let e = ver_rs(&args(&["2-1", "_", "1.2.3"]), "").unwrap_err();
    assert_eq!(e.message, "invalid range: 2-1");
}

#[test]
fn ver_test_with_fallback() {
    assert_eq!(ver_test(&args(&["-lt", "1.2"]), "1.1").unwrap(), true);
    assert_eq!(ver_test(&args(&["-gt", "1.2"]), "1.1").unwrap(), false);
}

#[test]
fn ver_test_explicit_operands() {
    assert_eq!(ver_test(&args(&["1.0-r0", "-eq", "1.0"]), "").unwrap(), true);
    assert_eq!(ver_test(&args(&["1.0", "-ne", "1.0.0"]), "").unwrap(), false);
    assert_eq!(ver_test(&args(&["2.0", "-ge", "2.0"]), "").unwrap(), true);
    assert_eq!(ver_test(&args(&["2.0", "-le", "1.9"]), "").unwrap(), false);
}

#[test]
fn ver_test_bad_count() {
    let e = ver_test(&args(&["1", "2", "3", "4"]), "").unwrap_err();
    assert_eq!(e.message, "only accepts 2 or 3 args, got 4");
    let e = ver_test(&args(&["-eq"]), "1.0").unwrap_err();
    assert_eq!(e.message, "only accepts 2 or 3 args, got 1");
}

#[test]
fn ver_test_missing_fallback() {
    let e = ver_test(&args(&["-lt", "1.2"]), "").unwrap_err();
    assert_eq!(e.message, "$PVR is undefined");
}

#[test]
fn ver_test_bad_operator() {
    let e = ver_test(&args(&["1.0", "-foo", "2.0"]), "").unwrap_err();
    assert_eq!(e.message, "invalid operator: -foo");
}

#[test]
fn ver_test_bad_versions_reported_in_order() {
    let e = ver_test(&args(&["1..2", "-zz", "3..4"]), "").unwrap_err();
    assert_eq!(e.message, "invalid version: 1..2");
    let e = ver_test(&args(&["1.2", "-zz", "3..4"]), "").unwrap_err();
    assert_eq!(e.message, "invalid version: 3..4");
}

#[test]
fn has_finds_needle() {
    assert_eq!(has(&args(&["b", "a", "b", "c"])).unwrap(), true);
    assert_eq!(has(&args(&["z", "a", "b", "c"])).unwrap(), false);
    assert_eq!(has(&args(&["z"])).unwrap(), false);
}

#[test]
fn has_requires_an_argument() {
    let e = has(&args(&[])).unwrap_err();
    assert_eq!(e.message, "requires 1 or more args");
}
