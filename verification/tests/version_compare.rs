use std::cmp::Ordering;

use pkgver::compare::compare;
use pkgver::version::{SuffixKind, Version};

#[test]
fn parse_full_version() {
    let v = Version::parse("1.2.3b_beta4-r5").unwrap();
    assert_eq!(v.parts, vec!["1", "2", "3"]);
    assert_eq!(v.letter, Some('b'));
    let suf = v.suffix.unwrap();
    assert_eq!(suf.kind, SuffixKind::Beta);
    assert_eq!(suf.num, Some(String::from("4")));
    assert_eq!(v.revision, Some(String::from("5")));
}

#[test]
fn parse_minimal_version() {
    let v = Version::parse("7").unwrap();
    assert_eq!(v.parts, vec!["7"]);
    assert_eq!(v.letter, None);
    assert!(v.suffix.is_none());
    assert_eq!(v.revision, None);
}

#[test]
fn parse_suffix_without_number() {
    let v = Version::parse("1.0_pre").unwrap();
    let suf = v.suffix.unwrap();
    assert_eq!(suf.kind, SuffixKind::Pre);
    assert_eq!(suf.num, None);
}

#[test]
fn parse_p_suffix() {
    let v = Version::parse("1_p1").unwrap();
    let suf = v.suffix.unwrap();
    assert_eq!(suf.kind, SuffixKind::P);
    assert_eq!(suf.num, Some(String::from("1")));
}

#[test]
fn parse_keeps_leading_zeros() {
    let v = Version::parse("1.010").unwrap();
    assert_eq!(v.parts, vec!["1", "010"]);
}

#[test]
fn parse_rejects_nonconforming() {
    for bad in ["", ".", "1.", ".1", "1..2", "a", "1.0_foo", "1.0-r", "1.0-2", "1.0A", "1.0_alpha_beta", "1.0 ", "1.0b2"] {
        let e = Version::parse(bad).unwrap_err();
        assert_eq!(e.message, format!("invalid version: {}", bad));
    }
}

#[test]
fn compare_rejects_bad_operand() {
    let e = compare("1..2", "1.0").unwrap_err();
    assert_eq!(e.message, "invalid version: 1..2");
    let e = compare("1.0", "x").unwrap_err();
    assert_eq!(e.message, "invalid version: x");
}

#[test]
fn shorter_release_list_is_equal_when_shared_parts_match() {
    // the boundary choice: a missing trailing part does not order the two
    assert_eq!(compare("1.0.0", "1.0").unwrap(), Ordering::Equal);
    assert_eq!(compare("1.0", "1.0.0").unwrap(), Ordering::Equal);
}

#[test]
fn release_parts_compare_numerically() {
    assert_eq!(compare("1.2", "1.10").unwrap(), Ordering::Less);
    assert_eq!(compare("2.1", "1.9").unwrap(), Ordering::Greater);
    assert_eq!(compare("1.2.3", "1.2.3").unwrap(), Ordering::Equal);
}

#[test]
fn leading_zero_forces_string_comparison() {
    // trailing zeros dropped, then compared as strings
    assert_eq!(compare("1.010", "1.02").unwrap(), Ordering::Less);
    assert_eq!(compare("1.02", "1.2").unwrap(), Ordering::Less);
}

#[test]
fn letters_order_after_absence() {
    assert_eq!(compare("1.0a", "1.0b").unwrap(), Ordering::Less);
    assert_eq!(compare("1.0", "1.0a").unwrap(), Ordering::Less);
    assert_eq!(compare("1.0z", "1.0a").unwrap(), Ordering::Greater);
}

#[test]
fn staged_suffixes_order_by_kind() {
    assert!(compare("1.0_alpha", "1.0_beta").unwrap() == Ordering::Less);
    assert!(compare("1.0_beta", "1.0_pre").unwrap() == Ordering::Less);
    assert!(compare("1.0_pre", "1.0_rc").unwrap() == Ordering::Less);
    assert!(compare("1.0_rc", "1.0").unwrap() == Ordering::Less);
    assert!(compare("1.0", "1.0_p1").unwrap() == Ordering::Less);
    assert!(compare("1.0", "1.0_alpha").unwrap() == Ordering::Greater);
}

#[test]
fn suffix_numbers_order_numerically() {
    assert_eq!(compare("1.0_alpha1", "1.0_alpha2").unwrap(), Ordering::Less);
    assert_eq!(compare("1.0_alpha2", "1.0_alpha10").unwrap(), Ordering::Less);
    assert_eq!(compare("1.0_alpha", "1.0_alpha0").unwrap(), Ordering::Less);
}

#[test]
fn absent_revision_defaults_to_zero() {
    assert_eq!(compare("1.0-r0", "1.0").unwrap(), Ordering::Equal);
    assert_eq!(compare("1.0", "1.0-r0").unwrap(), Ordering::Equal);
}

#[test]
fn revisions_order_numerically() {
    assert_eq!(compare("1.0-r2", "1.0-r10").unwrap(), Ordering::Less);
    assert_eq!(compare("1.0-r1", "1.0").unwrap(), Ordering::Greater);
    assert_eq!(compare("1.0-r01", "1.0-r1").unwrap(), Ordering::Equal);
}

#[test]
fn criteria_apply_in_priority_order() {
    // a release-part difference beats any suffix or revision
    assert_eq!(compare("1.1_alpha", "1.0-r9").unwrap(), Ordering::Greater);
    // a letter difference beats suffix and revision
    assert_eq!(compare("1.0b_alpha", "1.0a-r9").unwrap(), Ordering::Greater);
}

#[test]
fn structured_compare_matches_string_compare() {
    let a = Version::parse("2.4_rc3").unwrap();
    let b = Version::parse("2.4_p1-r2").unwrap();
    assert_eq!(a.compare(&b), Ordering::Less);
    assert_eq!(b.compare(&a), Ordering::Greater);
    assert_eq!(a.compare(&a), Ordering::Equal);
}

#[test]
fn revision_string_defaults_to_zero() {
    assert_eq!(Version::parse("1-r2").unwrap().revision_str(), "2");
    assert_eq!(Version::parse("1").unwrap().revision_str(), "0");
}

#[test]
fn render_round_trips_parsed_versions() {
    for s in ["1", "1.2.3", "1.010", "1.0b", "4.4_p1", "1.0_alpha", "2.3_rc7", "1.2.3b_beta4-r5", "1.0-r0", "10.0.1_pre-r900"] {
        assert_eq!(Version::parse(s).unwrap().render(), s);
    }
}
