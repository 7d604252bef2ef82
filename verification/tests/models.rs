use std::cmp::Ordering;

use pkgver::atom::Atom;
use pkgver::eapi::Eapi;
use pkgver::error::{update_last_error, Error};
use pkgver::repo::{Repo, RepoFormat};
use pkgver::version::Version;

fn atom(cat: &str, pkg: &str, ver: Option<&str>) -> Atom {
    Atom {
        category: String::from(cat),
        package: String::from(pkg),
        version: ver.map(|v| Version::parse(v).unwrap()),
    }
}

#[test]
fn atom_key_joins_category_and_package() {
    let a = atom("dev-lang", "rust", None);
    assert_eq!(a.key(), "dev-lang/rust");
}

#[test]
fn atoms_order_by_category_package_then_version() {
    let a = atom("app-misc", "tool", Some("1.0"));
    let b = atom("dev-lang", "tool", Some("1.0"));
    assert_eq!(a.compare(&b), Ordering::Less);

    let c = atom("dev-lang", "apple", Some("2.0"));
    let d = atom("dev-lang", "pear", Some("1.0"));
    assert_eq!(c.compare(&d), Ordering::Less);

    let e = atom("dev-lang", "tool", Some("1.2"));
    let f = atom("dev-lang", "tool", Some("1.10"));
    assert_eq!(e.compare(&f), Ordering::Less);
    assert_eq!(f.compare(&e), Ordering::Greater);
}

#[test]
fn unversioned_atom_sorts_first() {
    let a = atom("dev-lang", "tool", None);
    let b = atom("dev-lang", "tool", Some("0.1"));
    assert_eq!(a.compare(&b), Ordering::Less);
    assert_eq!(a.compare(&a), Ordering::Equal);
}

#[test]
fn eapi_feature_membership() {
    let eapi = Eapi {
        id: String::from("8"),
        features: vec![String::from("slot_deps"), String::from("use_deps")],
    };
    assert_eq!(eapi.as_str(), "8");
    assert!(eapi.has("use_deps"));
    assert!(!eapi.has("repo_ids"));
}

#[test]
fn repos_order_by_id() {
    let a = Repo { id: String::from("gentoo"), format: RepoFormat::Ebuild };
    let b = Repo { id: String::from("overlay"), format: RepoFormat::Fake };
    assert_eq!(a.compare(&b), Ordering::Less);
    assert_eq!(b.compare(&a), Ordering::Greater);
    assert_eq!(a.compare(&a), Ordering::Equal);
    assert_eq!(a.format, RepoFormat::Ebuild);
}

#[test]
fn error_carries_its_message() {
    let e = Error::new("something went wrong");
    assert_eq!(e.message, "something went wrong");
}

#[test]
fn update_last_error_replaces_previous() {
    let mut slot: Option<Error> = None;
    update_last_error(&mut slot, Error::new("first"));
    assert_eq!(slot.as_ref().unwrap().message, "first");
    update_last_error(&mut slot, Error::new("second"));
    assert_eq!(slot.unwrap().message, "second");
}
