//! A package atom as a plain value: category, package name and an optional
//! version. Atoms order by category, then package, then version, so that
//! package lists sort by the same version order the comparator defines; an
//! unversioned atom sorts below every versioned one of the same package.

use core::cmp::Ordering;
use vstd::prelude::*;

use crate::compare::{lex_cmp, lex_cmp_str, version_cmp};
use crate::version::{Version, VersionView};

verus! {

/// An atom: the fields the ordering and the key read, as plain values.
#[derive(Clone, Debug)]
pub struct Atom {
    pub category: String,
    pub package: String,
    pub version: Option<Version>,
}

/// The mathematical shape of an atom.
pub struct AtomView {
    pub category: Seq<char>,
    pub package: Seq<char>,
    pub version: Option<VersionView>,
}

/// The view of an optional version.
pub open spec fn version_opt_view(v: Option<Version>) -> Option<VersionView> {
    match v {
        Option::Some(x) => Some(x@),
        Option::None => None,
    }
}

impl View for Atom {
    type V = AtomView;

    open spec fn view(&self) -> AtomView {
        AtomView {
            category: self.category@,
            package: self.package@,
            version: version_opt_view(self.version),
        }
    }
}

/// Order of the optional versions of two atoms.
pub open spec fn version_opt_cmp(a: Option<VersionView>, b: Option<VersionView>) -> Ordering {
    match (a, b) {
        (Option::None, Option::None) => Ordering::Equal,
        (Option::None, Option::Some(_)) => Ordering::Less,
        (Option::Some(_), Option::None) => Ordering::Greater,
        (Option::Some(x), Option::Some(y)) => version_cmp(x, y),
    }
}

/// The order on atoms: category, then package, then version.
pub open spec fn atom_cmp(a: AtomView, b: AtomView) -> Ordering {
    match lex_cmp(a.category, b.category) {
        Ordering::Equal => match lex_cmp(a.package, b.package) {
            Ordering::Equal => version_opt_cmp(a.version, b.version),
            c => c,
        },
        c => c,
    }
}

impl Atom {
    /// The category/package key of the atom.
    pub fn key(&self) -> (r: String)
        ensures
            r@ == self.category@ + "/"@ + self.package@,
    {
        let mut k = self.category.clone();
        k.append("/");
        k.append(self.package.as_str());
        k
    }

    /// Compare two atoms under the atom order.
    pub fn compare(&self, other: &Atom) -> (r: Ordering)
        ensures
            r == atom_cmp(self@, other@),
    {
        match lex_cmp_str(self.category.as_str(), other.category.as_str()) {
            Ordering::Equal => match lex_cmp_str(self.package.as_str(), other.package.as_str()) {
                Ordering::Equal => match (&self.version, &other.version) {
                    (Option::None, Option::None) => Ordering::Equal,
                    (Option::None, Option::Some(_)) => Ordering::Less,
                    (Option::Some(_), Option::None) => Ordering::Greater,
                    (Option::Some(x), Option::Some(y)) => x.compare(y),
                },
                c => c,
            },
            c => c,
        }
    }
}

} // verus!
