//! A repository as a plain value: its identifier and its backing format.

use core::cmp::Ordering;
use vstd::prelude::*;

use crate::compare::{lex_cmp, lex_cmp_str};

verus! {

/// How a repository is backed.
#[derive(Clone, Copy, PartialEq, Eq, Structural, Debug)]
pub enum RepoFormat {
    Ebuild,
    Fake,
    Empty,
}

/// A repository: the fields the ordering reads, as plain values.
#[derive(Clone, Debug)]
pub struct Repo {
    pub id: String,
    pub format: RepoFormat,
}

impl Repo {
    /// Compare two repositories by identifier.
    pub fn compare(&self, other: &Repo) -> (r: Ordering)
        ensures
            r == lex_cmp(self.id@, other.id@),
    {
        lex_cmp_str(self.id.as_str(), other.id.as_str())
    }
}

} // verus!
