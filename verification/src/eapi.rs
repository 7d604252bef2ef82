//! An EAPI as a plain value: its identifier and the names of the features it
//! supports.

use vstd::prelude::*;

use crate::compare::str_eq;

verus! {

/// An EAPI: the fields the feature test reads, as plain values.
#[derive(Clone, Debug)]
pub struct Eapi {
    pub id: String,
    pub features: Vec<String>,
}

impl Eapi {
    /// Does this EAPI support the named feature?
    pub fn has(&self, feature: &str) -> (r: bool)
        ensures
            r == exists|j: int|
                0 <= j < self.features@.len() && #[trigger] self.features.deep_view()[j]
                    == feature@,
    {
        let mut found = false;
        let mut k: usize = 0;
        while k < self.features.len()
            invariant
                k <= self.features@.len(),
                found == exists|j: int|
                    0 <= j < k && #[trigger] self.features.deep_view()[j] == feature@,
            decreases self.features@.len() - k,
        {
            let hit = str_eq(self.features[k].as_str(), feature);
            proof {
                assert(self.features.deep_view()[k as int] == self.features@[k as int]@);
            }
            if hit {
                found = true;
            }
            k = k + 1;
        }
        found
    }

    /// The identifier of this EAPI.
    pub fn as_str(&self) -> (r: &str)
        ensures
            r@ == self.id@,
    {
        self.id.as_str()
    }
}

} // verus!
