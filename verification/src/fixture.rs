use vstd::prelude::*;

use crate::text::{owned, push_str};

verus! {

/// A named item that search tests look for.
#[derive(Debug, Clone, PartialEq, Eq)]
pub struct SearchTarget {
    pub name: String,
}

impl SearchTarget {
    /// The label of a target: `target:` followed by its name.
    pub fn describe(&self) -> (label: String)
        ensures
            label@ == "target:"@ + self.name@,
    {
        let mut label = owned("target:");
        push_str(&mut label, self.name.as_str());
        label
    }
}

} // verus!
