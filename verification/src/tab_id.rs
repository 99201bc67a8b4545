//! Identifiers of tabs.

use vstd::prelude::*;

verus! {

/// Identifies one tab.
#[derive(Debug, Clone, Copy, PartialEq, Eq, Structural, Hash, PartialOrd, Ord)]
pub struct TabId(u64);

impl TabId {
    /// The number that the id stands for.
    pub closed spec fn number(self) -> u64 {
        self.0
    }

    /// The number that the id stands for.
    pub fn get(self) -> (n: u64)
        ensures
            n == self.number(),
    {
        self.0
    }
}

impl From<u64> for TabId {
    fn from(id: u64) -> (r: Self)
        ensures
            r.number() == id,
    {
        TabId(id)
    }
}

impl vstd::std_specs::convert::FromSpecImpl<u64> for TabId {
    open spec fn obeys_from_spec() -> bool {
        true
    }

    closed spec fn from_spec(v: u64) -> Self {
        TabId(v)
    }
}

} // verus!
