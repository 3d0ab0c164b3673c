//! The cached "least-occurring" slot of a dictionary: an element index
//! together with that element's occurrence count.

use vstd::prelude::*;

verus! {

/// Position and occurrence count of a dictionary's least-occurring element.
#[derive(Clone, Copy)]
pub struct IndexValuePair {
    pub index: usize,
    pub value: u64,
}

impl Default for IndexValuePair {
    fn default() -> (r: Self)
        ensures
            r.index == 0,
            r.value == 0,
    {
        IndexValuePair { index: 0, value: 0 }
    }
}

} // verus!
