//! A dictionary element: a two-byte value with its occurrence and usage
//! counters. Identity rests on the two data bytes alone.

use crate::utility::ELEM_BYTES;
use vstd::prelude::*;
use vstd::string::StringExecFns;

verus! {

#[derive(Clone, Copy)]
pub struct DictElem {
    pub data: [u8; ELEM_BYTES],
    pub occurance: u64,
    pub useage: u64,
}

impl DictElem {
    /// A fresh element starts with no recorded usage.
    pub fn new(arr: [u8; ELEM_BYTES], occ: u64) -> (r: Self)
        ensures
            r.data == arr,
            r.occurance == occ,
            r.useage == 0,
    {
        DictElem { data: arr, occurance: occ, useage: 0 }
    }

    /// Equality on the two-byte payload alone.
    pub fn eq_array(&self, o: &[u8; ELEM_BYTES]) -> (r: bool)
        ensures
            r <==> self.data@ == o@,
    {
        let r = self.data[0] == o[0] && self.data[1] == o[1];
        proof {
            if r {
                assert(self.data@ =~= o@);
            }
        }
        r
    }

    pub fn set_occurrence(&mut self, occ: u64)
        ensures
            final(self).data == old(self).data,
            final(self).occurance == occ,
            final(self).useage == old(self).useage,
    {
        self.occurance = occ;
    }

    pub fn increment_usage(&mut self)
        requires
            old(self).useage < u64::MAX,
        ensures
            final(self).data == old(self).data,
            final(self).occurance == old(self).occurance,
            final(self).useage == old(self).useage + 1,
    {
        self.useage = self.useage + 1;
    }

    /// Diagnostic rendering of the element.
    pub fn to_string(&self) -> String {
        let mut out = String::from_str(" [");
        out.append(crate::utility::u8_to_string(self.data[0]).as_str());
        out.append(", ");
        out.append(crate::utility::u8_to_string(self.data[1]).as_str());
        out.append("]: ");
        out.append(self.occurance.to_string().as_str());
        out.append(" occasions");
        out
    }
}

} // verus!
