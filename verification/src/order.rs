//! The order of fixed-width signatures.

use crate::bigendian::{bytes_less, lex_less};
use crate::fixed::Signature;
use core::cmp::Ordering;
use vstd::prelude::*;
use vstd::std_specs::cmp::PartialOrdSpecImpl;

verus! {

impl PartialOrd for Signature {
    /// Signatures are ordered as their bytes are: by the first byte in
    /// which they differ.
    fn partial_cmp(&self, other: &Signature) -> (order: Option<Ordering>) {
        if self.eq(other) {
            Some(Ordering::Equal)
        } else if bytes_less(self.as_bytes(), other.as_bytes()) {
            Some(Ordering::Less)
        } else {
            Some(Ordering::Greater)
        }
    }
}

impl PartialOrdSpecImpl for Signature {
    open spec fn obeys_partial_cmp_spec() -> bool {
        true
    }

    open spec fn partial_cmp_spec(&self, other: &Signature) -> Option<Ordering> {
        if self@ == other@ {
            Some(Ordering::Equal)
        } else if lex_less(self@, other@) {
            Some(Ordering::Less)
        } else {
            Some(Ordering::Greater)
        }
    }
}

} // verus!
