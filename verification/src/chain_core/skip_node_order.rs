//! Skip nodes compare by their data alone, in the order of `[u8; 16]`.

use vstd::prelude::*;
use std::cmp::Ordering;
use crate::chain_core::block::{data_lt, lex_lt, lemma_lex_order};
use crate::chain_core::skip_list::SkipNode;

verus! {

impl PartialEq for SkipNode {
    fn eq(&self, other: &Self) -> (r: bool) {
        proof {
            lemma_lex_order(self.data@, other.data@, other.data@);
            if self.data@ == other.data@ {
                assert(self.data =~= other.data);
            }
        }
        !data_lt(&self.data, &other.data) && !data_lt(&other.data, &self.data)
    }
}

impl vstd::std_specs::cmp::PartialEqSpecImpl for SkipNode {
    open spec fn obeys_eq_spec() -> bool {
        true
    }

    open spec fn eq_spec(&self, other: &SkipNode) -> bool {
        self.data@ == other.data@
    }
}

impl Eq for SkipNode {}

impl PartialOrd for SkipNode {
    fn partial_cmp(&self, other: &Self) -> (r: Option<Ordering>) {
        if data_lt(&self.data, &other.data) {
            Some(Ordering::Less)
        } else if data_lt(&other.data, &self.data) {
            Some(Ordering::Greater)
        } else {
            Some(Ordering::Equal)
        }
    }
}

impl vstd::std_specs::cmp::PartialOrdSpecImpl for SkipNode {
    open spec fn obeys_partial_cmp_spec() -> bool {
        true
    }

    open spec fn partial_cmp_spec(&self, other: &SkipNode) -> Option<Ordering> {
        if lex_lt(self.data@, other.data@) {
            Some(Ordering::Less)
        } else if lex_lt(other.data@, self.data@) {
            Some(Ordering::Greater)
        } else {
            Some(Ordering::Equal)
        }
    }
}

} // verus!
