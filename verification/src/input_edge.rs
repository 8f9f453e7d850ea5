use std::cmp::Ordering;
use vstd::prelude::*;
use vstd::std_specs::cmp::{PartialEqSpecImpl, PartialOrdSpecImpl};

verus! {

/// One timestamped edge of the input graph.
#[derive(Debug)]
pub struct InputEdge {
    /// Time of the event, in milliseconds.
    pub timestamp: u64,
    pub signature: String,
    pub id: u64,
    /// Id of the input node the edge leaves.
    pub start: u64,
    /// Id of the input node the edge enters.
    pub end: u64,
}

impl Clone for InputEdge {
    fn clone(&self) -> (copy: Self)
        ensures
            copy == *self,
    {
        InputEdge {
            timestamp: self.timestamp,
            signature: self.signature.clone(),
            id: self.id,
            start: self.start,
            end: self.end,
        }
    }
}

/// Two input edges are the same edge when they carry the same id.
impl PartialEq for InputEdge {
    fn eq(&self, other: &Self) -> (same: bool) {
        self.id == other.id
    }
}

impl PartialEqSpecImpl for InputEdge {
    open spec fn obeys_eq_spec() -> bool {
        true
    }

    open spec fn eq_spec(&self, other: &Self) -> bool {
        self.id == other.id
    }
}

impl Eq for InputEdge {

}

/// Input edges are ordered by their time.
impl PartialOrd for InputEdge {
    fn partial_cmp(&self, other: &Self) -> (order: Option<Ordering>) {
        if self.timestamp < other.timestamp {
            Some(Ordering::Less)
        } else if self.timestamp > other.timestamp {
            Some(Ordering::Greater)
        } else {
            Some(Ordering::Equal)
        }
    }
}

impl PartialOrdSpecImpl for InputEdge {
    open spec fn obeys_partial_cmp_spec() -> bool {
        true
    }

    open spec fn partial_cmp_spec(&self, other: &Self) -> Option<Ordering> {
        if self.timestamp < other.timestamp {
            Some(Ordering::Less)
        } else if self.timestamp > other.timestamp {
            Some(Ordering::Greater)
        } else {
            Some(Ordering::Equal)
        }
    }
}

} // verus!
