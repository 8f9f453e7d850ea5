use crate::input_edge::InputEdge;
use crate::match_edge::share_input_edge;
use itertools::Itertools;
use std::rc::Rc;
use vstd::prelude::*;
use vstd::std_specs::cmp::PartialEqSpecImpl;
use vstd::string::StringExecFns;

verus! {

/// A match of the whole pattern.
pub struct PatternMatch {
    /// `matched_edges[i]` is the input edge that matches pattern edge `i`.
    pub matched_edges: Vec<Rc<InputEdge>>,
}

/// The ids of the input edges of a match, in the order of the pattern
/// edges.
pub open spec fn matched_ids(edges: Seq<Rc<InputEdge>>) -> Seq<u64> {
    Seq::new(edges.len(), |i: int| edges[i].id)
}

/// The decimal digit for `d`.
pub open spec fn digit(d: nat) -> char {
    "0123456789"@[d as int]
}

/// The number written in decimal digits.
pub open spec fn decimal(n: nat) -> Seq<char>
    decreases n,
{
    if n < 10 {
        seq![digit(n)]
    } else {
        decimal(n / 10).push(digit(n % 10))
    }
}

/// The numbers written in decimal digits, with a comma and a blank between
/// each two.
pub open spec fn joined(ids: Seq<u64>) -> Seq<char>
    decreases ids.len(),
{
    if ids.len() == 0 {
        Seq::empty()
    } else if ids.len() == 1 {
        decimal(ids[0] as nat)
    } else {
        joined(ids.drop_last()) + ", "@ + decimal(ids.last() as nat)
    }
}

/// `Itertools::join` with `", "` between the items: each number as its
/// `Display` writes it, in decimal digits.
#[verifier::external_body]
fn join_ids(ids: &Vec<u64>) -> (text: String)
    ensures
        text@ == joined(ids@),
{
    ids.iter().join(", ")
}

impl PatternMatch {
    /// The ids of the matched input edges between square brackets.
    pub fn to_string(&self) -> (text: String)
        ensures
            text@ == "["@ + joined(matched_ids(self.matched_edges@)) + "]"@,
    {
        let mut ids: Vec<u64> = Vec::new();
        let mut i: usize = 0;
        while i < self.matched_edges.len()
            invariant
                0 <= i <= self.matched_edges@.len(),
                ids@.len() == i,
                forall|k: int| 0 <= k < i ==> ids@[k] == self.matched_edges@[k].id,
            decreases self.matched_edges@.len() - i,
        {
            ids.push(self.matched_edges[i].id);
            i += 1;
        }
        proof {
            assert(ids@ == matched_ids(self.matched_edges@));
        }
        let inner = join_ids(&ids);
        let mut text = String::from_str("[");
        text.append(inner.as_str());
        text.append("]");
        text
    }
}

impl Clone for PatternMatch {
    fn clone(&self) -> (copy: Self)
        ensures
            copy.matched_edges@ == self.matched_edges@,
    {
        let mut matched_edges: Vec<Rc<InputEdge>> = Vec::new();
        let mut i: usize = 0;
        while i < self.matched_edges.len()
            invariant
                0 <= i <= self.matched_edges@.len(),
                matched_edges@ == self.matched_edges@.take(i as int),
            decreases self.matched_edges@.len() - i,
        {
            matched_edges.push(share_input_edge(&self.matched_edges[i]));
            proof {
                assert(self.matched_edges@.take(i + 1) == self.matched_edges@.take(i as int).push(
                    self.matched_edges@[i as int],
                ));
            }
            i += 1;
        }
        proof {
            assert(self.matched_edges@.take(self.matched_edges@.len() as int) == self.matched_edges@);
        }
        PatternMatch { matched_edges }
    }
}

/// Two matches are the same where the input edges of the pattern edges
/// that both name have the same ids.
impl PartialEq for PatternMatch {
    fn eq(&self, other: &Self) -> (same: bool) {
        let mut i: usize = 0;
        while i < self.matched_edges.len() && i < other.matched_edges.len()
            invariant
                forall|k: int|
                    0 <= k < i && k < self.matched_edges@.len() && k < other.matched_edges@.len()
                        ==> self.matched_edges@[k].id == other.matched_edges@[k].id,
            decreases self.matched_edges@.len() - i,
        {
            if self.matched_edges[i].id != other.matched_edges[i].id {
                return false;
            }
            i += 1;
        }
        true
    }
}

impl PartialEqSpecImpl for PatternMatch {
    open spec fn obeys_eq_spec() -> bool {
        true
    }

    open spec fn eq_spec(&self, other: &Self) -> bool {
        forall|k: int|
            0 <= k < self.matched_edges@.len() && k < other.matched_edges@.len()
                ==> self.matched_edges@[k].id == other.matched_edges@[k].id
    }
}

impl Eq for PatternMatch {

}

} // verus!
