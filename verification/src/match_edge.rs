use crate::input_edge::InputEdge;
use crate::pattern::Edge as PatternEdge;
use std::rc::Rc;
use vstd::prelude::*;

verus! {

/// An input edge together with the pattern edge it satisfies.
pub struct MatchEdge<'a> {
    pub input_edge: Rc<InputEdge>,
    pub matched: &'a PatternEdge,
}

/// `Rc::clone`: the new handle points at the same input edge, so the two are
/// equal as values.
#[verifier::external_body]
pub(crate) fn share_input_edge(edge: &Rc<InputEdge>) -> (shared: Rc<InputEdge>)
    ensures
        shared == *edge,
{
    Rc::clone(edge)
}

impl<'a> Clone for MatchEdge<'a> {
    fn clone(&self) -> (copy: Self)
        ensures
            copy == *self,
    {
        MatchEdge { input_edge: share_input_edge(&self.input_edge), matched: self.matched }
    }
}

} // verus!
