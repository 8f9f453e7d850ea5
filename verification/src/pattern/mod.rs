pub mod darpa;
pub mod json;
pub mod order_relation;
pub mod parser;
pub mod spade;

use order_relation::OrderRelation;
use vstd::prelude::*;
use vstd::string::StringExecFns;

verus! {

/// One edge of the pattern.
#[derive(Debug)]
pub struct Edge {
    pub id: usize,
    pub signature: String,
    /// Id of the pattern node the edge leaves.
    pub start: usize,
    /// Id of the pattern node the edge enters.
    pub end: usize,
}

/// How the files of a pattern write the signatures of nodes and edges.
#[derive(Clone, Copy, Debug)]
pub enum PatternFormat {
    Spade,
    Darpa,
}

/// The text ends with the suffix.
pub open spec fn ends_with(text: Seq<char>, suffix: Seq<char>) -> bool {
    text.len() >= suffix.len() && text.subrange(text.len() - suffix.len(), text.len() as int)
        == suffix
}

/// The prefix of a pattern without the `_regex` it may end with.
pub open spec fn stem(prefix: Seq<char>) -> Seq<char> {
    if ends_with(prefix, "_regex"@) {
        prefix.subrange(0, prefix.len() - "_regex"@.len())
    } else {
        prefix
    }
}

/// `str::strip_suffix`: the text without the suffix, where it ends with it.
#[verifier::external_body]
fn strip_suffix<'a>(text: &'a str, suffix: &str) -> (rest: Option<&'a str>)
    ensures
        rest is Some <==> ends_with(text@, suffix@),
        rest matches Some(start) ==> start@ + suffix@ == text@,
{
    text.strip_suffix(suffix)
}

/// The names of the three files of a pattern, from the prefix they share:
/// the file of the nodes, the file of the edges, and the file of the order
/// relation. A pattern of regular expressions, whose prefix ends with
/// `_regex`, shares the order relation with the pattern of plain text.
pub fn get_input_files(input_prefix: &str) -> (files: (String, String, String))
    ensures
        files.0@ == input_prefix@ + "_node.json"@,
        files.1@ == input_prefix@ + "_edge.json"@,
        files.2@ == stem(input_prefix@) + "_oRels.json"@,
{
    let mut node_file = String::from_str(input_prefix);
    node_file.append("_node.json");
    let mut edge_file = String::from_str(input_prefix);
    edge_file.append("_edge.json");
    let orels_file = match strip_suffix(input_prefix, "_regex") {
        Some(prefix) => {
            let mut orels_file = String::from_str(prefix);
            orels_file.append("_oRels.json");
            proof {
                let cut = input_prefix@.len() - "_regex"@.len();
                assert(prefix@ == (prefix@ + "_regex"@).subrange(0, prefix@.len() as int));
                assert(prefix@ == input_prefix@.subrange(0, cut));
            }
            orels_file
        },
        None => {
            let mut orels_file = String::from_str(input_prefix);
            orels_file.append("_oRels.json");
            orels_file
        },
    };
    (node_file, edge_file, orels_file)
}

/// The pattern to find: its edges, the order in time asked of them, and the
/// number of its nodes.
pub struct Pattern {
    pub edges: Vec<Edge>,
    pub order: OrderRelation,
    pub num_nodes: usize,
}

impl Pattern {
    /// The pattern is sound: edge `i` has id `i`, its nodes are below the
    /// number of nodes, and the order relation is sound and speaks of the
    /// edges of the pattern only.
    pub open spec fn wf(&self) -> bool {
        &&& self.order.wf()
        &&& self.order.spec_size() <= self.edges@.len() + 1
        &&& forall|i: int|
            0 <= i < self.edges@.len() ==> {
                &&& (#[trigger] self.edges@[i]).id == i
                &&& self.edges@[i].start < self.num_nodes
                &&& self.edges@[i].end < self.num_nodes
            }
    }

    /// Tells whether the pattern is sound.
    pub fn is_well_formed(&self) -> (sound: bool)
        requires
            self.order.wf(),
        ensures
            sound == self.wf(),
    {
        let size = self.order.size();
        if size > 0 && size - 1 > self.edges.len() {
            return false;
        }
        let mut i: usize = 0;
        while i < self.edges.len()
            invariant
                0 <= i <= self.edges@.len(),
                forall|k: int|
                    0 <= k < i ==> {
                        &&& (#[trigger] self.edges@[k]).id == k
                        &&& self.edges@[k].start < self.num_nodes
                        &&& self.edges@[k].end < self.num_nodes
                    },
            decreases self.edges@.len() - i,
        {
            let edge = &self.edges[i];
            if edge.id != i || edge.start >= self.num_nodes || edge.end >= self.num_nodes {
                return false;
            }
            i += 1;
        }
        true
    }
}

} // verus!
