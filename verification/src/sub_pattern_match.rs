use crate::binding::{
    among, binds, lemma_merged_pairs, mergeable, merged_pairs, one_to_one, sorted_by_input,
};
use crate::process_layers::join_layer::sub_pattern_buffer::{Relation, SubPatternBuffer};
use crate::match_edge::MatchEdge;
use std::cmp::Ordering;
use vstd::prelude::*;
use vstd::std_specs::cmp::{PartialEqSpecImpl, PartialOrdSpecImpl};

verus! {

/// A match of one sub-pattern, or of several merged into one.
pub struct SubPatternMatch<'p> {
    pub id: usize,
    /// The latest timestamp among the matched edges: the "current time".
    pub latest_time: u64,
    /// The earliest timestamp among the matched edges: decides expiry.
    pub earliest_time: u64,
    /// Pairs `(input node id, pattern node id)`, sorted by input node id.
    pub match_nodes: Vec<(u64, u64)>,
    /// `edge_id_map[pattern edge id]` is the id of the input edge matched to
    /// it. Its length is the number of edges of the whole pattern.
    pub edge_id_map: Vec<Option<u64>>,
    /// Sorted by input edge id.
    pub match_edges: Vec<MatchEdge<'p>>,
}

/// What a `SubPatternMatch` holds, as plain sequences.
pub struct MatchView<'p> {
    pub id: usize,
    pub latest_time: u64,
    pub earliest_time: u64,
    pub match_nodes: Seq<(u64, u64)>,
    pub edge_id_map: Seq<Option<u64>>,
    pub match_edges: Seq<MatchEdge<'p>>,
}

impl<'p> View for SubPatternMatch<'p> {
    type V = MatchView<'p>;

    open spec fn view(&self) -> MatchView<'p> {
        MatchView {
            id: self.id,
            latest_time: self.latest_time,
            earliest_time: self.earliest_time,
            match_nodes: self.match_nodes@,
            edge_id_map: self.edge_id_map@,
            match_edges: self.match_edges@,
        }
    }
}

/// A vector with the same items.
pub(crate) fn copy_of<T: Copy>(items: &Vec<T>) -> (copy: Vec<T>)
    ensures
        copy@ == items@,
{
    let mut copy: Vec<T> = Vec::new();
    let mut i: usize = 0;
    while i < items.len()
        invariant
            0 <= i <= items@.len(),
            copy@ == items@.take(i as int),
        decreases items@.len() - i,
    {
        copy.push(items[i]);
        proof {
            assert(items@.take(i as int).push(items@[i as int]) == items@.take(i + 1));
        }
        i += 1;
    }
    proof {
        assert(items@.take(items@.len() as int) == items@);
    }
    copy
}

impl<'p> Clone for SubPatternMatch<'p> {
    fn clone(&self) -> (copy: Self)
        ensures
            copy@ == self@,
    {
        let match_edges = self.match_edges.clone();
        proof {
            assert(match_edges@ =~= self.match_edges@);
        }
        SubPatternMatch {
            id: self.id,
            latest_time: self.latest_time,
            earliest_time: self.earliest_time,
            match_nodes: copy_of(&self.match_nodes),
            edge_id_map: copy_of(&self.edge_id_map),
            match_edges,
        }
    }
}

/// The pair `(input edge id, pattern edge id)` of a matched edge.
pub open spec fn edge_key(e: MatchEdge) -> (u64, u64) {
    (e.input_edge.id, e.matched.id as u64)
}

/// The binding of input edges to pattern edges that an edge list stands for.
pub open spec fn edge_keys(s: Seq<MatchEdge>) -> Seq<(u64, u64)> {
    Seq::new(s.len(), |i: int| edge_key(s[i]))
}

/// The two edge lists merged by input edge id; where both hold the same
/// input edge id, the edge of the first is taken, once.
pub open spec fn merged_edges<'p>(a: Seq<MatchEdge<'p>>, b: Seq<MatchEdge<'p>>) -> Seq<
    MatchEdge<'p>,
>
    decreases a.len() + b.len(),
{
    if a.len() == 0 {
        b
    } else if b.len() == 0 {
        a
    } else if a[0].input_edge.id < b[0].input_edge.id {
        seq![a[0]] + merged_edges(a.skip(1), b)
    } else if a[0].input_edge.id > b[0].input_edge.id {
        seq![b[0]] + merged_edges(a, b.skip(1))
    } else {
        seq![a[0]] + merged_edges(a.skip(1), b.skip(1))
    }
}

/// One unfolding of `merged_edges`.
proof fn lemma_merged_edges_step<'p>(a: Seq<MatchEdge<'p>>, b: Seq<MatchEdge<'p>>)
    ensures
        a.len() > 0 && (b.len() == 0 || a[0].input_edge.id < b[0].input_edge.id) ==> merged_edges(
            a,
            b,
        ) == seq![a[0]] + merged_edges(a.skip(1), b),
        b.len() > 0 && (a.len() == 0 || b[0].input_edge.id < a[0].input_edge.id) ==> merged_edges(
            a,
            b,
        ) == seq![b[0]] + merged_edges(a, b.skip(1)),
        a.len() > 0 && b.len() > 0 && a[0].input_edge.id == b[0].input_edge.id ==> merged_edges(
            a,
            b,
        ) == seq![a[0]] + merged_edges(a.skip(1), b.skip(1)),
{
    if a.len() > 0 && b.len() == 0 {
        assert(merged_edges(a.skip(1), b) == a.skip(1)) by {
            if a.skip(1).len() == 0 {
                assert(a.skip(1) == b);
            }
        }
        assert(a == seq![a[0]] + a.skip(1));
    }
    if b.len() > 0 && a.len() == 0 {
        assert(merged_edges(a, b.skip(1)) == b.skip(1));
        assert(b == seq![b[0]] + b.skip(1));
    }
}

/// The part still to merge loses the edge that is taken.
pub proof fn lemma_merged_edges_advance<'p>(
    a: Seq<MatchEdge<'p>>,
    b: Seq<MatchEdge<'p>>,
    merged: Seq<MatchEdge<'p>>,
    i: int,
    j: int,
    from_a: bool,
    from_b: bool,
)
    requires
        0 <= i <= a.len(),
        0 <= j <= b.len(),
        merged + merged_edges(a.skip(i), b.skip(j)) == merged_edges(a, b),
        from_a <==> i < a.len() && (j >= b.len() || a[i].input_edge.id <= b[j].input_edge.id),
        from_b <==> j < b.len() && (i >= a.len() || b[j].input_edge.id <= a[i].input_edge.id),
        from_a || from_b,
    ensures
        merged.push(if from_a { a[i] } else { b[j] }) + merged_edges(
            a.skip(if from_a { i + 1 } else { i }),
            b.skip(if from_b { j + 1 } else { j }),
        ) == merged_edges(a, b),
{
    let edge = if from_a { a[i] } else { b[j] };
    lemma_merged_edges_step(a.skip(i), b.skip(j));
    if from_a {
        assert(a.skip(i).skip(1) == a.skip(i + 1));
    }
    if from_b {
        assert(b.skip(j).skip(1) == b.skip(j + 1));
    }
    let rest = merged_edges(
        a.skip(if from_a { i + 1 } else { i }),
        b.skip(if from_b { j + 1 } else { j }),
    );
    assert(merged_edges(a.skip(i), b.skip(j)) == seq![edge] + rest);
    assert(merged + (seq![edge] + rest) == merged.push(edge) + rest);
}

/// Before anything is taken, nothing is merged; when both lists are used
/// up, the merged part is their merge.
pub proof fn lemma_merged_edges_ends<'p>(
    a: Seq<MatchEdge<'p>>,
    b: Seq<MatchEdge<'p>>,
    merged: Seq<MatchEdge<'p>>,
)
    ensures
        Seq::<MatchEdge<'p>>::empty() + merged_edges(a.skip(0), b.skip(0)) == merged_edges(a, b),
        merged + merged_edges(a.skip(a.len() as int), b.skip(b.len() as int)) == merged_edges(a, b)
            ==> merged == merged_edges(a, b),
{
    assert(a.skip(0) == a);
    assert(b.skip(0) == b);
    assert(Seq::<MatchEdge<'p>>::empty() + merged_edges(a, b) == merged_edges(a, b));
    assert(a.skip(a.len() as int) == Seq::<MatchEdge<'p>>::empty());
    assert(merged + Seq::<MatchEdge<'p>>::empty() == merged);
}

/// One of the edges is of the input edge `id`.
pub open spec fn holds_input(edges: Seq<MatchEdge>, id: u64) -> bool {
    exists|i: int| 0 <= i < edges.len() && (#[trigger] edges[i]).input_edge.id == id
}

/// The merged list holds edges of the two lists only. It holds every edge
/// of the first list, and every edge of the second list but those of an
/// input edge that the first list holds.
pub proof fn lemma_merged_edges_hold<'p>(a: Seq<MatchEdge<'p>>, b: Seq<MatchEdge<'p>>)
    ensures
        forall|k: int|
            0 <= k < merged_edges(a, b).len() ==> a.contains(#[trigger] merged_edges(a, b)[k])
                || b.contains(merged_edges(a, b)[k]),
        forall|i: int| 0 <= i < a.len() ==> merged_edges(a, b).contains(#[trigger] a[i]),
        forall|j: int|
            0 <= j < b.len() ==> merged_edges(a, b).contains(#[trigger] b[j]) || holds_input(
                a,
                b[j].input_edge.id,
            ),
    decreases a.len() + b.len(),
{
    let merged = merged_edges(a, b);
    if a.len() == 0 {
        assert forall|j: int| 0 <= j < b.len() implies merged.contains(#[trigger] b[j]) by {
            assert(merged[j] == b[j]);
        }
        assert forall|k: int| 0 <= k < merged.len() implies b.contains(#[trigger] merged[k]) by {
            assert(b[k] == merged[k]);
        }
    } else if b.len() == 0 {
        assert forall|i: int| 0 <= i < a.len() implies merged.contains(#[trigger] a[i]) by {
            assert(merged[i] == a[i]);
        }
        assert forall|k: int| 0 <= k < merged.len() implies a.contains(#[trigger] merged[k]) by {
            assert(a[k] == merged[k]);
        }
    } else {
        let from_a = a[0].input_edge.id <= b[0].input_edge.id;
        let from_b = b[0].input_edge.id <= a[0].input_edge.id;
        let rest_a = if from_a { a.skip(1) } else { a };
        let rest_b = if from_b { b.skip(1) } else { b };
        let head = if from_a { a[0] } else { b[0] };
        let rest = merged_edges(rest_a, rest_b);
        lemma_merged_edges_hold(rest_a, rest_b);
        assert(merged == seq![head] + rest);
        assert(merged[0] == head);
        assert forall|k: int| 0 <= k < merged.len() implies a.contains(#[trigger] merged[k]) || b.contains(
            merged[k],
        ) by {
            if k == 0 {
                assert(a[0] == head || b[0] == head);
            } else {
                assert(merged[k] == rest[k - 1]);
                if rest_a.contains(rest[k - 1]) {
                    let x = choose|x: int| 0 <= x < rest_a.len() && rest_a[x] == rest[k - 1];
                    assert(a[if from_a { x + 1 } else { x }] == rest[k - 1]);
                } else {
                    let y = choose|y: int| 0 <= y < rest_b.len() && rest_b[y] == rest[k - 1];
                    assert(b[if from_b { y + 1 } else { y }] == rest[k - 1]);
                }
            }
        }
        assert forall|i: int| 0 <= i < a.len() implies merged.contains(#[trigger] a[i]) by {
            if from_a && i == 0 {
                assert(merged[0] == a[0]);
            } else {
                let x = if from_a { i - 1 } else { i };
                assert(rest_a[x] == a[i]);
                assert(rest.contains(rest_a[x]));
                let k = choose|k: int| 0 <= k < rest.len() && rest[k] == a[i];
                assert(merged[k + 1] == a[i]);
            }
        }
        assert forall|j: int| 0 <= j < b.len() implies merged.contains(#[trigger] b[j]) || holds_input(
            a,
            b[j].input_edge.id,
        ) by {
            if from_b && j == 0 {
                if from_a {
                    assert(a[0].input_edge.id == b[0].input_edge.id);
                } else {
                    assert(merged[0] == b[0]);
                }
            } else {
                let y = if from_b { j - 1 } else { j };
                assert(rest_b[y] == b[j]);
                if rest.contains(rest_b[y]) {
                    let k = choose|k: int| 0 <= k < rest.len() && rest[k] == b[j];
                    assert(merged[k + 1] == b[j]);
                } else {
                    assert(holds_input(rest_a, b[j].input_edge.id));
                    let x = choose|x: int|
                        0 <= x < rest_a.len() && (#[trigger] rest_a[x]).input_edge.id == b[j].input_edge.id;
                    assert(a[if from_a { x + 1 } else { x }].input_edge.id == b[j].input_edge.id);
                }
            }
        }
    }
}

/// The two maps laid over each other: an entry of the first where it has
/// one, else the entry of the second.
pub open spec fn merged_edge_id_map(m1: Seq<Option<u64>>, m2: Seq<Option<u64>>) -> Seq<
    Option<u64>,
> {
    Seq::new(
        m1.len(),
        |i: int|
            if m1[i] is Some || i >= m2.len() {
                m1[i]
            } else {
                m2[i]
            },
    )
}

/// No two neighbours in the list are the same input edge. In a list sorted
/// by input edge id this says that no input edge occurs twice.
pub open spec fn neighbours_differ(s: Seq<MatchEdge>) -> bool {
    forall|i: int| 0 < i < s.len() ==> s[i - 1].input_edge.id != (#[trigger] s[i]).input_edge.id
}

/// The binding of a merged edge list is the merge of the two bindings.
pub proof fn lemma_keys_of_merged_edges(a: Seq<MatchEdge>, b: Seq<MatchEdge>)
    ensures
        edge_keys(merged_edges(a, b)) == merged_pairs(edge_keys(a), edge_keys(b)),
    decreases a.len() + b.len(),
{
    let keys_a = edge_keys(a);
    let keys_b = edge_keys(b);
    if a.len() == 0 || b.len() == 0 {
    } else if a[0].input_edge.id < b[0].input_edge.id {
        lemma_keys_of_merged_edges(a.skip(1), b);
        assert(edge_keys(a.skip(1)) == keys_a.skip(1));
        assert(edge_keys(seq![a[0]] + merged_edges(a.skip(1), b)) == seq![keys_a[0]] + edge_keys(
            merged_edges(a.skip(1), b),
        ));
    } else if a[0].input_edge.id > b[0].input_edge.id {
        lemma_keys_of_merged_edges(a, b.skip(1));
        assert(edge_keys(b.skip(1)) == keys_b.skip(1));
        assert(edge_keys(seq![b[0]] + merged_edges(a, b.skip(1))) == seq![keys_b[0]] + edge_keys(
            merged_edges(a, b.skip(1)),
        ));
    } else {
        lemma_keys_of_merged_edges(a.skip(1), b.skip(1));
        assert(edge_keys(a.skip(1)) == keys_a.skip(1));
        assert(edge_keys(b.skip(1)) == keys_b.skip(1));
        assert(edge_keys(seq![a[0]] + merged_edges(a.skip(1), b.skip(1))) == seq![keys_a[0]]
            + edge_keys(merged_edges(a.skip(1), b.skip(1))));
    }
}

impl<'p> MatchView<'p> {
    /// The two matches can be merged under the relation of their buffers:
    /// their edges and their nodes, taken together, still pair input and
    /// pattern one to one, and the merged edges come in the order of time
    /// that the relation asks for.
    pub open spec fn can_merge(self, other: Self, relation: &Relation) -> bool {
        &&& mergeable(edge_keys(self.match_edges), edge_keys(other.match_edges))
        &&& relation.respected_by(merged_edges(self.match_edges, other.match_edges))
        &&& mergeable(self.match_nodes, other.match_nodes)
    }

    /// What merging the two matches gives.
    pub open spec fn merged_with(self, other: Self) -> Self {
        MatchView {
            id: 0,
            latest_time: if self.latest_time >= other.latest_time {
                self.latest_time
            } else {
                other.latest_time
            },
            earliest_time: if self.earliest_time <= other.earliest_time {
                self.earliest_time
            } else {
                other.earliest_time
            },
            match_nodes: merged_pairs(self.match_nodes, other.match_nodes),
            edge_id_map: merged_edge_id_map(self.edge_id_map, other.edge_id_map),
            match_edges: merged_edges(self.match_edges, other.match_edges),
        }
    }

    /// Two matches that pair one pattern node with two different input
    /// nodes are never merged.
    pub proof fn lemma_conflicting_nodes_never_merge(
        self,
        other: Self,
        relation: &Relation,
        i: int,
        j: int,
    )
        requires
            0 <= i < self.match_nodes.len(),
            0 <= j < other.match_nodes.len(),
            self.match_nodes[i].1 == other.match_nodes[j].1,
            self.match_nodes[i].0 != other.match_nodes[j].0,
        ensures
            !self.can_merge(other, relation),
    {
    }

    /// Two matches that pair one input edge with two different pattern
    /// edges are never merged.
    pub proof fn lemma_reused_input_edge_never_merges(
        self,
        other: Self,
        relation: &Relation,
        i: int,
        j: int,
    )
        requires
            0 <= i < self.match_edges.len(),
            0 <= j < other.match_edges.len(),
            self.match_edges[i].input_edge.id == other.match_edges[j].input_edge.id,
            self.match_edges[i].matched.id != other.match_edges[j].matched.id,
        ensures
            !self.can_merge(other, relation),
    {
        let keys_a = edge_keys(self.match_edges);
        let keys_b = edge_keys(other.match_edges);
        assert(keys_a[i].0 == keys_b[j].0);
        assert(keys_a[i].1 != keys_b[j].1);
    }

    /// Where the relation asks that pattern edge `a` comes no later than
    /// pattern edge `b`, a merge in which the edge matched to `a` has a
    /// greater timestamp than the edge matched to `b` is refused.
    pub proof fn lemma_order_violation_never_merges(
        self,
        other: Self,
        relation: &Relation,
        c: int,
        k: int,
        l: int,
    )
        requires
            0 <= c < relation.edge_orders@.len(),
            relation.edge_orders@[c].2 is FirstToSecond,
            0 <= k < merged_edges(self.match_edges, other.match_edges).len(),
            0 <= l < merged_edges(self.match_edges, other.match_edges).len(),
            merged_edges(self.match_edges, other.match_edges)[k].matched.id
                == relation.edge_orders@[c].0,
            merged_edges(self.match_edges, other.match_edges)[l].matched.id
                == relation.edge_orders@[c].1,
            merged_edges(self.match_edges, other.match_edges)[k].input_edge.timestamp > merged_edges(
                self.match_edges,
                other.match_edges,
            )[l].input_edge.timestamp,
        ensures
            !self.can_merge(other, relation),
    {
        let list = merged_edges(self.match_edges, other.match_edges);
        if relation.respected_by(list) {
            assert(relation.edge_orders@[c] == relation.edge_orders@[c] && list[k] == list[k] && list[l]
                == list[l]);
            assert(crate::process_layers::join_layer::sub_pattern_buffer::in_order(
                relation.edge_orders@[c].2,
                list[k].input_edge.timestamp,
                list[l].input_edge.timestamp,
            ));
        }
    }

    /// Where the relation asks that pattern edge `a` comes no later than
    /// pattern edge `b`, two matches are never merged of which the first
    /// matches `a` with an input edge of a greater timestamp than the input
    /// edge with which the second matches `b`. An input edge goes by one
    /// timestamp: where the first match too matches `b` with that input
    /// edge, it has the timestamp that it has in the second.
    pub proof fn lemma_order_violation_between_matches(
        self,
        other: Self,
        relation: &Relation,
        c: int,
        i: int,
        j: int,
    )
        requires
            0 <= c < relation.edge_orders@.len(),
            relation.edge_orders@[c].2 is FirstToSecond,
            0 <= i < self.match_edges.len(),
            0 <= j < other.match_edges.len(),
            self.match_edges[i].matched.id == relation.edge_orders@[c].0,
            other.match_edges[j].matched.id == relation.edge_orders@[c].1,
            self.match_edges[i].input_edge.timestamp > other.match_edges[j].input_edge.timestamp,
            forall|x: int|
                0 <= x < self.match_edges.len() && (#[trigger] self.match_edges[x]).input_edge.id
                    == other.match_edges[j].input_edge.id && self.match_edges[x].matched.id
                    == other.match_edges[j].matched.id ==> self.match_edges[x].input_edge.timestamp
                    == other.match_edges[j].input_edge.timestamp,
        ensures
            !self.can_merge(other, relation),
    {
        let a = self.match_edges;
        let b = other.match_edges;
        let list = merged_edges(a, b);
        if self.can_merge(other, relation) {
            lemma_merged_edges_hold(a, b);
            assert(list.contains(a[i]));
            let k = choose|k: int| 0 <= k < list.len() && list[k] == a[i];
            if list.contains(b[j]) {
                let l = choose|l: int| 0 <= l < list.len() && list[l] == b[j];
                self.lemma_order_violation_never_merges(other, relation, c, k, l);
            } else {
                assert(holds_input(a, b[j].input_edge.id));
                let x = choose|x: int|
                    0 <= x < a.len() && (#[trigger] a[x]).input_edge.id == b[j].input_edge.id;
                let keys_a = edge_keys(a);
                let keys_b = edge_keys(b);
                assert(keys_a[x].0 == keys_b[j].0);
                assert(keys_a[x].1 == keys_b[j].1);
                assert(a[x].matched.id == b[j].matched.id);
                assert(list.contains(a[x]));
                let l = choose|l: int| 0 <= l < list.len() && list[l] == a[x];
                self.lemma_order_violation_never_merges(other, relation, c, k, l);
            }
        }
    }

    /// Merging two sound matches that can be merged gives a sound match.
    pub proof fn lemma_merged_wf(self, other: Self, num_nodes: nat, num_edges: nat)
        requires
            self.wf(num_nodes, num_edges),
            other.wf(num_nodes, num_edges),
            mergeable(edge_keys(self.match_edges), edge_keys(other.match_edges)),
            mergeable(self.match_nodes, other.match_nodes),
        ensures
            self.merged_with(other).wf(num_nodes, num_edges),
    {
        let merged = self.merged_with(other);
        let keys_a = edge_keys(self.match_edges);
        let keys_b = edge_keys(other.match_edges);
        let keys = edge_keys(merged.match_edges);
        lemma_keys_of_merged_edges(self.match_edges, other.match_edges);
        lemma_merged_pairs(keys_a, keys_b);
        lemma_merged_pairs(self.match_nodes, other.match_nodes);
        lemma_merged_edges_hold(self.match_edges, other.match_edges);
        assert forall|k: int| 0 <= k < merged.match_edges.len() implies merged.earliest_time <= (
        #[trigger] merged.match_edges[k]).input_edge.timestamp <= merged.latest_time by {
            let edge = merged.match_edges[k];
            if self.match_edges.contains(edge) {
                let x = choose|x: int| 0 <= x < self.match_edges.len() && self.match_edges[x] == edge;
                assert(self.earliest_time <= self.match_edges[x].input_edge.timestamp);
            } else {
                let y = choose|y: int| 0 <= y < other.match_edges.len() && other.match_edges[y] == edge;
                assert(other.earliest_time <= other.match_edges[y].input_edge.timestamp);
            }
        }
        assert forall|k: int| 0 <= k < merged.match_edges.len() implies {
            &&& (#[trigger] merged.match_edges[k]).matched.id < num_edges
            &&& merged.edge_id_map[merged.match_edges[k].matched.id as int] == Some(
                merged.match_edges[k].input_edge.id,
            )
        } by {
            let key = keys[k];
            assert(key == edge_key(merged.match_edges[k]));
            if among(keys_a, keys_a.len() as int, key) {
                let x = choose|x: int| 0 <= x < keys_a.len() && #[trigger] keys_a[x] == key;
                assert(self.match_edges[x].matched.id == merged.match_edges[k].matched.id);
            } else {
                let y = choose|y: int| 0 <= y < keys_b.len() && #[trigger] keys_b[y] == key;
                assert(other.match_edges[y].matched.id == merged.match_edges[k].matched.id);
                let p = other.match_edges[y].matched.id as int;
                if self.edge_id_map[p] is Some {
                    let x = choose|x: int| 0 <= x < keys_a.len() && #[trigger] keys_a[x].1 == p;
                    assert(self.match_edges[x].matched.id == p);
                    assert(keys_a[x].1 == keys_b[y].1);
                }
            }
        }
        assert forall|p: int| 0 <= p < num_edges && (#[trigger] merged.edge_id_map[p]) is Some implies binds(
            keys,
            p,
        ) by {
            if self.edge_id_map[p] is Some {
                let x = choose|x: int| 0 <= x < keys_a.len() && #[trigger] keys_a[x].1 == p;
                let k = choose|k: int| 0 <= k < keys.len() && #[trigger] keys[k] == keys_a[x];
                assert(keys[k].1 == p);
            } else {
                assert(other.edge_id_map[p] is Some);
                let y = choose|y: int| 0 <= y < keys_b.len() && #[trigger] keys_b[y].1 == p;
                let k = choose|k: int| 0 <= k < keys.len() && #[trigger] keys[k] == keys_b[y];
                assert(keys[k].1 == p);
            }
        }
        assert forall|k: int| 0 <= k < merged.match_nodes.len() implies (
        #[trigger] merged.match_nodes[k]).1 < num_nodes by {
            let node = merged.match_nodes[k];
            if among(self.match_nodes, self.match_nodes.len() as int, node) {
                let x = choose|x: int|
                    0 <= x < self.match_nodes.len() && #[trigger] self.match_nodes[x] == node;
            } else {
                let y = choose|y: int|
                    0 <= y < other.match_nodes.len() && #[trigger] other.match_nodes[y] == node;
            }
        }
    }

    /// The match is sound for a pattern of `num_nodes` nodes and `num_edges`
    /// edges: its edges are sorted with no input edge and no pattern edge
    /// twice, the edge id map says what the edge list says, the node list
    /// is sorted, and the timestamps of its edges lie from its earliest time
    /// to its latest time.
    pub open spec fn wf(self, num_nodes: nat, num_edges: nat) -> bool {
        &&& self.edge_id_map.len() == num_edges
        &&& sorted_by_input(edge_keys(self.match_edges))
        &&& one_to_one(edge_keys(self.match_edges))
        &&& self.earliest_time <= self.latest_time
        &&& forall|k: int|
            0 <= k < self.match_edges.len() ==> {
                &&& (#[trigger] self.match_edges[k]).matched.id < num_edges
                &&& self.edge_id_map[self.match_edges[k].matched.id as int] == Some(
                    self.match_edges[k].input_edge.id,
                )
                &&& self.earliest_time <= self.match_edges[k].input_edge.timestamp <= self.latest_time
            }
        &&& forall|p: int|
            0 <= p < num_edges && (#[trigger] self.edge_id_map[p]) is Some ==> binds(
                edge_keys(self.match_edges),
                p,
            )
        &&& sorted_by_input(self.match_nodes)
        &&& forall|k: int|
            0 <= k < self.match_nodes.len() ==> (#[trigger] self.match_nodes[k]).1 < num_nodes
    }
}

/// Lays two edge id maps over each other. Pattern edges of different
/// sub-patterns are disjoint, so no entry is lost.
pub fn merge_edge_id_map(edge_id_map1: &Vec<Option<u64>>, edge_id_map2: &Vec<Option<u64>>) -> (map:
    Vec<Option<u64>>)
    ensures
        map@ == merged_edge_id_map(edge_id_map1@, edge_id_map2@),
{
    let mut edge_id_map: Vec<Option<u64>> = Vec::new();
    let mut i: usize = 0;
    while i < edge_id_map1.len()
        invariant
            0 <= i <= edge_id_map1@.len(),
            edge_id_map@.len() == i,
            forall|k: int|
                0 <= k < i ==> edge_id_map@[k] == merged_edge_id_map(
                    edge_id_map1@,
                    edge_id_map2@,
                )[k],
        decreases edge_id_map1@.len() - i,
    {
        let entry = match edge_id_map1[i] {
            Some(id) => Some(id),
            None => if i < edge_id_map2.len() {
                edge_id_map2[i]
            } else {
                None
            },
        };
        edge_id_map.push(entry);
        i += 1;
    }
    edge_id_map
}

/// Tells whether no two neighbours in the list are the same input edge.
pub fn check_edge_uniqueness(match_edges: &Vec<MatchEdge>) -> (unique: bool)
    ensures
        unique == neighbours_differ(match_edges@),
        sorted_by_input(edge_keys(match_edges@)) ==> (unique <==> forall|i: int, j: int|
            0 <= i < j < match_edges@.len() ==> match_edges@[i].input_edge.id
                != match_edges@[j].input_edge.id),
{
    let mut i: usize = 1;
    while i < match_edges.len()
        invariant
            1 <= i,
            forall|k: int|
                0 < k < i && k < match_edges@.len() ==> match_edges@[k - 1].input_edge.id != (
                #[trigger] match_edges@[k]).input_edge.id,
        decreases match_edges@.len() - i,
    {
        if match_edges[i - 1].input_edge.id == match_edges[i].input_edge.id {
            return false;
        }
        i += 1;
    }
    proof {
        if sorted_by_input(edge_keys(match_edges@)) {
            assert forall|i: int, j: int| 0 <= i < j < match_edges@.len() implies match_edges@[i].input_edge.id
                != match_edges@[j].input_edge.id by {
                let keys = edge_keys(match_edges@);
                assert(keys[i].0 <= keys[j - 1].0);
                assert(keys[j - 1].0 <= keys[j].0);
                assert(match_edges@[j - 1].input_edge.id != match_edges@[j].input_edge.id);
            }
        }
    }
    true
}

impl<'p> SubPatternMatch<'p> {
    /// Merges two matches of sibling buffers: their edges, then the check of
    /// the order of time, then their nodes. The scratch space of the buffer
    /// is clean before and after.
    pub fn merge_matches(
        sub_pattern_buffer: &mut SubPatternBuffer<'p>,
        sub_pattern_match1: &Self,
        sub_pattern_match2: &Self,
    ) -> (merged: Option<Self>)
        requires
            old(sub_pattern_buffer).nodes_clear(),
            old(sub_pattern_buffer).times_clear(),
            sub_pattern_match1@.wf(
                old(sub_pattern_buffer).used_nodes@.len(),
                old(sub_pattern_buffer).timestamps@.len(),
            ),
            sub_pattern_match2@.wf(
                old(sub_pattern_buffer).used_nodes@.len(),
                old(sub_pattern_buffer).timestamps@.len(),
            ),
        ensures
            final(sub_pattern_buffer).same_but_scratch(old(sub_pattern_buffer)),
            final(sub_pattern_buffer).nodes_clear(),
            final(sub_pattern_buffer).times_clear(),
            merged is Some <==> sub_pattern_match1@.can_merge(
                sub_pattern_match2@,
                &old(sub_pattern_buffer).relation,
            ),
            merged matches Some(m) ==> {
                &&& m@ == sub_pattern_match1@.merged_with(sub_pattern_match2@)
                &&& m@.wf(
                    old(sub_pattern_buffer).used_nodes@.len(),
                    old(sub_pattern_buffer).timestamps@.len(),
                )
            },
    {
        let match_edges = match sub_pattern_buffer.try_merge_match_edges(
            sub_pattern_match1.match_edges.as_slice(),
            sub_pattern_match2.match_edges.as_slice(),
        ) {
            Some(match_edges) => match_edges,
            None => {
                return None;
            },
        };
        proof {
            sub_pattern_buffer.relation.lemma_table_speaks_for_list(
                sub_pattern_buffer.timestamps@,
                match_edges@,
            );
        }
        if !sub_pattern_buffer.relation.check_order_relation(&sub_pattern_buffer.timestamps) {
            sub_pattern_buffer.clear_workspace();
            return None;
        }
        let match_nodes = match sub_pattern_buffer.try_merge_nodes(
            sub_pattern_match1.match_nodes.as_slice(),
            sub_pattern_match2.match_nodes.as_slice(),
        ) {
            Some(match_nodes) => match_nodes,
            None => {
                sub_pattern_buffer.clear_workspace();
                return None;
            },
        };
        let edge_id_map = merge_edge_id_map(
            &sub_pattern_match1.edge_id_map,
            &sub_pattern_match2.edge_id_map,
        );
        sub_pattern_buffer.clear_workspace();
        let latest_time = if sub_pattern_match1.latest_time >= sub_pattern_match2.latest_time {
            sub_pattern_match1.latest_time
        } else {
            sub_pattern_match2.latest_time
        };
        let earliest_time = if sub_pattern_match1.earliest_time
            <= sub_pattern_match2.earliest_time {
            sub_pattern_match1.earliest_time
        } else {
            sub_pattern_match2.earliest_time
        };
        proof {
            sub_pattern_match1@.lemma_merged_wf(
                sub_pattern_match2@,
                old(sub_pattern_buffer).used_nodes@.len(),
                old(sub_pattern_buffer).timestamps@.len(),
            );
        }
        Some(
            SubPatternMatch {
                id: 0,
                latest_time,
                earliest_time,
                match_nodes,
                edge_id_map,
                match_edges,
            },
        )
    }
}

/// A match in the order in which matches expire: the match with the
/// earliest edge is the greatest, so that a queue of the greatest first hands
/// out the match that expires next. Two are equal where their earliest
/// edges are of one time.
pub struct EarliestFirst<'p>(pub SubPatternMatch<'p>);

impl<'p> Clone for EarliestFirst<'p> {
    fn clone(&self) -> (copy: Self)
        ensures
            copy.0@ == self.0@,
    {
        EarliestFirst(self.0.clone())
    }
}

impl<'p> PartialEq for EarliestFirst<'p> {
    fn eq(&self, other: &Self) -> (same: bool) {
        self.0.earliest_time == other.0.earliest_time
    }
}

impl<'p> PartialEqSpecImpl for EarliestFirst<'p> {
    open spec fn obeys_eq_spec() -> bool {
        true
    }

    open spec fn eq_spec(&self, other: &Self) -> bool {
        self.0.earliest_time == other.0.earliest_time
    }
}

impl<'p> Eq for EarliestFirst<'p> {

}

impl<'p> PartialOrd for EarliestFirst<'p> {
    fn partial_cmp(&self, other: &Self) -> (order: Option<Ordering>) {
        if self.0.earliest_time > other.0.earliest_time {
            Some(Ordering::Less)
        } else if self.0.earliest_time < other.0.earliest_time {
            Some(Ordering::Greater)
        } else {
            Some(Ordering::Equal)
        }
    }
}

impl<'p> PartialOrdSpecImpl for EarliestFirst<'p> {
    open spec fn obeys_partial_cmp_spec() -> bool {
        true
    }

    open spec fn partial_cmp_spec(&self, other: &Self) -> Option<Ordering> {
        if self.0.earliest_time > other.0.earliest_time {
            Some(Ordering::Less)
        } else if self.0.earliest_time < other.0.earliest_time {
            Some(Ordering::Greater)
        } else {
            Some(Ordering::Equal)
        }
    }
}

} // verus!
