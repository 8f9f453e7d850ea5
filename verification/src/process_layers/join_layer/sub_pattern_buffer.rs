use crate::binding::{
    agree, among, binds, lemma_admission, lemma_mark, lemma_merged_advance, lemma_merged_done,
    lemma_progress_done, lemma_progress_start, lemma_refusal, merge_progress, mergeable,
    merged_pairs, sorted_by_input,
};
use crate::match_edge::MatchEdge;
use crate::pattern::order_relation::{DistanceTable, OrderRelation, UNREACHABLE};
use crate::pattern::Pattern;
use crate::sub_pattern::SubPattern;
use crate::sub_pattern_match::{
    copy_of, edge_key, edge_keys, lemma_merged_edges_advance, lemma_merged_edges_ends, merged_edges,
    SubPatternMatch,
};
use std::collections::HashSet;
use vstd::prelude::*;
use vstd::std_specs::iter::IteratorSpec;

verus! {

broadcast use vstd::std_specs::hash::group_hash_axioms;

/// Which of two pattern edges has to come first in time.
#[derive(Clone, Copy, Debug)]
pub enum TimeOrder {
    FirstToSecond,
    SecondToFirst,
}

/// What two sibling buffers of the join tree have to respect when their
/// matches are merged.
pub struct Relation {
    /// `shared_nodes[n]` is set when both siblings hold pattern node `n`.
    pub shared_nodes: Vec<bool>,
    /// `(a, b, order)`: pattern edge `a` of the left sibling and pattern edge
    /// `b` of the right sibling have to be matched in that order of time.
    pub edge_orders: Vec<(usize, usize, TimeOrder)>,
}

/// The two timestamps come in the order asked for; equal timestamps come in
/// either order.
pub open spec fn in_order(order: TimeOrder, first: u64, second: u64) -> bool {
    match order {
        TimeOrder::FirstToSecond => first <= second,
        TimeOrder::SecondToFirst => first >= second,
    }
}

/// The timestamp the table holds for pattern edge `p`, if any.
pub open spec fn recorded(timestamps: Seq<Option<u64>>, p: int) -> Option<u64> {
    if 0 <= p < timestamps.len() {
        timestamps[p]
    } else {
        None
    }
}

/// The constraint holds of the table: where the table lacks one of the two
/// pattern edges, there is nothing to hold.
pub open spec fn constraint_met(
    constraint: (usize, usize, TimeOrder),
    timestamps: Seq<Option<u64>>,
) -> bool {
    match (recorded(timestamps, constraint.0 as int), recorded(timestamps, constraint.1 as int)) {
        (Some(first), Some(second)) => in_order(constraint.2, first, second),
        _ => true,
    }
}

/// The table holds the timestamp of each edge of the list under its pattern
/// edge, and nothing else.
pub open spec fn records(timestamps: Seq<Option<u64>>, list: Seq<MatchEdge>) -> bool {
    &&& forall|p: int|
        0 <= p < timestamps.len() ==> ((#[trigger] timestamps[p]) is Some <==> binds(
            edge_keys(list),
            p,
        ))
    &&& forall|k: int|
        0 <= k < list.len() ==> {
            &&& (#[trigger] list[k]).matched.id < timestamps.len()
            &&& timestamps[list[k].matched.id as int] == Some(list[k].input_edge.timestamp)
        }
}

/// Recording an edge under a pattern edge that has no timestamp yet keeps
/// the table in step with the list.
proof fn lemma_record(timestamps: Seq<Option<u64>>, list: Seq<MatchEdge>, edge: MatchEdge)
    requires
        records(timestamps, list),
        edge.matched.id < timestamps.len(),
        timestamps[edge.matched.id as int] is None,
    ensures
        records(
            timestamps.update(edge.matched.id as int, Some(edge.input_edge.timestamp)),
            list.push(edge),
        ),
{
    let table = timestamps.update(edge.matched.id as int, Some(edge.input_edge.timestamp));
    let longer = list.push(edge);
    assert(edge_keys(longer) == edge_keys(list).push(edge_key(edge)));
    assert forall|p: int| 0 <= p < table.len() implies ((#[trigger] table[p]) is Some <==> binds(
        edge_keys(longer),
        p,
    )) by {
        assert(timestamps[p] is Some <==> binds(edge_keys(list), p));
        if binds(edge_keys(list), p) {
            let k = choose|k: int| 0 <= k < edge_keys(list).len() && #[trigger] edge_keys(list)[k].1 == p;
            assert(edge_keys(longer)[k].1 == p);
        }
        if p == edge.matched.id {
            assert(edge_keys(longer)[list.len() as int].1 == p);
        }
        if binds(edge_keys(longer), p) && p != edge.matched.id {
            let k = choose|k: int|
                0 <= k < edge_keys(longer).len() && #[trigger] edge_keys(longer)[k].1 == p;
            assert(edge_keys(list)[k].1 == p);
        }
    }
    assert forall|k: int| 0 <= k < longer.len() implies {
        &&& (#[trigger] longer[k]).matched.id < table.len()
        &&& table[longer[k].matched.id as int] == Some(longer[k].input_edge.timestamp)
    } by {
        if k < list.len() {
            assert(longer[k] == list[k]);
            assert(timestamps[list[k].matched.id as int] is Some);
        }
    }
}

impl Clone for Relation {
    fn clone(&self) -> (copy: Self)
        ensures
            copy.shared_nodes@ == self.shared_nodes@,
            copy.edge_orders@ == self.edge_orders@,
    {
        Relation {
            shared_nodes: copy_of(&self.shared_nodes),
            edge_orders: copy_of(&self.edge_orders),
        }
    }
}

impl Relation {
    /// A relation that asks for nothing.
    pub fn new() -> (relation: Self)
        ensures
            relation.shared_nodes@.len() == 0,
            relation.edge_orders@.len() == 0,
    {
        Self { shared_nodes: Vec::new(), edge_orders: Vec::new() }
    }

    /// Every constraint holds of the table of timestamps.
    pub open spec fn satisfied_by(&self, timestamps: Seq<Option<u64>>) -> bool {
        forall|c: int|
            0 <= c < self.edge_orders@.len() ==> constraint_met(
                #[trigger] self.edge_orders@[c],
                timestamps,
            )
    }

    /// Every constraint holds of the edges of the list: where the list
    /// matches both pattern edges of a constraint, their timestamps come in
    /// the order asked for.
    pub open spec fn respected_by(&self, list: Seq<MatchEdge>) -> bool {
        forall|c: int, k: int, l: int|
            #![trigger self.edge_orders@[c], list[k], list[l]]
            0 <= c < self.edge_orders@.len() && 0 <= k < list.len() && 0 <= l < list.len()
                && list[k].matched.id == self.edge_orders@[c].0 && list[l].matched.id
                == self.edge_orders@[c].1 ==> in_order(
                self.edge_orders@[c].2,
                list[k].input_edge.timestamp,
                list[l].input_edge.timestamp,
            )
    }

    /// A table that records a list satisfies the relation exactly when the
    /// list respects it.
    pub proof fn lemma_table_speaks_for_list(&self, timestamps: Seq<Option<u64>>, list: Seq<MatchEdge>)
        requires
            records(timestamps, list),
        ensures
            self.satisfied_by(timestamps) <==> self.respected_by(list),
    {
        if self.satisfied_by(timestamps) {
            assert forall|c: int, k: int, l: int|
                #![trigger self.edge_orders@[c], list[k], list[l]]
                0 <= c < self.edge_orders@.len() && 0 <= k < list.len() && 0 <= l < list.len()
                    && list[k].matched.id == self.edge_orders@[c].0 && list[l].matched.id
                    == self.edge_orders@[c].1 implies in_order(
                self.edge_orders@[c].2,
                list[k].input_edge.timestamp,
                list[l].input_edge.timestamp,
            ) by {
                assert(constraint_met(self.edge_orders@[c], timestamps));
            }
        }
        if self.respected_by(list) {
            assert forall|c: int| 0 <= c < self.edge_orders@.len() implies constraint_met(
                #[trigger] self.edge_orders@[c],
                timestamps,
            ) by {
                let constraint = self.edge_orders@[c];
                if recorded(timestamps, constraint.0 as int) is Some && recorded(
                    timestamps,
                    constraint.1 as int,
                ) is Some {
                    let keys = edge_keys(list);
                    assert(timestamps[constraint.0 as int] is Some);
                    assert(timestamps[constraint.1 as int] is Some);
                    let k = choose|k: int| 0 <= k < keys.len() && #[trigger] keys[k].1 == constraint.0 as int;
                    let l = choose|l: int| 0 <= l < keys.len() && #[trigger] keys[l].1 == constraint.1 as int;
                    assert(list[k].matched.id == constraint.0);
                    assert(list[l].matched.id == constraint.1);
                    assert(self.edge_orders@[c] == constraint && list[k] == list[k] && list[l]
                        == list[l]);
                }
            }
        }
    }

    /// Tells whether every constraint holds of the table of timestamps.
    pub fn check_order_relation(&self, timestamps: &Vec<Option<u64>>) -> (met: bool)
        ensures
            met == self.satisfied_by(timestamps@),
    {
        let mut c: usize = 0;
        while c < self.edge_orders.len()
            invariant
                0 <= c <= self.edge_orders@.len(),
                forall|d: int|
                    0 <= d < c ==> constraint_met(#[trigger] self.edge_orders@[d], timestamps@),
            decreases self.edge_orders@.len() - c,
        {
            let (first_id, second_id, order) = self.edge_orders[c];
            if first_id < timestamps.len() && second_id < timestamps.len() {
                match (timestamps[first_id], timestamps[second_id]) {
                    (Some(first), Some(second)) => {
                        let met = match order {
                            TimeOrder::FirstToSecond => first <= second,
                            TimeOrder::SecondToFirst => first >= second,
                        };
                        if !met {
                            assert(!constraint_met(self.edge_orders@[c as int], timestamps@));
                            return false;
                        }
                    },
                    _ => {},
                }
            }
            c += 1;
        }
        true
    }

    /// Tells whether both siblings hold pattern node `id`.
    pub fn is_node_shared(&self, id: usize) -> (shared: bool)
        ensures
            shared == (id < self.shared_nodes@.len() && self.shared_nodes@[id as int]),
    {
        id < self.shared_nodes.len() && self.shared_nodes[id]
    }
}

/// The constraint is one that the order of the pattern asks between the two
/// sets of pattern edges: its first edge is of the left set and its second
/// of the right set, and one of the two comes before the other in the
/// order, but not the other way round; the constraint names the way.
pub open spec fn asked(
    order: &OrderRelation,
    left: Set<usize>,
    right: Set<usize>,
    constraint: (usize, usize, TimeOrder),
) -> bool {
    &&& left.contains(constraint.0)
    &&& right.contains(constraint.1)
    &&& match constraint.2 {
        TimeOrder::FirstToSecond => order.precedes(constraint.0 as int, constraint.1 as int)
            && !order.precedes(constraint.1 as int, constraint.0 as int),
        TimeOrder::SecondToFirst => order.precedes(constraint.1 as int, constraint.0 as int)
            && !order.precedes(constraint.0 as int, constraint.1 as int),
    }
}

/// The set holds the pattern nodes at the ends of the pattern edges of the
/// sub-pattern and no others.
pub open spec fn has_nodes_of(node_ids: Set<usize>, sub_pattern: SubPattern) -> bool {
    forall|n: usize|
        node_ids.contains(n) <==> exists|k: int|
            0 <= k < sub_pattern.edges@.len() && (#[trigger] sub_pattern.edges@[k].start == n
                || sub_pattern.edges@[k].end == n)
}

/// No two constraints of the list are between the same two pattern edges.
pub open spec fn once_each(orders: Seq<(usize, usize, TimeOrder)>) -> bool {
    forall|c: int, d: int|
        0 <= c < d < orders.len() ==> !((#[trigger] orders[c]).0 == (#[trigger] orders[d]).0
            && orders[c].1 == orders[d].1)
}

/// `x` is one of the first `n` ids of the list.
pub open spec fn seen(ids: Seq<usize>, n: int, x: usize) -> bool {
    exists|i: int| 0 <= i < n && i < ids.len() && #[trigger] ids[i] == x
}

/// The list holds a constraint between the two pattern edges.
pub open spec fn constrains(orders: Seq<(usize, usize, TimeOrder)>, a: usize, b: usize) -> bool {
    exists|c: int| 0 <= c < orders.len() && (#[trigger] orders[c]).0 == a && orders[c].1 == b
}

impl Relation {
    /// The relation is the one between a left buffer and a right buffer: it
    /// flags the pattern nodes that both hold, and its constraints are those
    /// that the order of the pattern asks between their pattern edges, all
    /// of them, one for each pair of pattern edges.
    pub open spec fn relates(
        &self,
        order: &OrderRelation,
        num_nodes: nat,
        left_nodes: Set<usize>,
        right_nodes: Set<usize>,
        left_edges: Set<usize>,
        right_edges: Set<usize>,
    ) -> bool {
        &&& self.shared_nodes@.len() == num_nodes
        &&& forall|n: int|
            0 <= n < num_nodes ==> (#[trigger] self.shared_nodes@[n] <==> left_nodes.contains(
                n as usize,
            ) && right_nodes.contains(n as usize))
        &&& forall|c: int|
            0 <= c < self.edge_orders@.len() ==> asked(
                order,
                left_edges,
                right_edges,
                #[trigger] self.edge_orders@[c],
            )
        &&& forall|a: usize, b: usize|
            left_edges.contains(a) && right_edges.contains(b) && (order.precedes(a as int, b as int)
                != order.precedes(b as int, a as int)) ==> #[trigger] constrains(
                self.edge_orders@,
                a,
                b,
            )
        &&& once_each(self.edge_orders@)
    }
}

/// Puts every id of `source` into `target`.
fn add_all(target: &mut HashSet<usize>, source: &HashSet<usize>)
    ensures
        final(target)@ == old(target)@.union(source@),
{
    let ghost given = target@;
    let ghost keys = source.iter().remaining().unref();
    let ghost mut count: int = 0;
    for id in it: source.iter()
        invariant
            keys.to_set() == source@,
            it.seq().unref() == keys,
            count == it.index(),
            0 <= count <= keys.len(),
            target@ == given.union(keys.take(count).to_set()),
    {
        target.insert(*id);
        proof {
            let seen = keys.take(count);
            let more = keys.take(count + 1);
            assert(more == seen.push(*id));
            assert(target@ =~= given.union(more.to_set())) by {
                assert forall|v: usize| target@.contains(v) <==> given.union(more.to_set()).contains(
                    v,
                ) by {
                    if seen.contains(v) {
                        let i = choose|i: int| 0 <= i < seen.len() && seen[i] == v;
                        assert(more[i] == v);
                    }
                    if more.contains(v) {
                        let i = choose|i: int| 0 <= i < more.len() && more[i] == v;
                        if i < seen.len() {
                            assert(seen[i] == v);
                        }
                    }
                    if v == *id {
                        assert(more[count] == v);
                    }
                }
            }
            count = count + 1;
        }
    }
    proof {
        assert(keys.take(keys.len() as int) == keys);
    }
}

/// One buffer of the join tree, with the scratch space its merges use.
pub struct SubPatternBuffer<'p> {
    pub id: usize,
    pub sibling_id: usize,
    /// Ids of the pattern nodes of the sub-patterns below this buffer.
    pub node_id_list: HashSet<usize>,
    /// Ids of the pattern edges of the sub-patterns below this buffer.
    pub edge_id_list: HashSet<usize>,
    /// The matches kept for later merges.
    pub buffer: Vec<SubPatternMatch<'p>>,
    /// The matches of the batch under way, not merged with the sibling yet.
    pub new_match_buffer: Vec<SubPatternMatch<'p>>,
    pub relation: Relation,
    /// Number of nodes in the whole pattern.
    pub max_num_nodes: usize,
    /// `used_nodes[p]` is set while pattern node `p` is paired in the merge
    /// under way.
    pub used_nodes: Vec<bool>,
    /// `timestamps[p]` holds the timestamp matched to pattern edge `p` in the
    /// merge under way.
    pub timestamps: Vec<Option<u64>>,
}

impl<'p> SubPatternBuffer<'p> {
    /// No pattern node is marked as used.
    pub open spec fn nodes_clear(&self) -> bool {
        forall|p: int| 0 <= p < self.used_nodes@.len() ==> !#[trigger] self.used_nodes@[p]
    }

    /// No timestamp is recorded.
    pub open spec fn times_clear(&self) -> bool {
        forall|p: int| 0 <= p < self.timestamps@.len() ==> (#[trigger] self.timestamps@[p]) is None
    }

    /// Everything but the scratch space is as in `other`, and the scratch
    /// space has the size it has there.
    pub open spec fn same_but_scratch(&self, other: &Self) -> bool {
        &&& self.id == other.id
        &&& self.sibling_id == other.sibling_id
        &&& self.node_id_list == other.node_id_list
        &&& self.edge_id_list == other.edge_id_list
        &&& self.buffer == other.buffer
        &&& self.new_match_buffer == other.new_match_buffer
        &&& self.relation == other.relation
        &&& self.max_num_nodes == other.max_num_nodes
        &&& self.used_nodes@.len() == other.used_nodes@.len()
        &&& self.timestamps@.len() == other.timestamps@.len()
    }

    /// Everything but the matches kept is as in `other`.
    pub open spec fn but_buffer(&self, other: &Self) -> bool {
        &&& self.id == other.id
        &&& self.sibling_id == other.sibling_id
        &&& self.node_id_list == other.node_id_list
        &&& self.edge_id_list == other.edge_id_list
        &&& self.new_match_buffer == other.new_match_buffer
        &&& self.relation == other.relation
        &&& self.max_num_nodes == other.max_num_nodes
        &&& self.used_nodes == other.used_nodes
        &&& self.timestamps == other.timestamps
    }

    /// An empty buffer for one sub-pattern, with clean scratch space for a
    /// pattern of `max_num_nodes` nodes and `max_num_edges` edges.
    pub fn new(
        id: usize,
        sibling_id: usize,
        sub_pattern: &SubPattern,
        max_num_nodes: usize,
        max_num_edges: usize,
    ) -> (buffer: Self)
        ensures
            buffer.id == id,
            buffer.sibling_id == sibling_id,
            buffer.max_num_nodes == max_num_nodes,
            buffer.buffer@.len() == 0,
            buffer.new_match_buffer@.len() == 0,
            buffer.relation.edge_orders@.len() == 0,
            buffer.relation.shared_nodes@.len() == 0,
            buffer.used_nodes@.len() == max_num_nodes,
            buffer.timestamps@.len() == max_num_edges,
            buffer.nodes_clear(),
            buffer.times_clear(),
            has_nodes_of(buffer.node_id_list@, *sub_pattern),
            forall|e: usize|
                buffer.edge_id_list@.contains(e) <==> exists|k: int|
                    0 <= k < sub_pattern.edges@.len() && #[trigger] sub_pattern.edges@[k].id == e,
    {
        let mut node_id_list: HashSet<usize> = HashSet::new();
        let mut edge_id_list: HashSet<usize> = HashSet::new();
        let mut k: usize = 0;
        while k < sub_pattern.edges.len()
            invariant
                0 <= k <= sub_pattern.edges@.len(),
                forall|n: usize|
                    node_id_list@.contains(n) <==> exists|q: int|
                        0 <= q < k && (#[trigger] sub_pattern.edges@[q].start == n
                            || sub_pattern.edges@[q].end == n),
                forall|e: usize|
                    edge_id_list@.contains(e) <==> exists|q: int|
                        0 <= q < k && #[trigger] sub_pattern.edges@[q].id == e,
            decreases sub_pattern.edges@.len() - k,
        {
            let edge = sub_pattern.edges[k];
            let ghost nodes_before = node_id_list@;
            let ghost edges_before = edge_id_list@;
            node_id_list.insert(edge.start);
            node_id_list.insert(edge.end);
            edge_id_list.insert(edge.id);
            proof {
                assert forall|n: usize| node_id_list@.contains(n) <==> exists|q: int|
                    0 <= q < k + 1 && (#[trigger] sub_pattern.edges@[q].start == n
                        || sub_pattern.edges@[q].end == n) by {
                    if nodes_before.contains(n) {
                        let q = choose|q: int|
                            0 <= q < k && (#[trigger] sub_pattern.edges@[q].start == n
                                || sub_pattern.edges@[q].end == n);
                        assert(sub_pattern.edges@[q].start == n || sub_pattern.edges@[q].end == n);
                    }
                    if edge.start == n || edge.end == n {
                        assert(sub_pattern.edges@[k as int].start == n || sub_pattern.edges@[k as int].end
                            == n);
                    }
                }
                assert forall|e: usize| edge_id_list@.contains(e) <==> exists|q: int|
                    0 <= q < k + 1 && #[trigger] sub_pattern.edges@[q].id == e by {
                    if edges_before.contains(e) {
                        let q = choose|q: int| 0 <= q < k && #[trigger] sub_pattern.edges@[q].id == e;
                        assert(sub_pattern.edges@[q].id == e);
                    }
                    if edge.id == e {
                        assert(sub_pattern.edges@[k as int].id == e);
                    }
                }
            }
            k += 1;
        }
        Self {
            id,
            sibling_id,
            node_id_list,
            edge_id_list,
            buffer: Vec::new(),
            new_match_buffer: Vec::new(),
            relation: Relation::new(),
            max_num_nodes,
            used_nodes: vec![false; max_num_nodes],
            timestamps: vec![None; max_num_edges],
        }
    }

    /// The relation between a left buffer and a right buffer: the pattern
    /// nodes that both hold, and for each pattern edge of the left and each
    /// of the right the order of time that the pattern asks of the two,
    /// where it asks one.
    pub fn generate_relations(
        pattern: &Pattern,
        sub_pattern_buffer1: &SubPatternBuffer,
        sub_pattern_buffer2: &SubPatternBuffer,
        distances_table: &DistanceTable,
    ) -> (relation: Relation)
        requires
            distances_table.wf(),
            distances_table.rules@ == pattern.order.rules(),
        ensures
            relation.relates(
                &pattern.order,
                pattern.num_nodes as nat,
                sub_pattern_buffer1.node_id_list@,
                sub_pattern_buffer2.node_id_list@,
                sub_pattern_buffer1.edge_id_list@,
                sub_pattern_buffer2.edge_id_list@,
            ),
    {
        let mut shared_nodes: Vec<bool> = Vec::new();
        let mut n: usize = 0;
        while n < pattern.num_nodes
            invariant
                0 <= n <= pattern.num_nodes,
                shared_nodes@.len() == n,
                forall|m: int|
                    0 <= m < n ==> (#[trigger] shared_nodes@[m]
                        <==> sub_pattern_buffer1.node_id_list@.contains(m as usize)
                        && sub_pattern_buffer2.node_id_list@.contains(m as usize)),
            decreases pattern.num_nodes - n,
        {
            let shared = sub_pattern_buffer1.node_id_list.contains(&n)
                && sub_pattern_buffer2.node_id_list.contains(&n);
            shared_nodes.push(shared);
            n += 1;
        }
        let mut edge_orders: Vec<(usize, usize, TimeOrder)> = Vec::new();
        let ghost order = &pattern.order;
        let ghost left = sub_pattern_buffer1.edge_id_list@;
        let ghost right = sub_pattern_buffer2.edge_id_list@;
        let ghost keys1 = sub_pattern_buffer1.edge_id_list.iter().remaining().unref();
        let ghost keys2 = sub_pattern_buffer2.edge_id_list.iter().remaining().unref();
        let ghost mut count1: int = 0;
        for eid1 in it1: sub_pattern_buffer1.edge_id_list.iter()
            invariant
                distances_table.wf(),
                distances_table.rules@ == order.rules(),
                order == &pattern.order,
                left == sub_pattern_buffer1.edge_id_list@,
                right == sub_pattern_buffer2.edge_id_list@,
                keys1.to_set() == left,
                keys2.to_set() == right,
                keys2 == sub_pattern_buffer2.edge_id_list.iter().remaining().unref(),
                it1.seq().unref() == keys1,
                count1 == it1.index(),
                0 <= count1 <= keys1.len(),
                keys1.no_duplicates(),
                keys2.no_duplicates(),
                once_each(edge_orders@),
                forall|c: int|
                    0 <= c < edge_orders@.len() ==> seen(keys1, count1, (#[trigger] edge_orders@[c]).0),
                forall|c: int|
                    0 <= c < edge_orders@.len() ==> asked(order, left, right, #[trigger] edge_orders@[c]),
                forall|i: int, a: usize, b: usize|
                    0 <= i < count1 && #[trigger] keys1[i] == a && right.contains(b) && (order.precedes(
                        a as int,
                        b as int,
                    ) != order.precedes(b as int, a as int)) ==> #[trigger] constrains(
                        edge_orders@,
                        a,
                        b,
                    ),
        {
            let ghost mut count2: int = 0;
            let ghost outer = edge_orders@;
            proof {
                assert(keys1[count1] == *eid1);
                assert(keys1.contains(*eid1));
            }
            for eid2 in it2: sub_pattern_buffer2.edge_id_list.iter()
                invariant
                    distances_table.wf(),
                    distances_table.rules@ == order.rules(),
                    left.contains(*eid1),
                    keys2.to_set() == right,
                    it2.seq().unref() == keys2,
                    count2 == it2.index(),
                    0 <= count2 <= keys2.len(),
                    0 <= count1 < keys1.len(),
                    keys1[count1] == *eid1,
                    keys1.no_duplicates(),
                    keys2.no_duplicates(),
                    once_each(edge_orders@),
                    outer.len() <= edge_orders@.len(),
                    forall|c: int|
                        0 <= c < outer.len() ==> seen(keys1, count1, (#[trigger] edge_orders@[c]).0),
                    forall|c: int|
                        outer.len() <= c < edge_orders@.len() ==> (#[trigger] edge_orders@[c]).0 == *eid1
                            && seen(keys2, count2, edge_orders@[c].1),
                    forall|c: int|
                        0 <= c < edge_orders@.len() ==> asked(
                            order,
                            left,
                            right,
                            #[trigger] edge_orders@[c],
                        ),
                    forall|a: usize, b: usize|
                        constrains(outer, a, b) ==> #[trigger] constrains(edge_orders@, a, b),
                    forall|j: int, b: usize|
                        0 <= j < count2 && #[trigger] keys2[j] == b && (order.precedes(
                            *eid1 as int,
                            b as int,
                        ) != order.precedes(b as int, *eid1 as int)) ==> #[trigger] constrains(
                            edge_orders@,
                            *eid1,
                            b,
                        ),
            {
                let ghost before = edge_orders@;
                proof {
                    assert(keys2[count2] == *eid2);
                    assert(keys2.contains(*eid2));
                }
                let distance_1_2 = distances_table.get(*eid1, *eid2);
                let distance_2_1 = distances_table.get(*eid2, *eid1);
                if distance_1_2 == UNREACHABLE && distance_2_1 != UNREACHABLE {
                    edge_orders.push((*eid1, *eid2, TimeOrder::SecondToFirst));
                } else if distance_1_2 != UNREACHABLE && distance_2_1 == UNREACHABLE {
                    edge_orders.push((*eid1, *eid2, TimeOrder::FirstToSecond));
                }
                proof {
                    assert forall|a: usize, b: usize| constrains(before, a, b) implies #[trigger] constrains(
                        edge_orders@,
                        a,
                        b,
                    ) by {
                        let c = choose|c: int|
                            0 <= c < before.len() && (#[trigger] before[c]).0 == a && before[c].1 == b;
                        assert(edge_orders@[c] == before[c]);
                    }
                    if order.precedes(*eid1 as int, *eid2 as int) != order.precedes(
                        *eid2 as int,
                        *eid1 as int,
                    ) {
                        assert(edge_orders@[before.len() as int].0 == *eid1);
                        assert(constrains(edge_orders@, *eid1, *eid2));
                    }
                    assert forall|c: int| 0 <= c < edge_orders@.len() implies asked(
                        order,
                        left,
                        right,
                        #[trigger] edge_orders@[c],
                    ) by {
                        if c < before.len() {
                            assert(edge_orders@[c] == before[c]);
                        }
                    }
                    assert forall|j: int, b: usize|
                        0 <= j < count2 + 1 && #[trigger] keys2[j] == b && (order.precedes(
                            *eid1 as int,
                            b as int,
                        ) != order.precedes(b as int, *eid1 as int)) implies #[trigger] constrains(
                        edge_orders@,
                        *eid1,
                        b,
                    ) by {
                        if j < count2 {
                            assert(constrains(before, *eid1, b));
                        }
                    }
                    assert forall|c: int| 0 <= c < outer.len() implies seen(
                        keys1,
                        count1,
                        (#[trigger] edge_orders@[c]).0,
                    ) by {
                        assert(edge_orders@[c] == before[c]);
                    }
                    assert forall|c: int| outer.len() <= c < edge_orders@.len() implies (
                    #[trigger] edge_orders@[c]).0 == *eid1 && seen(keys2, count2 + 1, edge_orders@[c].1) by {
                        if c < before.len() {
                            assert(edge_orders@[c] == before[c]);
                            assert(seen(keys2, count2, before[c].1));
                            let j = choose|j: int| 0 <= j < count2 && j < keys2.len() && #[trigger] keys2[j] == before[c].1;
                            assert(keys2[j] == before[c].1);
                        } else {
                            assert(keys2[count2] == edge_orders@[c].1);
                        }
                    }
                    assert(once_each(edge_orders@)) by {
                        assert forall|c: int, d: int| 0 <= c < d < edge_orders@.len() implies !((
                        #[trigger] edge_orders@[c]).0 == (#[trigger] edge_orders@[d]).0 && edge_orders@[c].1
                            == edge_orders@[d].1) by {
                            if d < before.len() {
                                assert(edge_orders@[c] == before[c] && edge_orders@[d] == before[d]);
                            } else {
                                assert(edge_orders@[c] == before[c]);
                                assert(edge_orders@[d].0 == *eid1 && edge_orders@[d].1 == *eid2);
                                if c < outer.len() {
                                    assert(seen(keys1, count1, before[c].0));
                                    let i = choose|i: int| 0 <= i < count1 && i < keys1.len() && #[trigger] keys1[i] == before[c].0;
                                    assert(keys1[i] != keys1[count1]);
                                } else {
                                    assert(seen(keys2, count2, before[c].1));
                                    let j = choose|j: int| 0 <= j < count2 && j < keys2.len() && #[trigger] keys2[j] == before[c].1;
                                    assert(keys2[j] != keys2[count2]);
                                }
                            }
                        }
                    }
                    count2 = count2 + 1;
                }
            }
            proof {
                assert forall|i: int, a: usize, b: usize|
                    0 <= i < count1 + 1 && #[trigger] keys1[i] == a && right.contains(b) && (
                    order.precedes(a as int, b as int) != order.precedes(
                        b as int,
                        a as int,
                    )) implies #[trigger] constrains(edge_orders@, a, b) by {
                    if i < count1 {
                        assert(constrains(outer, a, b));
                    } else {
                        assert(keys2.contains(b));
                        let j = choose|j: int| 0 <= j < keys2.len() && keys2[j] == b;
                        assert(keys2[j] == b);
                    }
                }
                assert forall|c: int| 0 <= c < edge_orders@.len() implies seen(
                    keys1,
                    count1 + 1,
                    (#[trigger] edge_orders@[c]).0,
                ) by {
                    if c < outer.len() {
                        let i = choose|i: int|
                            0 <= i < count1 && i < keys1.len() && #[trigger] keys1[i] == edge_orders@[c].0;
                        assert(keys1[i] == edge_orders@[c].0);
                    } else {
                        assert(keys1[count1] == edge_orders@[c].0);
                    }
                }
                count1 = count1 + 1;
            }
        }
        proof {
            assert forall|a: usize, b: usize|
                left.contains(a) && right.contains(b) && (order.precedes(a as int, b as int)
                    != order.precedes(b as int, a as int)) implies #[trigger] constrains(
                edge_orders@,
                a,
                b,
            ) by {
                assert(keys1.contains(a));
                let i = choose|i: int| 0 <= i < keys1.len() && keys1[i] == a;
                assert(keys1[i] == a);
            }
        }
        Relation { shared_nodes, edge_orders }
    }

    /// The buffer above two sibling buffers: it stands for the pattern
    /// nodes and pattern edges of both, and is empty.
    pub fn merge_buffers(
        sub_pattern_buffer1: &SubPatternBuffer,
        sub_pattern_buffer2: &SubPatternBuffer,
    ) -> (buffer: Self)
        requires
            sub_pattern_buffer1.id + 2 <= usize::MAX,
            sub_pattern_buffer2.id + 2 <= usize::MAX,
        ensures
            buffer.id == if sub_pattern_buffer1.id >= sub_pattern_buffer2.id {
                sub_pattern_buffer1.id + 1
            } else {
                sub_pattern_buffer2.id + 1
            },
            buffer.sibling_id == buffer.id + 1,
            buffer.node_id_list@ == sub_pattern_buffer1.node_id_list@.union(
                sub_pattern_buffer2.node_id_list@,
            ),
            buffer.edge_id_list@ == sub_pattern_buffer1.edge_id_list@.union(
                sub_pattern_buffer2.edge_id_list@,
            ),
            buffer.buffer@.len() == 0,
            buffer.new_match_buffer@.len() == 0,
            buffer.relation.edge_orders@.len() == 0,
            buffer.relation.shared_nodes@.len() == 0,
            buffer.max_num_nodes == sub_pattern_buffer1.max_num_nodes,
            buffer.used_nodes@.len() == sub_pattern_buffer1.max_num_nodes,
            buffer.timestamps@.len() == sub_pattern_buffer1.timestamps@.len(),
            buffer.nodes_clear(),
            buffer.times_clear(),
    {
        let mut node_id_list: HashSet<usize> = HashSet::new();
        let mut edge_id_list: HashSet<usize> = HashSet::new();
        add_all(&mut node_id_list, &sub_pattern_buffer1.node_id_list);
        add_all(&mut node_id_list, &sub_pattern_buffer2.node_id_list);
        add_all(&mut edge_id_list, &sub_pattern_buffer1.edge_id_list);
        add_all(&mut edge_id_list, &sub_pattern_buffer2.edge_id_list);
        let id = if sub_pattern_buffer1.id >= sub_pattern_buffer2.id {
            sub_pattern_buffer1.id + 1
        } else {
            sub_pattern_buffer2.id + 1
        };
        let mut timestamps: Vec<Option<u64>> = Vec::new();
        let mut p: usize = 0;
        while p < sub_pattern_buffer1.timestamps.len()
            invariant
                0 <= p <= sub_pattern_buffer1.timestamps@.len(),
                timestamps@.len() == p,
                forall|q: int| 0 <= q < p ==> (#[trigger] timestamps@[q]) is None,
            decreases sub_pattern_buffer1.timestamps@.len() - p,
        {
            timestamps.push(None);
            p += 1;
        }
        proof {
            assert(Set::<usize>::empty().union(sub_pattern_buffer1.node_id_list@).union(
                sub_pattern_buffer2.node_id_list@,
            ) == sub_pattern_buffer1.node_id_list@.union(sub_pattern_buffer2.node_id_list@));
            assert(Set::<usize>::empty().union(sub_pattern_buffer1.edge_id_list@).union(
                sub_pattern_buffer2.edge_id_list@,
            ) == sub_pattern_buffer1.edge_id_list@.union(sub_pattern_buffer2.edge_id_list@));
        }
        Self {
            id,
            sibling_id: id + 1,
            node_id_list,
            edge_id_list,
            buffer: Vec::new(),
            new_match_buffer: Vec::new(),
            relation: Relation::new(),
            max_num_nodes: sub_pattern_buffer1.max_num_nodes,
            used_nodes: vec![false; sub_pattern_buffer1.max_num_nodes],
            timestamps,
        }
    }

    /// Wipes the scratch space.
    pub fn clear_workspace(&mut self)
        ensures
            final(self).same_but_scratch(old(self)),
            final(self).nodes_clear(),
            final(self).times_clear(),
    {
        let mut p: usize = 0;
        while p < self.used_nodes.len()
            invariant
                self.same_but_scratch(old(self)),
                self.timestamps == old(self).timestamps,
                forall|q: int| 0 <= q < p && q < self.used_nodes@.len() ==> !#[trigger] self.used_nodes@[q],
            decreases self.used_nodes@.len() - p,
        {
            self.used_nodes.set(p, false);
            p += 1;
        }
        let mut p: usize = 0;
        while p < self.timestamps.len()
            invariant
                self.same_but_scratch(old(self)),
                self.nodes_clear(),
                forall|q: int|
                    0 <= q < p && q < self.timestamps@.len() ==> (#[trigger] self.timestamps@[q]) is None,
            decreases self.timestamps@.len() - p,
        {
            self.timestamps.set(p, None);
            p += 1;
        }
    }

    /// Takes back the timestamps that a merge recorded for the edges of
    /// `merged`.
    fn forget_times(&mut self, merged: &Vec<MatchEdge<'p>>)
        requires
            forall|k: int|
                0 <= k < merged@.len() ==> (#[trigger] merged@[k]).matched.id < old(
                    self,
                ).timestamps@.len(),
            forall|p: int|
                0 <= p < old(self).timestamps@.len() ==> ((#[trigger] old(self).timestamps@[p]) is Some
                    ==> binds(edge_keys(merged@), p)),
        ensures
            final(self).times_clear(),
            final(self).same_but_scratch(old(self)),
            final(self).used_nodes == old(self).used_nodes,
    {
        let mut k: usize = 0;
        while k < merged.len()
            invariant
                0 <= k <= merged@.len(),
                self.same_but_scratch(old(self)),
                self.used_nodes == old(self).used_nodes,
                forall|k: int|
                    0 <= k < merged@.len() ==> (#[trigger] merged@[k]).matched.id
                        < self.timestamps@.len(),
                forall|p: int|
                    0 <= p < self.timestamps@.len() && (#[trigger] self.timestamps@[p]) is Some
                        ==> exists|q: int|
                        k <= q < merged@.len() && (#[trigger] merged@[q]).matched.id == p,
            decreases merged@.len() - k,
        {
            let ghost table = self.timestamps@;
            let slot = merged[k].matched.id;
            self.timestamps.set(slot, None);
            proof {
                assert forall|p: int|
                    0 <= p < self.timestamps@.len() && (#[trigger] self.timestamps@[p]) is Some implies exists|
                    q: int,
                | k + 1 <= q < merged@.len() && (#[trigger] merged@[q]).matched.id == p by {
                    assert(table[p] is Some);
                    let q = choose|q: int|
                        k <= q < merged@.len() && (#[trigger] merged@[q]).matched.id == p;
                    assert(q != k);
                }
            }
            k += 1;
        }
        proof {
            assert forall|p: int| 0 <= p < self.timestamps@.len() implies (
            #[trigger] self.timestamps@[p]) is None by {
                if self.timestamps@[p] is Some {
                    let q = choose|q: int|
                        k <= q < merged@.len() && (#[trigger] merged@[q]).matched.id == p;
                }
            }
        }
    }

    /// Merges two sorted edge lists into one, or finds that they cannot be
    /// merged: together they must pair input edges and pattern edges one to
    /// one. After a merge the table of timestamps records the edges of the
    /// result; after a refusal it records nothing.
    pub fn try_merge_match_edges(&mut self, a: &[MatchEdge<'p>], b: &[MatchEdge<'p>]) -> (merged:
        Option<Vec<MatchEdge<'p>>>)
        requires
            old(self).times_clear(),
            sorted_by_input(edge_keys(a@)),
            sorted_by_input(edge_keys(b@)),
            forall|i: int| 0 <= i < a@.len() ==> (#[trigger] a@[i]).matched.id < old(self).timestamps@.len(),
            forall|j: int| 0 <= j < b@.len() ==> (#[trigger] b@[j]).matched.id < old(self).timestamps@.len(),
        ensures
            final(self).same_but_scratch(old(self)),
            final(self).used_nodes == old(self).used_nodes,
            merged is Some <==> mergeable(edge_keys(a@), edge_keys(b@)),
            merged matches Some(list) ==> {
                &&& list@ == merged_edges(a@, b@)
                &&& records(final(self).timestamps@, list@)
            },
            merged is None ==> final(self).times_clear(),
    {
        let mut merged: Vec<MatchEdge<'p>> = Vec::new();
        let mut i: usize = 0;
        let mut j: usize = 0;
        let ghost keys_a = edge_keys(a@);
        let ghost keys_b = edge_keys(b@);
        proof {
            lemma_progress_start(keys_a, keys_b);
            lemma_merged_edges_ends(a@, b@, merged@);
            assert(edge_keys(merged@) == Seq::<(u64, u64)>::empty());
        }
        while i < a.len() || j < b.len()
            invariant
                0 <= i <= a@.len(),
                0 <= j <= b@.len(),
                self.same_but_scratch(old(self)),
                self.used_nodes == old(self).used_nodes,
                keys_a == edge_keys(a@),
                keys_b == edge_keys(b@),
                sorted_by_input(keys_a),
                sorted_by_input(keys_b),
                forall|i: int| 0 <= i < a@.len() ==> (#[trigger] a@[i]).matched.id < self.timestamps@.len(),
                forall|j: int| 0 <= j < b@.len() ==> (#[trigger] b@[j]).matched.id < self.timestamps@.len(),
                merged@ + merged_edges(a@.skip(i as int), b@.skip(j as int)) == merged_edges(
                    a@,
                    b@,
                ),
                records(self.timestamps@, merged@),
                merge_progress(keys_a, keys_b, edge_keys(merged@), i as int, j as int),
            decreases a@.len() - i + b@.len() - j,
        {
            let ghost before = merged@;
            let ghost table = self.timestamps@;
            let in_a = i < a.len();
            let in_b = j < b.len();
            let from_a = in_a && (!in_b || a[i].input_edge.id <= b[j].input_edge.id);
            let from_b = in_b && (!in_a || b[j].input_edge.id <= a[i].input_edge.id);
            if from_a && from_b && a[i].matched.id != b[j].matched.id {
                proof {
                    assert(keys_a[i as int].0 == keys_b[j as int].0);
                    assert(keys_a[i as int].1 != keys_b[j as int].1);
                    assert(!agree(keys_a, keys_b));
                }
                self.forget_times(&merged);
                return None;
            }
            let edge = if from_a {
                &a[i]
            } else {
                &b[j]
            };
            let slot = edge.matched.id;
            let repeated = merged.len() > 0 && merged[merged.len() - 1].input_edge.id
                == edge.input_edge.id;
            let used = self.timestamps[slot].is_some();
            proof {
                assert(edge_key(*edge) == if from_a {
                    keys_a[i as int]
                } else {
                    keys_b[j as int]
                });
                assert(used <==> binds(edge_keys(before), edge_key(*edge).1 as int)) by {
                    assert(table[slot as int] is Some <==> binds(edge_keys(before), slot as int));
                }
                assert(repeated <==> edge_keys(before).len() > 0 && edge_keys(before).last().0
                    == edge_key(*edge).0);
            }
            if repeated || used {
                proof {
                    lemma_refusal(keys_a, keys_b, edge_keys(before), i as int, j as int, from_a, from_b);
                }
                self.forget_times(&merged);
                return None;
            }
            self.timestamps.set(slot, Some(edge.input_edge.timestamp));
            merged.push(edge.clone());
            proof {
                assert(edge_keys(merged@) == edge_keys(before).push(edge_key(*edge)));
                lemma_merged_edges_advance(a@, b@, before, i as int, j as int, from_a, from_b);
                lemma_admission(keys_a, keys_b, edge_keys(before), i as int, j as int, from_a, from_b);
                lemma_record(table, before, *edge);
            }
            if from_a {
                i += 1;
            }
            if from_b {
                j += 1;
            }
        }
        proof {
            lemma_progress_done(keys_a, keys_b, edge_keys(merged@));
            lemma_merged_edges_ends(a@, b@, merged@);
        }
        Some(merged)
    }

    /// Takes back the marks that a merge left for the pattern nodes of `merged`.
    fn unmark_nodes(&mut self, merged: &Vec<(u64, u64)>)
        requires
            forall|k: int| 0 <= k < merged@.len() ==> merged@[k].1 < old(self).used_nodes@.len(),
            forall|p: int|
                0 <= p < old(self).used_nodes@.len() ==> (#[trigger] old(self).used_nodes@[p]
                    ==> binds(merged@, p)),
        ensures
            final(self).nodes_clear(),
            final(self).same_but_scratch(old(self)),
            final(self).timestamps == old(self).timestamps,
    {
        let mut k: usize = 0;
        while k < merged.len()
            invariant
                0 <= k <= merged@.len(),
                self.same_but_scratch(old(self)),
                self.timestamps == old(self).timestamps,
                forall|k: int| 0 <= k < merged@.len() ==> merged@[k].1 < self.used_nodes@.len(),
                forall|p: int|
                    0 <= p < self.used_nodes@.len() && #[trigger] self.used_nodes@[p]
                        ==> exists|q: int| k <= q < merged@.len() && #[trigger] merged@[q].1 == p,
            decreases merged@.len() - k,
        {
            let ghost marks = self.used_nodes@;
            let limit = self.used_nodes.len();
            assert(merged@[k as int].1 < limit);
            let slot = merged[k].1 as usize;
            self.used_nodes.set(slot, false);
            proof {
                assert forall|p: int|
                    0 <= p < self.used_nodes@.len() && #[trigger] self.used_nodes@[p] implies exists|
                    q: int,
                | k + 1 <= q < merged@.len() && #[trigger] merged@[q].1 == p by {
                    assert(marks[p]);
                    let q = choose|q: int| k <= q < merged@.len() && #[trigger] merged@[q].1 == p;
                    assert(q != k);
                }
            }
            k += 1;
        }
    }

    /// Merges two sorted node lists into one, or finds that they cannot be
    /// merged: together they must pair input nodes and pattern nodes one to
    /// one. After a merge the pattern nodes of the result are marked as used;
    /// after a refusal no node is marked.
    pub fn try_merge_nodes(&mut self, a: &[(u64, u64)], b: &[(u64, u64)]) -> (merged: Option<
        Vec<(u64, u64)>,
    >)
        requires
            old(self).nodes_clear(),
            sorted_by_input(a@),
            sorted_by_input(b@),
            forall|i: int| 0 <= i < a@.len() ==> a@[i].1 < old(self).used_nodes@.len(),
            forall|j: int| 0 <= j < b@.len() ==> b@[j].1 < old(self).used_nodes@.len(),
        ensures
            final(self).same_but_scratch(old(self)),
            final(self).timestamps == old(self).timestamps,
            merged is Some <==> mergeable(a@, b@),
            merged matches Some(list) ==> {
                &&& list@ == merged_pairs(a@, b@)
                &&& forall|p: int|
                    0 <= p < final(self).used_nodes@.len() ==> (#[trigger] final(self).used_nodes@[p]
                        <==> binds(list@, p))
            },
            merged is None ==> final(self).nodes_clear(),
    {
        let mut merged: Vec<(u64, u64)> = Vec::new();
        let mut i: usize = 0;
        let mut j: usize = 0;
        proof {
            lemma_progress_start(a@, b@);
        }
        while i < a.len() || j < b.len()
            invariant
                0 <= i <= a@.len(),
                0 <= j <= b@.len(),
                self.same_but_scratch(old(self)),
                self.timestamps == old(self).timestamps,
                sorted_by_input(a@),
                sorted_by_input(b@),
                forall|i: int| 0 <= i < a@.len() ==> a@[i].1 < self.used_nodes@.len(),
                forall|j: int| 0 <= j < b@.len() ==> b@[j].1 < self.used_nodes@.len(),
                merged@ + merged_pairs(a@.skip(i as int), b@.skip(j as int)) == merged_pairs(
                    a@,
                    b@,
                ),
                forall|p: int|
                    0 <= p < self.used_nodes@.len() ==> (#[trigger] self.used_nodes@[p]
                        <==> binds(merged@, p)),
                merge_progress(a@, b@, merged@, i as int, j as int),
                forall|k: int| 0 <= k < merged@.len() ==> merged@[k].1 < self.used_nodes@.len(),
            decreases a@.len() - i + b@.len() - j,
        {
            let ghost before = merged@;
            let ghost marks = self.used_nodes@;
            let in_a = i < a.len();
            let in_b = j < b.len();
            let from_a = in_a && (!in_b || a[i].0 <= b[j].0);
            let from_b = in_b && (!in_a || b[j].0 <= a[i].0);
            if from_a && from_b && a[i].1 != b[j].1 {
                proof {
                    assert(!agree(a@, b@));
                }
                self.unmark_nodes(&merged);
                return None;
            }
            let node = if from_a {
                a[i]
            } else {
                b[j]
            };
            let limit = self.used_nodes.len();
            assert(node.1 < limit);
            let slot = node.1 as usize;
            let repeated = merged.len() > 0 && merged[merged.len() - 1].0 == node.0;
            let used = self.used_nodes[slot];
            proof {
                assert(used <==> binds(before, node.1 as int)) by {
                    assert(marks[slot as int] <==> binds(before, slot as int));
                }
                assert(repeated <==> before.len() > 0 && before.last().0 == node.0);
            }
            if repeated || used {
                proof {
                    lemma_refusal(a@, b@, before, i as int, j as int, from_a, from_b);
                }
                self.unmark_nodes(&merged);
                return None;
            }
            self.used_nodes.set(slot, true);
            merged.push(node);
            proof {
                lemma_merged_advance(a@, b@, before, i as int, j as int, from_a, from_b);
                lemma_admission(a@, b@, before, i as int, j as int, from_a, from_b);
                lemma_mark(marks, before, node);
            }
            if from_a {
                i += 1;
            }
            if from_b {
                j += 1;
            }
        }
        proof {
            lemma_progress_done(a@, b@, merged@);
            lemma_merged_done(a@, b@, merged@);
        }
        Some(merged)
    }
}

} // verus!
