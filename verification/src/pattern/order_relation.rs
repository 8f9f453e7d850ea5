use crate::pattern::json::{
    json_as_u64, json_entries, json_index, json_items, json_of, json_parse, json_parsed,
    member_or_null, number_of, same_text, text_to_u32, Json,
};
use crate::pattern::parser::PatternParsingError;
use petgraph::graph::Graph;
use petgraph::Directed;
use serde_json::Value;
use vstd::prelude::*;

verus! {

#[verifier::external_type_specification]
#[verifier::external_body]
pub struct ExDirected(Directed);

#[verifier::external_type_specification]
#[verifier::external_body]
#[verifier::reject_recursive_types(N)]
#[verifier::reject_recursive_types(E)]
#[verifier::reject_recursive_types(Ty)]
#[verifier::reject_recursive_types(Ix)]
pub struct ExGraph<N, E, Ty, Ix>(Graph<N, E, Ty, Ix>);

/// The edges of the graph as pairs `(source, target)` of node indices, in
/// the order in which they were added.
pub uninterp spec fn graph_edges(graph: Graph<usize, (), Directed, u32>) -> Seq<(u32, u32)>;

/// The number of nodes of the graph.
pub uninterp spec fn graph_nodes(graph: Graph<usize, (), Directed, u32>) -> nat;

/// Rules are pairs `(from, to)`. The ends of the rules that leave `e`, the
/// latest rule first.
pub open spec fn next_of(rules: Seq<(int, int)>, e: int) -> Seq<int>
    decreases rules.len(),
{
    if rules.len() == 0 {
        Seq::empty()
    } else if rules.last().0 == e {
        seq![rules.last().1] + next_of(rules.drop_last(), e)
    } else {
        next_of(rules.drop_last(), e)
    }
}

/// The starts of the rules that enter `e`, the latest rule first.
pub open spec fn previous_of(rules: Seq<(int, int)>, e: int) -> Seq<int>
    decreases rules.len(),
{
    if rules.len() == 0 {
        Seq::empty()
    } else if rules.last().1 == e {
        seq![rules.last().0] + previous_of(rules.drop_last(), e)
    } else {
        previous_of(rules.drop_last(), e)
    }
}

/// `b` is reached from `a` by following exactly `n` rules.
pub open spec fn reaches_in(rules: Seq<(int, int)>, a: int, b: int, n: nat) -> bool
    decreases n,
{
    if n == 0 {
        a == b
    } else {
        exists|k: int|
            0 <= k < rules.len() && (#[trigger] rules[k]).0 == a && reaches_in(
                rules,
                rules[k].1,
                b,
                (n - 1) as nat,
            )
    }
}

/// `b` is reached from `a` by following rules.
pub open spec fn reaches(rules: Seq<(int, int)>, a: int, b: int) -> bool {
    exists|n: nat| reaches_in(rules, a, b, n)
}

/// The least number of rules to follow from `a` to `b`, if `b` is reached.
pub open spec fn hops(rules: Seq<(int, int)>, a: int, b: int) -> Option<nat> {
    if reaches(rules, a, b) {
        Some(
            choose|n: nat|
                reaches_in(rules, a, b, n) && forall|m: nat| m < n ==> !reaches_in(rules, a, b, m),
        )
    } else {
        None
    }
}

/// The distance that stands for "not reached".
pub const UNREACHABLE: i32 = i32::MAX;

/// The least number of rules to follow from `a` to `b`, or `UNREACHABLE`.
pub open spec fn distance(rules: Seq<(int, int)>, a: int, b: int) -> int {
    match hops(rules, a, b) {
        Some(n) => n as int,
        None => UNREACHABLE as int,
    }
}

/// No node is reached from itself by following one rule or more.
pub open spec fn acyclic(rules: Seq<(int, int)>) -> bool {
    forall|a: int, n: nat| n > 0 ==> !reaches_in(rules, a, a, n)
}

/// The pairs of node indices as pairs of integers.
pub open spec fn as_rules(edges: Seq<(u32, u32)>) -> Seq<(int, int)> {
    Seq::new(edges.len(), |k: int| (edges[k].0 as int, edges[k].1 as int))
}

/// The node ids as integers.
pub open spec fn as_ints(ids: Seq<usize>) -> Seq<int> {
    Seq::new(ids.len(), |k: int| ids[k] as int)
}

/// One more than the greatest node index that the edges name; 0 without
/// edges.
pub open spec fn span(edges: Seq<(u32, u32)>) -> nat
    decreases edges.len(),
{
    if edges.len() == 0 {
        0
    } else {
        let rest = span(edges.drop_last());
        let here = if edges.last().0 >= edges.last().1 {
            edges.last().0 + 1
        } else {
            edges.last().1 + 1
        };
        if rest >= here {
            rest
        } else {
            here as nat
        }
    }
}

/// The list has an entry for the pair of nodes `(a, b)`.
pub open spec fn listed(list: Seq<(usize, usize, i32)>, a: int, b: int) -> bool {
    exists|k: int| 0 <= k < list.len() && (#[trigger] list[k]).0 == a && list[k].1 == b
}

/// `Graph::from_edges`: the graph holds the given edges in the given order,
/// and as many nodes as the greatest index asks for. The crate panics where
/// a node or edge index would reach `u32::MAX`.
#[verifier::external_body]
fn graph_from_edges(edges: &Vec<(u32, u32)>) -> (graph: Graph<usize, (), Directed, u32>)
    requires
        edges@.len() <= u32::MAX,
        forall|k: int|
            0 <= k < edges@.len() ==> (#[trigger] edges@[k]).0 < u32::MAX && edges@[k].1 < u32::MAX,
    ensures
        graph_edges(graph) == edges@,
        graph_nodes(graph) == span(edges@),
{
    Graph::from_edges(edges)
}

/// `Graph::node_count`.
#[verifier::external_body]
fn graph_node_count(graph: &Graph<usize, (), Directed, u32>) -> (count: usize)
    ensures
        count == graph_nodes(*graph),
{
    graph.node_count()
}

/// `Graph::neighbors`: the targets of the edges that leave node `a`, the
/// edge added last first; none where the graph has no node `a`.
#[verifier::external_body]
fn graph_successors(graph: &Graph<usize, (), Directed, u32>, a: usize) -> (targets: Vec<usize>)
    requires
        a < u32::MAX,
    ensures
        as_ints(targets@) == next_of(as_rules(graph_edges(*graph)), a as int),
{
    graph.neighbors(petgraph::graph::NodeIndex::new(a)).map(|n| n.index()).collect()
}

/// `Graph::neighbors_directed` with `Incoming`: the sources of the edges
/// that enter node `a`, the edge added last first; none where the graph has
/// no node `a`.
#[verifier::external_body]
fn graph_predecessors(graph: &Graph<usize, (), Directed, u32>, a: usize) -> (sources: Vec<usize>)
    requires
        a < u32::MAX,
    ensures
        as_ints(sources@) == previous_of(as_rules(graph_edges(*graph)), a as int),
{
    graph.neighbors_directed(petgraph::graph::NodeIndex::new(a), petgraph::Direction::Incoming).map(
        |n| n.index(),
    ).collect()
}

/// Every edge of the order relation costs one step.
fn unit_cost() -> (cost: i32)
    ensures
        cost == 1,
{
    1
}

/// `petgraph::algo::floyd_warshall` with every edge at cost 1: one entry
/// `(a, b, d)` for every pair of nodes, in no stated order, where `d` is the
/// least number of edges to follow from `a` to `b`, or `i32::MAX` where
/// there is no way. With costs that are not negative the crate finds no
/// negative cycle, so it returns a table.
#[verifier::external_body]
fn graph_distances(graph: &Graph<usize, (), Directed, u32>) -> (entries: Option<
    Vec<(usize, usize, i32)>,
>)
    requires
        graph_nodes(*graph) <= i32::MAX,
    ensures
        entries is Some,
        entries matches Some(list) ==> {
            &&& forall|k: int|
                0 <= k < list@.len() ==> {
                    &&& (#[trigger] list@[k]).0 < graph_nodes(*graph)
                    &&& list@[k].1 < graph_nodes(*graph)
                    &&& list@[k].2 == distance(
                        as_rules(graph_edges(*graph)),
                        list@[k].0 as int,
                        list@[k].1 as int,
                    )
                    &&& reaches(as_rules(graph_edges(*graph)), list@[k].0 as int, list@[k].1 as int)
                        ==> list@[k].2 < UNREACHABLE
                }
            &&& forall|a: int, b: int|
                0 <= a < graph_nodes(*graph) && 0 <= b < graph_nodes(*graph) ==> #[trigger] listed(
                    list@,
                    a,
                    b,
                )
        },
{
    petgraph::algo::floyd_warshall(graph, |_| unit_cost()).ok().map(
        |table| table.into_iter().map(|((a, b), d)| (a.index(), b.index(), d)).collect(),
    )
}

/// Each id one less: from the nodes of the graph back to pattern edges.
pub open spec fn one_less(ids: Seq<int>) -> Seq<int> {
    Seq::new(ids.len(), |k: int| ids[k] - 1)
}

/// The ids without the root, which is node 0 of the graph.
pub open spec fn without_root(ids: Seq<int>) -> Seq<int>
    decreases ids.len(),
{
    if ids.len() == 0 {
        Seq::empty()
    } else if ids.last() == 0 {
        without_root(ids.drop_last())
    } else {
        without_root(ids.drop_last()).push(ids.last())
    }
}

/// The order rules `(a, b)` between pattern edges as edges of the graph.
pub open spec fn numbered(order_rules: Seq<(u32, u32)>) -> Seq<(int, int)> {
    Seq::new(order_rules.len(), |k: int| (order_rules[k].0 + 1, order_rules[k].1 + 1))
}

/// The edges of the graph that hang the given pattern edges below the root.
pub open spec fn rooted(roots: Seq<u32>) -> Seq<(int, int)> {
    Seq::new(roots.len(), |k: int| (0, roots[k] + 1))
}

/// A rule runs from `from` to `to`.
pub open spec fn has_rule(rules: Seq<(int, int)>, from: int, to: int) -> bool {
    exists|k: int| 0 <= k < rules.len() && (#[trigger] rules[k]).0 == from && rules[k].1 == to
}

/// Every item of `next_of` is the end of a rule that leaves `e`.
pub proof fn lemma_next_are_ends(rules: Seq<(int, int)>, e: int)
    ensures
        forall|i: int|
            0 <= i < next_of(rules, e).len() ==> has_rule(rules, e, #[trigger] next_of(rules, e)[i]),
    decreases rules.len(),
{
    if rules.len() > 0 {
        let rest = rules.drop_last();
        lemma_next_are_ends(rest, e);
        assert forall|i: int| 0 <= i < next_of(rules, e).len() implies has_rule(
            rules,
            e,
            #[trigger] next_of(rules, e)[i],
        ) by {
            if rules.last().0 == e && i == 0 {
                assert(rules[rules.len() - 1].0 == e);
                assert(next_of(rules, e)[0] == rules[rules.len() - 1].1);
            } else {
                let shift = if rules.last().0 == e { 1int } else { 0int };
                let earlier = next_of(rest, e)[i - shift];
                assert(next_of(rules, e)[i] == earlier);
                assert(has_rule(rest, e, earlier));
                let k = choose|k: int|
                    0 <= k < rest.len() && (#[trigger] rest[k]).0 == e && rest[k].1 == earlier;
                assert(rules[k] == rest[k]);
                assert(rules[k].0 == e && rules[k].1 == next_of(rules, e)[i]);
            }
        }
    }
}

/// Every item of `previous_of` is the start of a rule that enters `e`.
pub proof fn lemma_previous_are_starts(rules: Seq<(int, int)>, e: int)
    ensures
        forall|i: int|
            0 <= i < previous_of(rules, e).len() ==> has_rule(
                rules,
                #[trigger] previous_of(rules, e)[i],
                e,
            ),
    decreases rules.len(),
{
    if rules.len() > 0 {
        let rest = rules.drop_last();
        lemma_previous_are_starts(rest, e);
        assert forall|i: int| 0 <= i < previous_of(rules, e).len() implies has_rule(
            rules,
            #[trigger] previous_of(rules, e)[i],
            e,
        ) by {
            if rules.last().1 == e && i == 0 {
                assert(rules[rules.len() - 1].1 == e);
                assert(previous_of(rules, e)[0] == rules[rules.len() - 1].0);
            } else {
                let shift = if rules.last().1 == e { 1int } else { 0int };
                let earlier = previous_of(rest, e)[i - shift];
                assert(previous_of(rules, e)[i] == earlier);
                assert(has_rule(rest, earlier, e));
                let k = choose|k: int|
                    0 <= k < rest.len() && (#[trigger] rest[k]).0 == earlier && rest[k].1 == e;
                assert(rules[k] == rest[k]);
                assert(rules[k].1 == e && rules[k].0 == previous_of(rules, e)[i]);
            }
        }
    }
}

/// Following `n` rules from `a` to `b` and `m` rules from `b` to `c` is
/// following `n + m` rules from `a` to `c`.
pub proof fn lemma_reaches_in_chain(rules: Seq<(int, int)>, a: int, b: int, c: int, n: nat, m: nat)
    requires
        reaches_in(rules, a, b, n),
        reaches_in(rules, b, c, m),
    ensures
        reaches_in(rules, a, c, n + m),
    decreases n,
{
    if n > 0 {
        let k = choose|k: int|
            0 <= k < rules.len() && (#[trigger] rules[k]).0 == a && reaches_in(
                rules,
                rules[k].1,
                b,
                (n - 1) as nat,
            );
        lemma_reaches_in_chain(rules, rules[k].1, b, c, (n - 1) as nat, m);
        assert(rules[k].0 == a && reaches_in(rules, rules[k].1, c, (n + m - 1) as nat));
    }
}

/// In an acyclic relation, of two different nodes at most one reaches the
/// other: their two distances are never both finite.
pub proof fn lemma_one_way(rules: Seq<(int, int)>, a: int, b: int)
    requires
        acyclic(rules),
        a != b,
    ensures
        !(reaches(rules, a, b) && reaches(rules, b, a)),
        distance(rules, a, b) == UNREACHABLE || distance(rules, b, a) == UNREACHABLE,
{
    if reaches(rules, a, b) && reaches(rules, b, a) {
        let n = choose|n: nat| reaches_in(rules, a, b, n);
        let m = choose|m: nat| reaches_in(rules, b, a, m);
        lemma_reaches_in_chain(rules, a, b, a, n, m);
        assert(n > 0);
    }
}

/// A node reaches itself in no step, so its distance to itself is 0.
pub proof fn lemma_distance_to_self(rules: Seq<(int, int)>, a: int)
    ensures
        distance(rules, a, a) == 0,
{
    assert(reaches_in(rules, a, a, 0));
    assert(reaches_in(rules, a, a, 0) && forall|m: nat| m < 0 ==> !reaches_in(rules, a, a, m));
}

/// A node that no rule leaves reaches no other node, and a node that no
/// rule enters is reached from no other node.
pub proof fn lemma_apart(rules: Seq<(int, int)>, a: int, b: int, n: nat)
    requires
        a != b,
        (forall|k: int| 0 <= k < rules.len() ==> (#[trigger] rules[k]).0 != a) || (forall|k: int|
            0 <= k < rules.len() ==> (#[trigger] rules[k]).1 != b),
    ensures
        !reaches_in(rules, a, b, n),
    decreases n,
{
    if n > 0 && reaches_in(rules, a, b, n) {
        let k = choose|k: int|
            0 <= k < rules.len() && (#[trigger] rules[k]).0 == a && reaches_in(
                rules,
                rules[k].1,
                b,
                (n - 1) as nat,
            );
        if rules[k].1 != b {
            lemma_apart(rules, rules[k].1, b, (n - 1) as nat);
        } else {
            assert(rules[k].1 == b);
        }
    }
}

/// Every edge names nodes below the span.
pub proof fn lemma_span(edges: Seq<(u32, u32)>)
    ensures
        forall|k: int| 0 <= k < edges.len() ==> (#[trigger] edges[k]).0 < span(edges) && edges[k].1 < span(edges),
    decreases edges.len(),
{
    if edges.len() > 0 {
        lemma_span(edges.drop_last());
        assert forall|k: int| 0 <= k < edges.len() implies (#[trigger] edges[k]).0 < span(edges)
            && edges[k].1 < span(edges) by {
            if k < edges.len() - 1 {
                assert(edges.drop_last()[k] == edges[k]);
            }
        }
    }
}

/// The span is no more than one above the greatest index.
pub proof fn lemma_span_bound(edges: Seq<(u32, u32)>, limit: nat)
    requires
        forall|k: int| 0 <= k < edges.len() ==> (#[trigger] edges[k]).0 < limit && edges[k].1 < limit,
    ensures
        span(edges) <= limit,
    decreases edges.len(),
{
    if edges.len() > 0 {
        assert forall|k: int| 0 <= k < edges.drop_last().len() implies (
        #[trigger] edges.drop_last()[k]).0 < limit && edges.drop_last()[k].1 < limit by {
            assert(edges.drop_last()[k] == edges[k]);
        }
        lemma_span_bound(edges.drop_last(), limit);
        assert(edges[edges.len() - 1].0 < limit);
    }
}

/// The node of the graph that a key of the order relation file names: the
/// root for `root`, else the pattern edge of that number.
pub open spec fn node_of_key(key: Seq<char>) -> Option<u32> {
    if key == "root"@ {
        Some(0)
    } else {
        match number_of(key) {
            Some(n) => if n + 1 < i32::MAX {
                Some((n + 1) as u32)
            } else {
                None
            },
            None => None,
        }
    }
}

/// The node of the graph that a child in the order relation file names:
/// the pattern edge of that number.
pub open spec fn node_of_child(child: Json) -> Option<u32> {
    match child {
        Json::Number { written, unsigned: Some(n) } => if n + 1 < i32::MAX {
            Some((n + 1) as u32)
        } else {
            None
        },
        _ => None,
    }
}

/// The edges of the graph from a node to its children; nothing where a
/// child is no number of a pattern edge.
pub open spec fn rules_to_children(from: u32, children: Seq<Json>) -> Option<Seq<(u32, u32)>>
    decreases children.len(),
{
    if children.len() == 0 {
        Some(Seq::empty())
    } else {
        match (rules_to_children(from, children.drop_last()), node_of_child(children.last())) {
            (Some(rules), Some(to)) => Some(rules.push((from, to))),
            _ => None,
        }
    }
}

/// The edges of the graph that one entry of the order relation file gives:
/// from the node of its key to each of its children.
pub open spec fn rules_of_entry(key: Seq<char>, value: Json) -> Option<Seq<(u32, u32)>> {
    match (member_or_null(value, "children"@), node_of_key(key)) {
        (Json::Array(children), Some(from)) => rules_to_children(from, children),
        _ => None,
    }
}

/// The edges of the graph that the entries of the order relation file
/// give, entry after entry.
pub open spec fn rules_of_entries(entries: Seq<(Seq<char>, Json)>) -> Option<Seq<(u32, u32)>>
    decreases entries.len(),
{
    if entries.len() == 0 {
        Some(Seq::empty())
    } else {
        match (
            rules_of_entries(entries.drop_last()),
            rules_of_entry(entries.last().0, entries.last().1),
        ) {
            (Some(before), Some(here)) => Some(before + here),
            _ => None,
        }
    }
}

/// The edges of the graph that an order relation file gives; nothing where
/// it is not an object of entries with children.
pub open spec fn order_rules_of(json: Json) -> Option<Seq<(u32, u32)>> {
    match json {
        Json::Object(entries) => rules_of_entries(entries),
        _ => None,
    }
}

/// The order in time that the pattern asks of its edges: which pattern edge
/// has to be matched no later than which. Inside, a graph holds one node for
/// each pattern edge and one for a root above them: the root is node 0, and
/// pattern edge `e` is node `e + 1`.
pub struct OrderRelation {
    graph: Graph<usize, (), Directed, u32>,
}

/// All-pairs distances of an order relation: the least number of rules to
/// follow from one pattern edge to another.
pub struct DistanceTable {
    /// `table[a][b]` is the distance from node `a` to node `b` of the graph.
    pub table: Vec<Vec<i32>>,
    /// The edges of the graph that the distances are of.
    pub rules: Ghost<Seq<(int, int)>>,
}

impl DistanceTable {
    /// The table is square, covers every node that the rules name, and
    /// holds their distances.
    pub open spec fn wf(&self) -> bool {
        &&& forall|i: int|
            0 <= i < self.table@.len() ==> (#[trigger] self.table@[i])@.len() == self.table@.len()
        &&& forall|k: int|
            0 <= k < self.rules@.len() ==> 0 <= (#[trigger] self.rules@[k]).0 < self.table@.len() && 0
                <= self.rules@[k].1 < self.table@.len()
        &&& forall|i: int, j: int|
            0 <= i < self.table@.len() && 0 <= j < self.table@.len() ==> {
                &&& #[trigger] self.table@[i]@[j] == distance(self.rules@, i, j)
                &&& reaches(self.rules@, i, j) ==> self.table@[i]@[j] < UNREACHABLE
            }
    }

    /// The distance from pattern edge `a` to pattern edge `b`, `UNREACHABLE`
    /// where `a` does not come before `b`.
    pub fn get(&self, a: usize, b: usize) -> (d: i32)
        requires
            self.wf(),
        ensures
            d == distance(self.rules@, a + 1, b + 1),
            d < UNREACHABLE <==> reaches(self.rules@, a + 1, b + 1),
    {
        let n = self.table.len();
        if a < n - 0 && b < n - 0 && a + 1 < n && b + 1 < n {
            let d = self.table[a + 1][b + 1];
            proof {
                if !reaches(self.rules@, a + 1, b + 1) {
                    assert(hops(self.rules@, a + 1, b + 1) is None);
                }
            }
            d
        } else if a == b {
            proof {
                lemma_distance_to_self(self.rules@, a + 1);
                assert(reaches_in(self.rules@, a + 1, a + 1, 0));
            }
            0
        } else {
            proof {
                let from = a + 1;
                let to = b + 1;
                assert forall|m: nat| !#[trigger] reaches_in(self.rules@, from, to, m) by {
                    lemma_apart(self.rules@, from, to, m);
                }
                assert(hops(self.rules@, from, to) is None);
            }
            UNREACHABLE
        }
    }
}

impl OrderRelation {
    /// The edges of the graph inside, as pairs of node numbers, in the order
    /// in which they were added: the root is 0, pattern edge `e` is `e + 1`.
    pub closed spec fn rules(&self) -> Seq<(int, int)> {
        as_rules(graph_edges(self.graph))
    }

    /// The graph has the nodes that its edges name and no others, with
    /// indices that leave room below `i32::MAX`, and no edge enters the
    /// root.
    pub closed spec fn wf(&self) -> bool {
        &&& graph_nodes(self.graph) == span(graph_edges(self.graph))
        &&& graph_nodes(self.graph) <= i32::MAX
        &&& forall|k: int|
            0 <= k < graph_edges(self.graph).len() ==> (#[trigger] graph_edges(self.graph)[k]).1 >= 1
    }

    /// Pattern edge `a` has to be matched no later than pattern edge `b`:
    /// rules lead from `a` to `b`.
    pub open spec fn precedes(&self, a: int, b: int) -> bool {
        reaches(self.rules(), a + 1, b + 1)
    }

    /// The pattern edges that the rules put right after `e`, the latest rule
    /// first.
    pub open spec fn next(&self, e: int) -> Seq<int> {
        one_less(next_of(self.rules(), e + 1))
    }

    /// The pattern edges that the rules put right before `e`, the latest
    /// rule first.
    pub open spec fn previous(&self, e: int) -> Seq<int> {
        one_less(without_root(previous_of(self.rules(), e + 1)))
    }

    /// The pattern edges right below the root, the latest rule first.
    pub open spec fn roots(&self) -> Seq<int> {
        one_less(next_of(self.rules(), 0))
    }

    /// In a sound relation every rule runs between nodes from 0 up, below
    /// `i32::MAX`, and ends at a pattern edge.
    pub proof fn lemma_rules_in_range(&self)
        requires
            self.wf(),
        ensures
            forall|k: int|
                0 <= k < self.rules().len() ==> 0 <= (#[trigger] self.rules()[k]).0 < i32::MAX && 1
                    <= self.rules()[k].1 < i32::MAX,
    {
        lemma_span(graph_edges(self.graph));
        assert forall|k: int| 0 <= k < self.rules().len() implies 0 <= (#[trigger] self.rules()[k]).0
            < i32::MAX && 1 <= self.rules()[k].1 < i32::MAX by {
            assert(graph_edges(self.graph)[k].1 >= 1);
        }
    }

    /// The number of nodes of the graph inside: one more than the greatest
    /// node that a rule names, 0 where there is no rule.
    pub closed spec fn spec_size(&self) -> nat {
        graph_nodes(self.graph)
    }

    /// The number of nodes of the graph inside.
    pub fn size(&self) -> (count: usize)
        ensures
            count == self.spec_size(),
    {
        graph_node_count(&self.graph)
    }

    /// Every rule runs between nodes below the size.
    pub proof fn lemma_size(&self)
        requires
            self.wf(),
        ensures
            forall|k: int|
                0 <= k < self.rules().len() ==> (#[trigger] self.rules()[k]).0 < self.spec_size()
                    && self.rules()[k].1 < self.spec_size(),
    {
        lemma_span(graph_edges(self.graph));
        assert forall|k: int| 0 <= k < self.rules().len() implies (#[trigger] self.rules()[k]).0
            < self.spec_size() && self.rules()[k].1 < self.spec_size() by {
            assert(graph_edges(self.graph)[k].0 < span(graph_edges(self.graph)));
        }
    }

    /// The pattern edges right after a pattern edge are the ends of rules:
    /// they are ids from 0 up, and their nodes are below the size.
    pub proof fn lemma_next_in_range(&self, e: int)
        requires
            self.wf(),
        ensures
            forall|i: int|
                0 <= i < self.next(e).len() ==> 0 <= #[trigger] self.next(e)[i] < self.spec_size() - 1,
    {
        self.lemma_rules_in_range();
        self.lemma_size();
        lemma_next_are_ends(self.rules(), e + 1);
        let ends = next_of(self.rules(), e + 1);
        assert forall|i: int| 0 <= i < self.next(e).len() implies 0 <= #[trigger] self.next(e)[i]
            < self.spec_size() - 1 by {
            assert(has_rule(self.rules(), e + 1, ends[i]));
            let k = choose|k: int|
                0 <= k < self.rules().len() && (#[trigger] self.rules()[k]).0 == e + 1
                    && self.rules()[k].1 == ends[i];
        }
    }

    /// The ids with one taken off each.
    fn to_pattern_edges(nodes: Vec<usize>) -> (ids: Vec<usize>)
        requires
            forall|k: int| 0 <= k < nodes@.len() ==> nodes@[k] >= 1,
        ensures
            as_ints(ids@) == one_less(as_ints(nodes@)),
    {
        let mut ids: Vec<usize> = Vec::new();
        let mut k: usize = 0;
        while k < nodes.len()
            invariant
                0 <= k <= nodes@.len(),
                forall|k: int| 0 <= k < nodes@.len() ==> nodes@[k] >= 1,
                ids@.len() == k,
                forall|q: int| 0 <= q < k ==> ids@[q] == nodes@[q] - 1,
            decreases nodes@.len() - k,
        {
            ids.push(nodes[k] - 1);
            k += 1;
        }
        proof {
            assert(as_ints(ids@) =~= one_less(as_ints(nodes@)));
        }
        ids
    }

    /// The ids of the pattern edges that the rules put right before pattern
    /// edge `eid`.
    pub fn get_previous(&self, eid: usize) -> (ids: Vec<usize>)
        requires
            self.wf(),
        ensures
            as_ints(ids@) == self.previous(eid as int),
    {
        proof {
            self.lemma_rules_in_range();
        }
        if eid >= 0x7fff_fffe {
            proof {
                lemma_previous_are_starts(self.rules(), eid + 1);
                assert(previous_of(self.rules(), eid + 1).len() == 0) by {
                    if previous_of(self.rules(), eid + 1).len() > 0 {
                        let start = previous_of(self.rules(), eid + 1)[0];
                        assert(has_rule(self.rules(), start, eid + 1));
                        let k = choose|k: int|
                            0 <= k < self.rules().len() && (#[trigger] self.rules()[k]).0 == start
                                && self.rules()[k].1 == eid + 1;
                    }
                }
                assert(as_ints(Seq::<usize>::empty()) =~= self.previous(eid as int));
            }
            return Vec::new();
        }
        let sources = graph_predecessors(&self.graph, eid + 1);
        let ghost all = as_ints(sources@);
        let mut kept: Vec<usize> = Vec::new();
        let mut q: usize = 0;
        while q < sources.len()
            invariant
                0 <= q <= sources@.len(),
                all == as_ints(sources@),
                as_ints(kept@) == without_root(all.take(q as int)),
            decreases sources@.len() - q,
        {
            proof {
                assert(all.take(q + 1).drop_last() == all.take(q as int));
                assert(all.take(q + 1).last() == sources@[q as int]);
            }
            if sources[q] > 0 {
                kept.push(sources[q]);
                proof {
                    assert(as_ints(kept@) =~= without_root(all.take(q as int)).push(
                        sources@[q as int] as int,
                    ));
                }
            }
            q += 1;
        }
        proof {
            assert(all.take(sources@.len() as int) == all);
            lemma_without_root_positive(all);
            assert forall|k: int| 0 <= k < kept@.len() implies kept@[k] >= 1 by {
                assert(as_ints(kept@)[k] == kept@[k]);
            }
        }
        Self::to_pattern_edges(kept)
    }

    /// The ids of the pattern edges that the rules put right after pattern
    /// edge `eid`.
    pub fn get_next(&self, eid: usize) -> (ids: Vec<usize>)
        requires
            self.wf(),
        ensures
            as_ints(ids@) == self.next(eid as int),
    {
        proof {
            self.lemma_rules_in_range();
            lemma_next_are_ends(self.rules(), eid + 1);
        }
        if eid >= 0x7fff_fffe {
            proof {
                assert(next_of(self.rules(), eid + 1).len() == 0) by {
                    if next_of(self.rules(), eid + 1).len() > 0 {
                        let end = next_of(self.rules(), eid + 1)[0];
                        assert(has_rule(self.rules(), eid + 1, end));
                        let k = choose|k: int|
                            0 <= k < self.rules().len() && (#[trigger] self.rules()[k]).0 == eid + 1
                                && self.rules()[k].1 == end;
                    }
                }
                assert(as_ints(Seq::<usize>::empty()) =~= self.next(eid as int));
            }
            return Vec::new();
        }
        let targets = graph_successors(&self.graph, eid + 1);
        proof {
            assert forall|i: int| 0 <= i < targets@.len() implies targets@[i] >= 1 by {
                let end = next_of(self.rules(), eid + 1)[i];
                assert(has_rule(self.rules(), eid + 1, end));
                let k = choose|k: int|
                    0 <= k < self.rules().len() && (#[trigger] self.rules()[k]).0 == eid + 1
                        && self.rules()[k].1 == end;
                assert(as_ints(targets@)[i] == self.rules()[k].1);
            }
        }
        Self::to_pattern_edges(targets)
    }

    /// The ids of the pattern edges right below the root.
    pub fn get_roots(&self) -> (ids: Vec<usize>)
        requires
            self.wf(),
        ensures
            as_ints(ids@) == self.roots(),
    {
        proof {
            self.lemma_rules_in_range();
            lemma_next_are_ends(self.rules(), 0);
        }
        let targets = graph_successors(&self.graph, 0);
        proof {
            assert forall|i: int| 0 <= i < targets@.len() implies targets@[i] >= 1 by {
                let end = next_of(self.rules(), 0)[i];
                assert(has_rule(self.rules(), 0, end));
                let k = choose|k: int|
                    0 <= k < self.rules().len() && (#[trigger] self.rules()[k]).0 == 0
                        && self.rules()[k].1 == end;
                assert(as_ints(targets@)[i] == self.rules()[k].1);
            }
        }
        Self::to_pattern_edges(targets)
    }

    /// Builds the relation from rules `(a, b)`, "pattern edge `a` comes no
    /// later than pattern edge `b`", and from the pattern edges that hang
    /// right below the root. The ids have to leave room for the root and
    /// stay below `i32::MAX` as nodes of the graph.
    pub fn from_order_rules(order_rules: &[(u32, u32)], roots: &[u32]) -> (relation: Self)
        requires
            order_rules@.len() + roots@.len() <= u32::MAX,
            forall|k: int|
                0 <= k < order_rules@.len() ==> (#[trigger] order_rules@[k]).0 + 1 < i32::MAX
                    && order_rules@[k].1 + 1 < i32::MAX,
            forall|k: int| 0 <= k < roots@.len() ==> #[trigger] roots@[k] + 1 < i32::MAX,
        ensures
            relation.wf(),
            relation.rules() == numbered(order_rules@) + rooted(roots@),
    {
        let mut edges: Vec<(u32, u32)> = Vec::new();
        let mut k: usize = 0;
        while k < order_rules.len()
            invariant
                0 <= k <= order_rules@.len(),
                forall|k: int|
                    0 <= k < order_rules@.len() ==> (#[trigger] order_rules@[k]).0 + 1 < i32::MAX
                        && order_rules@[k].1 + 1 < i32::MAX,
                edges@.len() == k,
                forall|q: int|
                    0 <= q < k ==> (#[trigger] edges@[q]).0 == order_rules@[q].0 + 1 && edges@[q].1
                        == order_rules@[q].1 + 1,
            decreases order_rules@.len() - k,
        {
            let (a, b) = order_rules[k];
            edges.push((a + 1, b + 1));
            k += 1;
        }
        let mut k: usize = 0;
        while k < roots.len()
            invariant
                0 <= k <= roots@.len(),
                forall|k: int| 0 <= k < roots@.len() ==> #[trigger] roots@[k] + 1 < i32::MAX,
                edges@.len() == order_rules@.len() + k,
                forall|q: int|
                    0 <= q < order_rules@.len() ==> (#[trigger] edges@[q]).0 == order_rules@[q].0 + 1
                        && edges@[q].1 == order_rules@[q].1 + 1,
                forall|q: int|
                    0 <= q < k ==> (#[trigger] edges@[order_rules@.len() + q]).0 == 0
                        && edges@[order_rules@.len() + q].1 == roots@[q] + 1,
            decreases roots@.len() - k,
        {
            edges.push((0, roots[k] + 1));
            k += 1;
        }
        proof {
            assert forall|q: int| 0 <= q < edges@.len() implies (#[trigger] edges@[q]).0 < i32::MAX
                && 1 <= edges@[q].1 < i32::MAX by {
                if q >= order_rules@.len() {
                    assert(edges@[order_rules@.len() + (q - order_rules@.len())].0 == 0);
                }
            }
            lemma_span_bound(edges@, i32::MAX as nat);
            assert(as_rules(edges@) =~= numbered(order_rules@) + rooted(roots@)) by {
                assert forall|q: int| 0 <= q < edges@.len() implies as_rules(edges@)[q] == (numbered(
                    order_rules@,
                ) + rooted(roots@))[q] by {
                    if q >= order_rules@.len() {
                        assert(edges@[order_rules@.len() + (q - order_rules@.len())].0 == 0);
                    }
                }
            }
        }
        Self { graph: graph_from_edges(&edges) }
    }

    /// The edges of the graph that an order relation file gives: each key
    /// names a pattern edge, or the root, and lists under `children` the
    /// pattern edges that come right after it.
    pub fn parse_json_obj(json_obj: &Value) -> (rules: Option<Vec<(u32, u32)>>)
        ensures
            rules is Some <==> order_rules_of(json_of(*json_obj)) is Some,
            rules matches Some(list) ==> order_rules_of(json_of(*json_obj)) == Some(list@),
    {
        let mut orel_edges: Vec<(u32, u32)> = Vec::new();
        let entries = match json_entries(json_obj) {
            Some(entries) => entries,
            None => {
                return None;
            },
        };
        let ghost all = Seq::new(entries@.len(), |i: int| (entries@[i].0@, json_of(*entries@[i].1)));
        let mut e: usize = 0;
        proof {
            let given = match json_of(*json_obj) {
                Json::Object(given) => given,
                _ => Seq::empty(),
            };
            assert(given =~= all);
            assert(all.take(0) == Seq::<(Seq<char>, Json)>::empty());
        }
        while e < entries.len()
            invariant
                0 <= e <= entries@.len(),
                all == Seq::new(entries@.len(), |i: int| (entries@[i].0@, json_of(*entries@[i].1))),
                json_of(*json_obj) == Json::Object(all),
                rules_of_entries(all.take(e as int)) == Some(orel_edges@),
            decreases entries@.len() - e,
        {
            let key = entries[e].0;
            let val = entries[e].1;
            let ghost before = orel_edges@;
            proof {
                assert(all.take(e + 1).drop_last() == all.take(e as int));
                assert(all.take(e + 1).last() == (key@, json_of(*val)));
                lemma_rules_unreadable(all, e + 1);
            }
            let ghost more = all.take(e + 1);
            let children = match json_items(json_index(val, "children")) {
                Some(children) => children,
                None => {
                    proof {
                        assert(rules_of_entry(key@, json_of(*val)) is None);
                        assert(rules_of_entries(more) is None);
                    }
                    return None;
                },
            };
            let ghost items = Seq::new(children@.len(), |i: int| json_of(*children@[i]));
            let cur_id: u32 = if same_text(key.as_str(), "root") {
                0
            } else {
                match text_to_u32(key.as_str()) {
                    Some(id) => {
                        if id >= 0x7fff_fffe {
                            proof {
                                assert(node_of_key(key@) is None);
                                assert(rules_of_entry(key@, json_of(*val)) is None);
                                assert(rules_of_entries(more) is None);
                            }
                            return None;
                        }
                        id + 1
                    },
                    None => {
                        proof {
                            assert(node_of_key(key@) is None);
                            assert(rules_of_entry(key@, json_of(*val)) is None);
                            assert(rules_of_entries(more) is None);
                        }
                        return None;
                    },
                }
            };
            proof {
                assert(node_of_key(key@) == Some(cur_id));
                let given = match member_or_null(json_of(*val), "children"@) {
                    Json::Array(given) => given,
                    _ => Seq::empty(),
                };
                assert(given =~= items);
                assert(member_or_null(json_of(*val), "children"@) == Json::Array(items));
            }
            let mut c: usize = 0;
            proof {
                assert(items.take(0) == Seq::<Json>::empty());
                assert(before + Seq::<(u32, u32)>::empty() == before);
            }
            while c < children.len()
                invariant
                    0 <= c <= children@.len(),
                    items == Seq::new(children@.len(), |i: int| json_of(*children@[i])),
                    json_of(*json_obj) == Json::Object(all),
                    more == all.take(e + 1),
                    more.len() == e + 1,
                    more.drop_last() == all.take(e as int),
                    more.last() == (key@, json_of(*val)),
                    rules_of_entries(all.take(e as int)) == Some(before),
                    rules_of_entries(more) is None ==> rules_of_entries(all) is None,
                    node_of_key(key@) == Some(cur_id),
                    member_or_null(json_of(*val), "children"@) == Json::Array(items),
                    rules_to_children(cur_id, items.take(c as int)) is Some,
                    orel_edges@ == before + rules_to_children(cur_id, items.take(c as int)).unwrap(),
                decreases children@.len() - c,
            {
                proof {
                    assert(items.take(c + 1).drop_last() == items.take(c as int));
                    assert(items.take(c + 1).last() == json_of(*children@[c as int]));
                    lemma_children_unreadable(cur_id, items, c + 1);
                }
                let child_id = match json_as_u64(children[c]) {
                    Some(child_id) => child_id,
                    None => {
                        proof {
                            assert(node_of_child(json_of(*children@[c as int])) is None);
                            assert(rules_to_children(cur_id, items.take(c + 1)) is None);
                            assert(rules_of_entry(key@, json_of(*val)) is None);
                            assert(rules_of_entries(more) is None);
                        }
                        return None;
                    },
                };
                if child_id >= 0x7fff_fffe {
                    proof {
                        assert(node_of_child(json_of(*children@[c as int])) is None);
                        assert(rules_to_children(cur_id, items.take(c + 1)) is None);
                        assert(rules_of_entry(key@, json_of(*val)) is None);
                        assert(rules_of_entries(more) is None);
                    }
                    return None;
                }
                let ghost so_far = orel_edges@;
                orel_edges.push((cur_id, (child_id + 1) as u32));
                proof {
                    let found = rules_to_children(cur_id, items.take(c as int)).unwrap();
                    assert(so_far.push((cur_id, (child_id + 1) as u32)) == before + found.push(
                        (cur_id, (child_id + 1) as u32),
                    ));
                }
                c += 1;
            }
            proof {
                assert(items.take(children@.len() as int) == items);
                assert(rules_of_entry(key@, json_of(*val)) == rules_to_children(cur_id, items));
            }
            e += 1;
        }
        proof {
            assert(all.take(entries@.len() as int) == all);
        }
        Some(orel_edges)
    }

    /// Reads an order relation file. The file has to be JSON, and to give
    /// fewer than `u32::MAX` rules between pattern edges with numbers that
    /// leave room for the root below `i32::MAX`.
    pub fn parse(order_relation: &str) -> (parsed: Result<Self, PatternParsingError>)
        ensures
            parsed is Ok <==> readable_order(order_relation@),
            parsed matches Ok(relation) ==> {
                &&& relation.wf()
                &&& relation.rules() == as_rules(
                    order_rules_of(json_parsed(order_relation@).unwrap()).unwrap(),
                )
            },
            parsed matches Err(error) ==> match error {
                PatternParsingError::SerdeError(inner) => json_parsed(order_relation@) is None,
                PatternParsingError::FormatError(line, message) => json_parsed(order_relation@) is Some
                    && line == 0 && message@ == "Json format of order relation file is not right."@,
            },
    {
        let json_obj = match json_parse(order_relation) {
            Ok(json_obj) => json_obj,
            Err(error) => {
                return Err(PatternParsingError::SerdeError(error));
            },
        };
        let orel_edges = match Self::parse_json_obj(&json_obj) {
            Some(orel_edges) => orel_edges,
            None => {
                return Err(
                    PatternParsingError::FormatError(
                        0,
                        "Json format of order relation file is not right.",
                    ),
                );
            },
        };
        if orel_edges.len() >= 0xffff_ffff {
            return Err(
                PatternParsingError::FormatError(
                    0,
                    "Json format of order relation file is not right.",
                ),
            );
        }
        proof {
            lemma_rules_in_bounds(json_of(json_obj));
            lemma_span_bound(orel_edges@, i32::MAX as nat);
        }
        Ok(Self { graph: graph_from_edges(&orel_edges) })
    }

    /// The distances between all pattern edges.
    pub fn calculate_distances(&self) -> (distances: Option<DistanceTable>)
        requires
            self.wf(),
        ensures
            distances matches Some(table) && table.wf() && table.rules@ == self.rules(),
    {
        let n = graph_node_count(&self.graph);
        let entries = match graph_distances(&self.graph) {
            Some(entries) => entries,
            None => {
                return None;
            },
        };
        let ghost rules = self.rules();
        let mut table: Vec<Vec<i32>> = Vec::new();
        let mut i: usize = 0;
        while i < n
            invariant
                0 <= i <= n,
                table@.len() == i,
                forall|r: int| 0 <= r < i ==> (#[trigger] table@[r])@.len() == n,
            decreases n - i,
        {
            let mut row: Vec<i32> = Vec::new();
            let mut j: usize = 0;
            while j < n
                invariant
                    0 <= j <= n,
                    row@.len() == j,
                decreases n - j,
            {
                row.push(UNREACHABLE);
                j += 1;
            }
            table.push(row);
            i += 1;
        }
        let mut k: usize = 0;
        while k < entries.len()
            invariant
                0 <= k <= entries@.len(),
                table@.len() == n,
                n == graph_nodes(self.graph),
                rules == self.rules(),
                forall|r: int| 0 <= r < n ==> (#[trigger] table@[r])@.len() == n,
                forall|q: int|
                    0 <= q < entries@.len() ==> {
                        &&& (#[trigger] entries@[q]).0 < n
                        &&& entries@[q].1 < n
                        &&& entries@[q].2 == distance(rules, entries@[q].0 as int, entries@[q].1 as int)
                        &&& reaches(rules, entries@[q].0 as int, entries@[q].1 as int) ==> entries@[q].2
                            < UNREACHABLE
                    },
                forall|a: int, b: int|
                    0 <= a < n && 0 <= b < n && listed(entries@.take(k as int), a, b) ==> {
                        &&& #[trigger] table@[a]@[b] == distance(rules, a, b)
                        &&& reaches(rules, a, b) ==> table@[a]@[b] < UNREACHABLE
                    },
            decreases entries@.len() - k,
        {
            let (a, b, d) = entries[k];
            let ghost before = table@;
            table[a][b] = d;
            proof {
                let seen = entries@.take(k as int);
                let more = entries@.take(k + 1);
                assert forall|x: int, y: int|
                    0 <= x < n && 0 <= y < n && listed(more, x, y) implies {
                    &&& #[trigger] table@[x]@[y] == distance(rules, x, y)
                    &&& reaches(rules, x, y) ==> table@[x]@[y] < UNREACHABLE
                } by {
                    if x == a && y == b {
                        assert(entries@[k as int].0 == a);
                    } else {
                        let q = choose|q: int| 0 <= q < more.len() && (#[trigger] more[q]).0 == x && more[q].1 == y;
                        assert(q < k);
                        assert(seen[q] == more[q]);
                        assert(listed(seen, x, y));
                        assert(before[x]@[y] == distance(rules, x, y));
                    }
                }
            }
            k += 1;
        }
        proof {
            assert(entries@.take(entries@.len() as int) == entries@);
            lemma_span(graph_edges(self.graph));
            assert forall|q: int| 0 <= q < rules.len() implies 0 <= (#[trigger] rules[q]).0 < table@.len()
                && 0 <= rules[q].1 < table@.len() by {
                assert(graph_edges(self.graph)[q].0 < n);
            }
        }
        Some(DistanceTable { table, rules: Ghost(rules) })
    }
}

/// The text is an order relation file that can be read: JSON that gives
/// fewer than `u32::MAX` rules.
pub open spec fn readable_order(text: Seq<char>) -> bool {
    match json_parsed(text) {
        Some(json) => match order_rules_of(json) {
            Some(rules) => rules.len() < u32::MAX,
            None => false,
        },
        None => false,
    }
}

/// Where the first entries give no rules, all entries give none.
proof fn lemma_rules_unreadable(entries: Seq<(Seq<char>, Json)>, count: int)
    requires
        0 <= count <= entries.len(),
    ensures
        rules_of_entries(entries.take(count)) is None ==> rules_of_entries(entries) is None,
    decreases entries.len() - count,
{
    if count < entries.len() {
        lemma_rules_unreadable(entries, count + 1);
        assert(entries.take(count + 1).drop_last() == entries.take(count));
    } else {
        assert(entries.take(count) == entries);
    }
}

/// Where the first children give no rules, all children give none.
proof fn lemma_children_unreadable(from: u32, children: Seq<Json>, count: int)
    requires
        0 <= count <= children.len(),
    ensures
        rules_to_children(from, children.take(count)) is None ==> rules_to_children(
            from,
            children,
        ) is None,
    decreases children.len() - count,
{
    if count < children.len() {
        lemma_children_unreadable(from, children, count + 1);
        assert(children.take(count + 1).drop_last() == children.take(count));
    } else {
        assert(children.take(count) == children);
    }
}

/// The rules to children run from the given node to nodes from 1 up,
/// below `i32::MAX`.
proof fn lemma_children_in_bounds(from: u32, children: Seq<Json>)
    ensures
        rules_to_children(from, children) matches Some(rules) ==> forall|k: int|
            0 <= k < rules.len() ==> (#[trigger] rules[k]).0 == from && 1 <= rules[k].1 < i32::MAX,
    decreases children.len(),
{
    if children.len() > 0 {
        lemma_children_in_bounds(from, children.drop_last());
    }
}

/// The rules of a file run between nodes below `i32::MAX`, and end at
/// nodes from 1 up.
proof fn lemma_entries_in_bounds(entries: Seq<(Seq<char>, Json)>)
    ensures
        rules_of_entries(entries) matches Some(rules) ==> forall|k: int|
            0 <= k < rules.len() ==> (#[trigger] rules[k]).0 < i32::MAX && 1 <= rules[k].1 < i32::MAX,
    decreases entries.len(),
{
    if entries.len() > 0 {
        lemma_entries_in_bounds(entries.drop_last());
        match (
            rules_of_entries(entries.drop_last()),
            rules_of_entry(entries.last().0, entries.last().1),
        ) {
            (Some(before), Some(here)) => {
                match (member_or_null(entries.last().1, "children"@), node_of_key(entries.last().0)) {
                    (Json::Array(children), Some(from)) => {
                        lemma_children_in_bounds(from, children);
                    },
                    _ => {},
                }
                assert forall|k: int| 0 <= k < (before + here).len() implies (#[trigger] (before
                    + here)[k]).0 < i32::MAX && 1 <= (before + here)[k].1 < i32::MAX by {
                    if k < before.len() {
                        assert((before + here)[k] == before[k]);
                    } else {
                        assert((before + here)[k] == here[k - before.len()]);
                    }
                }
            },
            _ => {},
        }
    }
}

/// The rules of a file run between nodes below `i32::MAX`, and end at
/// nodes from 1 up.
proof fn lemma_rules_in_bounds(json: Json)
    ensures
        order_rules_of(json) matches Some(rules) ==> forall|k: int|
            0 <= k < rules.len() ==> (#[trigger] rules[k]).0 < i32::MAX && 1 <= rules[k].1 < i32::MAX,
{
    match json {
        Json::Object(entries) => {
            lemma_entries_in_bounds(entries);
        },
        _ => {},
    }
}

/// Without the root, every id is one or more.
proof fn lemma_without_root_positive(ids: Seq<int>)
    requires
        forall|k: int| 0 <= k < ids.len() ==> ids[k] >= 0,
    ensures
        forall|k: int| 0 <= k < without_root(ids).len() ==> without_root(ids)[k] >= 1,
    decreases ids.len(),
{
    if ids.len() > 0 {
        let rest = ids.drop_last();
        assert forall|k: int| 0 <= k < rest.len() implies rest[k] >= 0 by {
            assert(rest[k] == ids[k]);
        }
        lemma_without_root_positive(rest);
        assert(ids[ids.len() - 1] >= 0);
        assert forall|k: int| 0 <= k < without_root(ids).len() implies without_root(ids)[k] >= 1 by {
            if k < without_root(rest).len() {
                assert(without_root(ids)[k] == without_root(rest)[k]);
            }
        }
    }
}

} // verus!
