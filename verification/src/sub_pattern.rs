use crate::pattern::order_relation::as_ints;
use crate::pattern::{Edge, Pattern};
use crate::sub_pattern_match::copy_of;
use vstd::prelude::*;

verus! {

/// A connected fragment of the pattern: a chain of pattern edges.
#[derive(Debug)]
pub struct SubPattern<'a> {
    pub id: usize,
    pub edges: Vec<&'a Edge>,
}

/// The two edges have a node in common.
pub open spec fn touches(a: Edge, b: Edge) -> bool {
    a.start == b.start || a.start == b.end || a.end == b.start || a.end == b.end
}

/// The edge has a node in common with one of the parents; where there are
/// no parents, every edge has.
pub open spec fn shares_node(edge: Edge, parents: Seq<&Edge>) -> bool {
    parents.len() == 0 || exists|k: int| 0 <= k < parents.len() && touches(edge, *#[trigger] parents[k])
}

/// The ids of the edges of a chain.
pub open spec fn chain_ids(edges: Seq<&Edge>) -> Seq<int> {
    Seq::new(edges.len(), |q: int| edges[q].id as int)
}

/// The chains of ids of a list of sub-patterns.
pub open spec fn chains_of(sub_patterns: Seq<SubPattern>) -> Seq<Seq<int>> {
    Seq::new(sub_patterns.len(), |k: int| chain_ids(sub_patterns[k].edges@))
}

/// Every edge of the chain is the edge of the pattern that has its id.
pub open spec fn anchored(edges: Seq<&Edge>, pattern: &Pattern) -> bool {
    forall|q: int|
        0 <= q < edges.len() ==> (#[trigger] edges[q]).id < pattern.edges@.len() && *edges[q]
            == pattern.edges@[edges[q].id as int]
}

/// Pattern edge `e` has a node in common with a pattern edge of the chain;
/// with an empty chain, every edge has.
pub open spec fn links(pattern: &Pattern, e: int, chain: Seq<int>) -> bool {
    chain.len() == 0 || exists|k: int|
        0 <= k < chain.len() && touches(pattern.edges@[e], pattern.edges@[#[trigger] chain[k]])
}

/// The candidate chains found by walking the order relation depth first
/// from pattern edge `e`, with `chain` as the way so far: none if `e` is on
/// the way already or has no node in common with it; else the way with `e`
/// at its end, then the candidates found from each pattern edge right after
/// `e`, in the order in which the relation gives them. A way never takes an
/// edge twice, so it never grows longer than the pattern has edges.
pub open spec fn candidates_from(pattern: &Pattern, e: int, chain: Seq<int>) -> Seq<Seq<int>>
    decreases pattern.edges@.len() - chain.len(), 0int,
{
    if chain.len() >= pattern.edges@.len() || chain.contains(e) || !links(pattern, e, chain) {
        Seq::empty()
    } else {
        seq![chain.push(e)] + candidates_among(pattern, pattern.order.next(e), chain.push(e))
    }
}

/// The candidates found from each of the pattern edges `heads` in turn, with
/// `chain` as the way so far.
pub open spec fn candidates_among(pattern: &Pattern, heads: Seq<int>, chain: Seq<int>) -> Seq<
    Seq<int>,
>
    decreases pattern.edges@.len() - chain.len(), 1 + heads.len(),
{
    if heads.len() == 0 {
        Seq::empty()
    } else {
        candidates_among(pattern, heads.drop_last(), chain) + candidates_from(
            pattern,
            heads.last(),
            chain,
        )
    }
}

/// The candidates found from the first `count` pattern edges, each as the
/// start of a way.
pub open spec fn candidates_upto(pattern: &Pattern, count: nat) -> Seq<Seq<int>>
    decreases count,
{
    if count == 0 {
        Seq::empty()
    } else {
        candidates_upto(pattern, (count - 1) as nat) + candidates_from(
            pattern,
            count - 1,
            Seq::empty(),
        )
    }
}

/// Every id of the chain is the id of a pattern edge, and none comes twice.
pub open spec fn simple_chain(chain: Seq<int>, num_edges: nat) -> bool {
    &&& forall|q: int| 0 <= q < chain.len() ==> 0 <= #[trigger] chain[q] < num_edges
    &&& forall|q: int, r: int| 0 <= q < r < chain.len() ==> chain[q] != chain[r]
}

/// Tells whether the edge has a node in common with one of the parents.
pub fn has_shared_node(edge: &Edge, parents: &Vec<&Edge>) -> (shared: bool)
    ensures
        shared == shares_node(*edge, parents@),
{
    if parents.len() == 0 {
        return true;
    }
    let mut k: usize = 0;
    while k < parents.len()
        invariant
            0 <= k <= parents@.len(),
            forall|q: int| 0 <= q < k ==> !touches(*edge, *#[trigger] parents@[q]),
        decreases parents@.len() - k,
    {
        let parent = parents[k];
        let node_shared = if edge.start == parent.start || edge.start == parent.end {
            true
        } else if edge.end == parent.start || edge.end == parent.end {
            true
        } else {
            false
        };
        if node_shared {
            assert(touches(*edge, *parents@[k as int]));
            return true;
        }
        k += 1;
    }
    false
}

/// Tells whether the chain holds the edge with this id.
fn on_the_way(id: usize, parents: &Vec<&Edge>) -> (found: bool)
    ensures
        found == chain_ids(parents@).contains(id as int),
{
    let mut k: usize = 0;
    while k < parents.len()
        invariant
            0 <= k <= parents@.len(),
            forall|q: int| 0 <= q < k ==> chain_ids(parents@)[q] != id,
        decreases parents@.len() - k,
    {
        if parents[k].id == id {
            assert(chain_ids(parents@)[k as int] == id);
            return true;
        }
        k += 1;
    }
    false
}

/// A chain that takes no edge twice is no longer than the pattern has edges.
proof fn lemma_simple_chain_is_short(chain: Seq<int>, num_edges: nat)
    requires
        simple_chain(chain, num_edges),
    ensures
        chain.len() <= num_edges,
{
    let ids = chain.to_set();
    let all = vstd::set_lib::set_int_range(0, num_edges as int);
    assert(chain.no_duplicates());
    chain.unique_seq_to_set();
    vstd::set_lib::lemma_int_range(0, num_edges as int);
    assert(ids.subset_of(all)) by {
        assert forall|x: int| ids.contains(x) implies all.contains(x) by {
            let q = choose|q: int| 0 <= q < chain.len() && chain[q] == x;
        }
    }
    vstd::set_lib::lemma_len_subset(ids, all);
}

/// For a chain of edges of the pattern, to have a node in common is the
/// same said of the edges and said of their ids.
proof fn lemma_links(pattern: &Pattern, edge: Edge, parents: Seq<&Edge>)
    requires
        anchored(parents, pattern),
        edge.id < pattern.edges@.len(),
        edge == pattern.edges@[edge.id as int],
    ensures
        shares_node(edge, parents) <==> links(pattern, edge.id as int, chain_ids(parents)),
{
    let chain = chain_ids(parents);
    if shares_node(edge, parents) && parents.len() > 0 {
        let k = choose|k: int| 0 <= k < parents.len() && touches(edge, *#[trigger] parents[k]);
        assert(touches(pattern.edges@[edge.id as int], pattern.edges@[chain[k]]));
    }
    if links(pattern, edge.id as int, chain) && chain.len() > 0 {
        let k = choose|k: int|
            0 <= k < chain.len() && touches(
                pattern.edges@[edge.id as int],
                pattern.edges@[#[trigger] chain[k]],
            );
        assert(touches(edge, *parents[k]));
    }
}

/// Walks the order relation depth first from `edge`, with `parents` as the
/// way so far, and adds every candidate chain it finds to `results`.
pub fn generate_sub_patterns<'a>(
    pattern: &'a Pattern,
    edge: &'a Edge,
    parents: &mut Vec<&'a Edge>,
    results: &mut Vec<SubPattern<'a>>,
)
    requires
        pattern.wf(),
        edge.id < pattern.edges@.len(),
        *edge == pattern.edges@[edge.id as int],
        anchored(old(parents)@, pattern),
        simple_chain(chain_ids(old(parents)@), pattern.edges@.len()),
        forall|k: int| 0 <= k < old(results)@.len() ==> anchored((#[trigger] old(results)@[k]).edges@, pattern),
    ensures
        final(parents)@ == old(parents)@,
        chains_of(final(results)@) == chains_of(old(results)@) + candidates_from(
            pattern,
            edge.id as int,
            chain_ids(old(parents)@),
        ),
        forall|k: int| 0 <= k < final(results)@.len() ==> anchored((#[trigger] final(results)@[k]).edges@, pattern),
    decreases pattern.edges@.len() - old(parents)@.len(),
{
    let ghost way = chain_ids(parents@);
    let ghost found = chains_of(results@);
    proof {
        lemma_links(pattern, *edge, parents@);
    }
    if on_the_way(edge.id, parents) || !has_shared_node(edge, parents) {
        proof {
            assert(found + Seq::<Seq<int>>::empty() == found);
        }
        return ;
    }
    let ghost chain = way.push(edge.id as int);
    proof {
        assert(simple_chain(chain, pattern.edges@.len())) by {
            assert forall|q: int, r: int| 0 <= q < r < chain.len() implies chain[q] != chain[r] by {
                if r == way.len() {
                    assert(way[q] != edge.id);
                }
            }
        }
        lemma_simple_chain_is_short(chain, pattern.edges@.len());
    }
    parents.push(edge);
    let candidate = SubPattern { id: 0, edges: copy_of(parents) };
    results.push(candidate);
    let heads = pattern.order.get_next(edge.id);
    proof {
        pattern.order.lemma_next_in_range(edge.id as int);
        assert(chain_ids(parents@) == chain);
        assert(chains_of(results@) == found + seq![chain]);
        assert(as_ints(heads@).take(0) == Seq::<int>::empty());
        assert(found + seq![chain] + Seq::<Seq<int>>::empty() == found + seq![chain]);
    }
    let mut k: usize = 0;
    while k < heads.len()
        invariant
            0 <= k <= heads@.len(),
            pattern.wf(),
            as_ints(heads@) == pattern.order.next(edge.id as int),
            forall|i: int|
                0 <= i < pattern.order.next(edge.id as int).len() ==> 0 <= #[trigger] pattern.order.next(
                    edge.id as int,
                )[i] < pattern.order.spec_size() - 1,
            parents@ == old(parents)@.push(edge),
            chain == chain_ids(parents@),
            anchored(parents@, pattern),
            simple_chain(chain, pattern.edges@.len()),
            chain.len() <= pattern.edges@.len(),
            chains_of(results@) == found + seq![chain] + candidates_among(
                pattern,
                as_ints(heads@).take(k as int),
                chain,
            ),
            forall|k: int| 0 <= k < results@.len() ==> anchored((#[trigger] results@[k]).edges@, pattern),
        decreases heads@.len() - k,
    {
        let eid = heads[k];
        let ghost so_far = chains_of(results@);
        proof {
            assert(as_ints(heads@)[k as int] == eid);
            assert(pattern.order.next(edge.id as int)[k as int] == eid);
        }
        generate_sub_patterns(pattern, &pattern.edges[eid], parents, results);
        proof {
            let seen = as_ints(heads@).take(k as int);
            let more = as_ints(heads@).take(k + 1);
            assert(more.drop_last() == seen);
            assert(more.last() == eid);
            assert(found + seq![chain] + candidates_among(pattern, seen, chain) + candidates_from(
                pattern,
                eid as int,
                chain,
            ) == found + seq![chain] + (candidates_among(pattern, seen, chain) + candidates_from(
                pattern,
                eid as int,
                chain,
            )));
        }
        k += 1;
    }
    parents.pop();
    proof {
        assert(as_ints(heads@).take(heads@.len() as int) == as_ints(heads@));
        assert(parents@ == old(parents)@);
        assert(found + seq![chain] + candidates_among(pattern, pattern.order.next(edge.id as int), chain)
            == found + (seq![chain] + candidates_among(
            pattern,
            pattern.order.next(edge.id as int),
            chain,
        )));
    }
}

/// Where a candidate of `len` edges goes into a list sorted from long to
/// short: behind every candidate that is as long or longer.
pub open spec fn slot_for(sorted: Seq<Seq<int>>, len: nat) -> int
    decreases sorted.len(),
{
    if sorted.len() == 0 || sorted.last().len() >= len {
        sorted.len() as int
    } else {
        slot_for(sorted.drop_last(), len)
    }
}

/// The candidates sorted from long to short; candidates of one length stay
/// in the order in which they were found.
pub open spec fn by_length(candidates: Seq<Seq<int>>) -> Seq<Seq<int>>
    decreases candidates.len(),
{
    if candidates.len() == 0 {
        Seq::empty()
    } else {
        let sorted = by_length(candidates.drop_last());
        sorted.insert(slot_for(sorted, candidates.last().len()), candidates.last())
    }
}

/// Item `q` of chain `k`.
pub open spec fn entry(chains: Seq<Seq<int>>, k: int, q: int) -> int {
    chains[k][q]
}

/// One of the chains holds pattern edge `e`.
pub open spec fn covers(chains: Seq<Seq<int>>, e: int) -> bool {
    exists|k: int, q: int|
        0 <= k < chains.len() && 0 <= q < chains[k].len() && #[trigger] entry(chains, k, q) == e
}

/// The chain holds a pattern edge that one of the chains holds.
pub open spec fn overlaps(chain: Seq<int>, chains: Seq<Seq<int>>) -> bool {
    exists|q: int| 0 <= q < chain.len() && covers(chains, #[trigger] chain[q])
}

/// The cover chosen greedily: the candidates are taken in their order, and
/// one is left out where it holds a pattern edge that an earlier choice
/// holds.
pub open spec fn chosen(candidates: Seq<Seq<int>>) -> Seq<Seq<int>>
    decreases candidates.len(),
{
    if candidates.len() == 0 {
        Seq::empty()
    } else {
        let before = chosen(candidates.drop_last());
        if overlaps(candidates.last(), before) {
            before
        } else {
            before.push(candidates.last())
        }
    }
}

/// The chains of the sub-patterns that the pattern is decomposed into.
pub open spec fn decomposition_of(pattern: &Pattern) -> Seq<Seq<int>> {
    chosen(by_length(candidates_upto(pattern, pattern.edges@.len())))
}

/// The chains hold each of the pattern edges `0..num_edges` once, and
/// nothing else.
pub open spec fn is_partition(chains: Seq<Seq<int>>, num_edges: nat) -> bool {
    &&& forall|k: int, q: int|
        0 <= k < chains.len() && 0 <= q < chains[k].len() ==> 0 <= #[trigger] entry(chains, k, q)
            < num_edges
    &&& forall|e: int| 0 <= e < num_edges ==> #[trigger] covers(chains, e)
    &&& forall|k: int, q: int, l: int, r: int|
        0 <= k < chains.len() && 0 <= q < chains[k].len() && 0 <= l < chains.len() && 0 <= r
            < chains[l].len() && #[trigger] entry(chains, k, q) == #[trigger] entry(chains, l, r)
            ==> k == l && q == r
}

/// Every chain of the list is simple.
pub open spec fn all_simple(chains: Seq<Seq<int>>, num_edges: nat) -> bool {
    forall|i: int| 0 <= i < chains.len() ==> simple_chain(#[trigger] chains[i], num_edges)
}

/// The list holds the chain of the one pattern edge `e`.
pub open spec fn has_single(chains: Seq<Seq<int>>, e: int) -> bool {
    exists|i: int| 0 <= i < chains.len() && (#[trigger] chains[i]).len() == 1 && chains[i][0] == e
}

/// Every candidate found from a pattern edge, on a simple way, is simple.
proof fn lemma_candidates_from_simple(pattern: &Pattern, e: int, chain: Seq<int>)
    requires
        pattern.wf(),
        0 <= e < pattern.edges@.len(),
        simple_chain(chain, pattern.edges@.len()),
    ensures
        all_simple(candidates_from(pattern, e, chain), pattern.edges@.len()),
    decreases pattern.edges@.len() - chain.len(), 0int,
{
    let n = pattern.edges@.len();
    if chain.len() >= n || chain.contains(e) || !links(pattern, e, chain) {
    } else {
        let longer = chain.push(e);
        assert(simple_chain(longer, n)) by {
            assert forall|q: int, r: int| 0 <= q < r < longer.len() implies longer[q] != longer[r] by {
                if r == chain.len() {
                    assert(chain[q] != e);
                }
            }
        }
        pattern.order.lemma_next_in_range(e);
        lemma_candidates_among_simple(pattern, pattern.order.next(e), longer);
        let below = candidates_among(pattern, pattern.order.next(e), longer);
        assert forall|i: int| 0 <= i < candidates_from(pattern, e, chain).len() implies simple_chain(
            #[trigger] candidates_from(pattern, e, chain)[i],
            n,
        ) by {
            if i > 0 {
                assert(candidates_from(pattern, e, chain)[i] == below[i - 1]);
            }
        }
    }
}

/// Every candidate found from a list of pattern edges, on a simple way, is
/// simple.
proof fn lemma_candidates_among_simple(pattern: &Pattern, heads: Seq<int>, chain: Seq<int>)
    requires
        pattern.wf(),
        forall|i: int| 0 <= i < heads.len() ==> 0 <= #[trigger] heads[i] < pattern.edges@.len(),
        simple_chain(chain, pattern.edges@.len()),
    ensures
        all_simple(candidates_among(pattern, heads, chain), pattern.edges@.len()),
    decreases pattern.edges@.len() - chain.len(), 1 + heads.len(),
{
    let n = pattern.edges@.len();
    if heads.len() > 0 {
        let rest = heads.drop_last();
        assert forall|i: int| 0 <= i < rest.len() implies 0 <= #[trigger] rest[i] < n by {
            assert(rest[i] == heads[i]);
        }
        lemma_candidates_among_simple(pattern, rest, chain);
        assert(0 <= heads[heads.len() - 1] < n);
        lemma_candidates_from_simple(pattern, heads.last(), chain);
        let first = candidates_among(pattern, rest, chain);
        let second = candidates_from(pattern, heads.last(), chain);
        assert forall|i: int| 0 <= i < (first + second).len() implies simple_chain(
            #[trigger] (first + second)[i],
            n,
        ) by {
            if i < first.len() {
                assert((first + second)[i] == first[i]);
            } else {
                assert((first + second)[i] == second[i - first.len()]);
            }
        }
    }
}

/// The candidates found from the first `count` pattern edges are simple,
/// and the chain of each of these edges alone is among them.
proof fn lemma_candidates_upto(pattern: &Pattern, count: nat)
    requires
        pattern.wf(),
        count <= pattern.edges@.len(),
    ensures
        all_simple(candidates_upto(pattern, count), pattern.edges@.len()),
        forall|e: int| 0 <= e < count ==> #[trigger] has_single(candidates_upto(pattern, count), e),
    decreases count,
{
    let n = pattern.edges@.len();
    if count > 0 {
        let first = candidates_upto(pattern, (count - 1) as nat);
        let second = candidates_from(pattern, count - 1, Seq::empty());
        lemma_candidates_upto(pattern, (count - 1) as nat);
        lemma_candidates_from_simple(pattern, count - 1, Seq::empty());
        assert forall|i: int| 0 <= i < (first + second).len() implies simple_chain(
            #[trigger] (first + second)[i],
            n,
        ) by {
            if i < first.len() {
                assert((first + second)[i] == first[i]);
            } else {
                assert((first + second)[i] == second[i - first.len()]);
            }
        }
        assert forall|e: int| 0 <= e < count implies #[trigger] has_single(first + second, e) by {
            if e < count - 1 {
                assert(has_single(first, e));
                let i = choose|i: int|
                    0 <= i < first.len() && (#[trigger] first[i]).len() == 1 && first[i][0] == e;
                assert((first + second)[i] == first[i]);
            } else {
                assert(second[0] == Seq::<int>::empty().push(e));
                assert((first + second)[first.len() as int] == second[0]);
            }
        }
    }
}

/// Sorting keeps the candidates: each sorted one is a given one, and each
/// given one is a sorted one.
proof fn lemma_by_length_keeps(candidates: Seq<Seq<int>>)
    ensures
        by_length(candidates).len() == candidates.len(),
        forall|i: int|
            0 <= i < candidates.len() ==> exists|j: int|
                0 <= j < candidates.len() && #[trigger] by_length(candidates)[i] == candidates[j],
        forall|j: int|
            0 <= j < candidates.len() ==> exists|i: int|
                0 <= i < candidates.len() && by_length(candidates)[i] == #[trigger] candidates[j],
    decreases candidates.len(),
{
    if candidates.len() > 0 {
        let rest = candidates.drop_last();
        let sorted = by_length(rest);
        lemma_by_length_keeps(rest);
        lemma_slot_in_range(sorted, candidates.last().len());
        let slot = slot_for(sorted, candidates.last().len());
        let all = by_length(candidates);
        assert forall|i: int| 0 <= i < candidates.len() implies exists|j: int|
            0 <= j < candidates.len() && #[trigger] all[i] == candidates[j] by {
            if i == slot {
                assert(all[i] == candidates[candidates.len() - 1]);
            } else {
                let before = if i < slot { i } else { i - 1 };
                assert(all[i] == sorted[before]);
                let j = choose|j: int| 0 <= j < rest.len() && #[trigger] sorted[before] == rest[j];
                assert(all[i] == candidates[j]);
            }
        }
        assert forall|j: int| 0 <= j < candidates.len() implies exists|i: int|
            0 <= i < candidates.len() && all[i] == #[trigger] candidates[j] by {
            if j == candidates.len() - 1 {
                assert(all[slot] == candidates[j]);
            } else {
                assert(rest[j] == candidates[j]);
                let i = choose|i: int| 0 <= i < rest.len() && sorted[i] == #[trigger] rest[j];
                let after = if i < slot { i } else { i + 1 };
                assert(all[after] == sorted[i]);
            }
        }
    }
}

/// The slot lies inside the list or right behind it.
proof fn lemma_slot_in_range(sorted: Seq<Seq<int>>, len: nat)
    ensures
        0 <= slot_for(sorted, len) <= sorted.len(),
    decreases sorted.len(),
{
    if sorted.len() > 0 && sorted.last().len() < len {
        lemma_slot_in_range(sorted.drop_last(), len);
    }
}

/// The greedy choice from simple candidates: every chosen chain is simple,
/// no pattern edge is chosen twice, and the pattern edge of every candidate
/// that is one edge alone is chosen.
proof fn lemma_chosen(candidates: Seq<Seq<int>>, num_edges: nat)
    requires
        all_simple(candidates, num_edges),
    ensures
        all_simple(chosen(candidates), num_edges),
        forall|k: int, q: int, l: int, r: int|
            0 <= k < chosen(candidates).len() && 0 <= q < chosen(candidates)[k].len() && 0 <= l
                < chosen(candidates).len() && 0 <= r < chosen(candidates)[l].len()
                && #[trigger] entry(chosen(candidates), k, q) == #[trigger] entry(
                chosen(candidates),
                l,
                r,
            ) ==> k == l && q == r,
        forall|e: int| has_single(candidates, e) ==> #[trigger] covers(chosen(candidates), e),
    decreases candidates.len(),
{
    if candidates.len() > 0 {
        let rest = candidates.drop_last();
        let last = candidates.last();
        let before = chosen(rest);
        let all = chosen(candidates);
        assert forall|i: int| 0 <= i < rest.len() implies simple_chain(#[trigger] rest[i], num_edges) by {
            assert(rest[i] == candidates[i]);
        }
        lemma_chosen(rest, num_edges);
        assert(simple_chain(candidates[candidates.len() - 1], num_edges));
        assert forall|i: int| 0 <= i < all.len() implies simple_chain(#[trigger] all[i], num_edges) by {
            if i < before.len() {
                assert(all[i] == before[i]);
            }
        }
        assert forall|k: int, q: int, l: int, r: int|
            0 <= k < all.len() && 0 <= q < all[k].len() && 0 <= l < all.len() && 0 <= r < all[l].len()
                && #[trigger] entry(all, k, q) == #[trigger] entry(all, l, r) implies k == l && q
            == r by {
            if k < before.len() && l < before.len() {
                assert(entry(before, k, q) == entry(before, l, r));
            } else if k < before.len() {
                assert(entry(before, k, q) == last[r]);
                assert(covers(before, last[r]));
                assert(overlaps(last, before));
            } else if l < before.len() {
                assert(entry(before, l, r) == last[q]);
                assert(covers(before, last[q]));
                assert(overlaps(last, before));
            }
        }
        assert forall|e: int| has_single(candidates, e) implies #[trigger] covers(all, e) by {
            let i = choose|i: int|
                0 <= i < candidates.len() && (#[trigger] candidates[i]).len() == 1 && candidates[i][0]
                    == e;
            if i < rest.len() {
                assert(rest[i] == candidates[i]);
                assert(has_single(rest, e));
                assert(covers(before, e));
                let (k, q) = choose|k: int, q: int|
                    0 <= k < before.len() && 0 <= q < before[k].len() && #[trigger] entry(before, k, q)
                        == e;
                assert(entry(all, k, q) == e);
            } else if overlaps(last, before) {
                let q = choose|q: int| 0 <= q < last.len() && covers(before, #[trigger] last[q]);
                assert(last[q] == e);
            } else {
                assert(entry(all, before.len() as int, 0) == e);
            }
        }
    }
}

/// The slot for a candidate, found by looking at the first `j` sorted ones
/// only, is the slot in the whole list where the others are long enough.
proof fn lemma_slot_step(sorted: Seq<Seq<int>>, len: nat, j: int)
    requires
        0 <= j <= sorted.len(),
        slot_for(sorted, len) == slot_for(sorted.take(j), len),
    ensures
        j > 0 && sorted[j - 1].len() < len ==> slot_for(sorted, len) == slot_for(
            sorted.take(j - 1),
            len,
        ),
        j == 0 || sorted[j - 1].len() >= len ==> slot_for(sorted, len) == j,
{
    if j > 0 {
        assert(sorted.take(j).drop_last() == sorted.take(j - 1));
        assert(sorted.take(j).last() == sorted[j - 1]);
    }
}

/// Tells whether the sub-pattern holds a pattern edge that is flagged as
/// selected.
pub fn contains_selected_edge(sub_pattern: &SubPattern, is_edge_selected: &[bool]) -> (found: bool)
    requires
        forall|q: int|
            0 <= q < sub_pattern.edges@.len() ==> (#[trigger] sub_pattern.edges@[q]).id
                < is_edge_selected@.len(),
    ensures
        found == exists|q: int|
            0 <= q < sub_pattern.edges@.len() && is_edge_selected@[(
            #[trigger] sub_pattern.edges@[q]).id as int],
{
    let mut q: usize = 0;
    while q < sub_pattern.edges.len()
        invariant
            0 <= q <= sub_pattern.edges@.len(),
            forall|q: int|
                0 <= q < sub_pattern.edges@.len() ==> (#[trigger] sub_pattern.edges@[q]).id
                    < is_edge_selected@.len(),
            forall|r: int| 0 <= r < q ==> !is_edge_selected@[(#[trigger] sub_pattern.edges@[r]).id as int],
        decreases sub_pattern.edges@.len() - q,
    {
        if is_edge_selected[sub_pattern.edges[q].id] {
            return true;
        }
        q += 1;
    }
    false
}

/// The sub-patterns sorted from long to short; those of one length stay in
/// their order.
fn sort_by_length<'a>(sub_patterns: &Vec<SubPattern<'a>>) -> (sorted: Vec<SubPattern<'a>>)
    ensures
        chains_of(sorted@) == by_length(chains_of(sub_patterns@)),
        forall|i: int|
            0 <= i < sorted@.len() ==> exists|j: int|
                0 <= j < sub_patterns@.len() && (#[trigger] sorted@[i]).edges@ == sub_patterns@[j].edges@,
{
    let mut sorted: Vec<SubPattern<'a>> = Vec::new();
    let mut i: usize = 0;
    let ghost given = chains_of(sub_patterns@);
    proof {
        assert(given.take(0) == Seq::<Seq<int>>::empty());
        assert(chains_of(sorted@) == Seq::<Seq<int>>::empty());
    }
    while i < sub_patterns.len()
        invariant
            0 <= i <= sub_patterns@.len(),
            given == chains_of(sub_patterns@),
            chains_of(sorted@) == by_length(given.take(i as int)),
            forall|k: int|
                0 <= k < sorted@.len() ==> exists|j: int|
                    0 <= j < sub_patterns@.len() && (#[trigger] sorted@[k]).edges@
                        == sub_patterns@[j].edges@,
        decreases sub_patterns@.len() - i,
    {
        let candidate = &sub_patterns[i];
        let len = candidate.edges.len();
        let ghost before = sorted@;
        let ghost chains = chains_of(sorted@);
        let mut j: usize = sorted.len();
        proof {
            assert(chains.take(j as int) == chains);
        }
        while j > 0 && sorted[j - 1].edges.len() < len
            invariant
                0 <= j <= sorted@.len(),
                chains == chains_of(sorted@),
                slot_for(chains, len as nat) == slot_for(chains.take(j as int), len as nat),
            decreases j,
        {
            proof {
                lemma_slot_step(chains, len as nat, j as int);
                assert(chains[j - 1].len() == sorted@[j - 1].edges@.len());
            }
            j -= 1;
        }
        proof {
            lemma_slot_step(chains, len as nat, j as int);
            if j > 0 {
                assert(chains[j - 1].len() == sorted@[j - 1].edges@.len());
            }
        }
        sorted.insert(j, SubPattern { id: 0, edges: copy_of(&candidate.edges) });
        proof {
            assert(given.take(i + 1).drop_last() == given.take(i as int));
            assert(given.take(i + 1).last() == chain_ids(candidate.edges@));
            assert(chains_of(sorted@) == chains.insert(j as int, chain_ids(candidate.edges@)));
            assert forall|k: int| 0 <= k < sorted@.len() implies exists|m: int|
                0 <= m < sub_patterns@.len() && (#[trigger] sorted@[k]).edges@
                    == sub_patterns@[m].edges@ by {
                if k == j {
                    assert(sorted@[k].edges@ == sub_patterns@[i as int].edges@);
                } else {
                    let earlier = if k < j { k } else { k - 1 };
                    assert(sorted@[k] == before[earlier]);
                    let m = choose|m: int|
                        0 <= m < sub_patterns@.len() && (#[trigger] before[earlier]).edges@
                            == sub_patterns@[m].edges@;
                    assert(sorted@[k].edges@ == sub_patterns@[m].edges@);
                }
            }
        }
        i += 1;
    }
    proof {
        assert(given.take(sub_patterns@.len() as int) == given);
    }
    sorted
}

/// Chooses a cover from the candidates: they are sorted from long to short
/// and taken in that order, and one is left out where it holds a pattern
/// edge that an earlier choice holds. The chosen ones are numbered in the
/// order of the choice.
pub fn select_sub_patterns<'a>(num_edges: usize, sub_patterns: Vec<SubPattern<'a>>) -> (selected:
    Vec<SubPattern<'a>>)
    requires
        forall|k: int, q: int|
            0 <= k < sub_patterns@.len() && 0 <= q < sub_patterns@[k].edges@.len() ==> (
            #[trigger] sub_patterns@[k].edges@[q]).id < num_edges,
    ensures
        chains_of(selected@) == chosen(by_length(chains_of(sub_patterns@))),
        forall|k: int| 0 <= k < selected@.len() ==> (#[trigger] selected@[k]).id == k,
        forall|k: int|
            0 <= k < selected@.len() ==> exists|j: int|
                0 <= j < sub_patterns@.len() && (#[trigger] selected@[k]).edges@
                    == sub_patterns@[j].edges@,
{
    let sorted = sort_by_length(&sub_patterns);
    let ghost candidates = chains_of(sorted@);
    let mut selected: Vec<SubPattern<'a>> = Vec::new();
    let mut is_edge_selected: Vec<bool> = vec![false; num_edges];
    let mut i: usize = 0;
    proof {
        assert(candidates.take(0) == Seq::<Seq<int>>::empty());
        assert(chains_of(selected@) == Seq::<Seq<int>>::empty());
        assert forall|i: int, q: int|
            0 <= i < sorted@.len() && 0 <= q < sorted@[i].edges@.len() implies (
        #[trigger] sorted@[i].edges@[q]).id < num_edges by {
            let j = choose|j: int|
                0 <= j < sub_patterns@.len() && (#[trigger] sorted@[i]).edges@ == sub_patterns@[j].edges@;
            assert(sub_patterns@[j].edges@[q].id < num_edges);
        }
    }
    while i < sorted.len()
        invariant
            0 <= i <= sorted@.len(),
            candidates == chains_of(sorted@),
            is_edge_selected@.len() == num_edges,
            forall|i: int, q: int|
                0 <= i < sorted@.len() && 0 <= q < sorted@[i].edges@.len() ==> (
                #[trigger] sorted@[i].edges@[q]).id < num_edges,
            forall|k: int|
                0 <= k < sorted@.len() ==> exists|j: int|
                    0 <= j < sub_patterns@.len() && (#[trigger] sorted@[k]).edges@
                        == sub_patterns@[j].edges@,
            chains_of(selected@) == chosen(candidates.take(i as int)),
            forall|e: int|
                0 <= e < num_edges ==> (#[trigger] is_edge_selected@[e] <==> covers(
                    chains_of(selected@),
                    e,
                )),
            forall|k: int| 0 <= k < selected@.len() ==> (#[trigger] selected@[k]).id == k,
            forall|k: int|
                0 <= k < selected@.len() ==> exists|j: int|
                    0 <= j < sub_patterns@.len() && (#[trigger] selected@[k]).edges@
                        == sub_patterns@[j].edges@,
        decreases sorted@.len() - i,
    {
        let sub_pattern = &sorted[i];
        let ghost chain = chain_ids(sub_pattern.edges@);
        let ghost before = chains_of(selected@);
        let ghost chosen_before = selected@;
        proof {
            assert(candidates.take(i + 1).drop_last() == candidates.take(i as int));
            assert(candidates.take(i + 1).last() == chain);
            assert forall|q: int| 0 <= q < sub_pattern.edges@.len() implies (
            #[trigger] sub_pattern.edges@[q]).id < is_edge_selected@.len() by {
                assert(sorted@[i as int].edges@[q].id < num_edges);
            }
        }
        let taken = contains_selected_edge(sub_pattern, is_edge_selected.as_slice());
        proof {
            if taken {
                let q = choose|q: int|
                    0 <= q < sub_pattern.edges@.len() && is_edge_selected@[(
                    #[trigger] sub_pattern.edges@[q]).id as int];
                assert(covers(before, chain[q]));
            }
            if overlaps(chain, before) {
                let q = choose|q: int| 0 <= q < chain.len() && covers(before, #[trigger] chain[q]);
                assert(sorted@[i as int].edges@[q].id < num_edges);
                assert(is_edge_selected@[sub_pattern.edges@[q].id as int]);
            }
            assert(taken == overlaps(chain, before));
        }
        if !taken {
            let mut q: usize = 0;
            while q < sub_pattern.edges.len()
                invariant
                    0 <= q <= sub_pattern.edges@.len(),
                    is_edge_selected@.len() == num_edges,
                    chain == chain_ids(sub_pattern.edges@),
                    forall|r: int| 0 <= r < chain.len() ==> 0 <= #[trigger] chain[r] < num_edges,
                    forall|e: int|
                        0 <= e < num_edges ==> (#[trigger] is_edge_selected@[e] <==> (covers(before, e)
                            || exists|r: int| 0 <= r < q && #[trigger] chain[r] == e)),
                decreases sub_pattern.edges@.len() - q,
            {
                let ghost flags = is_edge_selected@;
                let id = sub_pattern.edges[q].id;
                proof {
                    assert(chain[q as int] == id);
                }
                is_edge_selected.set(id, true);
                proof {
                    assert forall|e: int| 0 <= e < num_edges implies (
                    #[trigger] is_edge_selected@[e] <==> (covers(before, e) || exists|r: int|
                        0 <= r < q + 1 && #[trigger] chain[r] == e)) by {
                        assert(flags[e] <==> (covers(before, e) || exists|r: int|
                            0 <= r < q && #[trigger] chain[r] == e));
                        if e == id {
                            assert(chain[q as int] == e);
                        }
                        if exists|r: int| 0 <= r < q && #[trigger] chain[r] == e {
                            let r = choose|r: int| 0 <= r < q && #[trigger] chain[r] == e;
                            assert(0 <= r < q + 1 && chain[r] == e);
                        }
                        if exists|r: int| 0 <= r < q + 1 && #[trigger] chain[r] == e {
                            let r = choose|r: int| 0 <= r < q + 1 && #[trigger] chain[r] == e;
                            if r < q {
                                assert(0 <= r < q && chain[r] == e);
                            }
                        }
                    }
                }
                q += 1;
            }
            let id = selected.len();
            selected.push(SubPattern { id, edges: copy_of(&sub_pattern.edges) });
            proof {
                let after = chains_of(selected@);
                assert(after == before.push(chain));
                assert forall|e: int| 0 <= e < num_edges implies (
                #[trigger] is_edge_selected@[e] <==> covers(after, e)) by {
                    if covers(before, e) {
                        let (k, r) = choose|k: int, r: int|
                            0 <= k < before.len() && 0 <= r < before[k].len() && #[trigger] entry(
                                before,
                                k,
                                r,
                            ) == e;
                        assert(entry(after, k, r) == e);
                    }
                    if exists|r: int| 0 <= r < chain.len() && #[trigger] chain[r] == e {
                        let r = choose|r: int| 0 <= r < chain.len() && #[trigger] chain[r] == e;
                        assert(entry(after, before.len() as int, r) == e);
                    }
                    if covers(after, e) {
                        let (k, r) = choose|k: int, r: int|
                            0 <= k < after.len() && 0 <= r < after[k].len() && #[trigger] entry(
                                after,
                                k,
                                r,
                            ) == e;
                        if k < before.len() {
                            assert(entry(before, k, r) == e);
                        } else {
                            assert(chain[r] == e);
                        }
                    }
                }
                assert forall|k: int| 0 <= k < selected@.len() implies exists|j: int|
                    0 <= j < sub_patterns@.len() && (#[trigger] selected@[k]).edges@
                        == sub_patterns@[j].edges@ by {
                    if k < chosen_before.len() {
                        assert(selected@[k] == chosen_before[k]);
                    } else {
                        let j = choose|j: int|
                            0 <= j < sub_patterns@.len() && (#[trigger] sorted@[i as int]).edges@
                                == sub_patterns@[j].edges@;
                        assert(selected@[k].edges@ == sub_patterns@[j].edges@);
                    }
                }
            }
        }
        i += 1;
    }
    proof {
        assert(candidates.take(sorted@.len() as int) == candidates);
    }
    selected
}

/// Decomposes the pattern into sub-patterns: chains of pattern edges that
/// hold each edge of the pattern once. The candidates are found by walking
/// the order relation depth first from each pattern edge; a cover is chosen
/// from them greedily, the longest first.
pub fn decompose<'a>(pattern: &'a Pattern) -> (sub_patterns: Vec<SubPattern<'a>>)
    requires
        pattern.wf(),
    ensures
        chains_of(sub_patterns@) == decomposition_of(pattern),
        is_partition(chains_of(sub_patterns@), pattern.edges@.len()),
        forall|k: int|
            0 <= k < sub_patterns@.len() ==> (#[trigger] sub_patterns@[k]).id == k && anchored(
                sub_patterns@[k].edges@,
                pattern,
            ),
{
    let mut sub_patterns: Vec<SubPattern<'a>> = Vec::new();
    let mut parents: Vec<&'a Edge> = Vec::new();
    let mut i: usize = 0;
    proof {
        assert(chains_of(sub_patterns@) == candidates_upto(pattern, 0));
    }
    while i < pattern.edges.len()
        invariant
            0 <= i <= pattern.edges@.len(),
            pattern.wf(),
            parents@.len() == 0,
            chains_of(sub_patterns@) == candidates_upto(pattern, i as nat),
            forall|k: int|
                0 <= k < sub_patterns@.len() ==> anchored((#[trigger] sub_patterns@[k]).edges@, pattern),
        decreases pattern.edges@.len() - i,
    {
        proof {
            assert(chain_ids(parents@) == Seq::<int>::empty());
        }
        generate_sub_patterns(pattern, &pattern.edges[i], &mut parents, &mut sub_patterns);
        i += 1;
    }
    proof {
        assert forall|k: int, q: int|
            0 <= k < sub_patterns@.len() && 0 <= q < sub_patterns@[k].edges@.len() implies (
        #[trigger] sub_patterns@[k].edges@[q]).id < pattern.edges@.len() by {
            assert(anchored(sub_patterns@[k].edges@, pattern));
        }
        lemma_decomposition_is_partition(pattern);
    }
    let ghost found = sub_patterns@;
    let selected = select_sub_patterns(pattern.edges.len(), sub_patterns);
    proof {
        assert forall|k: int| 0 <= k < selected@.len() implies anchored(
            (#[trigger] selected@[k]).edges@,
            pattern,
        ) by {
            let j = choose|j: int|
                0 <= j < found.len() && (#[trigger] selected@[k]).edges@ == found[j].edges@;
            assert(anchored(found[j].edges@, pattern));
        }
    }
    selected
}

/// The decomposition holds each edge of the pattern once, and nothing
/// else: no gaps, no overlaps.
pub proof fn lemma_decomposition_is_partition(pattern: &Pattern)
    requires
        pattern.wf(),
    ensures
        is_partition(decomposition_of(pattern), pattern.edges@.len()),
{
    let n = pattern.edges@.len();
    let found = candidates_upto(pattern, n);
    let sorted = by_length(found);
    lemma_candidates_upto(pattern, n);
    lemma_by_length_keeps(found);
    assert forall|i: int| 0 <= i < sorted.len() implies simple_chain(#[trigger] sorted[i], n) by {
        let j = choose|j: int| 0 <= j < found.len() && sorted[i] == found[j];
        assert(simple_chain(found[j], n));
    }
    assert forall|e: int| 0 <= e < n implies #[trigger] has_single(sorted, e) by {
        assert(has_single(found, e));
        let j = choose|j: int| 0 <= j < found.len() && (#[trigger] found[j]).len() == 1 && found[j][0] == e;
        let i = choose|i: int| 0 <= i < found.len() && sorted[i] == found[j];
        assert(sorted[i].len() == 1 && sorted[i][0] == e);
    }
    lemma_chosen(sorted, n);
    let parts = chosen(sorted);
    assert forall|k: int, q: int| 0 <= k < parts.len() && 0 <= q < parts[k].len() implies 0
        <= #[trigger] entry(parts, k, q) < n by {
        assert(simple_chain(parts[k], n));
    }
    assert forall|e: int| 0 <= e < n implies #[trigger] covers(parts, e) by {
        assert(has_single(sorted, e));
    }
}

} // verus!
