pub mod sub_pattern_buffer;

use crate::binding::{binds, mergeable};
use crate::input_edge::InputEdge;
use crate::match_edge::{share_input_edge, MatchEdge};
use crate::pattern::order_relation::DistanceTable;
use crate::pattern::Pattern;
use crate::pattern_match::PatternMatch;
use crate::sorted::{
    distinct_by, lemma_slot_by_step, node_key, pattern_id_tag, rising, slot_by, sort_nodes,
    sorted_by,
};
use crate::sub_pattern::{chain_ids, chains_of, covers, is_partition, SubPattern};
use crate::sub_pattern_match::{edge_keys, merged_edge_id_map, MatchView, SubPatternMatch};
use std::rc::Rc;
use sub_pattern_buffer::{has_nodes_of, Relation, SubPatternBuffer};
use vstd::prelude::*;

verus! {

/// The pairs `(input node id, pattern node id)` that a node map stands for:
/// one for each pattern node that an input node stands for, in the order of
/// the pattern nodes. An entry of 0 says that no input node does.
pub open spec fn node_pairs(node_ids: Seq<u64>) -> Seq<(u64, u64)>
    decreases node_ids.len(),
{
    if node_ids.len() == 0 {
        Seq::empty()
    } else if node_ids.last() == 0 {
        node_pairs(node_ids.drop_last())
    } else {
        node_pairs(node_ids.drop_last()).push((node_ids.last(), (node_ids.len() - 1) as u64))
    }
}

/// The edge id map with the input edge of each matched edge entered under
/// its pattern edge, the edges taken in their order.
pub open spec fn id_map_over(base: Seq<Option<u64>>, edges: Seq<MatchEdge>) -> Seq<Option<u64>>
    decreases edges.len(),
{
    if edges.len() == 0 {
        base
    } else {
        id_map_over(base, edges.drop_last()).update(
            edges.last().matched.id as int,
            Some(edges.last().input_edge.id),
        )
    }
}

/// The earliest timestamp among the edges; the greatest number there is for
/// no edges.
pub open spec fn earliest_of(edges: Seq<MatchEdge>) -> u64
    decreases edges.len(),
{
    if edges.len() == 0 {
        u64::MAX
    } else if edges.last().input_edge.timestamp < earliest_of(edges.drop_last()) {
        edges.last().input_edge.timestamp
    } else {
        earliest_of(edges.drop_last())
    }
}

/// The latest timestamp among the edges; 0 for no edges.
pub open spec fn latest_of(edges: Seq<MatchEdge>) -> u64
    decreases edges.len(),
{
    if edges.len() == 0 {
        0
    } else if edges.last().input_edge.timestamp > latest_of(edges.drop_last()) {
        edges.last().input_edge.timestamp
    } else {
        latest_of(edges.drop_last())
    }
}

/// Every timestamp among the edges lies from the earliest to the latest.
pub proof fn lemma_time_span(edges: Seq<MatchEdge>)
    ensures
        forall|k: int|
            0 <= k < edges.len() ==> earliest_of(edges) <= (#[trigger] edges[k]).input_edge.timestamp
                <= latest_of(edges),
    decreases edges.len(),
{
    if edges.len() > 0 {
        let rest = edges.drop_last();
        lemma_time_span(rest);
        assert forall|k: int| 0 <= k < edges.len() implies earliest_of(edges) <= (
        #[trigger] edges[k]).input_edge.timestamp <= latest_of(edges) by {
            if k < rest.len() {
                assert(rest[k] == edges[k]);
            }
        }
    }
}

/// An edge id map with no entry.
pub open spec fn no_entries(num_edges: nat) -> Seq<Option<u64>> {
    Seq::new(num_edges, |p: int| None::<u64>)
}

/// Every pair that a node map stands for names a pattern node that the map
/// has a place for.
pub proof fn lemma_node_pairs(node_ids: Seq<u64>)
    ensures
        forall|k: int|
            0 <= k < node_pairs(node_ids).len() ==> (#[trigger] node_pairs(node_ids)[k]).1
                < node_ids.len(),
    decreases node_ids.len(),
{
    if node_ids.len() > 0 {
        lemma_node_pairs(node_ids.drop_last());
        let rest = node_pairs(node_ids.drop_last());
        assert forall|k: int| 0 <= k < node_pairs(node_ids).len() implies (#[trigger] node_pairs(
            node_ids,
        )[k]).1 < node_ids.len() by {
            if k < rest.len() {
                assert(node_pairs(node_ids)[k] == rest[k]);
            }
        }
    }
}

/// Where no two edges match one pattern edge, the edge id map holds the
/// input edge of every edge under its pattern edge, and is left as it was
/// everywhere else.
pub proof fn lemma_id_map_over(base: Seq<Option<u64>>, edges: Seq<MatchEdge>)
    requires
        distinct_by(edges, pattern_id_tag()),
        forall|k: int| 0 <= k < edges.len() ==> (#[trigger] edges[k]).matched.id < base.len(),
    ensures
        id_map_over(base, edges).len() == base.len(),
        forall|k: int|
            0 <= k < edges.len() ==> id_map_over(base, edges)[(#[trigger] edges[k]).matched.id as int]
                == Some(edges[k].input_edge.id),
        forall|p: int|
            0 <= p < base.len() && (forall|k: int|
                0 <= k < edges.len() ==> (#[trigger] edges[k]).matched.id != p) ==> #[trigger] id_map_over(
                base,
                edges,
            )[p] == base[p],
    decreases edges.len(),
{
    if edges.len() > 0 {
        let rest = edges.drop_last();
        let last = edges.last();
        assert(distinct_by(rest, pattern_id_tag())) by {
            assert forall|i: int, j: int| 0 <= i < j < rest.len() implies pattern_id_tag()(
                #[trigger] rest[i],
            ) != pattern_id_tag()(#[trigger] rest[j]) by {
                assert(rest[i] == edges[i] && rest[j] == edges[j]);
            }
        }
        assert forall|k: int| 0 <= k < rest.len() implies (#[trigger] rest[k]).matched.id < base.len() by {
            assert(rest[k] == edges[k]);
        }
        lemma_id_map_over(base, rest);
        let before = id_map_over(base, rest);
        let after = id_map_over(base, edges);
        assert(edges[edges.len() - 1].matched.id < base.len());
        assert forall|k: int| 0 <= k < edges.len() implies after[(#[trigger] edges[k]).matched.id as int]
            == Some(edges[k].input_edge.id) by {
            if k < rest.len() {
                assert(rest[k] == edges[k]);
                assert(pattern_id_tag()(edges[k]) != pattern_id_tag()(edges[edges.len() - 1]));
                assert(before[rest[k].matched.id as int] == Some(rest[k].input_edge.id));
            }
        }
        assert forall|p: int|
            0 <= p < base.len() && (forall|k: int|
                0 <= k < edges.len() ==> (#[trigger] edges[k]).matched.id != p) implies #[trigger] after[p]
            == base[p] by {
            assert forall|k: int| 0 <= k < rest.len() implies (#[trigger] rest[k]).matched.id != p by {
                assert(rest[k] == edges[k]);
            }
            assert(edges[edges.len() - 1].matched.id != p);
            assert(before[p] == base[p]);
        }
    }
}

/// Adds the pairs that the node map stands for to the list, and sorts the
/// list by input node id.
pub fn convert_node_id_map(node_id_map: &mut Vec<(u64, u64)>, node_ids: &Vec<u64>)
    ensures
        final(node_id_map)@ == sorted_by(old(node_id_map)@ + node_pairs(node_ids@), node_key()),
{
    let ghost given = node_id_map@;
    let mut i: usize = 0;
    proof {
        assert(node_ids@.take(0) == Seq::<u64>::empty());
        assert(given + Seq::<(u64, u64)>::empty() == given);
    }
    while i < node_ids.len()
        invariant
            0 <= i <= node_ids@.len(),
            node_id_map@ == given + node_pairs(node_ids@.take(i as int)),
        decreases node_ids@.len() - i,
    {
        proof {
            assert(node_ids@.take(i + 1).drop_last() == node_ids@.take(i as int));
            assert(node_ids@.take(i + 1).last() == node_ids@[i as int]);
        }
        let node_id = node_ids[i];
        // an entry of 0: no input node stands for pattern node `i`
        if node_id != 0 {
            node_id_map.push((node_id, i as u64));
            proof {
                assert(node_id_map@ == given + node_pairs(node_ids@.take(i as int)).push(
                    (node_id, i as u64),
                ));
            }
        }
        i += 1;
    }
    proof {
        assert(node_ids@.take(node_ids@.len() as int) == node_ids@);
    }
    let sorted = sort_nodes(node_id_map);
    *node_id_map = sorted;
}

/// Enters the input edge of each matched edge under its pattern edge, and
/// returns the earliest timestamp among the edges.
pub fn create_edge_id_map(edge_id_map: &mut Vec<Option<u64>>, edges: &Vec<MatchEdge>) -> (earliest_time:
    u64)
    requires
        forall|k: int|
            0 <= k < edges@.len() ==> (#[trigger] edges@[k]).matched.id < old(edge_id_map)@.len(),
    ensures
        final(edge_id_map)@ == id_map_over(old(edge_id_map)@, edges@),
        earliest_time == earliest_of(edges@),
{
    let mut earliest_time = u64::MAX;
    let ghost given = edge_id_map@;
    let mut k: usize = 0;
    proof {
        assert(edges@.take(0) == Seq::<MatchEdge>::empty());
    }
    while k < edges.len()
        invariant
            0 <= k <= edges@.len(),
            edge_id_map@.len() == given.len(),
            forall|k: int| 0 <= k < edges@.len() ==> (#[trigger] edges@[k]).matched.id < given.len(),
            edge_id_map@ == id_map_over(given, edges@.take(k as int)),
            earliest_time == earliest_of(edges@.take(k as int)),
        decreases edges@.len() - k,
    {
        proof {
            assert(edges@.take(k + 1).drop_last() == edges@.take(k as int));
            assert(edges@.take(k + 1).last() == edges@[k as int]);
        }
        let edge = &edges[k];
        if edge.input_edge.timestamp < earliest_time {
            earliest_time = edge.input_edge.timestamp;
        }
        edge_id_map.set(edge.matched.id, Some(edge.input_edge.id));
        k += 1;
    }
    proof {
        assert(edges@.take(edges@.len() as int) == edges@);
    }
    earliest_time
}

/// The key by which a buffer is kept in order: the earliest time of a
/// match.
pub open spec fn earliest_key<'p>() -> spec_fn(MatchView<'p>) -> int {
    |m: MatchView<'p>| m.earliest_time as int
}

/// The views of a list of matches.
pub open spec fn views_of<'p>(list: Seq<SubPatternMatch<'p>>) -> Seq<MatchView<'p>> {
    Seq::new(list.len(), |i: int| list[i]@)
}

/// The match has expired at time `current_time`: its earliest edge lies a
/// whole window or more back.
pub open spec fn expired(m: MatchView, current_time: u64, window_size: u64) -> bool {
    m.earliest_time + window_size <= current_time
}

/// The buffer without the matches that have expired.
pub open spec fn unexpired<'p>(buffer: Seq<MatchView<'p>>, current_time: u64, window_size: u64) -> Seq<
    MatchView<'p>,
>
    decreases buffer.len(),
{
    if buffer.len() == 0 {
        Seq::empty()
    } else if expired(buffer.last(), current_time, window_size) {
        unexpired(buffer.drop_last(), current_time, window_size)
    } else {
        unexpired(buffer.drop_last(), current_time, window_size).push(buffer.last())
    }
}

/// The buffer with new matches taken in, one after the other: each goes
/// behind the matches that begin as early or earlier, so that the buffer
/// stays in the order of the earliest times.
pub open spec fn absorbed<'p>(buffer: Seq<MatchView<'p>>, news: Seq<MatchView<'p>>) -> Seq<
    MatchView<'p>,
>
    decreases news.len(),
{
    if news.len() == 0 {
        buffer
    } else {
        let before = absorbed(buffer, news.drop_last());
        before.insert(
            slot_by(before, earliest_key(), news.last().earliest_time as int),
            news.last(),
        )
    }
}

/// The merges of one new match with the matches of the sibling buffer, in
/// the order of the buffer.
pub open spec fn joined_with<'p>(
    new_match: MatchView<'p>,
    sibling: Seq<MatchView<'p>>,
    relation: &Relation,
) -> Seq<MatchView<'p>>
    decreases sibling.len(),
{
    if sibling.len() == 0 {
        Seq::empty()
    } else if new_match.can_merge(sibling.last(), relation) {
        joined_with(new_match, sibling.drop_last(), relation).push(
            new_match.merged_with(sibling.last()),
        )
    } else {
        joined_with(new_match, sibling.drop_last(), relation)
    }
}

/// The merges of the new matches of a buffer with the matches of its
/// sibling buffer: for each new match in turn, its merges with the matches
/// of the sibling.
pub open spec fn joined<'p>(
    news: Seq<MatchView<'p>>,
    sibling: Seq<MatchView<'p>>,
    relation: &Relation,
) -> Seq<MatchView<'p>>
    decreases news.len(),
{
    if news.len() == 0 {
        Seq::empty()
    } else {
        joined(news.drop_last(), sibling, relation) + joined_with(news.last(), sibling, relation)
    }
}

/// The latest of the latest times of the matches; 0 for none.
pub open spec fn latest_among(news: Seq<MatchView>) -> u64
    decreases news.len(),
{
    if news.len() == 0 {
        0
    } else if news.last().latest_time > latest_among(news.drop_last()) {
        news.last().latest_time
    } else {
        latest_among(news.drop_last())
    }
}

/// The edge id map of the match has an entry for exactly the pattern edges
/// of the set.
pub open spec fn fills(m: MatchView, edge_ids: Set<usize>) -> bool {
    forall|p: int|
        0 <= p < m.edge_id_map.len() ==> ((#[trigger] m.edge_id_map[p]) is Some <==> edge_ids.contains(
            p as usize,
        ))
}

/// The buffer of the sibling of buffer `id`: the two differ in the last
/// bit of their ids.
pub open spec fn sibling_of(id: int) -> int {
    if id % 2 == 0 {
        id + 1
    } else {
        id - 1
    }
}

/// The buffer above buffer `id` and its sibling.
pub open spec fn parent_of(id: int) -> int {
    id - id % 2 + 2
}

/// The leaf buffer of sub-pattern `id`.
pub open spec fn leaf_of(id: int) -> int {
    if id == 0 {
        0
    } else {
        2 * id - 1
    }
}

/// The answer names, for every pattern edge, the input edge that the match
/// holds for it.
pub open spec fn is_answer_of(answer: Seq<Rc<InputEdge>>, m: MatchView) -> bool {
    &&& answer.len() == m.edge_id_map.len()
    &&& forall|p: int| 0 <= p < answer.len() ==> #[trigger] names_edge(answer, m, p)
}

/// The answer names, for pattern edge `p`, the input edge that the match
/// holds for it.
pub open spec fn names_edge(answer: Seq<Rc<InputEdge>>, m: MatchView, p: int) -> bool {
    exists|k: int|
        0 <= k < m.match_edges.len() && (#[trigger] m.match_edges[k]).matched.id == p && answer[p]
            == m.match_edges[k].input_edge
}

/// The matches that wait in the buffers of the join tree.
pub struct JoinView<'p> {
    /// For each buffer, the matches kept for later merges.
    pub buffers: Seq<Seq<MatchView<'p>>>,
    /// For each buffer, the new matches not merged with the sibling yet.
    pub news: Seq<Seq<MatchView<'p>>>,
}

/// What a walk up the tree leaves behind.
pub struct JoinRun<'p> {
    pub state: JoinView<'p>,
    /// The matches that reached the root: the matches of the whole pattern.
    pub answers: Seq<MatchView<'p>>,
}

/// One step of a walk up the tree, at buffer `id` below the root: the new
/// matches of the buffer are taken into it, its sibling drops what has
/// expired, and the merges of the new matches with what the sibling still
/// holds become new matches of the buffer above.
pub open spec fn stepped<'p>(
    state: JoinView<'p>,
    relations: Seq<Relation>,
    window_size: u64,
    id: int,
    current_time: u64,
) -> JoinView<'p> {
    let taken = absorbed(state.buffers[id], state.news[id]);
    let kept = unexpired(state.buffers[sibling_of(id)], current_time, window_size);
    let merges = joined(state.news[id], kept, &relations[id]);
    JoinView {
        buffers: state.buffers.update(id, taken).update(sibling_of(id), kept),
        news: state.news.update(id, Seq::empty()).update(
            parent_of(id),
            state.news[parent_of(id)] + merges,
        ),
    }
}

/// The walk up the tree from buffer `id`: step by step up to the root. At
/// the root the new matches are taken into the buffer; what the buffer then
/// holds are the answers, and the root is left empty.
pub open spec fn climbed<'p>(
    state: JoinView<'p>,
    relations: Seq<Relation>,
    window_size: u64,
    id: int,
    current_time: u64,
) -> JoinRun<'p>
    decreases state.buffers.len() - id,
{
    if id < 0 || id + 1 >= state.buffers.len() {
        JoinRun {
            state: JoinView {
                buffers: state.buffers.update(id, Seq::empty()),
                news: state.news.update(id, Seq::empty()),
            },
            answers: absorbed(state.buffers[id], state.news[id]),
        }
    } else {
        climbed(
            stepped(state, relations, window_size, id, current_time),
            relations,
            window_size,
            parent_of(id),
            current_time,
        )
    }
}

/// The walks up the tree from every buffer from `id` on, below `count`,
/// that holds new matches, in the order of the buffers. The time of a walk
/// is the latest time among the new matches it starts from.
pub open spec fn swept<'p>(
    state: JoinView<'p>,
    relations: Seq<Relation>,
    window_size: u64,
    count: int,
    id: int,
) -> JoinRun<'p>
    decreases count - id,
{
    if id < 0 || id >= count {
        JoinRun { state, answers: Seq::empty() }
    } else if state.news[id].len() == 0 {
        swept(state, relations, window_size, count, id + 1)
    } else {
        let walk = climbed(state, relations, window_size, id, latest_among(state.news[id]));
        let rest = swept(walk.state, relations, window_size, count, id + 1);
        JoinRun { state: rest.state, answers: walk.answers + rest.answers }
    }
}

/// The state with each incoming match put behind the new matches of the
/// leaf buffer of its sub-pattern.
pub open spec fn delivered<'p>(state: JoinView<'p>, incoming: Seq<MatchView<'p>>) -> JoinView<'p>
    decreases incoming.len(),
{
    if incoming.len() == 0 {
        state
    } else {
        let before = delivered(state, incoming.drop_last());
        let leaf = leaf_of(incoming.last().id as int);
        JoinView { buffers: before.buffers, news: before.news.update(leaf, before.news[leaf].push(incoming.last())) }
    }
}

/// Every match that has not expired was in the buffer, and begins less than
/// a whole window before the current time; and every match of the buffer
/// that begins so late has not expired.
pub proof fn lemma_unexpired(buffer: Seq<MatchView>, current_time: u64, window_size: u64)
    ensures
        forall|i: int|
            0 <= i < unexpired(buffer, current_time, window_size).len() ==> {
                &&& buffer.contains(#[trigger] unexpired(buffer, current_time, window_size)[i])
                &&& !expired(unexpired(buffer, current_time, window_size)[i], current_time, window_size)
            },
        forall|j: int|
            0 <= j < buffer.len() && !expired(buffer[j], current_time, window_size) ==> unexpired(
                buffer,
                current_time,
                window_size,
            ).contains(#[trigger] buffer[j]),
    decreases buffer.len(),
{
    if buffer.len() > 0 {
        let rest = buffer.drop_last();
        lemma_unexpired(rest, current_time, window_size);
        let kept = unexpired(buffer, current_time, window_size);
        let before = unexpired(rest, current_time, window_size);
        assert forall|i: int| 0 <= i < kept.len() implies {
            &&& buffer.contains(#[trigger] kept[i])
            &&& !expired(kept[i], current_time, window_size)
        } by {
            if i < before.len() {
                assert(kept[i] == before[i]);
                assert(rest.contains(before[i]));
                let j = choose|j: int| 0 <= j < rest.len() && rest[j] == before[i];
                assert(buffer[j] == rest[j]);
            } else {
                assert(kept[i] == buffer[buffer.len() - 1]);
            }
        }
        assert forall|j: int|
            0 <= j < buffer.len() && !expired(buffer[j], current_time, window_size) implies kept.contains(
            #[trigger] buffer[j],
        ) by {
            if j < rest.len() {
                assert(rest[j] == buffer[j]);
                assert(before.contains(rest[j]));
                let i = choose|i: int| 0 <= i < before.len() && before[i] == rest[j];
                assert(kept[i] == before[i]);
            } else {
                assert(kept[kept.len() - 1] == buffer[j]);
            }
        }
    }
}

/// Every merge of a new match with the matches of a sibling is the merge
/// with one of them.
pub proof fn lemma_joined_with<'p>(
    new_match: MatchView<'p>,
    sibling: Seq<MatchView<'p>>,
    relation: &Relation,
)
    ensures
        forall|k: int|
            0 <= k < joined_with(new_match, sibling, relation).len() ==> merge_of(
                #[trigger] joined_with(new_match, sibling, relation)[k],
                new_match,
                sibling,
            ),
    decreases sibling.len(),
{
    if sibling.len() > 0 {
        let rest = sibling.drop_last();
        lemma_joined_with(new_match, rest, relation);
        let before = joined_with(new_match, rest, relation);
        let all = joined_with(new_match, sibling, relation);
        assert forall|k: int| 0 <= k < all.len() implies merge_of(#[trigger] all[k], new_match, sibling) by {
            if k < before.len() {
                assert(all[k] == before[k]);
                assert(merge_of(before[k], new_match, rest));
                let j = choose|j: int|
                    0 <= j < rest.len() && before[k] == new_match.merged_with(#[trigger] rest[j]);
                assert(sibling[j] == rest[j]);
            } else {
                assert(all[k] == new_match.merged_with(sibling[sibling.len() - 1]));
            }
        }
    }
}

/// Every merge of the new matches of a buffer with the matches of its
/// sibling is the merge of one of the new matches with one of the matches
/// of the sibling.
pub proof fn lemma_joined<'p>(
    news: Seq<MatchView<'p>>,
    sibling: Seq<MatchView<'p>>,
    relation: &Relation,
)
    ensures
        forall|k: int|
            0 <= k < joined(news, sibling, relation).len() ==> pair_merge(
                #[trigger] joined(news, sibling, relation)[k],
                news,
                sibling,
            ),
    decreases news.len(),
{
    if news.len() > 0 {
        let rest = news.drop_last();
        lemma_joined(rest, sibling, relation);
        lemma_joined_with(news.last(), sibling, relation);
        let before = joined(rest, sibling, relation);
        let here = joined_with(news.last(), sibling, relation);
        let all = joined(news, sibling, relation);
        assert forall|k: int| 0 <= k < all.len() implies pair_merge(#[trigger] all[k], news, sibling) by {
            if k < before.len() {
                assert(all[k] == before[k]);
                assert(pair_merge(before[k], rest, sibling));
                let (i, j) = choose|i: int, j: int|
                    0 <= i < rest.len() && 0 <= j < sibling.len() && before[k] == (
                    #[trigger] rest[i]).merged_with(#[trigger] sibling[j]);
                assert(news[i] == rest[i]);
            } else {
                assert(all[k] == here[k - before.len()]);
                assert(merge_of(here[k - before.len()], news.last(), sibling));
                let j = choose|j: int|
                    0 <= j < sibling.len() && here[k - before.len()] == news.last().merged_with(
                        #[trigger] sibling[j],
                    );
                assert(news[news.len() - 1] == news.last());
            }
        }
    }
}

/// The match was merged from a new match and a match of the buffer that
/// had not expired.
pub open spec fn merged_in_time<'p>(
    merged: MatchView<'p>,
    news: Seq<MatchView<'p>>,
    buffer: Seq<MatchView<'p>>,
    current_time: u64,
    window_size: u64,
) -> bool {
    exists|i: int, j: int|
        0 <= i < news.len() && 0 <= j < buffer.len() && !expired(
            #[trigger] buffer[j],
            current_time,
            window_size,
        ) && merged == (#[trigger] news[i]).merged_with(buffer[j])
}

/// A match of a buffer that has expired when its sibling joins takes part
/// in none of the merges: every merge of the new matches of the sibling
/// with what the buffer still holds is a merge with a match that begins
/// less than a whole window before the current time.
pub proof fn lemma_expired_never_joined<'p>(
    news: Seq<MatchView<'p>>,
    buffer: Seq<MatchView<'p>>,
    relation: &Relation,
    current_time: u64,
    window_size: u64,
)
    ensures
        forall|k: int|
            0 <= k < joined(news, unexpired(buffer, current_time, window_size), relation).len()
                ==> merged_in_time(
                #[trigger] joined(news, unexpired(buffer, current_time, window_size), relation)[k],
                news,
                buffer,
                current_time,
                window_size,
            ),
{
    let kept = unexpired(buffer, current_time, window_size);
    let merges = joined(news, kept, relation);
    lemma_joined(news, kept, relation);
    lemma_unexpired(buffer, current_time, window_size);
    assert forall|k: int| 0 <= k < merges.len() implies merged_in_time(
        #[trigger] merges[k],
        news,
        buffer,
        current_time,
        window_size,
    ) by {
        assert(pair_merge(merges[k], news, kept));
        let (i, j) = choose|i: int, j: int|
            0 <= i < news.len() && 0 <= j < kept.len() && merges[k] == (#[trigger] news[i]).merged_with(
                #[trigger] kept[j],
            );
        assert(buffer.contains(kept[j]));
        let m = choose|m: int| 0 <= m < buffer.len() && buffer[m] == kept[j];
        assert(!expired(buffer[m], current_time, window_size));
        assert(merges[k] == news[i].merged_with(buffer[m]));
    }
}

/// A buffer in the order of the earliest times stays in that order when it
/// drops what has expired.
pub proof fn lemma_unexpired_rising(buffer: Seq<MatchView>, current_time: u64, window_size: u64)
    requires
        rising(buffer, earliest_key()),
    ensures
        rising(unexpired(buffer, current_time, window_size), earliest_key()),
    decreases buffer.len(),
{
    if buffer.len() > 0 {
        let rest = buffer.drop_last();
        assert(rising(rest, earliest_key())) by {
            assert forall|i: int, j: int| 0 <= i < j < rest.len() implies earliest_key()(
                #[trigger] rest[i],
            ) <= earliest_key()(#[trigger] rest[j]) by {
                assert(rest[i] == buffer[i] && rest[j] == buffer[j]);
            }
        }
        lemma_unexpired_rising(rest, current_time, window_size);
        lemma_unexpired(rest, current_time, window_size);
        let before = unexpired(rest, current_time, window_size);
        let kept = unexpired(buffer, current_time, window_size);
        assert forall|i: int, j: int| 0 <= i < j < kept.len() implies earliest_key()(#[trigger] kept[i])
            <= earliest_key()(#[trigger] kept[j]) by {
            assert(kept[i] == before[i]);
            if j < before.len() {
                assert(kept[j] == before[j]);
            } else {
                assert(kept[j] == buffer[buffer.len() - 1]);
                assert(rest.contains(before[i]));
                let m = choose|m: int| 0 <= m < rest.len() && rest[m] == before[i];
                assert(buffer[m] == rest[m]);
                assert(earliest_key()(buffer[m]) <= earliest_key()(buffer[buffer.len() - 1]));
            }
        }
    }
}

/// A buffer in the order of the earliest times stays in that order when it
/// takes in new matches, and holds what it held and what it took in.
pub proof fn lemma_absorbed<'p>(buffer: Seq<MatchView<'p>>, news: Seq<MatchView<'p>>)
    requires
        rising(buffer, earliest_key()),
    ensures
        rising(absorbed(buffer, news), earliest_key()),
        absorbed(buffer, news).len() == buffer.len() + news.len(),
        forall|i: int|
            0 <= i < absorbed(buffer, news).len() ==> buffer.contains(#[trigger] absorbed(buffer, news)[i])
                || news.contains(absorbed(buffer, news)[i]),
    decreases news.len(),
{
    if news.len() > 0 {
        let rest = news.drop_last();
        let before = absorbed(buffer, rest);
        lemma_absorbed(buffer, rest);
        crate::sorted::lemma_slot_by(before, earliest_key(), news.last().earliest_time as int);
        let slot = slot_by(before, earliest_key(), news.last().earliest_time as int);
        let after = before.insert(slot, news.last());
        assert forall|i: int, j: int| 0 <= i < j < after.len() implies earliest_key()(#[trigger] after[i])
            <= earliest_key()(#[trigger] after[j]) by {
            if i < slot {
                assert(after[i] == before[i]);
            } else if i > slot {
                assert(after[i] == before[i - 1]);
            }
            if j < slot {
                assert(after[j] == before[j]);
            } else if j > slot {
                assert(after[j] == before[j - 1]);
            }
        }
        assert forall|i: int| 0 <= i < after.len() implies buffer.contains(#[trigger] after[i])
            || news.contains(after[i]) by {
            if i == slot {
                assert(news[news.len() - 1] == after[i]);
            } else {
                let earlier = if i < slot { i } else { i - 1 };
                assert(after[i] == before[earlier]);
                if rest.contains(before[earlier]) {
                    let j = choose|j: int| 0 <= j < rest.len() && rest[j] == before[earlier];
                    assert(news[j] == rest[j]);
                }
            }
        }
    }
}

/// The merge of two sound matches has entries for the pattern edges of
/// both.
pub proof fn lemma_merged_fills(a: MatchView, b: MatchView, left: Set<usize>, right: Set<usize>)
    requires
        a.edge_id_map.len() == b.edge_id_map.len(),
        fills(a, left),
        fills(b, right),
    ensures
        fills(a.merged_with(b), left.union(right)),
{
    let merged = a.merged_with(b);
    assert forall|p: int| 0 <= p < merged.edge_id_map.len() implies ((
    #[trigger] merged.edge_id_map[p]) is Some <==> left.union(right).contains(p as usize)) by {
        assert(a.edge_id_map[p] is Some <==> left.contains(p as usize));
        assert(b.edge_id_map[p] is Some <==> right.contains(p as usize));
    }
}

/// Every merge of a new match with the matches of the sibling is the merge
/// with one of them.
pub open spec fn merge_of<'p>(
    merged: MatchView<'p>,
    new_match: MatchView<'p>,
    sibling: Seq<MatchView<'p>>,
) -> bool {
    exists|j: int| 0 <= j < sibling.len() && merged == new_match.merged_with(#[trigger] sibling[j])
}

/// Puts new matches into a buffer, one after the other, each behind the
/// matches that begin as early or earlier.
fn take_in<'p>(buffer: &mut Vec<SubPatternMatch<'p>>, news: Vec<SubPatternMatch<'p>>)
    ensures
        views_of(final(buffer)@) == absorbed(views_of(old(buffer)@), views_of(news@)),
{
    let ghost given = views_of(buffer@);
    let ghost incoming = views_of(news@);
    proof {
        assert(incoming.take(0) == Seq::<MatchView<'p>>::empty());
    }
    for new_match in it: news
        invariant
            it.seq() == news@,
            incoming == views_of(news@),
            views_of(buffer@) == absorbed(given, incoming.take(it.index() as int)),
    {
        let ghost before = views_of(buffer@);
        let ghost key = new_match.earliest_time as int;
        let mut j: usize = buffer.len();
        proof {
            assert(before.take(j as int) == before);
            assert(incoming.take(it.index() + 1).drop_last() == incoming.take(it.index() as int));
            assert(incoming.take(it.index() + 1).last() == new_match@);
        }
        while j > 0 && buffer[j - 1].earliest_time > new_match.earliest_time
            invariant
                0 <= j <= buffer@.len(),
                before == views_of(buffer@),
                key == new_match.earliest_time,
                slot_by(before, earliest_key(), key) == slot_by(before.take(j as int), earliest_key(), key),
            decreases j,
        {
            proof {
                lemma_slot_by_step(before, earliest_key(), key, j as int);
                assert(before[j - 1] == buffer@[j - 1]@);
            }
            j -= 1;
        }
        proof {
            lemma_slot_by_step(before, earliest_key(), key, j as int);
            if j > 0 {
                assert(before[j - 1] == buffer@[j - 1]@);
            }
        }
        buffer.insert(j, new_match);
        proof {
            assert(views_of(buffer@) == before.insert(j as int, new_match@));
        }
    }
    proof {
        assert(incoming.take(news@.len() as int) == incoming);
    }
}

/// The buffer without the matches that have expired: a match has expired
/// when its earliest edge lies a whole window or more before
/// `current_time`.
fn drop_expired<'p>(buffer: &mut Vec<SubPatternMatch<'p>>, current_time: u64, window_size: u64)
    ensures
        views_of(final(buffer)@) == unexpired(views_of(old(buffer)@), current_time, window_size),
{
    let mut given: Vec<SubPatternMatch<'p>> = Vec::new();
    std::mem::swap(&mut given, buffer);
    let ghost held = views_of(given@);
    proof {
        assert(held.take(0) == Seq::<MatchView<'p>>::empty());
        assert(views_of(buffer@) == Seq::<MatchView<'p>>::empty());
    }
    for kept in it: given
        invariant
            it.seq() == given@,
            held == views_of(given@),
            views_of(buffer@) == unexpired(held.take(it.index() as int), current_time, window_size),
    {
        let ghost before = views_of(buffer@);
        proof {
            assert(held.take(it.index() + 1).drop_last() == held.take(it.index() as int));
            assert(held.take(it.index() + 1).last() == kept@);
        }
        let gone = current_time >= window_size && kept.earliest_time <= current_time - window_size;
        if !gone {
            buffer.push(kept);
            proof {
                assert(views_of(buffer@) == before.push(kept@));
            }
        }
    }
    proof {
        assert(held.take(given@.len() as int) == held);
    }
}

/// The match is the merge of one of the new matches with one of the
/// matches of the sibling.
pub open spec fn pair_merge<'p>(
    merged: MatchView<'p>,
    news: Seq<MatchView<'p>>,
    sibling: Seq<MatchView<'p>>,
) -> bool {
    exists|i: int, j: int|
        0 <= i < news.len() && 0 <= j < sibling.len() && merged == (#[trigger] news[i]).merged_with(
            #[trigger] sibling[j],
        )
}

/// Merges each new match with each match of the sibling, with the scratch
/// space and the relation of the buffer `scratch`.
fn join_lists<'p>(
    scratch: &mut SubPatternBuffer<'p>,
    news: &Vec<SubPatternMatch<'p>>,
    sibling: &Vec<SubPatternMatch<'p>>,
) -> (merges: Vec<SubPatternMatch<'p>>)
    requires
        old(scratch).nodes_clear(),
        old(scratch).times_clear(),
        forall|i: int|
            0 <= i < news@.len() ==> (#[trigger] news@[i])@.wf(
                old(scratch).used_nodes@.len(),
                old(scratch).timestamps@.len(),
            ),
        forall|j: int|
            0 <= j < sibling@.len() ==> (#[trigger] sibling@[j])@.wf(
                old(scratch).used_nodes@.len(),
                old(scratch).timestamps@.len(),
            ),
    ensures
        final(scratch).same_but_scratch(old(scratch)),
        final(scratch).nodes_clear(),
        final(scratch).times_clear(),
        views_of(merges@) == joined(views_of(news@), views_of(sibling@), &old(scratch).relation),
        forall|k: int|
            0 <= k < merges@.len() ==> (#[trigger] merges@[k])@.wf(
                old(scratch).used_nodes@.len(),
                old(scratch).timestamps@.len(),
            ) && pair_merge(merges@[k]@, views_of(news@), views_of(sibling@)),
{
    let mut merges: Vec<SubPatternMatch<'p>> = Vec::new();
    let ghost fresh = views_of(news@);
    let ghost held = views_of(sibling@);
    let ghost relation = &scratch.relation;
    let mut i: usize = 0;
    proof {
        assert(fresh.take(0) == Seq::<MatchView<'p>>::empty());
        assert(views_of(merges@) == Seq::<MatchView<'p>>::empty());
    }
    while i < news.len()
        invariant
            0 <= i <= news@.len(),
            fresh == views_of(news@),
            held == views_of(sibling@),
            relation == &old(scratch).relation,
            scratch.same_but_scratch(old(scratch)),
            scratch.nodes_clear(),
            scratch.times_clear(),
            forall|i: int|
                0 <= i < news@.len() ==> (#[trigger] news@[i])@.wf(
                    scratch.used_nodes@.len(),
                    scratch.timestamps@.len(),
                ),
            forall|j: int|
                0 <= j < sibling@.len() ==> (#[trigger] sibling@[j])@.wf(
                    scratch.used_nodes@.len(),
                    scratch.timestamps@.len(),
                ),
            views_of(merges@) == joined(fresh.take(i as int), held, relation),
            forall|k: int|
                0 <= k < merges@.len() ==> (#[trigger] merges@[k])@.wf(
                    scratch.used_nodes@.len(),
                    scratch.timestamps@.len(),
                ) && pair_merge(merges@[k]@, fresh, held),
        decreases news@.len() - i,
    {
        let ghost so_far = views_of(merges@);
        let mut j: usize = 0;
        proof {
            assert(fresh.take(i + 1).drop_last() == fresh.take(i as int));
            assert(fresh.take(i + 1).last() == news@[i as int]@);
            assert(held.take(0) == Seq::<MatchView<'p>>::empty());
            assert(so_far + Seq::<MatchView<'p>>::empty() == so_far);
        }
        while j < sibling.len()
            invariant
                0 <= j <= sibling@.len(),
                i < news@.len(),
                fresh == views_of(news@),
                held == views_of(sibling@),
                relation == &old(scratch).relation,
                scratch.same_but_scratch(old(scratch)),
                scratch.nodes_clear(),
                scratch.times_clear(),
                forall|i: int|
                    0 <= i < news@.len() ==> (#[trigger] news@[i])@.wf(
                        scratch.used_nodes@.len(),
                        scratch.timestamps@.len(),
                    ),
                forall|j: int|
                    0 <= j < sibling@.len() ==> (#[trigger] sibling@[j])@.wf(
                        scratch.used_nodes@.len(),
                        scratch.timestamps@.len(),
                    ),
                views_of(merges@) == so_far + joined_with(
                    news@[i as int]@,
                    held.take(j as int),
                    relation,
                ),
                forall|k: int|
                    0 <= k < merges@.len() ==> (#[trigger] merges@[k])@.wf(
                        scratch.used_nodes@.len(),
                        scratch.timestamps@.len(),
                    ) && pair_merge(merges@[k]@, fresh, held),
            decreases sibling@.len() - j,
        {
            let ghost before = merges@;
            proof {
                assert(held.take(j + 1).drop_last() == held.take(j as int));
                assert(held.take(j + 1).last() == sibling@[j as int]@);
            }
            match SubPatternMatch::merge_matches(scratch, &news[i], &sibling[j]) {
                Some(merged) => {
                    merges.push(merged);
                    proof {
                        assert(views_of(merges@) == views_of(before).push(merged@));
                        assert(so_far + joined_with(news@[i as int]@, held.take(j as int), relation).push(
                            merged@,
                        ) == views_of(before).push(merged@));
                        assert forall|k: int| 0 <= k < merges@.len() implies (
                        #[trigger] merges@[k])@.wf(
                            scratch.used_nodes@.len(),
                            scratch.timestamps@.len(),
                        ) && pair_merge(merges@[k]@, fresh, held) by {
                            if k < before.len() {
                                assert(merges@[k] == before[k]);
                            } else {
                                assert(merged@ == fresh[i as int].merged_with(held[j as int]));
                            }
                        }
                    }
                },
                None => {},
            }
            j += 1;
        }
        proof {
            assert(held.take(sibling@.len() as int) == held);
        }
        i += 1;
    }
    proof {
        assert(fresh.take(news@.len() as int) == fresh);
    }
    merges
}

/// The buffer stands for every pattern edge of the sub-pattern.
pub open spec fn holds_edges_of(edge_ids: Set<usize>, sub_pattern: SubPattern) -> bool {
    forall|q: int|
        0 <= q < sub_pattern.edges@.len() ==> edge_ids.contains((#[trigger] sub_pattern.edges@[q]).id)
}

/// The buffer stands for the pattern edges of the sub-pattern and no
/// others.
pub open spec fn is_leaf_of(edge_ids: Set<usize>, sub_pattern: SubPattern) -> bool {
    forall|e: usize|
        edge_ids.contains(e) <==> exists|q: int|
            0 <= q < sub_pattern.edges@.len() && (#[trigger] sub_pattern.edges@[q]).id == e
}

/// The buffers are a tree for the first `done` sub-patterns, with nothing
/// in it yet: buffer `b` has id `b` and names its sibling, has clean scratch
/// space as large as the pattern, and no matches; the leaves stand for the
/// pattern edges and pattern nodes of their sub-patterns; the buffer above
/// two siblings stands for the pattern edges and pattern nodes of both, and
/// the two siblings have the relation between them.
pub open spec fn tree_built(
    buffers: Seq<SubPatternBuffer>,
    pattern: &Pattern,
    sub_patterns: Seq<SubPattern>,
    done: int,
) -> bool {
    &&& buffers.len() == 2 * done - 1
    &&& forall|b: int|
        0 <= b < buffers.len() ==> {
            &&& (#[trigger] buffers[b]).id == b
            &&& buffers[b].sibling_id == sibling_of(b)
            &&& buffers[b].max_num_nodes == pattern.num_nodes
            &&& buffers[b].used_nodes@.len() == pattern.num_nodes
            &&& buffers[b].timestamps@.len() == pattern.edges@.len()
            &&& buffers[b].nodes_clear()
            &&& buffers[b].times_clear()
            &&& buffers[b].buffer@.len() == 0
            &&& buffers[b].new_match_buffer@.len() == 0
        }
    &&& forall|b: int|
        0 <= b < buffers.len() - 1 && b % 2 == 0 ==> {
            &&& (#[trigger] buffers[b + 2]).edge_id_list@ == buffers[b].edge_id_list@.union(
                buffers[b + 1].edge_id_list@,
            )
            &&& buffers[b + 2].node_id_list@ == buffers[b].node_id_list@.union(
                buffers[b + 1].node_id_list@,
            )
            &&& buffers[b].relation.shared_nodes@ == buffers[b + 1].relation.shared_nodes@
            &&& buffers[b].relation.edge_orders@ == buffers[b + 1].relation.edge_orders@
            &&& buffers[b].relation.relates(
                &pattern.order,
                pattern.num_nodes as nat,
                buffers[b].node_id_list@,
                buffers[b + 1].node_id_list@,
                buffers[b].edge_id_list@,
                buffers[b + 1].edge_id_list@,
            )
        }
    &&& forall|j: int|
        0 <= j < done ==> is_leaf_of(buffers[leaf_of(j)].edge_id_list@, #[trigger] sub_patterns[j])
    &&& forall|j: int|
        0 <= j < done ==> has_nodes_of(buffers[leaf_of(j)].node_id_list@, #[trigger] sub_patterns[j])
    &&& forall|j: int|
        0 <= j < done ==> holds_edges_of(buffers[buffers.len() - 1].edge_id_list@, #[trigger] sub_patterns[j])
}

/// The join tree: one leaf buffer for each sub-pattern, and above each two
/// siblings a buffer for their merges, up to the root.
pub struct JoinLayer<'p> {
    pub pattern: &'p Pattern,
    pub sub_pattern_buffers: Vec<SubPatternBuffer<'p>>,
    /// How far back in time, in milliseconds, a match may begin.
    pub window_size: u64,
}

impl<'p> JoinLayer<'p> {
    /// The matches that wait in the buffers.
    pub open spec fn view(&self) -> JoinView<'p> {
        JoinView {
            buffers: Seq::new(
                self.sub_pattern_buffers@.len(),
                |b: int| views_of(self.sub_pattern_buffers@[b].buffer@),
            ),
            news: Seq::new(
                self.sub_pattern_buffers@.len(),
                |b: int| views_of(self.sub_pattern_buffers@[b].new_match_buffer@),
            ),
        }
    }

    /// The relations of the buffers with their siblings.
    pub open spec fn relations(&self) -> Seq<Relation> {
        Seq::new(self.sub_pattern_buffers@.len(), |b: int| self.sub_pattern_buffers@[b].relation)
    }

    /// The matches are sound for the pattern and have entries for the
    /// pattern edges of the set.
    pub open spec fn sound_matches(&self, list: Seq<MatchView>, edge_ids: Set<usize>) -> bool {
        forall|i: int|
            0 <= i < list.len() ==> (#[trigger] list[i]).wf(
                self.pattern.num_nodes as nat,
                self.pattern.edges@.len(),
            ) && fills(list[i], edge_ids)
    }

    /// Buffer `b` is sound: its scratch space is clean and as large as the
    /// pattern, its matches are sound matches for its pattern edges, and
    /// the matches it keeps are in the order of their earliest times.
    pub open spec fn sound_buffer(&self, b: int) -> bool {
        let buffer = self.sub_pattern_buffers@[b];
        &&& buffer.used_nodes@.len() == self.pattern.num_nodes
        &&& buffer.timestamps@.len() == self.pattern.edges@.len()
        &&& buffer.nodes_clear()
        &&& buffer.times_clear()
        &&& self.sound_matches(views_of(buffer.buffer@), buffer.edge_id_list@)
        &&& self.sound_matches(views_of(buffer.new_match_buffer@), buffer.edge_id_list@)
        &&& rising(views_of(buffer.buffer@), earliest_key())
    }

    /// The pattern edges that buffer `b` stands for.
    pub open spec fn edges_of(&self, b: int) -> Set<usize> {
        self.sub_pattern_buffers@[b].edge_id_list@
    }

    /// The tree is sound: it has an odd number of buffers, all sound; the
    /// buffer above two siblings stands for the pattern edges of both; and
    /// the root stands for every edge of the pattern.
    pub open spec fn sound_tree(&self) -> bool {
        let count = self.sub_pattern_buffers@.len();
        &&& count % 2 == 1
        &&& count + 2 <= usize::MAX
        &&& forall|b: int| 0 <= b < count ==> #[trigger] self.sound_buffer(b)
        &&& forall|b: int|
            0 <= b < count - 1 && b % 2 == 0 ==> #[trigger] self.edges_of(b + 2) == self.edges_of(
                b,
            ).union(self.edges_of(b + 1))
        &&& forall|p: int|
            0 <= p < self.pattern.edges@.len() ==> #[trigger] self.edges_of(count - 1).contains(
                p as usize,
            )
    }

    /// The tree is sound, and its root is empty.
    pub open spec fn wf(&self) -> bool {
        &&& self.sound_tree()
        &&& self.sub_pattern_buffers@[self.sub_pattern_buffers@.len() - 1].buffer@.len() == 0
        &&& self.sub_pattern_buffers@[self.sub_pattern_buffers@.len() - 1].new_match_buffer@.len() == 0
    }

    /// The tree has the shape of `other`: the same pattern and window, and
    /// buffers for the same pattern nodes and edges with the same
    /// relations.
    pub open spec fn same_shape(&self, other: &Self) -> bool {
        &&& self.pattern == other.pattern
        &&& self.window_size == other.window_size
        &&& self.sub_pattern_buffers@.len() == other.sub_pattern_buffers@.len()
        &&& forall|b: int|
            0 <= b < self.sub_pattern_buffers@.len() ==> {
                &&& (#[trigger] self.sub_pattern_buffers@[b]).id == other.sub_pattern_buffers@[b].id
                &&& self.sub_pattern_buffers@[b].sibling_id == other.sub_pattern_buffers@[b].sibling_id
                &&& self.sub_pattern_buffers@[b].node_id_list == other.sub_pattern_buffers@[b].node_id_list
                &&& self.sub_pattern_buffers@[b].edge_id_list == other.sub_pattern_buffers@[b].edge_id_list
                &&& self.sub_pattern_buffers@[b].relation == other.sub_pattern_buffers@[b].relation
                &&& self.sub_pattern_buffers@[b].max_num_nodes == other.sub_pattern_buffers@[b].max_num_nodes
            }
    }

    /// Everything but the scratch space of the buffers is as in `other`.
    pub open spec fn same_but_scratch(&self, other: &Self) -> bool {
        &&& self.pattern == other.pattern
        &&& self.window_size == other.window_size
        &&& self.sub_pattern_buffers@.len() == other.sub_pattern_buffers@.len()
        &&& forall|b: int|
            0 <= b < self.sub_pattern_buffers@.len() ==> (
            #[trigger] self.sub_pattern_buffers@[b]).same_but_scratch(&other.sub_pattern_buffers@[b])
    }

    /// Drops from a buffer the matches that have expired at the time
    /// `latest_time`.
    pub fn clear_expired(&mut self, latest_time: u64, buffer_id: usize)
        requires
            buffer_id < old(self).sub_pattern_buffers@.len(),
        ensures
            final(self).pattern == old(self).pattern,
            final(self).window_size == old(self).window_size,
            final(self).sub_pattern_buffers@.len() == old(self).sub_pattern_buffers@.len(),
            forall|b: int|
                0 <= b < final(self).sub_pattern_buffers@.len() && b != buffer_id
                    ==> #[trigger] final(self).sub_pattern_buffers@[b] == old(self).sub_pattern_buffers@[b],
            views_of(final(self).sub_pattern_buffers@[buffer_id as int].buffer@) == unexpired(
                views_of(old(self).sub_pattern_buffers@[buffer_id as int].buffer@),
                latest_time,
                old(self).window_size,
            ),
            final(self).sub_pattern_buffers@[buffer_id as int].new_match_buffer == old(
                self,
            ).sub_pattern_buffers@[buffer_id as int].new_match_buffer,
            final(self).sub_pattern_buffers@[buffer_id as int].but_buffer(
                &old(self).sub_pattern_buffers@[buffer_id as int],
            ),
    {
        let window_size = self.window_size;
        drop_expired(&mut self.sub_pattern_buffers[buffer_id].buffer, latest_time, window_size);
    }

    /// Merges the new matches of buffer `my_id` with the matches that the
    /// buffer `sibling_id` holds.
    pub fn join_with_sibling(&mut self, my_id: usize, sibling_id: usize) -> (merges: Vec<
        SubPatternMatch<'p>,
    >)
        requires
            my_id < old(self).sub_pattern_buffers@.len(),
            sibling_id < old(self).sub_pattern_buffers@.len(),
            my_id != sibling_id,
            old(self).sound_buffer(my_id as int),
            old(self).sound_buffer(sibling_id as int),
        ensures
            final(self).same_but_scratch(old(self)),
            forall|b: int|
                0 <= b < final(self).sub_pattern_buffers@.len() && b != my_id
                    ==> #[trigger] final(self).sub_pattern_buffers@[b] == old(self).sub_pattern_buffers@[b],
            final(self).sub_pattern_buffers@[my_id as int].nodes_clear(),
            final(self).sub_pattern_buffers@[my_id as int].times_clear(),
            views_of(merges@) == joined(
                views_of(old(self).sub_pattern_buffers@[my_id as int].new_match_buffer@),
                views_of(old(self).sub_pattern_buffers@[sibling_id as int].buffer@),
                &old(self).sub_pattern_buffers@[my_id as int].relation,
            ),
            forall|k: int|
                0 <= k < merges@.len() ==> (#[trigger] merges@[k])@.wf(
                    old(self).pattern.num_nodes as nat,
                    old(self).pattern.edges@.len(),
                ) && fills(
                    merges@[k]@,
                    old(self).sub_pattern_buffers@[my_id as int].edge_id_list@.union(
                        old(self).sub_pattern_buffers@[sibling_id as int].edge_id_list@,
                    ),
                ),
    {
        let ghost mine = self.sub_pattern_buffers@[my_id as int];
        let ghost theirs = self.sub_pattern_buffers@[sibling_id as int];
        let mut news: Vec<SubPatternMatch<'p>> = Vec::new();
        std::mem::swap(&mut news, &mut self.sub_pattern_buffers[my_id].new_match_buffer);
        let mut held: Vec<SubPatternMatch<'p>> = Vec::new();
        std::mem::swap(&mut held, &mut self.sub_pattern_buffers[sibling_id].buffer);
        proof {
            assert forall|i: int| 0 <= i < news@.len() implies (#[trigger] news@[i])@.wf(
                self.pattern.num_nodes as nat,
                self.pattern.edges@.len(),
            ) by {
                assert(views_of(news@)[i] == news@[i]@);
            }
            assert forall|j: int| 0 <= j < held@.len() implies (#[trigger] held@[j])@.wf(
                self.pattern.num_nodes as nat,
                self.pattern.edges@.len(),
            ) by {
                assert(views_of(held@)[j] == held@[j]@);
            }
        }
        let merges = join_lists(&mut self.sub_pattern_buffers[my_id], &news, &held);
        proof {
            assert forall|k: int| 0 <= k < merges@.len() implies fills(
                (#[trigger] merges@[k])@,
                mine.edge_id_list@.union(theirs.edge_id_list@),
            ) by {
                let fresh = views_of(news@);
                let kept = views_of(held@);
                assert(pair_merge(merges@[k]@, fresh, kept));
                let (i, j) = choose|i: int, j: int|
                    0 <= i < fresh.len() && 0 <= j < kept.len() && merges@[k]@ == (
                    #[trigger] fresh[i]).merged_with(#[trigger] kept[j]);
                assert(fresh[i] == views_of(mine.new_match_buffer@)[i]);
                assert(kept[j] == views_of(theirs.buffer@)[j]);
                lemma_merged_fills(fresh[i], kept[j], mine.edge_id_list@, theirs.edge_id_list@);
            }
        }
        std::mem::swap(&mut news, &mut self.sub_pattern_buffers[my_id].new_match_buffer);
        std::mem::swap(&mut held, &mut self.sub_pattern_buffers[sibling_id].buffer);
        merges
    }

    /// The matches of the whole pattern that the matches kept in a buffer
    /// stand for: for each match, the input edge of every pattern edge.
    pub fn to_pattern_match(&self, buffer_id: usize) -> (answers: Vec<PatternMatch>)
        requires
            buffer_id < self.sub_pattern_buffers@.len(),
            forall|i: int|
                0 <= i < self.sub_pattern_buffers@[buffer_id as int].buffer@.len() ==> {
                    &&& (#[trigger] self.sub_pattern_buffers@[buffer_id as int].buffer@[i])@.wf(
                        self.pattern.num_nodes as nat,
                        self.pattern.edges@.len(),
                    )
                    &&& forall|p: int|
                        0 <= p < self.pattern.edges@.len() ==> (
                        #[trigger] self.sub_pattern_buffers@[buffer_id as int].buffer@[i].edge_id_map@[p]) is Some
                },
        ensures
            answers@.len() == self.sub_pattern_buffers@[buffer_id as int].buffer@.len(),
            forall|i: int|
                0 <= i < answers@.len() ==> is_answer_of(
                    (#[trigger] answers@[i]).matched_edges@,
                    self.sub_pattern_buffers@[buffer_id as int].buffer@[i]@,
                ),
    {
        let empty_input_edge = Rc::new(
            InputEdge { timestamp: 0, signature: String::new(), id: 0, start: 0, end: 0 },
        );
        let num_edges = self.pattern.edges.len();
        let mut pattern_matches: Vec<PatternMatch> = Vec::new();
        let buffer = &self.sub_pattern_buffers[buffer_id].buffer;
        let mut i: usize = 0;
        while i < buffer.len()
            invariant
                0 <= i <= buffer@.len(),
                num_edges == self.pattern.edges@.len(),
                buffer == &self.sub_pattern_buffers@[buffer_id as int].buffer,
                forall|i: int|
                    0 <= i < buffer@.len() ==> {
                        &&& (#[trigger] buffer@[i])@.wf(
                            self.pattern.num_nodes as nat,
                            self.pattern.edges@.len(),
                        )
                        &&& forall|p: int|
                            0 <= p < self.pattern.edges@.len() ==> (#[trigger] buffer@[i].edge_id_map@[p]) is Some
                    },
                pattern_matches@.len() == i,
                forall|k: int|
                    0 <= k < i ==> is_answer_of((#[trigger] pattern_matches@[k]).matched_edges@, buffer@[k]@),
            decreases buffer@.len() - i,
        {
            let sub_pattern_match = &buffer[i];
            let ghost whole = sub_pattern_match@;
            let ghost keys = edge_keys(whole.match_edges);
            let mut matched_edges: Vec<Rc<InputEdge>> = Vec::new();
            let mut p: usize = 0;
            while p < num_edges
                invariant
                    0 <= p <= num_edges,
                    matched_edges@.len() == p,
                decreases num_edges - p,
            {
                matched_edges.push(share_input_edge(&empty_input_edge));
                p += 1;
            }
            let mut k: usize = 0;
            while k < sub_pattern_match.match_edges.len()
                invariant
                    0 <= k <= sub_pattern_match.match_edges@.len(),
                    whole == sub_pattern_match@,
                    keys == edge_keys(whole.match_edges),
                    whole.wf(self.pattern.num_nodes as nat, num_edges as nat),
                    matched_edges@.len() == num_edges,
                    forall|q: int|
                        0 <= q < k ==> matched_edges@[(#[trigger] whole.match_edges[q]).matched.id as int]
                            == whole.match_edges[q].input_edge,
                decreases sub_pattern_match.match_edges@.len() - k,
            {
                let match_edge = &sub_pattern_match.match_edges[k];
                let ghost before = matched_edges@;
                matched_edges.set(match_edge.matched.id, share_input_edge(&match_edge.input_edge));
                proof {
                    assert forall|q: int| 0 <= q < k + 1 implies matched_edges@[(
                    #[trigger] whole.match_edges[q]).matched.id as int]
                        == whole.match_edges[q].input_edge by {
                        if q < k {
                            assert(keys[q].1 != keys[k as int].1);
                            assert(before[whole.match_edges[q].matched.id as int]
                                == whole.match_edges[q].input_edge);
                        }
                    }
                }
                k += 1;
            }
            proof {
                assert forall|p: int| 0 <= p < matched_edges@.len() implies #[trigger] names_edge(
                    matched_edges@,
                    whole,
                    p,
                ) by {
                    assert(buffer@[i as int].edge_id_map@[p] is Some);
                    assert(whole.edge_id_map[p] is Some);
                    assert(binds(keys, p));
                    let q = choose|q: int| 0 <= q < keys.len() && #[trigger] keys[q].1 == p;
                    assert(whole.match_edges[q].matched.id == p);
                }
                assert(is_answer_of(matched_edges@, whole));
            }
            let ghost found = pattern_matches@;
            let pattern_match = PatternMatch { matched_edges };
            pattern_matches.push(pattern_match);
            proof {
                assert forall|k: int| 0 <= k < i + 1 implies is_answer_of(
                    (#[trigger] pattern_matches@[k]).matched_edges@,
                    buffer@[k]@,
                ) by {
                    if k < i {
                        assert(pattern_matches@[k] == found[k]);
                    }
                }
            }
            i += 1;
        }
        pattern_matches
    }

    /// One step of a walk up the tree, at a buffer below the root: the
    /// sibling drops what has expired, the new matches of the buffer are
    /// merged with what the sibling still holds and taken into the buffer,
    /// and the merges become new matches of the buffer above.
    fn step(&mut self, current_time: u64, buffer_id: usize)
        requires
            old(self).sound_tree(),
            buffer_id + 1 < old(self).sub_pattern_buffers@.len(),
        ensures
            final(self).sound_tree(),
            final(self).same_shape(old(self)),
            final(self)@ == stepped(
                old(self)@,
                old(self).relations(),
                old(self).window_size,
                buffer_id as int,
                current_time,
            ),
    {
        let ghost given = *self;
        let ghost state = self@;
        let ghost id = buffer_id as int;
        let ghost count = self.sub_pattern_buffers@.len() as int;
        let ghost num_nodes = self.pattern.num_nodes as nat;
        let ghost num_edges = self.pattern.edges@.len();
        let sibling_id = self.get_sibling_id(buffer_id);
        let parent_id = self.get_parent_id(buffer_id);
        let ghost taken = absorbed(state.buffers[id], state.news[id]);
        let ghost kept = unexpired(state.buffers[sibling_id as int], current_time, self.window_size);
        let ghost merged = joined(state.news[id], kept, &given.sub_pattern_buffers@[id].relation);
        proof {
            assert(given.sound_buffer(id));
            assert(given.sound_buffer(sibling_id as int));
            assert(given.sound_buffer(parent_id as int));
            lemma_unexpired(state.buffers[sibling_id as int], current_time, self.window_size);
            lemma_unexpired_rising(state.buffers[sibling_id as int], current_time, self.window_size);
            lemma_absorbed(state.buffers[id], state.news[id]);
            let left = id - id % 2;
            assert(given.edges_of(left + 2) == given.edges_of(left).union(given.edges_of(left + 1)));
            assert(given.edges_of(parent_id as int) =~= given.edges_of(id).union(
                given.edges_of(sibling_id as int),
            ));
        }
        self.clear_expired(current_time, sibling_id);
        proof {
            assert(self.sound_buffer(sibling_id as int)) by {
                let before = state.buffers[sibling_id as int];
                assert forall|i: int| 0 <= i < kept.len() implies (#[trigger] kept[i]).wf(
                    num_nodes,
                    num_edges,
                ) && fills(kept[i], given.edges_of(sibling_id as int)) by {
                    assert(before.contains(kept[i]));
                    let j = choose|j: int| 0 <= j < before.len() && before[j] == kept[i];
                    assert(before[j].wf(num_nodes, num_edges));
                }
            }
            assert(self.sub_pattern_buffers@[id] == given.sub_pattern_buffers@[id]);
            assert(self.sound_buffer(id));
        }
        let ghost evicted = *self;
        let mut merges = self.join_with_sibling(buffer_id, sibling_id);
        let ghost joined_state = *self;
        let ghost handed = views_of(merges@);
        proof {
            assert(handed == merged) by {
                assert(evicted.sub_pattern_buffers@[id] == given.sub_pattern_buffers@[id]);
            }
            assert forall|b: int| 0 <= b < count implies (
            #[trigger] joined_state.sub_pattern_buffers@[b]).buffer == evicted.sub_pattern_buffers@[b].buffer
                && joined_state.sub_pattern_buffers@[b].new_match_buffer
                == evicted.sub_pattern_buffers@[b].new_match_buffer by {
                assert(joined_state.sub_pattern_buffers@[b].same_but_scratch(
                    &evicted.sub_pattern_buffers@[b],
                ));
            }
        }
        let mut news: Vec<SubPatternMatch<'p>> = Vec::new();
        std::mem::swap(&mut news, &mut self.sub_pattern_buffers[buffer_id].new_match_buffer);
        let ghost swapped = *self;
        proof {
            assert(views_of(news@) == state.news[id]);
            assert(views_of(swapped.sub_pattern_buffers@[id].buffer@) == state.buffers[id]);
        }
        take_in(&mut self.sub_pattern_buffers[buffer_id].buffer, news);
        let ghost absorbed_state = *self;
        let ghost waiting = views_of(self.sub_pattern_buffers@[parent_id as int].new_match_buffer@);
        proof {
            assert(views_of(absorbed_state.sub_pattern_buffers@[id].buffer@) == taken);
            assert(absorbed_state.sub_pattern_buffers@[parent_id as int]
                == given.sub_pattern_buffers@[parent_id as int]) by {
                assert(joined_state.sub_pattern_buffers@[parent_id as int]
                    == evicted.sub_pattern_buffers@[parent_id as int]);
            }
            assert(waiting == state.news[parent_id as int]);
        }
        self.sub_pattern_buffers[parent_id].new_match_buffer.append(&mut merges);
        proof {
            let all = waiting + handed;
            assert(views_of(self.sub_pattern_buffers@[parent_id as int].new_match_buffer@) == all);
            // the buffer of the step itself
            assert(self.sound_buffer(id)) by {
                let mine = self.sub_pattern_buffers@[id];
                assert(mine == absorbed_state.sub_pattern_buffers@[id]);
                assert(views_of(mine.buffer@) == taken);
                assert(mine.new_match_buffer@.len() == 0);
                assert(mine.edge_id_list == given.sub_pattern_buffers@[id].edge_id_list);
                assert(mine.used_nodes == joined_state.sub_pattern_buffers@[id].used_nodes);
                assert(mine.timestamps == joined_state.sub_pattern_buffers@[id].timestamps);
                assert forall|i: int| 0 <= i < taken.len() implies (#[trigger] taken[i]).wf(
                    num_nodes,
                    num_edges,
                ) && fills(taken[i], given.edges_of(id)) by {
                    if state.buffers[id].contains(taken[i]) {
                        let j = choose|j: int|
                            0 <= j < state.buffers[id].len() && state.buffers[id][j] == taken[i];
                        assert(state.buffers[id][j].wf(num_nodes, num_edges));
                    } else {
                        let j = choose|j: int|
                            0 <= j < state.news[id].len() && state.news[id][j] == taken[i];
                        assert(state.news[id][j].wf(num_nodes, num_edges));
                    }
                }
            }
            // the sibling
            assert(self.sound_buffer(sibling_id as int)) by {
                assert(self.sub_pattern_buffers@[sibling_id as int]
                    == joined_state.sub_pattern_buffers@[sibling_id as int]);
                assert(joined_state.sub_pattern_buffers@[sibling_id as int]
                    == evicted.sub_pattern_buffers@[sibling_id as int]);
                assert(evicted.sound_buffer(sibling_id as int));
            }
            // the buffer above
            assert(self.sound_buffer(parent_id as int)) by {
                let above = self.sub_pattern_buffers@[parent_id as int];
                let was = given.sub_pattern_buffers@[parent_id as int];
                assert(above.buffer == was.buffer);
                assert(above.edge_id_list == was.edge_id_list);
                assert(above.used_nodes == was.used_nodes);
                assert(above.timestamps == was.timestamps);
                assert forall|i: int| 0 <= i < all.len() implies (#[trigger] all[i]).wf(
                    num_nodes,
                    num_edges,
                ) && fills(all[i], given.edges_of(parent_id as int)) by {
                    if i < waiting.len() {
                        assert(all[i] == waiting[i]);
                        assert(waiting[i].wf(num_nodes, num_edges));
                    } else {
                        assert(all[i] == handed[i - waiting.len()]);
                    }
                }
            }
            assert forall|b: int| 0 <= b < count implies #[trigger] self.sound_buffer(b) by {
                if b != id && b != sibling_id && b != parent_id {
                    assert(self.sub_pattern_buffers@[b] == absorbed_state.sub_pattern_buffers@[b]);
                    assert(absorbed_state.sub_pattern_buffers@[b] == joined_state.sub_pattern_buffers@[b]);
                    assert(joined_state.sub_pattern_buffers@[b] == evicted.sub_pattern_buffers@[b]);
                    assert(evicted.sub_pattern_buffers@[b] == given.sub_pattern_buffers@[b]);
                    assert(given.sound_buffer(b));
                }
            }
            assert forall|b: int| 0 <= b < count implies #[trigger] self.edges_of(b) == given.edges_of(
                b,
            ) by {
                assert(self.sub_pattern_buffers@[b].edge_id_list == given.sub_pattern_buffers@[b].edge_id_list);
            }
            assert forall|b: int| 0 <= b < count - 1 && b % 2 == 0 implies #[trigger] self.edges_of(
                b + 2,
            ) == self.edges_of(b).union(self.edges_of(b + 1)) by {
                assert(given.edges_of(b + 2) == given.edges_of(b).union(given.edges_of(b + 1)));
                assert(self.edges_of(b) == given.edges_of(b));
                assert(self.edges_of(b + 1) == given.edges_of(b + 1));
            }
            assert forall|p: int| 0 <= p < self.pattern.edges@.len() implies #[trigger] self.edges_of(
                count - 1,
            ).contains(p as usize) by {
                assert(given.edges_of(count - 1).contains(p as usize));
                assert(self.edges_of(count - 1) == given.edges_of(count - 1));
            }
            assert(self.sound_tree());
            let target = stepped(state, given.relations(), given.window_size, id, current_time);
            assert(self@.buffers =~= target.buffers) by {
                assert forall|b: int| 0 <= b < count implies self@.buffers[b] == target.buffers[b] by {
                    if b != id && b != sibling_id {
                        assert(self.sub_pattern_buffers@[b].buffer == given.sub_pattern_buffers@[b].buffer) by {
                            if b == parent_id {
                            } else {
                                assert(self.sub_pattern_buffers@[b] == absorbed_state.sub_pattern_buffers@[b]);
                                assert(absorbed_state.sub_pattern_buffers@[b]
                                    == joined_state.sub_pattern_buffers@[b]);
                                assert(joined_state.sub_pattern_buffers@[b] == evicted.sub_pattern_buffers@[b]);
                            }
                        }
                    } else if b == sibling_id {
                        assert(self.sub_pattern_buffers@[b].buffer == evicted.sub_pattern_buffers@[b].buffer);
                    }
                }
            }
            assert(self@.news =~= target.news) by {
                assert forall|b: int| 0 <= b < count implies self@.news[b] == target.news[b] by {
                    if b == id {
                        assert(self.sub_pattern_buffers@[b].new_match_buffer@.len() == 0);
                        assert(self@.news[b] =~= Seq::<MatchView<'p>>::empty());
                    } else if b == parent_id {
                    } else {
                        assert(self.sub_pattern_buffers@[b].new_match_buffer
                            == given.sub_pattern_buffers@[b].new_match_buffer) by {
                            assert(self.sub_pattern_buffers@[b] == absorbed_state.sub_pattern_buffers@[b]);
                            assert(absorbed_state.sub_pattern_buffers@[b]
                                == joined_state.sub_pattern_buffers@[b]);
                            assert(joined_state.sub_pattern_buffers@[b] == evicted.sub_pattern_buffers@[b]);
                        }
                    }
                }
            }
        }
    }

    /// Turns the matches that the root holds into matches of the whole
    /// pattern, puts them behind the results, and empties the root.
    fn add_to_answer(&mut self, results: &mut Vec<PatternMatch>)
        requires
            old(self).sound_tree(),
        ensures
            final(self).sound_tree(),
            final(self).same_shape(old(self)),
            final(self)@.news == old(self)@.news,
            final(self)@.buffers == old(self)@.buffers.update(
                old(self).sub_pattern_buffers@.len() - 1,
                Seq::empty(),
            ),
            final(results)@.len() == old(results)@.len() + old(self)@.buffers[old(
                self,
            ).sub_pattern_buffers@.len() - 1].len(),
            forall|i: int| 0 <= i < old(results)@.len() ==> #[trigger] final(results)@[i] == old(results)@[i],
            forall|i: int|
                0 <= i < old(self)@.buffers[old(self).sub_pattern_buffers@.len() - 1].len()
                    ==> is_answer_of(
                    (#[trigger] final(results)@[old(results)@.len() + i]).matched_edges@,
                    old(self)@.buffers[old(self).sub_pattern_buffers@.len() - 1][i],
                ),
    {
        let root_id = self.sub_pattern_buffers.len() - 1;
        let ghost given = *self;
        let ghost held = self@.buffers[root_id as int];
        let ghost before = results@;
        proof {
            assert(self.sound_buffer(root_id as int));
            assert forall|i: int|
                0 <= i < self.sub_pattern_buffers@[root_id as int].buffer@.len() implies {
                &&& (#[trigger] self.sub_pattern_buffers@[root_id as int].buffer@[i])@.wf(
                    self.pattern.num_nodes as nat,
                    self.pattern.edges@.len(),
                )
                &&& forall|p: int|
                    0 <= p < self.pattern.edges@.len() ==> (
                    #[trigger] self.sub_pattern_buffers@[root_id as int].buffer@[i].edge_id_map@[p]) is Some
            } by {
                let m = held[i];
                assert(m == self.sub_pattern_buffers@[root_id as int].buffer@[i]@);
                assert(m.wf(self.pattern.num_nodes as nat, self.pattern.edges@.len()));
                assert(fills(m, self.edges_of(root_id as int)));
                assert forall|p: int| 0 <= p < self.pattern.edges@.len() implies (
                #[trigger] m.edge_id_map[p]) is Some by {
                    assert(self.edges_of(root_id as int).contains(p as usize));
                }
            }
        }
        let mut answers = self.to_pattern_match(root_id);
        let ghost found = answers@;
        results.append(&mut answers);
        self.sub_pattern_buffers[root_id].buffer.clear();
        proof {
            let count = given.sub_pattern_buffers@.len() as int;
            assert forall|b: int| 0 <= b < count implies #[trigger] self.sound_buffer(b) by {
                assert(given.sound_buffer(b));
                if b != root_id {
                    assert(self.sub_pattern_buffers@[b] == given.sub_pattern_buffers@[b]);
                } else {
                    assert(views_of(self.sub_pattern_buffers@[b].buffer@) == Seq::<MatchView<'p>>::empty());
                }
            }
            assert forall|b: int| 0 <= b < count implies #[trigger] self.edges_of(b) == given.edges_of(
                b,
            ) by {
                if b != root_id {
                    assert(self.sub_pattern_buffers@[b] == given.sub_pattern_buffers@[b]);
                }
            }
            assert forall|b: int| 0 <= b < count - 1 && b % 2 == 0 implies #[trigger] self.edges_of(
                b + 2,
            ) == self.edges_of(b).union(self.edges_of(b + 1)) by {
                assert(given.edges_of(b + 2) == given.edges_of(b).union(given.edges_of(b + 1)));
                assert(self.edges_of(b) == given.edges_of(b));
                assert(self.edges_of(b + 1) == given.edges_of(b + 1));
            }
            assert forall|p: int| 0 <= p < self.pattern.edges@.len() implies #[trigger] self.edges_of(
                count - 1,
            ).contains(p as usize) by {
                assert(given.edges_of(count - 1).contains(p as usize));
                assert(self.edges_of(count - 1) == given.edges_of(count - 1));
            }
            assert(self@.news =~= given@.news) by {
                assert forall|b: int| 0 <= b < count implies self@.news[b] == given@.news[b] by {
                    if b != root_id {
                        assert(self.sub_pattern_buffers@[b] == given.sub_pattern_buffers@[b]);
                    }
                }
            }
            assert(self@.buffers =~= given@.buffers.update(count - 1, Seq::empty())) by {
                assert forall|b: int| 0 <= b < count implies self@.buffers[b] == given@.buffers.update(
                    count - 1,
                    Seq::empty(),
                )[b] by {
                    if b != root_id {
                        assert(self.sub_pattern_buffers@[b] == given.sub_pattern_buffers@[b]);
                    } else {
                        assert(self@.buffers[b] =~= Seq::<MatchView<'p>>::empty());
                    }
                }
            }
            assert forall|i: int| 0 <= i < held.len() implies is_answer_of(
                (#[trigger] results@[before.len() + i]).matched_edges@,
                held[i],
            ) by {
                assert(results@[before.len() + i] == found[i]);
                assert(held[i] == given.sub_pattern_buffers@[root_id as int].buffer@[i]@);
            }
        }
    }

    /// Walks up the tree from a buffer: joins its new matches with the
    /// matches of its sibling, the merges with the matches of the sibling
    /// of the buffer above, and so on up to the root; what reaches the root
    /// are matches of the whole pattern, which are put behind the results.
    pub fn join(&mut self, current_time: u64, buffer_id: usize, results: &mut Vec<PatternMatch>)
        requires
            old(self).sound_tree(),
            buffer_id < old(self).sub_pattern_buffers@.len(),
        ensures
            final(self).wf(),
            final(self).same_shape(old(self)),
            ({
                let run = climbed(
                    old(self)@,
                    old(self).relations(),
                    old(self).window_size,
                    buffer_id as int,
                    current_time,
                );
                &&& final(self)@ == run.state
                &&& final(results)@.len() == old(results)@.len() + run.answers.len()
                &&& forall|i: int|
                    0 <= i < old(results)@.len() ==> #[trigger] final(results)@[i] == old(results)@[i]
                &&& forall|i: int|
                    0 <= i < run.answers.len() ==> is_answer_of(
                        (#[trigger] final(results)@[old(results)@.len() + i]).matched_edges@,
                        run.answers[i],
                    )
            }),
    {
        let ghost given = *self;
        let ghost relations = self.relations();
        let ghost window_size = self.window_size;
        let ghost total = climbed(given@, relations, window_size, buffer_id as int, current_time);
        let root_id = self.get_root_buffer_id();
        let mut id = buffer_id;
        while id != root_id
            invariant
                self.sound_tree(),
                self.same_shape(&given),
                root_id == self.sub_pattern_buffers@.len() - 1,
                id <= root_id,
                relations == given.relations(),
                window_size == given.window_size,
                climbed(self@, relations, window_size, id as int, current_time) == total,
                results@ == old(results)@,
            decreases root_id - id,
        {
            let ghost before = self@;
            self.step(current_time, id);
            proof {
                assert(self.relations() =~= relations) by {
                    assert forall|b: int| 0 <= b < relations.len() implies self.relations()[b]
                        == relations[b] by {
                        assert(self.sub_pattern_buffers@[b].relation == given.sub_pattern_buffers@[b].relation);
                    }
                }
            }
            id = self.get_parent_id(id);
        }
        let ghost at_root = *self;
        let mut news: Vec<SubPatternMatch<'p>> = Vec::new();
        std::mem::swap(&mut news, &mut self.sub_pattern_buffers[root_id].new_match_buffer);
        let ghost fresh = views_of(news@);
        take_in(&mut self.sub_pattern_buffers[root_id].buffer, news);
        let ghost taken = absorbed(at_root@.buffers[root_id as int], at_root@.news[root_id as int]);
        let ghost filled = *self;
        proof {
            let count = at_root.sub_pattern_buffers@.len() as int;
            let num_nodes = self.pattern.num_nodes as nat;
            let num_edges = self.pattern.edges@.len();
            assert(at_root.sound_buffer(root_id as int));
            lemma_absorbed(at_root@.buffers[root_id as int], at_root@.news[root_id as int]);
            assert(views_of(self.sub_pattern_buffers@[root_id as int].buffer@) == taken);
            assert forall|b: int| 0 <= b < count implies #[trigger] self.sound_buffer(b) by {
                assert(at_root.sound_buffer(b));
                if b != root_id {
                    assert(self.sub_pattern_buffers@[b] == at_root.sub_pattern_buffers@[b]);
                } else {
                    assert(views_of(self.sub_pattern_buffers@[b].new_match_buffer@)
                        == Seq::<MatchView<'p>>::empty());
                    let before = at_root@.buffers[root_id as int];
                    let added = at_root@.news[root_id as int];
                    assert forall|i: int| 0 <= i < taken.len() implies (#[trigger] taken[i]).wf(
                        num_nodes,
                        num_edges,
                    ) && fills(taken[i], at_root.edges_of(root_id as int)) by {
                        if before.contains(taken[i]) {
                            let j = choose|j: int| 0 <= j < before.len() && before[j] == taken[i];
                            assert(before[j].wf(num_nodes, num_edges));
                        } else {
                            let j = choose|j: int| 0 <= j < added.len() && added[j] == taken[i];
                            assert(added[j].wf(num_nodes, num_edges));
                        }
                    }
                }
            }
            assert forall|b: int| 0 <= b < count implies #[trigger] self.edges_of(b) == at_root.edges_of(
                b,
            ) by {
                if b != root_id {
                    assert(self.sub_pattern_buffers@[b] == at_root.sub_pattern_buffers@[b]);
                }
            }
            assert forall|b: int| 0 <= b < count - 1 && b % 2 == 0 implies #[trigger] self.edges_of(
                b + 2,
            ) == self.edges_of(b).union(self.edges_of(b + 1)) by {
                assert(at_root.edges_of(b + 2) == at_root.edges_of(b).union(at_root.edges_of(b + 1)));
                assert(self.edges_of(b) == at_root.edges_of(b));
                assert(self.edges_of(b + 1) == at_root.edges_of(b + 1));
            }
            assert forall|p: int| 0 <= p < self.pattern.edges@.len() implies #[trigger] self.edges_of(
                count - 1,
            ).contains(p as usize) by {
                assert(at_root.edges_of(count - 1).contains(p as usize));
                assert(self.edges_of(count - 1) == at_root.edges_of(count - 1));
            }
            assert(self.sound_tree());
            assert(self@.buffers =~= at_root@.buffers.update(root_id as int, taken)) by {
                assert forall|b: int| 0 <= b < count implies self@.buffers[b] == at_root@.buffers.update(
                    root_id as int,
                    taken,
                )[b] by {
                    if b != root_id {
                        assert(self.sub_pattern_buffers@[b] == at_root.sub_pattern_buffers@[b]);
                    }
                }
            }
            assert(self@.news =~= at_root@.news.update(root_id as int, Seq::empty())) by {
                assert forall|b: int| 0 <= b < count implies self@.news[b] == at_root@.news.update(
                    root_id as int,
                    Seq::empty(),
                )[b] by {
                    if b != root_id {
                        assert(self.sub_pattern_buffers@[b] == at_root.sub_pattern_buffers@[b]);
                    } else {
                        assert(self@.news[b] =~= Seq::<MatchView<'p>>::empty());
                    }
                }
            }
            assert(self.same_shape(&given)) by {
                assert forall|b: int| 0 <= b < count implies {
                    &&& (#[trigger] self.sub_pattern_buffers@[b]).id == given.sub_pattern_buffers@[b].id
                    &&& self.sub_pattern_buffers@[b].sibling_id == given.sub_pattern_buffers@[b].sibling_id
                    &&& self.sub_pattern_buffers@[b].node_id_list == given.sub_pattern_buffers@[b].node_id_list
                    &&& self.sub_pattern_buffers@[b].edge_id_list == given.sub_pattern_buffers@[b].edge_id_list
                    &&& self.sub_pattern_buffers@[b].relation == given.sub_pattern_buffers@[b].relation
                    &&& self.sub_pattern_buffers@[b].max_num_nodes == given.sub_pattern_buffers@[b].max_num_nodes
                } by {
                    if b != root_id {
                        assert(self.sub_pattern_buffers@[b] == at_root.sub_pattern_buffers@[b]);
                    }
                    assert(at_root.sub_pattern_buffers@[b].id == given.sub_pattern_buffers@[b].id);
                }
            }
        }
        self.add_to_answer(results);
        proof {
            let count = at_root.sub_pattern_buffers@.len() as int;
            assert(total.answers == taken);
            assert(self@.buffers =~= total.state.buffers);
            assert(self@.news =~= total.state.news);
            assert(self.same_shape(&given)) by {
                assert forall|b: int| 0 <= b < count implies {
                    &&& (#[trigger] self.sub_pattern_buffers@[b]).id == given.sub_pattern_buffers@[b].id
                    &&& self.sub_pattern_buffers@[b].sibling_id == given.sub_pattern_buffers@[b].sibling_id
                    &&& self.sub_pattern_buffers@[b].node_id_list == given.sub_pattern_buffers@[b].node_id_list
                    &&& self.sub_pattern_buffers@[b].edge_id_list == given.sub_pattern_buffers@[b].edge_id_list
                    &&& self.sub_pattern_buffers@[b].relation == given.sub_pattern_buffers@[b].relation
                    &&& self.sub_pattern_buffers@[b].max_num_nodes == given.sub_pattern_buffers@[b].max_num_nodes
                } by {
                    assert(filled.sub_pattern_buffers@[b].id == given.sub_pattern_buffers@[b].id);
                }
            }
            assert(self.sub_pattern_buffers@[root_id as int].buffer@.len() == 0) by {
                assert(self@.buffers[root_id as int].len() == 0);
            }
            assert(self.sub_pattern_buffers@[root_id as int].new_match_buffer@.len() == 0) by {
                assert(self@.news[root_id as int].len() == 0);
            }
        }
    }

    /// The match can come in: it is a sound match of one of the
    /// sub-patterns, for the pattern edges of the leaf of that sub-pattern.
    pub open spec fn admits(&self, m: MatchView) -> bool {
        &&& 2 * m.id < self.sub_pattern_buffers@.len() + 1
        &&& m.wf(self.pattern.num_nodes as nat, self.pattern.edges@.len())
        &&& fills(m, self.edges_of(leaf_of(m.id as int)))
    }

    /// Puts each incoming match behind the new matches of the leaf of its
    /// sub-pattern.
    fn deliver(&mut self, matches: Vec<SubPatternMatch<'p>>)
        requires
            old(self).wf(),
            forall|i: int| 0 <= i < matches@.len() ==> old(self).admits((#[trigger] matches@[i])@),
        ensures
            final(self).sound_tree(),
            final(self).same_shape(old(self)),
            final(self)@ == delivered(old(self)@, views_of(matches@)),
            final(self).sub_pattern_buffers@.len() > 1 ==> final(self).wf(),
            final(self).sub_pattern_buffers@[final(self).sub_pattern_buffers@.len() - 1].buffer@.len() == 0,
    {
        let ghost given = *self;
        let ghost incoming = views_of(matches@);
        let ghost count = self.sub_pattern_buffers@.len() as int;
        proof {
            assert(incoming.take(0) == Seq::<MatchView<'p>>::empty());
            assert(self.same_shape(&given));
        }
        for sub_pattern_match in it: matches
            invariant
                it.seq() == matches@,
                incoming == views_of(matches@),
                count == given.sub_pattern_buffers@.len(),
                given.wf(),
                forall|i: int| 0 <= i < matches@.len() ==> given.admits((#[trigger] matches@[i])@),
                self.sound_tree(),
                self.same_shape(&given),
                self@ == delivered(given@, incoming.take(it.index() as int)),
                count > 1 ==> self.wf(),
                self.sub_pattern_buffers@[count - 1].buffer@.len() == 0,
        {
            let ghost before = *self;
            let ghost m = sub_pattern_match@;
            proof {
                assert(given.admits(matches@[it.index() as int]@));
                assert(incoming.take(it.index() + 1).drop_last() == incoming.take(it.index() as int));
                assert(incoming.take(it.index() + 1).last() == m);
            }
            let leaf = if sub_pattern_match.id == 0 {
                0
            } else {
                sub_pattern_match.id + (sub_pattern_match.id - 1)
            };
            let ghost waiting = views_of(self.sub_pattern_buffers@[leaf as int].new_match_buffer@);
            self.sub_pattern_buffers[leaf].new_match_buffer.push(sub_pattern_match);
            proof {
                let after = waiting.push(m);
                assert(views_of(self.sub_pattern_buffers@[leaf as int].new_match_buffer@) == after);
                assert forall|b: int| 0 <= b < count implies #[trigger] self.sound_buffer(b) by {
                    assert(before.sound_buffer(b));
                    if b != leaf {
                        assert(self.sub_pattern_buffers@[b] == before.sub_pattern_buffers@[b]);
                    } else {
                        assert(before.edges_of(leaf as int) == given.edges_of(leaf as int));
                        assert forall|i: int| 0 <= i < after.len() implies (#[trigger] after[i]).wf(
                            self.pattern.num_nodes as nat,
                            self.pattern.edges@.len(),
                        ) && fills(after[i], before.edges_of(leaf as int)) by {
                            if i < waiting.len() {
                                assert(after[i] == waiting[i]);
                                assert(waiting[i].wf(
                                    self.pattern.num_nodes as nat,
                                    self.pattern.edges@.len(),
                                ));
                            }
                        }
                    }
                }
                assert forall|b: int| 0 <= b < count implies #[trigger] self.edges_of(b) == before.edges_of(
                    b,
                ) by {
                    if b != leaf {
                        assert(self.sub_pattern_buffers@[b] == before.sub_pattern_buffers@[b]);
                    }
                }
                assert forall|b: int| 0 <= b < count - 1 && b % 2 == 0 implies #[trigger] self.edges_of(
                    b + 2,
                ) == self.edges_of(b).union(self.edges_of(b + 1)) by {
                    assert(before.edges_of(b + 2) == before.edges_of(b).union(before.edges_of(b + 1)));
                    assert(self.edges_of(b) == before.edges_of(b));
                    assert(self.edges_of(b + 1) == before.edges_of(b + 1));
                }
                assert forall|p: int| 0 <= p < self.pattern.edges@.len() implies #[trigger] self.edges_of(
                    count - 1,
                ).contains(p as usize) by {
                    assert(before.edges_of(count - 1).contains(p as usize));
                    assert(self.edges_of(count - 1) == before.edges_of(count - 1));
                }
                assert(self.same_shape(&given)) by {
                    assert forall|b: int| 0 <= b < count implies {
                        &&& (#[trigger] self.sub_pattern_buffers@[b]).id == given.sub_pattern_buffers@[b].id
                        &&& self.sub_pattern_buffers@[b].sibling_id == given.sub_pattern_buffers@[b].sibling_id
                        &&& self.sub_pattern_buffers@[b].node_id_list
                            == given.sub_pattern_buffers@[b].node_id_list
                        &&& self.sub_pattern_buffers@[b].edge_id_list
                            == given.sub_pattern_buffers@[b].edge_id_list
                        &&& self.sub_pattern_buffers@[b].relation == given.sub_pattern_buffers@[b].relation
                        &&& self.sub_pattern_buffers@[b].max_num_nodes
                            == given.sub_pattern_buffers@[b].max_num_nodes
                    } by {
                        if b != leaf {
                            assert(self.sub_pattern_buffers@[b] == before.sub_pattern_buffers@[b]);
                        }
                        assert(before.sub_pattern_buffers@[b].id == given.sub_pattern_buffers@[b].id);
                    }
                }
                let target = delivered(given@, incoming.take(it.index() + 1));
                assert(self@.buffers =~= target.buffers) by {
                    assert forall|b: int| 0 <= b < count implies self@.buffers[b] == before@.buffers[b] by {
                        if b != leaf {
                            assert(self.sub_pattern_buffers@[b] == before.sub_pattern_buffers@[b]);
                        }
                    }
                }
                assert(self@.news =~= target.news) by {
                    assert forall|b: int| 0 <= b < count implies self@.news[b] == target.news[b] by {
                        if b != leaf {
                            assert(self.sub_pattern_buffers@[b] == before.sub_pattern_buffers@[b]);
                        }
                    }
                }
                if count > 1 {
                    assert(leaf != count - 1);
                    assert(self.sub_pattern_buffers@[count - 1] == before.sub_pattern_buffers@[count - 1]);
                }
                if leaf != count - 1 {
                    assert(self.sub_pattern_buffers@[count - 1] == before.sub_pattern_buffers@[count - 1]);
                }
            }
        }
        proof {
            assert(incoming.take(matches@.len() as int) == incoming);
        }
    }

    /// The latest of the latest times of the new matches of a buffer.
    fn latest_time_of(&self, buffer_id: usize) -> (latest: u64)
        requires
            buffer_id < self.sub_pattern_buffers@.len(),
        ensures
            latest == latest_among(self@.news[buffer_id as int]),
    {
        let news = &self.sub_pattern_buffers[buffer_id].new_match_buffer;
        let ghost views = views_of(news@);
        let mut latest: u64 = 0;
        let mut i: usize = 0;
        proof {
            assert(views.take(0) == Seq::<MatchView<'p>>::empty());
        }
        while i < news.len()
            invariant
                0 <= i <= news@.len(),
                views == views_of(news@),
                latest == latest_among(views.take(i as int)),
            decreases news@.len() - i,
        {
            proof {
                assert(views.take(i + 1).drop_last() == views.take(i as int));
                assert(views.take(i + 1).last() == news@[i as int]@);
            }
            if news[i].latest_time > latest {
                latest = news[i].latest_time;
            }
            i += 1;
        }
        proof {
            assert(views.take(news@.len() as int) == views);
        }
        latest
    }

    /// Takes the matches of sub-patterns that a batch of input edges has
    /// completed, and returns the matches of the whole pattern that they
    /// complete. Each incoming match becomes a new match of the leaf of its
    /// sub-pattern; then, from every buffer that holds new matches, the
    /// tree is walked up to the root.
    pub fn process_batch(&mut self, matches: Vec<SubPatternMatch<'p>>) -> (results: Vec<
        PatternMatch,
    >)
        requires
            old(self).wf(),
            forall|i: int| 0 <= i < matches@.len() ==> old(self).admits((#[trigger] matches@[i])@),
        ensures
            final(self).wf(),
            final(self).same_shape(old(self)),
            ({
                let run = swept(
                    delivered(old(self)@, views_of(matches@)),
                    old(self).relations(),
                    old(self).window_size,
                    old(self).sub_pattern_buffers@.len() as int,
                    0,
                );
                &&& final(self)@ == run.state
                &&& results@.len() == run.answers.len()
                &&& forall|i: int|
                    0 <= i < results@.len() ==> is_answer_of(
                        (#[trigger] results@[i]).matched_edges@,
                        run.answers[i],
                    )
            }),
    {
        let ghost given = *self;
        let ghost relations = self.relations();
        let ghost window_size = self.window_size;
        let ghost count = self.sub_pattern_buffers@.len() as int;
        let mut results: Vec<PatternMatch> = Vec::new();
        self.deliver(matches);
        let ghost handed = self@;
        let ghost total = swept(handed, relations, window_size, count, 0);
        let ghost mut found: Seq<MatchView<'p>> = Seq::empty();
        let mut buffer_id: usize = 0;
        proof {
            assert(found + swept(self@, relations, window_size, count, 0).answers == total.answers);
            assert(self.relations() =~= relations) by {
                assert forall|b: int| 0 <= b < count implies self.relations()[b] == relations[b] by {
                    assert(self.sub_pattern_buffers@[b].relation == given.sub_pattern_buffers@[b].relation);
                }
            }
        }
        while buffer_id < self.sub_pattern_buffers.len()
            invariant
                0 <= buffer_id <= count,
                count == self.sub_pattern_buffers@.len(),
                self.sound_tree(),
                self.same_shape(&given),
                self.relations() == relations,
                window_size == self.window_size,
                buffer_id > 0 || count > 1 ==> self.wf(),
                self.sub_pattern_buffers@[count - 1].buffer@.len() == 0,
                swept(self@, relations, window_size, count, buffer_id as int).state == total.state,
                found + swept(self@, relations, window_size, count, buffer_id as int).answers
                    == total.answers,
                results@.len() == found.len(),
                forall|i: int|
                    0 <= i < results@.len() ==> is_answer_of((#[trigger] results@[i]).matched_edges@, found[i]),
            decreases count - buffer_id,
        {
            if self.sub_pattern_buffers[buffer_id].new_match_buffer.len() > 0 {
                let ghost before = self@;
                let ghost earlier = results@;
                let current_time = self.latest_time_of(buffer_id);
                let ghost walk = climbed(before, relations, window_size, buffer_id as int, current_time);
                let ghost shape = *self;
                self.join(current_time, buffer_id, &mut results);
                proof {
                    let rest = swept(walk.state, relations, window_size, count, buffer_id + 1);
                    assert(before.news[buffer_id as int].len() > 0);
                    assert(swept(before, relations, window_size, count, buffer_id as int).answers
                        == walk.answers + rest.answers);
                    assert(found + (walk.answers + rest.answers) == (found + walk.answers)
                        + rest.answers);
                    let longer = found + walk.answers;
                    assert forall|i: int| 0 <= i < results@.len() implies is_answer_of(
                        (#[trigger] results@[i]).matched_edges@,
                        longer[i],
                    ) by {
                        if i < earlier.len() {
                            assert(results@[i] == earlier[i]);
                            assert(longer[i] == found[i]);
                        } else {
                            assert(longer[i] == walk.answers[i - earlier.len()]);
                            assert(is_answer_of(
                                results@[earlier.len() + (i - earlier.len())].matched_edges@,
                                walk.answers[i - earlier.len()],
                            ));
                        }
                    }
                    found = longer;
                    assert(self.same_shape(&given)) by {
                        assert forall|b: int| 0 <= b < count implies {
                            &&& (#[trigger] self.sub_pattern_buffers@[b]).id
                                == given.sub_pattern_buffers@[b].id
                            &&& self.sub_pattern_buffers@[b].sibling_id
                                == given.sub_pattern_buffers@[b].sibling_id
                            &&& self.sub_pattern_buffers@[b].node_id_list
                                == given.sub_pattern_buffers@[b].node_id_list
                            &&& self.sub_pattern_buffers@[b].edge_id_list
                                == given.sub_pattern_buffers@[b].edge_id_list
                            &&& self.sub_pattern_buffers@[b].relation
                                == given.sub_pattern_buffers@[b].relation
                            &&& self.sub_pattern_buffers@[b].max_num_nodes
                                == given.sub_pattern_buffers@[b].max_num_nodes
                        } by {
                            assert(shape.sub_pattern_buffers@[b].id == given.sub_pattern_buffers@[b].id);
                        }
                    }
                    assert(self.relations() =~= relations) by {
                        assert forall|b: int| 0 <= b < count implies self.relations()[b] == relations[b] by {
                            assert(self.sub_pattern_buffers@[b].relation
                                == given.sub_pattern_buffers@[b].relation);
                        }
                    }
                }
            } else {
                proof {
                    assert(self@.news[buffer_id as int].len() == 0);
                    if buffer_id == 0 && count == 1 {
                        assert(self.sub_pattern_buffers@[count - 1].new_match_buffer@.len() == 0);
                    }
                }
            }
            buffer_id += 1;
        }
        proof {
            assert(found + Seq::<MatchView<'p>>::empty() == found);
        }
        results
    }

    /// Grows the tree by one sub-pattern: the last buffer becomes the left
    /// sibling of a new leaf for the sub-pattern, both get the relation
    /// between them, and a buffer for their merges comes above them.
    fn create_buffer_pair(
        id: usize,
        pattern: &'p Pattern,
        sub_patterns: &'p Vec<SubPattern<'p>>,
        sub_pattern_buffers: &mut Vec<SubPatternBuffer<'p>>,
        distances_table: &DistanceTable,
    )
        requires
            1 <= id < sub_patterns@.len(),
            2 * id + 2 <= usize::MAX,
            distances_table.wf(),
            distances_table.rules@ == pattern.order.rules(),
            tree_built(old(sub_pattern_buffers)@, pattern, sub_patterns@, id as int),
        ensures
            tree_built(final(sub_pattern_buffers)@, pattern, sub_patterns@, id + 1),
    {
        let ghost given = sub_pattern_buffers@;
        let ghost last = given.len() - 1;
        let mut sub_pattern_buffer1 = sub_pattern_buffers.pop().unwrap();
        let mut sub_pattern_buffer2 = SubPatternBuffer::new(
            sub_pattern_buffer1.id + 1,
            sub_pattern_buffer1.id,
            &sub_patterns[id],
            sub_pattern_buffer1.max_num_nodes,
            pattern.edges.len(),
        );
        let relations = SubPatternBuffer::generate_relations(
            pattern,
            &sub_pattern_buffer1,
            &sub_pattern_buffer2,
            distances_table,
        );
        sub_pattern_buffer1.relation = relations.clone();
        sub_pattern_buffer2.relation = relations;
        let merged = SubPatternBuffer::merge_buffers(&sub_pattern_buffer1, &sub_pattern_buffer2);
        let ghost left = sub_pattern_buffer1;
        let ghost right = sub_pattern_buffer2;
        sub_pattern_buffers.push(sub_pattern_buffer1);
        sub_pattern_buffers.push(sub_pattern_buffer2);
        sub_pattern_buffers.push(merged);
        proof {
            let buffers = sub_pattern_buffers@;
            assert(buffers.len() == 2 * (id + 1) - 1);
            assert forall|b: int| 0 <= b < last implies #[trigger] buffers[b] == given[b] by {}
            assert(buffers[last] == left);
            assert(buffers[last + 1] == right);
            assert(buffers[last + 2] == merged);
            assert(left.edge_id_list == given[last].edge_id_list);
            assert(left.node_id_list == given[last].node_id_list);
            assert(left.relation.relates(
                &pattern.order,
                pattern.num_nodes as nat,
                left.node_id_list@,
                right.node_id_list@,
                left.edge_id_list@,
                right.edge_id_list@,
            ));
            assert forall|b: int| 0 <= b < buffers.len() implies (#[trigger] buffers[b]).sibling_id
                == sibling_of(b) by {
                if b < last {
                    assert(buffers[b] == given[b]);
                } else if b == last {
                    assert(left.sibling_id == given[last].sibling_id);
                }
            }
            assert forall|b: int| 0 <= b < buffers.len() - 1 && b % 2 == 0 implies {
                &&& (#[trigger] buffers[b + 2]).edge_id_list@ == buffers[b].edge_id_list@.union(
                    buffers[b + 1].edge_id_list@,
                )
                &&& buffers[b + 2].node_id_list@ == buffers[b].node_id_list@.union(
                    buffers[b + 1].node_id_list@,
                )
                &&& buffers[b].relation.shared_nodes@ == buffers[b + 1].relation.shared_nodes@
                &&& buffers[b].relation.edge_orders@ == buffers[b + 1].relation.edge_orders@
                &&& buffers[b].relation.relates(
                    &pattern.order,
                    pattern.num_nodes as nat,
                    buffers[b].node_id_list@,
                    buffers[b + 1].node_id_list@,
                    buffers[b].edge_id_list@,
                    buffers[b + 1].edge_id_list@,
                )
            } by {
                if b < last {
                    assert(given[b + 2].edge_id_list@ == given[b].edge_id_list@.union(
                        given[b + 1].edge_id_list@,
                    ));
                    assert(given[b + 2].node_id_list@ == given[b].node_id_list@.union(
                        given[b + 1].node_id_list@,
                    ));
                    assert(buffers[b] == given[b]);
                    assert(buffers[b + 1] == given[b + 1]);
                    if b + 2 < last {
                        assert(buffers[b + 2] == given[b + 2]);
                    }
                }
            }
            assert forall|j: int| 0 <= j < id + 1 implies is_leaf_of(
                buffers[leaf_of(j)].edge_id_list@,
                #[trigger] sub_patterns@[j],
            ) by {
                if j < id {
                    assert(is_leaf_of(given[leaf_of(j)].edge_id_list@, sub_patterns@[j]));
                    if leaf_of(j) < last {
                        assert(buffers[leaf_of(j)] == given[leaf_of(j)]);
                    }
                }
            }
            assert forall|j: int| 0 <= j < id + 1 implies has_nodes_of(
                buffers[leaf_of(j)].node_id_list@,
                #[trigger] sub_patterns@[j],
            ) by {
                if j < id {
                    assert(has_nodes_of(given[leaf_of(j)].node_id_list@, sub_patterns@[j]));
                    if leaf_of(j) < last {
                        assert(buffers[leaf_of(j)] == given[leaf_of(j)]);
                    }
                } else {
                    assert(buffers[leaf_of(j)] == right);
                }
            }
            assert forall|j: int| 0 <= j < id + 1 implies holds_edges_of(
                buffers[buffers.len() - 1].edge_id_list@,
                #[trigger] sub_patterns@[j],
            ) by {
                if j < id {
                    assert(holds_edges_of(given[last].edge_id_list@, sub_patterns@[j]));
                }
            }
        }
    }

    /// The join tree for a pattern and its decomposition into
    /// sub-patterns, with nothing in it yet.
    pub fn new(pattern: &'p Pattern, sub_patterns: &'p Vec<SubPattern<'p>>, window_size: u64) -> (layer:
        Self)
        requires
            pattern.wf(),
            sub_patterns@.len() >= 1,
            2 * sub_patterns@.len() + 2 <= usize::MAX,
            forall|e: int|
                0 <= e < pattern.edges@.len() ==> #[trigger] covers(chains_of(sub_patterns@), e),
        ensures
            layer.wf(),
            layer.pattern == pattern,
            layer.window_size == window_size,
            tree_built(layer.sub_pattern_buffers@, pattern, sub_patterns@, sub_patterns@.len() as int),
    {
        let distances_table = match pattern.order.calculate_distances() {
            Some(distances_table) => distances_table,
            None => {
                proof {
                    assert(false);
                }
                vstd::pervasive::unreached()
            },
        };
        let mut sub_pattern_buffers: Vec<SubPatternBuffer<'p>> = Vec::new();
        sub_pattern_buffers.push(
            SubPatternBuffer::new(0, 1, &sub_patterns[0], pattern.num_nodes, pattern.edges.len()),
        );
        proof {
            let buffers = sub_pattern_buffers@;
            assert forall|j: int| 0 <= j < 1 implies is_leaf_of(
                buffers[leaf_of(j)].edge_id_list@,
                #[trigger] sub_patterns@[j],
            ) by {}
            assert forall|j: int| 0 <= j < 1 implies has_nodes_of(
                buffers[leaf_of(j)].node_id_list@,
                #[trigger] sub_patterns@[j],
            ) by {}
            assert forall|j: int| 0 <= j < 1 implies holds_edges_of(
                buffers[buffers.len() - 1].edge_id_list@,
                #[trigger] sub_patterns@[j],
            ) by {}
        }
        let mut i: usize = 1;
        while i < sub_patterns.len()
            invariant
                1 <= i <= sub_patterns@.len(),
                2 * sub_patterns@.len() + 2 <= usize::MAX,
                distances_table.wf(),
                distances_table.rules@ == pattern.order.rules(),
                tree_built(sub_pattern_buffers@, pattern, sub_patterns@, i as int),
            decreases sub_patterns@.len() - i,
        {
            Self::create_buffer_pair(
                i,
                pattern,
                sub_patterns,
                &mut sub_pattern_buffers,
                &distances_table,
            );
            i += 1;
        }
        let layer = Self { pattern, sub_pattern_buffers, window_size };
        proof {
            let buffers = layer.sub_pattern_buffers@;
            let count = buffers.len() as int;
            assert forall|b: int| 0 <= b < count implies #[trigger] layer.sound_buffer(b) by {
                assert(buffers[b].buffer@.len() == 0);
                assert(views_of(buffers[b].buffer@) == Seq::<MatchView<'p>>::empty());
                assert(views_of(buffers[b].new_match_buffer@) == Seq::<MatchView<'p>>::empty());
            }
            assert forall|b: int| 0 <= b < count - 1 && b % 2 == 0 implies #[trigger] layer.edges_of(
                b + 2,
            ) == layer.edges_of(b).union(layer.edges_of(b + 1)) by {
                assert(buffers[b + 2].edge_id_list@ == buffers[b].edge_id_list@.union(
                    buffers[b + 1].edge_id_list@,
                ));
            }
            assert forall|p: int| 0 <= p < pattern.edges@.len() implies #[trigger] layer.edges_of(
                count - 1,
            ).contains(p as usize) by {
                let chains = chains_of(sub_patterns@);
                assert(covers(chains, p));
                let (j, q) = choose|j: int, q: int|
                    0 <= j < chains.len() && 0 <= q < chains[j].len() && #[trigger] crate::sub_pattern::entry(
                        chains,
                        j,
                        q,
                    ) == p;
                assert(chain_ids(sub_patterns@[j].edges@)[q] == p);
                assert(holds_edges_of(buffers[count - 1].edge_id_list@, sub_patterns@[j]));
                assert(sub_patterns@[j].edges@[q].id == p);
            }
        }
        layer
    }

    /// The id of the left one of buffer `buffer_id` and its sibling.
    pub fn get_left_buffer_id(buffer_id: usize) -> (left: usize)
        ensures
            left == buffer_id - buffer_id % 2,
    {
        buffer_id - buffer_id % 2
    }

    /// The id of the root buffer.
    pub fn get_root_buffer_id(&self) -> (root: usize)
        requires
            self.sub_pattern_buffers@.len() > 0,
        ensures
            root == self.sub_pattern_buffers@.len() - 1,
    {
        self.sub_pattern_buffers.len() - 1
    }

    /// The id of the sibling of a buffer: the two ids differ in their last
    /// bit only. The root has no sibling but itself.
    pub fn get_sibling_id(&self, buffer_id: usize) -> (sibling: usize)
        requires
            self.sub_pattern_buffers@.len() > 0,
            buffer_id < usize::MAX,
        ensures
            sibling == if buffer_id == self.sub_pattern_buffers@.len() - 1 {
                buffer_id as int
            } else {
                sibling_of(buffer_id as int)
            },
    {
        if buffer_id == self.get_root_buffer_id() {
            return buffer_id;
        }
        let wide = buffer_id as u64;
        let flipped = wide ^ 1;
        assert(flipped == if wide % 2 == 0 {
            (wide + 1) as u64
        } else {
            (wide - 1) as u64
        }) by (bit_vector)
            requires
                flipped == wide ^ 1,
                wide < 0xffff_ffff_ffff_ffff,
        ;
        flipped as usize
    }

    /// The id of the buffer above a buffer and its sibling. The root has no
    /// buffer above it but itself.
    pub fn get_parent_id(&self, buffer_id: usize) -> (parent: usize)
        requires
            self.sub_pattern_buffers@.len() > 0,
            buffer_id + 2 <= usize::MAX,
        ensures
            parent == if buffer_id == self.sub_pattern_buffers@.len() - 1 {
                buffer_id as int
            } else {
                parent_of(buffer_id as int)
            },
    {
        if buffer_id == self.get_root_buffer_id() {
            return buffer_id;
        }
        Self::get_left_buffer_id(buffer_id) + 2
    }
}

} // verus!
