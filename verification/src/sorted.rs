use crate::match_edge::MatchEdge;
use vstd::prelude::*;

verus! {

/// Where an item of key `k` goes into a list sorted by rising key: behind
/// every item whose key is `k` or less.
pub open spec fn slot_by<T>(sorted: Seq<T>, key: spec_fn(T) -> int, k: int) -> int
    decreases sorted.len(),
{
    if sorted.len() == 0 || key(sorted.last()) <= k {
        sorted.len() as int
    } else {
        slot_by(sorted.drop_last(), key, k)
    }
}

/// The items sorted by rising key; items of one key stay in their order.
pub open spec fn sorted_by<T>(items: Seq<T>, key: spec_fn(T) -> int) -> Seq<T>
    decreases items.len(),
{
    if items.len() == 0 {
        Seq::empty()
    } else {
        let sorted = sorted_by(items.drop_last(), key);
        sorted.insert(slot_by(sorted, key, key(items.last())), items.last())
    }
}

/// The keys of the list never decrease.
pub open spec fn rising<T>(items: Seq<T>, key: spec_fn(T) -> int) -> bool {
    forall|i: int, j: int| 0 <= i < j < items.len() ==> key(#[trigger] items[i]) <= key(#[trigger] items[j])
}

/// The slot lies inside the list or right behind it; in a rising list the
/// items before it have a key of `k` or less and those from it on a greater
/// one.
pub proof fn lemma_slot_by<T>(sorted: Seq<T>, key: spec_fn(T) -> int, k: int)
    requires
        rising(sorted, key),
    ensures
        0 <= slot_by(sorted, key, k) <= sorted.len(),
        forall|i: int| 0 <= i < slot_by(sorted, key, k) ==> key(#[trigger] sorted[i]) <= k,
        forall|i: int| slot_by(sorted, key, k) <= i < sorted.len() ==> key(#[trigger] sorted[i]) > k,
    decreases sorted.len(),
{
    if sorted.len() == 0 {
    } else if key(sorted.last()) <= k {
        assert forall|i: int| 0 <= i < sorted.len() implies key(#[trigger] sorted[i]) <= k by {
            if i < sorted.len() - 1 {
                assert(key(sorted[i]) <= key(sorted[sorted.len() - 1]));
            }
        }
    } else {
        let rest = sorted.drop_last();
        assert(rising(rest, key)) by {
            assert forall|i: int, j: int| 0 <= i < j < rest.len() implies key(#[trigger] rest[i]) <= key(
                #[trigger] rest[j],
            ) by {
                assert(rest[i] == sorted[i] && rest[j] == sorted[j]);
            }
        }
        lemma_slot_by(rest, key, k);
        let slot = slot_by(rest, key, k);
        assert forall|i: int| 0 <= i < slot implies key(#[trigger] sorted[i]) <= k by {
            assert(rest[i] == sorted[i]);
        }
        assert forall|i: int| slot <= i < sorted.len() implies key(#[trigger] sorted[i]) > k by {
            if i < sorted.len() - 1 {
                assert(rest[i] == sorted[i]);
            }
        }
    }
}

/// The slot lies inside the list or right behind it.
proof fn lemma_slot_by_in_range<T>(sorted: Seq<T>, key: spec_fn(T) -> int, k: int)
    ensures
        0 <= slot_by(sorted, key, k) <= sorted.len(),
    decreases sorted.len(),
{
    if sorted.len() > 0 && key(sorted.last()) > k {
        lemma_slot_by_in_range(sorted.drop_last(), key, k);
    }
}

/// An item put into its slot in a rising list leaves the list rising.
proof fn lemma_insert_rising<T>(sorted: Seq<T>, key: spec_fn(T) -> int, item: T)
    requires
        rising(sorted, key),
    ensures
        rising(sorted.insert(slot_by(sorted, key, key(item)), item), key),
{
    lemma_slot_by(sorted, key, key(item));
    let slot = slot_by(sorted, key, key(item));
    let all = sorted.insert(slot, item);
    assert forall|i: int, j: int| 0 <= i < j < all.len() implies key(#[trigger] all[i]) <= key(
        #[trigger] all[j],
    ) by {
        if i < slot {
            assert(all[i] == sorted[i]);
        } else if i > slot {
            assert(all[i] == sorted[i - 1]);
        }
        if j < slot {
            assert(all[j] == sorted[j]);
        } else if j > slot {
            assert(all[j] == sorted[j - 1]);
        }
    }
}

/// Sorting puts the keys in rising order.
pub proof fn lemma_sorted_by_rising<T>(items: Seq<T>, key: spec_fn(T) -> int)
    ensures
        sorted_by(items, key).len() == items.len(),
        rising(sorted_by(items, key), key),
    decreases items.len(),
{
    if items.len() > 0 {
        let sorted = sorted_by(items.drop_last(), key);
        lemma_sorted_by_rising(items.drop_last(), key);
        lemma_slot_by(sorted, key, key(items.last()));
        lemma_insert_rising(sorted, key, items.last());
    }
}

/// Sorting keeps the items: each sorted one is a given one, and each given
/// one is a sorted one.
pub proof fn lemma_sorted_by_keeps<T>(items: Seq<T>, key: spec_fn(T) -> int)
    ensures
        sorted_by(items, key).len() == items.len(),
        forall|i: int|
            0 <= i < items.len() ==> #[trigger] items.contains(sorted_by(items, key)[i]),
        forall|j: int|
            0 <= j < items.len() ==> #[trigger] sorted_by(items, key).contains(items[j]),
    decreases items.len(),
{
    if items.len() > 0 {
        let rest = items.drop_last();
        let last = items.last();
        let sorted = sorted_by(rest, key);
        lemma_sorted_by_keeps(rest, key);
        lemma_slot_by_in_range(sorted, key, key(last));
        let slot = slot_by(sorted, key, key(last));
        let all = sorted_by(items, key);
        assert(all == sorted.insert(slot, last));
        assert forall|i: int| 0 <= i < items.len() implies #[trigger] items.contains(all[i]) by {
            if i == slot {
                assert(all[i] == items[items.len() - 1]);
            } else {
                let before = if i < slot { i } else { i - 1 };
                assert(all[i] == sorted[before]);
                assert(rest.contains(sorted[before]));
                let j = choose|j: int| 0 <= j < rest.len() && rest[j] == sorted[before];
                assert(all[i] == items[j]);
            }
        }
        assert forall|j: int| 0 <= j < items.len() implies #[trigger] all.contains(items[j]) by {
            if j == items.len() - 1 {
                assert(all[slot] == items[j]);
            } else {
                assert(rest[j] == items[j]);
                assert(sorted.contains(rest[j]));
                let i = choose|i: int| 0 <= i < sorted.len() && sorted[i] == rest[j];
                let after = if i < slot { i } else { i + 1 };
                assert(all[after] == sorted[i]);
            }
        }
    }
}

/// The slot found by looking at the first `j` sorted items only is the slot
/// in the whole list where the others have a greater key.
pub proof fn lemma_slot_by_step<T>(sorted: Seq<T>, key: spec_fn(T) -> int, k: int, j: int)
    requires
        0 <= j <= sorted.len(),
        slot_by(sorted, key, k) == slot_by(sorted.take(j), key, k),
    ensures
        j > 0 && key(sorted[j - 1]) > k ==> slot_by(sorted, key, k) == slot_by(
            sorted.take(j - 1),
            key,
            k,
        ),
        j == 0 || key(sorted[j - 1]) <= k ==> slot_by(sorted, key, k) == j,
{
    if j > 0 {
        assert(sorted.take(j).drop_last() == sorted.take(j - 1));
        assert(sorted.take(j).last() == sorted[j - 1]);
    }
}

/// No two items of the list have the same tag.
pub open spec fn distinct_by<T>(items: Seq<T>, tag: spec_fn(T) -> int) -> bool {
    forall|i: int, j: int| 0 <= i < j < items.len() ==> tag(#[trigger] items[i]) != tag(#[trigger] items[j])
}

/// Sorting a list in which no two items have the same tag gives such a
/// list.
pub proof fn lemma_sorted_by_distinct<T>(items: Seq<T>, key: spec_fn(T) -> int, tag: spec_fn(T) -> int)
    requires
        distinct_by(items, tag),
    ensures
        distinct_by(sorted_by(items, key), tag),
    decreases items.len(),
{
    if items.len() > 0 {
        let rest = items.drop_last();
        let last = items.last();
        let sorted = sorted_by(rest, key);
        assert(distinct_by(rest, tag)) by {
            assert forall|i: int, j: int| 0 <= i < j < rest.len() implies tag(#[trigger] rest[i]) != tag(
                #[trigger] rest[j],
            ) by {
                assert(rest[i] == items[i] && rest[j] == items[j]);
            }
        }
        lemma_sorted_by_distinct(rest, key, tag);
        lemma_sorted_by_keeps(rest, key);
        lemma_slot_by_in_range(sorted, key, key(last));
        let slot = slot_by(sorted, key, key(last));
        let all = sorted.insert(slot, last);
        assert forall|i: int| 0 <= i < sorted.len() implies tag(#[trigger] sorted[i]) != tag(last) by {
            assert(rest.contains(sorted[i]));
            let j = choose|j: int| 0 <= j < rest.len() && rest[j] == sorted[i];
            assert(rest[j] == items[j]);
            assert(tag(items[j]) != tag(items[items.len() - 1]));
        }
        assert forall|i: int, j: int| 0 <= i < j < all.len() implies tag(#[trigger] all[i]) != tag(
            #[trigger] all[j],
        ) by {
            if i < slot {
                assert(all[i] == sorted[i]);
            } else if i > slot {
                assert(all[i] == sorted[i - 1]);
            }
            if j < slot {
                assert(all[j] == sorted[j]);
            } else if j > slot {
                assert(all[j] == sorted[j - 1]);
            }
        }
    }
}

/// The key of a node pair: its input node id.
pub open spec fn node_key() -> spec_fn((u64, u64)) -> int {
    |pair: (u64, u64)| pair.0 as int
}

/// The node pairs sorted by input node id; pairs of one input node stay in
/// their order.
pub fn sort_nodes(nodes: &Vec<(u64, u64)>) -> (sorted: Vec<(u64, u64)>)
    ensures
        sorted@ == sorted_by(nodes@, node_key()),
{
    let mut sorted: Vec<(u64, u64)> = Vec::new();
    let mut i: usize = 0;
    proof {
        assert(nodes@.take(0) == Seq::<(u64, u64)>::empty());
    }
    while i < nodes.len()
        invariant
            0 <= i <= nodes@.len(),
            sorted@ == sorted_by(nodes@.take(i as int), node_key()),
        decreases nodes@.len() - i,
    {
        let node = nodes[i];
        let ghost before = sorted@;
        let mut j: usize = sorted.len();
        proof {
            assert(before.take(j as int) == before);
        }
        while j > 0 && sorted[j - 1].0 > node.0
            invariant
                0 <= j <= sorted@.len(),
                sorted@ == before,
                slot_by(before, node_key(), node.0 as int) == slot_by(
                    before.take(j as int),
                    node_key(),
                    node.0 as int,
                ),
            decreases j,
        {
            proof {
                lemma_slot_by_step(before, node_key(), node.0 as int, j as int);
            }
            j -= 1;
        }
        proof {
            lemma_slot_by_step(before, node_key(), node.0 as int, j as int);
            assert(nodes@.take(i + 1).drop_last() == nodes@.take(i as int));
            assert(nodes@.take(i + 1).last() == node);
        }
        sorted.insert(j, node);
        i += 1;
    }
    proof {
        assert(nodes@.take(nodes@.len() as int) == nodes@);
    }
    sorted
}

/// The key of a matched edge: the id of its input edge.
pub open spec fn input_id_key<'p>() -> spec_fn(MatchEdge<'p>) -> int {
    |edge: MatchEdge<'p>| edge.input_edge.id as int
}

/// The tag of a matched edge that tells pattern edges apart: the id of its
/// pattern edge.
pub open spec fn pattern_id_tag<'p>() -> spec_fn(MatchEdge<'p>) -> int {
    |edge: MatchEdge<'p>| edge.matched.id as int
}

/// The matched edges sorted by input edge id; edges of one input edge stay
/// in their order.
pub fn sort_edges<'p>(edges: &Vec<MatchEdge<'p>>) -> (sorted: Vec<MatchEdge<'p>>)
    ensures
        sorted@ == sorted_by(edges@, input_id_key()),
{
    let mut sorted: Vec<MatchEdge<'p>> = Vec::new();
    let mut i: usize = 0;
    proof {
        assert(edges@.take(0) == Seq::<MatchEdge<'p>>::empty());
    }
    while i < edges.len()
        invariant
            0 <= i <= edges@.len(),
            sorted@ == sorted_by(edges@.take(i as int), input_id_key()),
        decreases edges@.len() - i,
    {
        let edge = edges[i].clone();
        let ghost before = sorted@;
        let mut j: usize = sorted.len();
        proof {
            assert(before.take(j as int) == before);
        }
        while j > 0 && sorted[j - 1].input_edge.id > edge.input_edge.id
            invariant
                0 <= j <= sorted@.len(),
                sorted@ == before,
                slot_by(before, input_id_key(), edge.input_edge.id as int) == slot_by(
                    before.take(j as int),
                    input_id_key(),
                    edge.input_edge.id as int,
                ),
            decreases j,
        {
            proof {
                lemma_slot_by_step(before, input_id_key(), edge.input_edge.id as int, j as int);
            }
            j -= 1;
        }
        proof {
            lemma_slot_by_step(before, input_id_key(), edge.input_edge.id as int, j as int);
            assert(edges@.take(i + 1).drop_last() == edges@.take(i as int));
            assert(edges@.take(i + 1).last() == edge);
        }
        sorted.insert(j, edge);
        i += 1;
    }
    proof {
        assert(edges@.take(edges@.len() as int) == edges@);
    }
    sorted
}

} // verus!
