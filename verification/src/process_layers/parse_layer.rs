use crate::input_edge::InputEdge;
use crate::sorted::{lemma_slot_by, lemma_slot_by_step, rising, slot_by};
use std::rc::Rc;
use vstd::prelude::*;

verus! {

/// The input edges of one record: the record names two times, and gives one
/// edge for each time, or one edge where the two times are the same.
pub fn parse(timestamp1: u64, timestamp2: u64, signature: String, id: u64, start: u64, end: u64) -> (edges:
    (InputEdge, Option<InputEdge>))
    ensures
        edges.0 == (InputEdge { timestamp: timestamp1, signature, id, start, end }),
        timestamp1 == timestamp2 ==> edges.1 is None,
        timestamp1 != timestamp2 ==> edges.1 == Some(
            InputEdge { timestamp: timestamp2, signature, id, start, end },
        ),
{
    if timestamp1 != timestamp2 {
        let edge2 = InputEdge { timestamp: timestamp2, signature: signature.clone(), id, start, end };
        let edge1 = InputEdge { timestamp: timestamp1, signature, id, start, end };
        (edge1, Some(edge2))
    } else {
        (InputEdge { timestamp: timestamp1, signature, id, start, end }, None)
    }
}

/// The key by which the waiting edges are kept in order: their timestamp.
pub open spec fn time_key() -> spec_fn(InputEdge) -> int {
    |edge: InputEdge| edge.timestamp as int
}

/// The list with the edge put behind the edges of its timestamp or an
/// earlier one.
pub open spec fn with_edge(buffer: Seq<InputEdge>, edge: InputEdge) -> Seq<InputEdge> {
    buffer.insert(slot_by(buffer, time_key(), edge.timestamp as int), edge)
}

/// The number of edges at the front of the list that have the timestamp of
/// its first edge.
pub open spec fn first_batch_len(buffer: Seq<InputEdge>) -> nat
    decreases buffer.len(),
{
    if buffer.len() == 0 {
        0
    } else if buffer.last().timestamp == buffer[0].timestamp {
        buffer.len()
    } else {
        first_batch_len(buffer.drop_last())
    }
}

/// Puts the input edges in the order of their timestamps, within bounds:
/// the edges wait until a record with a later time has been read, and leave
/// in batches of one timestamp.
pub struct ParseLayer {
    /// The edges that wait, in the order of their timestamps.
    pub buffer: Vec<InputEdge>,
    /// The first time of the record read last; the greatest number there is
    /// once all records are read.
    pub boundary_time: u64,
}

impl ParseLayer {
    /// The waiting edges are in the order of their timestamps.
    pub open spec fn wf(&self) -> bool {
        rising(self.buffer@, time_key())
    }

    /// Nothing can leave: no edge waits, or the earliest has the time of
    /// the record read last, or a later one.
    pub open spec fn idle(&self) -> bool {
        self.buffer@.len() == 0 || self.buffer@[0].timestamp >= self.boundary_time
    }

    /// A layer in which nothing waits and no record is read.
    pub fn new() -> (layer: Self)
        ensures
            layer.wf(),
            layer.buffer@.len() == 0,
            layer.boundary_time == 0,
    {
        Self { buffer: Vec::new(), boundary_time: 0 }
    }

    /// Tells whether nothing can leave.
    pub fn nothing_to_send(&self) -> (idle: bool)
        ensures
            idle == self.idle(),
    {
        if self.buffer.len() == 0 {
            true
        } else {
            self.buffer[0].timestamp >= self.boundary_time
        }
    }

    /// Puts an edge among the waiting ones, behind the edges of its
    /// timestamp or an earlier one.
    fn put(&mut self, edge: InputEdge)
        requires
            old(self).wf(),
        ensures
            final(self).wf(),
            final(self).boundary_time == old(self).boundary_time,
            final(self).buffer@ == with_edge(old(self).buffer@, edge),
    {
        let ghost before = self.buffer@;
        let ghost key = edge.timestamp as int;
        let mut j: usize = self.buffer.len();
        proof {
            assert(before.take(j as int) == before);
        }
        while j > 0 && self.buffer[j - 1].timestamp > edge.timestamp
            invariant
                0 <= j <= self.buffer@.len(),
                self.buffer@ == before,
                self.boundary_time == old(self).boundary_time,
                key == edge.timestamp,
                slot_by(before, time_key(), key) == slot_by(before.take(j as int), time_key(), key),
            decreases j,
        {
            proof {
                lemma_slot_by_step(before, time_key(), key, j as int);
            }
            j -= 1;
        }
        proof {
            lemma_slot_by_step(before, time_key(), key, j as int);
            lemma_slot_by(before, time_key(), key);
        }
        self.buffer.insert(j, edge);
        proof {
            let after = self.buffer@;
            assert forall|a: int, b: int| 0 <= a < b < after.len() implies time_key()(#[trigger] after[a])
                <= time_key()(#[trigger] after[b]) by {
                if a < j {
                    assert(after[a] == before[a]);
                } else if a > j {
                    assert(after[a] == before[a - 1]);
                }
                if b < j {
                    assert(after[b] == before[b]);
                } else if b > j {
                    assert(after[b] == before[b - 1]);
                }
            }
        }
    }

    /// Takes in the edges of the record read last. The first time of the
    /// record becomes the time before which edges can leave.
    pub fn push_record(&mut self, edge1: InputEdge, edge2: Option<InputEdge>)
        requires
            old(self).wf(),
        ensures
            final(self).wf(),
            final(self).boundary_time == edge1.timestamp,
            final(self).buffer@ == match edge2 {
                Some(edge) => with_edge(with_edge(old(self).buffer@, edge1), edge),
                None => with_edge(old(self).buffer@, edge1),
            },
    {
        self.boundary_time = edge1.timestamp;
        self.put(edge1);
        match edge2 {
            Some(edge) => {
                self.put(edge);
            },
            None => {},
        }
    }

    /// Tells the layer that all records are read: every edge that waits can
    /// leave.
    pub fn finish(&mut self)
        ensures
            final(self).buffer == old(self).buffer,
            final(self).boundary_time == u64::MAX,
    {
        self.boundary_time = u64::MAX;
    }

    /// The next batch of edges that can leave: the waiting edges of the
    /// earliest timestamp, where that lies before the time of the record
    /// read last.
    pub fn get_batch(&mut self) -> (batch: Option<Vec<Rc<InputEdge>>>)
        requires
            old(self).wf(),
        ensures
            final(self).wf(),
            final(self).boundary_time == old(self).boundary_time,
            batch is None <==> old(self).idle(),
            batch is None ==> final(self).buffer@ == old(self).buffer@,
            batch matches Some(edges) ==> {
                &&& edges@.len() == first_batch_len(old(self).buffer@)
                &&& edges@.len() > 0
                &&& forall|i: int| 0 <= i < edges@.len() ==> *(#[trigger] edges@[i]) == old(self).buffer@[i]
                &&& forall|i: int|
                    0 <= i < edges@.len() ==> (#[trigger] edges@[i]).timestamp == old(
                        self,
                    ).buffer@[0].timestamp
                &&& final(self).buffer@ == old(self).buffer@.skip(edges@.len() as int)
                &&& forall|i: int|
                    0 <= i < final(self).buffer@.len() ==> (#[trigger] final(self).buffer@[i]).timestamp
                        > old(self).buffer@[0].timestamp
            },
    {
        if self.nothing_to_send() {
            return None;
        }
        let ghost given = self.buffer@;
        let time = self.buffer[0].timestamp;
        let mut count: usize = 1;
        proof {
            assert(given.take(1).drop_last() == given.take(0));
        }
        while count < self.buffer.len() && self.buffer[count].timestamp == time
            invariant
                1 <= count <= given.len(),
                self.buffer@ == given,
                self.boundary_time == old(self).boundary_time,
                rising(given, time_key()),
                time == given[0].timestamp,
                forall|i: int| 0 <= i < count ==> (#[trigger] given[i]).timestamp == time,
            decreases given.len() - count,
        {
            count += 1;
        }
        proof {
            assert forall|i: int| count <= i < given.len() implies (#[trigger] given[i]).timestamp
                > time by {
                assert(time_key()(given[0]) <= time_key()(given[i]));
                assert(time_key()(given[count as int]) <= time_key()(given[i]));
            }
            lemma_first_batch(given, count as int);
        }
        let rest = self.buffer.split_off(count);
        let mut first: Vec<InputEdge> = Vec::new();
        std::mem::swap(&mut first, &mut self.buffer);
        self.buffer = rest;
        let mut edges_to_flush: Vec<Rc<InputEdge>> = Vec::new();
        for edge in it: first
            invariant
                it.seq() == first@,
                edges_to_flush@.len() == it.index(),
                forall|i: int| 0 <= i < it.index() ==> *(#[trigger] edges_to_flush@[i]) == first@[i],
        {
            edges_to_flush.push(Rc::new(edge));
        }
        proof {
            assert(self.buffer@ == given.skip(count as int));
            assert forall|a: int, b: int| 0 <= a < b < self.buffer@.len() implies time_key()(
                #[trigger] self.buffer@[a],
            ) <= time_key()(#[trigger] self.buffer@[b]) by {
                assert(self.buffer@[a] == given[count + a]);
                assert(self.buffer@[b] == given[count + b]);
            }
            assert forall|i: int| 0 <= i < edges_to_flush@.len() implies *(#[trigger] edges_to_flush@[i])
                == given[i] by {
                assert(first@[i] == given[i]);
            }
        }
        Some(edges_to_flush)
    }
}

/// In a list in the order of the timestamps, the first batch ends where
/// the timestamps begin to differ from the first.
proof fn lemma_first_batch(buffer: Seq<InputEdge>, count: int)
    requires
        1 <= count <= buffer.len(),
        forall|i: int| 0 <= i < count ==> (#[trigger] buffer[i]).timestamp == buffer[0].timestamp,
        forall|i: int| count <= i < buffer.len() ==> (#[trigger] buffer[i]).timestamp > buffer[0].timestamp,
    ensures
        first_batch_len(buffer) == count,
    decreases buffer.len(),
{
    if count < buffer.len() {
        let rest = buffer.drop_last();
        assert(buffer[buffer.len() - 1].timestamp > buffer[0].timestamp);
        assert forall|i: int| 0 <= i < count implies (#[trigger] rest[i]).timestamp == rest[0].timestamp by {
            assert(rest[i] == buffer[i]);
            assert(rest[0] == buffer[0]);
        }
        assert forall|i: int| count <= i < rest.len() implies (#[trigger] rest[i]).timestamp
            > rest[0].timestamp by {
            assert(rest[i] == buffer[i]);
            assert(rest[0] == buffer[0]);
        }
        lemma_first_batch(rest, count);
    } else {
        assert(buffer[buffer.len() - 1].timestamp == buffer[0].timestamp);
    }
}

} // verus!
