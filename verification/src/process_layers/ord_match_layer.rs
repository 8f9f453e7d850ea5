use crate::input_edge::InputEdge;
use crate::match_edge::{share_input_edge, MatchEdge};
use crate::pattern::Edge as PatternEdge;
use crate::binding::{binds, one_to_one, sorted_by_input};
use crate::process_layers::join_layer::{
    convert_node_id_map, create_edge_id_map, earliest_of, fills, id_map_over, latest_of,
    lemma_id_map_over, lemma_node_pairs, lemma_time_span, no_entries, node_pairs,
};
use crate::sorted::{
    distinct_by, input_id_key, lemma_sorted_by_distinct, lemma_sorted_by_keeps,
    lemma_sorted_by_rising, node_key, pattern_id_tag, sort_edges, sorted_by,
};
use crate::sub_pattern::{chain_ids, SubPattern};
use crate::sub_pattern_match::{copy_of, edge_keys, MatchView, SubPatternMatch};
use regex::Regex;
use std::collections::VecDeque;
use std::rc::Rc;
use vstd::prelude::*;
use vstd::string::StringExecFns;

verus! {

#[verifier::external_type_specification]
#[verifier::external_body]
pub struct ExRegex(Regex);

#[verifier::external_type_specification]
#[verifier::external_body]
pub struct ExRegexError(regex::Error);

/// The pattern that a compiled regular expression was compiled from.
pub uninterp spec fn regex_pattern(regex: Regex) -> Seq<char>;

/// The pattern compiles to a regular expression.
pub uninterp spec fn regex_valid(pattern: Seq<char>) -> bool;

/// The regular expression compiled from the pattern matches somewhere in
/// the text.
pub uninterp spec fn regex_accepts(pattern: Seq<char>, text: Seq<char>) -> bool;

/// A character that has a meaning of its own in a regular expression.
pub open spec fn is_meta_character(c: char) -> bool {
    c == '\\' || c == '.' || c == '+' || c == '*' || c == '?' || c == '(' || c == ')' || c == '|'
        || c == '[' || c == ']' || c == '{' || c == '}' || c == '^' || c == '$' || c == '#' || c
        == '&' || c == '-' || c == '~'
}

/// The text with a backslash before each character that has a meaning of
/// its own in a regular expression.
pub open spec fn escaped(text: Seq<char>) -> Seq<char>
    decreases text.len(),
{
    if text.len() == 0 {
        Seq::empty()
    } else if is_meta_character(text.last()) {
        escaped(text.drop_last()).push('\\').push(text.last())
    } else {
        escaped(text.drop_last()).push(text.last())
    }
}

/// The pattern that matches a whole text only, where `inner` matches it.
pub open spec fn whole_text(inner: Seq<char>) -> Seq<char> {
    "^(?:"@ + inner + ")$"@
}

/// `Regex::new`: compiles the pattern, or tells why it cannot; the compiled
/// expression remembers the pattern.
#[verifier::external_body]
fn regex_new(pattern: &str) -> (compiled: Result<Regex, regex::Error>)
    ensures
        compiled is Ok <==> regex_valid(pattern@),
        compiled matches Ok(regex) ==> regex_pattern(regex) == pattern@,
{
    Regex::new(pattern)
}

/// `Regex::is_match`: whether the expression matches somewhere in the text.
#[verifier::external_body]
fn regex_is_match(regex: &Regex, text: &str) -> (found: bool)
    ensures
        found == regex_accepts(regex_pattern(*regex), text@),
{
    regex.is_match(text)
}

/// `regex::escape`: puts a backslash before each character that has a
/// meaning of its own in a regular expression.
#[verifier::external_body]
fn regex_escape(text: &str) -> (quoted: String)
    ensures
        quoted@ == escaped(text@),
{
    regex::escape(text)
}

/// A signature that does not compile to a regular expression.
pub struct SignatureError {
    /// Id of the pattern edge that has the signature.
    pub edge_id: usize,
    /// What the regular expression compiler said.
    pub reason: regex::Error,
}

/// A match of the first edges of one sub-pattern.
pub struct PartialMatch<'p> {
    /// Id of the sub-pattern.
    pub id: usize,
    /// The time at which the match came into the window: the timestamp of
    /// its first edge; the greatest number there is while no edge is
    /// matched. Decides expiry.
    pub timestamp: u64,
    /// `node_id_map[pattern node id]` is the id of the input node that
    /// stands for the pattern node, or 0 while none does.
    pub node_id_map: Vec<u64>,
    /// The matched edges, in the order of the sub-pattern.
    pub edges: Vec<MatchEdge<'p>>,
}

/// What a `PartialMatch` holds, as plain sequences.
pub struct PartialView<'p> {
    pub id: usize,
    pub timestamp: u64,
    pub node_id_map: Seq<u64>,
    pub edges: Seq<MatchEdge<'p>>,
}

impl<'p> View for PartialMatch<'p> {
    type V = PartialView<'p>;

    open spec fn view(&self) -> PartialView<'p> {
        PartialView {
            id: self.id,
            timestamp: self.timestamp,
            node_id_map: self.node_id_map@,
            edges: self.edges@,
        }
    }
}

/// The views of a list of partial matches.
pub open spec fn partial_views<'p>(list: Seq<PartialMatch<'p>>) -> Seq<PartialView<'p>> {
    Seq::new(list.len(), |i: int| list[i]@)
}

/// The input edge can be the next edge of the partial match, as a match of
/// the pattern edge: the nodes of the pattern edge stand for no other input
/// nodes yet, and the partial match does not hold the input edge yet.
pub open spec fn can_extend(partial: PartialView, pattern_edge: PatternEdge, input: InputEdge) -> bool {
    &&& partial.node_id_map[pattern_edge.start as int] == 0
        || partial.node_id_map[pattern_edge.start as int] == input.start
    &&& partial.node_id_map[pattern_edge.end as int] == 0
        || partial.node_id_map[pattern_edge.end as int] == input.end
    &&& forall|k: int|
        0 <= k < partial.edges.len() ==> (#[trigger] partial.edges[k]).input_edge.id != input.id
}

/// The partial match with the input edge as its next edge. It keeps the
/// time at which it came into the window; a match without edges comes in
/// with its first edge.
pub open spec fn extended<'p>(
    partial: PartialView<'p>,
    pattern_edge: &'p PatternEdge,
    input: Rc<InputEdge>,
) -> PartialView<'p> {
    PartialView {
        id: partial.id,
        timestamp: if partial.edges.len() == 0 {
            input.timestamp
        } else {
            partial.timestamp
        },
        node_id_map: partial.node_id_map.update(pattern_edge.start as int, input.start).update(
            pattern_edge.end as int,
            input.end,
        ),
        edges: partial.edges.push(MatchEdge { input_edge: input, matched: pattern_edge }),
    }
}

/// The partial matches that the input edge extends, each with the input
/// edge as its next edge, in their order.
pub open spec fn extensions<'p>(
    partials: Seq<PartialView<'p>>,
    pattern_edge: &'p PatternEdge,
    input: Rc<InputEdge>,
) -> Seq<PartialView<'p>>
    decreases partials.len(),
{
    if partials.len() == 0 {
        Seq::empty()
    } else if can_extend(partials.last(), *pattern_edge, *input) {
        extensions(partials.drop_last(), pattern_edge, input).push(
            extended(partials.last(), pattern_edge, input),
        )
    } else {
        extensions(partials.drop_last(), pattern_edge, input)
    }
}

/// The extensions of the partial matches by the input edges of a batch:
/// for each input edge whose signature the pattern accepts, in the order of
/// the batch, the partial matches that it extends.
pub open spec fn matches_of<'p>(
    batch: Seq<Rc<InputEdge>>,
    pattern: Seq<char>,
    partials: Seq<PartialView<'p>>,
    pattern_edge: &'p PatternEdge,
) -> Seq<PartialView<'p>>
    decreases batch.len(),
{
    if batch.len() == 0 {
        Seq::empty()
    } else if regex_accepts(pattern, batch.last().signature@) {
        matches_of(batch.drop_last(), pattern, partials, pattern_edge) + extensions(
            partials,
            pattern_edge,
            batch.last(),
        )
    } else {
        matches_of(batch.drop_last(), pattern, partials, pattern_edge)
    }
}

/// The partial matches that have not expired: those with a timestamp of
/// `time_bound` or later.
pub open spec fn alive<'p>(partials: Seq<PartialView<'p>>, time_bound: u64) -> Seq<
    PartialView<'p>,
>
    decreases partials.len(),
{
    if partials.len() == 0 {
        Seq::empty()
    } else if partials.last().timestamp >= time_bound {
        alive(partials.drop_last(), time_bound).push(partials.last())
    } else {
        alive(partials.drop_last(), time_bound)
    }
}

/// The match of a whole sub-pattern as the join tree takes it: the edges
/// sorted by input edge id, the pairs of the node map sorted by input node
/// id, the edge id map over all `num_edges` edges of the pattern, and the
/// earliest and latest timestamp among the edges.
pub open spec fn converted<'p>(partial: PartialView<'p>, num_edges: nat) -> MatchView<'p> {
    MatchView {
        id: partial.id,
        latest_time: latest_of(partial.edges),
        earliest_time: earliest_of(partial.edges),
        match_nodes: sorted_by(node_pairs(partial.node_id_map), node_key()),
        edge_id_map: id_map_over(no_entries(num_edges), partial.edges),
        match_edges: sorted_by(partial.edges, input_id_key()),
    }
}

/// A partial match that holds no input edge and no pattern edge twice gives
/// a sound match of its sub-pattern.
pub proof fn lemma_converted_wf(partial: PartialView, num_nodes: nat, num_edges: nat)
    requires
        distinct_by(partial.edges, input_id_key()),
        distinct_by(partial.edges, pattern_id_tag()),
        forall|k: int| 0 <= k < partial.edges.len() ==> (#[trigger] partial.edges[k]).matched.id < num_edges,
        partial.node_id_map.len() <= num_nodes,
        partial.edges.len() > 0,
    ensures
        converted(partial, num_edges).wf(num_nodes, num_edges),
{
    let whole = converted(partial, num_edges);
    let edges = partial.edges;
    let sorted = whole.match_edges;
    let keys = edge_keys(sorted);
    lemma_sorted_by_rising(edges, input_id_key());
    lemma_sorted_by_keeps(edges, input_id_key());
    lemma_sorted_by_distinct(edges, input_id_key(), input_id_key());
    lemma_sorted_by_distinct(edges, input_id_key(), pattern_id_tag());
    lemma_id_map_over(no_entries(num_edges), edges);
    assert(sorted_by_input(keys)) by {
        assert forall|i: int, j: int| 0 <= i < j < keys.len() implies keys[i].0 <= keys[j].0 by {
            assert(input_id_key()(sorted[i]) <= input_id_key()(sorted[j]));
        }
    }
    assert(one_to_one(keys)) by {
        assert forall|i: int, j: int| 0 <= i < j < keys.len() implies keys[i].0 != keys[j].0
            && keys[i].1 != keys[j].1 by {
            assert(input_id_key()(sorted[i]) != input_id_key()(sorted[j]));
            assert(pattern_id_tag()(sorted[i]) != pattern_id_tag()(sorted[j]));
        }
    }
    lemma_time_span(edges);
    assert(whole.earliest_time <= edges[0].input_edge.timestamp <= whole.latest_time);
    assert forall|k: int| 0 <= k < sorted.len() implies {
        &&& (#[trigger] sorted[k]).matched.id < num_edges
        &&& whole.edge_id_map[sorted[k].matched.id as int] == Some(sorted[k].input_edge.id)
        &&& whole.earliest_time <= sorted[k].input_edge.timestamp <= whole.latest_time
    } by {
        assert(edges.contains(sorted[k]));
        let j = choose|j: int| 0 <= j < edges.len() && edges[j] == sorted[k];
        assert(edges[j].matched.id < num_edges);
        assert(earliest_of(edges) <= edges[j].input_edge.timestamp <= latest_of(edges));
    }
    assert forall|p: int| 0 <= p < num_edges && (#[trigger] whole.edge_id_map[p]) is Some implies binds(
        keys,
        p,
    ) by {
        if forall|k: int| 0 <= k < edges.len() ==> (#[trigger] edges[k]).matched.id != p {
            assert(whole.edge_id_map[p] == no_entries(num_edges)[p]);
        } else {
            let j = choose|j: int| 0 <= j < edges.len() && (#[trigger] edges[j]).matched.id == p;
            assert(sorted.contains(edges[j]));
            let k = choose|k: int| 0 <= k < sorted.len() && sorted[k] == edges[j];
            assert(keys[k].1 == p);
        }
    }
    let pairs = node_pairs(partial.node_id_map);
    lemma_node_pairs(partial.node_id_map);
    lemma_sorted_by_rising(pairs, node_key());
    lemma_sorted_by_keeps(pairs, node_key());
    assert(sorted_by_input(whole.match_nodes)) by {
        assert forall|i: int, j: int| 0 <= i < j < whole.match_nodes.len() implies whole.match_nodes[i].0
            <= whole.match_nodes[j].0 by {
            assert(node_key()(whole.match_nodes[i]) <= node_key()(whole.match_nodes[j]));
        }
    }
    assert forall|k: int| 0 <= k < whole.match_nodes.len() implies (
    #[trigger] whole.match_nodes[k]).1 < num_nodes by {
        assert(pairs.contains(whole.match_nodes[k]));
        let j = choose|j: int| 0 <= j < pairs.len() && pairs[j] == whole.match_nodes[k];
        assert(pairs[j].1 < partial.node_id_map.len());
    }
}

impl<'p> PartialMatch<'p> {
    /// The match of a whole sub-pattern as the join tree takes it, for a
    /// pattern of `num_edges` edges.
    pub fn to_sub_pattern_match(self, num_edges: usize) -> (whole: SubPatternMatch<'p>)
        requires
            forall|k: int| 0 <= k < self.edges@.len() ==> (#[trigger] self.edges@[k]).matched.id < num_edges,
        ensures
            whole@ == converted(self@, num_edges as nat),
    {
        let mut match_nodes: Vec<(u64, u64)> = Vec::new();
        convert_node_id_map(&mut match_nodes, &self.node_id_map);
        proof {
            assert(Seq::<(u64, u64)>::empty() + node_pairs(self.node_id_map@) == node_pairs(
                self.node_id_map@,
            ));
        }
        let mut edge_id_map: Vec<Option<u64>> = Vec::new();
        let mut p: usize = 0;
        while p < num_edges
            invariant
                0 <= p <= num_edges,
                edge_id_map@.len() == p,
                forall|q: int| 0 <= q < p ==> (#[trigger] edge_id_map@[q]) is None,
            decreases num_edges - p,
        {
            edge_id_map.push(None);
            p += 1;
        }
        proof {
            assert(edge_id_map@ == no_entries(num_edges as nat));
        }
        let earliest_time = create_edge_id_map(&mut edge_id_map, &self.edges);
        let mut latest_time: u64 = 0;
        let mut k: usize = 0;
        proof {
            assert(self.edges@.take(0) == Seq::<MatchEdge<'p>>::empty());
        }
        while k < self.edges.len()
            invariant
                0 <= k <= self.edges@.len(),
                latest_time == latest_of(self.edges@.take(k as int)),
            decreases self.edges@.len() - k,
        {
            proof {
                assert(self.edges@.take(k + 1).drop_last() == self.edges@.take(k as int));
                assert(self.edges@.take(k + 1).last() == self.edges@[k as int]);
            }
            if self.edges[k].input_edge.timestamp > latest_time {
                latest_time = self.edges[k].input_edge.timestamp;
            }
            k += 1;
        }
        proof {
            assert(self.edges@.take(self.edges@.len() as int) == self.edges@);
        }
        let match_edges = sort_edges(&self.edges);
        SubPatternMatch {
            id: self.id,
            latest_time,
            earliest_time,
            match_nodes,
            edge_id_map,
            match_edges,
        }
    }
}

/// One stage of the matcher of a sub-pattern: it matches one pattern edge,
/// and keeps the partial matches that wait for a match of it.
pub struct SubMatcher<'p> {
    pub signature: Regex,
    pub pattern_edge: &'p PatternEdge,
    /// The id of the sub-pattern, where this is its last stage.
    pub sub_pattern_id: Option<usize>,
    pub buffer: VecDeque<PartialMatch<'p>>,
}

impl<'p> SubMatcher<'p> {
    /// A stage for the pattern edge, with nothing waiting. Its signature is
    /// taken as a regular expression, or as plain text, and has to match a
    /// whole signature. A signature taken as a regular expression has to be
    /// one by itself.
    pub fn new(pattern_edge: &'p PatternEdge, use_regex: bool) -> (made: Result<
        Self,
        SignatureError,
    >)
        ensures
            made is Ok <==> compiles(*pattern_edge, use_regex),
            made matches Ok(matcher) ==> {
                &&& regex_pattern(matcher.signature) == signature_pattern(*pattern_edge, use_regex)
                &&& matcher.pattern_edge == pattern_edge
                &&& matcher.sub_pattern_id is None
                &&& matcher.buffer@.len() == 0
            },
            made matches Err(error) ==> error.edge_id == pattern_edge.id,
    {
        let mut pattern = String::from_str("^(?:");
        if use_regex {
            match regex_new(pattern_edge.signature.as_str()) {
                Ok(alone) => {},
                Err(reason) => {
                    return Err(SignatureError { edge_id: pattern_edge.id, reason });
                },
            }
            pattern.append(pattern_edge.signature.as_str());
        } else {
            let quoted = regex_escape(pattern_edge.signature.as_str());
            pattern.append(quoted.as_str());
        }
        pattern.append(")$");
        match regex_new(pattern.as_str()) {
            Ok(signature) => Ok(
                Self { signature, pattern_edge, sub_pattern_id: None, buffer: VecDeque::new() },
            ),
            Err(reason) => Err(SignatureError { edge_id: pattern_edge.id, reason }),
        }
    }

    /// The nodes of the pattern edge have a place in the node map of every
    /// partial match that waits here.
    pub open spec fn fits(&self) -> bool {
        forall|k: int|
            0 <= k < self.buffer@.len() ==> self.pattern_edge.start < (
            #[trigger] self.buffer@[k]).node_id_map@.len() && self.pattern_edge.end
                < self.buffer@[k].node_id_map@.len()
    }

    /// Extends the partial match by the input edge, where the input edge can
    /// be its next edge.
    pub fn merge(&self, input_edge: Rc<InputEdge>, partial_match: &PartialMatch<'p>) -> (merged:
        Option<PartialMatch<'p>>)
        requires
            self.pattern_edge.start < partial_match.node_id_map@.len(),
            self.pattern_edge.end < partial_match.node_id_map@.len(),
        ensures
            merged is Some <==> can_extend(partial_match@, *self.pattern_edge, *input_edge),
            merged matches Some(longer) ==> longer@ == extended(
                partial_match@,
                self.pattern_edge,
                input_edge,
            ),
    {
        let start_id = partial_match.node_id_map[self.pattern_edge.start];
        let end_id = partial_match.node_id_map[self.pattern_edge.end];
        if start_id > 0 && start_id != input_edge.start {
            return None;
        }
        if end_id > 0 && end_id != input_edge.end {
            return None;
        }
        let mut k: usize = 0;
        while k < partial_match.edges.len()
            invariant
                0 <= k <= partial_match.edges@.len(),
                forall|q: int|
                    0 <= q < k ==> (#[trigger] partial_match.edges@[q]).input_edge.id != input_edge.id,
            decreases partial_match.edges@.len() - k,
        {
            if partial_match.edges[k].input_edge.id == input_edge.id {
                assert(partial_match@.edges[k as int].input_edge.id == input_edge.id);
                return None;
            }
            k += 1;
        }
        let mut node_id_map = copy_of(&partial_match.node_id_map);
        let mut edges = partial_match.edges.clone();
        node_id_map.set(self.pattern_edge.start, input_edge.start);
        node_id_map.set(self.pattern_edge.end, input_edge.end);
        let timestamp = if partial_match.edges.len() == 0 {
            input_edge.timestamp
        } else {
            partial_match.timestamp
        };
        let match_edge = MatchEdge { input_edge, matched: self.pattern_edge };
        edges.push(match_edge);
        proof {
            assert(edges@ == partial_match.edges@.push(match_edge));
        }
        Some(PartialMatch { id: partial_match.id, timestamp, node_id_map, edges })
    }

    /// Extends the waiting partial matches by the input edges of a batch.
    pub fn match_against(&mut self, input_edges: &[Rc<InputEdge>]) -> (found: Vec<
        PartialMatch<'p>,
    >)
        requires
            old(self).fits(),
        ensures
            *final(self) == *old(self),
            partial_views(found@) == matches_of(
                input_edges@,
                regex_pattern(old(self).signature),
                partial_views(old(self).buffer@),
                old(self).pattern_edge,
            ),
    {
        let mut found: Vec<PartialMatch<'p>> = Vec::new();
        let ghost pattern = regex_pattern(self.signature);
        let ghost waiting = partial_views(self.buffer@);
        let mut i: usize = 0;
        proof {
            assert(input_edges@.take(0) == Seq::<Rc<InputEdge>>::empty());
            assert(partial_views(found@) == Seq::<PartialView<'p>>::empty());
        }
        while i < input_edges.len()
            invariant
                0 <= i <= input_edges@.len(),
                *self == *old(self),
                self.fits(),
                pattern == regex_pattern(self.signature),
                waiting == partial_views(self.buffer@),
                partial_views(found@) == matches_of(
                    input_edges@.take(i as int),
                    pattern,
                    waiting,
                    self.pattern_edge,
                ),
            decreases input_edges@.len() - i,
        {
            let input_edge = &input_edges[i];
            let ghost so_far = partial_views(found@);
            proof {
                assert(input_edges@.take(i + 1).drop_last() == input_edges@.take(i as int));
                assert(input_edges@.take(i + 1).last() == *input_edge);
            }
            if regex_is_match(&self.signature, input_edge.signature.as_str()) {
                let mut k: usize = 0;
                proof {
                    assert(waiting.take(0) == Seq::<PartialView<'p>>::empty());
                    assert(so_far + Seq::<PartialView<'p>>::empty() == so_far);
                }
                while k < self.buffer.len()
                    invariant
                        0 <= k <= self.buffer@.len(),
                        *self == *old(self),
                        self.fits(),
                        waiting == partial_views(self.buffer@),
                        partial_views(found@) == so_far + extensions(
                            waiting.take(k as int),
                            self.pattern_edge,
                            *input_edge,
                        ),
                    decreases self.buffer@.len() - k,
                {
                    let partial_match = &self.buffer[k];
                    let ghost before = partial_views(found@);
                    proof {
                        assert(waiting.take(k + 1).drop_last() == waiting.take(k as int));
                        assert(waiting.take(k + 1).last() == partial_match@);
                    }
                    match self.merge(share_input_edge(input_edge), partial_match) {
                        Some(longer) => {
                            found.push(longer);
                            proof {
                                assert(partial_views(found@) == before.push(longer@));
                                assert(so_far + extensions(
                                    waiting.take(k as int),
                                    self.pattern_edge,
                                    *input_edge,
                                ).push(longer@) == before.push(longer@));
                            }
                        },
                        None => {},
                    }
                    k += 1;
                }
                proof {
                    assert(waiting.take(self.buffer@.len() as int) == waiting);
                }
            }
            i += 1;
        }
        proof {
            assert(input_edges@.take(input_edges@.len() as int) == input_edges@);
        }
        found
    }

    /// Drops the waiting partial matches that have expired: those with a
    /// timestamp before `time_bound`.
    pub fn clear_expired(&mut self, time_bound: u64)
        ensures
            partial_views(final(self).buffer@) == alive(partial_views(old(self).buffer@), time_bound),
            final(self).signature == old(self).signature,
            final(self).pattern_edge == old(self).pattern_edge,
            final(self).sub_pattern_id == old(self).sub_pattern_id,
    {
        let count = self.buffer.len();
        let ghost waiting = partial_views(self.buffer@);
        let ghost given = self.buffer@;
        let mut k: usize = 0;
        proof {
            assert(waiting.take(0) == Seq::<PartialView<'p>>::empty());
            assert(given.skip(0) == given);
            assert(partial_views(given) == partial_views(given) + Seq::<PartialView<'p>>::empty());
        }
        while k < count
            invariant
                0 <= k <= count,
                count == given.len(),
                waiting == partial_views(given),
                self.signature == old(self).signature,
                self.pattern_edge == old(self).pattern_edge,
                self.sub_pattern_id == old(self).sub_pattern_id,
                self.buffer@.len() >= count - k,
                self.buffer@.take(count - k) == given.skip(k as int),
                partial_views(self.buffer@.skip(count - k)) == alive(waiting.take(k as int), time_bound),
            decreases count - k,
        {
            let ghost before = self.buffer@;
            proof {
                assert(before[0] == before.take(count - k)[0]);
                assert(before[0] == given[k as int]);
                assert(waiting.take(k + 1).drop_last() == waiting.take(k as int));
                assert(waiting.take(k + 1).last() == given[k as int]@);
            }
            match self.buffer.pop_front() {
                Some(head) => {
                    let ghost popped = self.buffer@;
                    proof {
                        assert(popped.take(count - k - 1) == before.take(count - k).skip(1));
                        assert(given.skip(k as int).skip(1) == given.skip(k + 1));
                        assert(popped.skip(count - k - 1) == before.skip(count - k));
                    }
                    if head.timestamp >= time_bound {
                        self.buffer.push_back(head);
                        proof {
                            assert(self.buffer@.take(count - k - 1) == popped.take(count - k - 1));
                            assert(self.buffer@.skip(count - k - 1) == popped.skip(count - k - 1).push(
                                head,
                            ));
                            assert(partial_views(popped.skip(count - k - 1).push(head))
                                == partial_views(popped.skip(count - k - 1)).push(head@));
                        }
                    }
                },
                None => {},
            }
            k += 1;
        }
        proof {
            assert(waiting.take(count as int) == waiting);
            assert(self.buffer@.skip(0) == self.buffer@);
        }
    }
}

/// The partial match is one of the given ones with the input edge as its
/// next edge.
pub open spec fn extends_one<'p>(
    longer: PartialView<'p>,
    partials: Seq<PartialView<'p>>,
    pattern_edge: &'p PatternEdge,
    input: Rc<InputEdge>,
) -> bool {
    exists|k: int|
        0 <= k < partials.len() && can_extend(#[trigger] partials[k], *pattern_edge, *input) && longer
            == extended(partials[k], pattern_edge, input)
}

/// The partial match is one of the given ones with an input edge of the
/// batch as its next edge.
pub open spec fn extends_by<'p>(
    longer: PartialView<'p>,
    batch: Seq<Rc<InputEdge>>,
    partials: Seq<PartialView<'p>>,
    pattern_edge: &'p PatternEdge,
) -> bool {
    exists|b: int| 0 <= b < batch.len() && extends_one(longer, partials, pattern_edge, #[trigger] batch[b])
}

/// Every extension of partial matches by an input edge is one of them
/// with the input edge as its next edge.
pub proof fn lemma_extensions<'p>(
    partials: Seq<PartialView<'p>>,
    pattern_edge: &'p PatternEdge,
    input: Rc<InputEdge>,
)
    ensures
        forall|i: int|
            0 <= i < extensions(partials, pattern_edge, input).len() ==> extends_one(
                #[trigger] extensions(partials, pattern_edge, input)[i],
                partials,
                pattern_edge,
                input,
            ),
    decreases partials.len(),
{
    if partials.len() > 0 {
        let rest = partials.drop_last();
        lemma_extensions(rest, pattern_edge, input);
        let all = extensions(partials, pattern_edge, input);
        let before = extensions(rest, pattern_edge, input);
        assert forall|i: int| 0 <= i < all.len() implies extends_one(
            #[trigger] all[i],
            partials,
            pattern_edge,
            input,
        ) by {
            if i < before.len() {
                assert(all[i] == before[i]);
                assert(extends_one(before[i], rest, pattern_edge, input));
                let k = choose|k: int|
                    0 <= k < rest.len() && can_extend(#[trigger] rest[k], *pattern_edge, *input)
                        && before[i] == extended(rest[k], pattern_edge, input);
                assert(rest[k] == partials[k]);
            } else {
                assert(all[i] == extended(partials[partials.len() - 1], pattern_edge, input));
            }
        }
    }
}

/// Every partial match found for a batch is a waiting one with an input
/// edge of the batch as its next edge.
pub proof fn lemma_matches_of<'p>(
    batch: Seq<Rc<InputEdge>>,
    pattern: Seq<char>,
    partials: Seq<PartialView<'p>>,
    pattern_edge: &'p PatternEdge,
)
    ensures
        forall|i: int|
            0 <= i < matches_of(batch, pattern, partials, pattern_edge).len() ==> extends_by(
                #[trigger] matches_of(batch, pattern, partials, pattern_edge)[i],
                batch,
                partials,
                pattern_edge,
            ),
    decreases batch.len(),
{
    if batch.len() > 0 {
        let rest = batch.drop_last();
        lemma_matches_of(rest, pattern, partials, pattern_edge);
        lemma_extensions(partials, pattern_edge, batch.last());
        let all = matches_of(batch, pattern, partials, pattern_edge);
        let before = matches_of(rest, pattern, partials, pattern_edge);
        let here = extensions(partials, pattern_edge, batch.last());
        assert forall|i: int| 0 <= i < all.len() implies extends_by(
            #[trigger] all[i],
            batch,
            partials,
            pattern_edge,
        ) by {
            if i < before.len() {
                assert(all[i] == before[i]);
                assert(extends_by(before[i], rest, partials, pattern_edge));
                let b = choose|b: int|
                    0 <= b < rest.len() && extends_one(before[i], partials, pattern_edge, #[trigger] rest[b]);
                assert(rest[b] == batch[b]);
            } else {
                assert(all[i] == here[i - before.len()]);
                assert(extends_one(here[i - before.len()], partials, pattern_edge, batch.last()));
                assert(batch[batch.len() - 1] == batch.last());
            }
        }
    }
}

/// Every partial match that is still alive was among the given ones.
pub proof fn lemma_alive<'p>(partials: Seq<PartialView<'p>>, time_bound: u64)
    ensures
        forall|i: int|
            0 <= i < alive(partials, time_bound).len() ==> partials.contains(
                #[trigger] alive(partials, time_bound)[i],
            ),
    decreases partials.len(),
{
    if partials.len() > 0 {
        let rest = partials.drop_last();
        lemma_alive(rest, time_bound);
        let before = alive(rest, time_bound);
        let all = alive(partials, time_bound);
        assert forall|i: int| 0 <= i < all.len() implies partials.contains(#[trigger] all[i]) by {
            if i < before.len() {
                assert(all[i] == before[i]);
                assert(rest.contains(before[i]));
                let k = choose|k: int| 0 <= k < rest.len() && rest[k] == before[i];
                assert(partials[k] == rest[k]);
            } else {
                assert(all[i] == partials[partials.len() - 1]);
            }
        }
    }
}

/// What a stage is made for: its pattern edge, and the id of the
/// sub-pattern where it is the last stage of it.
pub open spec fn stage_kinds(stages: Seq<SubMatcher>) -> Seq<(PatternEdge, Option<usize>)> {
    Seq::new(stages.len(), |t: int| (*stages[t].pattern_edge, stages[t].sub_pattern_id))
}

/// The pattern edges of the stages before stage `t` in its sub-pattern, in
/// their order.
pub open spec fn prefix_at(kinds: Seq<(PatternEdge, Option<usize>)>, t: int) -> Seq<PatternEdge>
    decreases t,
{
    if t <= 0 || t > kinds.len() || kinds[t - 1].1 is Some {
        Seq::empty()
    } else {
        prefix_at(kinds, t - 1).push(kinds[t - 1].0)
    }
}

/// The id of the sub-pattern that stage `t` belongs to: the one that the
/// next last stage completes.
pub open spec fn owner_at(kinds: Seq<(PatternEdge, Option<usize>)>, t: int) -> usize
    decreases kinds.len() - t,
{
    if t < 0 || t >= kinds.len() {
        0
    } else {
        match kinds[t].1 {
            Some(id) => id,
            None => owner_at(kinds, t + 1),
        }
    }
}

/// The ids of the pattern edges of a chain.
pub open spec fn ids_in(chain: Seq<PatternEdge>) -> Set<usize> {
    Set::new(|e: usize| exists|q: int| 0 <= q < chain.len() && (#[trigger] chain[q]).id == e)
}

/// The pattern edges of the sub-pattern that stage `t` is the last stage
/// of, in their order.
pub open spec fn chain_at(kinds: Seq<(PatternEdge, Option<usize>)>, t: int) -> Seq<PatternEdge> {
    prefix_at(kinds, t).push(kinds[t].0)
}

/// The match is one of a whole sub-pattern of the stages: the stages have a
/// last stage for the sub-pattern of the match, and the match has an entry
/// for exactly the pattern edges of that sub-pattern.
pub open spec fn completes(m: MatchView, kinds: Seq<(PatternEdge, Option<usize>)>) -> bool {
    exists|t: int|
        0 <= t < kinds.len() && (#[trigger] kinds[t]).1 == Some(m.id) && fills(m, ids_in(chain_at(kinds, t)))
}

/// The partial match is sound at a stage: it belongs to the sub-pattern of
/// the stage, its node map has a place for every pattern node, its edges
/// match the pattern edges of the earlier stages, in their order, and it
/// holds no input edge twice.
pub open spec fn sound_partial(
    partial: PartialView,
    prefix: Seq<PatternEdge>,
    owner: usize,
    num_nodes: nat,
) -> bool {
    &&& partial.id == owner
    &&& partial.node_id_map.len() == num_nodes
    &&& partial.edges.len() == prefix.len()
    &&& forall|q: int| 0 <= q < prefix.len() ==> *(#[trigger] partial.edges[q]).matched == prefix[q]
    &&& distinct_by(partial.edges, input_id_key())
}

/// Every partial match of the list is sound at the stage.
pub open spec fn all_sound(
    partials: Seq<PartialView>,
    prefix: Seq<PatternEdge>,
    owner: usize,
    num_nodes: nat,
) -> bool {
    forall|k: int| 0 <= k < partials.len() ==> sound_partial(#[trigger] partials[k], prefix, owner, num_nodes)
}

/// No two pattern edges of the chain have the same id, and all ids are
/// below `num_edges`.
pub open spec fn simple_edges(chain: Seq<PatternEdge>, num_edges: nat) -> bool {
    &&& forall|q: int| 0 <= q < chain.len() ==> (#[trigger] chain[q]).id < num_edges
    &&& forall|q: int, r: int| 0 <= q < r < chain.len() ==> (#[trigger] chain[q]).id != (#[trigger] chain[r]).id
}

/// The matches of whole sub-patterns that a list of partial matches gives.
pub open spec fn converted_all<'p>(partials: Seq<PartialView<'p>>, num_edges: nat) -> Seq<
    MatchView<'p>,
> {
    Seq::new(partials.len(), |i: int| converted(partials[i], num_edges))
}

/// The views of a list of matches.
pub open spec fn match_views<'p>(list: Seq<SubPatternMatch<'p>>) -> Seq<MatchView<'p>> {
    Seq::new(list.len(), |i: int| list[i]@)
}

/// What the first `count` stages have done with a batch.
pub struct StageRun<'p> {
    /// What waits at each of these stages afterwards.
    pub buffers: Seq<Seq<PartialView<'p>>>,
    /// What the last of these stages hands to the next stage.
    pub forwarded: Seq<PartialView<'p>>,
    /// The matches of whole sub-patterns found so far.
    pub results: Seq<MatchView<'p>>,
}

/// The work of the first `count` stages on a batch. Each stage drops what
/// has expired, takes what the stage before hands over, and extends what
/// then waits by the input edges of the batch. A last stage turns what it
/// finds into matches of its sub-pattern; any other stage hands it to the
/// next stage.
pub open spec fn after_stages<'p>(
    stages: Seq<SubMatcher<'p>>,
    batch: Seq<Rc<InputEdge>>,
    time_bound: u64,
    num_edges: nat,
    count: nat,
) -> StageRun<'p>
    decreases count,
{
    if count == 0 {
        StageRun { buffers: Seq::empty(), forwarded: Seq::empty(), results: Seq::empty() }
    } else {
        let before = after_stages(stages, batch, time_bound, num_edges, (count - 1) as nat);
        let stage = stages[count - 1];
        let waiting = alive(partial_views(stage.buffer@), time_bound) + before.forwarded;
        let found = matches_of(batch, regex_pattern(stage.signature), waiting, stage.pattern_edge);
        StageRun {
            buffers: before.buffers.push(waiting),
            forwarded: if stage.sub_pattern_id is Some {
                Seq::empty()
            } else {
                found
            },
            results: if stage.sub_pattern_id is Some {
                before.results + converted_all(found, num_edges)
            } else {
                before.results
            },
        }
    }
}

/// The time before which a partial match has expired when a batch of the
/// given timestamp comes.
pub open spec fn bound_for(timestamp: u64, window_size: u64) -> u64 {
    if timestamp >= window_size {
        (timestamp - window_size) as u64
    } else {
        0
    }
}

/// The matchers of all sub-patterns: for each sub-pattern a chain of
/// stages, one stage for each of its pattern edges.
pub struct OrdMatchLayer<'p> {
    pub use_regex: bool,
    /// How far back in time, in milliseconds, a match may begin.
    pub window_size: u64,
    pub sub_matchers: Vec<SubMatcher<'p>>,
    /// Number of nodes of the whole pattern.
    pub num_nodes: usize,
    /// Number of edges of the whole pattern.
    pub num_edges: usize,
}

impl<'p> OrdMatchLayer<'p> {
    /// The layer is sound: every stage but a last one has a next stage, the
    /// pattern edges of the stages of one sub-pattern are different edges of
    /// the pattern, and what waits at a stage is sound there.
    pub open spec fn wf(&self) -> bool {
        sound_stages(self.sub_matchers@, self.num_nodes as nat, self.num_edges as nat)
    }
}

/// The stages are well laid out, and what waits at each stage is sound
/// there.
pub open spec fn sound_stages(stages: Seq<SubMatcher>, num_nodes: nat, num_edges: nat) -> bool {
    &&& well_laid(stage_kinds(stages), num_nodes, num_edges)
    &&& forall|t: int|
        0 <= t < stages.len() ==> all_sound(
            partial_views((#[trigger] stages[t]).buffer@),
            prefix_at(stage_kinds(stages), t),
            owner_at(stage_kinds(stages), t),
            num_nodes,
        )
}

/// What one stage is made for.
pub struct StagePlan<'p> {
    pub edge: &'p PatternEdge,
    /// The id of the sub-pattern, where the stage is its last stage.
    pub last_of: Option<usize>,
    /// The id of the sub-pattern, where the stage is its first stage.
    pub first_of: Option<usize>,
}

/// The stages for one sub-pattern: one for each of its pattern edges, in
/// their order.
pub open spec fn chain_plan<'p>(sub_pattern: SubPattern<'p>) -> Seq<StagePlan<'p>> {
    Seq::new(
        sub_pattern.edges@.len(),
        |q: int|
            StagePlan {
                edge: sub_pattern.edges@[q],
                last_of: if q == sub_pattern.edges@.len() - 1 {
                    Some(sub_pattern.id)
                } else {
                    None
                },
                first_of: if q == 0 {
                    Some(sub_pattern.id)
                } else {
                    None
                },
            },
    )
}

/// The stages for all sub-patterns, one sub-pattern after the other.
pub open spec fn plan_of<'p>(decomposition: Seq<SubPattern<'p>>) -> Seq<StagePlan<'p>>
    decreases decomposition.len(),
{
    if decomposition.len() == 0 {
        Seq::empty()
    } else {
        plan_of(decomposition.drop_last()) + chain_plan(decomposition.last())
    }
}

/// The partial match that holds no edge yet: it never expires, and no
/// input node stands for a pattern node in it.
pub open spec fn placeholder<'p>(id: usize, num_nodes: nat) -> PartialView<'p> {
    PartialView {
        id,
        timestamp: u64::MAX,
        node_id_map: Seq::new(num_nodes, |n: int| 0u64),
        edges: Seq::empty(),
    }
}

/// The regular expression that a stage for the pattern edge compiles: the
/// signature itself, or the signature as plain text, for a whole text.
pub open spec fn signature_pattern(edge: PatternEdge, use_regex: bool) -> Seq<char> {
    whole_text(
        if use_regex {
            edge.signature@
        } else {
            escaped(edge.signature@)
        },
    )
}

/// The signature of the pattern edge compiles: taken as a regular
/// expression it is one by itself, and the pattern for a whole text made
/// from it compiles.
pub open spec fn compiles(edge: PatternEdge, use_regex: bool) -> bool {
    &&& use_regex ==> regex_valid(edge.signature@)
    &&& regex_valid(signature_pattern(edge, use_regex))
}

/// Stage `t` of the plan is the first with a signature that does not
/// compile.
pub open spec fn first_bad_stage(plan: Seq<StagePlan>, use_regex: bool, t: int) -> bool {
    &&& 0 <= t < plan.len()
    &&& !compiles(*plan[t].edge, use_regex)
    &&& forall|u: int|
        0 <= u < t ==> compiles(*(#[trigger] plan[u]).edge, use_regex)
}

/// The stage is as it is first made for the plan: with the placeholder
/// waiting where it is the first stage of a sub-pattern, and nothing
/// waiting elsewhere.
pub open spec fn follows_plan(stage: SubMatcher, plan: StagePlan, use_regex: bool, num_nodes: nat) -> bool {
    &&& stage.pattern_edge == plan.edge
    &&& stage.sub_pattern_id == plan.last_of
    &&& regex_pattern(stage.signature) == signature_pattern(*plan.edge, use_regex)
    &&& partial_views(stage.buffer@) == match plan.first_of {
        Some(id) => seq![placeholder(id, num_nodes)],
        None => Seq::empty(),
    }
}

/// The stages before a point keep their pattern edges before them when
/// more stages come behind.
proof fn lemma_prefix_kept(
    kinds: Seq<(PatternEdge, Option<usize>)>,
    more: Seq<(PatternEdge, Option<usize>)>,
    t: int,
)
    requires
        0 <= t <= kinds.len(),
    ensures
        prefix_at(kinds + more, t) == prefix_at(kinds, t),
    decreases t,
{
    if t > 0 {
        assert((kinds + more)[t - 1] == kinds[t - 1]);
        lemma_prefix_kept(kinds, more, t - 1);
    }
}

/// The stages of sub-patterns that are complete keep their sub-pattern
/// when more stages come behind.
proof fn lemma_owner_kept(
    kinds: Seq<(PatternEdge, Option<usize>)>,
    more: Seq<(PatternEdge, Option<usize>)>,
    t: int,
)
    requires
        0 <= t < kinds.len(),
        forall|u: int| 0 <= u < kinds.len() && (#[trigger] kinds[u]).1 is None ==> u + 1 < kinds.len(),
    ensures
        owner_at(kinds + more, t) == owner_at(kinds, t),
    decreases kinds.len() - t,
{
    assert((kinds + more)[t] == kinds[t]);
    if kinds[t].1 is None {
        lemma_owner_kept(kinds, more, t + 1);
    }
}

/// The kinds of the stages made for one sub-pattern.
pub open spec fn chain_kinds(sub_pattern: SubPattern) -> Seq<(PatternEdge, Option<usize>)> {
    Seq::new(
        sub_pattern.edges@.len(),
        |q: int|
            (
                *sub_pattern.edges@[q],
                if q == sub_pattern.edges@.len() - 1 {
                    Some(sub_pattern.id)
                } else {
                    None
                },
            ),
    )
}

/// The first `q` pattern edges of a sub-pattern.
pub open spec fn chain_start(sub_pattern: SubPattern, q: int) -> Seq<PatternEdge> {
    Seq::new(q as nat, |r: int| *sub_pattern.edges@[r])
}

/// In the stages of a new sub-pattern behind complete ones, a stage has the
/// pattern edges of the sub-pattern before it, and belongs to the
/// sub-pattern.
proof fn lemma_new_chain(kinds: Seq<(PatternEdge, Option<usize>)>, sub_pattern: SubPattern, q: int)
    requires
        forall|u: int| 0 <= u < kinds.len() && (#[trigger] kinds[u]).1 is None ==> u + 1 < kinds.len(),
        0 <= q < sub_pattern.edges@.len(),
    ensures
        prefix_at(kinds + chain_kinds(sub_pattern), kinds.len() + q) == chain_start(sub_pattern, q),
        owner_at(kinds + chain_kinds(sub_pattern), kinds.len() + q) == sub_pattern.id,
{
    lemma_new_chain_prefix(kinds, sub_pattern, q);
    lemma_new_chain_owner(kinds, sub_pattern, q);
}

proof fn lemma_new_chain_prefix(
    kinds: Seq<(PatternEdge, Option<usize>)>,
    sub_pattern: SubPattern,
    q: int,
)
    requires
        forall|u: int| 0 <= u < kinds.len() && (#[trigger] kinds[u]).1 is None ==> u + 1 < kinds.len(),
        0 <= q < sub_pattern.edges@.len(),
    ensures
        prefix_at(kinds + chain_kinds(sub_pattern), kinds.len() + q) == chain_start(sub_pattern, q),
    decreases q,
{
    let all = kinds + chain_kinds(sub_pattern);
    let t = kinds.len() + q;
    if q == 0 {
        if kinds.len() > 0 {
            assert(all[t - 1] == kinds[kinds.len() - 1]);
            assert(kinds[kinds.len() - 1].1 is Some);
        }
        assert(chain_start(sub_pattern, 0) == Seq::<PatternEdge>::empty());
    } else {
        lemma_new_chain_prefix(kinds, sub_pattern, q - 1);
        assert(all[t - 1] == chain_kinds(sub_pattern)[q - 1]);
        assert(chain_start(sub_pattern, q) == chain_start(sub_pattern, q - 1).push(
            *sub_pattern.edges@[q - 1],
        ));
    }
}

proof fn lemma_new_chain_owner(
    kinds: Seq<(PatternEdge, Option<usize>)>,
    sub_pattern: SubPattern,
    q: int,
)
    requires
        0 <= q < sub_pattern.edges@.len(),
    ensures
        owner_at(kinds + chain_kinds(sub_pattern), kinds.len() + q) == sub_pattern.id,
    decreases sub_pattern.edges@.len() - q,
{
    let all = kinds + chain_kinds(sub_pattern);
    assert(all[kinds.len() + q] == chain_kinds(sub_pattern)[q]);
    if q < sub_pattern.edges@.len() - 1 {
        lemma_new_chain_owner(kinds, sub_pattern, q + 1);
    }
}

/// Sound stages with the stages of one more sub-pattern behind them, as
/// first made, are sound stages.
proof fn lemma_append_chain(
    stages: Seq<SubMatcher>,
    chain: Seq<SubMatcher>,
    sub_pattern: SubPattern,
    use_regex: bool,
    num_nodes: nat,
    num_edges: nat,
)
    requires
        sound_stages(stages, num_nodes, num_edges),
        chain.len() == sub_pattern.edges@.len(),
        forall|q: int|
            0 <= q < chain.len() ==> follows_plan(
                #[trigger] chain[q],
                chain_plan(sub_pattern)[q],
                use_regex,
                num_nodes,
            ),
        forall|q: int|
            0 <= q < sub_pattern.edges@.len() ==> {
                &&& (#[trigger] sub_pattern.edges@[q]).start < num_nodes
                &&& sub_pattern.edges@[q].end < num_nodes
                &&& sub_pattern.edges@[q].id < num_edges
            },
        forall|q: int, r: int|
            0 <= q < r < sub_pattern.edges@.len() ==> (#[trigger] sub_pattern.edges@[q]).id != (
            #[trigger] sub_pattern.edges@[r]).id,
    ensures
        sound_stages(stages + chain, num_nodes, num_edges),
{
    let kinds = stage_kinds(stages);
    let more = chain_kinds(sub_pattern);
    let all = stages + chain;
    assert(stage_kinds(all) == kinds + more) by {
        assert forall|t: int| 0 <= t < all.len() implies stage_kinds(all)[t] == (kinds + more)[t] by {
            if t >= stages.len() {
                assert(all[t] == chain[t - stages.len()]);
                assert(follows_plan(
                    chain[t - stages.len()],
                    chain_plan(sub_pattern)[t - stages.len()],
                    use_regex,
                    num_nodes,
                ));
            } else {
                assert(all[t] == stages[t]);
            }
        }
    }
    assert forall|u: int| 0 <= u < kinds.len() && (#[trigger] kinds[u]).1 is None implies u + 1
        < kinds.len() by {}
    assert forall|t: int| 0 <= t < all.len() implies {
        &&& (#[trigger] (kinds + more)[t]).0.start < num_nodes
        &&& (kinds + more)[t].0.end < num_nodes
        &&& (kinds + more)[t].1 is None ==> t + 1 < all.len()
        &&& simple_edges(prefix_at(kinds + more, t).push((kinds + more)[t].0), num_edges)
        &&& all_sound(
            partial_views(all[t].buffer@),
            prefix_at(kinds + more, t),
            owner_at(kinds + more, t),
            num_nodes,
        )
    } by {
        if t < stages.len() {
            assert((kinds + more)[t] == kinds[t]);
            assert(all[t] == stages[t]);
            lemma_prefix_kept(kinds, more, t);
            lemma_owner_kept(kinds, more, t);
        } else {
            let q = t - stages.len();
            assert((kinds + more)[t] == more[q]);
            assert(all[t] == chain[q]);
            assert(follows_plan(chain[q], chain_plan(sub_pattern)[q], use_regex, num_nodes));
            lemma_new_chain(kinds, sub_pattern, q);
            let before = chain_start(sub_pattern, q);
            let upto = before.push(more[q].0);
            assert(simple_edges(upto, num_edges)) by {
                assert forall|a: int| 0 <= a < upto.len() implies (#[trigger] upto[a]).id < num_edges by {
                    assert(upto[a] == *sub_pattern.edges@[a]);
                }
                assert forall|a: int, b: int| 0 <= a < b < upto.len() implies (#[trigger] upto[a]).id != (
                #[trigger] upto[b]).id by {
                    assert(upto[a] == *sub_pattern.edges@[a]);
                    assert(upto[b] == *sub_pattern.edges@[b]);
                }
            }
            let waiting = partial_views(chain[q].buffer@);
            assert forall|k: int| 0 <= k < waiting.len() implies sound_partial(
                #[trigger] waiting[k],
                before,
                sub_pattern.id,
                num_nodes,
            ) by {
                assert(q == 0);
                assert(waiting[k] == placeholder(sub_pattern.id, num_nodes));
            }
        }
    }
}

/// The plan for the first sub-patterns is the start of the plan for all.
proof fn lemma_plan_start<'p>(decomposition: Seq<SubPattern<'p>>, s: int)
    requires
        0 <= s <= decomposition.len(),
    ensures
        plan_of(decomposition.take(s)).len() <= plan_of(decomposition).len(),
        forall|t: int|
            0 <= t < plan_of(decomposition.take(s)).len() ==> #[trigger] plan_of(decomposition)[t]
                == plan_of(decomposition.take(s))[t],
    decreases decomposition.len() - s,
{
    if s == decomposition.len() {
        assert(decomposition.take(s) == decomposition);
    } else {
        lemma_plan_start(decomposition, s + 1);
        lemma_plan_grows(decomposition, s);
        let shorter = plan_of(decomposition.take(s));
        let longer = plan_of(decomposition.take(s + 1));
        assert forall|t: int| 0 <= t < shorter.len() implies #[trigger] plan_of(decomposition)[t]
            == shorter[t] by {
            assert(longer[t] == shorter[t]);
        }
    }
}

/// Every pattern edge of the sub-patterns has nodes below `num_nodes` and
/// an id below `num_edges`.
pub open spec fn spans_hold(decomposition: Seq<SubPattern>, num_nodes: nat, num_edges: nat) -> bool {
    forall|s: int, q: int|
        0 <= s < decomposition.len() && 0 <= q < decomposition[s].edges@.len() ==> {
            &&& (#[trigger] decomposition[s].edges@[q]).start < num_nodes
            &&& decomposition[s].edges@[q].end < num_nodes
            &&& decomposition[s].edges@[q].id < num_edges
        }
}

/// A pattern edge of the sub-patterns has node `num_nodes - 1`, or there is
/// no node.
pub open spec fn nodes_tight(decomposition: Seq<SubPattern>, num_nodes: nat) -> bool {
    num_nodes == 0 || exists|s: int, q: int|
        0 <= s < decomposition.len() && 0 <= q < decomposition[s].edges@.len() && ((
        #[trigger] decomposition[s].edges@[q]).start + 1 == num_nodes || decomposition[s].edges@[q].end
            + 1 == num_nodes)
}

/// A pattern edge of the sub-patterns has id `num_edges - 1`, or there is
/// no edge.
pub open spec fn edges_tight(decomposition: Seq<SubPattern>, num_edges: nat) -> bool {
    num_edges == 0 || exists|s: int, q: int|
        0 <= s < decomposition.len() && 0 <= q < decomposition[s].edges@.len() && (
        #[trigger] decomposition[s].edges@[q]).id + 1 == num_edges
}

/// The number of nodes and the number of edges of the pattern that the
/// sub-patterns come from: one more than the greatest node, and one more
/// than the greatest edge id, that a sub-pattern names.
fn pattern_spans(decomposition: &[SubPattern]) -> (spans: (usize, usize))
    requires
        spans_hold(decomposition@, usize::MAX as nat, usize::MAX as nat),
    ensures
        spans_hold(decomposition@, spans.0 as nat, spans.1 as nat),
        nodes_tight(decomposition@, spans.0 as nat),
        edges_tight(decomposition@, spans.1 as nat),
{
    let mut num_nodes: usize = 0;
    let mut num_edges: usize = 0;
    let mut s: usize = 0;
    while s < decomposition.len()
        invariant
            0 <= s <= decomposition@.len(),
            spans_hold(decomposition@, usize::MAX as nat, usize::MAX as nat),
            spans_hold(decomposition@.take(s as int), num_nodes as nat, num_edges as nat),
            nodes_tight(decomposition@, num_nodes as nat),
            edges_tight(decomposition@, num_edges as nat),
        decreases decomposition@.len() - s,
    {
        let sub_pattern = &decomposition[s];
        let mut q: usize = 0;
        while q < sub_pattern.edges.len()
            invariant
                0 <= q <= sub_pattern.edges@.len(),
                s < decomposition@.len(),
                *sub_pattern == decomposition@[s as int],
                spans_hold(decomposition@, usize::MAX as nat, usize::MAX as nat),
                spans_hold(decomposition@.take(s as int), num_nodes as nat, num_edges as nat),
                forall|r: int|
                    0 <= r < q ==> {
                        &&& (#[trigger] sub_pattern.edges@[r]).start < num_nodes
                        &&& sub_pattern.edges@[r].end < num_nodes
                        &&& sub_pattern.edges@[r].id < num_edges
                    },
                nodes_tight(decomposition@, num_nodes as nat),
                edges_tight(decomposition@, num_edges as nat),
            decreases sub_pattern.edges@.len() - q,
        {
            let edge = sub_pattern.edges[q];
            proof {
                assert(decomposition@[s as int].edges@[q as int].start < usize::MAX);
            }
            if edge.start >= num_nodes {
                num_nodes = edge.start + 1;
            }
            if edge.end >= num_nodes {
                num_nodes = edge.end + 1;
            }
            if edge.id >= num_edges {
                num_edges = edge.id + 1;
            }
            proof {
                assert(decomposition@[s as int].edges@[q as int] == edge);
            }
            q += 1;
        }
        proof {
            assert forall|a: int, r: int|
                0 <= a < decomposition@.take(s + 1).len() && 0 <= r < decomposition@.take(s + 1)[a].edges@.len() implies {
                &&& (#[trigger] decomposition@.take(s + 1)[a].edges@[r]).start < num_nodes
                &&& decomposition@.take(s + 1)[a].edges@[r].end < num_nodes
                &&& decomposition@.take(s + 1)[a].edges@[r].id < num_edges
            } by {
                if a < s {
                    assert(decomposition@.take(s as int)[a].edges@[r].start < num_nodes);
                }
            }
        }
        s += 1;
    }
    proof {
        assert(decomposition@.take(decomposition@.len() as int) == decomposition@);
    }
    (num_nodes, num_edges)
}

/// A node map in which no input node stands for a pattern node.
fn empty_node_map(num_nodes: usize) -> (map: Vec<u64>)
    ensures
        map@ == Seq::new(num_nodes as nat, |n: int| 0u64),
{
    let mut map: Vec<u64> = Vec::new();
    let mut n: usize = 0;
    while n < num_nodes
        invariant
            0 <= n <= num_nodes,
            map@.len() == n,
            forall|m: int| 0 <= m < n ==> map@[m] == 0,
        decreases num_nodes - n,
    {
        map.push(0);
        n += 1;
    }
    map
}

impl<'p> OrdMatchLayer<'p> {
    /// The matchers for the sub-patterns of a decomposition: for each
    /// sub-pattern one stage for each of its pattern edges, the first with
    /// the placeholder waiting. A signature is taken as a regular
    /// expression where `use_regex` is set, and as plain text else; the
    /// first signature that does not compile is reported.
    pub fn new(decomposition: &'p [SubPattern<'p>], use_regex: bool, window_size: u64) -> (made:
        Result<Self, SignatureError>)
        requires
            spans_hold(decomposition@, usize::MAX as nat, usize::MAX as nat),
            forall|s: int, q: int, r: int|
                0 <= s < decomposition@.len() && 0 <= q < r < decomposition@[s].edges@.len() ==> (
                #[trigger] decomposition@[s].edges@[q]).id != (#[trigger] decomposition@[s].edges@[r]).id,
        ensures
            made is Ok <==> forall|t: int|
                0 <= t < plan_of(decomposition@).len() ==> compiles(*(#[trigger] plan_of(decomposition@)[t]).edge, use_regex),
            made matches Ok(layer) ==> {
                &&& layer.wf()
                &&& layer.use_regex == use_regex
                &&& layer.window_size == window_size
                &&& spans_hold(decomposition@, layer.num_nodes as nat, layer.num_edges as nat)
                &&& nodes_tight(decomposition@, layer.num_nodes as nat)
                &&& edges_tight(decomposition@, layer.num_edges as nat)
                &&& layer.sub_matchers@.len() == plan_of(decomposition@).len()
                &&& forall|t: int|
                    0 <= t < layer.sub_matchers@.len() ==> follows_plan(
                        #[trigger] layer.sub_matchers@[t],
                        plan_of(decomposition@)[t],
                        use_regex,
                        layer.num_nodes as nat,
                    )
            },
            made matches Err(error) ==> exists|t: int|
                #[trigger] first_bad_stage(plan_of(decomposition@), use_regex, t) && plan_of(
                    decomposition@,
                )[t].edge.id == error.edge_id,
    {
        let (num_nodes, num_edges) = pattern_spans(decomposition);
        let mut sub_matchers: Vec<SubMatcher<'p>> = Vec::new();
        let mut s: usize = 0;
        let ghost whole = plan_of(decomposition@);
        proof {
            assert(decomposition@.take(0) == Seq::<SubPattern<'p>>::empty());
            assert(stage_kinds(sub_matchers@) == Seq::<(PatternEdge, Option<usize>)>::empty());
        }
        while s < decomposition.len()
            invariant
                0 <= s <= decomposition@.len(),
                whole == plan_of(decomposition@),
                spans_hold(decomposition@, num_nodes as nat, num_edges as nat),
                forall|s: int, q: int, r: int|
                    0 <= s < decomposition@.len() && 0 <= q < r < decomposition@[s].edges@.len() ==> (
                    #[trigger] decomposition@[s].edges@[q]).id != (
                    #[trigger] decomposition@[s].edges@[r]).id,
                sound_stages(sub_matchers@, num_nodes as nat, num_edges as nat),
                sub_matchers@.len() == plan_of(decomposition@.take(s as int)).len(),
                forall|t: int|
                    0 <= t < sub_matchers@.len() ==> follows_plan(
                        #[trigger] sub_matchers@[t],
                        plan_of(decomposition@.take(s as int))[t],
                        use_regex,
                        num_nodes as nat,
                    ),
                forall|t: int|
                    0 <= t < sub_matchers@.len() ==> compiles(*(#[trigger] plan_of(decomposition@.take(s as int))[t]).edge, use_regex),
            decreases decomposition@.len() - s,
        {
            let sub_pattern = &decomposition[s];
            let ghost before = plan_of(decomposition@.take(s as int));
            let ghost after = plan_of(decomposition@.take(s + 1));
            let ghost steps = chain_plan(*sub_pattern);
            proof {
                lemma_plan_grows(decomposition@, s as int);
                lemma_plan_start(decomposition@, s + 1);
            }
            let mut chain: Vec<SubMatcher<'p>> = Vec::new();
            let mut q: usize = 0;
            while q < sub_pattern.edges.len()
                invariant
                    0 <= q <= sub_pattern.edges@.len(),
                    s < decomposition@.len(),
                    *sub_pattern == decomposition@[s as int],
                    steps == chain_plan(*sub_pattern),
                    whole == plan_of(decomposition@),
                    after == before + steps,
                    after.len() <= whole.len(),
                    forall|t: int| 0 <= t < after.len() ==> #[trigger] whole[t] == after[t],
                    chain@.len() == q,
                    forall|r: int|
                        0 <= r < q ==> follows_plan(#[trigger] chain@[r], steps[r], use_regex, num_nodes as nat),
                    forall|r: int|
                        0 <= r < q ==> compiles(*(#[trigger] steps[r]).edge, use_regex),
                    forall|t: int|
                        0 <= t < before.len() ==> compiles(*(#[trigger] before[t]).edge, use_regex),
                decreases sub_pattern.edges@.len() - q,
            {
                let edge = sub_pattern.edges[q];
                let mut matcher = match SubMatcher::new(edge, use_regex) {
                    Ok(matcher) => matcher,
                    Err(error) => {
                        proof {
                            let t = before.len() + q;
                            assert(after[t] == steps[q as int]);
                            assert(whole[t] == after[t]);
                            assert(whole[t].edge.id == error.edge_id);
                            assert forall|u: int| 0 <= u < t implies compiles(*(#[trigger] whole[u]).edge, use_regex) by {
                                assert(whole[u] == after[u]);
                                if u < before.len() {
                                    assert(after[u] == before[u]);
                                } else {
                                    assert(after[u] == steps[u - before.len()]);
                                }
                            }
                            assert(first_bad_stage(whole, use_regex, t));
                        }
                        return Err(error);
                    },
                };
                if q == 0 {
                    matcher.buffer.push_back(
                        PartialMatch {
                            id: sub_pattern.id,
                            timestamp: u64::MAX,
                            node_id_map: empty_node_map(num_nodes),
                            edges: Vec::new(),
                        },
                    );
                    proof {
                        assert(partial_views(matcher.buffer@) == seq![
                            placeholder(sub_pattern.id, num_nodes as nat),
                        ]);
                    }
                } else {
                    proof {
                        assert(partial_views(matcher.buffer@) == Seq::<PartialView<'p>>::empty());
                    }
                }
                if q + 1 == sub_pattern.edges.len() {
                    matcher.sub_pattern_id = Some(sub_pattern.id);
                }
                chain.push(matcher);
                q += 1;
            }
            proof {
                assert forall|q: int| 0 <= q < sub_pattern.edges@.len() implies {
                    &&& (#[trigger] sub_pattern.edges@[q]).start < num_nodes
                    &&& sub_pattern.edges@[q].end < num_nodes
                    &&& sub_pattern.edges@[q].id < num_edges
                } by {
                    assert(decomposition@[s as int].edges@[q].start < num_nodes);
                }
                assert forall|q: int, r: int| 0 <= q < r < sub_pattern.edges@.len() implies (
                #[trigger] sub_pattern.edges@[q]).id != (#[trigger] sub_pattern.edges@[r]).id by {
                    assert(decomposition@[s as int].edges@[q].id != decomposition@[s as int].edges@[r].id);
                }
                lemma_append_chain(
                    sub_matchers@,
                    chain@,
                    *sub_pattern,
                    use_regex,
                    num_nodes as nat,
                    num_edges as nat,
                );
            }
            let ghost built = sub_matchers@;
            let ghost added = chain@;
            sub_matchers.append(&mut chain);
            proof {
                assert(sub_matchers@ == built + added);
                assert forall|t: int| 0 <= t < sub_matchers@.len() implies follows_plan(
                    #[trigger] sub_matchers@[t],
                    after[t],
                    use_regex,
                    num_nodes as nat,
                ) && compiles(*after[t].edge, use_regex) by {
                    if t < built.len() {
                        assert(sub_matchers@[t] == built[t]);
                        assert(after[t] == before[t]);
                    } else {
                        assert(sub_matchers@[t] == added[t - built.len()]);
                        assert(after[t] == steps[t - built.len()]);
                    }
                }
            }
            s += 1;
        }
        proof {
            assert(decomposition@.take(decomposition@.len() as int) == decomposition@);
        }
        Ok(Self { use_regex, window_size, sub_matchers, num_nodes, num_edges })
    }
}

/// With one sub-pattern more, the plan grows by the stages for it.
proof fn lemma_plan_grows<'p>(decomposition: Seq<SubPattern<'p>>, s: int)
    requires
        0 <= s < decomposition.len(),
    ensures
        plan_of(decomposition.take(s + 1)) == plan_of(decomposition.take(s)) + chain_plan(
            decomposition[s],
        ),
{
    assert(decomposition.take(s + 1).drop_last() == decomposition.take(s));
    assert(decomposition.take(s + 1).last() == decomposition[s]);
}

impl<'p> OrdMatchLayer<'p> {
    /// Puts the partial matches behind what waits at a stage, in their
    /// order.
    fn hand_over(stage: &mut SubMatcher<'p>, forwarded: Vec<PartialMatch<'p>>)
        ensures
            partial_views(final(stage).buffer@) == partial_views(old(stage).buffer@) + partial_views(
                forwarded@,
            ),
            final(stage).signature == old(stage).signature,
            final(stage).pattern_edge == old(stage).pattern_edge,
            final(stage).sub_pattern_id == old(stage).sub_pattern_id,
    {
        let ghost given = stage.buffer@;
        proof {
            assert(forwarded@.take(0) == Seq::<PartialMatch<'p>>::empty());
            assert(given + Seq::<PartialMatch<'p>>::empty() == given);
        }
        for partial in it: forwarded
            invariant
                it.seq() == forwarded@,
                stage.buffer@ == given + forwarded@.take(it.index() as int),
                stage.signature == old(stage).signature,
                stage.pattern_edge == old(stage).pattern_edge,
                stage.sub_pattern_id == old(stage).sub_pattern_id,
        {
            proof {
                assert(forwarded@.take(it.index() + 1) == forwarded@.take(it.index() as int).push(
                    partial,
                ));
            }
            stage.buffer.push_back(partial);
        }
        proof {
            assert(forwarded@.take(forwarded@.len() as int) == forwarded@);
            assert(partial_views(given + forwarded@) == partial_views(given) + partial_views(
                forwarded@,
            ));
        }
    }

    /// Turns what a last stage found into matches of its sub-pattern and
    /// puts them behind the results.
    fn complete(
        results: &mut Vec<SubPatternMatch<'p>>,
        found: Vec<PartialMatch<'p>>,
        num_edges: usize,
    )
        requires
            forall|i: int, k: int|
                0 <= i < found@.len() && 0 <= k < found@[i].edges@.len() ==> (
                #[trigger] found@[i].edges@[k]).matched.id < num_edges,
        ensures
            match_views(final(results)@) == match_views(old(results)@) + converted_all(
                partial_views(found@),
                num_edges as nat,
            ),
    {
        let ghost given = match_views(results@);
        let ghost views = converted_all(partial_views(found@), num_edges as nat);
        proof {
            assert(views.take(0) == Seq::<MatchView<'p>>::empty());
            assert(given + Seq::<MatchView<'p>>::empty() == given);
        }
        for partial in it: found
            invariant
                it.seq() == found@,
                views == converted_all(partial_views(found@), num_edges as nat),
                forall|i: int, k: int|
                    0 <= i < found@.len() && 0 <= k < found@[i].edges@.len() ==> (
                    #[trigger] found@[i].edges@[k]).matched.id < num_edges,
                match_views(results@) == given + views.take(it.index() as int),
        {
            let ghost before = match_views(results@);
            proof {
                assert(partial == found@[it.index() as int]);
                assert forall|k: int| 0 <= k < partial.edges@.len() implies (
                #[trigger] partial.edges@[k]).matched.id < num_edges by {
                    assert(found@[it.index() as int].edges@[k].matched.id < num_edges);
                }
            }
            let whole = partial.to_sub_pattern_match(num_edges);
            results.push(whole);
            proof {
                assert(match_views(results@) == before.push(whole@));
                assert(views.take(it.index() + 1) == views.take(it.index() as int).push(whole@));
            }
        }
        proof {
            assert(views.take(found@.len() as int) == views);
        }
    }

    /// Takes a batch of input edges of one timestamp through the stages of
    /// all sub-patterns, and returns the matches of whole sub-patterns that
    /// the batch completes. A partial match has expired when its earliest
    /// edge lies more than the window before the batch. An empty batch
    /// changes nothing.
    pub fn process_batch(&mut self, time_batch: &Vec<Rc<InputEdge>>) -> (results: Vec<
        SubPatternMatch<'p>,
    >)
        requires
            old(self).wf(),
        ensures
            final(self).wf(),
            final(self).use_regex == old(self).use_regex,
            final(self).window_size == old(self).window_size,
            final(self).num_nodes == old(self).num_nodes,
            final(self).num_edges == old(self).num_edges,
            final(self).sub_matchers@.len() == old(self).sub_matchers@.len(),
            forall|t: int|
                0 <= t < final(self).sub_matchers@.len() ==> {
                    &&& (#[trigger] final(self).sub_matchers@[t]).signature == old(
                        self,
                    ).sub_matchers@[t].signature
                    &&& final(self).sub_matchers@[t].pattern_edge == old(self).sub_matchers@[t].pattern_edge
                    &&& final(self).sub_matchers@[t].sub_pattern_id == old(
                        self,
                    ).sub_matchers@[t].sub_pattern_id
                },
            time_batch@.len() == 0 ==> results@.len() == 0 && final(self).sub_matchers@ == old(
                self,
            ).sub_matchers@,
            time_batch@.len() > 0 ==> ({
                let run = after_stages(
                    old(self).sub_matchers@,
                    time_batch@,
                    bound_for(time_batch@[0].timestamp, old(self).window_size),
                    old(self).num_edges as nat,
                    old(self).sub_matchers@.len(),
                );
                &&& match_views(results@) == run.results
                &&& forall|t: int|
                    0 <= t < final(self).sub_matchers@.len() ==> partial_views(
                        (#[trigger] final(self).sub_matchers@[t]).buffer@,
                    ) == run.buffers[t]
            }),
            forall|i: int|
                0 <= i < results@.len() ==> (#[trigger] results@[i])@.wf(
                    old(self).num_nodes as nat,
                    old(self).num_edges as nat,
                ) && completes(results@[i]@, stage_kinds(old(self).sub_matchers@)),
    {
        let mut results: Vec<SubPatternMatch<'p>> = Vec::new();
        if time_batch.len() == 0 {
            return results;
        }
        let timestamp = time_batch[0].timestamp;
        let time_bound = if timestamp >= self.window_size {
            timestamp - self.window_size
        } else {
            0
        };
        let ghost given = self.sub_matchers@;
        let ghost kinds = stage_kinds(given);
        let ghost num_nodes = self.num_nodes as nat;
        let ghost num_edges = self.num_edges as nat;
        let mut prev_result: Vec<PartialMatch<'p>> = Vec::new();
        let mut t: usize = 0;
        proof {
            assert(match_views(results@) == Seq::<MatchView<'p>>::empty());
            assert(partial_views(prev_result@) == Seq::<PartialView<'p>>::empty());
        }
        while t < self.sub_matchers.len()
            invariant
                0 <= t <= given.len(),
                self.sub_matchers@.len() == given.len(),
                self.use_regex == old(self).use_regex,
                self.window_size == old(self).window_size,
                self.num_nodes == old(self).num_nodes,
                self.num_edges == old(self).num_edges,
                num_nodes == self.num_nodes,
                num_edges == self.num_edges,
                given == old(self).sub_matchers@,
                kinds == stage_kinds(given),
                stage_kinds(self.sub_matchers@) == kinds,
                well_laid(kinds, num_nodes, num_edges),
                forall|u: int|
                    0 <= u < given.len() ==> (#[trigger] self.sub_matchers@[u]).signature
                        == given[u].signature,
                forall|u: int| t <= u < given.len() ==> #[trigger] self.sub_matchers@[u] == given[u],
                forall|u: int|
                    0 <= u < given.len() ==> all_sound(
                        partial_views((#[trigger] self.sub_matchers@[u]).buffer@),
                        prefix_at(kinds, u),
                        owner_at(kinds, u),
                        num_nodes,
                    ),
                all_sound(partial_views(prev_result@), prefix_at(kinds, t as int), owner_at(kinds, t as int), num_nodes),
                t == given.len() ==> prev_result@.len() == 0,
                partial_views(prev_result@) == after_stages(
                    given,
                    time_batch@,
                    time_bound,
                    num_edges,
                    t as nat,
                ).forwarded,
                match_views(results@) == after_stages(
                    given,
                    time_batch@,
                    time_bound,
                    num_edges,
                    t as nat,
                ).results,
                after_stages(given, time_batch@, time_bound, num_edges, t as nat).buffers.len() == t,
                forall|u: int|
                    0 <= u < t ==> partial_views((#[trigger] self.sub_matchers@[u]).buffer@)
                        == after_stages(given, time_batch@, time_bound, num_edges, t as nat).buffers[u],
                forall|i: int|
                    0 <= i < results@.len() ==> (#[trigger] results@[i])@.wf(num_nodes, num_edges)
                        && completes(results@[i]@, kinds),
            decreases given.len() - t,
        {
            let ghost before = after_stages(given, time_batch@, time_bound, num_edges, t as nat);
            let ghost after = after_stages(given, time_batch@, time_bound, num_edges, (t + 1) as nat);
            let ghost stages_before = self.sub_matchers@;
            let ghost old_results = results@;
            let ghost prefix = prefix_at(kinds, t as int);
            let ghost owner = owner_at(kinds, t as int);
            let ghost forwarded = partial_views(prev_result@);
            let ghost pattern_edge = given[t as int].pattern_edge;
            proof {
                assert(kinds[t as int].0 == *pattern_edge);
                assert(self.sub_matchers@[t as int] == given[t as int]);
            }
            self.sub_matchers[t].clear_expired(time_bound);
            Self::hand_over(&mut self.sub_matchers[t], prev_result);
            let ghost waiting = partial_views(self.sub_matchers@[t as int].buffer@);
            proof {
                assert(waiting == alive(partial_views(given[t as int].buffer@), time_bound) + forwarded);
                lemma_waiting_sound(
                    partial_views(given[t as int].buffer@),
                    time_bound,
                    forwarded,
                    prefix,
                    owner,
                    num_nodes,
                );
                assert(self.sub_matchers@[t as int].fits()) by {
                    assert forall|k: int| 0 <= k < self.sub_matchers@[t as int].buffer@.len() implies pattern_edge.start
                        < (#[trigger] self.sub_matchers@[t as int].buffer@[k]).node_id_map@.len()
                        && pattern_edge.end < self.sub_matchers@[t as int].buffer@[k].node_id_map@.len() by {
                        assert(sound_partial(waiting[k], prefix, owner, num_nodes));
                    }
                }
                lemma_found_sound(
                    time_batch@,
                    regex_pattern(given[t as int].signature),
                    waiting,
                    pattern_edge,
                    prefix,
                    owner,
                    num_nodes,
                );
            }
            let found = self.sub_matchers[t].match_against(time_batch.as_slice());
            let ghost found_views = partial_views(found@);
            proof {
                assert(found_views == matches_of(
                    time_batch@,
                    regex_pattern(given[t as int].signature),
                    waiting,
                    pattern_edge,
                ));
                assert(after.buffers == before.buffers.push(waiting));
                assert forall|u: int| 0 <= u < given.len() implies stage_kinds(self.sub_matchers@)[u]
                    == kinds[u] by {
                    if u != t {
                        assert(self.sub_matchers@[u] == stages_before[u]);
                        assert(stage_kinds(stages_before)[u] == kinds[u]);
                    }
                }
                assert(stage_kinds(self.sub_matchers@) == kinds);
            }
            if self.sub_matchers[t].sub_pattern_id.is_some() {
                proof {
                    assert(kinds[t as int].1 == Some(owner));
                    assert(chain_at(kinds, t as int) == prefix.push(*pattern_edge));
                    assert forall|i: int| 0 <= i < found_views.len() implies converted(
                        #[trigger] found_views[i],
                        num_edges,
                    ).wf(num_nodes, num_edges) && completes(converted(found_views[i], num_edges), kinds)
                        && forall|k: int|
                        0 <= k < found_views[i].edges.len() ==> (#[trigger] found_views[i].edges[k]).matched.id
                            < num_edges by {
                        lemma_sound_converts(
                            found_views[i],
                            prefix.push(*pattern_edge),
                            owner,
                            num_nodes,
                            num_edges,
                        );
                        lemma_sound_fills(
                            found_views[i],
                            prefix.push(*pattern_edge),
                            owner,
                            num_nodes,
                            num_edges,
                        );
                    }
                    assert forall|i: int, k: int|
                        0 <= i < found@.len() && 0 <= k < found@[i].edges@.len() implies (
                    #[trigger] found@[i].edges@[k]).matched.id < num_edges by {
                        assert(found_views[i].edges[k].matched.id < num_edges);
                    }
                }
                Self::complete(&mut results, found, self.num_edges);
                prev_result = Vec::new();
                proof {
                    assert(partial_views(prev_result@) == Seq::<PartialView<'p>>::empty());
                    let added = converted_all(found_views, num_edges);
                    let earlier = match_views(old_results);
                    assert(match_views(results@) == earlier + added);
                    assert(match_views(results@).len() == results@.len());
                    assert((earlier + added).len() == earlier.len() + added.len());
                    assert forall|i: int| 0 <= i < results@.len() implies (#[trigger] results@[i])@.wf(
                        num_nodes,
                        num_edges,
                    ) && completes(results@[i]@, kinds) by {
                        assert(match_views(results@)[i] == results@[i]@);
                        if i < old_results.len() {
                            assert((earlier + added)[i] == earlier[i]);
                            assert(earlier[i] == old_results[i]@);
                            assert(old_results[i]@.wf(num_nodes, num_edges));
                            assert(completes(old_results[i]@, kinds));
                        } else {
                            assert((earlier + added)[i] == added[i - earlier.len()]);
                            assert(added[i - earlier.len()] == converted(
                                found_views[i - earlier.len()],
                                num_edges,
                            ));
                        }
                    }
                }
            } else {
                prev_result = found;
                proof {
                    assert(prefix_at(kinds, t + 1) == prefix.push(*pattern_edge));
                    assert(owner_at(kinds, t + 1) == owner);
                }
            }
            proof {
                assert forall|u: int| 0 <= u < t + 1 implies partial_views(
                    (#[trigger] self.sub_matchers@[u]).buffer@,
                ) == after.buffers[u] by {
                    if u < t {
                        assert(self.sub_matchers@[u] == stages_before[u]);
                        assert(after.buffers[u] == before.buffers[u]);
                    }
                }
                assert forall|u: int| 0 <= u < given.len() implies all_sound(
                    partial_views((#[trigger] self.sub_matchers@[u]).buffer@),
                    prefix_at(kinds, u),
                    owner_at(kinds, u),
                    num_nodes,
                ) by {
                    if u != t {
                        assert(self.sub_matchers@[u] == stages_before[u]);
                    }
                }
                assert forall|u: int| t + 1 <= u < given.len() implies #[trigger] self.sub_matchers@[u]
                    == given[u] by {
                    assert(self.sub_matchers@[u] == stages_before[u]);
                }
                assert forall|u: int| 0 <= u < given.len() implies (#[trigger] self.sub_matchers@[u]).signature
                    == given[u].signature by {
                    if u != t {
                        assert(self.sub_matchers@[u] == stages_before[u]);
                    }
                }
                if t + 1 == given.len() {
                    assert(kinds[t as int].1 is Some);
                }
            }
            t += 1;
        }
        proof {
            assert forall|u: int| 0 <= u < given.len() implies {
                &&& (#[trigger] self.sub_matchers@[u]).pattern_edge == given[u].pattern_edge
                &&& self.sub_matchers@[u].sub_pattern_id == given[u].sub_pattern_id
            } by {
                assert(stage_kinds(self.sub_matchers@)[u] == kinds[u]);
            }
        }
        results
    }
}

/// The stages are well laid out: every stage but a last one has a next
/// stage, and the pattern edges of the stages of one sub-pattern are
/// different edges of the pattern, with nodes of the pattern.
pub open spec fn well_laid(kinds: Seq<(PatternEdge, Option<usize>)>, num_nodes: nat, num_edges: nat) -> bool {
    forall|t: int|
        0 <= t < kinds.len() ==> {
            &&& (#[trigger] kinds[t]).0.start < num_nodes
            &&& kinds[t].0.end < num_nodes
            &&& kinds[t].1 is None ==> t + 1 < kinds.len()
            &&& simple_edges(prefix_at(kinds, t).push(kinds[t].0), num_edges)
        }
}

/// A sound partial match with an input edge as its next edge is sound at
/// the next stage.
pub proof fn lemma_extended_sound<'p>(
    partial: PartialView<'p>,
    pattern_edge: &'p PatternEdge,
    input: Rc<InputEdge>,
    prefix: Seq<PatternEdge>,
    owner: usize,
    num_nodes: nat,
)
    requires
        sound_partial(partial, prefix, owner, num_nodes),
        can_extend(partial, *pattern_edge, *input),
        pattern_edge.start < num_nodes,
        pattern_edge.end < num_nodes,
    ensures
        sound_partial(
            extended(partial, pattern_edge, input),
            prefix.push(*pattern_edge),
            owner,
            num_nodes,
        ),
{
    let longer = extended(partial, pattern_edge, input);
    let chain = prefix.push(*pattern_edge);
    assert forall|q: int| 0 <= q < chain.len() implies *(#[trigger] longer.edges[q]).matched == chain[q] by {
        if q < prefix.len() {
            assert(longer.edges[q] == partial.edges[q]);
        }
    }
    assert forall|i: int, j: int| 0 <= i < j < longer.edges.len() implies input_id_key()(
        #[trigger] longer.edges[i],
    ) != input_id_key()(#[trigger] longer.edges[j]) by {
        assert(longer.edges[i] == partial.edges[i]);
        if j < partial.edges.len() {
            assert(longer.edges[j] == partial.edges[j]);
            assert(input_id_key()(partial.edges[i]) != input_id_key()(partial.edges[j]));
        }
    }
}

/// What is found at a stage from sound partial matches is sound at the
/// next stage.
pub proof fn lemma_found_sound<'p>(
    batch: Seq<Rc<InputEdge>>,
    pattern: Seq<char>,
    waiting: Seq<PartialView<'p>>,
    pattern_edge: &'p PatternEdge,
    prefix: Seq<PatternEdge>,
    owner: usize,
    num_nodes: nat,
)
    requires
        all_sound(waiting, prefix, owner, num_nodes),
        pattern_edge.start < num_nodes,
        pattern_edge.end < num_nodes,
    ensures
        all_sound(
            matches_of(batch, pattern, waiting, pattern_edge),
            prefix.push(*pattern_edge),
            owner,
            num_nodes,
        ),
{
    let found = matches_of(batch, pattern, waiting, pattern_edge);
    lemma_matches_of(batch, pattern, waiting, pattern_edge);
    assert forall|i: int| 0 <= i < found.len() implies sound_partial(
        #[trigger] found[i],
        prefix.push(*pattern_edge),
        owner,
        num_nodes,
    ) by {
        assert(extends_by(found[i], batch, waiting, pattern_edge));
        let b = choose|b: int|
            0 <= b < batch.len() && extends_one(found[i], waiting, pattern_edge, #[trigger] batch[b]);
        let k = choose|k: int|
            0 <= k < waiting.len() && can_extend(#[trigger] waiting[k], *pattern_edge, *batch[b])
                && found[i] == extended(waiting[k], pattern_edge, batch[b]);
        lemma_extended_sound(waiting[k], pattern_edge, batch[b], prefix, owner, num_nodes);
    }
}

/// What still waits at a stage, with what the stage before hands over, is
/// sound where both were.
pub proof fn lemma_waiting_sound<'p>(
    buffer: Seq<PartialView<'p>>,
    time_bound: u64,
    forwarded: Seq<PartialView<'p>>,
    prefix: Seq<PatternEdge>,
    owner: usize,
    num_nodes: nat,
)
    requires
        all_sound(buffer, prefix, owner, num_nodes),
        all_sound(forwarded, prefix, owner, num_nodes),
    ensures
        all_sound(alive(buffer, time_bound) + forwarded, prefix, owner, num_nodes),
{
    let kept = alive(buffer, time_bound);
    let waiting = kept + forwarded;
    lemma_alive(buffer, time_bound);
    assert forall|k: int| 0 <= k < waiting.len() implies sound_partial(
        #[trigger] waiting[k],
        prefix,
        owner,
        num_nodes,
    ) by {
        if k < kept.len() {
            assert(waiting[k] == kept[k]);
            assert(buffer.contains(kept[k]));
            let j = choose|j: int| 0 <= j < buffer.len() && buffer[j] == kept[k];
            assert(sound_partial(buffer[j], prefix, owner, num_nodes));
        } else {
            assert(waiting[k] == forwarded[k - kept.len()]);
        }
    }
}

/// A partial match that is sound along a chain of different pattern edges
/// gives a sound match of the sub-pattern.
pub proof fn lemma_sound_converts(
    partial: PartialView,
    chain: Seq<PatternEdge>,
    owner: usize,
    num_nodes: nat,
    num_edges: nat,
)
    requires
        sound_partial(partial, chain, owner, num_nodes),
        simple_edges(chain, num_edges),
        chain.len() > 0,
    ensures
        converted(partial, num_edges).wf(num_nodes, num_edges),
        converted(partial, num_edges).id == owner,
        forall|k: int| 0 <= k < partial.edges.len() ==> (#[trigger] partial.edges[k]).matched.id < num_edges,
{
    assert forall|k: int| 0 <= k < partial.edges.len() implies (#[trigger] partial.edges[k]).matched.id
        < num_edges by {
        assert(*partial.edges[k].matched == chain[k]);
    }
    assert forall|i: int, j: int| 0 <= i < j < partial.edges.len() implies pattern_id_tag()(
        #[trigger] partial.edges[i],
    ) != pattern_id_tag()(#[trigger] partial.edges[j]) by {
        assert(*partial.edges[i].matched == chain[i]);
        assert(*partial.edges[j].matched == chain[j]);
    }
    lemma_converted_wf(partial, num_nodes, num_edges);
}

/// The kinds of the stages that a plan asks for.
pub open spec fn plan_kinds(plan: Seq<StagePlan>) -> Seq<(PatternEdge, Option<usize>)> {
    Seq::new(plan.len(), |t: int| (*plan[t].edge, plan[t].last_of))
}

/// The plan for a decomposition ends with the stages for its last
/// sub-pattern.
proof fn lemma_plan_kinds(decomposition: Seq<SubPattern>)
    requires
        decomposition.len() > 0,
    ensures
        plan_kinds(plan_of(decomposition)) == plan_kinds(plan_of(decomposition.drop_last()))
            + chain_kinds(decomposition.last()),
{
    let rest = plan_of(decomposition.drop_last());
    let chain = chain_plan(decomposition.last());
    assert(plan_of(decomposition) == rest + chain);
    assert(plan_kinds(rest + chain) =~= plan_kinds(rest) + chain_kinds(decomposition.last())) by {
        assert forall|t: int| 0 <= t < (rest + chain).len() implies plan_kinds(rest + chain)[t] == (
        plan_kinds(rest) + chain_kinds(decomposition.last()))[t] by {
            if t >= rest.len() {
                assert((rest + chain)[t] == chain[t - rest.len()]);
            } else {
                assert((rest + chain)[t] == rest[t]);
            }
        }
    }
}

/// In the plan for a decomposition, every stage but a last one has a next
/// stage.
proof fn lemma_plan_closed(decomposition: Seq<SubPattern>)
    ensures
        forall|u: int|
            0 <= u < plan_kinds(plan_of(decomposition)).len() && (#[trigger] plan_kinds(
                plan_of(decomposition),
            )[u]).1 is None ==> u + 1 < plan_kinds(plan_of(decomposition)).len(),
    decreases decomposition.len(),
{
    if decomposition.len() > 0 {
        lemma_plan_closed(decomposition.drop_last());
        lemma_plan_kinds(decomposition);
        let kinds = plan_kinds(plan_of(decomposition.drop_last()));
        let more = chain_kinds(decomposition.last());
        assert forall|u: int| 0 <= u < (kinds + more).len() && (#[trigger] (kinds + more)[u]).1 is None implies u
            + 1 < (kinds + more).len() by {
            if u < kinds.len() {
                assert((kinds + more)[u] == kinds[u]);
            } else {
                assert((kinds + more)[u] == more[u - kinds.len()]);
            }
        }
    }
}

/// A last stage of the plan for a decomposition is the last stage of one of
/// its sub-patterns, and has the pattern edges of that sub-pattern before
/// and at it, in their order.
pub proof fn lemma_last_stages(decomposition: Seq<SubPattern>, t: int)
    requires
        0 <= t < plan_of(decomposition).len(),
        plan_of(decomposition)[t].last_of is Some,
    ensures
        exists|s: int|
            0 <= s < decomposition.len() && plan_of(decomposition)[t].last_of == Some(
                (#[trigger] decomposition[s]).id,
            ) && chain_at(plan_kinds(plan_of(decomposition)), t) == chain_start(
                decomposition[s],
                decomposition[s].edges@.len() as int,
            ),
    decreases decomposition.len(),
{
    let rest = decomposition.drop_last();
    let last = decomposition.last();
    let kinds = plan_kinds(plan_of(rest));
    let more = chain_kinds(last);
    lemma_plan_kinds(decomposition);
    lemma_plan_closed(rest);
    assert(plan_kinds(plan_of(decomposition))[t].1 == plan_of(decomposition)[t].last_of);
    if t < kinds.len() {
        assert((kinds + more)[t] == kinds[t]);
        assert(kinds[t].1 == plan_of(rest)[t].last_of);
        lemma_last_stages(rest, t);
        lemma_prefix_kept(kinds, more, t);
        let s = choose|s: int|
            0 <= s < rest.len() && plan_of(rest)[t].last_of == Some((#[trigger] rest[s]).id) && chain_at(
                kinds,
                t,
            ) == chain_start(rest[s], rest[s].edges@.len() as int);
        assert(decomposition[s] == rest[s]);
    } else {
        let q = t - kinds.len();
        let s = decomposition.len() - 1;
        assert((kinds + more)[t] == more[q]);
        assert(q == last.edges@.len() - 1);
        lemma_new_chain(kinds, last, q);
        assert(chain_at(kinds + more, t) =~= chain_start(last, last.edges@.len() as int));
        assert(decomposition[s] == last);
    }
}

/// A partial match that is sound along a chain of different pattern edges
/// gives a match with an entry for exactly the pattern edges of the chain.
pub proof fn lemma_sound_fills(
    partial: PartialView,
    chain: Seq<PatternEdge>,
    owner: usize,
    num_nodes: nat,
    num_edges: nat,
)
    requires
        sound_partial(partial, chain, owner, num_nodes),
        simple_edges(chain, num_edges),
        num_edges <= usize::MAX,
    ensures
        fills(converted(partial, num_edges), ids_in(chain)),
{
    let edges = partial.edges;
    let map = converted(partial, num_edges).edge_id_map;
    assert forall|k: int| 0 <= k < edges.len() implies (#[trigger] edges[k]).matched.id < num_edges by {
        assert(*edges[k].matched == chain[k]);
    }
    assert forall|i: int, j: int| 0 <= i < j < edges.len() implies pattern_id_tag()(#[trigger] edges[i])
        != pattern_id_tag()(#[trigger] edges[j]) by {
        assert(*edges[i].matched == chain[i]);
        assert(*edges[j].matched == chain[j]);
    }
    lemma_id_map_over(no_entries(num_edges), edges);
    assert forall|p: int| 0 <= p < map.len() implies ((#[trigger] map[p]) is Some <==> ids_in(
        chain,
    ).contains(p as usize)) by {
        if ids_in(chain).contains(p as usize) {
            let q = choose|q: int| 0 <= q < chain.len() && (#[trigger] chain[q]).id == p as usize;
            assert(*edges[q].matched == chain[q]);
            assert(map[edges[q].matched.id as int] == Some(edges[q].input_edge.id));
        } else {
            assert forall|k: int| 0 <= k < edges.len() implies (#[trigger] edges[k]).matched.id != p by {
                assert(*edges[k].matched == chain[k]);
                assert(!ids_in(chain).contains(chain[k].id) || chain[k].id != p as usize);
            }
            assert(map[p] == no_entries(num_edges)[p]);
        }
    }
}

} // verus!
