use crate::input_edge::InputEdge;
use crate::pattern::{Edge as PatternEdge, Pattern};
use crate::pattern_match::PatternMatch;
use crate::process_layers::join_layer::{
    delivered, fills, is_answer_of, is_leaf_of, leaf_of, swept, tree_built, views_of, JoinLayer,
};
use crate::process_layers::ord_match_layer::{
    after_stages, bound_for, chain_at, chain_start, compiles, completes, edges_tight,
    first_bad_stage, follows_plan, ids_in, lemma_last_stages, match_views, nodes_tight,
    partial_views, plan_kinds, plan_of, spans_hold, stage_kinds, OrdMatchLayer, SignatureError,
};
use crate::sub_pattern::{anchored, chains_of, covers, entry, is_partition, SubPattern};
use crate::sub_pattern_match::MatchView;
use std::rc::Rc;
use vstd::prelude::*;

verus! {

/// The matches of whole sub-patterns that the matchers find in a batch of
/// input edges of one timestamp.
pub open spec fn found_in<'p>(layer: OrdMatchLayer<'p>, batch: Seq<Rc<InputEdge>>) -> Seq<
    MatchView<'p>,
> {
    if batch.len() == 0 {
        Seq::empty()
    } else {
        after_stages(
            layer.sub_matchers@,
            batch,
            bound_for(batch[0].timestamp, layer.window_size),
            layer.num_edges as nat,
            layer.sub_matchers@.len(),
        ).results
    }
}

/// Stages of these kinds, made for a pattern of so many nodes and edges,
/// fit the join tree: the tree is for a pattern of as many edges and no
/// fewer nodes, and for each last stage of a sub-pattern the tree has the
/// leaf of that sub-pattern, for the same pattern edges.
pub open spec fn fit(
    kinds: Seq<(PatternEdge, Option<usize>)>,
    num_nodes: nat,
    num_edges: nat,
    tree: &JoinLayer,
) -> bool {
    &&& num_nodes <= tree.pattern.num_nodes
    &&& num_edges == tree.pattern.edges@.len()
    &&& forall|t: int|
        0 <= t < kinds.len() ==> match (#[trigger] kinds[t]).1 {
            Some(id) => leaf_of(id as int) < tree.sub_pattern_buffers@.len() && tree.edges_of(
                leaf_of(id as int),
            ) == ids_in(chain_at(kinds, t)),
            None => true,
        }
}

/// A join tree takes the match of a whole sub-pattern that fitting stages
/// hand over.
pub proof fn lemma_fit_admits(
    kinds: Seq<(PatternEdge, Option<usize>)>,
    num_nodes: nat,
    num_edges: nat,
    tree: &JoinLayer,
    m: MatchView,
)
    requires
        fit(kinds, num_nodes, num_edges, tree),
        m.wf(num_nodes, num_edges),
        completes(m, kinds),
    ensures
        tree.admits(m),
{
    let t = choose|t: int|
        0 <= t < kinds.len() && (#[trigger] kinds[t]).1 == Some(m.id) && fills(m, ids_in(chain_at(kinds, t)));
    assert(tree.edges_of(leaf_of(m.id as int)) == ids_in(chain_at(kinds, t)));
}

/// Stages fit a join tree of the same shape as one that they fit.
pub proof fn lemma_fit_kept(
    kinds: Seq<(PatternEdge, Option<usize>)>,
    num_nodes: nat,
    num_edges: nat,
    before: &JoinLayer,
    after: &JoinLayer,
)
    requires
        fit(kinds, num_nodes, num_edges, before),
        after.same_shape(before),
    ensures
        fit(kinds, num_nodes, num_edges, after),
{
    assert forall|t: int| 0 <= t < kinds.len() implies match (#[trigger] kinds[t]).1 {
        Some(id) => leaf_of(id as int) < after.sub_pattern_buffers@.len() && after.edges_of(
            leaf_of(id as int),
        ) == ids_in(chain_at(kinds, t)),
        None => true,
    } by {
        if let Some(id) = kinds[t].1 {
            let b = leaf_of(id as int);
            assert(after.sub_pattern_buffers@[b].edge_id_list == before.sub_pattern_buffers@[b].edge_id_list);
        }
    }
}

/// The matchers of the sub-patterns of one pattern, and the join tree that
/// takes what they find.
pub struct Pipeline<'p> {
    pub ord_match_layer: OrdMatchLayer<'p>,
    pub join_layer: JoinLayer<'p>,
}

impl<'p> Pipeline<'p> {
    /// The two layers are made for one decomposition of one pattern: the
    /// matchers count the edges of the pattern of the tree and no more
    /// nodes than it has, and for each last stage of a sub-pattern the tree
    /// has the leaf of that sub-pattern, for the same pattern edges.
    pub open spec fn in_step(&self) -> bool {
        fit(
            stage_kinds(self.ord_match_layer.sub_matchers@),
            self.ord_match_layer.num_nodes as nat,
            self.ord_match_layer.num_edges as nat,
            &self.join_layer,
        )
    }

    /// Both layers are sound, and they are in step.
    pub open spec fn wf(&self) -> bool {
        &&& self.ord_match_layer.wf()
        &&& self.join_layer.wf()
        &&& self.in_step()
    }

    /// The matchers and the join tree for a pattern and its decomposition
    /// into sub-patterns, with nothing found yet. The first signature that
    /// does not compile is reported.
    pub fn new(
        pattern: &'p Pattern,
        decomposition: &'p Vec<SubPattern<'p>>,
        use_regex: bool,
        window_size: u64,
    ) -> (made: Result<Self, SignatureError>)
        requires
            pattern.wf(),
            decomposition@.len() >= 1,
            2 * decomposition@.len() + 2 <= usize::MAX,
            is_partition(chains_of(decomposition@), pattern.edges@.len()),
            forall|k: int|
                0 <= k < decomposition@.len() ==> (#[trigger] decomposition@[k]).id == k && anchored(
                    decomposition@[k].edges@,
                    pattern,
                ),
        ensures
            made is Ok <==> forall|t: int|
                0 <= t < plan_of(decomposition@).len() ==> compiles(*(#[trigger] plan_of(decomposition@)[t]).edge, use_regex),
            made matches Ok(pipeline) ==> {
                &&& pipeline.wf()
                &&& pipeline.join_layer.pattern == pattern
                &&& pipeline.join_layer.window_size == window_size
                &&& tree_built(
                    pipeline.join_layer.sub_pattern_buffers@,
                    pattern,
                    decomposition@,
                    decomposition@.len() as int,
                )
                &&& pipeline.ord_match_layer.use_regex == use_regex
                &&& pipeline.ord_match_layer.window_size == window_size
                &&& pipeline.ord_match_layer.sub_matchers@.len() == plan_of(decomposition@).len()
                &&& forall|t: int|
                    0 <= t < plan_of(decomposition@).len() ==> follows_plan(
                        #[trigger] pipeline.ord_match_layer.sub_matchers@[t],
                        plan_of(decomposition@)[t],
                        use_regex,
                        pipeline.ord_match_layer.num_nodes as nat,
                    )
            },
            made matches Err(error) ==> exists|t: int|
                #[trigger] first_bad_stage(plan_of(decomposition@), use_regex, t) && plan_of(
                    decomposition@,
                )[t].edge.id == error.edge_id,
    {
        let num_edges = pattern.edges.len();
        let ghost chains = chains_of(decomposition@);
        proof {
            assert forall|s: int, q: int|
                0 <= s < decomposition@.len() && 0 <= q < decomposition@[s].edges@.len() implies {
                &&& (#[trigger] decomposition@[s].edges@[q]).start < usize::MAX
                &&& decomposition@[s].edges@[q].end < usize::MAX
                &&& decomposition@[s].edges@[q].id < usize::MAX
            } by {
                assert(anchored(decomposition@[s].edges@, pattern));
            }
            assert forall|s: int, q: int, r: int|
                0 <= s < decomposition@.len() && 0 <= q < r < decomposition@[s].edges@.len() implies (
            #[trigger] decomposition@[s].edges@[q]).id != (#[trigger] decomposition@[s].edges@[r]).id by {
                assert(entry(chains, s, q) == decomposition@[s].edges@[q].id);
                assert(entry(chains, s, r) == decomposition@[s].edges@[r].id);
            }
        }
        let ord_match_layer = match OrdMatchLayer::new(decomposition.as_slice(), use_regex, window_size) {
            Ok(layer) => layer,
            Err(error) => {
                return Err(error);
            },
        };
        let join_layer = JoinLayer::new(pattern, decomposition, window_size);
        let pipeline = Pipeline { ord_match_layer, join_layer };
        proof {
            Self::lemma_made_in_step(&pipeline, pattern, decomposition@, use_regex);
        }
        Ok(pipeline)
    }

    /// Layers made for one decomposition of one pattern are in step.
    proof fn lemma_made_in_step(
        pipeline: &Self,
        pattern: &Pattern,
        decomposition: Seq<SubPattern>,
        use_regex: bool,
    )
        requires
            pattern.wf(),
            decomposition.len() >= 1,
            is_partition(chains_of(decomposition), pattern.edges@.len()),
            forall|k: int|
                0 <= k < decomposition.len() ==> (#[trigger] decomposition[k]).id == k && anchored(
                    decomposition[k].edges@,
                    pattern,
                ),
            pipeline.join_layer.pattern == pattern,
            tree_built(
                pipeline.join_layer.sub_pattern_buffers@,
                pattern,
                decomposition,
                decomposition.len() as int,
            ),
            spans_hold(
                decomposition,
                pipeline.ord_match_layer.num_nodes as nat,
                pipeline.ord_match_layer.num_edges as nat,
            ),
            nodes_tight(decomposition, pipeline.ord_match_layer.num_nodes as nat),
            edges_tight(decomposition, pipeline.ord_match_layer.num_edges as nat),
            pipeline.ord_match_layer.sub_matchers@.len() == plan_of(decomposition).len(),
            forall|t: int|
                0 <= t < plan_of(decomposition).len() ==> follows_plan(
                    #[trigger] pipeline.ord_match_layer.sub_matchers@[t],
                    plan_of(decomposition)[t],
                    use_regex,
                    pipeline.ord_match_layer.num_nodes as nat,
                ),
        ensures
            pipeline.in_step(),
    {
        let stages = pipeline.ord_match_layer.sub_matchers@;
        let kinds = stage_kinds(stages);
        let plan = plan_of(decomposition);
        let chains = chains_of(decomposition);
        let buffers = pipeline.join_layer.sub_pattern_buffers@;
        let num_nodes = pipeline.ord_match_layer.num_nodes;
        let num_edges = pipeline.ord_match_layer.num_edges;
        assert(kinds =~= plan_kinds(plan)) by {
            assert forall|t: int| 0 <= t < kinds.len() implies kinds[t] == plan_kinds(plan)[t] by {
                assert(follows_plan(stages[t], plan[t], use_regex, num_nodes as nat));
            }
        }
        assert(num_nodes <= pattern.num_nodes) by {
            if num_nodes > 0 {
                let (s, q) = choose|s: int, q: int|
                    0 <= s < decomposition.len() && 0 <= q < decomposition[s].edges@.len() && ((
                    #[trigger] decomposition[s].edges@[q]).start + 1 == num_nodes
                        || decomposition[s].edges@[q].end + 1 == num_nodes);
                assert(anchored(decomposition[s].edges@, pattern));
                assert(*decomposition[s].edges@[q] == pattern.edges@[decomposition[s].edges@[q].id as int]);
            }
        }
        assert(num_edges == pattern.edges@.len()) by {
            if num_edges > 0 {
                let (s, q) = choose|s: int, q: int|
                    0 <= s < decomposition.len() && 0 <= q < decomposition[s].edges@.len() && (
                    #[trigger] decomposition[s].edges@[q]).id + 1 == num_edges;
                assert(anchored(decomposition[s].edges@, pattern));
            }
            if pattern.edges@.len() > 0 {
                let e = pattern.edges@.len() - 1;
                assert(covers(chains, e));
                let (k, q) = choose|k: int, q: int|
                    0 <= k < chains.len() && 0 <= q < chains[k].len() && #[trigger] entry(chains, k, q)
                        == e;
                assert(decomposition[k].edges@[q].id < num_edges);
            }
        }
        assert forall|t: int| 0 <= t < kinds.len() implies match (#[trigger] kinds[t]).1 {
            Some(id) => leaf_of(id as int) < buffers.len() && pipeline.join_layer.edges_of(
                leaf_of(id as int),
            ) == ids_in(chain_at(kinds, t)),
            None => true,
        } by {
            if let Some(id) = kinds[t].1 {
                assert(plan[t].last_of == Some(id));
                lemma_last_stages(decomposition, t);
                let s = choose|s: int|
                    0 <= s < decomposition.len() && plan[t].last_of == Some(
                        (#[trigger] decomposition[s]).id,
                    ) && chain_at(plan_kinds(plan), t) == chain_start(
                        decomposition[s],
                        decomposition[s].edges@.len() as int,
                    );
                let chain = chain_start(decomposition[s], decomposition[s].edges@.len() as int);
                assert(id == s);
                assert(is_leaf_of(buffers[leaf_of(s)].edge_id_list@, decomposition[s]));
                assert(buffers[leaf_of(s)].edge_id_list@ =~= ids_in(chain)) by {
                    assert forall|e: usize| buffers[leaf_of(s)].edge_id_list@.contains(e) implies ids_in(
                        chain,
                    ).contains(e) by {
                        let q = choose|q: int|
                            0 <= q < decomposition[s].edges@.len() && (#[trigger] decomposition[s].edges@[q]).id
                                == e;
                        assert(chain[q].id == e);
                    }
                    assert forall|e: usize| ids_in(chain).contains(e) implies buffers[leaf_of(
                        s,
                    )].edge_id_list@.contains(e) by {
                        let q = choose|q: int| 0 <= q < chain.len() && (#[trigger] chain[q]).id == e;
                        assert(decomposition[s].edges@[q].id == e);
                    }
                }
            }
        }
    }

    /// Takes a batch of input edges of one timestamp through the matchers
    /// of the sub-patterns, hands what they find to the join tree, and
    /// returns the matches of the whole pattern that the batch completes.
    pub fn process_batch(&mut self, time_batch: &Vec<Rc<InputEdge>>) -> (results: Vec<PatternMatch>)
        requires
            old(self).wf(),
        ensures
            final(self).wf(),
            final(self).join_layer.same_shape(&old(self).join_layer),
            stage_kinds(final(self).ord_match_layer.sub_matchers@) == stage_kinds(
                old(self).ord_match_layer.sub_matchers@,
            ),
            time_batch@.len() == 0 ==> final(self).ord_match_layer.sub_matchers@ == old(
                self,
            ).ord_match_layer.sub_matchers@,
            time_batch@.len() > 0 ==> forall|t: int|
                0 <= t < final(self).ord_match_layer.sub_matchers@.len() ==> partial_views(
                    (#[trigger] final(self).ord_match_layer.sub_matchers@[t]).buffer@,
                ) == after_stages(
                    old(self).ord_match_layer.sub_matchers@,
                    time_batch@,
                    bound_for(time_batch@[0].timestamp, old(self).ord_match_layer.window_size),
                    old(self).ord_match_layer.num_edges as nat,
                    old(self).ord_match_layer.sub_matchers@.len(),
                ).buffers[t],
            ({
                let run = swept(
                    delivered(old(self).join_layer@, found_in(old(self).ord_match_layer, time_batch@)),
                    old(self).join_layer.relations(),
                    old(self).join_layer.window_size,
                    old(self).join_layer.sub_pattern_buffers@.len() as int,
                    0,
                );
                &&& final(self).join_layer@ == run.state
                &&& results@.len() == run.answers.len()
                &&& forall|i: int|
                    0 <= i < results@.len() ==> is_answer_of(
                        (#[trigger] results@[i]).matched_edges@,
                        run.answers[i],
                    )
            }),
    {
        let ghost kinds = stage_kinds(self.ord_match_layer.sub_matchers@);
        let ghost num_nodes = self.ord_match_layer.num_nodes as nat;
        let ghost num_edges = self.ord_match_layer.num_edges as nat;
        let ghost tree = self.join_layer;
        let found = self.ord_match_layer.process_batch(time_batch);
        proof {
            assert(stage_kinds(self.ord_match_layer.sub_matchers@) =~= kinds);
            assert(views_of(found@) =~= match_views(found@));
            if time_batch@.len() == 0 {
                assert(views_of(found@) =~= Seq::<MatchView<'p>>::empty());
            }
            assert forall|i: int| 0 <= i < found@.len() implies tree.admits((#[trigger] found@[i])@) by {
                lemma_fit_admits(kinds, num_nodes, num_edges, &tree, found@[i]@);
            }
        }
        let results = self.join_layer.process_batch(found);
        proof {
            lemma_fit_kept(kinds, num_nodes, num_edges, &tree, &self.join_layer);
        }
        results
    }
}

} // verus!
