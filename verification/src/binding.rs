use vstd::prelude::*;

verus! {

/// A binding is a list of pairs `(input id, pattern id)`: it says which
/// input node stands for which pattern node, or which input edge for which
/// pattern edge. It is sorted when the input ids never decrease.
pub open spec fn sorted_by_input(s: Seq<(u64, u64)>) -> bool {
    forall|i: int, j: int| 0 <= i < j < s.len() ==> s[i].0 <= s[j].0
}

/// No input id and no pattern id occurs twice in the list.
pub open spec fn one_to_one(s: Seq<(u64, u64)>) -> bool {
    forall|i: int, j: int| 0 <= i < j < s.len() ==> s[i].0 != s[j].0 && s[i].1 != s[j].1
}

/// Two bindings agree when a pair of one and a pair of the other have the
/// same input id exactly where they have the same pattern id.
pub open spec fn agree(a: Seq<(u64, u64)>, b: Seq<(u64, u64)>) -> bool {
    forall|i: int, j: int|
        0 <= i < a.len() && 0 <= j < b.len() ==> ((a[i].0 == b[j].0) <==> (a[i].1 == b[j].1))
}

/// The two bindings together still pair input ids and pattern ids one to one.
pub open spec fn mergeable(a: Seq<(u64, u64)>, b: Seq<(u64, u64)>) -> bool {
    one_to_one(a) && one_to_one(b) && agree(a, b)
}

/// The two sorted bindings merged by input id; where both hold the same
/// input id, the pair of the first is taken, once.
pub open spec fn merged_pairs(a: Seq<(u64, u64)>, b: Seq<(u64, u64)>) -> Seq<(u64, u64)>
    decreases a.len() + b.len(),
{
    if a.len() == 0 {
        b
    } else if b.len() == 0 {
        a
    } else if a[0].0 < b[0].0 {
        seq![a[0]] + merged_pairs(a.skip(1), b)
    } else if a[0].0 > b[0].0 {
        seq![b[0]] + merged_pairs(a, b.skip(1))
    } else {
        seq![a[0]] + merged_pairs(a.skip(1), b.skip(1))
    }
}

/// The pattern id `p` is paired in the list.
pub open spec fn binds(s: Seq<(u64, u64)>, p: int) -> bool {
    exists|k: int| 0 <= k < s.len() && #[trigger] s[k].1 == p
}

/// `e` is one of the first `n` items of `s`.
pub open spec fn among(s: Seq<(u64, u64)>, n: int, e: (u64, u64)) -> bool {
    exists|x: int| 0 <= x < n && #[trigger] s[x] == e
}

/// What holds between the two lists and the part merged so far, when the
/// first `i` items of `a` and the first `j` items of `b` have been taken.
pub closed spec fn merge_progress(
    a: Seq<(u64, u64)>,
    b: Seq<(u64, u64)>,
    merged: Seq<(u64, u64)>,
    i: int,
    j: int,
) -> bool {
    &&& 0 <= i <= a.len()
    &&& 0 <= j <= b.len()
    &&& forall|k: int, l: int| 0 <= k < l < merged.len() ==> merged[k].0 < merged[l].0
    &&& one_to_one(merged)
    &&& forall|k: int| 0 <= k < merged.len() && i < a.len() ==> merged[k].0 <= a[i].0
    &&& forall|k: int| 0 <= k < merged.len() && j < b.len() ==> merged[k].0 <= b[j].0
    &&& forall|k: int|
        0 <= k < merged.len() ==> among(a, i, #[trigger] merged[k]) || among(b, j, merged[k])
    &&& forall|x: int| 0 <= x < i ==> among(merged, merged.len() as int, #[trigger] a[x])
    &&& forall|y: int| 0 <= y < j ==> among(merged, merged.len() as int, #[trigger] b[y])
    &&& forall|y: int|
        0 <= y < j && i < a.len() ==> (#[trigger] b[y]).0 < a[i].0 || among(a, i, b[y])
    &&& forall|x: int|
        0 <= x < i && j < b.len() ==> (#[trigger] a[x]).0 < b[j].0 || among(b, j, a[x])
    &&& one_to_one(a.take(i))
    &&& one_to_one(b.take(j))
    &&& agree(a.take(i), b.take(j))
}

/// Before anything is taken, the progress holds.
pub proof fn lemma_progress_start(a: Seq<(u64, u64)>, b: Seq<(u64, u64)>)
    ensures
        merge_progress(a, b, Seq::empty(), 0, 0),
        Seq::<(u64, u64)>::empty() + merged_pairs(a.skip(0), b.skip(0)) == merged_pairs(a, b),
{
    assert(a.skip(0) == a);
    assert(b.skip(0) == b);
    assert(Seq::<(u64, u64)>::empty() + merged_pairs(a, b) == merged_pairs(a, b));
}

/// When both lists are used up, they were mergeable; the merged part holds
/// each input id once, in rising order, and holds the pairs of both lists
/// and no others.
pub proof fn lemma_progress_done(a: Seq<(u64, u64)>, b: Seq<(u64, u64)>, merged: Seq<(u64, u64)>)
    requires
        merge_progress(a, b, merged, a.len() as int, b.len() as int),
    ensures
        mergeable(a, b),
        one_to_one(merged),
        forall|k: int, l: int| 0 <= k < l < merged.len() ==> merged[k].0 < merged[l].0,
        forall|k: int|
            0 <= k < merged.len() ==> among(a, a.len() as int, #[trigger] merged[k]) || among(
                b,
                b.len() as int,
                merged[k],
            ),
        forall|x: int| 0 <= x < a.len() ==> among(merged, merged.len() as int, #[trigger] a[x]),
        forall|y: int| 0 <= y < b.len() ==> among(merged, merged.len() as int, #[trigger] b[y]),
{
    assert(a.take(a.len() as int) == a);
    assert(b.take(b.len() as int) == b);
}

/// When both lists are used up, the merged part is their merge.
pub proof fn lemma_merged_done(a: Seq<(u64, u64)>, b: Seq<(u64, u64)>, merged: Seq<(u64, u64)>)
    requires
        merged + merged_pairs(a.skip(a.len() as int), b.skip(b.len() as int)) == merged_pairs(a, b),
    ensures
        merged == merged_pairs(a, b),
{
    assert(a.skip(a.len() as int) == Seq::<(u64, u64)>::empty());
    assert(merged + Seq::<(u64, u64)>::empty() == merged);
}

/// One unfolding of `merged_pairs`.
pub proof fn lemma_merged_step(a: Seq<(u64, u64)>, b: Seq<(u64, u64)>)
    ensures
        a.len() > 0 && (b.len() == 0 || a[0].0 < b[0].0) ==> merged_pairs(a, b) == seq![a[0]]
            + merged_pairs(a.skip(1), b),
        b.len() > 0 && (a.len() == 0 || b[0].0 < a[0].0) ==> merged_pairs(a, b) == seq![b[0]]
            + merged_pairs(a, b.skip(1)),
        a.len() > 0 && b.len() > 0 && a[0].0 == b[0].0 ==> merged_pairs(a, b) == seq![a[0]]
            + merged_pairs(a.skip(1), b.skip(1)),
{
    if a.len() > 0 && b.len() == 0 {
        assert(merged_pairs(a.skip(1), b) == a.skip(1)) by {
            if a.skip(1).len() == 0 {
                assert(a.skip(1) == b);
            }
        }
        assert(a == seq![a[0]] + a.skip(1));
    }
    if b.len() > 0 && a.len() == 0 {
        assert(merged_pairs(a, b.skip(1)) == b.skip(1));
        assert(b == seq![b[0]] + b.skip(1));
    }
}

/// The part still to merge loses the node that is taken.
pub proof fn lemma_merged_advance(
    a: Seq<(u64, u64)>,
    b: Seq<(u64, u64)>,
    merged: Seq<(u64, u64)>,
    i: int,
    j: int,
    from_a: bool,
    from_b: bool,
)
    requires
        0 <= i <= a.len(),
        0 <= j <= b.len(),
        merged + merged_pairs(a.skip(i), b.skip(j)) == merged_pairs(a, b),
        from_a <==> i < a.len() && (j >= b.len() || a[i].0 <= b[j].0),
        from_b <==> j < b.len() && (i >= a.len() || b[j].0 <= a[i].0),
        from_a || from_b,
    ensures
        merged.push(if from_a { a[i] } else { b[j] }) + merged_pairs(
            a.skip(if from_a { i + 1 } else { i }),
            b.skip(if from_b { j + 1 } else { j }),
        ) == merged_pairs(a, b),
{
    let node = if from_a { a[i] } else { b[j] };
    lemma_merged_step(a.skip(i), b.skip(j));
    if from_a {
        assert(a.skip(i).skip(1) == a.skip(i + 1));
    }
    if from_b {
        assert(b.skip(j).skip(1) == b.skip(j + 1));
    }
    let rest = merged_pairs(
        a.skip(if from_a { i + 1 } else { i }),
        b.skip(if from_b { j + 1 } else { j }),
    );
    assert(merged_pairs(a.skip(i), b.skip(j)) == seq![node] + rest);
    assert(merged + (seq![node] + rest) == merged.push(node) + rest);
}

/// Marking the pattern node of a node that is taken keeps the marks in step
/// with the merged part.
pub proof fn lemma_mark(marks: Seq<bool>, merged: Seq<(u64, u64)>, node: (u64, u64))
    requires
        node.1 < marks.len(),
        forall|p: int|
            0 <= p < marks.len() ==> (#[trigger] marks[p] <==> binds(merged, p)),
    ensures
        forall|p: int|
            0 <= p < marks.len() ==> (#[trigger] marks.update(node.1 as int, true)[p]
                <==> binds(merged.push(node), p)),
{
    let longer = merged.push(node);
    assert forall|p: int| 0 <= p < marks.len() implies (#[trigger] marks.update(
        node.1 as int,
        true,
    )[p] <==> binds(longer, p)) by {
        assert(marks[p] <==> binds(merged, p));
        if binds(merged, p) {
            let k = choose|k: int| 0 <= k < merged.len() && #[trigger] merged[k].1 == p;
            assert(longer[k].1 == p);
        }
        if p == node.1 {
            assert(longer[merged.len() as int].1 == p);
        }
        if binds(longer, p) && p != node.1 {
            let k = choose|k: int| 0 <= k < longer.len() && #[trigger] longer[k].1 == p;
            assert(merged[k].1 == p);
        }
    }
}

/// A node that is neither a repeat of the last merged input node nor paired
/// with a used pattern node can be taken: the progress holds for the longer
/// merged part.
pub proof fn lemma_admission(
    a: Seq<(u64, u64)>,
    b: Seq<(u64, u64)>,
    merged: Seq<(u64, u64)>,
    i: int,
    j: int,
    from_a: bool,
    from_b: bool,
)
    requires
        sorted_by_input(a),
        sorted_by_input(b),
        merge_progress(a, b, merged, i, j),
        from_a <==> i < a.len() && (j >= b.len() || a[i].0 <= b[j].0),
        from_b <==> j < b.len() && (i >= a.len() || b[j].0 <= a[i].0),
        from_a || from_b,
        from_a && from_b ==> a[i].1 == b[j].1,
        ({
            let node = if from_a { a[i] } else { b[j] };
            &&& merged.len() > 0 ==> merged.last().0 != node.0
            &&& !binds(merged, node.1 as int)
        }),
    ensures
        merge_progress(
            a,
            b,
            merged.push(if from_a { a[i] } else { b[j] }),
            if from_a { i + 1 } else { i },
            if from_b { j + 1 } else { j },
        ),
{
    let node = if from_a { a[i] } else { b[j] };
    let longer = merged.push(node);
    let i2 = if from_a { i + 1 } else { i };
    let j2 = if from_b { j + 1 } else { j };
    assert forall|k: int| 0 <= k < merged.len() implies merged[k].0 < node.0 && merged[k].1
        != node.1 by {
        assert(merged[k].0 <= merged.last().0);
    }
    assert forall|k: int| 0 <= k < longer.len() implies among(a, i2, #[trigger] longer[k]) || among(
        b,
        j2,
        longer[k],
    ) by {
        if k < merged.len() {
            assert(longer[k] == merged[k]);
            if among(a, i, merged[k]) {
                let x = choose|x: int| 0 <= x < i && #[trigger] a[x] == merged[k];
                assert(a[x] == longer[k]);
            } else {
                let y = choose|y: int| 0 <= y < j && #[trigger] b[y] == merged[k];
                assert(b[y] == longer[k]);
            }
        } else {
            if from_a {
                assert(a[i] == longer[k]);
            } else {
                assert(b[j] == longer[k]);
            }
        }
    }
    assert forall|x: int| 0 <= x < i2 implies among(longer, longer.len() as int, #[trigger] a[x]) by {
        if x < i {
            let k = choose|k: int| 0 <= k < merged.len() && #[trigger] merged[k] == a[x];
            assert(longer[k] == a[x]);
        } else {
            assert(longer[merged.len() as int] == a[x]);
        }
    }
    assert forall|y: int| 0 <= y < j2 implies among(longer, longer.len() as int, #[trigger] b[y]) by {
        if y < j {
            let k = choose|k: int| 0 <= k < merged.len() && #[trigger] merged[k] == b[y];
            assert(longer[k] == b[y]);
        } else {
            assert(longer[merged.len() as int] == b[y]);
        }
    }
    assert forall|y: int| 0 <= y < j2 && i2 < a.len() implies (#[trigger] b[y]).0 < a[i2].0 || among(
        a,
        i2,
        b[y],
    ) by {
        if y < j {
            if i < a.len() {
                if among(a, i, b[y]) {
                    let x = choose|x: int| 0 <= x < i && #[trigger] a[x] == b[y];
                    assert(a[x] == b[y]);
                } else {
                    assert(b[y].0 < a[i].0);
                }
            }
        } else {
            if from_a {
                assert(a[i] == b[y]);
            } else {
                assert(b[y].0 < a[i].0);
            }
        }
    }
    assert forall|x: int| 0 <= x < i2 && j2 < b.len() implies (#[trigger] a[x]).0 < b[j2].0 || among(
        b,
        j2,
        a[x],
    ) by {
        if x < i {
            if j < b.len() {
                if among(b, j, a[x]) {
                    let y = choose|y: int| 0 <= y < j && #[trigger] b[y] == a[x];
                    assert(b[y] == a[x]);
                } else {
                    assert(a[x].0 < b[j].0);
                }
            }
        } else {
            if from_b {
                assert(b[j] == a[x]);
            } else {
                assert(a[x].0 < b[j].0);
            }
        }
    }
    assert forall|x: int| 0 <= x < i implies a[x].0 != node.0 && a[x].1 != node.1 by {
        let k = choose|k: int| 0 <= k < merged.len() && #[trigger] merged[k] == a[x];
    }
    assert forall|y: int| 0 <= y < j implies b[y].0 != node.0 && b[y].1 != node.1 by {
        let k = choose|k: int| 0 <= k < merged.len() && #[trigger] merged[k] == b[y];
    }
    assert(one_to_one(a.take(i2))) by {
        assert forall|x: int, z: int| 0 <= x < z < a.take(i2).len() implies a.take(i2)[x].0
            != a.take(i2)[z].0 && a.take(i2)[x].1 != a.take(i2)[z].1 by {
            if z < i {
                assert(a.take(i)[x] == a[x] && a.take(i)[z] == a[z]);
            }
        }
    }
    assert(one_to_one(b.take(j2))) by {
        assert forall|x: int, z: int| 0 <= x < z < b.take(j2).len() implies b.take(j2)[x].0
            != b.take(j2)[z].0 && b.take(j2)[x].1 != b.take(j2)[z].1 by {
            if z < j {
                assert(b.take(j)[x] == b[x] && b.take(j)[z] == b[z]);
            }
        }
    }
    assert(agree(a.take(i2), b.take(j2))) by {
        assert forall|x: int, y: int| 0 <= x < a.take(i2).len() && 0 <= y < b.take(j2).len() implies (
        (a.take(i2)[x].0 == b.take(j2)[y].0) <==> (a.take(i2)[x].1 == b.take(j2)[y].1)) by {
            if x < i && y < j {
                assert(a.take(i)[x] == a[x] && b.take(j)[y] == b[y]);
            }
        }
    }
    assert(one_to_one(longer));
}

/// A node that repeats the last merged input node, or is paired with a used
/// pattern node, shows that the two lists cannot be merged.
pub proof fn lemma_refusal(
    a: Seq<(u64, u64)>,
    b: Seq<(u64, u64)>,
    merged: Seq<(u64, u64)>,
    i: int,
    j: int,
    from_a: bool,
    from_b: bool,
)
    requires
        sorted_by_input(a),
        sorted_by_input(b),
        merge_progress(a, b, merged, i, j),
        from_a <==> i < a.len() && (j >= b.len() || a[i].0 <= b[j].0),
        from_b <==> j < b.len() && (i >= a.len() || b[j].0 <= a[i].0),
        from_a || from_b,
        from_a && from_b ==> a[i].1 == b[j].1,
        ({
            let node = if from_a { a[i] } else { b[j] };
            ||| merged.len() > 0 && merged.last().0 == node.0
            ||| binds(merged, node.1 as int)
        }),
    ensures
        !mergeable(a, b),
{
    let node = if from_a { a[i] } else { b[j] };
    let k = if merged.len() > 0 && merged.last().0 == node.0 {
        merged.len() - 1
    } else {
        choose|k: int| 0 <= k < merged.len() && #[trigger] merged[k].1 == node.1 as int
    };
    let e = merged[k];
    assert(e.0 == node.0 || e.1 == node.1);
    if among(a, i, e) {
        let x = choose|x: int| 0 <= x < i && #[trigger] a[x] == e;
        if from_a {
            assert(a[x].0 == a[i].0 || a[x].1 == a[i].1);
            assert(!one_to_one(a));
        } else {
            // the node comes from `b` alone
            if j < b.len() {
                if among(b, j, a[x]) {
                    let y = choose|y: int| 0 <= y < j && #[trigger] b[y] == a[x];
                    assert(b[y].0 == b[j].0 || b[y].1 == b[j].1);
                    assert(!one_to_one(b));
                } else {
                    assert(a[x].0 < b[j].0);
                    assert(a[x].1 == b[j].1);
                    assert(!agree(a, b));
                }
            }
        }
    } else {
        let y = choose|y: int| 0 <= y < j && #[trigger] b[y] == e;
        if from_b {
            assert(b[y].0 == b[j].0 || b[y].1 == b[j].1);
            assert(!one_to_one(b));
        } else {
            if i < a.len() {
                if among(a, i, b[y]) {
                    let x = choose|x: int| 0 <= x < i && #[trigger] a[x] == b[y];
                    assert(a[x].0 == a[i].0 || a[x].1 == a[i].1);
                    assert(!one_to_one(a));
                } else {
                    assert(b[y].0 < a[i].0);
                    assert(b[y].1 == a[i].1);
                    assert(!agree(a, b));
                }
            }
        }
    }
}

/// The merge goes through to the end on mergeable lists.
proof fn lemma_merge_run(
    a: Seq<(u64, u64)>,
    b: Seq<(u64, u64)>,
    merged: Seq<(u64, u64)>,
    i: int,
    j: int,
)
    requires
        sorted_by_input(a),
        sorted_by_input(b),
        mergeable(a, b),
        merge_progress(a, b, merged, i, j),
        merged + merged_pairs(a.skip(i), b.skip(j)) == merged_pairs(a, b),
    ensures
        merge_progress(a, b, merged_pairs(a, b), a.len() as int, b.len() as int),
    decreases a.len() - i + b.len() - j,
{
    if i >= a.len() && j >= b.len() {
        lemma_merged_done(a, b, merged);
    } else {
        let from_a = i < a.len() && (j >= b.len() || a[i].0 <= b[j].0);
        let from_b = j < b.len() && (i >= a.len() || b[j].0 <= a[i].0);
        let node = if from_a { a[i] } else { b[j] };
        if (merged.len() > 0 && merged.last().0 == node.0) || binds(merged, node.1 as int) {
            lemma_refusal(a, b, merged, i, j, from_a, from_b);
        }
        lemma_admission(a, b, merged, i, j, from_a, from_b);
        lemma_merged_advance(a, b, merged, i, j, from_a, from_b);
        lemma_merge_run(
            a,
            b,
            merged.push(node),
            if from_a { i + 1 } else { i },
            if from_b { j + 1 } else { j },
        );
    }
}

/// The merge of two sorted, mergeable bindings holds each input id and each
/// pattern id once, in rising order of input id, and holds the pairs of both
/// bindings and no others.
pub proof fn lemma_merged_pairs(a: Seq<(u64, u64)>, b: Seq<(u64, u64)>)
    requires
        sorted_by_input(a),
        sorted_by_input(b),
        mergeable(a, b),
    ensures
        one_to_one(merged_pairs(a, b)),
        sorted_by_input(merged_pairs(a, b)),
        forall|k: int|
            0 <= k < merged_pairs(a, b).len() ==> among(
                a,
                a.len() as int,
                #[trigger] merged_pairs(a, b)[k],
            ) || among(b, b.len() as int, merged_pairs(a, b)[k]),
        forall|x: int|
            0 <= x < a.len() ==> among(
                merged_pairs(a, b),
                merged_pairs(a, b).len() as int,
                #[trigger] a[x],
            ),
        forall|y: int|
            0 <= y < b.len() ==> among(
                merged_pairs(a, b),
                merged_pairs(a, b).len() as int,
                #[trigger] b[y],
            ),
{
    lemma_progress_start(a, b);
    lemma_merge_run(a, b, Seq::empty(), 0, 0);
    lemma_progress_done(a, b, merged_pairs(a, b));
}

} // verus!
