//! Graph traversals: breadth-first search (fewest hops), and priority search
//! unifying uniform-cost (Dijkstra) and heuristic-guided search.
//!
//! Both traversals return, for reachable endpoints, a walk from `from` to
//! `to` that visits no node twice, and return absent exactly when no walk
//! connects the endpoints. The breadth-first walk is moreover no longer
//! than any walk connecting the endpoints, and the zero-heuristic
//! priority-search walk is no costlier than any walk connecting them.

use vstd::prelude::*;

use crate::graph::{Edge, EdgeIndex, EdgePair, Graph, NodeIndex};

verus! {

/// No node occurs twice in the sequence.
pub open spec fn distinct_seq(p: Seq<NodeIndex>) -> bool {
    forall|i: int, j: int| 0 <= i < j < p.len() ==> p[i] != p[j]
}

/// `v` has an entry in the predecessor array.
pub open spec fn discovered(pred: Seq<Option<NodeIndex>>, v: NodeIndex) -> bool {
    v.0 < pred.len() && pred[v.0 as int] is Some
}

/// Strict lexicographic order on measure pairs.
pub open spec fn lex_lt(a: (nat, nat), b: (nat, nat)) -> bool {
    a.0 < b.0 || (a.0 == b.0 && a.1 < b.1)
}

/// The cost of the cheapest entry of the adjacency row that leads straight
/// to `v`, if any entry does.
pub open spec fn min_step_cost<T, E: Edge>(
    g: &Graph<T, E>,
    row: Seq<EdgePair>,
    v: NodeIndex,
) -> Option<nat>
    decreases row.len(),
{
    if row.len() == 0 {
        None
    } else {
        let rest = min_step_cost(g, row.drop_last(), v);
        if row.last().1 == v {
            let c = g.edges_seq()[row.last().0.0 as int].spec_cost() as nat;
            match rest {
                Some(m) => if c < m {
                    Some(c)
                } else {
                    Some(m)
                },
                None => Some(c),
            }
        } else {
            rest
        }
    }
}

/// The cost of one walk step from `u` to `v`: that of the cheapest edge
/// leading straight from `u` to `v`, zero where there is none.
pub open spec fn step_cost<T, E: Edge>(g: &Graph<T, E>, u: NodeIndex, v: NodeIndex) -> nat {
    match min_step_cost(g, g.spec_connections(u), v) {
        Some(c) => c,
        None => 0,
    }
}

/// The total cost of a walk, each step taken at its cheapest edge.
pub open spec fn walk_cost<T, E: Edge>(g: &Graph<T, E>, q: Seq<NodeIndex>) -> nat
    decreases q.len(),
{
    if q.len() <= 1 {
        0
    } else {
        walk_cost(g, q.drop_last()) + step_cost(g, q[q.len() - 2], q[q.len() - 1])
    }
}

/// An edge of the row straight to `v` bounds the cheapest step from above.
proof fn lemma_min_step_le<T, E: Edge>(g: &Graph<T, E>, row: Seq<EdgePair>, e: EdgeIndex, v: NodeIndex)
    requires
        row.contains((e, v)),
    ensures
        min_step_cost(g, row, v) matches Some(c) && c <= g.edges_seq()[e.0 as int].spec_cost(),
    decreases row.len(),
{
    if row.last() != (e, v) {
        let i = choose|i: int| 0 <= i < row.len() && row[i] == (e, v);
        assert(row.drop_last()[i] == (e, v));
        lemma_min_step_le(g, row.drop_last(), e, v);
    }
}

/// A prefix of a walk, extended by its next step, never costs more than
/// the whole walk.
proof fn lemma_walk_cost_prefix<T, E: Edge>(g: &Graph<T, E>, q: Seq<NodeIndex>, i: int)
    requires
        0 <= i < q.len() - 1,
    ensures
        walk_cost(g, q) >= walk_cost(g, q.subrange(0, i + 1)) + step_cost(g, q[i], q[i + 1]),
    decreases q.len(),
{
    if i + 2 == q.len() {
        assert(q.subrange(0, i + 1) =~= q.drop_last());
    } else {
        lemma_walk_cost_prefix(g, q.drop_last(), i);
        assert(q.drop_last().subrange(0, i + 1) =~= q.subrange(0, i + 1));
        assert(q.drop_last()[i] == q[i]);
        assert(q.drop_last()[i + 1] == q[i + 1]);
    }
}

/// Soundness of a predecessor array for path reconstruction: the source is
/// its own predecessor, and every other discovered node has a discovered
/// predecessor one edge away whose measure is strictly smaller, so that
/// predecessor chains are acyclic and end at the source.
#[verifier::opaque]
pub open spec fn chain_ok<T, E: Edge>(
    g: &Graph<T, E>,
    pred: Seq<Option<NodeIndex>>,
    meas: Seq<(nat, nat)>,
    from: NodeIndex,
) -> bool {
    &&& pred.len() == g.nodes_seq().len()
    &&& meas.len() == pred.len()
    &&& from.0 < pred.len()
    &&& pred[from.0 as int] == Some(from)
    &&& forall|v: NodeIndex|
        #[trigger] discovered(pred, v) && v != from ==> {
            let u = pred[v.0 as int]->0;
            &&& discovered(pred, u)
            &&& g.step(u, v)
            &&& lex_lt(meas[u.0 as int], meas[v.0 as int])
        }
}

/// Number of unset entries of a predecessor array; the termination measure
/// of the discovery phase of both traversals.
pub open spec fn count_none(pred: Seq<Option<NodeIndex>>) -> nat
    decreases pred.len(),
{
    if pred.len() == 0 {
        0
    } else {
        count_none(pred.drop_last()) + if pred.last() is None {
            1nat
        } else {
            0nat
        }
    }
}

/// Setting an unset entry lowers `count_none` by exactly one.
proof fn lemma_count_none_update(s: Seq<Option<NodeIndex>>, i: int, v: NodeIndex)
    requires
        0 <= i < s.len(),
        s[i] is None,
    ensures
        count_none(s.update(i, Some(v))) == count_none(s) - 1,
    decreases s.len(),
{
    if i == s.len() - 1 {
        assert(s.update(i, Some(v)).drop_last() =~= s.drop_last());
        assert(s.update(i, Some(v)).last() == Some(v));
    } else {
        let t = s.drop_last();
        lemma_count_none_update(t, i, v);
        assert(s.update(i, Some(v)).drop_last() =~= t.update(i, Some(v)));
        assert(s.update(i, Some(v)).last() == s.last());
    }
}

/// Overwriting a set entry leaves `count_none` unchanged.
proof fn lemma_count_none_update_some(s: Seq<Option<NodeIndex>>, i: int, v: NodeIndex)
    requires
        0 <= i < s.len(),
        s[i] is Some,
    ensures
        count_none(s.update(i, Some(v))) == count_none(s),
    decreases s.len(),
{
    if i == s.len() - 1 {
        assert(s.update(i, Some(v)).drop_last() =~= s.drop_last());
        assert(s.update(i, Some(v)).last() == Some(v));
    } else {
        let t = s.drop_last();
        lemma_count_none_update_some(t, i, v);
        assert(s.update(i, Some(v)).drop_last() =~= t.update(i, Some(v)));
        assert(s.update(i, Some(v)).last() == s.last());
    }
}

/// `count_none` never exceeds the array's length.
proof fn lemma_count_none_le(s: Seq<Option<NodeIndex>>)
    ensures
        count_none(s) <= s.len(),
    decreases s.len(),
{
    if s.len() > 0 {
        lemma_count_none_le(s.drop_last());
    }
}

/// An unset entry keeps `count_none` positive.
proof fn lemma_count_none_pos(s: Seq<Option<NodeIndex>>, i: int)
    requires
        0 <= i < s.len(),
        s[i] is None,
    ensures
        count_none(s) >= 1,
    decreases s.len(),
{
    if i < s.len() - 1 {
        lemma_count_none_pos(s.drop_last(), i);
    }
}

/// The recorded cost of one node, zero while none is recorded.
pub open spec fn val_of(o: Option<u64>) -> nat {
    match o {
        Some(c) => c as nat,
        None => 0,
    }
}

/// Sum of all recorded costs; together with `count_none` and the frontier
/// length, the termination measure of the priority search.
pub open spec fn sum_best(best: Seq<Option<u64>>) -> nat
    decreases best.len(),
{
    if best.len() == 0 {
        0
    } else {
        sum_best(best.drop_last()) + val_of(best.last())
    }
}

/// Exchange law for one update of the recorded costs.
proof fn lemma_sum_best_update(s: Seq<Option<u64>>, i: int, v: Option<u64>)
    requires
        0 <= i < s.len(),
    ensures
        sum_best(s.update(i, v)) + val_of(s[i]) == sum_best(s) + val_of(v),
    decreases s.len(),
{
    if i == s.len() - 1 {
        assert(s.update(i, v).drop_last() =~= s.drop_last());
        assert(s.update(i, v).last() == v);
    } else {
        let t = s.drop_last();
        lemma_sum_best_update(t, i, v);
        assert(s.update(i, v).drop_last() =~= t.update(i, v));
        assert(s.update(i, v).last() == s.last());
    }
}

/// Recording `current` as the predecessor of `v`, with a measure above
/// `current`'s and below any measure `v` had before, keeps the predecessor
/// array sound.
proof fn lemma_chain_update<T, E: Edge>(
    g: &Graph<T, E>,
    pred0: Seq<Option<NodeIndex>>,
    meas0: Seq<(nat, nat)>,
    from: NodeIndex,
    current: NodeIndex,
    v: NodeIndex,
    cm: (nat, nat),
)
    requires
        chain_ok(g, pred0, meas0, from),
        discovered(pred0, current),
        v.0 < pred0.len(),
        v != from,
        current != v,
        g.step(current, v),
        lex_lt(meas0[current.0 as int], cm),
        discovered(pred0, v) ==> cm.0 < meas0[v.0 as int].0,
    ensures
        chain_ok(g, pred0.update(v.0 as int, Some(current)), meas0.update(v.0 as int, cm), from),
{
    reveal(chain_ok);
    let pred1 = pred0.update(v.0 as int, Some(current));
    let meas1 = meas0.update(v.0 as int, cm);
    assert(pred1[from.0 as int] == Some(from));
    assert forall|w: NodeIndex| #[trigger] discovered(pred1, w) && w != from implies {
        let u = pred1[w.0 as int]->0;
        &&& discovered(pred1, u)
        &&& g.step(u, w)
        &&& lex_lt(meas1[u.0 as int], meas1[w.0 as int])
    } by {
        if w == v {
            assert(pred1[w.0 as int]->0 == current);
            assert(discovered(pred1, current));
            assert(meas1[current.0 as int] == meas0[current.0 as int]);
            assert(meas1[v.0 as int] == cm);
        } else {
            assert(w.0 != v.0);
            assert(discovered(pred0, w));
            let u = pred0[w.0 as int]->0;
            assert(discovered(pred0, u));
            assert(discovered(pred1, u));
            assert(meas1[w.0 as int] == meas0[w.0 as int]);
            if u.0 == v.0 {
                assert(discovered(pred0, v));
                assert(u == v);
                assert(cm.0 < meas0[v.0 as int].0);
                assert(lex_lt(meas0[u.0 as int], meas0[w.0 as int]));
                assert(lex_lt(meas1[u.0 as int], meas1[w.0 as int]));
            } else {
                assert(meas1[u.0 as int] == meas0[u.0 as int]);
            }
        }
    }
}

/// Removing the minimal entry, which carries `current`, keeps the
/// frontier's entry bounds and fresh coverage for every other node, and
/// leaves only entries at or above the removed priority.
proof fn lemma_frontier_after_pop(
    front0: Seq<(u64, NodeIndex)>,
    front1: Seq<(u64, NodeIndex)>,
    min_i: int,
    pred: Seq<Option<NodeIndex>>,
    meas: Seq<(nat, nat)>,
    done: Set<NodeIndex>,
    current: NodeIndex,
)
    requires
        0 <= min_i < front0.len(),
        front1 == front0.update(min_i, front0.last()).drop_last(),
        front0[min_i].1 == current,
        discovered(pred, current),
        forall|k: int| 0 <= k < front0.len() ==> front0[min_i].0 <= (#[trigger] front0[k]).0,
        pris_bound(front0, meas),
        fresh_covered(front0, pred, meas, done, Set::empty()),
    ensures
        pris_bound(front1, meas),
        fresh_covered(front1, pred, meas, done, Set::empty().insert(current)),
        forall|k: int|
            0 <= k < front1.len() ==> (#[trigger] front1[k]).0 as nat >= front0[min_i].0 as nat,
        meas[current.0 as int].0 <= front0[min_i].0 as nat,
        !done.contains(current) ==> meas[current.0 as int].0 == front0[min_i].0 as nat,
        forall|w: NodeIndex|
            #[trigger] discovered(pred, w) && !done.contains(w) ==> meas[w.0 as int].0
                >= front0[min_i].0 as nat,
{
    reveal(pris_bound);
    reveal(fresh_covered);
    let pmin = front0[min_i].0 as nat;
    assert forall|k: int| 0 <= k < front1.len() implies meas[(#[trigger] front1[k]).1.0
        as int].0 <= front1[k].0 as nat && front1[k].0 as nat >= pmin by {
        if k == min_i {
            assert(front1[k] == front0[front0.len() - 1]);
        } else {
            assert(front1[k] == front0[k]);
        }
    }
    assert(pris_bound(front1, meas));
    assert forall|w: NodeIndex|
        #[trigger] discovered(pred, w) && !done.contains(w) && !Set::empty().insert(
            current,
        ).contains(w) implies exists|k: int|
        0 <= k < front1.len() && (#[trigger] front1[k]).1 == w && front1[k].0 as nat == meas[w.0
            as int].0 by {
        let k = choose|k: int|
            0 <= k < front0.len() && (#[trigger] front0[k]).1 == w && front0[k].0 as nat
                == meas[w.0 as int].0;
        assert(k != min_i);
        if k == front0.len() - 1 {
            assert(front1[min_i] == front0[k]);
            assert(front1[min_i].1 == w);
        } else {
            assert(front1[k] == front0[k]);
        }
    }
    assert(meas[current.0 as int].0 <= pmin);
    if !done.contains(current) {
        let k = choose|k: int|
            0 <= k < front0.len() && (#[trigger] front0[k]).1 == current && front0[k].0 as nat
                == meas[current.0 as int].0;
        assert(front0[min_i].0 <= front0[k].0);
    }
    assert forall|w: NodeIndex|
        #[trigger] discovered(pred, w) && !done.contains(w) implies meas[w.0 as int].0
        >= pmin by {
        if w != current {
            let k = choose|k: int|
                0 <= k < front0.len() && (#[trigger] front0[k]).1 == w && front0[k].0 as nat
                    == meas[w.0 as int].0;
            assert(front0[min_i].0 <= front0[k].0);
        }
    }
}

/// Recording `current` as the predecessor of `v`, at a cost that covers
/// `current`'s recorded cost plus the step and that undercuts whatever `v`
/// had, keeps the predecessor array's cost links sound.
proof fn lemma_chain_cost_update<T, E: Edge>(
    g: &Graph<T, E>,
    pred0: Seq<Option<NodeIndex>>,
    meas0: Seq<(nat, nat)>,
    from: NodeIndex,
    current: NodeIndex,
    v: NodeIndex,
    cm: (nat, nat),
)
    requires
        chain_ok(g, pred0, meas0, from),
        chain_cost_ok(g, pred0, meas0, from),
        meas0.len() == pred0.len(),
        discovered(pred0, current),
        v.0 < pred0.len(),
        v != from,
        current != v,
        cm.0 >= meas0[current.0 as int].0 + step_cost(g, current, v),
        discovered(pred0, v) ==> cm.0 <= meas0[v.0 as int].0,
    ensures
        chain_cost_ok(
            g,
            pred0.update(v.0 as int, Some(current)),
            meas0.update(v.0 as int, cm),
            from,
        ),
{
    reveal(chain_ok);
    reveal(chain_cost_ok);
    let pred1 = pred0.update(v.0 as int, Some(current));
    let meas1 = meas0.update(v.0 as int, cm);
    assert forall|w: NodeIndex| #[trigger] discovered(pred1, w) && w != from implies meas1[(
    pred1[w.0 as int]->0).0 as int].0 + step_cost(g, pred1[w.0 as int]->0, w) <= meas1[w.0
        as int].0 by {
        if w == v {
            assert(pred1[w.0 as int]->0 == current);
            assert(meas1[current.0 as int] == meas0[current.0 as int]);
        } else {
            assert(w.0 != v.0);
            assert(discovered(pred0, w));
            let u = pred0[w.0 as int]->0;
            assert(meas1[w.0 as int] == meas0[w.0 as int]);
            assert(meas0[u.0 as int].0 + step_cost(g, u, w) <= meas0[w.0 as int].0);
            if u.0 == v.0 {
                assert(u == v);
                assert(discovered(pred0, v));
                assert(meas1[v.0 as int].0 <= meas0[v.0 as int].0);
            } else {
                assert(meas1[u.0 as int] == meas0[u.0 as int]);
            }
        }
    }
}

/// After recording `v` as discovered and pushing a frontier entry carrying
/// `v`, every discovered node other than `current` is still either
/// processed or on the frontier, and every frontier entry still carries a
/// discovered node.
proof fn lemma_cover_push(
    pred0: Seq<Option<NodeIndex>>,
    front0: Seq<(u64, NodeIndex)>,
    processed: Set<NodeIndex>,
    current: NodeIndex,
    v: NodeIndex,
    pri: u64,
)
    requires
        v.0 < pred0.len(),
        forall|w: NodeIndex|
            #[trigger] discovered(pred0, w) && w != current ==> processed.contains(w)
                || frontier_has(front0, w),
        forall|k: int| 0 <= k < front0.len() ==> discovered(pred0, (#[trigger] front0[k]).1),
    ensures
        forall|w: NodeIndex|
            #[trigger] discovered(pred0.update(v.0 as int, Some(current)), w) && w != current
                ==> processed.contains(w) || frontier_has(front0.push((pri, v)), w),
        forall|k: int|
            0 <= k < front0.push((pri, v)).len() ==> discovered(
                pred0.update(v.0 as int, Some(current)),
                (#[trigger] front0.push((pri, v))[k]).1,
            ),
{
    let pred1 = pred0.update(v.0 as int, Some(current));
    let front1 = front0.push((pri, v));
    assert forall|w: NodeIndex| #[trigger]
        discovered(pred1, w) && w != current implies processed.contains(w) || frontier_has(
        front1,
        w,
    ) by {
        if w == v {
            assert(front1[front1.len() - 1].1 == v);
        } else {
            assert(discovered(pred0, w));
            if !processed.contains(w) {
                let k = choose|k: int| 0 <= k < front0.len() && front0[k].1 == w;
                assert(front1[k].1 == w);
            }
        }
    }
    assert forall|k: int| 0 <= k < front1.len() implies discovered(
        pred1,
        (#[trigger] front1[k]).1,
    ) by {
        if k < front0.len() {
            assert(discovered(pred0, front0[k].1));
        } else {
            assert(front1[k].1 == v);
        }
    }
}

/// Cost links of a predecessor array: each link's cheapest step fits in
/// the gap between the measures' first components; the priority search
/// keeps those components equal to the recorded costs.
#[verifier::opaque]
pub open spec fn chain_cost_ok<T, E: Edge>(
    g: &Graph<T, E>,
    pred: Seq<Option<NodeIndex>>,
    meas: Seq<(nat, nat)>,
    from: NodeIndex,
) -> bool {
    forall|v: NodeIndex|
        #[trigger] discovered(pred, v) && v != from ==> meas[(pred[v.0 as int]->0).0 as int].0
            + step_cost(g, pred[v.0 as int]->0, v) <= meas[v.0 as int].0
}

/// Telescoping: when every step of a walk fits in the measure gap of its
/// endpoints, the whole walk's cost fits in the gap of the walk's
/// endpoints.
proof fn lemma_walk_cost_telescopes<T, E: Edge>(
    g: &Graph<T, E>,
    p: Seq<NodeIndex>,
    meas: Seq<(nat, nat)>,
)
    requires
        p.len() >= 1,
        forall|i: int|
            0 <= i < p.len() - 1 ==> step_cost(g, #[trigger] p[i], p[i + 1]) + meas[p[i].0
                as int].0 <= meas[p[i + 1].0 as int].0,
    ensures
        walk_cost(g, p) + meas[p[0].0 as int].0 <= meas[p[p.len() - 1].0 as int].0,
    decreases p.len(),
{
    if p.len() > 1 {
        let t = p.drop_last();
        assert forall|i: int|
            0 <= i < t.len() - 1 implies step_cost(g, #[trigger] t[i], t[i + 1]) + meas[t[i].0
            as int].0 <= meas[t[i + 1].0 as int].0 by {
            assert(t[i] == p[i]);
            assert(t[i + 1] == p[i + 1]);
        }
        lemma_walk_cost_telescopes(g, t, meas);
        assert(step_cost(g, p[p.len() - 2], p[p.len() - 1]) + meas[p[p.len() - 2].0 as int].0
            <= meas[p[p.len() - 1].0 as int].0);
    }
}

/// Settled costs: no walk from the source to a node of `done` costs less
/// than the node's recorded cost.
#[verifier::opaque]
pub open spec fn costs_settled<T, E: Edge>(
    g: &Graph<T, E>,
    done: Set<NodeIndex>,
    meas: Seq<(nat, nat)>,
    from: NodeIndex,
) -> bool {
    forall|x: NodeIndex, q: Seq<NodeIndex>|
        done.contains(x) && #[trigger] g.is_path(q, from, x) ==> walk_cost(g, q) >= meas[x.0
            as int].0
}

/// Relaxed rows: every adjacency entry of a node of `done` records a cost
/// of at most the node's recorded cost plus the entry's edge cost.
#[verifier::opaque]
pub open spec fn rows_relaxed<T, E: Edge>(
    g: &Graph<T, E>,
    done: Set<NodeIndex>,
    meas: Seq<(nat, nat)>,
) -> bool {
    forall|x: NodeIndex, j: int|
        #[trigger] done.contains(x) && 0 <= j < g.spec_connections(x).len() ==> meas[(
        #[trigger] g.spec_connections(x)[j]).1.0 as int].0 <= meas[x.0 as int].0
            + g.edges_seq()[g.spec_connections(x)[j].0.0 as int].spec_cost()
}

/// Fresh frontier coverage: every discovered node outside `done`, other
/// than the excepted ones, has a frontier entry at exactly its recorded
/// cost.
#[verifier::opaque]
pub open spec fn fresh_covered(
    front: Seq<(u64, NodeIndex)>,
    pred: Seq<Option<NodeIndex>>,
    meas: Seq<(nat, nat)>,
    done: Set<NodeIndex>,
    except: Set<NodeIndex>,
) -> bool {
    forall|w: NodeIndex|
        #[trigger] discovered(pred, w) && !done.contains(w) && !except.contains(w)
            ==> exists|k: int|
            0 <= k < front.len() && (#[trigger] front[k]).1 == w && front[k].0 as nat == meas[w.0
                as int].0
}

/// Entry priorities never fall below the recorded cost of the node they
/// carry.
#[verifier::opaque]
pub open spec fn pris_bound(front: Seq<(u64, NodeIndex)>, meas: Seq<(nat, nat)>) -> bool {
    forall|k: int|
        0 <= k < front.len() ==> meas[(#[trigger] front[k]).1.0 as int].0 <= front[k].0 as nat
}

/// Recorded costs stay within one 32-bit edge cost per discovery.
#[verifier::opaque]
pub open spec fn costs_bounded(pred: Seq<Option<NodeIndex>>, meas: Seq<(nat, nat)>) -> bool {
    forall|v: NodeIndex|
        #[trigger] discovered(pred, v) ==> meas[v.0 as int].0 <= (pred.len() - count_none(pred))
            * (u32::MAX as nat)
}

/// The cheapest step's cost is achieved by some entry of the row.
proof fn lemma_min_step_achieved<T, E: Edge>(g: &Graph<T, E>, row: Seq<EdgePair>, v: NodeIndex)
    requires
        min_step_cost(g, row, v) is Some,
    ensures
        exists|i: int|
            0 <= i < row.len() && (#[trigger] row[i]).1 == v && g.edges_seq()[row[i].0.0
                as int].spec_cost() as nat == min_step_cost(g, row, v)->0,
    decreases row.len(),
{
    let rest = min_step_cost(g, row.drop_last(), v);
    if row.last().1 == v && min_step_cost(g, row, v)->0 == g.edges_seq()[row.last().0.0
        as int].spec_cost() as nat {
        assert((#[trigger] row[row.len() - 1]).1 == v);
    } else {
        lemma_min_step_achieved(g, row.drop_last(), v);
        let i = choose|i: int|
            0 <= i < row.drop_last().len() && (#[trigger] row.drop_last()[i]).1 == v
                && g.edges_seq()[row.drop_last()[i].0.0 as int].spec_cost() as nat == rest->0;
        assert((#[trigger] row[i]).1 == v);
    }
}

/// In a walk that ends outside a set, either the walk starts outside the
/// set too, or some step crosses the set's boundary.
proof fn lemma_set_boundary(q: Seq<NodeIndex>, s: Set<NodeIndex>)
    requires
        q.len() >= 1,
        !s.contains(q[q.len() - 1]),
    ensures
        !s.contains(q[0]) || exists|i: int|
            0 <= i < q.len() - 1 && s.contains(#[trigger] q[i]) && !s.contains(q[i + 1]),
    decreases q.len(),
{
    if s.contains(q[0]) {
        if !s.contains(q[1]) {
            let z: int = 0;
            assert(s.contains(q[z]) && !s.contains(q[z + 1]));
        } else {
            let r = q.subrange(1, q.len() as int);
            assert(s.contains(r[0]));
            assert(r[r.len() - 1] == q[q.len() - 1]);
            lemma_set_boundary(r, s);
            let i = choose|i: int|
                0 <= i < r.len() - 1 && s.contains(#[trigger] r[i]) && !s.contains(r[i + 1]);
            assert(q[i + 1] == r[i]);
            assert(q[i + 2] == r[i + 1]);
            assert(s.contains(q[i + 1]) && !s.contains(q[(i + 1) + 1]));
        }
    }
}

/// The frontier lower bound of the priority search: with the nodes of
/// `done` settled and relaxed, and every discovered node outside `done`
/// recorded at `pmin` or above, no walk from the source to a node outside
/// `done` costs less than `pmin`.
proof fn lemma_pop_bound<T, E: Edge>(
    g: &Graph<T, E>,
    pred: Seq<Option<NodeIndex>>,
    done: Set<NodeIndex>,
    meas: Seq<(nat, nat)>,
    from: NodeIndex,
    pmin: nat,
)
    requires
        discovered(pred, from),
        meas[from.0 as int].0 == 0,
        costs_settled(g, done, meas, from),
        rows_relaxed(g, done, meas),
        forall|x: NodeIndex| #[trigger]
            done.contains(x) ==> discovered(pred, x) && forall|j: int|
                0 <= j < g.spec_connections(x).len() ==> discovered(
                    pred,
                    (#[trigger] g.spec_connections(x)[j]).1,
                ),
        forall|w: NodeIndex|
            #[trigger] discovered(pred, w) && !done.contains(w) ==> meas[w.0 as int].0 >= pmin,
    ensures
        forall|w: NodeIndex, q: Seq<NodeIndex>|
            !done.contains(w) && #[trigger] g.is_path(q, from, w) ==> walk_cost(g, q) >= pmin,
{
    reveal(costs_settled);
    reveal(rows_relaxed);
    assert forall|w: NodeIndex, q: Seq<NodeIndex>|
        !done.contains(w) && #[trigger] g.is_path(q, from, w) implies walk_cost(g, q)
        >= pmin by {
        assert(q[0] == from);
        assert(q[q.len() - 1] == w);
        lemma_set_boundary(q, done);
        if !done.contains(q[0]) {
            assert(meas[from.0 as int].0 >= pmin);
        } else {
            let i = choose|i: int|
                0 <= i < q.len() - 1 && done.contains(#[trigger] q[i]) && !done.contains(
                    q[i + 1],
                );
            let x = q[i];
            let y = q[i + 1];
            let qp = q.subrange(0, i + 1);
            assert forall|ii: int| 0 <= ii < qp.len() - 1 implies g.step(
                #[trigger] qp[ii],
                qp[ii + 1],
            ) by {
                assert(qp[ii] == q[ii]);
                assert(qp[ii + 1] == q[ii + 1]);
            }
            assert(qp[qp.len() - 1] == x);
            assert(g.is_path(qp, from, x));
            assert(walk_cost(g, qp) >= meas[x.0 as int].0);
            assert(g.step(q[i], q[i + 1]));
            let e = choose|e: EdgeIndex| #[trigger] g.spec_connections(x).contains((e, y));
            lemma_min_step_le(g, g.spec_connections(x), e, y);
            lemma_min_step_achieved(g, g.spec_connections(x), y);
            let ja = choose|ja: int|
                0 <= ja < g.spec_connections(x).len() && (#[trigger] g.spec_connections(
                    x,
                )[ja]).1 == y && g.edges_seq()[g.spec_connections(x)[ja].0.0
                    as int].spec_cost() as nat == min_step_cost(g, g.spec_connections(x), y)->0;
            assert(meas[y.0 as int].0 <= meas[x.0 as int].0 + g.edges_seq()[g.spec_connections(
                x,
            )[ja].0.0 as int].spec_cost());
            assert(discovered(pred, y));
            assert(meas[y.0 as int].0 >= pmin);
            lemma_walk_cost_prefix(g, q, i);
            assert(walk_cost(g, q) >= walk_cost(g, qp) + step_cost(g, x, y));
        }
    }
}

/// The measures of a predecessor array rise by at least one whole unit in
/// their first component at every link; breadth-first search maintains
/// this, with the first component as the discovery depth.
#[verifier::opaque]
pub open spec fn chain_first_strict(
    pred: Seq<Option<NodeIndex>>,
    meas: Seq<(nat, nat)>,
    from: NodeIndex,
) -> bool {
    forall|v: NodeIndex|
        #[trigger] discovered(pred, v) && v != from ==> meas[(pred[v.0 as int]->0).0 as int].0
            < meas[v.0 as int].0
}

/// In a walk that starts at a discovered node and ends at an undiscovered
/// one, some step crosses the boundary.
proof fn lemma_boundary_step<T, E: Edge>(
    g: &Graph<T, E>,
    q: Seq<NodeIndex>,
    pred: Seq<Option<NodeIndex>>,
)
    requires
        q.len() >= 1,
        discovered(pred, q[0]),
        !discovered(pred, q[q.len() - 1]),
    ensures
        exists|i: int|
            0 <= i < q.len() - 1 && discovered(pred, #[trigger] q[i]) && !discovered(
                pred,
                q[i + 1],
            ),
    decreases q.len(),
{
    if !discovered(pred, q[1]) {
        let z: int = 0;
        assert(discovered(pred, q[z]) && !discovered(pred, q[z + 1]));
    } else {
        let r = q.subrange(1, q.len() as int);
        assert(discovered(pred, r[0]));
        assert(r[r.len() - 1] == q[q.len() - 1]);
        lemma_boundary_step(g, r, pred);
        let i = choose|i: int|
            0 <= i < r.len() - 1 && discovered(pred, #[trigger] r[i]) && !discovered(
                pred,
                r[i + 1],
            );
        assert(q[i + 1] == r[i]);
        assert(q[i + 2] == r[i + 1]);
        assert(discovered(pred, q[i + 1]) && !discovered(pred, q[(i + 1) + 1]));
    }
}

/// Discovery depths are sound lower bounds: no walk from the source to a
/// discovered node is shorter than the node's recorded depth.
#[verifier::opaque]
pub open spec fn depth_bounds_paths<T, E: Edge>(
    g: &Graph<T, E>,
    pred: Seq<Option<NodeIndex>>,
    meas: Seq<(nat, nat)>,
    from: NodeIndex,
) -> bool {
    forall|w: NodeIndex, q: Seq<NodeIndex>|
        discovered(pred, w) && #[trigger] g.is_path(q, from, w) ==> q.len() >= meas[w.0 as int].0
            + 1
}

/// Every walk from the source to a still-undiscovered node is at least two
/// longer than `d`, the depth of the search window's front.
#[verifier::opaque]
pub open spec fn depth_bounds_unfound<T, E: Edge>(
    g: &Graph<T, E>,
    pred: Seq<Option<NodeIndex>>,
    from: NodeIndex,
    d: nat,
) -> bool {
    forall|w: NodeIndex, q: Seq<NodeIndex>|
        w.0 < pred.len() && pred[w.0 as int] is None && #[trigger] g.is_path(q, from, w)
            ==> q.len() >= d + 2
}

/// The layered lower bound of breadth-first search: when every node before
/// the window is fully expanded, every discovered node sits in the queue,
/// window depths are nondecreasing, and discovered depths lower-bound every
/// walk, then every walk to a still-undiscovered node is at least two
/// longer than the window front's depth.
proof fn lemma_frontier_bound<T, E: Edge>(
    g: &Graph<T, E>,
    pred: Seq<Option<NodeIndex>>,
    meas: Seq<(nat, nat)>,
    queue: Seq<NodeIndex>,
    head: int,
    from: NodeIndex,
)
    requires
        meas.len() == pred.len(),
        discovered(pred, from),
        0 <= head < queue.len(),
        forall|v: NodeIndex| #[trigger] discovered(pred, v) ==> queue.contains(v),
        forall|k: int, j: int|
            0 <= k < head && 0 <= j < g.spec_connections(queue[k]).len() ==> discovered(
                pred,
                (#[trigger] g.spec_connections(queue[k])[j]).1,
            ),
        forall|k1: int, k2: int|
            head <= k1 <= k2 < queue.len() ==> meas[(#[trigger] queue[k1]).0 as int].0 <= meas[(
            #[trigger] queue[k2]).0 as int].0,
        depth_bounds_paths(g, pred, meas, from),
    ensures
        depth_bounds_unfound(g, pred, from, meas[queue[head].0 as int].0),
{
    reveal(depth_bounds_paths);
    reveal(depth_bounds_unfound);
    let d2 = meas[queue[head].0 as int].0;
    assert forall|w: NodeIndex, q: Seq<NodeIndex>|
        w.0 < pred.len() && pred[w.0 as int] is None && #[trigger] g.is_path(q, from, w)
        implies q.len() >= d2 + 2 by {
        assert(q[0] == from);
        assert(q[q.len() - 1] == w);
        assert(!discovered(pred, w));
        lemma_boundary_step(g, q, pred);
        let i = choose|i: int|
            0 <= i < q.len() - 1 && discovered(pred, #[trigger] q[i]) && !discovered(
                pred,
                q[i + 1],
            );
        let x = q[i];
        let y = q[i + 1];
        let qp = q.subrange(0, i + 1);
        assert forall|ii: int| 0 <= ii < qp.len() - 1 implies g.step(
            #[trigger] qp[ii],
            qp[ii + 1],
        ) by {
            assert(qp[ii] == q[ii]);
            assert(qp[ii + 1] == q[ii + 1]);
        }
        assert(qp[qp.len() - 1] == x);
        assert(g.is_path(qp, from, x));
        assert(qp.len() >= meas[x.0 as int].0 + 1);
        let k = choose|k: int| 0 <= k < queue.len() && queue[k] == x;
        if k < head {
            assert(g.step(q[i], q[i + 1]));
            let e = choose|e: crate::graph::EdgeIndex| #[trigger]
                g.spec_connections(x).contains((e, y));
            let jj = choose|jj: int|
                0 <= jj < g.spec_connections(x).len() && (#[trigger] g.spec_connections(x)[jj])
                    == (e, y);
            assert(discovered(pred, (g.spec_connections(queue[k])[jj]).1));
            assert(false);
        } else {
            assert(meas[x.0 as int].0 >= d2);
            assert(q.len() - 1 >= i + 1);
        }
    }
}

/// Every walk that starts inside a step-closed set of nodes ends inside it.
proof fn lemma_path_stays<T, E: Edge>(g: &Graph<T, E>, p: Seq<NodeIndex>, s: Set<NodeIndex>)
    requires
        p.len() >= 1,
        s.contains(p[0]),
        forall|i: int| 0 <= i < p.len() - 1 ==> g.step(#[trigger] p[i], p[i + 1]),
        forall|u: NodeIndex, v: NodeIndex|
            s.contains(u) && #[trigger] g.step(u, v) ==> s.contains(v),
    ensures
        s.contains(p[p.len() - 1]),
    decreases p.len(),
{
    if p.len() > 1 {
        let q = p.subrange(1, p.len() as int);
        assert(g.step(p[0], p[1]));
        assert(s.contains(q[0]));
        assert forall|i: int| 0 <= i < q.len() - 1 implies g.step(#[trigger] q[i], q[i + 1]) by {
            assert(q[i] == p[i + 1]);
            assert(q[i + 1] == p[(i + 1) + 1]);
        }
        lemma_path_stays(g, q, s);
    }
}

impl<T, E: Edge> Graph<T, E> {
    /// Walks the predecessor chain back from `to`, then reverses it into a
    /// walk from `from` to `to`. The strictly decreasing measure makes the
    /// chain acyclic, so the walk visits no node twice.
    fn reconstruct(
        &self,
        pred: &Vec<Option<NodeIndex>>,
        Ghost(meas): Ghost<Seq<(nat, nat)>>,
        from: NodeIndex,
        to: NodeIndex,
    ) -> (p: Vec<NodeIndex>)
        requires
            chain_ok(self, pred@, meas, from),
            discovered(pred@, to),
        ensures
            self.is_path(p@, from, to),
            distinct_seq(p@),
            chain_first_strict(pred@, meas, from) ==> p@.len() <= meas[to.0 as int].0
                - meas[from.0 as int].0 + 1,
            chain_cost_ok(self, pred@, meas, from) ==> walk_cost(self, p@) + meas[from.0
                as int].0 <= meas[to.0 as int].0,
    {
        let mut rev: Vec<NodeIndex> = Vec::new();
        rev.push(to);
        let mut current = to;
        while current != from
            invariant
                chain_ok(self, pred@, meas, from),
                discovered(pred@, current),
                rev@.len() >= 1,
                rev@[0] == to,
                rev@[rev@.len() - 1] == current,
                chain_first_strict(pred@, meas, from) ==> rev@.len() <= meas[to.0 as int].0
                    - meas[current.0 as int].0 + 1,
                chain_cost_ok(self, pred@, meas, from) ==> forall|i: int|
                    0 <= i < rev@.len() - 1 ==> step_cost(self, rev@[i + 1], #[trigger] rev@[i])
                        + meas[rev@[i + 1].0 as int].0 <= meas[rev@[i].0 as int].0,
                forall|i: int| 0 <= i < rev@.len() - 1 ==> self.step(rev@[i + 1], #[trigger] rev@[i]),
                forall|i: int, j: int|
                    0 <= i < j < rev@.len() ==> lex_lt(
                        meas[(#[trigger] rev@[j]).0 as int],
                        meas[(#[trigger] rev@[i]).0 as int],
                    ),
            decreases meas[current.0 as int].0, meas[current.0 as int].1,
        {
            proof {
                reveal(chain_ok);
                reveal(chain_first_strict);
                reveal(chain_cost_ok);
            }
            assert(discovered(pred@, current) && current != from);
            let u = pred[current.0].unwrap();
            rev.push(u);
            current = u;
        }
        let mut out: Vec<NodeIndex> = Vec::new();
        let mut k: usize = rev.len();
        while k > 0
            invariant
                k <= rev@.len(),
                out@.len() == rev@.len() - k,
                forall|i: int|
                    0 <= i < out@.len() ==> #[trigger] out@[i] == rev@[rev@.len() - 1 - i],
            decreases k,
        {
            k -= 1;
            let w = rev[k];
            out.push(w);
        }
        proof {
            let l = rev@.len();
            assert(out@[0] == rev@[l - 1]);
            assert(out@[out@.len() - 1] == rev@[0]);
            assert forall|i: int| 0 <= i < out@.len() - 1 implies self.step(
                out@[i],
                #[trigger] out@[i + 1],
            ) by {
                assert(out@[i] == rev@[l - 1 - i]);
                assert(out@[i + 1] == rev@[l - 1 - (i + 1)]);
                assert(self.step(rev@[(l - 2 - i) + 1], rev@[l - 2 - i]));
            }
            assert forall|i: int, j: int| 0 <= i < j < out@.len() implies out@[i] != out@[j] by {
                assert(lex_lt(meas[out@[i].0 as int], meas[out@[j].0 as int]));
            }
            if chain_cost_ok(self, pred@, meas, from) {
                assert forall|i: int|
                    0 <= i < out@.len() - 1 implies step_cost(self, #[trigger] out@[i], out@[i + 1])
                    + meas[out@[i].0 as int].0 <= meas[out@[i + 1].0 as int].0 by {
                    assert(out@[i] == rev@[l - 1 - i]);
                    assert(out@[i + 1] == rev@[l - 1 - (i + 1)]);
                    assert(step_cost(self, rev@[(l - 2 - i) + 1], rev@[l - 2 - i]) + meas[rev@[(l
                        - 2 - i) + 1].0 as int].0 <= meas[rev@[l - 2 - i].0 as int].0);
                }
                lemma_walk_cost_telescopes(self, out@, meas);
            }
        }
        out
    }

    /// Breadth-first search: the walk with the fewest edges connecting
    /// `from` to `to`, inclusive of both endpoints, or absent exactly when
    /// `to` is unreachable from `from`. `from == to` yields the one-element
    /// walk without searching. The returned walk visits no node twice.
    #[verifier::rlimit(100)]
    pub fn bfs(&self, from: NodeIndex, to: NodeIndex) -> (r: Option<Vec<NodeIndex>>)
        requires
            self.wf(),
        ensures
            r is Some <==> self.reachable(from, to),
            r matches Some(p) ==> self.is_path(p@, from, to) && distinct_seq(p@),
            r matches Some(p) ==> forall|q: Seq<NodeIndex>|
                #[trigger] self.is_path(q, from, to) ==> p@.len() <= q.len(),
            from == to ==> (r matches Some(p) && p@ == seq![from]),
    {
        if from == to {
            let mut p: Vec<NodeIndex> = Vec::new();
            p.push(from);
            proof {
                assert(p@ =~= seq![from]);
                assert(self.is_path(p@, from, to));
            }
            return Some(p);
        }
        let n = self.node_count();
        if from.0 >= n || to.0 >= n {
            proof {
                lemma_unreachable_outside(self, from, to);
            }
            return None;
        }
        let mut parent: Vec<Option<NodeIndex>> = Vec::new();
        let mut i: usize = 0;
        while i < n
            invariant
                i <= n,
                parent@.len() == i,
                forall|k: int| 0 <= k < i ==> parent@[k] is None,
            decreases n - i,
        {
            parent.push(None);
            i += 1;
        }
        let ghost init_parent = parent@;
        parent[from.0] = Some(from);
        let ghost mut meas: Seq<(nat, nat)> = Seq::new(n as nat, |k: int| (0nat, 0nat));
        let mut queue: Vec<NodeIndex> = Vec::new();
        queue.push(from);
        proof {
            reveal(chain_ok);
            reveal(chain_first_strict);
            assert(queue@[0] == from);
            assert forall|v: NodeIndex| #[trigger] discovered(parent@, v) implies v == from by {
                if v.0 != from.0 {
                    assert(parent@[v.0 as int] == init_parent[v.0 as int]);
                }
            }
            assert(chain_ok(self, parent@, meas, from));
            assert(chain_first_strict(parent@, meas, from));
            assert forall|v: NodeIndex| #[trigger]
                discovered(parent@, v) implies queue@.contains(v) by {
                assert(v == from);
            }
            reveal(depth_bounds_paths);
            reveal(depth_bounds_unfound);
            assert forall|w: NodeIndex, q: Seq<NodeIndex>|
                discovered(parent@, w) && #[trigger] self.is_path(q, from, w) implies q.len()
                >= meas[w.0 as int].0 + 1 by {
                assert(w == from);
            }
            assert(depth_bounds_paths(self, parent@, meas, from));
            assert forall|w: NodeIndex, q: Seq<NodeIndex>|
                w.0 < n && parent@[w.0 as int] is None && #[trigger] self.is_path(q, from, w)
                implies q.len() >= meas[queue@[0].0 as int].0 + 2 by {
                assert(q[0] == from);
                if q.len() < 2 {
                    assert(q[q.len() - 1] == from);
                    assert(discovered(parent@, w));
                }
            }
            assert(depth_bounds_unfound(self, parent@, from, meas[queue@[0].0 as int].0));
        }
        let mut head: usize = 0;
        while head < queue.len()
            invariant
                self.wf(),
                n == self.nodes_seq().len(),
                from.0 < n,
                to.0 < n,
                from != to,
                parent@.len() == n,
                meas.len() == n,
                head <= queue@.len(),
                discovered(parent@, from),
                forall|k: int| 0 <= k < queue@.len() ==> discovered(parent@, #[trigger] queue@[k]),
                chain_ok(self, parent@, meas, from),
                chain_first_strict(parent@, meas, from),
                meas[from.0 as int] == (0nat, 0nat),
                forall|v: NodeIndex| #[trigger] discovered(parent@, v) ==> queue@.contains(v),
                forall|k: int, j: int|
                    0 <= k < head && 0 <= j < self.spec_connections(queue@[k]).len()
                        ==> discovered(
                        parent@,
                        (#[trigger] self.spec_connections(queue@[k])[j]).1,
                    ),
                parent@[to.0 as int] is None,
                forall|k1: int, k2: int|
                    head <= k1 <= k2 < queue@.len() ==> meas[(#[trigger] queue@[k1]).0 as int].0
                        <= meas[(#[trigger] queue@[k2]).0 as int].0,
                forall|k: int|
                    head <= k < queue@.len() ==> meas[(#[trigger] queue@[k]).0 as int].0 <= meas[
                        queue@[head as int].0 as int
                    ].0 + 1,
                depth_bounds_paths(self, parent@, meas, from),
                head < queue@.len() ==> depth_bounds_unfound(
                    self,
                    parent@,
                    from,
                    meas[queue@[head as int].0 as int].0,
                ),
            decreases count_none(parent@), queue@.len() - head,
        {
            let ghost c0 = count_none(parent@);
            let ghost q0 = queue@;
            let current = queue[head];
            let conns = self.get_connections(current);
            let clen = conns.len();
            let mut j: usize = 0;
            while j < clen
                invariant
                    self.wf(),
                    n == self.nodes_seq().len(),
                    from.0 < n,
                    to.0 < n,
                    from != to,
                    parent@.len() == n,
                    meas.len() == n,
                    head < queue@.len(),
                    current == queue@[head as int],
                    conns@ == self.spec_connections(current),
                    clen == conns@.len(),
                    j <= clen,
                    discovered(parent@, from),
                    forall|k: int|
                        0 <= k < queue@.len() ==> discovered(parent@, #[trigger] queue@[k]),
                    chain_ok(self, parent@, meas, from),
                    chain_first_strict(parent@, meas, from),
                    meas[from.0 as int] == (0nat, 0nat),
                    forall|v: NodeIndex| #[trigger] discovered(parent@, v) ==> queue@.contains(v),
                    forall|k: int, jj: int|
                        0 <= k < head && 0 <= jj < self.spec_connections(queue@[k]).len()
                            ==> discovered(
                            parent@,
                            (#[trigger] self.spec_connections(queue@[k])[jj]).1,
                        ),
                    forall|jj: int| 0 <= jj < j ==> discovered(parent@, (#[trigger] conns@[jj]).1),
                    parent@[to.0 as int] is None,
                    forall|k1: int, k2: int|
                        head <= k1 <= k2 < queue@.len() ==> meas[(#[trigger] queue@[k1]).0
                            as int].0 <= meas[(#[trigger] queue@[k2]).0 as int].0,
                    forall|k: int|
                        head <= k < queue@.len() ==> meas[(#[trigger] queue@[k]).0 as int].0
                            <= meas[current.0 as int].0 + 1,
                    depth_bounds_paths(self, parent@, meas, from),
                    depth_bounds_unfound(self, parent@, from, meas[current.0 as int].0),
                    count_none(parent@) <= c0,
                    count_none(parent@) == c0 ==> queue@ == q0,
                decreases clen - j,
            {
                let (_e, v) = conns[j];
                proof {
                    assert(conns@[j as int] == (_e, v));
                    assert(self.spec_connections(current).contains((_e, v)));
                    assert(v.0 < n);
                }
                if parent[v.0].is_none() {
                    let ghost old_parent = parent@;
                    let ghost old_meas = meas;
                    parent[v.0] = Some(current);
                    proof {
                        reveal(chain_ok);
                        reveal(chain_first_strict);
                        lemma_count_none_update(old_parent, v.0 as int, current);
                        meas = meas.update(v.0 as int, (meas[current.0 as int].0 + 1, 0nat));
                        assert(discovered(parent@, current));
                        assert(current.0 != v.0);
                        assert(meas[current.0 as int] == old_meas[current.0 as int]);
                        assert(self.step(current, v));
                        assert forall|w: NodeIndex| #[trigger]
                            discovered(parent@, w) && w != from implies {
                            let u = parent@[w.0 as int]->0;
                            &&& discovered(parent@, u)
                            &&& self.step(u, w)
                            &&& lex_lt(meas[u.0 as int], meas[w.0 as int])
                            &&& meas[u.0 as int].0 < meas[w.0 as int].0
                        } by {
                            if w == v {
                                assert(parent@[w.0 as int]->0 == current);
                            } else {
                                assert(discovered(old_parent, w));
                                let u = old_parent[w.0 as int]->0;
                                assert(discovered(old_parent, u));
                                assert(u.0 != v.0);
                                assert(w.0 != v.0);
                            }
                        }
                        assert(chain_ok(self, parent@, meas, from));
                        assert(chain_first_strict(parent@, meas, from));
                        assert forall|k: int|
                            0 <= k < queue@.len() implies (#[trigger] queue@[k]).0 != v.0 by {
                            assert(discovered(old_parent, queue@[k]));
                        }
                        reveal(depth_bounds_paths);
                        reveal(depth_bounds_unfound);
                        assert forall|w: NodeIndex, q: Seq<NodeIndex>|
                            discovered(parent@, w) && #[trigger] self.is_path(q, from, w)
                            implies q.len() >= meas[w.0 as int].0 + 1 by {
                            if w == v {
                                assert(old_parent[w.0 as int] is None);
                                assert(q.len() >= old_meas[current.0 as int].0 + 2);
                            } else {
                                assert(discovered(old_parent, w));
                                assert(meas[w.0 as int] == old_meas[w.0 as int]);
                            }
                        }
                        assert(depth_bounds_paths(self, parent@, meas, from));
                        assert forall|w: NodeIndex, q: Seq<NodeIndex>|
                            w.0 < n && parent@[w.0 as int] is None && #[trigger] self.is_path(
                                q,
                                from,
                                w,
                            ) implies q.len() >= meas[current.0 as int].0 + 2 by {
                            assert(old_parent[w.0 as int] is None);
                        }
                        assert(depth_bounds_unfound(
                            self,
                            parent@,
                            from,
                            meas[current.0 as int].0,
                        ));
                    }
                    if v.0 == to.0 {
                        let path = self.reconstruct(&parent, Ghost(meas), from, to);
                        proof {
                            reveal(depth_bounds_paths);
                            assert(self.is_path(path@, from, to));
                            assert(path@.len() <= meas[to.0 as int].0 + 1);
                            assert forall|q: Seq<NodeIndex>|
                                #[trigger] self.is_path(q, from, to) implies path@.len()
                                <= q.len() by {
                                assert(discovered(parent@, to));
                                assert(q.len() >= meas[to.0 as int].0 + 1);
                            }
                        }
                        return Some(path);
                    } else {
                        let ghost old_queue = queue@;
                        queue.push(v);
                        proof {
                            assert forall|w: NodeIndex| #[trigger]
                                discovered(parent@, w) implies queue@.contains(w) by {
                                if w == v {
                                    assert(queue@[queue@.len() - 1] == v);
                                } else {
                                    assert(discovered(old_parent, w));
                                    let k = choose|k: int|
                                        0 <= k < old_queue.len() && old_queue[k] == w;
                                    assert(queue@[k] == w);
                                }
                            }
                            assert(queue@[queue@.len() - 1] == v);
                            assert(meas[v.0 as int].0 == meas[current.0 as int].0 + 1);
                            assert forall|k1: int, k2: int|
                                head <= k1 <= k2 < queue@.len() implies meas[(
                            #[trigger] queue@[k1]).0 as int].0 <= meas[(#[trigger] queue@[k2]).0
                                as int].0 by {
                                if k2 == queue@.len() - 1 {
                                    if k1 < k2 {
                                        assert(queue@[k1] == old_queue[k1]);
                                        assert(meas[old_queue[k1].0 as int].0 <= meas[current.0
                                            as int].0 + 1);
                                    }
                                } else {
                                    assert(queue@[k1] == old_queue[k1]);
                                    assert(queue@[k2] == old_queue[k2]);
                                }
                            }
                            assert forall|k: int|
                                head <= k < queue@.len() implies meas[(#[trigger] queue@[k]).0
                                as int].0 <= meas[current.0 as int].0 + 1 by {
                                if k < queue@.len() - 1 {
                                    assert(queue@[k] == old_queue[k]);
                                }
                            }
                        }
                    }
                }
                j += 1;
            }
            head += 1;
            proof {
                if head < queue.len() {
                    let front = queue@[head as int];
                    assert(meas[current.0 as int].0 <= meas[front.0 as int].0);
                    assert forall|k: int|
                        head <= k < queue@.len() implies meas[(#[trigger] queue@[k]).0 as int].0
                        <= meas[front.0 as int].0 + 1 by {
                        assert(meas[queue@[k].0 as int].0 <= meas[current.0 as int].0 + 1);
                    }
                    lemma_frontier_bound(self, parent@, meas, queue@, head as int, from);
                }
            }
        }
        proof {
            let s = Set::new(|v: NodeIndex| discovered(parent@, v));
            assert forall|u: NodeIndex, v: NodeIndex|
                s.contains(u) && #[trigger] self.step(u, v) implies s.contains(v) by {
                let k = choose|k: int| 0 <= k < queue@.len() && queue@[k] == u;
                let e = choose|e: crate::graph::EdgeIndex| #[trigger]
                    self.spec_connections(u).contains((e, v));
                let j = choose|j: int|
                    0 <= j < self.spec_connections(u).len() && self.spec_connections(u)[j] == (
                    e,
                    v,
                );
                assert(discovered(parent@, (self.spec_connections(queue@[k])[j]).1));
            }
            if self.reachable(from, to) {
                let p = choose|p: Seq<NodeIndex>| self.is_path(p, from, to);
                assert(s.contains(p[0]));
                lemma_path_stays(self, p, s);
                assert(discovered(parent@, to));
                assert(false);
            }
        }
        None
    }

    /// Heuristic-guided minimum-cost search. `h(node, goal)` is a
    /// caller-supplied non-negative estimate of the remaining cost to the
    /// goal; the always-zero heuristic specializes this to uniform-cost
    /// (Dijkstra) search. The search returns a walk from `from` to `to`
    /// that visits no node twice, or absent exactly when `to` is
    /// unreachable from `from`; `from == to` yields the one-element walk
    /// without searching. With the always-zero heuristic, and as long as
    /// the node count times the largest edge cost fits in the cost
    /// accumulator, the returned walk's total cost is minimal among all
    /// walks connecting the endpoints.
    #[verifier::rlimit(100)]
    pub fn astar(
        &self,
        from: NodeIndex,
        to: NodeIndex,
        h: impl Fn(&T, &T) -> u32,
    ) -> (r: Option<Vec<NodeIndex>>)
        requires
            self.wf(),
            forall|a: &T, b: &T| #[trigger] call_requires(h, (a, b)),
        ensures
            r is Some <==> self.reachable(from, to),
            r matches Some(p) ==> self.is_path(p@, from, to) && distinct_seq(p@),
            from == to ==> (r matches Some(p) && p@ == seq![from]),
            (forall|a: &T, b: &T, c: u32| #[trigger] call_ensures(h, (a, b), c) ==> c == 0)
                && self.nodes_seq().len() * (u32::MAX as nat) <= u64::MAX as nat ==> (r matches
            Some(p) ==> forall|q: Seq<NodeIndex>|
                #[trigger] self.is_path(q, from, to) ==> walk_cost(self, p@) <= walk_cost(
                    self,
                    q,
                )),
    {
        if from == to {
            let mut p: Vec<NodeIndex> = Vec::new();
            p.push(from);
            proof {
                assert(p@ =~= seq![from]);
                assert(self.is_path(p@, from, to));
                assert(walk_cost(self, p@) == 0);
            }
            return Some(p);
        }
        let n = self.node_count();
        if from.0 >= n || to.0 >= n {
            proof {
                lemma_unreachable_outside(self, from, to);
            }
            return None;
        }
        let goal = self.get_node(to).unwrap();
        let mut pred: Vec<Option<NodeIndex>> = Vec::new();
        let mut best: Vec<Option<u64>> = Vec::new();
        let mut i: usize = 0;
        while i < n
            invariant
                i <= n,
                pred@.len() == i,
                best@.len() == i,
                forall|k: int| 0 <= k < i ==> (#[trigger] pred@[k]) is None && best@[k] is None,
            decreases n - i,
        {
            pred.push(None);
            best.push(None);
            i += 1;
        }
        let ghost init_pred = pred@;
        pred[from.0] = Some(from);
        best[from.0] = Some(0);
        let ghost mut meas: Seq<(nat, nat)> = Seq::new(n as nat, |k: int| (0nat, 0nat));
        let ghost mut tick: nat = 1;
        let ghost mut processed: Set<NodeIndex> = Set::empty();
        let ghost hz: bool = (forall|a: &T, b: &T, c: u32|
            #[trigger] call_ensures(h, (a, b), c) ==> c == 0) && (n as nat) * (u32::MAX as nat)
            <= u64::MAX as nat;
        let mut frontier: Vec<(u64, NodeIndex)> = Vec::new();
        frontier.push((0, from));
        proof {
            reveal(chain_ok);
            assert(frontier@[0].1 == from);
            assert forall|v: NodeIndex| #[trigger] discovered(pred@, v) implies v == from by {
                if v.0 != from.0 {
                    assert(pred@[v.0 as int] == init_pred[v.0 as int]);
                }
            }
            assert(chain_ok(self, pred@, meas, from));
            assert forall|v: NodeIndex| #[trigger]
                discovered(pred@, v) implies processed.contains(v) || frontier_has(
                frontier@,
                v,
            ) by {
                assert(v == from);
                assert(frontier_has(frontier@, from));
            }
            reveal(chain_cost_ok);
            reveal(costs_settled);
            reveal(rows_relaxed);
            reveal(fresh_covered);
            reveal(pris_bound);
            reveal(costs_bounded);
            assert(chain_cost_ok(self, pred@, meas, from));
            assert(costs_settled(self, processed, meas, from));
            assert(rows_relaxed(self, processed, meas));
            assert(pris_bound(frontier@, meas));
            assert forall|w: NodeIndex|
                #[trigger] discovered(pred@, w) && !processed.contains(w)
                    && !Set::<NodeIndex>::empty().contains(w) implies exists|k: int|
                0 <= k < frontier@.len() && (#[trigger] frontier@[k]).1 == w && frontier@[k].0
                    as nat == meas[w.0 as int].0 by {
                assert(w == from);
                assert((#[trigger] frontier@[0]).1 == from);
            }
            assert(fresh_covered(frontier@, pred@, meas, processed, Set::empty()));
            assert forall|w: NodeIndex| #[trigger] discovered(pred@, w) implies meas[w.0
                as int].0 <= (pred@.len() - count_none(pred@)) * (u32::MAX as nat) by {
                assert(w == from);
                assert(meas[from.0 as int] == (0nat, 0nat));
                lemma_count_none_le(pred@);
                assert((pred@.len() - count_none(pred@)) * (u32::MAX as nat) >= 0) by (
                nonlinear_arith)
                    requires
                        count_none(pred@) <= pred@.len(),
                ;
            }
            assert(costs_bounded(pred@, meas));
        }
        loop
            invariant
                self.wf(),
                n == self.nodes_seq().len(),
                from.0 < n,
                to.0 < n,
                from != to,
                pred@.len() == n,
                best@.len() == n,
                meas.len() == n,
                forall|a: &T, b: &T| #[trigger] call_requires(h, (a, b)),
                *goal == self.nodes_seq()[to.0 as int],
                forall|k: int|
                    0 <= k < n ==> ((#[trigger] pred@[k]) is Some <==> best@[k] is Some),
                best@[from.0 as int] == Some(0u64),
                discovered(pred@, from),
                chain_ok(self, pred@, meas, from),
                forall|v: NodeIndex| #[trigger]
                    discovered(pred@, v) ==> meas[v.0 as int] == (
                        best@[v.0 as int]->0 as nat,
                        meas[v.0 as int].1,
                    ) && meas[v.0 as int].1 < tick,
                forall|k: int|
                    0 <= k < frontier@.len() ==> discovered(
                        pred@,
                        (#[trigger] frontier@[k]).1,
                    ),
                forall|v: NodeIndex| #[trigger]
                    discovered(pred@, v) ==> processed.contains(v) || frontier_has(
                        frontier@,
                        v,
                    ),
                forall|u: NodeIndex| #[trigger]
                    processed.contains(u) ==> discovered(pred@, u) && forall|j: int|
                        0 <= j < self.spec_connections(u).len() ==> discovered(
                            pred@,
                            (#[trigger] self.spec_connections(u)[j]).1,
                        ),
                !processed.contains(to),
                hz == ((forall|a: &T, b: &T, c: u32|
                    #[trigger] call_ensures(h, (a, b), c) ==> c == 0) && (n as nat) * (u32::MAX
                    as nat) <= u64::MAX as nat),
                hz ==> costs_bounded(pred@, meas),
                hz ==> chain_cost_ok(self, pred@, meas, from),
                hz ==> costs_settled(self, processed, meas, from),
                hz ==> rows_relaxed(self, processed, meas),
                hz ==> pris_bound(frontier@, meas),
                hz ==> fresh_covered(frontier@, pred@, meas, processed, Set::empty()),
                hz ==> forall|x: NodeIndex, k: int|
                    #[trigger] processed.contains(x) && 0 <= k < frontier@.len() ==> meas[x.0
                        as int].0 <= (#[trigger] frontier@[k]).0 as nat,
            ensures
                frontier@.len() == 0,
                pred@.len() == n,
                discovered(pred@, from),
                forall|v: NodeIndex| #[trigger]
                    discovered(pred@, v) ==> processed.contains(v) || frontier_has(
                        frontier@,
                        v,
                    ),
                forall|u: NodeIndex| #[trigger]
                    processed.contains(u) ==> discovered(pred@, u) && forall|j: int|
                        0 <= j < self.spec_connections(u).len() ==> discovered(
                            pred@,
                            (#[trigger] self.spec_connections(u)[j]).1,
                        ),
                !processed.contains(to),
            decreases count_none(pred@), sum_best(best@), frontier@.len(),
        {
            if frontier.len() == 0 {
                break;
            }
            let ghost c0 = count_none(pred@);
            let ghost s0 = sum_best(best@);
            let ghost f0 = frontier@.len();
            let flen = frontier.len();
            let mut min_i: usize = 0;
            let mut idx: usize = 1;
            while idx < flen
                invariant
                    flen == frontier@.len(),
                    min_i < flen,
                    idx <= flen,
                    forall|k: int|
                        0 <= k < idx ==> frontier@[min_i as int].0 <= (
                        #[trigger] frontier@[k]).0,
                decreases flen - idx,
            {
                if frontier[idx].0 < frontier[min_i].0 {
                    min_i = idx;
                }
                idx += 1;
            }
            let ghost old_frontier = frontier@;
            let (_pri, current) = frontier.swap_remove(min_i);
            let ghost pmin_g: nat = _pri as nat;
            proof {
                assert(discovered(pred@, current));
                assert forall|v: NodeIndex| #[trigger]
                    discovered(pred@, v) && v != current implies processed.contains(v)
                    || frontier_has(frontier@, v) by {
                    if !processed.contains(v) {
                        let k = choose|k: int|
                            0 <= k < old_frontier.len() && old_frontier[k].1 == v;
                        if k < min_i {
                            assert(frontier@[k].1 == v);
                        } else if k == min_i {
                            assert(false);
                        } else if k < old_frontier.len() - 1 {
                            assert(frontier@[k].1 == v);
                        } else {
                            if min_i < frontier@.len() {
                                assert(frontier@[min_i as int].1 == v);
                            }
                        }
                    }
                }
                if hz {
                    lemma_frontier_after_pop(
                        old_frontier,
                        frontier@,
                        min_i as int,
                        pred@,
                        meas,
                        processed,
                        current,
                    );
                    assert forall|x: NodeIndex| #[trigger]
                        processed.contains(x) implies meas[x.0 as int].0 <= pmin_g by {
                        assert(meas[x.0 as int].0 <= (old_frontier[min_i as int]).0 as nat);
                    }
                    assert(meas[from.0 as int].0 == 0);
                    lemma_pop_bound(self, pred@, processed, meas, from, pmin_g);
                }
            }
            if current == to {
                let path = self.reconstruct(&pred, Ghost(meas), from, to);
                proof {
                    assert(self.is_path(path@, from, to));
                    if hz {
                        assert(meas[current.0 as int].0 == pmin_g);
                        assert(walk_cost(self, path@) <= meas[to.0 as int].0);
                        assert forall|q: Seq<NodeIndex>|
                            #[trigger] self.is_path(q, from, to) implies walk_cost(self, path@)
                            <= walk_cost(self, q) by {
                            assert(walk_cost(self, q) >= pmin_g);
                        }
                    }
                }
                return Some(path);
            }
            let cur_cost = best[current.0].unwrap();
            let conns = self.get_connections(current);
            let clen = conns.len();
            let mut j: usize = 0;
            while j < clen
                invariant
                    self.wf(),
                    n == self.nodes_seq().len(),
                    from.0 < n,
                    to.0 < n,
                    from != to,
                    pred@.len() == n,
                    best@.len() == n,
                    meas.len() == n,
                    forall|a: &T, b: &T| #[trigger] call_requires(h, (a, b)),
                    *goal == self.nodes_seq()[to.0 as int],
                    conns@ == self.spec_connections(current),
                    clen == conns@.len(),
                    j <= clen,
                    discovered(pred@, current),
                    best@[current.0 as int] == Some(cur_cost),
                    forall|k: int|
                        0 <= k < n ==> ((#[trigger] pred@[k]) is Some <==> best@[k] is Some),
                    best@[from.0 as int] == Some(0u64),
                    discovered(pred@, from),
                    chain_ok(self, pred@, meas, from),
                    forall|v: NodeIndex| #[trigger]
                        discovered(pred@, v) ==> meas[v.0 as int] == (
                            best@[v.0 as int]->0 as nat,
                            meas[v.0 as int].1,
                        ) && meas[v.0 as int].1 < tick,
                    forall|k: int|
                        0 <= k < frontier@.len() ==> discovered(
                            pred@,
                            (#[trigger] frontier@[k]).1,
                        ),
                    forall|v: NodeIndex| #[trigger]
                        discovered(pred@, v) && v != current ==> processed.contains(v)
                            || frontier_has(frontier@, v),
                    forall|u: NodeIndex| #[trigger]
                        processed.contains(u) ==> discovered(pred@, u) && forall|jj: int|
                            0 <= jj < self.spec_connections(u).len() ==> discovered(
                                pred@,
                                (#[trigger] self.spec_connections(u)[jj]).1,
                            ),
                    forall|jj: int| 0 <= jj < j ==> discovered(pred@, (#[trigger] conns@[jj]).1),
                    !processed.contains(to),
                    count_none(pred@) <= c0,
                    count_none(pred@) == c0 ==> sum_best(best@) <= s0,
                    count_none(pred@) == c0 && sum_best(best@) == s0 ==> frontier@.len() == f0
                        - 1,
                    hz == ((forall|a: &T, b: &T, c: u32|
                        #[trigger] call_ensures(h, (a, b), c) ==> c == 0) && (n as nat) * (
                    u32::MAX as nat) <= u64::MAX as nat),
                    hz ==> costs_bounded(pred@, meas),
                    hz ==> chain_cost_ok(self, pred@, meas, from),
                    hz ==> costs_settled(self, processed, meas, from),
                    hz ==> rows_relaxed(self, processed, meas),
                    hz ==> pris_bound(frontier@, meas),
                    hz ==> fresh_covered(
                        frontier@,
                        pred@,
                        meas,
                        processed,
                        Set::empty().insert(current),
                    ),
                    hz ==> meas[current.0 as int].0 <= pmin_g,
                    hz ==> (!processed.contains(current) ==> meas[current.0 as int].0 == pmin_g),
                    hz ==> forall|x: NodeIndex|
                        #[trigger] processed.contains(x) ==> meas[x.0 as int].0 <= pmin_g,
                    hz ==> forall|k: int|
                        0 <= k < frontier@.len() ==> (#[trigger] frontier@[k]).0 as nat >= pmin_g,
                    hz ==> forall|jj: int|
                        0 <= jj < j ==> meas[(#[trigger] conns@[jj]).1.0 as int].0 <= meas[
                            current.0 as int
                        ].0 + self.edges_seq()[conns@[jj].0.0 as int].spec_cost(),
                decreases clen - j,
            {
                let (eidx, v) = conns[j];
                proof {
                    assert(conns@[j as int] == (eidx, v));
                    assert(self.spec_connections(current).contains((eidx, v)));
                    assert(v.0 < n);
                    assert(eidx.0 < self.edges_seq().len());
                }
                let edge = self.get_edge(eidx).unwrap();
                let c64 = edge.cost() as u64;
                let candidate = if cur_cost <= u64::MAX - c64 {
                    cur_cost + c64
                } else {
                    u64::MAX
                };
                let is_new = best[v.0].is_none();
                let do_update = if is_new {
                    true
                } else {
                    candidate < best[v.0].unwrap()
                };
                if do_update {
                    let ghost old_pred = pred@;
                    let ghost old_best = best@;
                    let ghost old_meas = meas;
                    let ghost cm = (candidate as nat, tick);
                    pred[v.0] = Some(current);
                    best[v.0] = Some(candidate);
                    proof {
                        reveal(chain_ok);
                        if is_new {
                            lemma_count_none_update(old_pred, v.0 as int, current);
                        } else {
                            lemma_count_none_update_some(old_pred, v.0 as int, current);
                        }
                        lemma_sum_best_update(old_best, v.0 as int, Some(candidate));
                        assert(current != v) by {
                            if current == v {
                                assert(discovered(old_pred, current));
                                assert(old_best[v.0 as int]->0 == cur_cost);
                                assert(candidate >= cur_cost);
                            }
                        }
                        assert(v != from) by {
                            if v == from {
                                assert(discovered(old_pred, from));
                                assert(old_best[from.0 as int] == Some(0u64));
                            }
                        }
                        assert(lex_lt(old_meas[current.0 as int], cm)) by {
                            assert(old_meas[current.0 as int].0 == cur_cost as nat);
                            assert(old_meas[current.0 as int].1 < tick);
                        }
                        if discovered(old_pred, v) {
                            assert(cm.0 < old_meas[v.0 as int].0) by {
                                assert(old_meas[v.0 as int].0 == old_best[v.0 as int]->0 as nat);
                            }
                        }
                        lemma_chain_update(self, old_pred, old_meas, from, current, v, cm);
                        meas = meas.update(v.0 as int, cm);
                        tick = tick + 1;
                        assert(chain_ok(self, pred@, meas, from));
                        assert forall|w: NodeIndex| #[trigger]
                            discovered(pred@, w) implies meas[w.0 as int] == (
                            best@[w.0 as int]->0 as nat,
                            meas[w.0 as int].1,
                        ) && meas[w.0 as int].1 < tick by {
                            if w != v {
                                assert(w.0 != v.0);
                                assert(discovered(old_pred, w));
                            }
                        }
                        if hz {
                            reveal(costs_bounded);
                            reveal(costs_settled);
                            reveal(rows_relaxed);
                            assert(!processed.contains(current)) by {
                                if processed.contains(current) {
                                    assert(discovered(
                                        old_pred,
                                        (self.spec_connections(current)[j as int]).1,
                                    ));
                                    assert(old_meas[v.0 as int].0 <= old_meas[current.0 as int].0
                                        + self.edges_seq()[self.spec_connections(current)[
                                        j as int].0.0 as int].spec_cost());
                                    assert(old_best[v.0 as int]->0 as nat <= cur_cost as nat
                                        + edge.spec_cost() as nat);
                                    assert(false);
                                }
                            }
                            assert(candidate == cur_cost + c64) by {
                                if is_new {
                                    lemma_count_none_pos(old_pred, v.0 as int);
                                    assert(discovered(old_pred, current));
                                    assert(old_meas[current.0 as int].0 == cur_cost as nat);
                                    assert(old_meas[current.0 as int].0 <= (old_pred.len()
                                        - count_none(old_pred)) * (u32::MAX as nat));
                                    assert((old_pred.len() - count_none(old_pred)) * (u32::MAX
                                        as nat) <= (n - 1) * (u32::MAX as nat)) by (
                                    nonlinear_arith)
                                        requires
                                            count_none(old_pred) >= 1,
                                            old_pred.len() == n,
                                    ;
                                    assert((n - 1) * (u32::MAX as nat) + (u32::MAX as nat) == n
                                        * (u32::MAX as nat)) by (nonlinear_arith)
                                        requires
                                            n >= 1,
                                    ;
                                }
                            }
                            assert(!processed.contains(v)) by {
                                if processed.contains(v) {
                                    assert(old_meas[v.0 as int].0 <= pmin_g);
                                    assert(old_meas[current.0 as int].0 == pmin_g);
                                }
                            }
                            assert(cm.0 >= old_meas[current.0 as int].0 + step_cost(
                                self,
                                current,
                                v,
                            )) by {
                                lemma_min_step_le(
                                    self,
                                    self.spec_connections(current),
                                    eidx,
                                    v,
                                );
                            }
                            lemma_chain_cost_update(
                                self,
                                old_pred,
                                old_meas,
                                from,
                                current,
                                v,
                                cm,
                            );
                            assert(chain_cost_ok(self, pred@, meas, from));
                            assert forall|w: NodeIndex| #[trigger]
                                discovered(pred@, w) implies meas[w.0 as int].0 <= (pred@.len()
                                - count_none(pred@)) * (u32::MAX as nat) by {
                                if w != v {
                                    assert(w.0 != v.0);
                                    assert(discovered(old_pred, w));
                                    assert((old_pred.len() - count_none(old_pred)) * (u32::MAX
                                        as nat) <= (pred@.len() - count_none(pred@)) * (u32::MAX
                                        as nat)) by (nonlinear_arith)
                                        requires
                                            old_pred.len() == pred@.len(),
                                            count_none(pred@) <= count_none(old_pred),
                                    ;
                                }
                            }
                            assert(costs_bounded(pred@, meas));
                            assert forall|x: NodeIndex, q: Seq<NodeIndex>|
                                processed.contains(x) && #[trigger] self.is_path(q, from, x)
                                implies walk_cost(self, q) >= meas[x.0 as int].0 by {
                                assert(x != v);
                                assert(meas[x.0 as int] == old_meas[x.0 as int]);
                            }
                            assert(costs_settled(self, processed, meas, from));
                            assert forall|x: NodeIndex, jj: int|
                                #[trigger] processed.contains(x) && 0 <= jj
                                    < self.spec_connections(x).len() implies meas[(
                            #[trigger] self.spec_connections(x)[jj]).1.0 as int].0 <= meas[x.0
                                as int].0 + self.edges_seq()[self.spec_connections(x)[jj].0.0
                                as int].spec_cost() by {
                                assert(x != v);
                                assert(meas[x.0 as int] == old_meas[x.0 as int]);
                                let y = (self.spec_connections(x)[jj]).1;
                                assert(old_meas[y.0 as int].0 <= old_meas[x.0 as int].0
                                    + self.edges_seq()[self.spec_connections(x)[jj].0.0
                                    as int].spec_cost());
                                if y.0 == v.0 {
                                    assert(meas[y.0 as int].0 <= old_meas[y.0 as int].0);
                                }
                            }
                            assert(rows_relaxed(self, processed, meas));
                            assert forall|jj: int| 0 <= jj < j implies meas[(
                            #[trigger] conns@[jj]).1.0 as int].0 <= meas[current.0 as int].0
                                + self.edges_seq()[conns@[jj].0.0 as int].spec_cost() by {
                                let y = (conns@[jj]).1;
                                if y.0 == v.0 {
                                    assert(meas[y.0 as int].0 <= old_meas[y.0 as int].0);
                                } else {
                                    assert(meas[y.0 as int] == old_meas[y.0 as int]);
                                }
                            }
                        }
                    }
                    let vn = self.get_node(v).unwrap();
                    let hret = h(vn, goal);
                    let hv = hret as u64;
                    let pri = if candidate <= u64::MAX - hv {
                        candidate + hv
                    } else {
                        u64::MAX
                    };
                    let ghost old_front = frontier@;
                    frontier.push((pri, v));
                    proof {
                        lemma_cover_push(old_pred, old_front, processed, current, v, pri);
                        assert(frontier@ == old_front.push((pri, v)));
                        assert(pred@ == old_pred.update(v.0 as int, Some(current)));
                        if hz {
                            reveal(pris_bound);
                            reveal(fresh_covered);
                            assert(hv == 0) by {
                                assert(call_ensures(h, (vn, goal), hret));
                                assert(hret == 0);
                            }
                            assert(pri == candidate);
                            assert forall|k: int|
                                0 <= k < frontier@.len() implies meas[(
                            #[trigger] frontier@[k]).1.0 as int].0 <= frontier@[k].0 as nat && (
                            frontier@[k]).0 as nat >= pmin_g by {
                                if k < old_front.len() {
                                    assert(frontier@[k] == old_front[k]);
                                    let w = old_front[k].1;
                                    if w.0 == v.0 {
                                        assert(meas[w.0 as int].0 <= old_meas[w.0 as int].0);
                                    } else {
                                        assert(meas[w.0 as int] == old_meas[w.0 as int]);
                                    }
                                } else {
                                    assert(frontier@[k] == (pri, v));
                                    assert(meas[v.0 as int].0 == candidate as nat);
                                    assert(candidate as nat >= meas[current.0 as int].0);
                                }
                            }
                            assert(pris_bound(frontier@, meas));
                            assert forall|w: NodeIndex|
                                #[trigger] discovered(pred@, w) && !processed.contains(w)
                                    && !Set::empty().insert(current).contains(w)
                                implies exists|k: int|
                                0 <= k < frontier@.len() && (#[trigger] frontier@[k]).1 == w
                                    && frontier@[k].0 as nat == meas[w.0 as int].0 by {
                                if w == v {
                                    assert((#[trigger] frontier@[frontier@.len() - 1]).1 == v);
                                } else {
                                    assert(w.0 != v.0);
                                    assert(discovered(old_pred, w));
                                    assert(meas[w.0 as int] == old_meas[w.0 as int]);
                                    let k = choose|k: int|
                                        0 <= k < old_front.len() && (#[trigger] old_front[k]).1
                                            == w && old_front[k].0 as nat == old_meas[w.0
                                            as int].0;
                                    assert((#[trigger] frontier@[k]).1 == w);
                                }
                            }
                            assert(fresh_covered(
                                frontier@,
                                pred@,
                                meas,
                                processed,
                                Set::empty().insert(current),
                            ));
                        }
                    }
                }
                proof {
                    if hz {
                        assert(meas[(conns@[j as int]).1.0 as int].0 <= meas[current.0 as int].0
                            + self.edges_seq()[conns@[j as int].0.0 as int].spec_cost()) by {
                            if do_update {
                                assert(meas[v.0 as int].0 == candidate as nat);
                            } else {
                                if !is_new {
                                    assert(discovered(pred@, v));
                                    assert(meas[v.0 as int].0 == best@[v.0 as int]->0 as nat);
                                    assert(best@[v.0 as int]->0 <= candidate);
                                }
                            }
                        }
                    }
                }
                j += 1;
            }
            proof {
                assert(forall|jj: int|
                    0 <= jj < self.spec_connections(current).len() ==> discovered(
                        pred@,
                        (#[trigger] self.spec_connections(current)[jj]).1,
                    ));
                if hz {
                    reveal(costs_settled);
                    reveal(rows_relaxed);
                    reveal(fresh_covered);
                    let done1 = processed.insert(current);
                    assert forall|x: NodeIndex, q: Seq<NodeIndex>|
                        done1.contains(x) && #[trigger] self.is_path(q, from, x)
                        implies walk_cost(self, q) >= meas[x.0 as int].0 by {
                        if x == current && !processed.contains(current) {
                            assert(walk_cost(self, q) >= pmin_g);
                            assert(meas[current.0 as int].0 == pmin_g);
                        }
                    }
                    assert(costs_settled(self, done1, meas, from));
                    assert forall|x: NodeIndex, jj: int|
                        #[trigger] done1.contains(x) && 0 <= jj < self.spec_connections(
                            x,
                        ).len() implies meas[(#[trigger] self.spec_connections(x)[jj]).1.0
                        as int].0 <= meas[x.0 as int].0 + self.edges_seq()[self.spec_connections(
                        x,
                    )[jj].0.0 as int].spec_cost() by {
                        if x == current {
                            assert(conns@[jj] == self.spec_connections(current)[jj]);
                        } else {
                            assert(processed.contains(x));
                        }
                    }
                    assert(rows_relaxed(self, done1, meas));
                    assert forall|w: NodeIndex|
                        #[trigger] discovered(pred@, w) && !done1.contains(w)
                            && !Set::<NodeIndex>::empty().contains(w) implies exists|k: int|
                        0 <= k < frontier@.len() && (#[trigger] frontier@[k]).1 == w
                            && frontier@[k].0 as nat == meas[w.0 as int].0 by {
                        assert(!processed.contains(w) && w != current);
                        assert(!Set::empty().insert(current).contains(w));
                    }
                    assert(fresh_covered(frontier@, pred@, meas, done1, Set::empty()));
                    assert forall|x: NodeIndex, k: int|
                        #[trigger] done1.contains(x) && 0 <= k < frontier@.len() implies meas[x.0
                        as int].0 <= (#[trigger] frontier@[k]).0 as nat by {
                        assert(meas[x.0 as int].0 <= pmin_g);
                        assert((frontier@[k]).0 as nat >= pmin_g);
                    }
                }
                processed = processed.insert(current);
            }
        }
        proof {
            let s = Set::new(|v: NodeIndex| discovered(pred@, v));
            assert forall|u: NodeIndex, v: NodeIndex|
                s.contains(u) && #[trigger] self.step(u, v) implies s.contains(v) by {
                assert(discovered(pred@, u));
                assert(processed.contains(u) || frontier_has(frontier@, u));
                assert(processed.contains(u));
                let e = choose|e: crate::graph::EdgeIndex| #[trigger]
                    self.spec_connections(u).contains((e, v));
                let j = choose|j: int|
                    0 <= j < self.spec_connections(u).len() && self.spec_connections(u)[j] == (
                    e,
                    v,
                );
                assert(discovered(pred@, (self.spec_connections(u)[j]).1));
            }
            if self.reachable(from, to) {
                let p = choose|p: Seq<NodeIndex>| self.is_path(p, from, to);
                assert(s.contains(p[0]));
                lemma_path_stays(self, p, s);
                assert(discovered(pred@, to));
                assert(processed.contains(to));
                assert(false);
            }
        }
        None
    }

    /// Uniform-cost (Dijkstra) search: heuristic-guided search with the
    /// always-zero heuristic. As long as the node count times the largest
    /// edge cost fits in the cost accumulator, the returned walk's total
    /// cost, each step taken at its cheapest edge, is minimal among all
    /// walks connecting the endpoints.
    pub fn dijkstra(&self, from: NodeIndex, to: NodeIndex) -> (r: Option<Vec<NodeIndex>>)
        requires
            self.wf(),
        ensures
            r is Some <==> self.reachable(from, to),
            r matches Some(p) ==> self.is_path(p@, from, to) && distinct_seq(p@),
            from == to ==> (r matches Some(p) && p@ == seq![from]),
            self.nodes_seq().len() * (u32::MAX as nat) <= u64::MAX as nat ==> (r matches Some(p)
                ==> forall|q: Seq<NodeIndex>|
                #[trigger] self.is_path(q, from, to) ==> walk_cost(self, p@) <= walk_cost(
                    self,
                    q,
                )),
    {
        let zero = |_a: &T, _b: &T| -> (c: u32)
            ensures
                c == 0,
            {
                0
            };
        let r = self.astar(from, to, zero);
        proof {
            assert(forall|a: &T, b: &T, c: u32|
                #[trigger] call_ensures(zero, (a, b), c) ==> c == 0);
        }
        r
    }
}

/// Some frontier entry carries the node `v`.
pub open spec fn frontier_has(frontier: Seq<(u64, NodeIndex)>, v: NodeIndex) -> bool {
    exists|k: int| 0 <= k < frontier.len() && frontier[k].1 == v
}

/// Any two minimum-cost walks between the same endpoints have the same
/// total cost; searches whose results are both guaranteed minimal, such as
/// the uniform-cost search and the heuristic-guided search under the
/// always-zero heuristic, therefore agree on the returned total cost.
pub proof fn lemma_minimal_costs_agree<T, E: Edge>(
    g: &Graph<T, E>,
    p1: Seq<NodeIndex>,
    p2: Seq<NodeIndex>,
    from: NodeIndex,
    to: NodeIndex,
)
    requires
        g.is_path(p1, from, to),
        g.is_path(p2, from, to),
        forall|q: Seq<NodeIndex>|
            #[trigger] g.is_path(q, from, to) ==> walk_cost(g, p1) <= walk_cost(g, q),
        forall|q: Seq<NodeIndex>|
            #[trigger] g.is_path(q, from, to) ==> walk_cost(g, p2) <= walk_cost(g, q),
    ensures
        walk_cost(g, p1) == walk_cost(g, p2),
{
}

/// An endpoint outside the allocated node range is connected to nothing,
/// so distinct endpoints with either one outside the range are unreachable
/// from one another.
proof fn lemma_unreachable_outside<T, E: Edge>(g: &Graph<T, E>, from: NodeIndex, to: NodeIndex)
    requires
        g.wf(),
        from != to,
        from.0 >= g.nodes_seq().len() || to.0 >= g.nodes_seq().len(),
    ensures
        !g.reachable(from, to),
{
    if g.reachable(from, to) {
        let p = choose|p: Seq<NodeIndex>| g.is_path(p, from, to);
        assert(p.len() >= 2);
        if from.0 >= g.nodes_seq().len() {
            assert(g.step(p[0], p[1]));
            let e = choose|e: crate::graph::EdgeIndex| #[trigger]
                g.spec_connections(p[0]).contains((e, p[1]));
            assert(g.spec_connections(from).len() == 0);
            assert(false);
        } else {
            let last = p.len() - 1;
            assert(g.step(p[last - 1], p[last]));
            let e = choose|e: crate::graph::EdgeIndex| #[trigger]
                g.spec_connections(p[last - 1]).contains((e, to));
            let j = choose|j: int|
                0 <= j < g.spec_connections(p[last - 1]).len() && (#[trigger] g.spec_connections(
                    p[last - 1],
                )[j]) == (e, to);
            assert(g.spec_connections(p[last - 1]) == g.adj()[p[last - 1].0 as int]);
            assert(false);
        }
    }
}

} // verus!
