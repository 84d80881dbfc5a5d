//! Phases: what one augmentation does to a residual graph, and how many
//! augmentations along shortest paths there can be.

use crate::distance::{
    distance, lemma_distance, lemma_distance_along, lemma_distance_of_shortest,
    lemma_distance_step,
};
use crate::duality::lemma_reaches_itself;
use crate::network::{
    capacity, is_path, nonnegative, positive_step, reachable, step_capacity,
};
use crate::search::{is_shortest_path, lemma_distinct_bounded};
use crate::sums::{grid_sum, lemma_grid_ext, lemma_grid_le, lemma_grid_less};
use vstd::prelude::*;

verus! {

/// Position `k` of `p` is reached from the position before it, and the two
/// nodes are `a` and `b`.
pub open spec fn is_step(p: Seq<int>, k: int, a: int, b: int) -> bool {
    p[k - 1] == a && p[k] == b
}

/// `p` steps from `a` to `b` somewhere after position `from`.
pub open spec fn steps_after(p: Seq<int>, from: int, a: int, b: int) -> bool {
    exists|k: int| from < k < p.len() && #[trigger] is_step(p, k, a, b)
}

/// The capacity of the pair `(a, b)` once `amount` has been sent over the
/// steps of `p` after position `from`: a step from `a` to `b` takes `amount`
/// from it, a step from `b` to `a` adds `amount` to it.
pub open spec fn pushed_capacity(
    before: Map<(i32, i32), i32>,
    p: Seq<int>,
    from: int,
    amount: int,
    a: int,
    b: int,
) -> int {
    capacity(before, a, b) - (if steps_after(p, from, a, b) {
        amount
    } else {
        0
    }) + (if steps_after(p, from, b, a) {
        amount
    } else {
        0
    })
}

/// `after` is `before` with `amount` sent over the steps of `p` after
/// position `from`.
pub open spec fn is_pushed(
    before: Map<(i32, i32), i32>,
    after: Map<(i32, i32), i32>,
    n: int,
    p: Seq<int>,
    from: int,
    amount: int,
) -> bool {
    forall|a: int, b: int|
        0 <= a < n && 0 <= b < n ==> #[trigger] capacity(after, a, b) == pushed_capacity(
            before,
            p,
            from,
            amount,
            a,
            b,
        )
}

/// `after` has the edges of `before` and, for each step of `p` after
/// position `from`, the edge opposite to that step.
pub open spec fn is_grown(
    before: Map<(i32, i32), i32>,
    after: Map<(i32, i32), i32>,
    p: Seq<int>,
    from: int,
) -> bool {
    forall|c: i32, d: i32| #[trigger]
        after.contains_key((c, d)) <==> before.contains_key((c, d)) || steps_after(
            p,
            from,
            d as int,
            c as int,
        )
}

/// `amount` is the least capacity among the steps of `p`.
pub open spec fn is_bottleneck(weights: Map<(i32, i32), i32>, p: Seq<int>, amount: int) -> bool {
    &&& forall|k: int| 0 < k < p.len() ==> amount <= #[trigger] step_capacity(weights, p, k)
    &&& exists|k: int| 0 < k < p.len() && amount == #[trigger] step_capacity(weights, p, k)
}

/// `p` and `amount` are what a phase on `weights` works with: `p` is a
/// shortest path from `source` to another node `sink` and visits no node
/// twice, and `amount` is its bottleneck.
pub open spec fn is_augmenting(
    weights: Map<(i32, i32), i32>,
    n: int,
    source: int,
    sink: int,
    p: Seq<int>,
    amount: int,
) -> bool {
    &&& source != sink
    &&& is_shortest_path(weights, n, p, source, sink)
    &&& p.no_duplicates()
    &&& is_bottleneck(weights, p, amount)
}

/// One phase along `p`: `p` and `amount` are what a phase on `before` works
/// with, and `after` is `before` with `amount` sent along all of `p`, and with
/// an edge opposite to each step of `p`.
pub open spec fn is_phase_along(
    before: Map<(i32, i32), i32>,
    after: Map<(i32, i32), i32>,
    n: int,
    source: int,
    sink: int,
    p: Seq<int>,
    amount: int,
) -> bool {
    &&& is_augmenting(before, n, source, sink, p, amount)
    &&& is_pushed(before, after, n, p, 0, amount)
    &&& is_grown(before, after, p, 0)
}

/// One phase: an augmentation of `before` along some shortest path from
/// `source` to `sink`, by that path's bottleneck, gives `after`.
pub open spec fn is_phase(
    before: Map<(i32, i32), i32>,
    after: Map<(i32, i32), i32>,
    n: int,
    source: int,
    sink: int,
) -> bool {
    exists|p: Seq<int>, amount: int| #[trigger]
        is_phase_along(before, after, n, source, sink, p, amount)
}

/// Graph `i` of `run` comes from the graph before it by one phase.
pub open spec fn phase_at(
    run: Seq<Map<(i32, i32), i32>>,
    i: int,
    n: int,
    source: int,
    sink: int,
) -> bool {
    is_phase(run[i - 1], run[i], n, source, sink)
}

/// A run: a list of graphs, each but the first the outcome of one phase on
/// the graph before it.
pub open spec fn is_run(run: Seq<Map<(i32, i32), i32>>, n: int, source: int, sink: int) -> bool {
    &&& run.len() >= 1
    &&& forall|i: int| 0 < i < run.len() ==> #[trigger] phase_at(run, i, n, source, sink)
}

/// Some capacity joins `u` and `v`, in one direction or the other.
pub open spec fn joined(weights: Map<(i32, i32), i32>, u: int, v: int) -> bool {
    capacity(weights, u, v) > 0 || capacity(weights, v, u) > 0
}

/// One for each joined pair, zero for the others.
pub open spec fn joined_marks(weights: Map<(i32, i32), i32>) -> spec_fn(int, int) -> int {
    |u: int, v: int|
        if joined(weights, u, v) {
            1int
        } else {
            0int
        }
}

/// The number of ordered pairs of nodes that some capacity joins: at most
/// twice the number of edges.
pub open spec fn joined_pairs(weights: Map<(i32, i32), i32>, n: int) -> int {
    grid_sum(joined_marks(weights), n, n)
}

/// The number of phases that a run on `weights` can have at most: the number
/// of nodes times one more than the number of joined pairs.
pub open spec fn phase_bound(weights: Map<(i32, i32), i32>, n: int) -> int {
    n * (joined_pairs(weights, n) + 1)
}

/// Some shortest path from `source` to `sink` steps from `a` to `b`.
spec fn on_shortest(
    weights: Map<(i32, i32), i32>,
    n: int,
    source: int,
    sink: int,
    a: int,
    b: int,
) -> bool {
    exists|q: Seq<int>| #[trigger]
        is_shortest_path(weights, n, q, source, sink) && steps_after(q, 0, a, b)
}

spec fn shortest_marks(weights: Map<(i32, i32), i32>, n: int, source: int, sink: int) -> spec_fn(
    int,
    int,
) -> int {
    |a: int, b: int|
        if on_shortest(weights, n, source, sink, a, b) {
            1int
        } else {
            0int
        }
}

/// What every phase takes from: the nodes that the distance from `source` to
/// `sink` leaves below the number of nodes, each counted as often as there are
/// joined pairs and once more, and the pairs on shortest paths.
spec fn potential(weights: Map<(i32, i32), i32>, n: int, source: int, sink: int) -> int {
    (n + 1 - distance(weights, n, source, sink)) * (joined_pairs(weights, n) + 1) + grid_sum(
        shortest_marks(weights, n, source, sink),
        n,
        n,
    )
}

/// The steps after the position before `at` are the steps after `at` and the
/// step that leads to `at`.
pub proof fn lemma_steps_after(p: Seq<int>, at: int, a: int, b: int)
    requires
        0 < at < p.len(),
    ensures
        steps_after(p, at - 1, a, b) == (steps_after(p, at, a, b) || is_step(p, at, a, b)),
{
    if steps_after(p, at - 1, a, b) {
        let k = choose|k: int| at - 1 < k < p.len() && #[trigger] is_step(p, k, a, b);
        if k != at {
            assert(steps_after(p, at, a, b));
        }
    }
    if steps_after(p, at, a, b) {
        let k = choose|k: int| at < k < p.len() && #[trigger] is_step(p, k, a, b);
        assert(at - 1 < k < p.len() && is_step(p, k, a, b));
    }
    if is_step(p, at, a, b) {
        assert(at - 1 < at < p.len() && is_step(p, at, a, b));
    }
}

/// Sending `amount` over one more step of `p`, the one that leads to
/// position `at`.
pub proof fn lemma_push_step(
    residual: Map<(i32, i32), i32>,
    before: Map<(i32, i32), i32>,
    after: Map<(i32, i32), i32>,
    n: int,
    p: Seq<int>,
    at: int,
    amount: int,
)
    requires
        p.no_duplicates(),
        0 < at < p.len(),
        0 <= p[at - 1] < n,
        0 <= p[at] < n,
        is_pushed(residual, before, n, p, at, amount),
        capacity(after, p[at - 1], p[at]) == capacity(before, p[at - 1], p[at]) - amount,
        capacity(after, p[at], p[at - 1]) == capacity(before, p[at], p[at - 1]) + amount,
        forall|a: int, b: int|
            0 <= a < n && 0 <= b < n && !(a == p[at - 1] && b == p[at]) && !(a == p[at] && b == p[at
                - 1]) ==> #[trigger] capacity(after, a, b) == capacity(before, a, b),
    ensures
        is_pushed(residual, after, n, p, at - 1, amount),
{
    let u = p[at - 1];
    let v = p[at];
    assert(!steps_after(p, at, u, v)) by {
        if steps_after(p, at, u, v) {
            let k = choose|k: int| at < k < p.len() && #[trigger] is_step(p, k, u, v);
            assert(p[k] == p[at]);
        }
    }
    assert forall|a: int, b: int| 0 <= a < n && 0 <= b < n implies #[trigger] capacity(after, a, b)
        == pushed_capacity(residual, p, at - 1, amount, a, b) by {
        assert(capacity(before, a, b) == pushed_capacity(residual, p, at, amount, a, b));
        lemma_steps_after(p, at, a, b);
        lemma_steps_after(p, at, b, a);
    }
}

/// A phase sends at least one unit, leaves no capacity negative, and keeps
/// for each pair of nodes the sum of the capacities of its two directions.
pub proof fn lemma_phase_keeps(
    before: Map<(i32, i32), i32>,
    after: Map<(i32, i32), i32>,
    n: int,
    source: int,
    sink: int,
    p: Seq<int>,
    amount: int,
)
    requires
        nonnegative(before, n),
        is_phase_along(before, after, n, source, sink, p, amount),
    ensures
        1 <= amount,
        nonnegative(after, n),
        forall|a: int, b: int|
            0 <= a < n && 0 <= b < n ==> #[trigger] capacity(after, a, b) + capacity(after, b, a)
                == capacity(before, a, b) + capacity(before, b, a),
        joined_pairs(after, n) == joined_pairs(before, n),
{
    let k0 = choose|k: int| 0 < k < p.len() && amount == #[trigger] step_capacity(before, p, k);
    assert(positive_step(before, p, k0));
    assert forall|a: int, b: int| 0 <= a < n && 0 <= b < n implies 0 <= #[trigger] capacity(
        after,
        a,
        b,
    ) by {
        assert(0 <= capacity(before, a, b));
        if steps_after(p, 0, a, b) {
            let k = choose|k: int| 0 < k < p.len() && #[trigger] is_step(p, k, a, b);
            assert(amount <= step_capacity(before, p, k));
        }
    }
    assert forall|a: int, b: int| 0 <= a < n && 0 <= b < n implies #[trigger] capacity(after, a, b)
        + capacity(after, b, a) == capacity(before, a, b) + capacity(before, b, a) by {
        assert(capacity(after, b, a) == pushed_capacity(before, p, 0, amount, b, a));
    }
    let ja = joined_marks(after);
    let jb = joined_marks(before);
    assert forall|a: int, b: int| 0 <= a < n && 0 <= b < n implies #[trigger] ja(a, b) == jb(
        a,
        b,
    ) by {
        assert(capacity(after, a, b) + capacity(after, b, a) == capacity(before, a, b) + capacity(
            before,
            b,
            a,
        ));
        assert(0 <= capacity(after, a, b) && 0 <= capacity(after, b, a));
        assert(0 <= capacity(before, a, b) && 0 <= capacity(before, b, a));
    }
    lemma_grid_ext(ja, jb, n, n);
}

/// A pair that has capacity after a phase either had some before, or leads
/// one step back along the path of the phase. Either way it takes the
/// distance from `source`, as it was before the phase, up by at most one.
proof fn lemma_step_after(
    before: Map<(i32, i32), i32>,
    after: Map<(i32, i32), i32>,
    n: int,
    source: int,
    sink: int,
    p: Seq<int>,
    amount: int,
    a: int,
    b: int,
)
    requires
        is_phase_along(before, after, n, source, sink, p, amount),
        0 <= a < n,
        0 <= b < n,
        reachable(before, n, source, a),
        capacity(after, a, b) > 0,
    ensures
        reachable(before, n, source, b),
        distance(before, n, source, b) <= distance(before, n, source, a) + 1,
        capacity(before, a, b) <= 0 ==> distance(before, n, source, b) == distance(
            before,
            n,
            source,
            a,
        ) - 1,
{
    if capacity(before, a, b) > 0 {
        lemma_distance_step(before, n, source, a, b);
    } else {
        let k0 = choose|k: int| 0 < k < p.len() && amount == #[trigger] step_capacity(before, p, k);
        assert(positive_step(before, p, k0));
        assert(capacity(after, a, b) == pushed_capacity(before, p, 0, amount, a, b));
        assert(steps_after(p, 0, b, a));
        let k = choose|k: int| 0 < k < p.len() && #[trigger] is_step(p, k, b, a);
        lemma_distance_along(before, n, p, source, sink, k - 1);
        lemma_distance_along(before, n, p, source, sink, k);
    }
}

/// No path from `source` after a phase is shorter than the distance before it.
proof fn lemma_levels_after(
    before: Map<(i32, i32), i32>,
    after: Map<(i32, i32), i32>,
    n: int,
    source: int,
    sink: int,
    p: Seq<int>,
    amount: int,
    q: Seq<int>,
    x: int,
)
    requires
        is_phase_along(before, after, n, source, sink, p, amount),
        is_path(after, n, q, source, x),
    ensures
        reachable(before, n, source, x),
        distance(before, n, source, x) <= q.len(),
    decreases q.len(),
{
    if q.len() == 1 {
        lemma_reaches_itself(before, n, source);
        assert(is_path(before, n, seq![source], source, source));
        lemma_distance(before, n, source, source, seq![source]);
    } else {
        let q1 = q.drop_last();
        let y = q1[q1.len() - 1];
        assert forall|i: int| 0 < i < q1.len() implies #[trigger] positive_step(after, q1, i) by {
            assert(positive_step(after, q, i));
        }
        assert forall|i: int| 0 <= i < q1.len() implies 0 <= #[trigger] q1[i] < n by {
            assert(0 <= q[i] < n);
        }
        assert(is_path(after, n, q1, source, y));
        lemma_levels_after(before, after, n, source, sink, p, amount, q1, y);
        assert(positive_step(after, q, q.len() - 1));
        assert(0 <= q[q.len() - 1] < n);
        assert(0 <= q1[q1.len() - 1] < n);
        lemma_step_after(before, after, n, source, sink, p, amount, y, x);
    }
}

/// On a path from `source` to `sink` after a phase that is no longer than
/// the path of the phase, the distance before the phase goes up by one with
/// each node.
proof fn lemma_tight(
    before: Map<(i32, i32), i32>,
    after: Map<(i32, i32), i32>,
    n: int,
    source: int,
    sink: int,
    p: Seq<int>,
    amount: int,
    q: Seq<int>,
    i: int,
)
    requires
        is_phase_along(before, after, n, source, sink, p, amount),
        is_path(after, n, q, source, sink),
        q.len() == p.len(),
        0 <= i < q.len(),
    ensures
        reachable(before, n, source, q[i]),
        distance(before, n, source, q[i]) == i + 1,
    decreases q.len() - i,
{
    let head = q.subrange(0, i + 1);
    assert forall|j: int| 0 < j < head.len() implies #[trigger] positive_step(after, head, j) by {
        assert(positive_step(after, q, j));
    }
    assert forall|j: int| 0 <= j < head.len() implies 0 <= #[trigger] head[j] < n by {
        assert(0 <= q[j] < n);
    }
    assert(is_path(after, n, head, source, q[i]));
    lemma_levels_after(before, after, n, source, sink, p, amount, head, q[i]);
    if i == q.len() - 1 {
        lemma_distance_of_shortest(before, n, p, source, sink);
    } else {
        lemma_tight(before, after, n, source, sink, p, amount, q, i + 1);
        assert(positive_step(after, q, i + 1));
        assert(0 <= q[i] < n);
        assert(0 <= q[i + 1] < n);
        lemma_step_after(before, after, n, source, sink, p, amount, q[i], q[i + 1]);
    }
}

/// A path from `source` to `sink` after a phase that is no longer than the
/// path of the phase was a shortest path before the phase.
proof fn lemma_same_length(
    before: Map<(i32, i32), i32>,
    after: Map<(i32, i32), i32>,
    n: int,
    source: int,
    sink: int,
    p: Seq<int>,
    amount: int,
    q: Seq<int>,
)
    requires
        is_phase_along(before, after, n, source, sink, p, amount),
        is_path(after, n, q, source, sink),
        q.len() == p.len(),
    ensures
        is_shortest_path(before, n, q, source, sink),
{
    assert forall|i: int| 0 < i < q.len() implies #[trigger] positive_step(before, q, i) by {
        lemma_tight(before, after, n, source, sink, p, amount, q, i - 1);
        lemma_tight(before, after, n, source, sink, p, amount, q, i);
        assert(positive_step(after, q, i));
        assert(0 <= q[i - 1] < n);
        assert(0 <= q[i] < n);
        lemma_step_after(before, after, n, source, sink, p, amount, q[i - 1], q[i]);
    }
    assert(is_path(before, n, q, source, sink));
    assert forall|r: Seq<int>| #[trigger] is_path(before, n, r, source, sink) implies q.len()
        <= r.len() by {
        assert(p.len() <= r.len());
    }
}

/// The pairs on shortest paths are joined pairs.
proof fn lemma_shortest_marks_bounds(weights: Map<(i32, i32), i32>, n: int, source: int, sink: int)
    ensures
        0 <= grid_sum(shortest_marks(weights, n, source, sink), n, n) <= joined_pairs(weights, n),
{
    let sm = shortest_marks(weights, n, source, sink);
    let jm = joined_marks(weights);
    let zero = |a: int, b: int| 0int;
    assert forall|a: int, b: int| 0 <= a < n && 0 <= b < n implies #[trigger] sm(a, b) <= jm(
        a,
        b,
    ) by {
        if on_shortest(weights, n, source, sink, a, b) {
            let q = choose|q: Seq<int>| #[trigger]
                is_shortest_path(weights, n, q, source, sink) && steps_after(q, 0, a, b);
            let k = choose|k: int| 0 < k < q.len() && #[trigger] is_step(q, k, a, b);
            assert(positive_step(weights, q, k));
        }
    }
    lemma_grid_le(sm, jm, n, n);
    assert forall|a: int, b: int| 0 <= a < n && 0 <= b < n implies #[trigger] zero(a, b) <= sm(
        a,
        b,
    ) by {}
    lemma_grid_le(zero, sm, n, n);
    assert forall|a: int, b: int| 0 <= a < n && 0 <= b < n implies #[trigger] zero(a, b) + zero(
        b,
        a,
    ) == 0 by {}
    crate::sums::lemma_grid_antisymmetric(zero, n);
}

/// A phase that leaves the distance from `source` to `sink` as it is takes
/// a pair off the shortest paths and adds none.
proof fn lemma_fewer_marks(
    before: Map<(i32, i32), i32>,
    after: Map<(i32, i32), i32>,
    n: int,
    source: int,
    sink: int,
    p: Seq<int>,
    amount: int,
    p1: Seq<int>,
)
    requires
        is_phase_along(before, after, n, source, sink, p, amount),
        is_shortest_path(after, n, p1, source, sink),
        p1.len() == p.len(),
    ensures
        grid_sum(shortest_marks(after, n, source, sink), n, n) < grid_sum(
            shortest_marks(before, n, source, sink),
            n,
            n,
        ),
{
    let ma = shortest_marks(after, n, source, sink);
    let mb = shortest_marks(before, n, source, sink);
    assert forall|a: int, b: int| 0 <= a < n && 0 <= b < n implies #[trigger] ma(a, b) <= mb(
        a,
        b,
    ) by {
        if on_shortest(after, n, source, sink, a, b) {
            let q = choose|q: Seq<int>| #[trigger]
                is_shortest_path(after, n, q, source, sink) && steps_after(q, 0, a, b);
            assert(q.len() <= p1.len());
            assert(p1.len() <= q.len());
            lemma_same_length(before, after, n, source, sink, p, amount, q);
            assert(on_shortest(before, n, source, sink, a, b));
        }
    }
    let k = choose|k: int| 0 < k < p.len() && amount == #[trigger] step_capacity(before, p, k);
    let a = p[k - 1];
    let b = p[k];
    assert(0 <= p[k - 1] < n);
    assert(0 <= p[k] < n);
    assert(is_step(p, k, a, b));
    assert(steps_after(p, 0, a, b));
    assert(on_shortest(before, n, source, sink, a, b));
    assert(!steps_after(p, 0, b, a)) by {
        if steps_after(p, 0, b, a) {
            let j = choose|j: int| 0 < j < p.len() && #[trigger] is_step(p, j, b, a);
            assert(p[j - 1] == p[k]);
            assert(p[j] == p[k - 1]);
        }
    }
    assert(capacity(after, a, b) == pushed_capacity(before, p, 0, amount, a, b));
    assert(capacity(after, a, b) == 0);
    assert(!on_shortest(after, n, source, sink, a, b)) by {
        if on_shortest(after, n, source, sink, a, b) {
            let q = choose|q: Seq<int>| #[trigger]
                is_shortest_path(after, n, q, source, sink) && steps_after(q, 0, a, b);
            let j = choose|j: int| 0 < j < q.len() && #[trigger] is_step(q, j, a, b);
            assert(positive_step(after, q, j));
        }
    }
    lemma_grid_less(ma, mb, n, a, b);
}

/// The path of a phase has at least two nodes and at most as many as there are.
proof fn lemma_path_length(
    before: Map<(i32, i32), i32>,
    after: Map<(i32, i32), i32>,
    n: int,
    source: int,
    sink: int,
    p: Seq<int>,
    amount: int,
)
    requires
        is_phase_along(before, after, n, source, sink, p, amount),
    ensures
        2 <= p.len() <= n,
        distance(before, n, source, sink) == p.len(),
{
    assert(0 <= p[0] < n);
    assert forall|i: int, j: int| 0 <= i < j < p.len() implies #[trigger] p[i] != #[trigger] p[j] by {}
    lemma_distinct_bounded(p, n);
    lemma_distance_of_shortest(before, n, p, source, sink);
}

/// Before a phase the potential is at least one, and at most the phase bound.
proof fn lemma_potential_bounds(
    before: Map<(i32, i32), i32>,
    after: Map<(i32, i32), i32>,
    n: int,
    source: int,
    sink: int,
)
    requires
        is_phase(before, after, n, source, sink),
    ensures
        1 <= potential(before, n, source, sink) <= phase_bound(before, n),
{
    let (p, amount) = choose|p: Seq<int>, amount: int| #[trigger]
        is_phase_along(before, after, n, source, sink, p, amount);
    lemma_path_length(before, after, n, source, sink, p, amount);
    lemma_shortest_marks_bounds(before, n, source, sink);
    let d = distance(before, n, source, sink);
    let r = joined_pairs(before, n);
    assert(1 * (r + 1) <= (n + 1 - d) * (r + 1) <= (n - 1) * (r + 1)) by (nonlinear_arith)
        requires
            2 <= d <= n,
            0 <= r,
    ;
    assert((n - 1) * (r + 1) + r <= n * (r + 1)) by (nonlinear_arith)
        requires
            0 <= r,
    ;
}

/// Each phase but the last of a run takes at least one from the potential.
proof fn lemma_potential_decreases(
    first: Map<(i32, i32), i32>,
    second: Map<(i32, i32), i32>,
    third: Map<(i32, i32), i32>,
    n: int,
    source: int,
    sink: int,
)
    requires
        nonnegative(first, n),
        is_phase(first, second, n, source, sink),
        is_phase(second, third, n, source, sink),
    ensures
        potential(second, n, source, sink) < potential(first, n, source, sink),
{
    let (p, amount) = choose|p: Seq<int>, amount: int| #[trigger]
        is_phase_along(first, second, n, source, sink, p, amount);
    let (p1, amount1) = choose|p: Seq<int>, amount: int| #[trigger]
        is_phase_along(second, third, n, source, sink, p, amount);
    lemma_phase_keeps(first, second, n, source, sink, p, amount);
    lemma_path_length(first, second, n, source, sink, p, amount);
    lemma_path_length(second, third, n, source, sink, p1, amount1);
    lemma_levels_after(first, second, n, source, sink, p, amount, p1, sink);
    lemma_shortest_marks_bounds(first, n, source, sink);
    lemma_shortest_marks_bounds(second, n, source, sink);
    let r = joined_pairs(first, n);
    let d0 = p.len() as int;
    let d1 = p1.len() as int;
    if d1 == d0 {
        lemma_fewer_marks(first, second, n, source, sink, p, amount, p1);
    } else {
        assert((n + 1 - d1) * (r + 1) + r < (n + 1 - d0) * (r + 1)) by (nonlinear_arith)
            requires
                d0 < d1,
                0 <= r,
        ;
    }
}

/// Every graph of a run that starts without a negative capacity is without one.
proof fn lemma_run_nonnegative(
    run: Seq<Map<(i32, i32), i32>>,
    n: int,
    source: int,
    sink: int,
    i: int,
)
    requires
        is_run(run, n, source, sink),
        nonnegative(run[0], n),
        0 <= i < run.len(),
    ensures
        nonnegative(run[i], n),
    decreases i,
{
    if i > 0 {
        lemma_run_nonnegative(run, n, source, sink, i - 1);
        assert(phase_at(run, i, n, source, sink));
        let (p, amount) = choose|p: Seq<int>, amount: int| #[trigger]
            is_phase_along(run[i - 1], run[i], n, source, sink, p, amount);
        lemma_phase_keeps(run[i - 1], run[i], n, source, sink, p, amount);
    }
}

/// The potential of a graph of a run is at least the number of phases that follow.
proof fn lemma_run_potential(
    run: Seq<Map<(i32, i32), i32>>,
    n: int,
    source: int,
    sink: int,
    i: int,
)
    requires
        is_run(run, n, source, sink),
        nonnegative(run[0], n),
        0 <= i < run.len() - 1,
    ensures
        run.len() - 1 - i <= potential(run[i], n, source, sink),
    decreases run.len() - i,
{
    assert(phase_at(run, i + 1, n, source, sink));
    if i == run.len() - 2 {
        lemma_potential_bounds(run[i], run[i + 1], n, source, sink);
    } else {
        lemma_run_potential(run, n, source, sink, i + 1);
        assert(phase_at(run, i + 2, n, source, sink));
        lemma_run_nonnegative(run, n, source, sink, i);
        lemma_potential_decreases(run[i], run[i + 1], run[i + 2], n, source, sink);
    }
}

/// The bound on phases: a run that starts without a negative capacity has
/// at most as many phases as there are nodes, times one more than the number
/// of joined pairs, whatever the capacities are.
pub proof fn lemma_phase_bound(run: Seq<Map<(i32, i32), i32>>, n: int, source: int, sink: int)
    requires
        0 <= n,
        is_run(run, n, source, sink),
        nonnegative(run[0], n),
    ensures
        run.len() - 1 <= phase_bound(run[0], n),
{
    if run.len() == 1 {
        lemma_shortest_marks_bounds(run[0], n, source, sink);
        let r = joined_pairs(run[0], n);
        assert(0 <= n * (r + 1)) by (nonlinear_arith)
            requires
                0 <= n,
                0 <= r,
        ;
    } else {
        lemma_run_potential(run, n, source, sink, 0);
        assert(phase_at(run, 1, n, source, sink));
        lemma_potential_bounds(run[0], run[1], n, source, sink);
    }
}

} // verus!
