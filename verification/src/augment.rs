//! One augmentation, step by step: what holds while an amount is taken back
//! along a path, from its last node to its first.

use crate::duality::lemma_push;
use crate::network::{
    capacity, extends_edges, is_path, is_residual_of, joins_nodes, nonnegative, out_capacity,
    pairs_fit, positive_step, sent_value, step_capacity,
};
use crate::phases::{
    is_augmenting, is_grown, is_phase, is_phase_along, is_pushed, is_run, is_step,
    lemma_phase_keeps, lemma_push_step, lemma_steps_after, phase_at, pushed_capacity, steps_after,
};
use crate::search::marks_path;
use vstd::prelude::*;

verus! {

/// `amount` is the least capacity among the steps of `p` after position `at`,
/// and `limit` where there is no such step.
pub open spec fn is_least_after(
    weights: Map<(i32, i32), i32>,
    p: Seq<int>,
    at: int,
    amount: int,
    limit: int,
) -> bool {
    &&& forall|k: int| at < k < p.len() ==> amount <= #[trigger] step_capacity(weights, p, k)
    &&& (at >= p.len() - 1 && amount == limit) || (exists|k: int|
        at < k < p.len() && amount == #[trigger] step_capacity(weights, p, k))
}

/// `amount` has been sent over the steps of `p` after position `at`: `current`
/// is `residual` with those steps taken and their opposite edges added, and
/// the outgoing capacity of each node is what it was, but that the node at
/// position `at` has lost `amount` and `sink` has gained it.
pub open spec fn is_sending(
    residual: Map<(i32, i32), i32>,
    current: Map<(i32, i32), i32>,
    n: int,
    p: Seq<int>,
    at: int,
    amount: int,
    sink: int,
) -> bool {
    &&& is_pushed(residual, current, n, p, at, amount)
    &&& is_grown(residual, current, p, at)
    &&& forall|x: int|
        0 <= x < n ==> #[trigger] out_capacity(current, n, x) == out_capacity(residual, n, x) - (
        if x == p[at] {
            amount
        } else {
            0
        }) + (if x == sink {
            amount
        } else {
            0
        })
}

/// Walking back: the node at position `at` of a recorded path has no parent
/// exactly at the start of the path, and else the node before it.
pub proof fn lemma_walk_back(
    weights: Map<(i32, i32), i32>,
    n: int,
    parent: Seq<Option<i32>>,
    p: Seq<int>,
    source: int,
    sink: int,
    at: int,
)
    requires
        is_path(weights, n, p, source, sink),
        marks_path(parent, p),
        0 <= at < p.len(),
    ensures
        parent[p[at]] is None <==> at == 0,
        at > 0 ==> parent[p[at]] == Some(p[at - 1] as i32) && (p[at - 1] as i32) as int == p[at - 1]
            && 0 <= p[at - 1] < n && step_capacity(weights, p, at) > 0,
{
    if at > 0 {
        assert(positive_step(weights, p, at));
        assert(parent[p[at]] == Some(p[at - 1] as i32));
        assert(0 <= p[at - 1] < n);
    }
}

/// With one more step looked at, the least capacity is the lesser of what it
/// was and the capacity of that step.
pub proof fn lemma_least_step(
    weights: Map<(i32, i32), i32>,
    p: Seq<int>,
    at: int,
    amount: int,
    limit: int,
)
    requires
        0 < at < p.len(),
        is_least_after(weights, p, at, amount, limit),
        step_capacity(weights, p, at) <= limit,
    ensures
        is_least_after(
            weights,
            p,
            at - 1,
            if step_capacity(weights, p, at) < amount {
                step_capacity(weights, p, at)
            } else {
                amount
            },
            limit,
        ),
{
    let next = if step_capacity(weights, p, at) < amount {
        step_capacity(weights, p, at)
    } else {
        amount
    };
    if !(step_capacity(weights, p, at) < amount) && !(at >= p.len() - 1 && amount == limit) {
        let k = choose|k: int| at < k < p.len() && amount == #[trigger] step_capacity(weights, p, k);
        assert(at - 1 < k < p.len() && next == step_capacity(weights, p, k));
    } else {
        assert(at - 1 < at < p.len() && next == step_capacity(weights, p, at));
    }
}

/// Before anything is sent, nothing has changed.
pub proof fn lemma_sending_starts(
    residual: Map<(i32, i32), i32>,
    n: int,
    p: Seq<int>,
    amount: int,
    sink: int,
)
    requires
        p.len() >= 1,
        p[p.len() - 1] == sink,
    ensures
        is_sending(residual, residual, n, p, p.len() - 1, amount, sink),
{
}

/// There is room for the next step: the pair that leads to position `at` is
/// untouched so far and has at least `amount` to give, and the opposite pair
/// is untouched and can take it.
pub proof fn lemma_sending_room(
    residual: Map<(i32, i32), i32>,
    current: Map<(i32, i32), i32>,
    n: int,
    source: int,
    sink: int,
    p: Seq<int>,
    at: int,
    amount: int,
)
    requires
        nonnegative(residual, n),
        pairs_fit(residual, n),
        is_augmenting(residual, n, source, sink, p, amount),
        is_pushed(residual, current, n, p, at, amount),
        0 < at < p.len(),
    ensures
        1 <= amount,
        p[at - 1] != p[at],
        capacity(current, p[at - 1], p[at]) == capacity(residual, p[at - 1], p[at]),
        capacity(current, p[at], p[at - 1]) == capacity(residual, p[at], p[at - 1]),
        amount <= capacity(current, p[at - 1], p[at]),
        0 <= capacity(current, p[at], p[at - 1]),
        capacity(current, p[at], p[at - 1]) + amount <= i32::MAX,
{
    let u = p[at - 1];
    let v = p[at];
    assert(0 <= p[at - 1] < n && 0 <= p[at] < n);
    let k0 = choose|k: int| 0 < k < p.len() && amount == #[trigger] step_capacity(residual, p, k);
    assert(positive_step(residual, p, k0));
    assert(amount <= step_capacity(residual, p, at));
    assert(!steps_after(p, at, u, v)) by {
        if steps_after(p, at, u, v) {
            let k = choose|k: int| at < k < p.len() && #[trigger] is_step(p, k, u, v);
            assert(p[k] == p[at]);
        }
    }
    assert(!steps_after(p, at, v, u)) by {
        if steps_after(p, at, v, u) {
            let k = choose|k: int| at < k < p.len() && #[trigger] is_step(p, k, v, u);
            assert(p[k] == p[at - 1]);
        }
    }
    assert(capacity(current, u, v) == pushed_capacity(residual, p, at, amount, u, v));
    assert(capacity(current, v, u) == pushed_capacity(residual, p, at, amount, v, u));
    assert(0 <= capacity(residual, v, u));
    assert(capacity(residual, u, v) + capacity(residual, v, u) <= i32::MAX);
}

/// One step further: where `after` differs from `before` in that the pair
/// that leads to position `at` has lost `amount` and the opposite pair has
/// gained it, the amount has been sent over one more step.
pub proof fn lemma_sending_step(
    residual: Map<(i32, i32), i32>,
    before: Map<(i32, i32), i32>,
    after: Map<(i32, i32), i32>,
    n: int,
    p: Seq<int>,
    at: int,
    amount: int,
    sink: int,
)
    requires
        p.no_duplicates(),
        0 < at < p.len(),
        0 <= p[at - 1] < n,
        0 <= p[at] < n,
        is_sending(residual, before, n, p, at, amount, sink),
        capacity(after, p[at - 1], p[at]) == capacity(before, p[at - 1], p[at]) - amount,
        capacity(after, p[at], p[at - 1]) == capacity(before, p[at], p[at - 1]) + amount,
        forall|a: int, b: int|
            0 <= a < n && 0 <= b < n && !(a == p[at - 1] && b == p[at]) && !(a == p[at] && b == p[at
                - 1]) ==> #[trigger] capacity(after, a, b) == capacity(before, a, b),
        forall|c: i32, d: i32| #[trigger]
            after.contains_key((c, d)) <==> before.contains_key((c, d)) || (c == p[at] && d == p[at
                - 1]),
    ensures
        is_sending(residual, after, n, p, at - 1, amount, sink),
{
    lemma_push_step(residual, before, after, n, p, at, amount);
    assert forall|c: i32, d: i32| #[trigger]
        after.contains_key((c, d)) <==> residual.contains_key((c, d)) || steps_after(
            p,
            at - 1,
            d as int,
            c as int,
        ) by {
        lemma_steps_after(p, at, d as int, c as int);
        assert(before.contains_key((c, d)) <==> residual.contains_key((c, d)) || steps_after(
            p,
            at,
            d as int,
            c as int,
        ));
    }
    lemma_push(before, after, n, p[at - 1], p[at], amount);
    assert forall|x: int| 0 <= x < n implies #[trigger] out_capacity(after, n, x) == out_capacity(
        residual,
        n,
        x,
    ) - (if x == p[at - 1] {
        amount
    } else {
        0
    }) + (if x == sink {
        amount
    } else {
        0
    }) by {
        assert(out_capacity(before, n, x) == out_capacity(residual, n, x) - (if x == p[at] {
            amount
        } else {
            0
        }) + (if x == sink {
            amount
        } else {
            0
        }));
    }
}

/// An edge that is added opposite to an edge of the graph keeps the graph an
/// extension of the original.
pub proof fn lemma_extends_step(
    original: Map<(i32, i32), i32>,
    before: Map<(i32, i32), i32>,
    after: Map<(i32, i32), i32>,
    a: i32,
    b: i32,
)
    requires
        extends_edges(original, before),
        before.contains_key((a, b)),
        forall|c: i32, d: i32| #[trigger]
            after.contains_key((c, d)) <==> before.contains_key((c, d)) || (c == b && d == a),
    ensures
        extends_edges(original, after),
{
    assert forall|c: i32, d: i32| #[trigger] after.contains_key((c, d)) implies original.contains_key(
        (c, d),
    ) || original.contains_key((d, c)) by {
        if !before.contains_key((c, d)) {
            assert(original.contains_key((a, b)) || original.contains_key((b, a)));
            assert(!original.contains_key((b, a)));
        }
    }
}

/// A graph that extends a graph whose edges join nodes has edges that join nodes.
pub proof fn lemma_extension_joins_nodes(
    original: Map<(i32, i32), i32>,
    residual: Map<(i32, i32), i32>,
    n: int,
)
    requires
        joins_nodes(original, n),
        extends_edges(original, residual),
    ensures
        joins_nodes(residual, n),
{
    assert forall|a: i32, b: i32| #[trigger] residual.contains_key((a, b)) implies 0 <= a < n && 0
        <= b < n by {
        if !original.contains_key((a, b)) {
            assert(original.contains_key((b, a)));
        }
    }
}

/// With the whole path done, a phase is complete: the graph is a residual
/// graph of the original, and what has been sent has grown by `amount`.
pub proof fn lemma_sending_done(
    original: Map<(i32, i32), i32>,
    residual: Map<(i32, i32), i32>,
    after: Map<(i32, i32), i32>,
    n: int,
    source: int,
    sink: int,
    p: Seq<int>,
    amount: int,
)
    requires
        0 <= source < n,
        is_residual_of(original, residual, n, source, sink),
        is_augmenting(residual, n, source, sink, p, amount),
        is_sending(residual, after, n, p, 0, amount, sink),
    ensures
        is_phase_along(residual, after, n, source, sink, p, amount),
        is_residual_of(original, after, n, source, sink),
        sent_value(original, after, n, source) == sent_value(original, residual, n, source)
            + amount,
        1 <= amount,
{
    lemma_phase_keeps(residual, after, n, source, sink, p, amount);
    assert forall|a: int, b: int| 0 <= a < n && 0 <= b < n implies #[trigger] capacity(after, a, b)
        + capacity(after, b, a) == capacity(original, a, b) + capacity(original, b, a) by {
        assert(capacity(residual, a, b) + capacity(residual, b, a) == capacity(original, a, b)
            + capacity(original, b, a));
    }
    assert forall|x: int| 0 <= x < n && x != source && x != sink implies #[trigger] out_capacity(
        after,
        n,
        x,
    ) == out_capacity(original, n, x) by {
        assert(out_capacity(residual, n, x) == out_capacity(original, n, x));
    }
    assert(out_capacity(after, n, source) == out_capacity(residual, n, source) - amount);
}

/// A residual graph of a graph whose opposite capacities fit in `i32`
/// together has opposite capacities that do.
pub proof fn lemma_residual_fits(
    original: Map<(i32, i32), i32>,
    residual: Map<(i32, i32), i32>,
    n: int,
    source: int,
    sink: int,
)
    requires
        pairs_fit(original, n),
        is_residual_of(original, residual, n, source, sink),
    ensures
        pairs_fit(residual, n),
{
    assert forall|u: int, v: int| 0 <= u < n && 0 <= v < n implies #[trigger] capacity(residual, u, v)
        + capacity(residual, v, u) <= i32::MAX by {
        assert(capacity(original, u, v) + capacity(original, v, u) <= i32::MAX);
    }
}

/// A run with one more phase is a run.
pub proof fn lemma_longer_run(
    run: Seq<Map<(i32, i32), i32>>,
    after: Map<(i32, i32), i32>,
    n: int,
    source: int,
    sink: int,
)
    requires
        is_run(run, n, source, sink),
        is_phase(run[run.len() - 1], after, n, source, sink),
    ensures
        is_run(run.push(after), n, source, sink),
{
    let longer = run.push(after);
    assert forall|i: int| 0 < i < longer.len() implies #[trigger] phase_at(
        longer,
        i,
        n,
        source,
        sink,
    ) by {
        if i < run.len() {
            assert(phase_at(run, i, n, source, sink));
        }
    }
}

} // verus!
