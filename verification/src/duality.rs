//! Flows against cuts: no flow exceeds a cut, and a residual graph without an
//! augmenting path records a flow that fills one.

use crate::network::{
    augmentable, capacities, capacity, crossing, cut_capacity, flow_value, is_flow, is_path,
    is_residual_of, nonnegative, out_capacity, positive_step, reachable, reachable_set, sent, sent_value,
    separates, used_flow,
};
use crate::sums::{
    col, grid_sum, lemma_grid_add, lemma_grid_antisymmetric, lemma_grid_ext, lemma_grid_le,
    lemma_sum_add, lemma_sum_differs_at, lemma_sum_ext, lemma_sum_single, lemma_sum_zero, row,
    row_sums, sum_to,
};
use vstd::prelude::*;

verus! {

/// What `f` sends from `u` to `v` less what it sends back.
pub open spec fn net(f: spec_fn(int, int) -> int) -> spec_fn(int, int) -> int {
    |u: int, v: int| f(u, v) - f(v, u)
}

/// `sent` as a function of the pair alone.
pub open spec fn sent_amounts(
    original: Map<(i32, i32), i32>,
    residual: Map<(i32, i32), i32>,
) -> spec_fn(int, int) -> int {
    |u: int, v: int| sent(original, residual, u, v)
}

spec fn within(h: spec_fn(int, int) -> int, side: Set<int>) -> spec_fn(int, int) -> int {
    |u: int, v: int|
        if side.contains(u) && side.contains(v) {
            h(u, v)
        } else {
            0
        }
}

spec fn leaving(h: spec_fn(int, int) -> int, side: Set<int>) -> spec_fn(int, int) -> int {
    |u: int, v: int|
        if side.contains(u) {
            h(u, v)
        } else {
            0
        }
}

/// Let `h` cancel at mirrored pairs and let its rows sum to zero at every node
/// but `source` and `sink`. Then what crosses from a side that holds `source`
/// and not `sink` is the sum of row `source`. The same holds of any side that
/// holds `source` where `sink` is `source`.
pub proof fn lemma_cut_identity(
    h: spec_fn(int, int) -> int,
    n: int,
    source: int,
    sink: int,
    side: Set<int>,
)
    requires
        0 <= source < n,
        forall|u: int, v: int| 0 <= u < n && 0 <= v < n ==> #[trigger] h(u, v) + h(v, u) == 0,
        forall|x: int|
            0 <= x < n && x != source && x != sink ==> sum_to(#[trigger] row(h, x), n) == 0,
        side.contains(source),
        !side.contains(sink) || sink == source,
    ensures
        grid_sum(crossing(h, side), n, n) == sum_to(row(h, source), n),
{
    let inside = within(h, side);
    let out = leaving(h, side);
    let across = crossing(h, side);
    assert forall|u: int, v: int| 0 <= u < n && 0 <= v < n implies #[trigger] inside(u, v)
        + inside(v, u) == 0 by {
        assert(h(u, v) + h(v, u) == 0);
    }
    lemma_grid_antisymmetric(inside, n);
    assert forall|u: int, v: int| 0 <= u < n && 0 <= v < n implies #[trigger] out(u, v) == inside(
        u,
        v,
    ) + across(u, v) by {}
    lemma_grid_add(inside, across, out, n, n);
    assert forall|u: int| 0 <= u < n && u != source implies #[trigger] row_sums(out, n)(u) == 0 by {
        if side.contains(u) {
            assert forall|v: int| 0 <= v < n implies #[trigger] row(out, u)(v) == row(h, u)(v) by {}
            lemma_sum_ext(row(out, u), row(h, u), n);
        } else {
            assert forall|v: int| 0 <= v < n implies #[trigger] row(out, u)(v) == 0 by {}
            lemma_sum_zero(row(out, u), n);
        }
    }
    lemma_sum_single(row_sums(out, n), n, source);
    assert forall|v: int| 0 <= v < n implies #[trigger] row(out, source)(v) == row(h, source)(v) by {}
    lemma_sum_ext(row(out, source), row(h, source), n);
}

/// The rows of a flow's net amounts sum to what leaves a node less what enters it.
proof fn lemma_net_rows(f: spec_fn(int, int) -> int, n: int, x: int)
    ensures
        sum_to(row(net(f), x), n) == sum_to(row(f, x), n) - sum_to(col(f, x), n),
{
    assert forall|v: int| 0 <= v < n implies #[trigger] row(f, x)(v) == row(net(f), x)(v) + col(
        f,
        x,
    )(v) by {}
    lemma_sum_add(row(net(f), x), col(f, x), row(f, x), n);
}

/// Weak duality: the value of a flow is at most the capacity of any cut that
/// separates `source` from `sink`.
pub proof fn lemma_flow_below_cut(
    weights: Map<(i32, i32), i32>,
    n: int,
    source: int,
    sink: int,
    f: spec_fn(int, int) -> int,
    side: Set<int>,
)
    requires
        0 <= source < n,
        is_flow(weights, n, source, sink, f),
        separates(side, source, sink),
    ensures
        flow_value(f, n, source) <= cut_capacity(weights, n, side),
{
    let h = net(f);
    assert forall|x: int| 0 <= x < n && x != source && x != sink implies sum_to(
        #[trigger] row(h, x),
        n,
    ) == 0 by {
        lemma_net_rows(f, n, x);
        assert(sum_to(col(f, x), n) == sum_to(row(f, x), n));
    }
    lemma_net_rows(f, n, source);
    assert forall|u: int, v: int| 0 <= u < n && 0 <= v < n implies #[trigger] h(u, v) + h(v, u)
        == 0 by {}
    lemma_cut_identity(h, n, source, sink, side);
    let hx = crossing(h, side);
    let cx = crossing(capacities(weights), side);
    assert forall|u: int, v: int| 0 <= u < n && 0 <= v < n implies #[trigger] hx(u, v) <= cx(
        u,
        v,
    ) by {
        assert(f(u, v) <= capacity(weights, u, v));
        assert(f(v, u) <= capacity(weights, v, u));
    }
    lemma_grid_le(hx, cx, n, n);
}

/// Where `sink` is `source`, every flow has the value zero.
pub proof fn lemma_flow_to_itself(
    weights: Map<(i32, i32), i32>,
    n: int,
    source: int,
    f: spec_fn(int, int) -> int,
)
    requires
        0 <= source < n,
        is_flow(weights, n, source, source, f),
    ensures
        flow_value(f, n, source) == 0,
{
    let h = net(f);
    let all = Set::new(|v: int| 0 <= v < n);
    assert forall|x: int| 0 <= x < n && x != source implies sum_to(#[trigger] row(h, x), n)
        == 0 by {
        lemma_net_rows(f, n, x);
        assert(sum_to(col(f, x), n) == sum_to(row(f, x), n));
    }
    lemma_net_rows(f, n, source);
    assert forall|u: int, v: int| 0 <= u < n && 0 <= v < n implies #[trigger] h(u, v) + h(v, u)
        == 0 by {}
    lemma_cut_identity(h, n, source, source, all);
    let hx = crossing(h, all);
    let zero = |u: int, v: int| 0int;
    assert forall|u: int, v: int| 0 <= u < n && 0 <= v < n implies #[trigger] hx(u, v) == zero(
        u,
        v,
    ) by {}
    lemma_grid_ext(hx, zero, n, n);
    assert forall|u: int, v: int| 0 <= u < n && 0 <= v < n implies #[trigger] zero(u, v) + zero(
        v,
        u,
    ) == 0 by {}
    lemma_grid_antisymmetric(zero, n);
}

/// The rows of the sent amounts sum to the outgoing capacity that a node has lost.
proof fn lemma_sent_rows(
    original: Map<(i32, i32), i32>,
    residual: Map<(i32, i32), i32>,
    n: int,
    x: int,
)
    ensures
        sum_to(row(sent_amounts(original, residual), x), n) == out_capacity(original, n, x)
            - out_capacity(residual, n, x),
{
    let h = sent_amounts(original, residual);
    let co = capacities(original);
    let cr = capacities(residual);
    assert forall|v: int| 0 <= v < n implies #[trigger] row(co, x)(v) == row(h, x)(v) + row(cr, x)(
        v,
    ) by {}
    lemma_sum_add(row(h, x), row(cr, x), row(co, x), n);
}

/// The flow that a residual graph records is a flow on the original
/// capacities, and its value is the outgoing capacity that `source` has lost.
pub proof fn lemma_used_flow(
    original: Map<(i32, i32), i32>,
    residual: Map<(i32, i32), i32>,
    n: int,
    source: int,
    sink: int,
)
    requires
        nonnegative(original, n),
        is_residual_of(original, residual, n, source, sink),
    ensures
        is_flow(original, n, source, sink, used_flow(original, residual)),
        0 <= source < n ==> flow_value(used_flow(original, residual), n, source) == sent_value(
            original,
            residual,
            n,
            source,
        ),
{
    let f = used_flow(original, residual);
    let h = sent_amounts(original, residual);
    assert forall|u: int, v: int| 0 <= u < n && 0 <= v < n implies 0 <= f(u, v) && f(u, v)
        <= #[trigger] capacity(original, u, v) by {
        assert(0 <= capacity(residual, u, v));
    }
    assert forall|x: int| 0 <= x < n implies sum_to(#[trigger] row(f, x), n) - sum_to(col(f, x), n)
        == out_capacity(original, n, x) - out_capacity(residual, n, x) by {
        lemma_net_rows(f, n, x);
        lemma_sent_rows(original, residual, n, x);
        assert forall|v: int| 0 <= v < n implies #[trigger] row(net(f), x)(v) == row(h, x)(v) by {
            assert(capacity(residual, x, v) + capacity(residual, v, x) == capacity(original, x, v)
                + capacity(original, v, x));
        }
        lemma_sum_ext(row(net(f), x), row(h, x), n);
    }
    assert forall|x: int| 0 <= x < n && x != source && x != sink implies sum_to(
        #[trigger] col(f, x),
        n,
    ) == sum_to(row(f, x), n) by {
        assert(sum_to(row(f, x), n) - sum_to(col(f, x), n) == out_capacity(original, n, x)
            - out_capacity(residual, n, x));
        assert(out_capacity(residual, n, x) == out_capacity(original, n, x));
    }
    if 0 <= source < n {
        assert(sum_to(row(f, source), n) - sum_to(col(f, source), n) == out_capacity(
            original,
            n,
            source,
        ) - out_capacity(residual, n, source));
    }
}

/// A side that holds `source`, not `sink`, and every node that a pair of
/// positive residual capacity reaches from it, is a cut that the recorded flow
/// fills: its capacity is the flow's value.
pub proof fn lemma_saturated_cut(
    original: Map<(i32, i32), i32>,
    residual: Map<(i32, i32), i32>,
    n: int,
    source: int,
    sink: int,
    side: Set<int>,
)
    requires
        0 <= source < n,
        is_residual_of(original, residual, n, source, sink),
        side.contains(source),
        !side.contains(sink) || sink == source,
        forall|u: int, v: int|
            0 <= u < n && 0 <= v < n && side.contains(u) && #[trigger] capacity(residual, u, v) > 0
                ==> side.contains(v),
    ensures
        cut_capacity(original, n, side) == sent_value(original, residual, n, source),
{
    let h = sent_amounts(original, residual);
    assert forall|u: int, v: int| 0 <= u < n && 0 <= v < n implies #[trigger] h(u, v) + h(v, u)
        == 0 by {
        assert(capacity(residual, u, v) + capacity(residual, v, u) == capacity(original, u, v)
            + capacity(original, v, u));
    }
    assert forall|x: int| 0 <= x < n && x != source && x != sink implies sum_to(
        #[trigger] row(h, x),
        n,
    ) == 0 by {
        lemma_sent_rows(original, residual, n, x);
        assert(out_capacity(residual, n, x) == out_capacity(original, n, x));
    }
    lemma_sent_rows(original, residual, n, source);
    lemma_cut_identity(h, n, source, sink, side);
    let hx = crossing(h, side);
    let cx = crossing(capacities(original), side);
    assert forall|u: int, v: int| 0 <= u < n && 0 <= v < n implies #[trigger] hx(u, v) == cx(
        u,
        v,
    ) by {
        if side.contains(u) && !side.contains(v) {
            assert(0 <= capacity(residual, u, v));
        }
    }
    lemma_grid_ext(hx, cx, n, n);
}

/// A graph is a residual graph of itself, in which nothing has been sent.
pub proof fn lemma_nothing_sent(weights: Map<(i32, i32), i32>, n: int, source: int, sink: int)
    requires
        nonnegative(weights, n),
    ensures
        is_residual_of(weights, weights, n, source, sink),
        sent_value(weights, weights, n, source) == 0,
{
}

/// Sending `amount` over the pair `(u, v)`: where `after` differs from
/// `before` in that `(u, v)` has lost `amount` and `(v, u)` has gained it, the
/// outgoing capacity of `u` has lost `amount`, that of `v` has gained it, and
/// that of every other node is what it was.
pub proof fn lemma_push(
    before: Map<(i32, i32), i32>,
    after: Map<(i32, i32), i32>,
    n: int,
    u: int,
    v: int,
    amount: int,
)
    requires
        0 <= u < n,
        0 <= v < n,
        u != v,
        capacity(after, u, v) == capacity(before, u, v) - amount,
        capacity(after, v, u) == capacity(before, v, u) + amount,
        forall|a: int, b: int|
            0 <= a < n && 0 <= b < n && !(a == u && b == v) && !(a == v && b == u)
                ==> #[trigger] capacity(after, a, b) == capacity(before, a, b),
    ensures
        out_capacity(after, n, u) == out_capacity(before, n, u) - amount,
        out_capacity(after, n, v) == out_capacity(before, n, v) + amount,
        forall|x: int|
            0 <= x < n && x != u && x != v ==> #[trigger] out_capacity(after, n, x)
                == out_capacity(before, n, x),
{
    let cb = capacities(before);
    let ca = capacities(after);
    assert forall|b: int| 0 <= b < n && b != v implies #[trigger] row(cb, u)(b) == row(ca, u)(b) by {
        assert(capacity(after, u, b) == capacity(before, u, b));
    }
    lemma_sum_differs_at(row(cb, u), row(ca, u), n, v);
    assert forall|b: int| 0 <= b < n && b != u implies #[trigger] row(cb, v)(b) == row(ca, v)(b) by {
        assert(capacity(after, v, b) == capacity(before, v, b));
    }
    lemma_sum_differs_at(row(cb, v), row(ca, v), n, u);
    assert forall|x: int| 0 <= x < n && x != u && x != v implies #[trigger] out_capacity(
        after,
        n,
        x,
    ) == out_capacity(before, n, x) by {
        assert forall|b: int| 0 <= b < n implies #[trigger] row(ca, x)(b) == row(cb, x)(b) by {
            assert(capacity(after, x, b) == capacity(before, x, b));
        }
        lemma_sum_ext(row(ca, x), row(cb, x), n);
    }
}

/// A node is reached from itself.
pub proof fn lemma_reaches_itself(weights: Map<(i32, i32), i32>, n: int, from: int)
    requires
        0 <= from < n,
    ensures
        reachable(weights, n, from, from),
{
    assert(is_path(weights, n, seq![from], from, from));
}

/// A path can be extended over a pair of positive capacity.
pub proof fn lemma_reaches_next(weights: Map<(i32, i32), i32>, n: int, from: int, u: int, v: int)
    requires
        reachable(weights, n, from, u),
        0 <= v < n,
        capacity(weights, u, v) > 0,
    ensures
        reachable(weights, n, from, v),
{
    let p = choose|p: Seq<int>| is_path(weights, n, p, from, u);
    let q = p.push(v);
    assert forall|i: int| 0 < i < q.len() implies #[trigger] positive_step(weights, q, i) by {
        if i < p.len() {
            assert(positive_step(weights, p, i));
        }
    }
    assert(is_path(weights, n, q, from, v));
}

/// Max-flow/min-cut: where a residual graph leaves no augmenting path, the
/// nodes still reachable from `source` form a cut whose capacity is the value
/// of the recorded flow, and no flow has a greater value.
pub proof fn lemma_max_flow_min_cut(
    original: Map<(i32, i32), i32>,
    residual: Map<(i32, i32), i32>,
    n: int,
    source: int,
    sink: int,
)
    requires
        0 <= source < n,
        0 <= sink < n,
        is_residual_of(original, residual, n, source, sink),
        !augmentable(residual, n, source, sink),
    ensures
        source != sink ==> separates(reachable_set(residual, n, source), source, sink),
        source != sink ==> cut_capacity(original, n, reachable_set(residual, n, source))
            == sent_value(original, residual, n, source),
        source == sink ==> sent_value(original, residual, n, source) == 0,
        forall|f: spec_fn(int, int) -> int| #[trigger]
            is_flow(original, n, source, sink, f) ==> flow_value(f, n, source) <= sent_value(
                original,
                residual,
                n,
                source,
            ),
{
    let side = reachable_set(residual, n, source);
    lemma_reaches_itself(residual, n, source);
    assert forall|u: int, v: int|
        0 <= u < n && 0 <= v < n && side.contains(u) && #[trigger] capacity(residual, u, v)
            > 0 implies side.contains(v) by {
        lemma_reaches_next(residual, n, source, u, v);
    }
    lemma_saturated_cut(original, residual, n, source, sink, side);
    if source == sink {
        let all = Set::new(|v: int| 0 <= v < n);
        lemma_saturated_cut(original, residual, n, source, sink, all);
        let cx = crossing(capacities(original), all);
        let zero = |u: int, v: int| 0int;
        assert forall|u: int, v: int| 0 <= u < n && 0 <= v < n implies #[trigger] cx(u, v) == zero(
            u,
            v,
        ) by {}
        lemma_grid_ext(cx, zero, n, n);
        assert forall|u: int, v: int| 0 <= u < n && 0 <= v < n implies #[trigger] zero(u, v)
            + zero(v, u) == 0 by {}
        lemma_grid_antisymmetric(zero, n);
    }
    assert forall|f: spec_fn(int, int) -> int| #[trigger]
        is_flow(original, n, source, sink, f) implies flow_value(f, n, source) <= sent_value(
        original,
        residual,
        n,
        source,
    ) by {
        if source == sink {
            lemma_flow_to_itself(original, n, source, f);
        } else {
            lemma_flow_below_cut(original, n, source, sink, f, side);
        }
    }
}

} // verus!
