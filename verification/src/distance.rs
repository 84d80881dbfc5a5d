//! Distances: the number of nodes of a shortest path between two nodes.

use crate::network::{capacity, is_path, positive_step, reachable};
use crate::search::is_shortest_path;
use vstd::prelude::*;

verus! {

/// `len` is the number of nodes of a shortest path from `from` to `to`.
pub open spec fn is_distance(
    weights: Map<(i32, i32), i32>,
    n: int,
    from: int,
    to: int,
    len: int,
) -> bool {
    &&& exists|q: Seq<int>| #[trigger] is_path(weights, n, q, from, to) && q.len() == len
    &&& forall|q: Seq<int>| #[trigger] is_path(weights, n, q, from, to) ==> len <= q.len()
}

/// The number of nodes of a shortest path from `from` to `to`, where `to` can
/// be reached from `from`.
pub open spec fn distance(weights: Map<(i32, i32), i32>, n: int, from: int, to: int) -> int {
    choose|len: int| is_distance(weights, n, from, to, len)
}

proof fn lemma_least_length(
    weights: Map<(i32, i32), i32>,
    n: int,
    from: int,
    to: int,
    q: Seq<int>,
)
    requires
        is_path(weights, n, q, from, to),
    ensures
        exists|len: int| is_distance(weights, n, from, to, len),
    decreases q.len(),
{
    if exists|q2: Seq<int>| #[trigger] is_path(weights, n, q2, from, to) && q2.len() < q.len() {
        let q2 = choose|q2: Seq<int>| #[trigger]
            is_path(weights, n, q2, from, to) && q2.len() < q.len();
        lemma_least_length(weights, n, from, to, q2);
    } else {
        assert(is_distance(weights, n, from, to, q.len() as int));
    }
}

/// Where there is a path, there is a distance, and no path is shorter.
pub proof fn lemma_distance(
    weights: Map<(i32, i32), i32>,
    n: int,
    from: int,
    to: int,
    q: Seq<int>,
)
    requires
        is_path(weights, n, q, from, to),
    ensures
        is_distance(weights, n, from, to, distance(weights, n, from, to)),
        1 <= distance(weights, n, from, to) <= q.len(),
{
    lemma_least_length(weights, n, from, to, q);
    let d = distance(weights, n, from, to);
    let w = choose|w: Seq<int>| #[trigger] is_path(weights, n, w, from, to) && w.len() == d;
    assert(w.len() >= 1);
}

/// The distance is the number of nodes of any shortest path.
pub proof fn lemma_distance_of_shortest(
    weights: Map<(i32, i32), i32>,
    n: int,
    p: Seq<int>,
    from: int,
    to: int,
)
    requires
        is_shortest_path(weights, n, p, from, to),
    ensures
        distance(weights, n, from, to) == p.len(),
{
    lemma_distance(weights, n, from, to, p);
    let d = distance(weights, n, from, to);
    let w = choose|w: Seq<int>| #[trigger] is_path(weights, n, w, from, to) && w.len() == d;
    assert(p.len() <= w.len());
}

/// A pair of positive capacity takes the distance up by at most one.
pub proof fn lemma_distance_step(
    weights: Map<(i32, i32), i32>,
    n: int,
    from: int,
    a: int,
    b: int,
)
    requires
        reachable(weights, n, from, a),
        0 <= b < n,
        capacity(weights, a, b) > 0,
    ensures
        reachable(weights, n, from, b),
        distance(weights, n, from, b) <= distance(weights, n, from, a) + 1,
{
    let q0 = choose|q: Seq<int>| is_path(weights, n, q, from, a);
    lemma_distance(weights, n, from, a, q0);
    let d = distance(weights, n, from, a);
    let q = choose|q: Seq<int>| #[trigger] is_path(weights, n, q, from, a) && q.len() == d;
    let r = q.push(b);
    assert forall|i: int| 0 < i < r.len() implies #[trigger] positive_step(weights, r, i) by {
        if i < q.len() {
            assert(positive_step(weights, q, i));
        }
    }
    assert(is_path(weights, n, r, from, b));
    lemma_distance(weights, n, from, b, r);
}

/// Along a shortest path the distance from its start goes up by one with
/// each node.
pub proof fn lemma_distance_along(
    weights: Map<(i32, i32), i32>,
    n: int,
    p: Seq<int>,
    from: int,
    to: int,
    k: int,
)
    requires
        is_shortest_path(weights, n, p, from, to),
        0 <= k < p.len(),
    ensures
        reachable(weights, n, from, p[k]),
        distance(weights, n, from, p[k]) == k + 1,
{
    let head = p.subrange(0, k + 1);
    assert forall|i: int| 0 < i < head.len() implies #[trigger] positive_step(weights, head, i) by {
        assert(positive_step(weights, p, i));
    }
    assert forall|i: int| 0 <= i < head.len() implies 0 <= #[trigger] head[i] < n by {
        assert(0 <= p[i] < n);
    }
    assert(is_path(weights, n, head, from, p[k]));
    lemma_distance(weights, n, from, p[k], head);
    let d = distance(weights, n, from, p[k]);
    if d < k + 1 {
        let q = choose|q: Seq<int>| #[trigger] is_path(weights, n, q, from, p[k]) && q.len() == d;
        let tail = p.subrange(k + 1, p.len() as int);
        let r = q + tail;
        assert forall|i: int| 0 <= i < r.len() implies 0 <= #[trigger] r[i] < n by {
            if i < d {
                assert(0 <= q[i] < n);
            } else {
                assert(0 <= p[k + 1 + (i - d)] < n);
            }
        }
        assert forall|i: int| 0 < i < r.len() implies #[trigger] positive_step(weights, r, i) by {
            if i < d {
                assert(positive_step(weights, q, i));
            } else {
                assert(positive_step(weights, p, k + 1 + (i - d)));
            }
        }
        assert(is_path(weights, n, r, from, to));
        assert(p.len() <= r.len());
    }
}

} // verus!
