//! What a breadth-first search knows while it runs, and why the path that it
//! hands back is a shortest one.

use crate::network::{capacity, is_path, positive_step};
use vstd::prelude::*;
use vstd::set_lib::{lemma_int_range, lemma_len_subset, set_int_range};

verus! {

/// `parent` records `p`: the first node of `p` has no parent, and every
/// later node has the node before it as its parent.
pub open spec fn marks_path(parent: Seq<Option<i32>>, p: Seq<int>) -> bool {
    &&& parent[p[0]] is None
    &&& forall|i: int| 0 < i < p.len() ==> #[trigger] parent[p[i]] == Some(p[i - 1] as i32)
}

/// `p` is a path from `from` to `to`, and no path from `from` to `to` has
/// fewer nodes.
pub open spec fn is_shortest_path(
    weights: Map<(i32, i32), i32>,
    n: int,
    p: Seq<int>,
    from: int,
    to: int,
) -> bool {
    &&& is_path(weights, n, p, from, to)
    &&& forall|q: Seq<int>| #[trigger] is_path(weights, n, q, from, to) ==> p.len() <= q.len()
}

/// What a successful search leaves behind: `p` is a shortest path from
/// `source` to `sink`, it visits no node twice, and `parent` records it.
pub open spec fn is_search_result(
    weights: Map<(i32, i32), i32>,
    n: int,
    parent: Seq<Option<i32>>,
    source: int,
    sink: int,
    p: Seq<int>,
) -> bool {
    &&& is_shortest_path(weights, n, p, source, sink)
    &&& p.no_duplicates()
    &&& marks_path(parent, p)
}

/// The nodes discovered so far, in the order of their discovery; for each
/// the position of the node that it was discovered from, and its distance
/// from the first.
pub struct Discovery {
    pub order: Seq<int>,
    pub via: Seq<int>,
    pub level: Seq<int>,
}

/// The node at position `i` was discovered from an earlier one, over a pair
/// of positive capacity, and `parent` says so.
pub open spec fn tree_edge(
    weights: Map<(i32, i32), i32>,
    parent: Seq<Option<i32>>,
    d: Discovery,
    i: int,
) -> bool {
    &&& 0 <= d.via[i] < i
    &&& parent[d.order[i]] == Some(d.order[d.via[i]] as i32)
    &&& d.level[i] == d.level[d.via[i]] + 1
    &&& capacity(weights, d.order[d.via[i]], d.order[i]) > 0
}

/// The state of a search from `source` in which the first `done` discovered
/// nodes have had all their neighbours looked at.
pub open spec fn consistent(
    weights: Map<(i32, i32), i32>,
    n: int,
    source: int,
    parent: Seq<Option<i32>>,
    visited: Seq<bool>,
    d: Discovery,
    done: int,
) -> bool {
    &&& parent.len() == n
    &&& visited.len() == n
    &&& d.order.len() >= 1
    &&& d.via.len() == d.order.len()
    &&& d.level.len() == d.order.len()
    &&& 0 <= done <= d.order.len()
    &&& d.order[0] == source
    &&& d.level[0] == 0
    &&& parent[source] is None
    &&& forall|i: int| 0 <= i < d.order.len() ==> 0 <= #[trigger] d.order[i] < n
    &&& forall|i: int, j: int|
        0 <= i < j < d.order.len() ==> #[trigger] d.order[i] != #[trigger] d.order[j]
    &&& forall|v: int| 0 <= v < n ==> (#[trigger] visited[v] <==> d.order.contains(v))
    &&& forall|i: int| 0 < i < d.order.len() ==> #[trigger] tree_edge(weights, parent, d, i)
    &&& forall|i: int, j: int|
        0 <= i <= j < d.level.len() ==> #[trigger] d.level[i] <= #[trigger] d.level[j]
    &&& done < d.order.len() ==> forall|j: int|
        0 <= j < d.level.len() ==> #[trigger] d.level[j] <= d.level[done] + 1
    &&& forall|i: int, v: int|
        0 <= i < done && 0 <= v < n && #[trigger] capacity(weights, d.order[i], v) > 0
            ==> visited[v]
    &&& forall|i: int, j: int|
        0 <= i < done && 0 <= j < d.order.len() && #[trigger] capacity(
            weights,
            d.order[i],
            d.order[j],
        ) > 0 ==> d.level[j] <= d.level[i] + 1
}

/// The state at the start: `source` alone is discovered.
pub open spec fn start(source: int) -> Discovery {
    Discovery { order: seq![source], via: seq![0int], level: seq![0int] }
}

/// The state after `v` was discovered from the node at position `from`.
pub open spec fn discover(d: Discovery, v: int, from: int) -> Discovery {
    Discovery {
        order: d.order.push(v),
        via: d.via.push(from),
        level: d.level.push(d.level[from] + 1),
    }
}

/// The path along which the node at position `i` was discovered.
pub open spec fn route(d: Discovery, i: int) -> Seq<int>
    decreases i,
{
    if i > 0 && 0 <= d.via[i] < i {
        route(d, d.via[i]).push(d.order[i])
    } else {
        seq![d.order[0]]
    }
}

/// Distinct integers from `0..n` are at most `n` in number.
pub proof fn lemma_distinct_bounded(s: Seq<int>, n: int)
    requires
        0 <= n,
        forall|i: int| 0 <= i < s.len() ==> 0 <= #[trigger] s[i] < n,
        forall|i: int, j: int| 0 <= i < j < s.len() ==> #[trigger] s[i] != #[trigger] s[j],
    ensures
        s.len() <= n,
{
    assert(s.no_duplicates());
    s.unique_seq_to_set();
    lemma_int_range(0, n);
    assert(s.to_set().subset_of(set_int_range(0, n)));
    lemma_len_subset(s.to_set(), set_int_range(0, n));
}

/// The state at the start is consistent.
pub proof fn lemma_start(
    weights: Map<(i32, i32), i32>,
    n: int,
    source: int,
    parent: Seq<Option<i32>>,
    visited: Seq<bool>,
)
    requires
        0 <= source < n,
        parent.len() == n,
        visited.len() == n,
        parent[source] is None,
        forall|v: int| 0 <= v < n ==> (#[trigger] visited[v] <==> v == source),
    ensures
        consistent(weights, n, source, parent, visited, start(source), 0),
{
    let d = start(source);
    assert forall|v: int| 0 <= v < n implies (#[trigger] visited[v] <==> d.order.contains(v)) by {
        if v == source {
            assert(d.order[0] == v);
        }
    }
}

/// Discovering an unvisited node from the node being worked on keeps the
/// state consistent.
pub proof fn lemma_discover(
    weights: Map<(i32, i32), i32>,
    n: int,
    source: int,
    parent: Seq<Option<i32>>,
    visited: Seq<bool>,
    d: Discovery,
    done: int,
    v: int,
)
    requires
        consistent(weights, n, source, parent, visited, d, done),
        done < d.order.len(),
        0 <= v < n,
        !visited[v],
        capacity(weights, d.order[done], v) > 0,
    ensures
        consistent(
            weights,
            n,
            source,
            parent.update(v, Some(d.order[done] as i32)),
            visited.update(v, true),
            discover(d, v, done),
            done,
        ),
{
    let parent2 = parent.update(v, Some(d.order[done] as i32));
    let visited2 = visited.update(v, true);
    let d2 = discover(d, v, done);
    let last = d.order.len() as int;
    assert(visited[source]) by {
        assert(d.order[0] == source);
    }
    assert forall|i: int| 0 <= i < d.order.len() implies #[trigger] d.order[i] != v by {
        assert(visited[d.order[i]]);
    }
    assert forall|x: int| 0 <= x < n implies (#[trigger] visited2[x] <==> d2.order.contains(x)) by {
        if x == v {
            assert(d2.order[last] == x);
        } else if visited[x] {
            let k = choose|k: int| 0 <= k < d.order.len() && d.order[k] == x;
            assert(d2.order[k] == x);
        } else if d2.order.contains(x) {
            let k = choose|k: int| 0 <= k < d2.order.len() && d2.order[k] == x;
            assert(d.order[k] == x);
        }
    }
    assert forall|i: int| 0 < i < d2.order.len() implies #[trigger] tree_edge(
        weights,
        parent2,
        d2,
        i,
    ) by {
        if i < last {
            assert(tree_edge(weights, parent, d, i));
        }
    }
    assert forall|i: int, j: int| 0 <= i <= j < d2.level.len() implies #[trigger] d2.level[i]
        <= #[trigger] d2.level[j] by {
        if j == last && i < last {
            assert(d.level[i] <= d.level[done] + 1);
        }
    }
    assert forall|j: int| 0 <= j < d2.level.len() implies #[trigger] d2.level[j] <= d2.level[done]
        + 1 by {
        if j < last {
            assert(d.level[j] <= d.level[done] + 1);
        }
    }
    assert forall|i: int, x: int|
        0 <= i < done && 0 <= x < n && #[trigger] capacity(weights, d2.order[i], x)
            > 0 implies visited2[x] by {
        assert(capacity(weights, d.order[i], x) > 0);
    }
    assert forall|i: int, j: int|
        0 <= i < done && 0 <= j < d2.order.len() && #[trigger] capacity(
            weights,
            d2.order[i],
            d2.order[j],
        ) > 0 implies d2.level[j] <= d2.level[i] + 1 by {
        if j < last {
            assert(capacity(weights, d.order[i], d.order[j]) > 0);
        } else {
            assert(capacity(weights, d.order[i], v) > 0);
        }
    }
}

/// Once every neighbour of the node being worked on is visited, the node is done.
pub proof fn lemma_finish(
    weights: Map<(i32, i32), i32>,
    n: int,
    source: int,
    parent: Seq<Option<i32>>,
    visited: Seq<bool>,
    d: Discovery,
    done: int,
)
    requires
        consistent(weights, n, source, parent, visited, d, done),
        done < d.order.len(),
        forall|v: int|
            0 <= v < n && #[trigger] capacity(weights, d.order[done], v) > 0 ==> visited[v],
    ensures
        consistent(weights, n, source, parent, visited, d, done + 1),
{
    if done + 1 < d.order.len() {
        assert forall|j: int| 0 <= j < d.level.len() implies #[trigger] d.level[j] <= d.level[done
            + 1] + 1 by {
            assert(d.level[j] <= d.level[done] + 1);
            assert(d.level[done] <= d.level[done + 1]);
        }
    }
    assert forall|i: int, j: int|
        0 <= i < done + 1 && 0 <= j < d.order.len() && #[trigger] capacity(
            weights,
            d.order[i],
            d.order[j],
        ) > 0 implies d.level[j] <= d.level[i] + 1 by {
        if i == done {
            assert(d.level[j] <= d.level[done] + 1);
        }
    }
}

/// The route to a discovered node is a path from `source` that `parent`
/// records, visits no node twice, keeps to nodes discovered no later, and has
/// as many steps as the node's level says.
pub proof fn lemma_route(
    weights: Map<(i32, i32), i32>,
    n: int,
    source: int,
    parent: Seq<Option<i32>>,
    visited: Seq<bool>,
    d: Discovery,
    done: int,
    i: int,
)
    requires
        consistent(weights, n, source, parent, visited, d, done),
        0 <= i < d.order.len(),
    ensures
        is_path(weights, n, route(d, i), source, d.order[i]),
        marks_path(parent, route(d, i)),
        route(d, i).no_duplicates(),
        route(d, i).len() == d.level[i] + 1,
        forall|k: int|
            0 <= k < route(d, i).len() ==> exists|m: int|
                0 <= m <= i && d.order[m] == #[trigger] route(d, i)[k],
    decreases i,
{
    let r = route(d, i);
    if i > 0 {
        assert(tree_edge(weights, parent, d, i));
        let from = d.via[i];
        let r1 = route(d, from);
        lemma_route(weights, n, source, parent, visited, d, done, from);
        assert(r == r1.push(d.order[i]));
        assert forall|k: int| 0 < k < r.len() implies #[trigger] positive_step(weights, r, k) by {
            if k < r1.len() {
                assert(positive_step(weights, r1, k));
            }
        }
        assert forall|k: int| 0 < k < r.len() implies #[trigger] parent[r[k]] == Some(
            r[k - 1] as i32,
        ) by {
            if k < r1.len() {
                assert(parent[r1[k]] == Some(r1[k - 1] as i32));
            }
        }
        assert forall|k: int| 0 <= k < r.len() implies exists|m: int|
            0 <= m <= i && d.order[m] == #[trigger] r[k] by {
            if k < r1.len() {
                let m = choose|m: int| 0 <= m <= from && d.order[m] == r1[k];
                assert(d.order[m] == r[k]);
            } else {
                assert(d.order[i] == r[k]);
            }
        }
        assert forall|k: int, l: int| 0 <= k < l < r.len() implies r[k] != r[l] by {
            if l == r1.len() {
                let m = choose|m: int| 0 <= m <= from && d.order[m] == r1[k];
                assert(d.order[m] != d.order[i]);
            }
        }
    } else {
        assert(r == seq![d.order[0]]);
    }
}

/// Levels are distances: a path from `source` to `x` either ends in a node
/// that was discovered at a level no greater than the number of its steps, or
/// has more steps than the level of the node being worked on.
pub proof fn lemma_level_is_distance(
    weights: Map<(i32, i32), i32>,
    n: int,
    source: int,
    parent: Seq<Option<i32>>,
    visited: Seq<bool>,
    d: Discovery,
    done: int,
    q: Seq<int>,
    x: int,
)
    requires
        consistent(weights, n, source, parent, visited, d, done),
        is_path(weights, n, q, source, x),
    ensures
        (exists|j: int| 0 <= j < d.order.len() && d.order[j] == x && d.level[j] <= q.len() - 1) || (
        done < d.order.len() && q.len() - 1 >= d.level[done] + 1),
    decreases q.len(),
{
    if q.len() == 1 {
        assert(d.order[0] == x && d.level[0] <= q.len() - 1);
    } else {
        let q1 = q.drop_last();
        let y = q1[q1.len() - 1];
        assert forall|i: int| 0 < i < q1.len() implies #[trigger] positive_step(weights, q1, i) by {
            assert(positive_step(weights, q, i));
        }
        assert forall|i: int| 0 <= i < q1.len() implies 0 <= #[trigger] q1[i] < n by {
            assert(0 <= q[i] < n);
        }
        assert(is_path(weights, n, q1, source, y));
        lemma_level_is_distance(weights, n, source, parent, visited, d, done, q1, y);
        assert(positive_step(weights, q, q.len() - 1));
        assert(capacity(weights, y, x) > 0);
        assert(0 <= q[q.len() - 1] < n);
        if exists|j: int| 0 <= j < d.order.len() && d.order[j] == y && d.level[j] <= q1.len() - 1 {
            let j1 = choose|j: int|
                0 <= j < d.order.len() && d.order[j] == y && d.level[j] <= q1.len() - 1;
            if j1 < done {
                assert(capacity(weights, d.order[j1], x) > 0);
                assert(visited[x]);
                let j = choose|j: int| 0 <= j < d.order.len() && d.order[j] == x;
                assert(capacity(weights, d.order[j1], d.order[j]) > 0);
                assert(d.level[j] <= d.level[j1] + 1);
            } else {
                assert(d.level[done] <= d.level[j1]);
            }
        }
    }
}

} // verus!
