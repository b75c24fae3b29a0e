//! Best-first route search: the cheapest route by summed segment length, guided by the
//! straight-line length to the destination.

use crate::frontier::{entry_le, Frontier};
use crate::geom::{edge_len, edge_len_of, lemma_edge_len_symmetric, max_edge_len, Point};
use crate::graph::OSMGraph;
use crate::grid::{cell_of, in_cell, is_nearest, lemma_in_cell_holds};
use crate::route::{
    cheapest, first_open, is_cost_plan, is_route, is_walk, lemma_all_unmarked,
    lemma_closed_marks_hold_walk, lemma_cost_bound, lemma_cost_push, lemma_cost_split,
    lemma_first_open, lemma_straight_line_is_consistent, lemma_unmarked_bound,
    lemma_unmarked_set, lemma_unmarked_subset, lemma_walk_prefix, lemma_walk_push,
    lemma_walk_suffix, plan_view, reachable, reachable_count, step_ok, unmarked, walk_cost,
};
use crate::trace::{chained, trace_back};
use vstd::multiset::*;
use vstd::prelude::*;

verus! {

/// The straight-line length from point `v` to the destination `b`.
pub open spec fn straight_line(pos: Seq<Point>, v: int, b: usize) -> nat {
    edge_len(pos[v], pos[b as int])
}

/// No route from `a` to `v` costs less than `c`.
pub open spec fn cost_is_least(
    adj: Seq<Seq<usize>>,
    pos: Seq<Point>,
    a: usize,
    v: usize,
    c: u128,
) -> bool {
    forall|q: Seq<usize>| #[trigger] is_route(adj, q, a, v) ==> c <= walk_cost(pos, q)
}

/// The first `upto` neighbors of `v` have a cost, and none costs more than the way
/// through `v`.
spec fn relaxed_upto(
    adj: Seq<Seq<usize>>,
    pos: Seq<Point>,
    cost: Seq<u128>,
    v: int,
    upto: int,
) -> bool {
    forall|k: int|
        0 <= k < upto ==> cost[(#[trigger] adj[v][k]) as int] != u128::MAX && cost[adj[v][k] as int]
            <= cost[v] + edge_len(pos[v], pos[adj[v][k] as int])
}

/// Each point with a cost has a route of that cost which ends in the step from the
/// point that the search came from.
spec fn witnessed(
    adj: Seq<Seq<usize>>,
    pos: Seq<Point>,
    a: usize,
    visited: Seq<bool>,
    cost: Seq<u128>,
    prev: Seq<usize>,
    wit: Seq<Seq<usize>>,
) -> bool {
    forall|v: int|
        0 <= v < cost.len() && #[trigger] cost[v] != u128::MAX ==> {
            &&& is_route(adj, wit[v], a, v as usize)
            &&& cost[v] == walk_cost(pos, wit[v])
            &&& wit[v].len() + unmarked(visited) <= cost.len() + 1
            &&& v == a ==> wit[v] == seq![a]
            &&& v != a ==> prev[v] < cost.len() && visited[prev[v] as int] && wit[v]
                == wit[prev[v] as int].push(v as usize)
        }
}

/// Each open point with a cost has its entry in the queue, and each entry of the queue
/// is for a point with a cost that the entry does not understate.
spec fn queued(
    pos: Seq<Point>,
    b: usize,
    visited: Seq<bool>,
    cost: Seq<u128>,
    queue: Multiset<(u128, usize)>,
) -> bool {
    &&& forall|v: int|
        0 <= v < cost.len() && cost[v] != u128::MAX && !(#[trigger] visited[v]) ==> queue.count(
            ((cost[v] + straight_line(pos, v, b)) as u128, v as usize),
        ) > 0
    &&& forall|e: (u128, usize)| #[trigger]
        queue.count(e) > 0 ==> {
            &&& e.1 < cost.len()
            &&& cost[e.1 as int] != u128::MAX
            &&& e.0 >= cost[e.1 as int] + straight_line(pos, e.1 as int, b)
        }
}

/// What holds of the search between two steps. While the neighbors of `u` are gone
/// through, `k` of them are done; otherwise `u` is -1.
spec fn search_inv(
    adj: Seq<Seq<usize>>,
    pos: Seq<Point>,
    a: usize,
    b: usize,
    visited: Seq<bool>,
    cost: Seq<u128>,
    prev: Seq<usize>,
    wit: Seq<Seq<usize>>,
    queue: Multiset<(u128, usize)>,
    u: int,
    k: int,
) -> bool {
    let n = adj.len();
    &&& pos.len() == n && visited.len() == n && cost.len() == n && prev.len() == n && wit.len()
        == n
    &&& a < n && b < n && n <= usize::MAX
    &&& forall|v: int, j: int|
        0 <= v < n && 0 <= j < adj[v].len() ==> (#[trigger] adj[v][j]) < n
    &&& cost[a as int] == 0
    &&& !visited[b as int]
    &&& forall|v: int|
        0 <= v < n && #[trigger] visited[v] ==> {
            &&& cost[v] != u128::MAX
            &&& cost_is_least(adj, pos, a, v as usize, cost[v])
            &&& v != u ==> relaxed_upto(adj, pos, cost, v, adj[v].len() as int)
        }
    &&& 0 <= u < n ==> {
        &&& visited[u]
        &&& 0 <= k <= adj[u].len()
        &&& relaxed_upto(adj, pos, cost, u, k)
        &&& wit[u].len() + unmarked(visited) <= n
    }
    &&& witnessed(adj, pos, a, visited, cost, prev, wit)
    &&& queued(pos, b, visited, cost, queue)
}

proof fn lemma_cost_fits(
    adj: Seq<Seq<usize>>,
    pos: Seq<Point>,
    a: usize,
    visited: Seq<bool>,
    cost: Seq<u128>,
    prev: Seq<usize>,
    wit: Seq<Seq<usize>>,
    v: int,
)
    requires
        witnessed(adj, pos, a, visited, cost, prev, wit),
        cost.len() <= usize::MAX,
        0 <= v < cost.len(),
        cost[v] != u128::MAX,
    ensures
        cost[v] <= (cost.len() - unmarked(visited)) * max_edge_len(),
        cost[v] <= 0xFFFF_FFFF_FFFF_FFFF * 0x2_0000_0000,
{
    lemma_cost_bound(pos, wit[v]);
    let steps = wit[v].len() - 1;
    let closed = cost.len() - unmarked(visited);
    assert(steps * max_edge_len() <= closed * max_edge_len()) by (nonlinear_arith)
        requires
            0 <= steps <= closed,
    ;
    assert(closed * max_edge_len() <= 0xFFFF_FFFF_FFFF_FFFF * 0x2_0000_0000) by (nonlinear_arith)
        requires
            0 <= closed <= 0xFFFF_FFFF_FFFF_FFFF,
            max_edge_len() == 0x2_0000_0000,
    ;
}

/// The least entry of the queue, if its point is open, names a cost that no route to
/// that point undercuts.
proof fn lemma_popped_is_least(
    adj: Seq<Seq<usize>>,
    pos: Seq<Point>,
    a: usize,
    b: usize,
    visited: Seq<bool>,
    cost: Seq<u128>,
    prev: Seq<usize>,
    wit: Seq<Seq<usize>>,
    queue: Multiset<(u128, usize)>,
    e: (u128, usize),
)
    requires
        search_inv(adj, pos, a, b, visited, cost, prev, wit, queue, -1, 0),
        queue.count(e) > 0,
        forall|x: (u128, usize)| queue.count(x) > 0 ==> entry_le(e, x),
        !visited[e.1 as int],
    ensures
        cost_is_least(adj, pos, a, e.1, cost[e.1 as int]),
{
    let u = e.1 as int;
    let goal = pos[b as int];
    lemma_cost_fits(adj, pos, a, visited, cost, prev, wit, u);
    lemma_edge_len_symmetric(pos[u], goal);
    let own = ((cost[u] + straight_line(pos, u, b)) as u128, u as usize);
    assert(queue.count(own) > 0);
    assert(entry_le(e, own));
    assert(e.0 == cost[u] + straight_line(pos, u, b));
    assert forall|q: Seq<usize>| #[trigger] is_route(adj, q, a, e.1) implies cost[u] <= walk_cost(
        pos,
        q,
    ) by {
        // the first open point of the route
        let i = first_open(visited, q, 0);
        lemma_first_open(visited, q, 0);
        let y = q[i] as int;
        lemma_cost_split(pos, q, i);
        lemma_walk_suffix(adj, q, i);
        lemma_straight_line_is_consistent(pos, q.skip(i), goal);
        assert(q.skip(i)[0] == q[i]);
        assert(q.skip(i).last() == q.last());
        if i == 0 {
            assert(q.take(1).len() == 1);
            assert(walk_cost(pos, q.take(1)) == 0);
            assert(cost[y] == 0);
        } else {
            let x = q[i - 1] as int;
            assert(visited[x]);
            lemma_walk_prefix(adj, q, i);
            assert(q.take(i)[0] == q[0]);
            assert(q.take(i).last() == q[i - 1]);
            assert(is_route(adj, q.take(i), a, x as usize));
            assert(cost[x] <= walk_cost(pos, q.take(i)));
            assert(step_ok(adj, q, i - 1));
            let j = choose|j: int| 0 <= j < adj[x].len() && adj[x][j] == q[i];
            assert(relaxed_upto(adj, pos, cost, x, adj[x].len() as int));
            assert(cost[adj[x][j] as int] <= cost[x] + edge_len(pos[x], pos[adj[x][j] as int]));
            assert(q.take(i + 1).drop_last() =~= q.take(i));
            assert(q.take(i + 1).last() == q[i]);
            assert(q.take(i + 1)[q.take(i + 1).len() - 2] == q[i - 1]);
            assert(walk_cost(pos, q.take(i + 1)) == walk_cost(pos, q.take(i)) + edge_len(
                pos[x],
                pos[y],
            ));
        }
        assert(cost[y] <= walk_cost(pos, q.take(i + 1)));
        lemma_cost_fits(adj, pos, a, visited, cost, prev, wit, y);
        lemma_edge_len_symmetric(pos[y], goal);
        let other = ((cost[y] + straight_line(pos, y, b)) as u128, y as usize);
        assert(queue.count(other) > 0);
        assert(entry_le(e, other));
    }
}

proof fn lemma_search_starts(
    adj: Seq<Seq<usize>>,
    pos: Seq<Point>,
    a: usize,
    b: usize,
    visited: Seq<bool>,
    cost: Seq<u128>,
    prev: Seq<usize>,
    wit: Seq<Seq<usize>>,
    queue: Multiset<(u128, usize)>,
)
    requires
        pos.len() == adj.len(),
        adj.len() <= usize::MAX,
        a < adj.len(),
        b < adj.len(),
        forall|v: int, j: int|
            0 <= v < adj.len() && 0 <= j < adj[v].len() ==> (#[trigger] adj[v][j]) < adj.len(),
        visited.len() == adj.len(),
        forall|v: int| 0 <= v < visited.len() ==> !visited[v],
        cost.len() == adj.len(),
        forall|v: int| 0 <= v < cost.len() && v != a ==> cost[v] == u128::MAX,
        cost[a as int] == 0,
        prev.len() == adj.len(),
        wit.len() == adj.len(),
        wit[a as int] == seq![a],
        queue == Multiset::<(u128, usize)>::empty().insert(
            (straight_line(pos, a as int, b) as u128, a),
        ),
    ensures
        search_inv(adj, pos, a, b, visited, cost, prev, wit, queue, -1, 0),
{
    broadcast use group_multiset_axioms;

    lemma_unmarked_bound(visited);
    lemma_edge_len_symmetric(pos[a as int], pos[b as int]);
    assert(is_walk(adj, seq![a]));
    assert(walk_cost(pos, seq![a]) == 0);
    let own = (straight_line(pos, a as int, b) as u128, a);
    assert(queue.count(own) > 0);
    assert forall|e: (u128, usize)| #[trigger] queue.count(e) > 0 implies e == own by {
        if e != own {
            assert(Multiset::<(u128, usize)>::empty().count(e) == 0);
        }
    }
}

proof fn lemma_search_skips(
    adj: Seq<Seq<usize>>,
    pos: Seq<Point>,
    a: usize,
    b: usize,
    visited: Seq<bool>,
    cost: Seq<u128>,
    prev: Seq<usize>,
    wit: Seq<Seq<usize>>,
    queue: Multiset<(u128, usize)>,
    e: (u128, usize),
)
    requires
        search_inv(adj, pos, a, b, visited, cost, prev, wit, queue, -1, 0),
        queue.count(e) > 0,
        visited[e.1 as int],
    ensures
        search_inv(adj, pos, a, b, visited, cost, prev, wit, queue.remove(e), -1, 0),
        queue.remove(e).len() < queue.len(),
{
    broadcast use group_multiset_axioms;

    let after = queue.remove(e);
    assert forall|x: (u128, usize)| x != e implies after.count(x) == queue.count(x) by {}
    assert forall|x: (u128, usize)| #[trigger] after.count(x) > 0 implies queue.count(x) > 0 by {}
    assert forall|v: int|
        0 <= v < cost.len() && cost[v] != u128::MAX && !(#[trigger] visited[v]) implies after.count(
        ((cost[v] + straight_line(pos, v, b)) as u128, v as usize),
    ) > 0 by {
        let own = ((cost[v] + straight_line(pos, v, b)) as u128, v as usize);
        assert(queue.count(own) > 0);
        assert(own != e);
    }
}

proof fn lemma_search_closes(
    adj: Seq<Seq<usize>>,
    pos: Seq<Point>,
    a: usize,
    b: usize,
    visited: Seq<bool>,
    cost: Seq<u128>,
    prev: Seq<usize>,
    wit: Seq<Seq<usize>>,
    queue: Multiset<(u128, usize)>,
    e: (u128, usize),
)
    requires
        search_inv(adj, pos, a, b, visited, cost, prev, wit, queue, -1, 0),
        queue.count(e) > 0,
        forall|x: (u128, usize)| queue.count(x) > 0 ==> entry_le(e, x),
        !visited[e.1 as int],
        e.1 != b,
    ensures
        search_inv(
            adj,
            pos,
            a,
            b,
            visited.update(e.1 as int, true),
            cost,
            prev,
            wit,
            queue.remove(e),
            e.1 as int,
            0,
        ),
        unmarked(visited.update(e.1 as int, true)) + 1 == unmarked(visited),
{
    broadcast use group_multiset_axioms;

    let u = e.1 as int;
    let after = queue.remove(e);
    let marks = visited.update(u, true);
    lemma_popped_is_least(adj, pos, a, b, visited, cost, prev, wit, queue, e);
    lemma_unmarked_set(visited, u);
    assert forall|x: (u128, usize)| x != e implies after.count(x) == queue.count(x) by {}
    assert forall|x: (u128, usize)| #[trigger] after.count(x) > 0 implies queue.count(x) > 0 by {}
    assert forall|v: int| 0 <= v < adj.len() && #[trigger] marks[v] implies {
        &&& cost[v] != u128::MAX
        &&& cost_is_least(adj, pos, a, v as usize, cost[v])
        &&& v != u ==> relaxed_upto(adj, pos, cost, v, adj[v].len() as int)
    } by {
        if v != u {
            assert(visited[v]);
        }
    }
    assert forall|v: int| 0 <= v < cost.len() && #[trigger] cost[v] != u128::MAX implies {
        &&& is_route(adj, wit[v], a, v as usize)
        &&& cost[v] == walk_cost(pos, wit[v])
        &&& wit[v].len() + unmarked(marks) <= cost.len() + 1
        &&& v == a ==> wit[v] == seq![a]
        &&& v != a ==> prev[v] < cost.len() && marks[prev[v] as int] && wit[v]
            == wit[prev[v] as int].push(v as usize)
    } by {
        if v != a {
            assert(visited[prev[v] as int]);
        }
    }
    assert forall|v: int|
        0 <= v < cost.len() && cost[v] != u128::MAX && !(#[trigger] marks[v]) implies after.count(
        ((cost[v] + straight_line(pos, v, b)) as u128, v as usize),
    ) > 0 by {
        assert(!visited[v]);
    }
}

proof fn lemma_search_keeps(
    adj: Seq<Seq<usize>>,
    pos: Seq<Point>,
    a: usize,
    b: usize,
    visited: Seq<bool>,
    cost: Seq<u128>,
    prev: Seq<usize>,
    wit: Seq<Seq<usize>>,
    queue: Multiset<(u128, usize)>,
    u: int,
    k: int,
)
    requires
        search_inv(adj, pos, a, b, visited, cost, prev, wit, queue, u, k),
        0 <= u < adj.len(),
        k < adj[u].len(),
        cost[adj[u][k] as int] <= cost[u] + edge_len(pos[u], pos[adj[u][k] as int]),
    ensures
        search_inv(adj, pos, a, b, visited, cost, prev, wit, queue, u, k + 1),
{
    let next = adj[u][k] as int;
    lemma_cost_fits(adj, pos, a, visited, cost, prev, wit, u);
    lemma_edge_len_symmetric(pos[u], pos[next]);
    assert forall|j: int| 0 <= j < k + 1 implies cost[(#[trigger] adj[u][j]) as int] != u128::MAX
        && cost[adj[u][j] as int] <= cost[u] + edge_len(pos[u], pos[adj[u][j] as int]) by {
        if j < k {
            assert(relaxed_upto(adj, pos, cost, u, k));
        }
    }
}

proof fn lemma_search_improves(
    adj: Seq<Seq<usize>>,
    pos: Seq<Point>,
    a: usize,
    b: usize,
    visited: Seq<bool>,
    cost: Seq<u128>,
    prev: Seq<usize>,
    wit: Seq<Seq<usize>>,
    queue: Multiset<(u128, usize)>,
    u: int,
    k: int,
    better: u128,
)
    requires
        search_inv(adj, pos, a, b, visited, cost, prev, wit, queue, u, k),
        0 <= u < adj.len(),
        k < adj[u].len(),
        better == cost[u] + edge_len(pos[u], pos[adj[u][k] as int]),
        better < cost[adj[u][k] as int],
    ensures
        !visited[adj[u][k] as int],
        adj[u][k] != a,
        search_inv(
            adj,
            pos,
            a,
            b,
            visited,
            cost.update(adj[u][k] as int, better),
            prev.update(adj[u][k] as int, u as usize),
            wit.update(adj[u][k] as int, wit[u].push(adj[u][k])),
            queue.insert(
                ((better + straight_line(pos, adj[u][k] as int, b)) as u128, adj[u][k]),
            ),
            u,
            k + 1,
        ),
{
    broadcast use group_multiset_axioms;

    let next = adj[u][k] as int;
    let n = adj.len();
    let cost2 = cost.update(next, better);
    let prev2 = prev.update(next, u as usize);
    let route = wit[u].push(adj[u][k]);
    let wit2 = wit.update(next, route);
    let entry = ((better + straight_line(pos, next, b)) as u128, adj[u][k]);
    let queue2 = queue.insert(entry);
    lemma_cost_fits(adj, pos, a, visited, cost, prev, wit, u);
    lemma_edge_len_symmetric(pos[u], pos[next]);
    lemma_edge_len_symmetric(pos[next], pos[b as int]);
    assert(adj[u].contains(adj[u][k]));
    lemma_walk_push(adj, wit[u], adj[u][k]);
    lemma_cost_push(pos, wit[u], adj[u][k]);
    assert(route[0] == wit[u][0]);
    assert(is_route(adj, route, a, adj[u][k]));
    assert(walk_cost(pos, route) == better);
    if visited[next] {
        assert(cost_is_least(adj, pos, a, next as usize, cost[next]));
        assert(cost[next] <= walk_cost(pos, route));
    }
    assert forall|x: (u128, usize)| x != entry implies queue2.count(x) == queue.count(x) by {}
    assert(queue2.count(entry) > 0);
    assert forall|v: int| 0 <= v < n && #[trigger] visited[v] implies {
        &&& cost2[v] != u128::MAX
        &&& cost_is_least(adj, pos, a, v as usize, cost2[v])
        &&& v != u ==> relaxed_upto(adj, pos, cost2, v, adj[v].len() as int)
    } by {
        assert(cost2[v] == cost[v]);
        if v != u {
            assert(relaxed_upto(adj, pos, cost, v, adj[v].len() as int));
            assert forall|j: int| 0 <= j < adj[v].len() implies cost2[(
            #[trigger] adj[v][j]) as int] != u128::MAX && cost2[adj[v][j] as int] <= cost2[v]
                + edge_len(pos[v], pos[adj[v][j] as int]) by {
                assert(cost2[adj[v][j] as int] <= cost[adj[v][j] as int]);
            }
        }
    }
    assert forall|j: int| 0 <= j < k + 1 implies cost2[(#[trigger] adj[u][j]) as int] != u128::MAX
        && cost2[adj[u][j] as int] <= cost2[u] + edge_len(pos[u], pos[adj[u][j] as int]) by {
        assert(cost2[u] == cost[u]);
        if j < k {
            assert(relaxed_upto(adj, pos, cost, u, k));
            assert(cost2[adj[u][j] as int] <= cost[adj[u][j] as int]);
        }
    }
    assert forall|v: int| 0 <= v < cost2.len() && #[trigger] cost2[v] != u128::MAX implies {
        &&& is_route(adj, wit2[v], a, v as usize)
        &&& cost2[v] == walk_cost(pos, wit2[v])
        &&& wit2[v].len() + unmarked(visited) <= cost2.len() + 1
        &&& v == a ==> wit2[v] == seq![a]
        &&& v != a ==> prev2[v] < cost2.len() && visited[prev2[v] as int] && wit2[v]
            == wit2[prev2[v] as int].push(v as usize)
    } by {
        if v != next {
            assert(cost[v] != u128::MAX);
            if v != a {
                assert(visited[prev[v] as int]);
                assert(prev[v] as int != next);
            }
        }
    }
    assert forall|v: int|
        0 <= v < cost2.len() && cost2[v] != u128::MAX && !(
        #[trigger] visited[v]) implies queue2.count(
        ((cost2[v] + straight_line(pos, v, b)) as u128, v as usize),
    ) > 0 by {
        if v != next {
            assert(cost[v] != u128::MAX);
        }
    }
    assert forall|x: (u128, usize)| #[trigger] queue2.count(x) > 0 implies x.1 < cost2.len()
        && cost2[x.1 as int] != u128::MAX && x.0 >= cost2[x.1 as int] + straight_line(
        pos,
        x.1 as int,
        b,
    ) by {
        if x != entry {
            assert(queue.count(x) > 0);
        }
    }
}

proof fn lemma_search_exhausted(
    adj: Seq<Seq<usize>>,
    pos: Seq<Point>,
    a: usize,
    b: usize,
    visited: Seq<bool>,
    cost: Seq<u128>,
    prev: Seq<usize>,
    wit: Seq<Seq<usize>>,
    queue: Multiset<(u128, usize)>,
)
    requires
        search_inv(adj, pos, a, b, visited, cost, prev, wit, queue, -1, 0),
        queue.len() == 0,
    ensures
        !reachable(adj, a, b),
{
    broadcast use group_multiset_axioms;

    let marks = Seq::new(adj.len(), |v: int| cost[v] != u128::MAX);
    assert forall|v: int| 0 <= v < adj.len() && marks[v] implies visited[v] by {
        if !visited[v] {
            let own = ((cost[v] + straight_line(pos, v, b)) as u128, v as usize);
            assert(queue.count(own) > 0);
            assert(queue.count(own) <= queue.len());
        }
    }
    assert forall|v: int, j: int|
        0 <= v < adj.len() && marks[v] && 0 <= j < adj[v].len() implies marks[(
    #[trigger] adj[v][j]) as int] by {
        assert(visited[v]);
        assert(relaxed_upto(adj, pos, cost, v, adj[v].len() as int));
    }
    assert forall|q: Seq<usize>| !is_route(adj, q, a, b) by {
        if is_route(adj, q, a, b) {
            lemma_closed_marks_hold_walk(adj, marks, q, q.len() - 1);
            assert(marks[b as int]);
            assert(visited[b as int]);
        }
    }
}

proof fn lemma_search_found(
    adj: Seq<Seq<usize>>,
    pos: Seq<Point>,
    a: usize,
    b: usize,
    visited: Seq<bool>,
    cost: Seq<u128>,
    prev: Seq<usize>,
    wit: Seq<Seq<usize>>,
    queue: Multiset<(u128, usize)>,
    e: (u128, usize),
)
    requires
        search_inv(adj, pos, a, b, visited, cost, prev, wit, queue, -1, 0),
        queue.count(e) > 0,
        forall|x: (u128, usize)| queue.count(x) > 0 ==> entry_le(e, x),
        e.1 == b,
    ensures
        cheapest(adj, pos, wit[b as int], a, b),
        cost[b as int] != u128::MAX,
        chained(prev, wit, Seq::new(adj.len(), |v: int| cost[v] != u128::MAX), a),
{
    lemma_popped_is_least(adj, pos, a, b, visited, cost, prev, wit, queue, e);
    let known = Seq::new(adj.len(), |v: int| cost[v] != u128::MAX);
    assert forall|v: int| 0 <= v < known.len() && #[trigger] known[v] implies {
        &&& v == a ==> wit[v] == seq![a]
        &&& v != a ==> prev[v] < known.len() && known[prev[v] as int] && wit[v]
            == wit[prev[v] as int].push(v as usize)
    } by {
        assert(cost[v] != u128::MAX);
        if v != a {
            assert(visited[prev[v] as int]);
        }
    }
}

/// `v` is the point that the position `at` snaps to: the nearest point of the grid
/// cell of `at`.
pub open spec fn is_snapped(graph: OSMGraph, at: Point, v: usize) -> bool {
    is_nearest(
        graph.positions(),
        in_cell(graph.positions(), graph.cell_size(), cell_of(at, graph.cell_size())),
        at,
        v,
    )
}

/// The grid cell of the position `at` holds no point.
pub open spec fn no_point_near(graph: OSMGraph, at: Point) -> bool {
    in_cell(graph.positions(), graph.cell_size(), cell_of(at, graph.cell_size())).len() == 0
}

proof fn lemma_nearest_is_point(points: Seq<Point>, cell_size: int, at: Point, v: usize)
    requires
        points.len() <= usize::MAX,
        is_nearest(points, in_cell(points, cell_size, cell_of(at, cell_size)), at, v),
    ensures
        v < points.len(),
{
    let candidates = in_cell(points, cell_size, cell_of(at, cell_size));
    let i = choose|i: int| 0 <= i < candidates.len() && #[trigger] candidates[i] == v;
    lemma_in_cell_holds(points, cell_size, cell_of(at, cell_size), i);
}

/// A search that has an open point with a cost before it has closed fewer points
/// than can be reached.
proof fn lemma_search_in_reach(
    adj: Seq<Seq<usize>>,
    pos: Seq<Point>,
    a: usize,
    b: usize,
    visited: Seq<bool>,
    cost: Seq<u128>,
    prev: Seq<usize>,
    wit: Seq<Seq<usize>>,
    queue: Multiset<(u128, usize)>,
    u: int,
)
    requires
        search_inv(adj, pos, a, b, visited, cost, prev, wit, queue, -1, 0),
        0 <= u < adj.len(),
        !visited[u],
        cost[u] != u128::MAX,
    ensures
        adj.len() - unmarked(visited) < reachable_count(adj, a),
{
    let reach = Seq::new(adj.len(), |v: int| reachable(adj, a, v as usize));
    assert forall|v: int| 0 <= v < visited.len() && visited[v] implies reach[v] by {
        assert(is_route(adj, wit[v], a, v as usize));
    }
    assert(is_route(adj, wit[u], a, u as usize));
    assert(reach[u]);
    lemma_unmarked_subset(visited, reach, u);
    lemma_unmarked_bound(reach);
}

/// How a search with a budget ended.
#[derive(Debug, PartialEq, Eq)]
pub enum PlanOutcome {
    /// The cheapest route.
    Found(Vec<usize>),
    /// There is no route.
    Unreachable,
    /// The budget ran out before the search was done.
    Cancelled,
}

impl OSMGraph {
    /// Plans the cheapest route from `a` to `b`, where the cost of a route is the
    /// sum of the lengths of its segments. Points are taken from a queue in the order
    /// of the cost so far plus the straight-line length to `b`; a point that is
    /// taken again after it was closed is passed over.
    /// The result is `None` exactly when no route leads from `a` to `b`.
    pub fn plan_path_a_star(&self, a: usize, b: usize) -> (path: Option<Vec<usize>>)
        requires
            self.wf(),
            a < self.positions().len(),
            b < self.positions().len(),
        ensures
            is_cost_plan(self.adjacency(), self.positions(), a, b, plan_view(path)),
    {
        match self.plan_path_a_star_within(a, b, self.node_count()) {
            PlanOutcome::Found(path) => Some(path),
            PlanOutcome::Unreachable => None,
            PlanOutcome::Cancelled => {
                proof {
                    assert(false);
                }
                None
            },
        }
    }

    /// Plans the cheapest route between the points nearest to two positions: each
    /// position is snapped to the nearest point of its own grid cell, and the route
    /// is planned between the two points. The result is `None` where a cell holds no
    /// point, or where no route leads from the one point to the other.
    pub fn plan_route(&self, from: Point, to: Point) -> (path: Option<Vec<usize>>)
        requires
            self.wf(),
        ensures
            match path {
                Some(p) => {
                    &&& p@.len() > 0
                    &&& is_snapped(*self, from, p@[0])
                    &&& is_snapped(*self, to, p@.last())
                    &&& cheapest(self.adjacency(), self.positions(), p@, p@[0], p@.last())
                },
                None => {
                    ||| no_point_near(*self, from)
                    ||| no_point_near(*self, to)
                    ||| exists|a: usize, b: usize|
                        {
                            &&& #[trigger] is_snapped(*self, from, a)
                            &&& #[trigger] is_snapped(*self, to, b)
                            &&& !reachable(self.adjacency(), a, b)
                        }
                },
            },
    {
        let a = match self.closest_node(from) {
            Some(a) => a,
            None => {
                return None;
            },
        };
        let b = match self.closest_node(to) {
            Some(b) => b,
            None => {
                return None;
            },
        };
        proof {
            lemma_nearest_is_point(self.positions(), self.cell_size(), from, a);
            lemma_nearest_is_point(self.positions(), self.cell_size(), to, b);
            assert(is_snapped(*self, from, a));
            assert(is_snapped(*self, to, b));
        }
        self.plan_path_a_star(a, b)
    }

    /// Plans the cheapest route from `a` to `b` as `plan_path_a_star` does, but
    /// closes no more than `budget` points: where one more would have to be closed,
    /// the search gives up. A budget of the number of points that can be reached from
    /// `a` is never used up.
    pub fn plan_path_a_star_within(&self, a: usize, b: usize, budget: usize) -> (outcome:
        PlanOutcome)
        requires
            self.wf(),
            a < self.positions().len(),
            b < self.positions().len(),
        ensures
            match outcome {
                PlanOutcome::Found(p) => cheapest(self.adjacency(), self.positions(), p@, a, b),
                PlanOutcome::Unreachable => !reachable(self.adjacency(), a, b),
                PlanOutcome::Cancelled => budget < reachable_count(self.adjacency(), a)
                    <= self.positions().len(),
            },
    {
        let n = self.node_count();
        let ghost adj = self.adjacency();
        let ghost pos = self.positions();
        let goal = self.position(b);
        let mut visited: Vec<bool> = vec![false; n];
        let mut prev: Vec<usize> = vec![usize::MAX; n];
        let mut cost: Vec<u128> = vec![u128::MAX; n];
        let mut queue = Frontier::new();
        let mut closed: usize = 0;
        let start: u64 = edge_len_of(self.position(a), goal);
        queue.push(start as u128, a);
        cost[a] = 0;
        let ghost mut wit: Seq<Seq<usize>> = Seq::new(n as nat, |v: int| seq![a]);
        proof {
            lemma_search_starts(adj, pos, a, b, visited@, cost@, prev@, wit, queue@);
            lemma_all_unmarked(visited@);
        }
        loop
            invariant
                self.wf(),
                adj == self.adjacency(),
                pos == self.positions(),
                n == adj.len(),
                goal == pos[b as int],
                queue.wf(),
                closed + unmarked(visited@) == n,
                search_inv(adj, pos, a, b, visited@, cost@, prev@, wit, queue@, -1, 0),
            decreases unmarked(visited@), queue@.len(),
        {
            let ghost before = queue@;
            let ghost marks = visited@;
            let e = match queue.pop() {
                Some(e) => e,
                None => {
                    proof {
                        lemma_search_exhausted(adj, pos, a, b, visited@, cost@, prev@, wit, before);
                    }
                    return PlanOutcome::Unreachable;
                },
            };
            let u: usize = e.1;
            if u == b {
                proof {
                    lemma_search_found(adj, pos, a, b, visited@, cost@, prev@, wit, before, e);
                }
                let ghost known = Seq::new(adj.len(), |v: int| cost@[v] != u128::MAX);
                return PlanOutcome::Found(trace_back(&prev, a, b, Ghost(wit), Ghost(known)));
            }
            if visited[u] {
                proof {
                    lemma_search_skips(adj, pos, a, b, visited@, cost@, prev@, wit, before, e);
                }
                continue ;
            }
            proof {
                lemma_search_closes(adj, pos, a, b, visited@, cost@, prev@, wit, before, e);
            }
            if closed >= budget {
                proof {
                    lemma_search_in_reach(
                        adj,
                        pos,
                        a,
                        b,
                        marks,
                        cost@,
                        prev@,
                        wit,
                        before,
                        u as int,
                    );
                    lemma_unmarked_bound(
                        Seq::new(adj.len(), |v: int| reachable(adj, a, v as usize)),
                    );
                }
                return PlanOutcome::Cancelled;
            }
            visited[u] = true;
            closed += 1;
            let here = self.position(u);
            let so_far: u128 = cost[u];
            let list = self.neighbors(u);
            let mut k: usize = 0;
            while k < list.len()
                invariant
                    self.wf(),
                    adj == self.adjacency(),
                    pos == self.positions(),
                    n == adj.len(),
                    u < n,
                    goal == pos[b as int],
                    here == pos[u as int],
                    list@ == adj[u as int],
                    so_far == cost@[u as int],
                    k <= list@.len(),
                    queue.wf(),
                    closed + unmarked(visited@) == n,
                    search_inv(
                        adj,
                        pos,
                        a,
                        b,
                        visited@,
                        cost@,
                        prev@,
                        wit,
                        queue@,
                        u as int,
                        k as int,
                    ),
                    unmarked(visited@) < unmarked(marks),
                decreases list@.len() - k,
            {
                let next: usize = list[k];
                let there = self.position(next);
                let step: u64 = edge_len_of(here, there);
                proof {
                    lemma_cost_fits(adj, pos, a, visited@, cost@, prev@, wit, u as int);
                }
                let better: u128 = so_far + step as u128;
                if better < cost[next] {
                    proof {
                        lemma_search_improves(
                            adj,
                            pos,
                            a,
                            b,
                            visited@,
                            cost@,
                            prev@,
                            wit,
                            queue@,
                            u as int,
                            k as int,
                            better,
                        );
                    }
                    let ahead: u64 = edge_len_of(there, goal);
                    cost[next] = better;
                    prev[next] = u;
                    queue.push(better + ahead as u128, next);
                    proof {
                        wit = wit.update(next as int, wit[u as int].push(next));
                    }
                } else {
                    proof {
                        lemma_search_keeps(
                            adj,
                            pos,
                            a,
                            b,
                            visited@,
                            cost@,
                            prev@,
                            wit,
                            queue@,
                            u as int,
                            k as int,
                        );
                    }
                }
                k += 1;
            }
        }
    }
}

} // verus!
