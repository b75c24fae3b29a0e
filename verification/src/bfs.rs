//! Breadth-first route search: a route with the fewest points.

use crate::graph::OSMGraph;
use crate::route::{
    fewest_hops, first_open, is_hop_plan, is_route, is_walk, lemma_closed_marks_hold_walk,
    lemma_first_open, lemma_unmarked_set, lemma_walk_prefix, lemma_walk_push, plan_view,
    reachable, step_ok, unmarked,
};
use crate::trace::{chained, trace_back};
use std::collections::VecDeque;
use vstd::prelude::*;

verus! {

/// No route from `a` to `v` has fewer points than `len`.
pub open spec fn len_is_least(adj: Seq<Seq<usize>>, a: usize, v: usize, len: nat) -> bool {
    forall|q: Seq<usize>| #[trigger] is_route(adj, q, a, v) ==> len <= q.len()
}

/// The first `upto` neighbors of `v` are marked.
spec fn marked_upto(adj: Seq<Seq<usize>>, visited: Seq<bool>, v: int, upto: int) -> bool {
    forall|j: int| 0 <= j < upto ==> visited[(#[trigger] adj[v][j]) as int]
}

/// What holds of the search between two steps. While the neighbors of `u` are gone
/// through, `k` of them are done; otherwise `u` is -1.
spec fn search_inv(
    adj: Seq<Seq<usize>>,
    a: usize,
    b: usize,
    visited: Seq<bool>,
    prev: Seq<usize>,
    wit: Seq<Seq<usize>>,
    queue: Seq<usize>,
    u: int,
    k: int,
) -> bool {
    let n = adj.len();
    &&& visited.len() == n && prev.len() == n && wit.len() == n
    &&& a < n && b < n && n <= usize::MAX
    &&& forall|v: int, j: int|
        0 <= v < n && 0 <= j < adj[v].len() ==> (#[trigger] adj[v][j]) < n
    &&& visited[a as int]
    &&& forall|v: int|
        0 <= v < n && #[trigger] visited[v] ==> {
            &&& is_route(adj, wit[v], a, v as usize)
            &&& len_is_least(adj, a, v as usize, wit[v].len())
            &&& v == a ==> wit[v] == seq![a]
            &&& v != a ==> prev[v] < n && visited[prev[v] as int] && wit[v]
                == wit[prev[v] as int].push(v as usize)
            &&& !queue.contains(v as usize) && v != u ==> v != b && marked_upto(
                adj,
                visited,
                v,
                adj[v].len() as int,
            )
        }
    &&& forall|i: int|
        0 <= i < queue.len() ==> (#[trigger] queue[i]) < n && visited[queue[i] as int]
    &&& forall|i: int, j: int|
        0 <= i <= j < queue.len() ==> wit[(#[trigger] queue[i]) as int].len() <= wit[(
        #[trigger] queue[j]) as int].len()
    &&& forall|i: int|
        0 <= i < queue.len() ==> wit[(#[trigger] queue[i]) as int].len() <= wit[queue[0] as int]
            .len() + 1
    &&& 0 <= u < n ==> {
        &&& visited[u]
        &&& u != b
        &&& 0 <= k <= adj[u].len()
        &&& marked_upto(adj, visited, u, k)
        &&& forall|i: int|
            0 <= i < queue.len() ==> wit[u].len() <= wit[(#[trigger] queue[i]) as int].len()
                <= wit[u].len() + 1
    }
}

proof fn lemma_search_starts(
    adj: Seq<Seq<usize>>,
    a: usize,
    b: usize,
    visited: Seq<bool>,
    prev: Seq<usize>,
    wit: Seq<Seq<usize>>,
    queue: Seq<usize>,
)
    requires
        adj.len() <= usize::MAX,
        a < adj.len(),
        b < adj.len(),
        forall|v: int, j: int|
            0 <= v < adj.len() && 0 <= j < adj[v].len() ==> (#[trigger] adj[v][j]) < adj.len(),
        visited.len() == adj.len(),
        forall|v: int| 0 <= v < visited.len() ==> (visited[v] <==> v == a),
        prev.len() == adj.len(),
        wit.len() == adj.len(),
        wit[a as int] == seq![a],
        queue == seq![a],
    ensures
        search_inv(adj, a, b, visited, prev, wit, queue, -1, 0),
{
    assert(is_walk(adj, seq![a]));
    assert(queue.contains(a)) by {
        assert(queue[0] == a);
    }
}

proof fn lemma_search_takes(
    adj: Seq<Seq<usize>>,
    a: usize,
    b: usize,
    visited: Seq<bool>,
    prev: Seq<usize>,
    wit: Seq<Seq<usize>>,
    queue: Seq<usize>,
)
    requires
        search_inv(adj, a, b, visited, prev, wit, queue, -1, 0),
        queue.len() > 0,
        queue[0] != b,
    ensures
        search_inv(
            adj,
            a,
            b,
            visited,
            prev,
            wit,
            queue.subrange(1, queue.len() as int),
            queue[0] as int,
            0,
        ),
{
    let u = queue[0] as int;
    let rest = queue.subrange(1, queue.len() as int);
    assert forall|i: int| 0 <= i < rest.len() implies rest[i] == queue[i + 1] by {}
    assert forall|x: usize| !(#[trigger] rest.contains(x)) && x != u implies !queue.contains(x) by {
        if queue.contains(x) {
            let i = choose|i: int| 0 <= i < queue.len() && queue[i] == x;
            assert(rest[i - 1] == x);
        }
    }
    assert forall|i: int, j: int| 0 <= i <= j < rest.len() implies wit[(
    #[trigger] rest[i]) as int].len() <= wit[(#[trigger] rest[j]) as int].len() by {
        assert(wit[queue[i + 1] as int].len() <= wit[queue[j + 1] as int].len());
    }
    assert forall|i: int| 0 <= i < rest.len() implies wit[u].len() <= wit[(
    #[trigger] rest[i]) as int].len() <= wit[u].len() + 1 by {
        assert(wit[queue[0] as int].len() <= wit[queue[i + 1] as int].len());
    }
    assert forall|i: int| 0 <= i < rest.len() implies wit[(#[trigger] rest[i]) as int].len()
        <= wit[rest[0] as int].len() + 1 by {
        assert(wit[queue[0] as int].len() <= wit[queue[1] as int].len());
        assert(rest[0] == queue[1]);
    }
}

proof fn lemma_search_passes(
    adj: Seq<Seq<usize>>,
    a: usize,
    b: usize,
    visited: Seq<bool>,
    prev: Seq<usize>,
    wit: Seq<Seq<usize>>,
    queue: Seq<usize>,
    u: int,
    k: int,
)
    requires
        search_inv(adj, a, b, visited, prev, wit, queue, u, k),
        0 <= u < adj.len(),
        k < adj[u].len(),
        visited[adj[u][k] as int],
    ensures
        search_inv(adj, a, b, visited, prev, wit, queue, u, k + 1),
{
    assert forall|j: int| 0 <= j < k + 1 implies visited[(#[trigger] adj[u][j]) as int] by {
        if j < k {
            assert(marked_upto(adj, visited, u, k));
        }
    }
}

/// A point that the search first meets from `u` has no route with fewer points than
/// the route through `u`.
proof fn lemma_met_is_least(
    adj: Seq<Seq<usize>>,
    a: usize,
    b: usize,
    visited: Seq<bool>,
    prev: Seq<usize>,
    wit: Seq<Seq<usize>>,
    queue: Seq<usize>,
    u: int,
    k: int,
    next: usize,
)
    requires
        search_inv(adj, a, b, visited, prev, wit, queue, u, k),
        0 <= u < adj.len(),
        next < adj.len(),
        !visited[next as int],
    ensures
        len_is_least(adj, a, next, wit[u].len() + 1),
{
    assert forall|q: Seq<usize>| #[trigger] is_route(adj, q, a, next) implies wit[u].len() + 1
        <= q.len() by {
        let i = first_open(visited, q, 0);
        lemma_first_open(visited, q, 0);
        assert(i > 0);
        let x = q[i - 1] as int;
        assert(visited[x]);
        lemma_walk_prefix(adj, q, i);
        assert(q.take(i)[0] == q[0]);
        assert(q.take(i).last() == q[i - 1]);
        assert(is_route(adj, q.take(i), a, x as usize));
        assert(wit[x].len() <= i);
        assert(step_ok(adj, q, i - 1));
        let j = choose|j: int| 0 <= j < adj[x].len() && adj[x][j] == q[i];
        if x != u {
            if !queue.contains(x as usize) {
                assert(marked_upto(adj, visited, x, adj[x].len() as int));
                assert(visited[adj[x][j] as int]);
            }
            let at = choose|at: int| 0 <= at < queue.len() && queue[at] == x as usize;
            assert(wit[u].len() <= wit[queue[at] as int].len());
        }
    }
}

proof fn lemma_search_meets(
    adj: Seq<Seq<usize>>,
    a: usize,
    b: usize,
    visited: Seq<bool>,
    prev: Seq<usize>,
    wit: Seq<Seq<usize>>,
    queue: Seq<usize>,
    u: int,
    k: int,
)
    requires
        search_inv(adj, a, b, visited, prev, wit, queue, u, k),
        0 <= u < adj.len(),
        k < adj[u].len(),
        !visited[adj[u][k] as int],
    ensures
        search_inv(
            adj,
            a,
            b,
            visited.update(adj[u][k] as int, true),
            prev.update(adj[u][k] as int, u as usize),
            wit.update(adj[u][k] as int, wit[u].push(adj[u][k])),
            queue.push(adj[u][k]),
            u,
            k + 1,
        ),
        unmarked(visited.update(adj[u][k] as int, true)) + 1 == unmarked(visited),
{
    let n = adj.len();
    let next = adj[u][k];
    let marks = visited.update(next as int, true);
    let prev2 = prev.update(next as int, u as usize);
    let route = wit[u].push(next);
    let wit2 = wit.update(next as int, route);
    let queue2 = queue.push(next);
    lemma_unmarked_set(visited, next as int);
    lemma_met_is_least(adj, a, b, visited, prev, wit, queue, u, k, next);
    assert(adj[u].contains(next));
    lemma_walk_push(adj, wit[u], next);
    assert(route[0] == wit[u][0]);
    assert(is_route(adj, route, a, next));
    assert(queue2.contains(next)) by {
        assert(queue2[queue.len() as int] == next);
    }
    assert forall|x: usize| !(#[trigger] queue2.contains(x)) implies !queue.contains(x) by {
        if queue.contains(x) {
            let i = choose|i: int| 0 <= i < queue.len() && queue[i] == x;
            assert(queue2[i] == x);
        }
    }
    assert forall|v: int| 0 <= v < n && #[trigger] marks[v] implies {
        &&& is_route(adj, wit2[v], a, v as usize)
        &&& len_is_least(adj, a, v as usize, wit2[v].len())
        &&& v == a ==> wit2[v] == seq![a]
        &&& v != a ==> prev2[v] < n && marks[prev2[v] as int] && wit2[v]
            == wit2[prev2[v] as int].push(v as usize)
        &&& !queue2.contains(v as usize) && v != u ==> v != b && marked_upto(
            adj,
            marks,
            v,
            adj[v].len() as int,
        )
    } by {
        if v != next {
            assert(visited[v]);
            if v != a {
                assert(visited[prev[v] as int]);
            }
            if !queue2.contains(v as usize) && v != u {
                assert(marked_upto(adj, visited, v, adj[v].len() as int));
                assert forall|j: int| 0 <= j < adj[v].len() implies marks[(
                #[trigger] adj[v][j]) as int] by {
                    assert(visited[adj[v][j] as int]);
                }
            }
        }
    }
    assert forall|i: int| 0 <= i < queue2.len() implies (#[trigger] queue2[i]) < n
        && marks[queue2[i] as int] by {
        if i < queue.len() {
            assert(queue2[i] == queue[i]);
        }
    }
    assert forall|i: int| 0 <= i < queue2.len() implies wit[u].len() <= wit2[(
    #[trigger] queue2[i]) as int].len() <= wit[u].len() + 1 by {
        if i < queue.len() {
            assert(queue2[i] == queue[i]);
            assert(visited[queue[i] as int]);
        }
    }
    assert forall|i: int, j: int| 0 <= i <= j < queue2.len() implies wit2[(
    #[trigger] queue2[i]) as int].len() <= wit2[(#[trigger] queue2[j]) as int].len() by {
        assert(wit[u].len() <= wit2[queue2[i] as int].len() <= wit[u].len() + 1);
        if j < queue.len() {
            assert(queue2[i] == queue[i] && queue2[j] == queue[j]);
            assert(visited[queue[i] as int] && visited[queue[j] as int]);
            assert(wit[queue[i] as int].len() <= wit[queue[j] as int].len());
        }
    }
    assert forall|i: int| 0 <= i < queue2.len() implies wit2[(#[trigger] queue2[i]) as int].len()
        <= wit2[queue2[0] as int].len() + 1 by {
        assert(wit[u].len() <= wit2[queue2[0] as int].len() <= wit[u].len() + 1);
        assert(wit[u].len() <= wit2[queue2[i] as int].len() <= wit[u].len() + 1);
    }
    assert forall|j: int| 0 <= j < k + 1 implies marks[(#[trigger] adj[u][j]) as int] by {
        if j < k {
            assert(marked_upto(adj, visited, u, k));
            assert(visited[adj[u][j] as int]);
        }
    }
}

proof fn lemma_search_leaves(
    adj: Seq<Seq<usize>>,
    a: usize,
    b: usize,
    visited: Seq<bool>,
    prev: Seq<usize>,
    wit: Seq<Seq<usize>>,
    queue: Seq<usize>,
    u: int,
)
    requires
        0 <= u < adj.len(),
        search_inv(adj, a, b, visited, prev, wit, queue, u, adj[u].len() as int),
    ensures
        search_inv(adj, a, b, visited, prev, wit, queue, -1, 0),
{
    assert forall|i: int| 0 <= i < queue.len() implies wit[(#[trigger] queue[i]) as int].len()
        <= wit[queue[0] as int].len() + 1 by {
        assert(wit[u].len() <= wit[queue[0] as int].len());
        assert(wit[queue[i] as int].len() <= wit[u].len() + 1);
    }
}

proof fn lemma_search_exhausted(
    adj: Seq<Seq<usize>>,
    a: usize,
    b: usize,
    visited: Seq<bool>,
    prev: Seq<usize>,
    wit: Seq<Seq<usize>>,
    queue: Seq<usize>,
)
    requires
        search_inv(adj, a, b, visited, prev, wit, queue, -1, 0),
        queue.len() == 0,
    ensures
        !reachable(adj, a, b),
{
    assert forall|v: int, j: int|
        0 <= v < adj.len() && visited[v] && 0 <= j < adj[v].len() implies visited[(
    #[trigger] adj[v][j]) as int] by {
        assert(!queue.contains(v as usize));
        assert(marked_upto(adj, visited, v, adj[v].len() as int));
    }
    assert forall|q: Seq<usize>| !is_route(adj, q, a, b) by {
        if is_route(adj, q, a, b) {
            lemma_closed_marks_hold_walk(adj, visited, q, q.len() - 1);
            assert(visited[b as int]);
            assert(!queue.contains(b));
        }
    }
}

proof fn lemma_search_found(
    adj: Seq<Seq<usize>>,
    a: usize,
    b: usize,
    visited: Seq<bool>,
    prev: Seq<usize>,
    wit: Seq<Seq<usize>>,
    queue: Seq<usize>,
)
    requires
        search_inv(adj, a, b, visited, prev, wit, queue, -1, 0),
        queue.len() > 0,
        queue[0] == b,
    ensures
        fewest_hops(adj, wit[b as int], a, b),
        visited[b as int],
        chained(prev, wit, visited, a),
{
    assert(visited[queue[0] as int]);
}

impl OSMGraph {
    /// Plans a route from `a` to `b` with the fewest points: a breadth-first search
    /// that stops when it takes `b` from its queue.
    /// The result is `None` exactly when no route leads from `a` to `b`.
    pub fn plan_path(&self, a: usize, b: usize) -> (path: Option<Vec<usize>>)
        requires
            self.wf(),
            a < self.positions().len(),
            b < self.positions().len(),
        ensures
            is_hop_plan(self.adjacency(), a, b, plan_view(path)),
    {
        let n = self.node_count();
        let ghost adj = self.adjacency();
        let mut visited: Vec<bool> = vec![false; n];
        let mut queue: VecDeque<usize> = VecDeque::new();
        let mut prev: Vec<usize> = vec![usize::MAX; n];
        queue.push_back(a);
        visited[a] = true;
        let ghost mut wit: Seq<Seq<usize>> = Seq::new(n as nat, |v: int| seq![a]);
        proof {
            assert(queue@ =~= seq![a]);
            lemma_search_starts(adj, a, b, visited@, prev@, wit, queue@);
        }
        loop
            invariant
                self.wf(),
                adj == self.adjacency(),
                n == adj.len(),
                search_inv(adj, a, b, visited@, prev@, wit, queue@, -1, 0),
            decreases unmarked(visited@) + queue@.len(),
        {
            let ghost before = queue@;
            let ghost marks = visited@;
            let node: usize = match queue.pop_front() {
                Some(node) => node,
                None => {
                    proof {
                        lemma_search_exhausted(adj, a, b, visited@, prev@, wit, before);
                    }
                    return None;
                },
            };
            if node == b {
                proof {
                    lemma_search_found(adj, a, b, visited@, prev@, wit, before);
                }
                return Some(trace_back(&prev, a, b, Ghost(wit), Ghost(visited@)));
            }
            proof {
                lemma_search_takes(adj, a, b, visited@, prev@, wit, before);
            }
            let list = self.neighbors(node);
            let mut k: usize = 0;
            while k < list.len()
                invariant
                    self.wf(),
                    adj == self.adjacency(),
                    n == adj.len(),
                    node < n,
                    list@ == adj[node as int],
                    k <= list@.len(),
                    search_inv(adj, a, b, visited@, prev@, wit, queue@, node as int, k as int),
                    unmarked(visited@) + queue@.len() + 1 == unmarked(marks) + before.len(),
                decreases list@.len() - k,
            {
                let next: usize = list[k];
                if !visited[next] {
                    proof {
                        lemma_search_meets(
                            adj,
                            a,
                            b,
                            visited@,
                            prev@,
                            wit,
                            queue@,
                            node as int,
                            k as int,
                        );
                    }
                    visited[next] = true;
                    prev[next] = node;
                    queue.push_back(next);
                    proof {
                        wit = wit.update(next as int, wit[node as int].push(next));
                    }
                } else {
                    proof {
                        lemma_search_passes(
                            adj,
                            a,
                            b,
                            visited@,
                            prev@,
                            wit,
                            queue@,
                            node as int,
                            k as int,
                        );
                    }
                }
                k += 1;
            }
            proof {
                lemma_search_leaves(adj, a, b, visited@, prev@, wit, queue@, node as int);
            }
        }
    }
}

} // verus!
