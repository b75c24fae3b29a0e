//! Walks through a graph, their lengths and costs, and what it means for a route to be
//! the shortest.

use crate::geom::{edge_len, lemma_edge_len_symmetric, lemma_edge_len_triangle, max_edge_len, Point};
use vstd::prelude::*;

verus! {

/// Step `i` of `p` follows an edge: the next point is a neighbor of the point before it.
pub open spec fn step_ok(adj: Seq<Seq<usize>>, p: Seq<usize>, i: int) -> bool {
    adj[p[i] as int].contains(p[i + 1])
}

/// `p` is a walk: a nonempty sequence of points in which each step follows an edge.
pub open spec fn is_walk(adj: Seq<Seq<usize>>, p: Seq<usize>) -> bool {
    &&& p.len() > 0
    &&& forall|i: int| 0 <= i < p.len() ==> (#[trigger] p[i]) < adj.len()
    &&& forall|i: int| 0 <= i < p.len() - 1 ==> #[trigger] step_ok(adj, p, i)
}

/// `p` is a route from `a` to `b`: a walk that starts at `a` and ends at `b`.
pub open spec fn is_route(adj: Seq<Seq<usize>>, p: Seq<usize>, a: usize, b: usize) -> bool {
    is_walk(adj, p) && p[0] == a && p.last() == b
}

/// There is a route from `a` to `b`.
pub open spec fn reachable(adj: Seq<Seq<usize>>, a: usize, b: usize) -> bool {
    exists|p: Seq<usize>| is_route(adj, p, a, b)
}

/// The cost of a walk: the sum of the lengths of its segments.
pub open spec fn walk_cost(pos: Seq<Point>, p: Seq<usize>) -> nat
    decreases p.len(),
{
    if p.len() < 2 {
        0
    } else {
        walk_cost(pos, p.drop_last()) + edge_len(pos[p[p.len() - 2] as int], pos[p.last() as int])
    }
}

/// `p` is a route from `a` to `b` with the fewest points that any such route has.
pub open spec fn fewest_hops(adj: Seq<Seq<usize>>, p: Seq<usize>, a: usize, b: usize) -> bool {
    &&& is_route(adj, p, a, b)
    &&& forall|q: Seq<usize>| #[trigger] is_route(adj, q, a, b) ==> p.len() <= q.len()
}

/// `p` is a route from `a` to `b` of the least cost that any such route has.
pub open spec fn cheapest(
    adj: Seq<Seq<usize>>,
    pos: Seq<Point>,
    p: Seq<usize>,
    a: usize,
    b: usize,
) -> bool {
    &&& is_route(adj, p, a, b)
    &&& forall|q: Seq<usize>| #[trigger]
        is_route(adj, q, a, b) ==> walk_cost(pos, p) <= walk_cost(pos, q)
}

/// The route of a plan, if the plan has one.
pub open spec fn plan_view(plan: Option<Vec<usize>>) -> Option<Seq<usize>> {
    match plan {
        Some(p) => Some(p@),
        None => None,
    }
}

/// `plan` answers the question for a route from `a` to `b` with the fewest points: it
/// is such a route, or there is no route at all.
pub open spec fn is_hop_plan(
    adj: Seq<Seq<usize>>,
    a: usize,
    b: usize,
    plan: Option<Seq<usize>>,
) -> bool {
    match plan {
        Some(p) => fewest_hops(adj, p, a, b),
        None => !reachable(adj, a, b),
    }
}

/// `plan` answers the question for a cheapest route from `a` to `b`: it is such a
/// route, or there is no route at all.
pub open spec fn is_cost_plan(
    adj: Seq<Seq<usize>>,
    pos: Seq<Point>,
    a: usize,
    b: usize,
    plan: Option<Seq<usize>>,
) -> bool {
    match plan {
        Some(p) => cheapest(adj, pos, p, a, b),
        None => !reachable(adj, a, b),
    }
}

/// The search by points and the search by cost agree on whether `b` can be reached
/// from `a`: either both find a route or neither does. Where they find routes, the
/// one has no more points than the other, and the other costs no more than the one.
pub proof fn lemma_plans_agree(
    adj: Seq<Seq<usize>>,
    pos: Seq<Point>,
    a: usize,
    b: usize,
    by_hops: Option<Seq<usize>>,
    by_cost: Option<Seq<usize>>,
)
    requires
        is_hop_plan(adj, a, b, by_hops),
        is_cost_plan(adj, pos, a, b, by_cost),
    ensures
        by_hops is Some <==> by_cost is Some,
        by_hops is Some <==> reachable(adj, a, b),
        by_hops is Some ==> by_hops->0.len() <= by_cost->0.len(),
        by_hops is Some ==> walk_cost(pos, by_cost->0) <= walk_cost(pos, by_hops->0),
{
    if let Some(p) = by_hops {
        assert(is_route(adj, p, a, b));
    }
    if let Some(q) = by_cost {
        assert(is_route(adj, q, a, b));
    }
}

/// The number of entries of `marks` that are not set.
pub open spec fn unmarked(marks: Seq<bool>) -> nat
    decreases marks.len(),
{
    if marks.len() == 0 {
        0
    } else {
        unmarked(marks.drop_last()) + if marks.last() { 0nat } else { 1nat }
    }
}

/// No more entries are unmarked than there are.
pub proof fn lemma_unmarked_bound(marks: Seq<bool>)
    ensures
        unmarked(marks) <= marks.len(),
    decreases marks.len(),
{
    if marks.len() > 0 {
        lemma_unmarked_bound(marks.drop_last());
    }
}

/// Where every mark of `fewer` is a mark of `more` too, `more` leaves no more entries
/// unmarked; and where `more` has a mark at `extra` that `fewer` has not, it leaves
/// fewer.
pub proof fn lemma_unmarked_subset(fewer: Seq<bool>, more: Seq<bool>, extra: int)
    requires
        fewer.len() == more.len(),
        forall|i: int| 0 <= i < fewer.len() && fewer[i] ==> more[i],
    ensures
        unmarked(more) <= unmarked(fewer),
        0 <= extra < fewer.len() && !fewer[extra] && more[extra] ==> unmarked(more) < unmarked(
            fewer,
        ),
    decreases fewer.len(),
{
    if fewer.len() > 0 {
        lemma_unmarked_subset(fewer.drop_last(), more.drop_last(), extra);
    }
}

/// The number of points that can be reached from `a`, `a` itself among them.
pub open spec fn reachable_count(adj: Seq<Seq<usize>>, a: usize) -> nat {
    (adj.len() - unmarked(Seq::new(adj.len(), |v: int| reachable(adj, a, v as usize)))) as nat
}

/// Where no mark is set, every entry is unmarked.
pub proof fn lemma_all_unmarked(marks: Seq<bool>)
    requires
        forall|i: int| 0 <= i < marks.len() ==> !marks[i],
    ensures
        unmarked(marks) == marks.len(),
    decreases marks.len(),
{
    if marks.len() > 0 {
        lemma_all_unmarked(marks.drop_last());
    }
}

/// Setting a mark that was not set leaves one unmarked entry fewer.
pub proof fn lemma_unmarked_set(marks: Seq<bool>, i: int)
    requires
        0 <= i < marks.len(),
        !marks[i],
    ensures
        unmarked(marks.update(i, true)) + 1 == unmarked(marks),
    decreases marks.len(),
{
    let after = marks.update(i, true);
    if i == marks.len() - 1 {
        assert(after.drop_last() =~= marks.drop_last());
    } else {
        assert(after.drop_last() =~= marks.drop_last().update(i, true));
        lemma_unmarked_set(marks.drop_last(), i);
    }
}

/// A walk goes on by one step along an edge.
pub proof fn lemma_walk_push(adj: Seq<Seq<usize>>, p: Seq<usize>, v: usize)
    requires
        is_walk(adj, p),
        v < adj.len(),
        adj[p.last() as int].contains(v),
    ensures
        is_walk(adj, p.push(v)),
{
    let q = p.push(v);
    assert forall|i: int| 0 <= i < q.len() implies (#[trigger] q[i]) < adj.len() by {
        if i < p.len() {
            assert(q[i] == p[i]);
        }
    }
    assert forall|i: int| 0 <= i < q.len() - 1 implies #[trigger] step_ok(adj, q, i) by {
        if i < p.len() - 1 {
            assert(step_ok(adj, p, i));
        }
    }
}

/// The first `k` points of a walk are a walk.
pub proof fn lemma_walk_prefix(adj: Seq<Seq<usize>>, p: Seq<usize>, k: int)
    requires
        is_walk(adj, p),
        1 <= k <= p.len(),
    ensures
        is_walk(adj, p.take(k)),
{
    let q = p.take(k);
    assert forall|i: int| 0 <= i < q.len() implies (#[trigger] q[i]) < adj.len() by {
        assert(q[i] == p[i]);
    }
    assert forall|i: int| 0 <= i < q.len() - 1 implies #[trigger] step_ok(adj, q, i) by {
        assert(step_ok(adj, p, i));
    }
}

/// What is left of a walk from its point `k` on is a walk.
pub proof fn lemma_walk_suffix(adj: Seq<Seq<usize>>, p: Seq<usize>, k: int)
    requires
        is_walk(adj, p),
        0 <= k < p.len(),
    ensures
        is_walk(adj, p.skip(k)),
{
    let q = p.skip(k);
    assert forall|i: int| 0 <= i < q.len() implies (#[trigger] q[i]) < adj.len() by {
        assert(q[i] == p[i + k]);
    }
    assert forall|i: int| 0 <= i < q.len() - 1 implies #[trigger] step_ok(adj, q, i) by {
        assert(step_ok(adj, p, i + k));
    }
}

/// One more step adds the length of its segment to the cost.
pub proof fn lemma_cost_push(pos: Seq<Point>, p: Seq<usize>, v: usize)
    requires
        p.len() > 0,
    ensures
        walk_cost(pos, p.push(v)) == walk_cost(pos, p) + edge_len(
            pos[p.last() as int],
            pos[v as int],
        ),
{
    let q = p.push(v);
    assert(q.drop_last() =~= p);
}

/// The cost of a walk is the cost up to its point `k` and the cost from there on.
pub proof fn lemma_cost_split(pos: Seq<Point>, p: Seq<usize>, k: int)
    requires
        0 <= k < p.len(),
    ensures
        walk_cost(pos, p) == walk_cost(pos, p.take(k + 1)) + walk_cost(pos, p.skip(k)),
    decreases p.len(),
{
    if k == p.len() - 1 {
        assert(p.take(k + 1) =~= p);
        assert(p.skip(k).len() == 1);
    } else {
        let q = p.drop_last();
        lemma_cost_split(pos, q, k);
        assert(q.take(k + 1) =~= p.take(k + 1));
        assert(p.skip(k).drop_last() =~= q.skip(k));
        assert(p.skip(k).last() == p.last());
        assert(p.skip(k)[p.skip(k).len() - 2] == p[p.len() - 2]);
    }
}

/// No walk costs more than its number of steps times the greatest segment length.
pub proof fn lemma_cost_bound(pos: Seq<Point>, p: Seq<usize>)
    requires
        p.len() > 0,
    ensures
        walk_cost(pos, p) <= (p.len() - 1) * max_edge_len(),
    decreases p.len(),
{
    if p.len() >= 2 {
        lemma_cost_bound(pos, p.drop_last());
        lemma_edge_len_symmetric(pos[p[p.len() - 2] as int], pos[p.last() as int]);
    }
}

/// The straight-line length to a goal never overestimates: from the start of a walk it
/// is at most the cost of the walk and the straight-line length from the walk's end.
pub proof fn lemma_straight_line_is_consistent(pos: Seq<Point>, p: Seq<usize>, goal: Point)
    requires
        p.len() > 0,
    ensures
        edge_len(pos[p[0] as int], goal) <= walk_cost(pos, p) + edge_len(
            pos[p.last() as int],
            goal,
        ),
    decreases p.len(),
{
    if p.len() >= 2 {
        let q = p.drop_last();
        lemma_straight_line_is_consistent(pos, q, goal);
        lemma_edge_len_triangle(pos[q.last() as int], pos[p.last() as int], goal);
    }
}

/// The index of the first point of `q`, from `from` on, that is not marked; the length
/// of `q` if all are.
pub open spec fn first_open(marks: Seq<bool>, q: Seq<usize>, from: int) -> int
    decreases q.len() - from,
{
    if from >= q.len() || !marks[q[from] as int] {
        from
    } else {
        first_open(marks, q, from + 1)
    }
}

/// A sequence of points whose last is not marked has a first point that is not marked,
/// and all points before that one are marked.
pub proof fn lemma_first_open(marks: Seq<bool>, q: Seq<usize>, from: int)
    requires
        0 <= from < q.len(),
        !marks[q.last() as int],
    ensures
        from <= first_open(marks, q, from) < q.len(),
        !marks[q[first_open(marks, q, from)] as int],
        forall|j: int| from <= j < first_open(marks, q, from) ==> marks[(#[trigger] q[j]) as int],
    decreases q.len() - from,
{
    if marks[q[from] as int] {
        lemma_first_open(marks, q, from + 1);
    }
}

/// A set of points that holds the start of a walk, and with each point its neighbors,
/// holds every point of the walk.
pub proof fn lemma_closed_marks_hold_walk(
    adj: Seq<Seq<usize>>,
    marks: Seq<bool>,
    p: Seq<usize>,
    i: int,
)
    requires
        is_walk(adj, p),
        marks.len() == adj.len(),
        marks[p[0] as int],
        forall|v: int, k: int|
            0 <= v < adj.len() && marks[v] && 0 <= k < adj[v].len() ==> marks[(
            #[trigger] adj[v][k]) as int],
        0 <= i < p.len(),
    ensures
        marks[p[i] as int],
    decreases i,
{
    if i > 0 {
        lemma_closed_marks_hold_walk(adj, marks, p, i - 1);
        assert(step_ok(adj, p, i - 1));
        let v = p[i - 1] as int;
        let k = choose|k: int| 0 <= k < adj[v].len() && adj[v][k] == p[i];
        assert(marks[adj[v][k] as int]);
    }
}

} // verus!
