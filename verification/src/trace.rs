//! Reading a route off the predecessor links that a search leaves behind.

use vstd::prelude::*;

verus! {

/// Each known point but the source has a known predecessor, and its route is the route
/// of the predecessor with the point itself at its end; the route of the source is the
/// source alone.
pub open spec fn chained(
    prev: Seq<usize>,
    routes: Seq<Seq<usize>>,
    known: Seq<bool>,
    a: usize,
) -> bool {
    forall|v: int|
        0 <= v < known.len() && #[trigger] known[v] ==> {
            &&& v == a ==> routes[v] == seq![a]
            &&& v != a ==> prev[v] < known.len() && known[prev[v] as int] && routes[v]
                == routes[prev[v] as int].push(v as usize)
        }
}

/// The list `v` in reverse order.
pub fn reversed(v: &Vec<usize>) -> (out: Vec<usize>)
    ensures
        out@ == v@.reverse(),
{
    let mut out: Vec<usize> = Vec::new();
    let mut i: usize = v.len();
    while i > 0
        invariant
            i <= v@.len(),
            out@.len() == v@.len() - i,
            forall|j: int| 0 <= j < out@.len() ==> out@[j] == v@[v@.len() - 1 - j],
        decreases i,
    {
        i -= 1;
        out.push(v[i]);
    }
    assert(out@ =~= v@.reverse());
    out
}

/// Follows the predecessor links from `b` back to `a` and returns the route from `a`
/// to `b` that they spell.
pub(crate) fn trace_back(
    prev: &Vec<usize>,
    a: usize,
    b: usize,
    Ghost(routes): Ghost<Seq<Seq<usize>>>,
    Ghost(known): Ghost<Seq<bool>>,
) -> (path: Vec<usize>)
    requires
        prev@.len() == known.len(),
        routes.len() == known.len(),
        a < known.len(),
        b < known.len(),
        known[b as int],
        chained(prev@, routes, known, a),
    ensures
        path@ == routes[b as int],
{
    let mut back: Vec<usize> = Vec::new();
    let mut node: usize = b;
    while node != a
        invariant
            prev@.len() == known.len(),
            routes.len() == known.len(),
            a < known.len(),
            node < known.len(),
            known[node as int],
            chained(prev@, routes, known, a),
            routes[b as int] == routes[node as int] + back@.reverse(),
        decreases routes[node as int].len(),
    {
        let ghost before = back@;
        let ghost here = node;
        back.push(node);
        node = prev[node];
        proof {
            assert(routes[here as int] == routes[node as int].push(here));
            assert(back@.reverse() =~= seq![here] + before.reverse());
            assert(routes[node as int] + back@.reverse() =~= routes[here as int]
                + before.reverse());
        }
    }
    let ghost before = back@;
    back.push(a);
    proof {
        assert(routes[a as int] == seq![a]);
        assert(back@.reverse() =~= seq![a] + before.reverse());
    }
    reversed(&back)
}

} // verus!
