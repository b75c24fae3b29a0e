//! The road graph of a dataset: positions and an undirected adjacency structure.

use crate::geom::Point;
use crate::grid::{cell_of, in_cell, is_nearest, SpatialIndex};
use crate::osm::OSM;
use vstd::prelude::*;

verus! {

/// The entries that one way adds to the neighbor list of `v`, in the order in which they
/// are added: each consecutive pair of the way gives its first point the second as a
/// neighbor, and then its second point the first.
pub open spec fn neighbors_in_way(way: Seq<usize>, v: usize) -> Seq<usize>
    decreases way.len(),
{
    if way.len() < 2 {
        Seq::empty()
    } else {
        let rest = neighbors_in_way(way.drop_last(), v);
        let a = way[way.len() - 2];
        let b = way.last();
        let forth = if a == v { rest.push(b) } else { rest };
        if b == v { forth.push(a) } else { forth }
    }
}

/// The neighbor list of `v` in the graph of `ways`. A segment that several ways share
/// occurs once for each of them.
pub open spec fn neighbors(ways: Seq<Seq<usize>>, v: usize) -> Seq<usize>
    decreases ways.len(),
{
    if ways.len() == 0 {
        Seq::empty()
    } else {
        neighbors(ways.drop_last(), v) + neighbors_in_way(ways.last(), v)
    }
}

/// `v` and `x` stand next to each other somewhere in `way`, in either order.
pub open spec fn adjacent_in_way(way: Seq<usize>, v: usize, x: usize) -> bool {
    exists|i: int|
        0 <= i < way.len() - 1 && ((#[trigger] way[i] == v && way[i + 1] == x) || (way[i] == x
            && way[i + 1] == v))
}

/// `v` and `x` stand next to each other in one of the `ways`.
pub open spec fn adjacent(ways: Seq<Seq<usize>>, v: usize, x: usize) -> bool {
    exists|w: int| 0 <= w < ways.len() && adjacent_in_way(#[trigger] ways[w], v, x)
}

proof fn lemma_neighbors_in_way(way: Seq<usize>, v: usize, x: usize)
    ensures
        neighbors_in_way(way, v).contains(x) <==> adjacent_in_way(way, v, x),
    decreases way.len(),
{
    if way.len() >= 2 {
        let init = way.drop_last();
        let rest = neighbors_in_way(init, v);
        let a = way[way.len() - 2];
        let b = way.last();
        let forth = if a == v { rest.push(b) } else { rest };
        let both = if b == v { forth.push(a) } else { forth };
        lemma_neighbors_in_way(init, v, x);
        let here = (a == v && b == x) || (a == x && b == v);
        assert(both.contains(x) <==> rest.contains(x) || here) by {
            if rest.contains(x) {
                let i = choose|i: int| 0 <= i < rest.len() && rest[i] == x;
                assert(forth[i] == x);
                assert(both[i] == x);
            }
            if a == v && b == x {
                assert(forth[rest.len() as int] == x);
                assert(both[rest.len() as int] == x);
            }
            if b == v && a == x {
                assert(both[forth.len() as int] == x);
            }
            if both.contains(x) {
                let i = choose|i: int| 0 <= i < both.len() && both[i] == x;
                if i < rest.len() {
                    assert(rest[i] == x);
                }
            }
        }
        assert(adjacent_in_way(way, v, x) <==> adjacent_in_way(init, v, x) || here) by {
            if adjacent_in_way(init, v, x) {
                let i = choose|i: int|
                    0 <= i < init.len() - 1 && ((#[trigger] init[i] == v && init[i + 1] == x) || (
                    init[i] == x && init[i + 1] == v));
                assert(way[i] == init[i] && way[i + 1] == init[i + 1]);
            }
            if here {
                assert(way[way.len() - 2] == a && way[way.len() - 2 + 1] == b);
            }
            if adjacent_in_way(way, v, x) {
                let i = choose|i: int|
                    0 <= i < way.len() - 1 && ((#[trigger] way[i] == v && way[i + 1] == x) || (
                    way[i] == x && way[i + 1] == v));
                if i < way.len() - 2 {
                    assert(init[i] == way[i] && init[i + 1] == way[i + 1]);
                }
            }
        }
    } else {
        assert(!neighbors_in_way(way, v).contains(x));
    }
}

/// Two points are neighbors exactly where some way has them next to each other.
pub proof fn lemma_neighbors_are_adjacent(ways: Seq<Seq<usize>>, v: usize, x: usize)
    ensures
        neighbors(ways, v).contains(x) <==> adjacent(ways, v, x),
    decreases ways.len(),
{
    if ways.len() > 0 {
        let init = ways.drop_last();
        let rest = neighbors(init, v);
        let last = neighbors_in_way(ways.last(), v);
        lemma_neighbors_are_adjacent(init, v, x);
        lemma_neighbors_in_way(ways.last(), v, x);
        assert((rest + last).contains(x) <==> rest.contains(x) || last.contains(x)) by {
            if rest.contains(x) {
                let i = choose|i: int| 0 <= i < rest.len() && rest[i] == x;
                assert((rest + last)[i] == x);
            }
            if last.contains(x) {
                let i = choose|i: int| 0 <= i < last.len() && last[i] == x;
                assert((rest + last)[rest.len() + i] == x);
            }
            if (rest + last).contains(x) {
                let i = choose|i: int| 0 <= i < (rest + last).len() && (rest + last)[i] == x;
                if i < rest.len() {
                    assert(rest[i] == x);
                } else {
                    assert(last[i - rest.len()] == x);
                }
            }
        }
        assert(adjacent(ways, v, x) <==> adjacent(init, v, x) || adjacent_in_way(
            ways.last(),
            v,
            x,
        )) by {
            if adjacent(init, v, x) {
                let w = choose|w: int|
                    0 <= w < init.len() && adjacent_in_way(#[trigger] init[w], v, x);
                assert(ways[w] == init[w]);
            }
            if adjacent_in_way(ways.last(), v, x) {
                assert(ways[ways.len() - 1] == ways.last());
            }
            if adjacent(ways, v, x) {
                let w = choose|w: int|
                    0 <= w < ways.len() && adjacent_in_way(#[trigger] ways[w], v, x);
                if w < ways.len() - 1 {
                    assert(init[w] == ways[w]);
                }
            }
        }
    } else {
        assert(!neighbors(ways, v).contains(x));
    }
}

/// The graph is undirected: where `x` is a neighbor of `v`, `v` is a neighbor of `x`.
pub proof fn lemma_neighbors_symmetric(ways: Seq<Seq<usize>>, v: usize, x: usize)
    ensures
        neighbors(ways, v).contains(x) <==> neighbors(ways, x).contains(v),
{
    lemma_neighbors_are_adjacent(ways, v, x);
    lemma_neighbors_are_adjacent(ways, x, v);
    if adjacent(ways, v, x) {
        let w = choose|w: int| 0 <= w < ways.len() && adjacent_in_way(#[trigger] ways[w], v, x);
        let i = choose|i: int|
            0 <= i < ways[w].len() - 1 && ((#[trigger] ways[w][i] == v && ways[w][i + 1] == x) || (
            ways[w][i] == x && ways[w][i + 1] == v));
        assert(adjacent_in_way(ways[w], x, v));
    }
    if adjacent(ways, x, v) {
        let w = choose|w: int| 0 <= w < ways.len() && adjacent_in_way(#[trigger] ways[w], x, v);
        let i = choose|i: int|
            0 <= i < ways[w].len() - 1 && ((#[trigger] ways[w][i] == x && ways[w][i + 1] == v) || (
            ways[w][i] == v && ways[w][i + 1] == x));
        assert(adjacent_in_way(ways[w], v, x));
    }
}

/// A graph over the points of a dataset, with a grid that finds the points near a
/// position.
pub struct OSMGraph {
    nodes: Vec<Point>,
    connected: Vec<Vec<usize>>,
    buckets: SpatialIndex,
}

impl OSMGraph {
    /// The positions of the points, by index.
    pub closed spec fn positions(&self) -> Seq<Point> {
        self.nodes@
    }

    /// The neighbor list of each point, by index.
    pub closed spec fn adjacency(&self) -> Seq<Seq<usize>> {
        Seq::new(self.connected@.len(), |v: int| self.connected@[v]@)
    }

    /// The side length of the cells of the grid.
    pub closed spec fn cell_size(&self) -> int {
        self.buckets.cell_size()
    }

    /// The grid is a grid over the points of the graph.
    pub closed spec fn grid_ok(&self) -> bool {
        self.buckets.wf() && self.buckets.points() == self.nodes@
    }

    /// Every point has a neighbor list, every neighbor is a point, and the grid is
    /// that of the points.
    pub open spec fn wf(&self) -> bool {
        &&& self.grid_ok()
        &&& self.cell_size() > 0
        &&& self.positions().len() <= usize::MAX
        &&& self.adjacency().len() == self.positions().len()
        &&& forall|v: int, k: int|
            0 <= v < self.adjacency().len() && 0 <= k < self.adjacency()[v].len() ==> (
            #[trigger] self.adjacency()[v][k]) < self.positions().len()
    }

    /// The number of points.
    pub fn node_count(&self) -> (n: usize)
        ensures
            n == self.positions().len(),
    {
        self.nodes.len()
    }

    /// The position of point `v`.
    pub fn position(&self, v: usize) -> (p: Point)
        requires
            v < self.positions().len(),
        ensures
            p == self.positions()[v as int],
    {
        self.nodes[v]
    }

    /// The neighbor list of point `v`.
    pub fn neighbors(&self, v: usize) -> (list: &Vec<usize>)
        requires
            self.wf(),
            v < self.positions().len(),
        ensures
            list@ == self.adjacency()[v as int],
    {
        &self.connected[v]
    }

    /// The point nearest to `pos` among the points in the grid cell that holds `pos`,
    /// and of several equally near ones the one with the least index. Points of other
    /// cells are not looked at. `None` where the cell holds no point.
    pub fn closest_node(&self, pos: Point) -> (found: Option<usize>)
        requires
            self.wf(),
        ensures
            match found {
                Some(best) => is_nearest(
                    self.positions(),
                    in_cell(self.positions(), self.cell_size(), cell_of(pos, self.cell_size())),
                    pos,
                    best,
                ),
                None => in_cell(
                    self.positions(),
                    self.cell_size(),
                    cell_of(pos, self.cell_size()),
                ).len() == 0,
            },
    {
        self.buckets.nearest(&self.nodes, pos)
    }

    /// Builds the graph of a dataset: a point for each point of the dataset, for each
    /// consecutive pair of each way an entry in the neighbor lists of both ends, and a
    /// grid over the points with cells of side `cell_size`.
    pub fn from_osm(osm: &OSM, cell_size: i32) -> (graph: OSMGraph)
        requires
            osm.wf(),
            cell_size > 0,
        ensures
            graph.wf(),
            graph.cell_size() == cell_size,
            graph.positions() == osm.points(),
            forall|v: int|
                0 <= v < graph.adjacency().len() ==> #[trigger] graph.adjacency()[v] == neighbors(
                    osm.way_seqs(),
                    v as usize,
                ),
    {
        let n = osm.node_count();
        let mut nodes: Vec<Point> = Vec::new();
        let mut connected: Vec<Vec<usize>> = Vec::new();
        let mut i: usize = 0;
        while i < n
            invariant
                i <= n,
                n == osm.points().len(),
                nodes@ == osm.points().take(i as int),
                connected@.len() == i,
                forall|v: int| 0 <= v < i ==> (#[trigger] connected@[v])@.len() == 0,
            decreases n - i,
        {
            nodes.push(osm.position(i));
            connected.push(Vec::new());
            proof {
                assert(nodes@ =~= osm.points().take(i + 1));
            }
            i += 1;
        }
        proof {
            assert(osm.points().take(n as int) =~= osm.points());
        }
        let ways = osm.ways();
        let ghost all = osm.way_seqs();
        let mut w: usize = 0;
        while w < ways.len()
            invariant
                w <= ways@.len(),
                osm.wf(),
                all == osm.way_seqs(),
                ways@.len() == all.len(),
                forall|k: int| 0 <= k < ways@.len() ==> (#[trigger] ways@[k])@ == all[k],
                n == osm.points().len(),
                connected@.len() == n,
                forall|v: int|
                    0 <= v < n ==> (#[trigger] connected@[v])@ == neighbors(
                        all.take(w as int),
                        v as usize,
                    ),
                forall|v: int, k: int|
                    0 <= v < n && 0 <= k < connected@[v]@.len() ==> (#[trigger] connected@[v]@[k])
                        < n,
            decreases ways@.len() - w,
        {
            let way = &ways[w];
            proof {
                assert(way@ == all[w as int]);
                assert(way@.len() >= 3);
                assert(all.take(w + 1).drop_last() =~= all.take(w as int));
                assert(all.take(w + 1).last() == way@);
            }
            let mut i: usize = 0;
            while i < way.len() - 1
                invariant
                    i <= way@.len() - 1,
                    way@.len() >= 3,
                    way@ == all[w as int],
                    w < all.len(),
                    osm.wf(),
                    all == osm.way_seqs(),
                    n == osm.points().len(),
                    connected@.len() == n,
                    forall|v: int|
                        0 <= v < n ==> (#[trigger] connected@[v])@ == neighbors(
                            all.take(w as int),
                            v as usize,
                        ) + neighbors_in_way(way@.take(i + 1), v as usize),
                    forall|v: int, k: int|
                        0 <= v < n && 0 <= k < connected@[v]@.len() ==> (
                        #[trigger] connected@[v]@[k]) < n,
                decreases way@.len() - i,
            {
                let a = way[i];
                let b = way[i + 1];
                proof {
                    assert(all[w as int][i as int] < n);
                    assert(all[w as int][i + 1] < n);
                    assert(way@.take(i + 2).drop_last() =~= way@.take(i + 1));
                    assert(way@.take(i + 2).last() == b);
                    assert(way@.take(i + 2)[i as int] == a);
                }
                let ghost before = connected@;
                connected[a].push(b);
                connected[b].push(a);
                proof {
                    assert forall|v: int| 0 <= v < n implies (#[trigger] connected@[v])@
                        == neighbors(all.take(w as int), v as usize) + neighbors_in_way(
                        way@.take(i + 2),
                        v as usize,
                    ) by {
                        let base = neighbors(all.take(w as int), v as usize);
                        let rest = neighbors_in_way(way@.take(i + 1), v as usize);
                        assert(before[v]@ == base + rest);
                        let forth = if a == v { rest.push(b) } else { rest };
                        let both = if b == v { forth.push(a) } else { forth };
                        assert(neighbors_in_way(way@.take(i + 2), v as usize) == both);
                        assert(connected@[v]@ =~= base + both);
                    }
                }
                i += 1;
            }
            proof {
                assert(way@.take(way@.len() as int) =~= way@);
            }
            w += 1;
        }
        proof {
            assert(all.take(ways@.len() as int) =~= all);
        }
        let buckets = SpatialIndex::build(&nodes, cell_size);
        let graph = OSMGraph { nodes, connected, buckets };
        proof {
            assert forall|v: int|
                0 <= v < graph.adjacency().len() implies #[trigger] graph.adjacency()[v]
                == neighbors(osm.way_seqs(), v as usize) by {
                assert(graph.adjacency()[v] == connected@[v]@);
            }
            assert forall|v: int, k: int|
                0 <= v < graph.adjacency().len() && 0 <= k < graph.adjacency()[v].len() implies (
            #[trigger] graph.adjacency()[v][k]) < graph.positions().len() by {
                assert(graph.adjacency()[v][k] == connected@[v]@[k]);
            }
        }
        graph
    }
}

} // verus!
