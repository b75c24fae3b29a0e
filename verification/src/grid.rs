//! A grid of square cells over the plane that finds the points of a cell, and the
//! nearest of them to a position.

use crate::geom::{dist2, dist2_of, floor_div, Point};
use std::collections::HashMap;
use vstd::arithmetic::div_mod::lemma_fundamental_div_mod;
use vstd::prelude::*;

verus! {

broadcast use vstd::std_specs::hash::group_hash_axioms;

/// The cell that holds `p`: each coordinate divided by the cell size, rounded down.
pub open spec fn cell_of(p: Point, cell_size: int) -> (int, int) {
    (p.x as int / cell_size, p.y as int / cell_size)
}

/// The indices of the points that lie in `cell`, in ascending order.
pub open spec fn in_cell(points: Seq<Point>, cell_size: int, cell: (int, int)) -> Seq<usize>
    decreases points.len(),
{
    if points.len() == 0 {
        Seq::empty()
    } else {
        let rest = in_cell(points.drop_last(), cell_size, cell);
        if cell_of(points.last(), cell_size) == cell {
            rest.push((points.len() - 1) as usize)
        } else {
            rest
        }
    }
}

/// `best` is the nearest of the `candidates` to `pos`, and the first of them in the
/// list where several are equally near.
pub open spec fn is_nearest(
    points: Seq<Point>,
    candidates: Seq<usize>,
    pos: Point,
    best: usize,
) -> bool {
    exists|at: int|
        {
            &&& 0 <= at < candidates.len()
            &&& #[trigger] candidates[at] == best
            &&& forall|j: int|
                0 <= j < candidates.len() ==> dist2(points[best as int], pos) <= dist2(
                    points[(#[trigger] candidates[j]) as int],
                    pos,
                )
            &&& forall|j: int|
                0 <= j < at ==> dist2(points[best as int], pos) < dist2(
                    points[(#[trigger] candidates[j]) as int],
                    pos,
                )
        }
}

/// Every point is among the points of its own cell.
pub proof fn lemma_point_in_own_cell(points: Seq<Point>, cell_size: int, i: int)
    requires
        0 <= i < points.len(),
        points.len() <= usize::MAX,
    ensures
        in_cell(points, cell_size, cell_of(points[i], cell_size)).contains(i as usize),
    decreases points.len(),
{
    let cell = cell_of(points[i], cell_size);
    let rest = in_cell(points.drop_last(), cell_size, cell);
    let all = in_cell(points, cell_size, cell);
    if i == points.len() - 1 {
        assert(all == rest.push(i as usize));
        assert(all[rest.len() as int] == i as usize);
    } else {
        lemma_point_in_own_cell(points.drop_last(), cell_size, i);
        let at = choose|at: int| 0 <= at < rest.len() && rest[at] == i as usize;
        assert(all[at] == i as usize);
    }
}

spec fn coordinate(c: int) -> bool {
    -0x8000_0000 <= c < 0x8000_0000
}

spec fn cell_key(cx: int, cy: int) -> u64 {
    ((cx + 0x8000_0000) * 0x1_0000_0000 + (cy + 0x8000_0000)) as u64
}

proof fn lemma_cell_key_injective(ax: int, ay: int, bx: int, by: int)
    requires
        coordinate(ax),
        coordinate(ay),
        coordinate(bx),
        coordinate(by),
        cell_key(ax, ay) == cell_key(bx, by),
    ensures
        ax == bx,
        ay == by,
{
}

proof fn lemma_cell_is_coordinate(x: i32, cell_size: int)
    requires
        cell_size > 0,
    ensures
        coordinate(x as int / cell_size),
{
    let q = x as int / cell_size;
    let r = x as int % cell_size;
    lemma_fundamental_div_mod(x as int, cell_size);
    if q >= 0x8000_0000 {
        assert(cell_size * q >= q) by (nonlinear_arith)
            requires
                cell_size >= 1,
                q >= 0,
        ;
    }
    if q < -0x8000_0000 {
        assert(cell_size * q <= q) by (nonlinear_arith)
            requires
                cell_size >= 1,
                q <= 0,
        ;
        assert(cell_size * (q + 1) <= q + 1) by (nonlinear_arith)
            requires
                cell_size >= 1,
                q + 1 <= 0,
        ;
        assert(cell_size * (q + 1) == cell_size * q + cell_size) by (nonlinear_arith);
    }
}

/// Every index that a cell holds is the index of a point, and that point lies in the
/// cell.
pub proof fn lemma_in_cell_holds(points: Seq<Point>, cell_size: int, cell: (int, int), at: int)
    requires
        0 <= at < in_cell(points, cell_size, cell).len(),
        points.len() <= usize::MAX,
    ensures
        in_cell(points, cell_size, cell)[at] < points.len(),
        cell_of(points[in_cell(points, cell_size, cell)[at] as int], cell_size) == cell,
    decreases points.len(),
{
    let rest = in_cell(points.drop_last(), cell_size, cell);
    if at < rest.len() {
        lemma_in_cell_holds(points.drop_last(), cell_size, cell, at);
    }
}

/// A grid over a list of points: for each cell that holds any, the indices of its points.
pub struct SpatialIndex {
    cell_size: i32,
    buckets: HashMap<u64, Vec<usize>>,
    points: Ghost<Seq<Point>>,
}

impl SpatialIndex {
    /// The side length of a cell.
    pub closed spec fn cell_size(&self) -> int {
        self.cell_size as int
    }

    /// The points that the grid was built over.
    pub closed spec fn points(&self) -> Seq<Point> {
        self.points@
    }

    /// The grid has a positive cell size, and holds for each cell the points in it.
    pub closed spec fn wf(&self) -> bool {
        &&& self.cell_size > 0
        &&& self.points@.len() <= usize::MAX
        &&& forall|cx: int, cy: int|
            coordinate(cx) && coordinate(cy) ==> {
                let key = #[trigger] cell_key(cx, cy);
                let list = in_cell(self.points@, self.cell_size as int, (cx, cy));
                if self.buckets@.contains_key(key) {
                    self.buckets@[key]@ == list && list.len() > 0
                } else {
                    list.len() == 0
                }
            }
    }

    /// Builds the grid over `points` with cells of side `cell_size`.
    pub fn build(points: &Vec<Point>, cell_size: i32) -> (grid: SpatialIndex)
        requires
            cell_size > 0,
        ensures
            grid.wf(),
            grid.cell_size() == cell_size,
            grid.points() == points@,
    {
        let mut buckets: HashMap<u64, Vec<usize>> = HashMap::new();
        let mut i: usize = 0;
        while i < points.len()
            invariant
                i <= points@.len(),
                cell_size > 0,
                forall|cx: int, cy: int|
                    coordinate(cx) && coordinate(cy) ==> {
                        let key = #[trigger] cell_key(cx, cy);
                        let list = in_cell(points@.take(i as int), cell_size as int, (cx, cy));
                        if buckets@.contains_key(key) {
                            buckets@[key]@ == list && list.len() > 0
                        } else {
                            list.len() == 0
                        }
                    },
            decreases points@.len() - i,
        {
            let p = points[i];
            let (cx, cy) = cell_at(p, cell_size);
            let key = key_at(cx, cy);
            let ghost before = buckets@;
            let ghost prefix = points@.take(i as int);
            let ghost grown = points@.take(i + 1);
            proof {
                assert(grown.drop_last() =~= prefix);
                assert(grown.last() == p);
            }
            let mut list: Vec<usize> = match buckets.remove(&key) {
                Some(list) => list,
                None => Vec::new(),
            };
            proof {
                assert(list@ == in_cell(prefix, cell_size as int, (cx as int, cy as int)));
            }
            list.push(i);
            buckets.insert(key, list);
            proof {
                assert forall|ax: int, ay: int| coordinate(ax) && coordinate(ay) implies {
                    let k = #[trigger] cell_key(ax, ay);
                    let l = in_cell(grown, cell_size as int, (ax, ay));
                    if buckets@.contains_key(k) {
                        buckets@[k]@ == l && l.len() > 0
                    } else {
                        l.len() == 0
                    }
                } by {
                    let k = cell_key(ax, ay);
                    if k == key {
                        lemma_cell_key_injective(ax, ay, cx as int, cy as int);
                    } else {
                        assert(before.contains_key(k) == buckets@.contains_key(k));
                        assert((ax, ay) != (cx as int, cy as int));
                    }
                }
            }
            i += 1;
        }
        proof {
            assert(points@.take(points@.len() as int) =~= points@);
        }
        SpatialIndex { cell_size, buckets, points: Ghost(points@) }
    }

    /// The cell that holds the position (`x`, `y`).
    pub fn convert(&self, x: i32, y: i32) -> (cell: (i32, i32))
        requires
            self.wf(),
        ensures
            (cell.0 as int, cell.1 as int) == cell_of(Point { x, y }, self.cell_size()),
    {
        cell_at(Point { x, y }, self.cell_size)
    }

    /// The indices of the points in the cell that holds (`x`, `y`), in ascending order;
    /// `None` where the cell holds no point.
    pub fn get(&self, x: i32, y: i32) -> (found: Option<&[usize]>)
        requires
            self.wf(),
        ensures
            match found {
                Some(list) => list@.len() > 0 && list@ == in_cell(
                    self.points(),
                    self.cell_size(),
                    cell_of(Point { x, y }, self.cell_size()),
                ),
                None => in_cell(
                    self.points(),
                    self.cell_size(),
                    cell_of(Point { x, y }, self.cell_size()),
                ).len() == 0,
            },
    {
        let (cx, cy) = cell_at(Point { x, y }, self.cell_size);
        let key = key_at(cx, cy);
        proof {
            assert(coordinate(cx as int) && coordinate(cy as int));
            assert(key == cell_key(cx as int, cy as int));
        }
        match self.buckets.get(&key) {
            Some(list) => Some(list.as_slice()),
            None => None,
        }
    }

    /// The point nearest to `pos` among those in the cell that holds `pos`, and of
    /// several equally near ones the one with the least index. Points of other cells
    /// are not looked at, however near they are. `None` where the cell holds no point.
    pub fn nearest(&self, points: &Vec<Point>, pos: Point) -> (found: Option<usize>)
        requires
            self.wf(),
            points@ == self.points(),
        ensures
            match found {
                Some(best) => is_nearest(
                    points@,
                    in_cell(points@, self.cell_size(), cell_of(pos, self.cell_size())),
                    pos,
                    best,
                ),
                None => in_cell(points@, self.cell_size(), cell_of(pos, self.cell_size())).len()
                    == 0,
            },
    {
        let list = match self.get(pos.x, pos.y) {
            Some(list) => list,
            None => {
                return None;
            },
        };
        let ghost cell = cell_of(pos, self.cell_size());
        let ghost candidates = in_cell(points@, self.cell_size(), cell);
        proof {
            assert(Point { x: pos.x, y: pos.y } == pos);
            assert forall|j: int| 0 <= j < candidates.len() implies (#[trigger] candidates[j])
                < points@.len() by {
                lemma_in_cell_holds(points@, self.cell_size(), cell, j);
            }
        }
        let mut best: usize = list[0];
        let mut least: u128 = dist2_of(points[best], pos);
        let ghost mut at: int = 0;
        let mut i: usize = 1;
        while i < list.len()
            invariant
                list@ == candidates,
                1 <= i <= list@.len(),
                forall|j: int|
                    0 <= j < candidates.len() ==> (#[trigger] candidates[j]) < points@.len(),
                0 <= at < i,
                candidates[at] == best,
                least == dist2(points@[best as int], pos),
                forall|j: int|
                    0 <= j < i ==> least <= dist2(points@[(#[trigger] candidates[j]) as int], pos),
                forall|j: int|
                    0 <= j < at ==> least < dist2(points@[(#[trigger] candidates[j]) as int], pos),
            decreases list@.len() - i,
        {
            let other: usize = list[i];
            let d: u128 = dist2_of(points[other], pos);
            if d < least {
                least = d;
                best = other;
                proof {
                    at = i as int;
                }
            }
            i += 1;
        }
        Some(best)
    }
}

fn cell_at(p: Point, cell_size: i32) -> (cell: (i32, i32))
    requires
        cell_size > 0,
    ensures
        (cell.0 as int, cell.1 as int) == cell_of(p, cell_size as int),
        coordinate(cell.0 as int),
        coordinate(cell.1 as int),
{
    proof {
        lemma_cell_is_coordinate(p.x, cell_size as int);
        lemma_cell_is_coordinate(p.y, cell_size as int);
    }
    let cx: i128 = floor_div(p.x as i128, cell_size as i128);
    let cy: i128 = floor_div(p.y as i128, cell_size as i128);
    (cx as i32, cy as i32)
}

fn key_at(cx: i32, cy: i32) -> (key: u64)
    ensures
        key == cell_key(cx as int, cy as int),
{
    let hi: u64 = (cx as i64 + 0x8000_0000) as u64;
    let lo: u64 = (cy as i64 + 0x8000_0000) as u64;
    hi * 0x1_0000_0000 + lo
}

} // verus!
