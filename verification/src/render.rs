//! What a line-strip renderer draws: the points of a dataset projected into a window
//! around the origin, and an index buffer that strings the ways together.

use crate::geom::{floor_div, Point};
use crate::grid::{cell_of, in_cell, SpatialIndex};
use crate::osm::{lemma_bounds_hold_points, max_corner, min_corner, OSM};
use vstd::arithmetic::div_mod::lemma_fundamental_div_mod;
use vstd::prelude::*;

verus! {

/// The render-space length that stands for 1: a projected coordinate `c` means
/// `c / RENDER_UNIT`.
pub const RENDER_UNIT: i32 = 0x4000_0000;

/// The index that separates two ways in an index buffer: the renderer starts a new
/// line strip there.
pub const RESTART: u32 = 0xFFFF_FFFF;

/// A vertex of the drawing: a position in render space.
#[derive(Clone, Copy, Debug, PartialEq, Eq, Structural)]
pub struct Vertex {
    pub pos: Point,
}

/// The size of the bounding box along one axis, or the least positive size where the
/// box has none.
pub open spec fn extent(lo: int, hi: int) -> int {
    if hi - lo > 0 {
        hi - lo
    } else {
        1
    }
}

/// One coordinate in render space: its offset from the center of the box over half
/// the size of the box, in render units and rounded down.
pub open spec fn project_axis(p: int, lo: int, hi: int) -> int {
    ((2 * p - lo - hi) * RENDER_UNIT) / extent(lo, hi)
}

/// The position of `p` in render space, for the bounding box from `min` to `max`.
pub open spec fn project(p: Point, min: Point, max: Point) -> Point {
    Point {
        x: project_axis(p.x as int, min.x as int, max.x as int) as i32,
        y: project_axis(p.y as int, min.y as int, max.y as int) as i32,
    }
}

/// The indices of one way as the buffer holds them.
pub open spec fn index_run(way: Seq<usize>) -> Seq<u32> {
    Seq::new(way.len(), |i: int| way[i] as u32)
}

/// The index buffer of a list of ways: the indices of each way, with the restart
/// index between two ways and none after the last.
pub open spec fn index_buffer(ways: Seq<Seq<usize>>) -> Seq<u32>
    decreases ways.len(),
{
    if ways.len() == 0 {
        Seq::empty()
    } else if ways.len() == 1 {
        index_run(ways[0])
    } else {
        index_buffer(ways.drop_last()).push(RESTART) + index_run(ways.last())
    }
}

/// The positions of a list of vertices.
pub open spec fn vertex_points(vertices: Seq<Vertex>) -> Seq<Point> {
    Seq::new(vertices.len(), |i: int| vertices[i].pos)
}

/// A coordinate inside the bounding box lands in the window from -1 to 1, and the
/// center of the box lands on the origin.
pub proof fn lemma_project_in_window(p: int, lo: int, hi: int)
    requires
        lo <= p <= hi,
    ensures
        -RENDER_UNIT <= project_axis(p, lo, hi) <= RENDER_UNIT,
        p == lo && lo < hi ==> project_axis(p, lo, hi) == -RENDER_UNIT,
        p == hi && lo < hi ==> project_axis(p, lo, hi) == RENDER_UNIT,
        lo == hi ==> project_axis(p, lo, hi) == 0,
{
    let num = (2 * p - lo - hi) * RENDER_UNIT;
    let ext = extent(lo, hi);
    let q = num / ext;
    let r = num % ext;
    lemma_fundamental_div_mod(num, ext);
    if q > RENDER_UNIT {
        assert(ext * q >= ext * RENDER_UNIT + ext) by (nonlinear_arith)
            requires
                ext > 0,
                q >= RENDER_UNIT + 1,
        ;
    }
    if q < -RENDER_UNIT {
        assert(ext * q <= -(ext * RENDER_UNIT) - ext) by (nonlinear_arith)
            requires
                ext > 0,
                q <= -RENDER_UNIT - 1,
        ;
    }
    if lo < hi && (p == lo || p == hi) {
        let sign: int = if p == lo { -1 } else { 1 };
        assert(num == ext * (sign * RENDER_UNIT)) by (nonlinear_arith)
            requires
                num == (2 * p - lo - hi) * RENDER_UNIT,
                2 * p - lo - hi == sign * ext,
        ;
        if q > sign * RENDER_UNIT {
            assert(ext * q >= ext * (sign * RENDER_UNIT) + ext) by (nonlinear_arith)
                requires
                    ext > 0,
                    q >= sign * RENDER_UNIT + 1,
            ;
        }
        if q < sign * RENDER_UNIT {
            assert(ext * q <= ext * (sign * RENDER_UNIT) - ext) by (nonlinear_arith)
                requires
                    ext > 0,
                    q <= sign * RENDER_UNIT - 1,
            ;
        }
    }
}

fn project_axis_of(p: i32, lo: i32, hi: i32) -> (c: i32)
    requires
        lo <= p <= hi,
    ensures
        c == project_axis(p as int, lo as int, hi as int),
{
    let num: i128 = 2 * (p as i128) - (lo as i128) - (hi as i128);
    let ext: i128 = if hi > lo {
        (hi as i128) - (lo as i128)
    } else {
        1
    };
    proof {
        lemma_project_in_window(p as int, lo as int, hi as int);
    }
    let c: i128 = floor_div(num * (RENDER_UNIT as i128), ext);
    c as i32
}

/// The drawing of a dataset: a vertex for each point, and the index buffer of the ways.
#[derive(Debug)]
pub struct RawRenderData {
    pub vertices: Vec<Vertex>,
    pub indices: Vec<u32>,
}

/// A drawing together with a grid over its vertices.
pub struct SortedRenderData<'a> {
    raw_ref: &'a RawRenderData,
    grid: SpatialIndex,
}

impl OSM {
    /// The index buffer of the ways: the indices of each way, with the restart index
    /// between two ways and none after the last.
    pub fn indices(&self) -> (buffer: Vec<u32>)
        requires
            self.wf(),
            self.points().len() <= RESTART,
        ensures
            buffer@ == index_buffer(self.way_seqs()),
    {
        let ways = self.ways();
        let ghost all = self.way_seqs();
        let mut buffer: Vec<u32> = Vec::new();
        let mut w: usize = 0;
        while w < ways.len()
            invariant
                w <= ways@.len(),
                self.wf(),
                self.points().len() <= RESTART,
                all == self.way_seqs(),
                ways@.len() == all.len(),
                forall|k: int| 0 <= k < ways@.len() ==> (#[trigger] ways@[k])@ == all[k],
                buffer@ == if w == 0 {
                    Seq::<u32>::empty()
                } else if w < ways@.len() {
                    index_buffer(all.take(w as int)).push(RESTART)
                } else {
                    index_buffer(all.take(w as int))
                },
            decreases ways@.len() - w,
        {
            let way = &ways[w];
            let ghost before = buffer@;
            proof {
                assert(way@ == all[w as int]);
                assert(all.take(w + 1).drop_last() =~= all.take(w as int));
                assert(all.take(w + 1).last() == way@);
                assert(all.take(w + 1)[0] == all[0]);
            }
            let mut i: usize = 0;
            while i < way.len()
                invariant
                    i <= way@.len(),
                    w < all.len(),
                    way@ == all[w as int],
                    self.wf(),
                    self.points().len() <= RESTART,
                    all == self.way_seqs(),
                    buffer@ == before + index_run(way@.take(i as int)),
                decreases way@.len() - i,
            {
                proof {
                    assert(all[w as int][i as int] < self.points().len());
                }
                buffer.push(way[i] as u32);
                proof {
                    assert(index_run(way@.take(i + 1)) =~= index_run(way@.take(i as int)).push(
                        way@[i as int] as u32,
                    ));
                    assert(buffer@ =~= before + index_run(way@.take(i + 1)));
                }
                i += 1;
            }
            proof {
                assert(way@.take(way@.len() as int) =~= way@);
                assert(before + index_run(way@) =~= index_buffer(all.take(w + 1)));
            }
            if w != ways.len() - 1 {
                buffer.push(RESTART);
            }
            w += 1;
        }
        proof {
            assert(all.take(ways@.len() as int) =~= all);
        }
        buffer
    }

    /// The vertices of the points: each point projected into render space, so that
    /// the bounding box fills the window from -1 to 1 on both axes. Along an axis on
    /// which the box has no size, the least positive size stands for it.
    pub fn vertices(&self) -> (vertices: Vec<Vertex>)
        requires
            self.wf(),
        ensures
            vertices@.len() == self.points().len(),
            forall|i: int|
                0 <= i < vertices@.len() ==> (#[trigger] vertices@[i]).pos == project(
                    self.points()[i],
                    self.bounds().0,
                    self.bounds().1,
                ),
    {
        let n = self.node_count();
        let min = self.min();
        let max = self.max();
        let mut vertices: Vec<Vertex> = Vec::new();
        let mut i: usize = 0;
        while i < n
            invariant
                i <= n,
                n == self.points().len(),
                self.wf(),
                min == self.bounds().0,
                max == self.bounds().1,
                vertices@.len() == i,
                forall|j: int|
                    0 <= j < i ==> (#[trigger] vertices@[j]).pos == project(
                        self.points()[j],
                        min,
                        max,
                    ),
            decreases n - i,
        {
            let p = self.position(i);
            proof {
                lemma_bounds_hold_points(self.points(), i as int);
            }
            let x = project_axis_of(p.x, min.x, max.x);
            let y = project_axis_of(p.y, min.y, max.y);
            vertices.push(Vertex { pos: Point { x, y } });
            i += 1;
        }
        vertices
    }
}

impl RawRenderData {
    /// A drawing of the given vertices and indices.
    pub fn new(vertices: Vec<Vertex>, indices: Vec<u32>) -> (raw: RawRenderData)
        ensures
            raw.vertices == vertices,
            raw.indices == indices,
    {
        RawRenderData { vertices, indices }
    }

    /// The drawing of a dataset.
    pub fn from_osm(osm: &OSM) -> (raw: RawRenderData)
        requires
            osm.wf(),
            osm.points().len() <= RESTART,
        ensures
            raw.indices@ == index_buffer(osm.way_seqs()),
            raw.vertices@.len() == osm.points().len(),
            forall|i: int|
                0 <= i < raw.vertices@.len() ==> (#[trigger] raw.vertices@[i]).pos == project(
                    osm.points()[i],
                    osm.bounds().0,
                    osm.bounds().1,
                ),
    {
        let vertices = osm.vertices();
        let indices = osm.indices();
        RawRenderData::new(vertices, indices)
    }

    /// The drawing with a grid over its vertices, with cells of side `cell_size`.
    pub fn sorted(&self, cell_size: i32) -> (sorted: SortedRenderData<'_>)
        requires
            cell_size > 0,
        ensures
            sorted.wf(),
            sorted.cell_size() == cell_size,
            sorted.points() == vertex_points(self.vertices@),
    {
        let mut points: Vec<Point> = Vec::new();
        let mut i: usize = 0;
        while i < self.vertices.len()
            invariant
                i <= self.vertices@.len(),
                points@ == vertex_points(self.vertices@).take(i as int),
            decreases self.vertices@.len() - i,
        {
            points.push(self.vertices[i].pos);
            proof {
                assert(points@ =~= vertex_points(self.vertices@).take(i + 1));
            }
            i += 1;
        }
        proof {
            assert(vertex_points(self.vertices@).take(self.vertices@.len() as int)
                =~= vertex_points(self.vertices@));
        }
        SortedRenderData { raw_ref: self, grid: SpatialIndex::build(&points, cell_size) }
    }
}

impl<'a> SortedRenderData<'a> {
    /// The side length of the cells of the grid.
    pub closed spec fn cell_size(&self) -> int {
        self.grid.cell_size()
    }

    /// The positions of the vertices that the grid is over.
    pub closed spec fn points(&self) -> Seq<Point> {
        self.grid.points()
    }

    /// The grid holds for each cell the vertices in it.
    pub closed spec fn wf(&self) -> bool {
        self.grid.wf() && self.grid.points() == vertex_points(self.raw_ref.vertices@)
    }

    /// The drawing that the grid is over.
    pub fn raw(&self) -> (raw: &'a RawRenderData)
        requires
            self.wf(),
        ensures
            vertex_points(raw.vertices@) == self.points(),
    {
        self.raw_ref
    }

    /// The indices of the vertices in the cell that holds (`x`, `y`), in ascending
    /// order; `None` where the cell holds no vertex.
    pub fn get(&self, x: i32, y: i32) -> (found: Option<&[usize]>)
        requires
            self.wf(),
        ensures
            match found {
                Some(list) => list@.len() > 0 && list@ == in_cell(
                    self.points(),
                    self.cell_size(),
                    cell_of(Point { x, y }, self.cell_size()),
                ),
                None => in_cell(
                    self.points(),
                    self.cell_size(),
                    cell_of(Point { x, y }, self.cell_size()),
                ).len() == 0,
            },
    {
        self.grid.get(x, y)
    }

    /// The indices of the vertices in the cell that holds `pos`, in ascending order;
    /// `None` where the cell holds no vertex.
    pub fn get_vec(&self, pos: Point) -> (found: Option<&[usize]>)
        requires
            self.wf(),
        ensures
            match found {
                Some(list) => list@.len() > 0 && list@ == in_cell(
                    self.points(),
                    self.cell_size(),
                    cell_of(pos, self.cell_size()),
                ),
                None => in_cell(
                    self.points(),
                    self.cell_size(),
                    cell_of(pos, self.cell_size()),
                ).len() == 0,
            },
    {
        assert(Point { x: pos.x, y: pos.y } == pos);
        self.grid.get(pos.x, pos.y)
    }

    /// The cell that holds the position (`x`, `y`).
    pub fn convert(&self, x: i32, y: i32) -> (cell: (i32, i32))
        requires
            self.wf(),
        ensures
            (cell.0 as int, cell.1 as int) == cell_of(Point { x, y }, self.cell_size()),
    {
        self.grid.convert(x, y)
    }
}

} // verus!
