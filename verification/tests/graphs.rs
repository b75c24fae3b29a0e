use osm_view::geom::Point;
use osm_view::graph::OSMGraph;
use osm_view::grid::SpatialIndex;
use osm_view::osm::{Element, OSM};
use osm_view::tags::TagSet;

fn dataset(points: &[(i32, i32)], ways: &[&[i64]]) -> OSM {
    let mut stream = Vec::new();
    for (i, &(x, y)) in points.iter().enumerate() {
        stream.push(Element::Node { id: i as i64, pos: Point { x, y }, tags: TagSet::new() });
    }
    for w in ways {
        stream.push(Element::Way { refs: w.to_vec() });
    }
    OSM::load(stream)
}

#[test]
fn each_pair_of_a_way_gives_both_ends_a_neighbor() {
    let osm = dataset(&[(0, 0), (1, 0), (1, 1), (0, 1)], &[&[0, 1, 2, 3]]);
    let graph = OSMGraph::from_osm(&osm, 1);
    assert_eq!(graph.node_count(), 4);
    assert_eq!(graph.neighbors(0), &vec![1]);
    assert_eq!(graph.neighbors(1), &vec![0, 2]);
    assert_eq!(graph.neighbors(2), &vec![1, 3]);
    assert_eq!(graph.neighbors(3), &vec![2]);
    assert_eq!(graph.position(2), Point { x: 1, y: 1 });
}

#[test]
fn a_segment_of_two_ways_is_stored_for_each_of_them() {
    let osm = dataset(&[(0, 0), (1, 0), (2, 0), (3, 0)], &[&[0, 1, 2], &[3, 2, 1]]);
    let graph = OSMGraph::from_osm(&osm, 1);
    assert_eq!(graph.neighbors(0), &vec![1]);
    assert_eq!(graph.neighbors(1), &vec![0, 2, 2]);
    assert_eq!(graph.neighbors(2), &vec![1, 3, 1]);
    assert_eq!(graph.neighbors(3), &vec![2]);
}

#[test]
fn a_point_twice_in_a_row_is_its_own_neighbor_twice() {
    let osm = dataset(&[(0, 0), (1, 0)], &[&[0, 0, 1]]);
    let graph = OSMGraph::from_osm(&osm, 1);
    assert_eq!(graph.neighbors(0), &vec![0, 0, 1]);
    assert_eq!(graph.neighbors(1), &vec![0]);
}

#[test]
fn a_graph_without_points() {
    let osm = dataset(&[], &[]);
    let graph = OSMGraph::from_osm(&osm, 5);
    assert_eq!(graph.node_count(), 0);
    assert_eq!(graph.closest_node(Point { x: 0, y: 0 }), None);
}

#[test]
fn the_nearest_point_is_sought_in_one_cell_only() {
    let osm = dataset(&[(0, 0), (1000, 0), (1000, 1000), (0, 1000)], &[&[0, 1, 2, 3]]);
    let graph = OSMGraph::from_osm(&osm, 1000);
    // (900, 0) lies in the cell of point 0; point 1 is nearer, in the next cell
    assert_eq!(graph.closest_node(Point { x: 900, y: 0 }), Some(0));
    assert_eq!(graph.closest_node(Point { x: 999, y: 999 }), Some(0));
    assert_eq!(graph.closest_node(Point { x: 1000, y: 999 }), Some(1));
    assert_eq!(graph.closest_node(Point { x: 1500, y: 1500 }), Some(2));
    assert_eq!(graph.closest_node(Point { x: 1, y: 1999 }), Some(3));
}

#[test]
fn an_empty_cell_gives_no_point() {
    let osm = dataset(&[(0, 0), (1000, 0), (1000, 1000), (0, 1000)], &[&[0, 1, 2, 3]]);
    let graph = OSMGraph::from_osm(&osm, 1000);
    assert_eq!(graph.closest_node(Point { x: -1, y: 0 }), None);
    assert_eq!(graph.closest_node(Point { x: 2000, y: 0 }), None);
    assert_eq!(graph.closest_node(Point { x: 0, y: -1 }), None);
}

#[test]
fn of_equally_near_points_the_first_is_taken() {
    let points = vec![
        Point { x: 10, y: 0 },
        Point { x: 4, y: 3 },
        Point { x: 0, y: 5 },
        Point { x: -3, y: 4 },
        Point { x: 5, y: 0 },
    ];
    let grid = SpatialIndex::build(&points, 1000);
    assert_eq!(grid.nearest(&points, Point { x: 0, y: 0 }), Some(1));
    // (-3, 4) is alone in the cell to the left
    assert_eq!(grid.nearest(&points, Point { x: -1, y: 0 }), Some(3));
    assert_eq!(grid.nearest(&points, Point { x: 0, y: -1 }), None);
    assert_eq!(grid.nearest(&points, Point { x: 9, y: 0 }), Some(0));
}

#[test]
fn cells_round_down_below_zero() {
    let points = vec![
        Point { x: -1, y: -1 },
        Point { x: -100, y: -100 },
        Point { x: -101, y: 0 },
        Point { x: 0, y: 0 },
        Point { x: 99, y: 99 },
        Point { x: 100, y: -1 },
    ];
    let grid = SpatialIndex::build(&points, 100);
    assert_eq!(grid.convert(-1, -1), (-1, -1));
    assert_eq!(grid.convert(-100, -100), (-1, -1));
    assert_eq!(grid.convert(-101, 0), (-2, 0));
    assert_eq!(grid.convert(0, 0), (0, 0));
    assert_eq!(grid.convert(99, 100), (0, 1));
    assert_eq!(grid.convert(i32::MIN, i32::MAX), (-21474837, 21474836));
    assert_eq!(grid.get(-50, -50), Some(&[0usize, 1][..]));
    assert_eq!(grid.get(-150, 50), Some(&[2usize][..]));
    assert_eq!(grid.get(50, 50), Some(&[3usize, 4][..]));
    assert_eq!(grid.get(150, -50), Some(&[5usize][..]));
    assert_eq!(grid.get(150, 50), None);
    assert_eq!(grid.nearest(&points, Point { x: -99, y: -99 }), Some(1));
}

#[test]
fn cells_of_side_one_at_the_ends_of_the_plane() {
    let points = vec![
        Point { x: i32::MIN, y: i32::MIN },
        Point { x: i32::MAX, y: i32::MAX },
        Point { x: i32::MIN, y: i32::MAX },
    ];
    let grid = SpatialIndex::build(&points, 1);
    assert_eq!(grid.convert(i32::MIN, i32::MAX), (i32::MIN, i32::MAX));
    assert_eq!(grid.nearest(&points, points[0]), Some(0));
    assert_eq!(grid.nearest(&points, points[1]), Some(1));
    assert_eq!(grid.nearest(&points, points[2]), Some(2));
    assert_eq!(grid.nearest(&points, Point { x: i32::MAX, y: i32::MIN }), None);
}
