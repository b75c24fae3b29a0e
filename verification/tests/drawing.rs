use osm_view::geom::Point;
use osm_view::osm::{Element, OSM};
use osm_view::render::{RawRenderData, Vertex, RENDER_UNIT, RESTART};
use osm_view::tags::TagSet;

fn dataset(points: &[(i32, i32)], ways: &[&[i64]]) -> OSM {
    let mut stream = Vec::new();
    for (i, &(x, y)) in points.iter().enumerate() {
        stream.push(Element::Node { id: i as i64, pos: Point { x, y }, tags: TagSet::new() });
    }
    for w in ways {
        stream.push(Element::Way { refs: w.to_vec() });
    }
    OSM::load(stream)
}

fn vertex(x: i32, y: i32) -> Vertex {
    Vertex { pos: Point { x, y } }
}

#[test]
fn the_square_scenario_drawing() {
    let osm = dataset(&[(0, 0), (1, 0), (1, 1), (0, 1)], &[&[0, 1, 2, 3]]);
    assert_eq!(osm.min(), Point { x: 0, y: 0 });
    assert_eq!(osm.max(), Point { x: 1, y: 1 });
    let u = RENDER_UNIT;
    assert_eq!(osm.vertices(), vec![vertex(-u, -u), vertex(u, -u), vertex(u, u), vertex(-u, u)]);
    assert_eq!(osm.indices(), vec![0, 1, 2, 3]);
}

#[test]
fn the_restart_index_stands_between_ways_only() {
    let osm = dataset(
        &[(0, 0), (1, 0), (1, 1), (0, 1)],
        &[&[0, 1, 2], &[2, 3, 0, 1], &[3, 3, 3]],
    );
    assert_eq!(RESTART, u32::MAX);
    assert_eq!(osm.indices(), vec![0, 1, 2, RESTART, 2, 3, 0, 1, RESTART, 3, 3, 3]);
}

#[test]
fn no_ways_give_no_indices() {
    let osm = dataset(&[(0, 0), (1, 0)], &[&[0, 1]]);
    assert_eq!(osm.indices(), Vec::<u32>::new());
}

#[test]
fn the_center_of_the_box_is_the_origin() {
    let osm = dataset(&[(100, 200), (300, 600), (200, 400), (150, 500)], &[]);
    let u = RENDER_UNIT;
    assert_eq!(
        osm.vertices(),
        vec![vertex(-u, -u), vertex(u, u), vertex(0, 0), vertex(-u / 2, u / 2)]
    );
}

#[test]
fn projected_coordinates_round_down() {
    let osm = dataset(&[(0, 0), (3, 3), (1, 2)], &[]);
    // (2 * 1 - 3) / 3 = -1/3 and (2 * 2 - 3) / 3 = 1/3 of the unit
    assert_eq!(osm.vertices()[2], vertex(-357913942, 357913941));
}

#[test]
fn a_single_point_is_drawn_at_the_origin() {
    let osm = dataset(&[(77, -5)], &[]);
    assert_eq!(osm.vertices(), vec![vertex(0, 0)]);
}

#[test]
fn points_in_a_line_keep_the_other_axis_at_the_origin() {
    let osm = dataset(&[(10, 7), (20, 7), (30, 7)], &[&[0, 1, 2]]);
    let u = RENDER_UNIT;
    assert_eq!(osm.vertices(), vec![vertex(-u, 0), vertex(0, 0), vertex(u, 0)]);
}

#[test]
fn the_widest_box_stays_in_the_window() {
    let osm = dataset(&[(i32::MIN, i32::MAX), (i32::MAX, i32::MIN), (0, -1)], &[]);
    let u = RENDER_UNIT;
    let v = osm.vertices();
    assert_eq!(v[0], vertex(-u, u));
    assert_eq!(v[1], vertex(u, -u));
    assert_eq!(v[2], vertex(0, -1));
}

#[test]
fn a_drawing_holds_the_vertices_and_indices_of_its_dataset() {
    let osm = dataset(&[(0, 0), (1, 0), (1, 1), (0, 1)], &[&[0, 1, 2, 3], &[3, 0, 1]]);
    let raw = RawRenderData::from_osm(&osm);
    assert_eq!(raw.vertices, osm.vertices());
    assert_eq!(raw.indices, vec![0, 1, 2, 3, RESTART, 3, 0, 1]);
    let made = RawRenderData::new(vec![vertex(1, 2)], vec![0, 0]);
    assert_eq!(made.vertices, vec![vertex(1, 2)]);
    assert_eq!(made.indices, vec![0, 0]);
}

#[test]
fn a_sorted_drawing_finds_the_vertices_of_a_cell() {
    let raw = RawRenderData::new(
        vec![vertex(5, 5), vertex(-5, 5), vertex(15, 5), vertex(6, 9), vertex(-1, -1)],
        Vec::new(),
    );
    let sorted = raw.sorted(10);
    assert_eq!(sorted.convert(5, 5), (0, 0));
    assert_eq!(sorted.convert(-5, 5), (-1, 0));
    assert_eq!(sorted.convert(-10, -11), (-1, -2));
    assert_eq!(sorted.get(0, 0), Some(&[0usize, 3][..]));
    assert_eq!(sorted.get(-10, 9), Some(&[1usize][..]));
    assert_eq!(sorted.get_vec(Point { x: 19, y: 0 }), Some(&[2usize][..]));
    assert_eq!(sorted.get_vec(Point { x: -1, y: -10 }), Some(&[4usize][..]));
    assert_eq!(sorted.get(0, 10), None);
    assert_eq!(sorted.get_vec(Point { x: 20, y: 20 }), None);
    assert_eq!(sorted.raw().vertices.len(), 5);
}
