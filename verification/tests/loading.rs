use osm_view::geom::Point;
use osm_view::osm::{Element, OSM};
use osm_view::tags::TagSet;

fn node(id: i64, x: i32, y: i32) -> Element {
    Element::Node { id, pos: Point { x, y }, tags: TagSet::new() }
}

fn way(refs: &[i64]) -> Element {
    Element::Way { refs: refs.to_vec() }
}

#[test]
fn points_get_dense_indices_in_stream_order() {
    let osm = OSM::load(vec![node(900, 5, 6), node(-3, 7, 8), node(42, 9, 10)]);
    assert_eq!(osm.node_count(), 3);
    assert_eq!(osm.position(0), Point { x: 5, y: 6 });
    assert_eq!(osm.position(1), Point { x: 7, y: 8 });
    assert_eq!(osm.position(2), Point { x: 9, y: 10 });
    assert!(osm.ways().is_empty());
}

#[test]
fn way_references_become_indices() {
    let osm = OSM::load(vec![
        node(10, 0, 0),
        node(20, 1, 0),
        node(30, 1, 1),
        node(40, 0, 1),
        way(&[40, 10, 30, 20]),
    ]);
    assert_eq!(osm.ways(), &vec![vec![3, 0, 2, 1]]);
    assert_eq!(osm.small_ways(), 0);
    assert_eq!(osm.dangling_refs(), 0);
}

#[test]
fn an_unknown_reference_is_dropped_and_the_way_stays() {
    let osm = OSM::load(vec![
        node(1, 0, 0),
        node(2, 1, 0),
        node(3, 2, 0),
        way(&[1, 77, 2, 3, 78]),
    ]);
    assert_eq!(osm.ways(), &vec![vec![0, 1, 2]]);
    assert_eq!(osm.dangling_refs(), 2);
    assert_eq!(osm.small_ways(), 0);
}

#[test]
fn a_way_with_two_resolved_references_is_rejected() {
    let osm = OSM::load(vec![
        node(1, 0, 0),
        node(2, 1, 0),
        node(3, 2, 0),
        way(&[1, 2]),
        way(&[1, 2, 99]),
        way(&[]),
        way(&[3]),
        way(&[1, 2, 3]),
    ]);
    assert_eq!(osm.ways(), &vec![vec![0, 1, 2]]);
    assert_eq!(osm.small_ways(), 4);
    assert_eq!(osm.dangling_refs(), 1);
}

#[test]
fn every_way_index_is_below_the_point_count() {
    let osm = OSM::load(vec![
        node(5, 0, 0),
        way(&[5, 6, 7, 8]),
        node(6, 1, 0),
        node(7, 2, 0),
        way(&[7, 6, 5, 5, 99]),
        node(8, 3, 0),
        way(&[8, 8]),
    ]);
    let n = osm.node_count();
    assert_eq!(n, 4);
    assert_eq!(osm.ways(), &vec![vec![0, 1, 2, 3], vec![2, 1, 0, 0]]);
    for way in osm.ways() {
        assert!(way.len() >= 3);
        for &i in way {
            assert!(i < n);
        }
    }
}

#[test]
fn a_repeated_id_names_the_later_point() {
    let osm = OSM::load(vec![
        node(1, 0, 0),
        node(2, 1, 0),
        node(1, 5, 5),
        way(&[1, 2, 1]),
    ]);
    assert_eq!(osm.node_count(), 3);
    assert_eq!(osm.ways(), &vec![vec![2, 1, 2]]);
}

#[test]
fn the_bounding_box_is_the_least_and_greatest_coordinates() {
    let osm = OSM::load(vec![node(1, 4, -9), node(2, -3, 7), way(&[1, 2]), node(3, 0, 0)]);
    assert_eq!(osm.min(), Point { x: -3, y: -9 });
    assert_eq!(osm.max(), Point { x: 4, y: 7 });
}

#[test]
fn one_point_gives_a_box_without_size() {
    let osm = OSM::load(vec![node(1, 12, 34)]);
    assert_eq!(osm.min(), Point { x: 12, y: 34 });
    assert_eq!(osm.max(), Point { x: 12, y: 34 });
}

#[test]
fn no_points_is_a_dataset_too() {
    let osm = OSM::load(vec![way(&[1, 2, 3]), Element::Relation]);
    assert_eq!(osm.node_count(), 0);
    assert!(osm.ways().is_empty());
    assert_eq!(osm.small_ways(), 1);
    assert_eq!(osm.dangling_refs(), 3);
    assert_eq!(osm.min(), Point { x: i32::MAX, y: i32::MAX });
    assert_eq!(osm.max(), Point { x: i32::MIN, y: i32::MIN });
    assert_eq!(osm.vertices(), Vec::new());
    assert_eq!(osm.indices(), Vec::<u32>::new());
}

#[test]
fn points_keep_their_tags() {
    let mut tags = TagSet::new();
    tags.insert("amenity".to_string(), "cafe".to_string());
    let osm = OSM::load(vec![
        node(1, 0, 0),
        Element::Node { id: 2, pos: Point { x: 1, y: 1 }, tags },
    ]);
    assert_eq!(osm.tags(0).len(), 0);
    assert_eq!(osm.tags(1).get("amenity"), Some(&"cafe".to_string()));
}
