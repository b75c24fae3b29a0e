use osm_view::geom::Point;
use osm_view::names::lookup;
use osm_view::osm::{Element, OSM};
use osm_view::tags::TagSet;

fn named(id: i64, name: Option<&str>, other: &[(&str, &str)]) -> Element {
    let mut tags = TagSet::new();
    for (k, v) in other {
        tags.insert(k.to_string(), v.to_string());
    }
    if let Some(name) = name {
        tags.insert("name".to_string(), name.to_string());
    }
    Element::Node { id, pos: Point { x: id as i32, y: 0 }, tags }
}

#[test]
fn a_name_leads_to_its_point() {
    let mut osm = OSM::load(vec![
        named(1, None, &[]),
        named(2, Some("Main Street"), &[("highway", "residential")]),
        named(3, Some("Mill Lane"), &[]),
    ]);
    let trie = osm.trie();
    assert_eq!(lookup(&trie, "Main Street"), Some(1));
    assert_eq!(lookup(&trie, "Mill Lane"), Some(2));
    assert_eq!(lookup(&trie, "Main"), None);
    assert_eq!(lookup(&trie, "Main Street East"), None);
    assert_eq!(lookup(&trie, ""), None);
    assert_eq!(trie.get("Main Street"), Some(&1));
}

#[test]
fn the_name_tag_leaves_the_point() {
    let mut osm = OSM::load(vec![
        named(1, Some("Main Street"), &[("highway", "residential"), ("lanes", "2")]),
        named(2, None, &[("amenity", "cafe")]),
    ]);
    assert_eq!(osm.tags(0).get("name"), Some(&"Main Street".to_string()));
    let _trie = osm.trie();
    assert_eq!(osm.tags(0).get("name"), None);
    assert_eq!(osm.tags(0).get("highway"), Some(&"residential".to_string()));
    assert_eq!(osm.tags(0).get("lanes"), Some(&"2".to_string()));
    assert_eq!(osm.tags(0).len(), 2);
    assert_eq!(osm.tags(1).get("amenity"), Some(&"cafe".to_string()));
    assert_eq!(osm.tags(1).len(), 1);
}

#[test]
fn a_second_build_finds_no_names() {
    let mut osm = OSM::load(vec![named(1, Some("Main Street"), &[])]);
    let first = osm.trie();
    let second = osm.trie();
    assert_eq!(lookup(&first, "Main Street"), Some(0));
    assert_eq!(lookup(&second, "Main Street"), None);
}

#[test]
fn of_two_points_with_one_name_the_later_has_it() {
    let mut osm = OSM::load(vec![
        named(1, Some("High Street"), &[]),
        named(2, Some("Low Street"), &[]),
        named(3, Some("High Street"), &[]),
    ]);
    let trie = osm.trie();
    assert_eq!(lookup(&trie, "High Street"), Some(2));
    assert_eq!(lookup(&trie, "Low Street"), Some(1));
    assert_eq!(osm.tags(0).get("name"), None);
    assert_eq!(osm.tags(2).get("name"), None);
}

#[test]
fn names_that_share_a_beginning_are_kept_apart() {
    let mut osm = OSM::load(vec![
        named(1, Some("Park"), &[]),
        named(2, Some("Park Road"), &[]),
        named(3, Some("Park Row"), &[]),
        named(4, Some(""), &[]),
        named(5, Some("Straße"), &[]),
    ]);
    let trie = osm.trie();
    assert_eq!(lookup(&trie, "Park"), Some(0));
    assert_eq!(lookup(&trie, "Park Road"), Some(1));
    assert_eq!(lookup(&trie, "Park Row"), Some(2));
    assert_eq!(lookup(&trie, ""), Some(3));
    assert_eq!(lookup(&trie, "Straße"), Some(4));
    assert_eq!(lookup(&trie, "Park R"), None);
    assert_eq!(lookup(&trie, "Strasse"), None);
}

#[test]
fn the_dataset_is_otherwise_as_before() {
    let mut osm = OSM::load(vec![
        named(1, Some("A"), &[]),
        named(2, Some("B"), &[]),
        named(3, None, &[]),
        Element::Way { refs: vec![1, 2, 3] },
    ]);
    let _trie = osm.trie();
    assert_eq!(osm.node_count(), 3);
    assert_eq!(osm.ways(), &vec![vec![0, 1, 2]]);
    assert_eq!(osm.min(), Point { x: 1, y: 0 });
    assert_eq!(osm.max(), Point { x: 3, y: 0 });
}
