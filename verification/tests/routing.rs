use osm_view::geom::{edge_len_of, Point};
use osm_view::astar::PlanOutcome;
use osm_view::graph::OSMGraph;
use osm_view::osm::{Element, OSM};
use osm_view::tags::TagSet;

fn dataset(points: &[(i32, i32)], ways: &[&[i64]]) -> OSM {
    let mut stream = Vec::new();
    for (i, &(x, y)) in points.iter().enumerate() {
        stream.push(Element::Node { id: i as i64, pos: Point { x, y }, tags: TagSet::new() });
    }
    for w in ways {
        stream.push(Element::Way { refs: w.to_vec() });
    }
    OSM::load(stream)
}

fn cost(graph: &OSMGraph, path: &[usize]) -> u64 {
    let mut sum = 0;
    for i in 1..path.len() {
        sum += edge_len_of(graph.position(path[i - 1]), graph.position(path[i]));
    }
    sum
}

fn is_route(graph: &OSMGraph, path: &[usize], a: usize, b: usize) -> bool {
    if path.is_empty() || path[0] != a || path[path.len() - 1] != b {
        return false;
    }
    for i in 1..path.len() {
        if !graph.neighbors(path[i - 1]).contains(&path[i]) {
            return false;
        }
    }
    true
}

// The least cost and the least number of points over all simple routes from `at` to `b`.
fn search_all(
    graph: &OSMGraph,
    at: usize,
    b: usize,
    seen: &mut Vec<bool>,
    so_far: u64,
    points: usize,
    best: &mut Option<(u64, usize)>,
) {
    if at == b {
        *best = Some(match *best {
            Some((c, p)) => (c.min(so_far), p.min(points)),
            None => (so_far, points),
        });
        return;
    }
    seen[at] = true;
    for &next in graph.neighbors(at).clone().iter() {
        if !seen[next] {
            let step = edge_len_of(graph.position(at), graph.position(next));
            search_all(graph, next, b, seen, so_far + step, points + 1, best);
        }
    }
    seen[at] = false;
}

fn check_every_pair(graph: &OSMGraph) {
    let n = graph.node_count();
    for a in 0..n {
        for b in 0..n {
            let mut best = None;
            search_all(graph, a, b, &mut vec![false; n], 0, 1, &mut best);
            let by_hops = graph.plan_path(a, b);
            let by_cost = graph.plan_path_a_star(a, b);
            assert_eq!(by_hops.is_some(), best.is_some(), "bfs {a}->{b}");
            assert_eq!(by_cost.is_some(), best.is_some(), "a* {a}->{b}");
            if let Some((least_cost, least_points)) = best {
                let by_hops = by_hops.unwrap();
                let by_cost = by_cost.unwrap();
                assert!(is_route(graph, &by_hops, a, b));
                assert!(is_route(graph, &by_cost, a, b));
                assert_eq!(by_hops.len(), least_points, "bfs {a}->{b}");
                assert_eq!(cost(graph, &by_cost), least_cost, "a* {a}->{b}");
            }
        }
    }
}

#[test]
fn the_square_scenario_routes() {
    let osm = dataset(&[(0, 0), (1, 0), (1, 1), (0, 1)], &[&[0, 1, 2, 3]]);
    let graph = OSMGraph::from_osm(&osm, 1);
    assert_eq!(graph.plan_path(0, 2), Some(vec![0, 1, 2]));
    let path = graph.plan_path_a_star(0, 2).unwrap();
    assert_eq!(path, vec![0, 1, 2]);
    assert_eq!(cost(&graph, &path), 2);
    assert!(!graph.neighbors(0).contains(&2));
    assert!(!graph.neighbors(2).contains(&0));
}

#[test]
fn a_route_from_a_point_to_itself_is_the_point() {
    let osm = dataset(&[(0, 0), (1, 0), (1, 1)], &[&[0, 1, 2]]);
    let graph = OSMGraph::from_osm(&osm, 10);
    assert_eq!(graph.plan_path(1, 1), Some(vec![1]));
    assert_eq!(graph.plan_path_a_star(1, 1), Some(vec![1]));
}

#[test]
fn a_point_on_no_way_cannot_be_reached() {
    let osm = dataset(&[(0, 0), (1, 0), (1, 1), (50, 50)], &[&[0, 1, 2]]);
    let graph = OSMGraph::from_osm(&osm, 10);
    assert_eq!(graph.plan_path(0, 3), None);
    assert_eq!(graph.plan_path_a_star(0, 3), None);
    assert_eq!(graph.plan_path(3, 0), None);
    assert_eq!(graph.plan_path_a_star(3, 0), None);
    assert_eq!(graph.plan_path(3, 3), Some(vec![3]));
    assert_eq!(graph.plan_path_a_star(3, 3), Some(vec![3]));
}

#[test]
fn two_components_do_not_reach_each_other() {
    let osm = dataset(
        &[(0, 0), (1, 0), (2, 0), (10, 10), (11, 10), (12, 10)],
        &[&[0, 1, 2], &[3, 4, 5]],
    );
    let graph = OSMGraph::from_osm(&osm, 4);
    check_every_pair(&graph);
    assert_eq!(graph.plan_path(0, 5), None);
    assert_eq!(graph.plan_path_a_star(2, 3), None);
}

#[test]
fn the_cheapest_route_may_have_more_points() {
    // 0 - 1 - 2 straight along the x axis in short steps, and a long detour 0 - 3 - 2
    // that the second way shortcuts in hops: 0 -> 4 -> 2 with 4 far away.
    let osm = dataset(
        &[(0, 0), (10, 0), (20, 0), (30, 0), (15, 1000)],
        &[&[0, 1, 2, 3], &[0, 4, 3]],
    );
    let graph = OSMGraph::from_osm(&osm, 100);
    assert_eq!(graph.plan_path(0, 3), Some(vec![0, 4, 3]));
    assert_eq!(graph.plan_path_a_star(0, 3), Some(vec![0, 1, 2, 3]));
    assert_eq!(cost(&graph, &[0, 1, 2, 3]), 30);
    check_every_pair(&graph);
}

#[test]
fn planners_agree_and_are_least_on_a_grid_of_streets() {
    let mut points = Vec::new();
    for y in 0..3 {
        for x in 0..3 {
            points.push((x * 7, y * 5));
        }
    }
    let osm = dataset(
        &points,
        &[&[0, 1, 2], &[3, 4, 5], &[6, 7, 8], &[0, 3, 6], &[2, 5, 8], &[0, 4, 8], &[1, 4, 7]],
    );
    let graph = OSMGraph::from_osm(&osm, 6);
    check_every_pair(&graph);
}

#[test]
fn planners_agree_and_are_least_with_points_in_one_place() {
    // 1 and 2 lie on the same spot, and 3 occurs twice in a row in its way
    let osm = dataset(
        &[(0, 0), (5, 5), (5, 5), (9, 9), (3, 8), (-4, 2)],
        &[&[0, 1, 2, 3], &[3, 3, 4], &[4, 5, 0], &[2, 5, 5]],
    );
    let graph = OSMGraph::from_osm(&osm, 3);
    check_every_pair(&graph);
}

#[test]
fn planners_agree_and_are_least_on_scattered_points() {
    let mut x: i64 = 99;
    let mut points = Vec::new();
    for _ in 0..9 {
        x = (x * 1103515245 + 12345) % 2147483648;
        let px = (x % 2001 - 1000) as i32;
        x = (x * 1103515245 + 12345) % 2147483648;
        let py = (x % 2001 - 1000) as i32;
        points.push((px, py));
    }
    let osm = dataset(
        &points,
        &[&[0, 3, 6, 1], &[1, 4, 7], &[7, 2, 0], &[5, 6, 7, 3], &[8, 8, 8]],
    );
    let graph = OSMGraph::from_osm(&osm, 250);
    check_every_pair(&graph);
}

#[test]
fn far_points_do_not_overflow_the_costs() {
    let osm = dataset(
        &[(i32::MIN, i32::MIN), (i32::MAX, i32::MAX), (i32::MIN, i32::MAX), (i32::MAX, i32::MIN)],
        &[&[0, 1, 2, 3], &[3, 0, 2]],
    );
    let graph = OSMGraph::from_osm(&osm, i32::MAX);
    check_every_pair(&graph);
    // the side and the diagonal, in either order
    let path = graph.plan_path_a_star(1, 3).unwrap();
    assert_eq!(cost(&graph, &path), 4294967295 + 6074000999);
    assert_eq!(graph.plan_path_a_star(0, 1), Some(vec![0, 1]));
}

#[test]
fn a_search_with_a_budget_gives_up_when_it_runs_out() {
    // a chain of six points
    let osm = dataset(
        &[(0, 0), (10, 0), (20, 0), (30, 0), (40, 0), (50, 0), (99, 99)],
        &[&[0, 1, 2, 3, 4, 5]],
    );
    let graph = OSMGraph::from_osm(&osm, 100);
    assert_eq!(graph.plan_path_a_star_within(0, 5, 0), PlanOutcome::Cancelled);
    assert_eq!(graph.plan_path_a_star_within(0, 5, 4), PlanOutcome::Cancelled);
    assert_eq!(
        graph.plan_path_a_star_within(0, 5, 5),
        PlanOutcome::Found(vec![0, 1, 2, 3, 4, 5])
    );
    assert_eq!(graph.plan_path_a_star_within(0, 2, 2), PlanOutcome::Found(vec![0, 1, 2]));
    assert_eq!(graph.plan_path_a_star_within(3, 3, 0), PlanOutcome::Found(vec![3]));
    assert_eq!(graph.plan_path_a_star_within(0, 6, 5), PlanOutcome::Cancelled);
    assert_eq!(graph.plan_path_a_star_within(0, 6, 6), PlanOutcome::Unreachable);
    assert_eq!(graph.plan_path_a_star_within(0, 6, 7), PlanOutcome::Unreachable);
    assert_eq!(graph.plan_path_a_star_within(6, 0, 1), PlanOutcome::Unreachable);
}

#[test]
fn a_route_between_two_positions_runs_between_the_points_they_snap_to() {
    let osm = dataset(
        &[(0, 0), (1000, 0), (1000, 1000), (0, 1000), (5000, 5000)],
        &[&[0, 1, 2, 3]],
    );
    let graph = OSMGraph::from_osm(&osm, 1000);
    let at = |x, y| Point { x, y };
    assert_eq!(graph.plan_route(at(10, 20), at(1990, 1001)), Some(vec![0, 1, 2]));
    assert_eq!(graph.plan_route(at(999, 1999), at(999, 1999)), Some(vec![3]));
    // (900, 0) snaps to point 0 in its own cell, not to the nearer point 1
    assert_eq!(graph.plan_route(at(900, 0), at(1100, 0)), Some(vec![0, 1]));
    assert_eq!(graph.plan_route(at(0, 0), at(3000, 3000)), None);
    assert_eq!(graph.plan_route(at(-1, 0), at(0, 0)), None);
    assert_eq!(graph.plan_route(at(0, 0), at(5500, 5500)), None);
}
