use osm_view::geom::{ceil_sqrt_of, dist2_of, edge_len_of, floor_div, Point};

#[test]
fn ceil_sqrt_of_small_numbers() {
    assert_eq!(ceil_sqrt_of(0), 0);
    assert_eq!(ceil_sqrt_of(1), 1);
    assert_eq!(ceil_sqrt_of(2), 2);
    assert_eq!(ceil_sqrt_of(3), 2);
    assert_eq!(ceil_sqrt_of(4), 2);
    assert_eq!(ceil_sqrt_of(5), 3);
    assert_eq!(ceil_sqrt_of(99), 10);
    assert_eq!(ceil_sqrt_of(100), 10);
    assert_eq!(ceil_sqrt_of(101), 11);
}

#[test]
fn ceil_sqrt_of_large_numbers() {
    let big: u128 = 0xFFFF_FFFF_FFFF_FFFF;
    assert_eq!(ceil_sqrt_of(big * big), 0xFFFF_FFFF_FFFF_FFFF);
    assert_eq!(ceil_sqrt_of(big * big - 1), 0xFFFF_FFFF_FFFF_FFFF);
    assert_eq!(ceil_sqrt_of((big - 1) * (big - 1)), 0xFFFF_FFFF_FFFF_FFFE);
    assert_eq!(ceil_sqrt_of(1u128 << 64), 1u64 << 32);
    assert_eq!(ceil_sqrt_of((1u128 << 64) + 1), (1u64 << 32) + 1);
}

#[test]
fn dist2_of_is_the_sum_of_squares() {
    let p = Point { x: 0, y: 0 };
    let q = Point { x: 3, y: -4 };
    assert_eq!(dist2_of(p, q), 25);
    assert_eq!(dist2_of(q, p), 25);
    assert_eq!(dist2_of(q, q), 0);
}

#[test]
fn dist2_of_the_farthest_corners() {
    let p = Point { x: i32::MIN, y: i32::MIN };
    let q = Point { x: i32::MAX, y: i32::MAX };
    let side: u128 = 0xFFFF_FFFF;
    assert_eq!(dist2_of(p, q), 2 * side * side);
    assert_eq!(edge_len_of(p, q), 6074000999);
}

#[test]
fn edge_len_of_rounds_up() {
    let o = Point { x: 0, y: 0 };
    assert_eq!(edge_len_of(o, Point { x: 3, y: 4 }), 5);
    assert_eq!(edge_len_of(o, Point { x: 1, y: 1 }), 2);
    assert_eq!(edge_len_of(o, Point { x: 1, y: 0 }), 1);
    assert_eq!(edge_len_of(o, o), 0);
    assert_eq!(edge_len_of(o, Point { x: 1000, y: 1000 }), 1415);
}

#[test]
fn edge_len_of_obeys_the_triangle_inequality() {
    let pts = [
        Point { x: 0, y: 0 },
        Point { x: 1, y: 1 },
        Point { x: 2, y: 2 },
        Point { x: -7, y: 3 },
        Point { x: 100, y: -1 },
    ];
    for p in pts {
        for q in pts {
            for r in pts {
                assert!(edge_len_of(p, r) <= edge_len_of(p, q) + edge_len_of(q, r));
            }
            assert_eq!(edge_len_of(p, q), edge_len_of(q, p));
        }
    }
}

#[test]
fn floor_div_rounds_down() {
    assert_eq!(floor_div(7, 2), 3);
    assert_eq!(floor_div(-7, 2), -4);
    assert_eq!(floor_div(-8, 2), -4);
    assert_eq!(floor_div(-1, 100), -1);
    assert_eq!(floor_div(0, 5), 0);
    assert_eq!(floor_div(i128::MIN, 1), i128::MIN);
    assert_eq!(floor_div(i128::MIN, i128::MAX), -2);
}
