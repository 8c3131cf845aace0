use sweepline::generator::create_random_example;
use sweepline::geometry::{
    collinear_point_on_segment, intersection_point, orientation, segments_intersection,
    Direction, Point, Segment,
};
use sweepline::rat::{fraction_cmp, rat_add, rat_cmp, rat_div, rat_eq, rat_le, rat_lt, rat_mul,
    rat_round, rat_sub, Cmp, Rat};

fn ri(n: i128) -> Rat {
    Rat { num: n, den: 1 }
}

fn rq(num: i128, den: i128) -> Rat {
    Rat { num, den }
}

fn pt(x: i128, y: i128) -> Point {
    Point { x: ri(x), y: ri(y) }
}

fn seg(x1: i128, y1: i128, x2: i128, y2: i128) -> Segment {
    Segment { ini: pt(x1, y1), end: pt(x2, y2) }
}

#[test]
fn rational_comparisons_are_exact() {
    assert!(rat_lt(&rq(1, 3), &rq(34, 100)));
    assert!(rat_lt(&rq(33, 100), &rq(1, 3)));
    assert!(rat_eq(&rq(2, 4), &rq(1, 2)));
    assert!(rat_le(&rq(-1, 2), &rq(-49, 100)));
    assert_eq!(rat_cmp(&rq(-7, 2), &rq(-7, 2)), Cmp::Eq);
    assert_eq!(fraction_cmp(1, 3, 2, 6), Cmp::Eq);
    // Values whose cross products would overflow naive multiplication.
    let big = 1i128 << 100;
    assert_eq!(fraction_cmp(big + 1, big, big + 2, big + 1), Cmp::Gt);
    assert_eq!(fraction_cmp(-(big + 1), big, -(big + 2), big + 1), Cmp::Lt);
}

#[test]
fn rational_arithmetic_is_exact() {
    let a = rq(1, 3);
    let b = rq(1, 6);
    assert!(rat_eq(&rat_add(&a, &b), &rq(1, 2)));
    assert!(rat_eq(&rat_sub(&a, &b), &rq(1, 6)));
    assert!(rat_eq(&rat_mul(&a, &b), &rq(1, 18)));
    assert!(rat_eq(&rat_div(&a, &b), &ri(2)));
    assert!(rat_eq(&rat_div(&a, &rq(-1, 6)), &ri(-2)));
}

#[test]
fn rounding_is_half_away_from_zero() {
    assert_eq!(rat_round(&rq(5, 10)), 1);
    assert_eq!(rat_round(&rq(-5, 10)), -1);
    assert_eq!(rat_round(&rq(4, 10)), 0);
    assert_eq!(rat_round(&rq(-4, 10)), 0);
    assert_eq!(rat_round(&rq(15, 10)), 2);
    assert_eq!(rat_round(&rq(-15, 10)), -2);
    assert_eq!(rat_round(&ri(7)), 7);
}

#[test]
fn grid_snapping_matches_rounding() {
    let grid = rq(1, 10);
    let p = Point { x: rq(123, 1000), y: rq(-567, 1000) };
    let s = p.to_grid(&grid);
    // 0.123 -> 0.1 and -0.567 -> -0.6 on the tenth grid.
    assert!(rat_eq(&s.x, &rq(1, 10)));
    assert!(rat_eq(&s.y, &rq(-6, 10)));
    let g5 = ri(5);
    let q = pt(12, -13).to_grid(&g5);
    assert!(rat_eq(&q.x, &ri(10)));
    assert!(rat_eq(&q.y, &ri(-15)));
}

#[test]
fn grid_snapping_is_idempotent() {
    let grid = rq(1, 10);
    let p = Point { x: rq(123, 1000), y: rq(-567, 1000) };
    let once = p.to_grid(&grid);
    let twice = once.to_grid(&grid);
    assert_eq!(once, twice);
    let g5 = ri(5);
    let q = pt(12, -13).to_grid(&g5);
    assert_eq!(q, q.to_grid(&g5));
}

#[test]
fn orientation_signs() {
    let s = seg(0, 0, 10, 0);
    assert_eq!(orientation(&pt(5, 0), &s), Direction::Collinear);
    assert_eq!(orientation(&pt(5, 3), &s), Direction::CounterClockwise);
    assert_eq!(orientation(&pt(5, -3), &s), Direction::Clockwise);
}

#[test]
fn bounding_box_test_is_inclusive() {
    let s = seg(0, 0, 10, 4);
    assert!(collinear_point_on_segment(&pt(0, 0), &s));
    assert!(collinear_point_on_segment(&pt(10, 4), &s));
    assert!(collinear_point_on_segment(&pt(5, 2), &s));
    assert!(!collinear_point_on_segment(&pt(11, 2), &s));
    assert!(!collinear_point_on_segment(&pt(5, 5), &s));
}

#[test]
fn intersection_point_is_exact() {
    // y = x and y = 1 cross at (1, 1).
    let r = intersection_point(&seg(0, 0, 10, 10), &seg(0, 1, 10, 1));
    assert!(rat_eq(&r.ini.x, &ri(1)));
    assert!(rat_eq(&r.ini.y, &ri(1)));
    // A fractional crossing: y = x/3 and y = 1 - x meet at (3/4, 1/4).
    let r = intersection_point(&seg(0, 0, 9, 3), &seg(0, 1, 1, 0));
    assert!(rat_eq(&r.ini.x, &rq(3, 4)));
    assert!(rat_eq(&r.ini.y, &rq(1, 4)));
}

#[test]
fn segment_intersection_cases() {
    // Proper crossing.
    let r = segments_intersection(&seg(0, 0, 4, 4), &seg(0, 4, 4, 0)).unwrap();
    assert!(rat_eq(&r.ini.x, &ri(2)) && rat_eq(&r.ini.y, &ri(2)));
    // Touching at an endpoint.
    let r = segments_intersection(&seg(0, 0, 4, 0), &seg(4, 0, 8, 3)).unwrap();
    assert!(rat_eq(&r.ini.x, &ri(4)) && rat_eq(&r.ini.y, &ri(0)));
    // Collinear but disjoint.
    assert!(segments_intersection(&seg(0, 0, 4, 0), &seg(5, 0, 9, 0)).is_none());
    // Parallel, never meeting.
    assert!(segments_intersection(&seg(0, 0, 4, 0), &seg(0, 1, 4, 1)).is_none());
    // Far apart, no contact.
    assert!(segments_intersection(&seg(0, 0, 1, 1), &seg(5, 5, 6, 9)).is_none());
}

#[test]
fn reported_points_lie_on_both_segments() {
    // The exactness behind the soundness law, checked on a crossing
    // whose coordinates are not representable in floating point.
    let s1 = seg(0, 0, 7, 3);
    let s2 = seg(0, 3, 7, 0);
    let r = segments_intersection(&s1, &s2).unwrap();
    assert_eq!(orientation(&r.ini, &s1), Direction::Collinear);
    assert_eq!(orientation(&r.ini, &s2), Direction::Collinear);
    assert!(collinear_point_on_segment(&r.ini, &s1));
    assert!(collinear_point_on_segment(&r.ini, &s2));
    assert!(rat_eq(&r.ini.x, &rq(7, 2)));
    assert!(rat_eq(&r.ini.y, &rq(3, 2)));
}

#[test]
fn interpolation_and_slope() {
    let s = seg(0, 0, 10, 5);
    assert!(rat_eq(&s.interpolate_y(&ri(4)), &ri(2)));
    assert!(rat_eq(&s.interpolate_y(&ri(5)), &rq(5, 2)));
    assert!(rat_eq(&s.slope().unwrap(), &rq(1, 2)));
    let down = seg(10, 5, 0, 0);
    assert!(rat_eq(&down.slope().unwrap(), &rq(1, 2)));
    let vertical = seg(3, 0, 3, 9);
    assert!(vertical.slope().is_none());
    assert!(rat_eq(&vertical.interpolate_y(&ri(3)), &ri(0)));
}

#[test]
fn random_examples_are_well_formed() {
    let p = create_random_example(40);
    assert_eq!(p.segments.len(), 40);
    assert_eq!(p.result.len(), 0);
    assert_eq!(p.basic_operations, 0);
    for s in p.segments.iter() {
        for r in [s.ini.x, s.ini.y, s.end.x, s.end.y].iter() {
            assert_eq!(r.den, 1);
            assert!(0 <= r.num && r.num <= 999);
        }
        assert_ne!(s.ini.x.num, s.end.x.num);
        assert_ne!(s.ini.y.num, s.end.y.num);
    }
    let none = create_random_example(-3);
    assert_eq!(none.segments.len(), 0);
}
