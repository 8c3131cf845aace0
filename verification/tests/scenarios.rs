use sweepline::geometry::{proper_cross, segments_intersection, Point, Segment};
use sweepline::problem::SweepLineProblem;
use sweepline::rat::{rat_eq, Rat};
use sweepline::solvers::{naive_intersection_solver, sweep_line_solver};

fn ri(n: i128) -> Rat {
    Rat { num: n, den: 1 }
}

fn pt(x: i128, y: i128) -> Point {
    Point { x: ri(x), y: ri(y) }
}

fn seg(x1: i128, y1: i128, x2: i128, y2: i128) -> Segment {
    Segment { ini: pt(x1, y1), end: pt(x2, y2) }
}

fn rat_is(r: &Rat, num: i128, den: i128) -> bool {
    rat_eq(r, &Rat { num, den })
}

fn point_is(p: &Point, xn: i128, xd: i128, yn: i128, yd: i128) -> bool {
    rat_is(&p.x, xn, xd) && rat_is(&p.y, yn, yd)
}

/// Snap an artifact to the 0.1 grid and return a comparable integer key,
/// with the two ends in a canonical order.
fn snapped_key(a: &Segment) -> (i128, i128, i128, i128) {
    let grid = Rat { num: 1, den: 10 };
    let s = a.to_grid(&grid);
    let e1 = (s.ini.x.num, s.ini.y.num);
    let e2 = (s.end.x.num, s.end.y.num);
    let (lo, hi) = if e1 <= e2 { (e1, e2) } else { (e2, e1) };
    (lo.0, lo.1, hi.0, hi.1)
}

fn snapped_set(result: &[Segment]) -> Vec<(i128, i128, i128, i128)> {
    let mut keys: Vec<(i128, i128, i128, i128)> = result.iter().map(snapped_key).collect();
    keys.sort();
    keys.dedup();
    keys
}

#[test]
fn scenario_horizontal_and_slanted() {
    // The slanted segment leaves the horizontal one's x-range before
    // descending to its height, so the exact kernel reports no contact.
    let p = SweepLineProblem::new(vec![seg(1, 1, 10, 1), seg(2, 2, 40, 0)]);
    let mut naive = SweepLineProblem::new(p.segments.clone());
    naive_intersection_solver(&mut naive);
    assert_eq!(naive.result.len(), 0);
    let mut sweep = SweepLineProblem::new(p.segments.clone());
    sweep_line_solver(&mut sweep);
    assert_eq!(snapped_set(&sweep.result), snapped_set(&naive.result));
}

#[test]
fn scenario_two_diagonals() {
    let p = SweepLineProblem::new(vec![seg(0, 0, 10, 10), seg(0, 10, 10, 0)]);
    let mut naive = SweepLineProblem::new(p.segments.clone());
    naive_intersection_solver(&mut naive);
    assert_eq!(naive.result.len(), 1);
    let a = naive.result[0];
    assert!(point_is(&a.ini, 5, 1, 5, 1));
    assert!(point_is(&a.end, 5, 1, 5, 1));
    let mut sweep = SweepLineProblem::new(p.segments.clone());
    sweep_line_solver(&mut sweep);
    assert_eq!(snapped_set(&sweep.result), snapped_set(&naive.result));
    assert_eq!(snapped_set(&sweep.result), vec![(50, 50, 50, 50)]);
}

#[test]
fn scenario_collinear_partial_overlap() {
    // The reference solver reports the shared stretch from (5,0) to
    // (10,0); the sweep engine is not required to emit overlaps.
    let p = SweepLineProblem::new(vec![seg(0, 0, 10, 0), seg(5, 0, 15, 0)]);
    let mut naive = SweepLineProblem::new(p.segments.clone());
    naive_intersection_solver(&mut naive);
    assert_eq!(naive.result.len(), 1);
    let a = naive.result[0];
    assert!(point_is(&a.ini, 5, 1, 0, 1));
    assert!(point_is(&a.end, 10, 1, 0, 1));
}

#[test]
fn scenario_three_concurrent() {
    let p = SweepLineProblem::new(
        vec![seg(0, 0, 10, 10), seg(0, 10, 10, 0), seg(0, 5, 10, 5)],
    );
    let mut naive = SweepLineProblem::new(p.segments.clone());
    naive_intersection_solver(&mut naive);
    assert_eq!(naive.result.len(), 3);
    for a in naive.result.iter() {
        assert!(point_is(&a.ini, 5, 1, 5, 1));
        assert!(point_is(&a.end, 5, 1, 5, 1));
    }
    assert_eq!(snapped_set(&naive.result), vec![(50, 50, 50, 50)]);
    let mut sweep = SweepLineProblem::new(p.segments.clone());
    sweep_line_solver(&mut sweep);
    assert_eq!(snapped_set(&sweep.result), vec![(50, 50, 50, 50)]);
}

#[test]
fn scenario_identical_segments() {
    // Two copies of one segment: the overlap is the whole segment.
    let p = SweepLineProblem::new(vec![seg(1, 1, 5, 5), seg(1, 1, 5, 5)]);
    let mut naive = SweepLineProblem::new(p.segments.clone());
    naive_intersection_solver(&mut naive);
    assert_eq!(naive.result.len(), 1);
    let a = naive.result[0];
    assert!(point_is(&a.ini, 1, 1, 1, 1));
    assert!(point_is(&a.end, 5, 1, 5, 1));
}

#[test]
fn scenario_vertical_segment_included() {
    // Vertical segments take part in the sweep: start and end share an
    // x, and starts sort before ends there, so the crossing is found.
    let p = SweepLineProblem::new(vec![seg(5, 0, 5, 10), seg(0, 5, 10, 5)]);
    let mut naive = SweepLineProblem::new(p.segments.clone());
    naive_intersection_solver(&mut naive);
    assert_eq!(naive.result.len(), 1);
    assert!(point_is(&naive.result[0].ini, 5, 1, 5, 1));
    let mut sweep = SweepLineProblem::new(p.segments.clone());
    sweep_line_solver(&mut sweep);
    assert_eq!(snapped_set(&sweep.result), snapped_set(&naive.result));
}

#[test]
fn scenario_empty_and_single() {
    let mut empty = SweepLineProblem::new(Vec::new());
    naive_intersection_solver(&mut empty);
    assert_eq!(empty.result.len(), 0);
    sweep_line_solver(&mut empty);
    assert_eq!(empty.result.len(), 0);
    let mut single = SweepLineProblem::new(vec![seg(0, 0, 9, 9)]);
    naive_intersection_solver(&mut single);
    assert_eq!(single.result.len(), 0);
    sweep_line_solver(&mut single);
    assert_eq!(single.result.len(), 0);
}

struct Lcg {
    state: u64,
}

impl Lcg {
    fn new(seed: u64) -> Lcg {
        Lcg { state: seed }
    }

    fn next(&mut self) -> u64 {
        self.state = self.state.wrapping_mul(6364136223846793005).wrapping_add(1442695040888963407);
        self.state >> 33
    }

    fn coord(&mut self) -> i128 {
        (self.next() % 1001) as i128
    }
}

/// Fifty pseudo-random integer segments per trial, one hundred trials.
/// The engine reconciles every proper crossing, so away from collinear
/// contact (which only the reference solver reports) the two snapped,
/// deduplicated result sets are equal: the symmetric difference is
/// empty.  The reference solver is also checked to be idempotent.
#[test]
fn scenario_random_trials() {
    let mut rng = Lcg::new(20240811);
    let mut checked = 0usize;
    for _trial in 0..100 {
        let mut segments: Vec<Segment> = Vec::new();
        while segments.len() < 50 {
            let (x1, y1, x2, y2) = (rng.coord(), rng.coord(), rng.coord(), rng.coord());
            if x1 != x2 && y1 != y2 {
                segments.push(seg(x1, y1, x2, y2));
            }
        }
        let mut naive = SweepLineProblem::new(segments.clone());
        naive_intersection_solver(&mut naive);
        let mut naive_again = SweepLineProblem::new(segments.clone());
        naive_intersection_solver(&mut naive_again);
        assert_eq!(naive.result.len(), naive_again.result.len());
        for (a, b) in naive.result.iter().zip(naive_again.result.iter()) {
            assert_eq!(a, b);
        }
        let mut collinear_contact = false;
        for x in 0..segments.len() {
            for y in (x + 1)..segments.len() {
                if segments_intersection(&segments[x], &segments[y]).is_some()
                    && !proper_cross(&segments[x], &segments[y]) {
                    collinear_contact = true;
                }
            }
        }
        if collinear_contact {
            continue;
        }
        let mut sweep = SweepLineProblem::new(segments.clone());
        sweep_line_solver(&mut sweep);
        assert_eq!(snapped_set(&sweep.result), snapped_set(&naive.result));
        checked += 1;
    }
    assert!(checked >= 90);
}
