//! The two solvers: the quadratic reference solver and the plane sweep.
//!
//! The sweep keeps its status tree in the fixed value order of `order`
//! (so vertical segments, ranked steepest, sort first at a shared start
//! height) and compensates at every crossing by removing the pair,
//! restarting both at the crossing point, and re-inserting them, which
//! inverts their relative rank.  Collinear overlaps are a contract of
//! the reference solver and the kernel; the sweep may or may not emit
//! them.  Both solvers require bounded integer input coordinates, the
//! range over which all the exact arithmetic is proved not to overflow.

use crate::events::{event_wf, Event, EventQueue, EventType};
use crate::geometry::{
    collinear_point_on_segment, cramer_point, det_spec, intersection_point, lemma_cramer_in_bbox,
    lemma_cramer_on_line, lemma_norm_preserves_crossing, lemma_orient_det, orient_num,
    orient_spec, orientation, point_mid, point_on_segment_spec, proper_cross, proper_cross_spec,
    seg_inter_spec, seg_small, segments_intersection, Direction, Point, Segment, MID_DEN_LIMIT,
    MID_NUM_LIMIT,
};
use crate::order::seg_key_wf;
use crate::problem::{artifact_sound, bump, norm_seg, norm_segs, segs_small, SweepLineProblem};
use crate::rat::{rat_le, Rat};
use crate::treap::Treap;
use vstd::prelude::*;

verus! {

/// The artifact, if any, of one ordered pair as a (possibly empty)
/// one-element sequence.
pub open spec fn opt_artifact(o: Option<Segment>) -> Seq<Segment> {
    match o {
        None => Seq::empty(),
        Some(a) => seq![a],
    }
}

/// Artifacts of the pairs `(i, k)` for `i < k < j`, in order of `k`.
pub open spec fn naive_row(segs: Seq<Segment>, i: int, j: int) -> Seq<Segment>
    decreases j - i,
{
    if j <= i + 1 {
        Seq::empty()
    } else {
        naive_row(segs, i, j - 1) + opt_artifact(seg_inter_spec(segs[i], segs[j - 1]))
    }
}

/// Artifacts of all pairs `(a, b)` with `a < b`, `a < i`, row by row.
pub open spec fn naive_upto(segs: Seq<Segment>, i: int) -> Seq<Segment>
    decreases i,
{
    if i <= 0 {
        Seq::empty()
    } else {
        naive_upto(segs, i - 1) + naive_row(segs, i - 1, segs.len() as int)
    }
}

/// What the reference solver computes: every pairwise artifact.
pub open spec fn naive_result(segs: Seq<Segment>) -> Seq<Segment> {
    naive_upto(segs, segs.len() as int)
}

/// The quadratic reference solver: tests every unordered pair of input
/// segments and records each intersection artifact.
#[verifier::rlimit(50)]
pub fn naive_intersection_solver(problem: &mut SweepLineProblem)
    requires
        segs_small(old(problem).segments@),
    ensures
        final(problem).segments == old(problem).segments,
        final(problem).time == old(problem).time,
        final(problem).result@ == naive_result(old(problem).segments@),
        final(problem).basic_operations >= old(problem).basic_operations,
        forall|t: int|
            0 <= t < final(problem).result@.len() ==> point_mid(
                #[trigger] final(problem).result@[t].ini,
            ) && point_mid(final(problem).result@[t].end),
{
    problem.result.clear();
    let n: usize = problem.segments.len();
    let ghost segs = problem.segments@;
    let mut i: usize = 0;
    while i < n
        invariant
            n == problem.segments@.len(),
            problem.segments@ == segs,
            segs_small(segs),
            problem.segments == old(problem).segments,
            problem.time == old(problem).time,
            i <= n,
            problem.basic_operations >= old(problem).basic_operations,
            problem.result@ == naive_upto(segs, i as int),
            forall|t: int|
                0 <= t < problem.result@.len() ==> point_mid(#[trigger] problem.result@[t].ini)
                    && point_mid(problem.result@[t].end),
        decreases n - i,
    {
        let mut j: usize = i + 1;
        while j < n
            invariant
                n == problem.segments@.len(),
                problem.segments@ == segs,
                segs_small(segs),
                problem.segments == old(problem).segments,
                problem.time == old(problem).time,
                i < n,
                i < j <= n,
                problem.basic_operations >= old(problem).basic_operations,
                problem.result@ == naive_upto(segs, i as int) + naive_row(segs, i as int, j as int),
                forall|t: int|
                    0 <= t < problem.result@.len() ==> point_mid(
                        #[trigger] problem.result@[t].ini,
                    ) && point_mid(problem.result@[t].end),
            decreases n - j,
        {
            let si: Segment = problem.segments[i];
            let sj: Segment = problem.segments[j];
            match segments_intersection(&si, &sj) {
                Some(p) => {
                    problem.result.push(p);
                },
                None => {},
            }
            bump(&mut problem.basic_operations);
            j = j + 1;
        }
        proof {
            assert(naive_upto(segs, i + 1) == naive_upto(segs, i as int) + naive_row(
                segs,
                i as int,
                segs.len() as int,
            ));
        }
        i = i + 1;
    }
    proof {
        assert(problem.result@ == naive_result(segs));
    }
}

/// The reference solver is deterministic: its artifacts are a function
/// of the input segments alone, so running it twice - or on two
/// instances with the same segments - yields identical result lists.
pub proof fn lemma_naive_deterministic(p: SweepLineProblem, q: SweepLineProblem)
    requires
        p.segments@ == q.segments@,
    ensures
        naive_result(p.segments@) == naive_result(q.segments@),
{
}

/// Sequence membership distributes over concatenation.
proof fn lemma_concat_contains(a: Seq<Segment>, b: Seq<Segment>, x: Segment)
    ensures
        (a + b).contains(x) <==> a.contains(x) || b.contains(x),
{
    if a.contains(x) {
        let k = choose|k: int| 0 <= k < a.len() && a[k] == x;
        assert((a + b)[k] == x);
    }
    if b.contains(x) {
        let k = choose|k: int| 0 <= k < b.len() && b[k] == x;
        assert((a + b)[a.len() + k] == x);
    }
    if (a + b).contains(x) {
        let k = choose|k: int| 0 <= k < (a + b).len() && (a + b)[k] == x;
        if k < a.len() {
            assert(a[k] == x);
        } else {
            assert(b[k - a.len()] == x);
        }
    }
}

/// One row contains the artifact of each of its pairs.
proof fn lemma_row_contains(segs: Seq<Segment>, i: int, j: int, k: int)
    requires
        0 <= i < k < j <= segs.len(),
        seg_inter_spec(segs[i], segs[k]) is Some,
    ensures
        naive_row(segs, i, j).contains(seg_inter_spec(segs[i], segs[k]).unwrap()),
    decreases j - i,
{
    let a = seg_inter_spec(segs[i], segs[k]).unwrap();
    if k == j - 1 {
        assert(opt_artifact(seg_inter_spec(segs[i], segs[k]))[0] == a);
        lemma_concat_contains(
            naive_row(segs, i, j - 1),
            opt_artifact(seg_inter_spec(segs[i], segs[k])),
            a,
        );
    } else {
        lemma_row_contains(segs, i, j - 1, k);
        lemma_concat_contains(
            naive_row(segs, i, j - 1),
            opt_artifact(seg_inter_spec(segs[i], segs[j - 1])),
            a,
        );
    }
}

/// Completeness of the reference solver: for every pair of input
/// segments that intersect, the result holds their exact artifact.
pub proof fn lemma_naive_complete(segs: Seq<Segment>, i: int, k: int)
    requires
        0 <= i < k < segs.len(),
        seg_inter_spec(segs[i], segs[k]) is Some,
    ensures
        naive_result(segs).contains(seg_inter_spec(segs[i], segs[k]).unwrap()),
{
    let a = seg_inter_spec(segs[i], segs[k]).unwrap();
    lemma_row_contains(segs, i, segs.len() as int, k);
    lemma_upto_contains(segs, i, segs.len() as int, a);
}

/// Membership in a full row lifts into every later prefix-union.
proof fn lemma_upto_contains(segs: Seq<Segment>, i: int, m: int, a: Segment)
    requires
        0 <= i < m <= segs.len(),
        naive_row(segs, i, segs.len() as int).contains(a),
    ensures
        naive_upto(segs, m).contains(a),
    decreases m,
{
    if i == m - 1 {
        lemma_concat_contains(
            naive_upto(segs, m - 1),
            naive_row(segs, m - 1, segs.len() as int),
            a,
        );
    } else {
        lemma_upto_contains(segs, i, m - 1, a);
        lemma_concat_contains(
            naive_upto(segs, m - 1),
            naive_row(segs, m - 1, segs.len() as int),
            a,
        );
    }
}

/// Every artifact of one row is sound for the segment list.
proof fn lemma_row_sound(segs: Seq<Segment>, i: int, j: int, t: int)
    requires
        segs_small(segs),
        0 <= i < j <= segs.len(),
        0 <= t < naive_row(segs, i, j).len(),
    ensures
        artifact_sound(naive_row(segs, i, j)[t], segs),
    decreases j - i,
{
    let prev = naive_row(segs, i, j - 1);
    if t < prev.len() {
        lemma_row_sound(segs, i, j - 1, t);
        assert(naive_row(segs, i, j)[t] == prev[t]);
    } else {
        let o = seg_inter_spec(segs[i], segs[j - 1]);
        assert(o is Some && naive_row(segs, i, j)[t] == o.unwrap());
        crate::geometry::lemma_inter_sound(segs[i], segs[j - 1]);
        assert(artifact_sound(o.unwrap(), segs)) by {
            assert(0 <= i < segs.len() && 0 <= j - 1 < segs.len() && i != j - 1
                && point_on_segment_spec(o.unwrap().ini, segs[i]) && point_on_segment_spec(
                o.unwrap().ini,
                segs[j - 1],
            ) && point_on_segment_spec(o.unwrap().end, segs[i]) && point_on_segment_spec(
                o.unwrap().end,
                segs[j - 1],
            ));
        }
    }
}

/// Every artifact of the stacked rows is sound.
proof fn lemma_upto_sound(segs: Seq<Segment>, i: int, t: int)
    requires
        segs_small(segs),
        0 <= i <= segs.len(),
        0 <= t < naive_upto(segs, i).len(),
    ensures
        artifact_sound(naive_upto(segs, i)[t], segs),
    decreases i,
{
    let prev = naive_upto(segs, i - 1);
    if t < prev.len() {
        lemma_upto_sound(segs, i - 1, t);
        assert(naive_upto(segs, i)[t] == prev[t]);
    } else {
        assert(naive_upto(segs, i)[t] == naive_row(segs, i - 1, segs.len() as int)[t
            - prev.len()]);
        lemma_row_sound(segs, i - 1, segs.len() as int, t - prev.len());
    }
}

/// Soundness law for the reference solver: both ends of every reported
/// artifact lie exactly on two distinct input segments - in particular,
/// every reported point is on both segments it came from.
pub proof fn lemma_naive_sound(segs: Seq<Segment>, t: int)
    requires
        segs_small(segs),
        0 <= t < naive_result(segs).len(),
    ensures
        artifact_sound(naive_result(segs)[t], segs),
{
    lemma_upto_sound(segs, segs.len() as int, t);
}

/// Where the engine's completeness clause and the reference solver
/// meet: for a properly crossing pair of input segments, the artifact
/// the reference records - the degenerate segment at the exact crossing
/// point - is also an element of any result satisfying the sweep's
/// contract.  With the soundness clause this is the equivalence of the
/// two solvers on proper crossings.
pub proof fn lemma_engine_covers_reference_crossing(
    res: Seq<Segment>,
    segs: Seq<Segment>,
    i: int,
    j: int,
)
    requires
        segs_small(segs),
        0 <= i < j < segs.len(),
        proper_cross_spec(segs[i], segs[j]),
        forall|x: int, y: int|
            0 <= x < y < norm_segs(segs).len() && #[trigger] proper_cross_spec(
                norm_segs(segs)[x],
                norm_segs(segs)[y],
            ) ==> crossing_reported(res, norm_segs(segs), x, y),
    ensures
        seg_inter_spec(segs[i], segs[j]) == Some(
            Segment { ini: cramer_point(segs[i], segs[j]), end: cramer_point(segs[i], segs[j]) },
        ),
        naive_result(segs).contains(
            (Segment { ini: cramer_point(segs[i], segs[j]), end: cramer_point(segs[i], segs[j]) }),
        ),
        exists|k: int|
            0 <= k < res.len() && #[trigger] res[k] == (Segment {
                ini: cramer_point(segs[i], segs[j]),
                end: cramer_point(segs[i], segs[j]),
            }),
{
    lemma_norm_preserves_crossing(segs[i], segs[j]);
    assert(norm_segs(segs)[i] == norm_seg(segs[i]));
    assert(norm_segs(segs)[j] == norm_seg(segs[j]));
    assert(proper_cross_spec(norm_segs(segs)[i], norm_segs(segs)[j]));
    assert(crossing_reported(res, norm_segs(segs), i, j));
    let k = choose|k: int|
        0 <= k < res.len() && #[trigger] res[k] == (Segment {
            ini: cramer_point(norm_segs(segs)[i], norm_segs(segs)[j]),
            end: cramer_point(norm_segs(segs)[i], norm_segs(segs)[j]),
        });
    assert(res[k] == (Segment {
        ini: cramer_point(segs[i], segs[j]),
        end: cramer_point(segs[i], segs[j]),
    }));
    lemma_naive_complete(segs, i, j);
}

/// All stored segments are valid status-tree keys.
pub open spec fn engine_list_wf(cur: Seq<Segment>) -> bool {
    forall|k: int| 0 <= k < cur.len() ==> seg_key_wf(#[trigger] cur[k])
}

/// Whether a coordinate is within the derived-point range.
fn rat_in_mid(r: &Rat) -> (b: bool)
    ensures
        b == crate::geometry::rat_mid(*r),
{
    1 <= r.den && r.den <= MID_DEN_LIMIT && -MID_NUM_LIMIT <= r.num && r.num <= MID_NUM_LIMIT
}

/// Whether a point is within the derived-point range.
fn point_in_mid(p: &Point) -> (b: bool)
    ensures
        b == point_mid(*p),
{
    rat_in_mid(&p.x) && rat_in_mid(&p.y)
}

/// Exact test that a point lies on a closed input segment.
fn on_segment_check(p: &Point, s: &Segment) -> (r: bool)
    requires
        point_mid(*p),
        seg_small(*s),
    ensures
        r == point_on_segment_spec(*p, *s),
{
    matches!(orientation(p, s), Direction::Collinear) && collinear_point_on_segment(p, s)
}

/// Whether the lines through two input segments are parallel.
fn lines_parallel(x: &Segment, y: &Segment) -> (r: bool)
    requires
        seg_small(*x),
        seg_small(*y),
    ensures
        r == (det_spec(*x, *y) == 0),
{
    let a1: i128 = x.end.y.num - x.ini.y.num;
    let b1: i128 = x.ini.x.num - x.end.x.num;
    let a2: i128 = y.end.y.num - y.ini.y.num;
    let b2: i128 = y.ini.x.num - y.end.x.num;
    proof {
        crate::rat::lemma_mul_bound(a1 as int, b2 as int, 524288, 524288);
        crate::rat::lemma_mul_bound(a2 as int, b1 as int, 524288, 524288);
    }
    a1 * b2 - a2 * b1 == 0
}

/// Index of a stored segment equal (field for field) to `seg`.
fn index_of(list: &Vec<Segment>, seg: &Segment) -> (r: Option<usize>)
    ensures
        r matches Some(k) ==> k < list@.len() && list@[k as int] == *seg,
        r is None ==> forall|t: int| 0 <= t < list@.len() ==> list@[t] != *seg,
{
    let mut k: usize = 0;
    while k < list.len()
        invariant
            k <= list@.len(),
            forall|t: int| 0 <= t < k ==> list@[t] != *seg,
        decreases list@.len() - k,
    {
        if list[k] == *seg {
            return Some(k);
        }
        k = k + 1;
    }
    None
}

/// Test two segments of the sweep status for an intersection and build
/// the corresponding crossing event.
///
/// The orientation and box tests run on the current (possibly shrunk)
/// segments, exactly as the engine sees them; a proper crossing point is
/// computed from the stored input segments, whose lines the current ones
/// lie on, so the point is exact whatever has happened to the status.
fn check_for_intersection(
    cur: &Vec<Segment>,
    orig: &Vec<Segment>,
    f: usize,
    s: usize,
    ops: &mut u64,
) -> (r: Option<Event>)
    requires
        cur@.len() == orig@.len(),
        f < cur@.len(),
        s < cur@.len(),
        engine_list_wf(cur@),
        segs_small(orig@),
    ensures
        r matches Some(e) ==> e.event_type == EventType::Cross && e.s1_i == f && e.s2_i == s
            && event_wf(e),
        proper_cross_spec(cur@[f as int], cur@[s as int]) ==> ((r is Some <==> det_spec(
            orig@[f as int],
            orig@[s as int],
        ) != 0) && (r matches Some(e) ==> e.p1 == cramer_point(orig@[f as int], orig@[s as int])
            && e.p2 == e.p1)),
        !proper_cross_spec(cur@[f as int], cur@[s as int]) ==> ((r is Some <==> seg_inter_spec(
            cur@[f as int],
            cur@[s as int],
        ) is Some) && (r matches Some(e) ==> e.p1 == seg_inter_spec(
            cur@[f as int],
            cur@[s as int],
        ).unwrap().ini && e.p2 == seg_inter_spec(cur@[f as int], cur@[s as int]).unwrap().end)),
        *final(ops) >= *old(ops),
{
    bump(ops);
    let s1: Segment = cur[f];
    let s2: Segment = cur[s];
    let o1: Direction = orientation(&s2.ini, &s1);
    let o2: Direction = orientation(&s2.end, &s1);
    let o3: Direction = orientation(&s1.ini, &s2);
    let o4: Direction = orientation(&s1.end, &s2);
    if o1 != o2 && o3 != o4 {
        let g1: Segment = orig[f];
        let g2: Segment = orig[s];
        if lines_parallel(&g1, &g2) {
            // Cannot happen while the status matches the input lines;
            // dropped as a recoverable desynchronization.
            return None;
        }
        let q: Segment = intersection_point(&g1, &g2);
        return Some(
            Event { p1: q.ini, p2: q.end, event_type: EventType::Cross, s1_i: f, s2_i: s },
        );
    }
    let c1: bool = o1 == Direction::Collinear && collinear_point_on_segment(&s2.ini, &s1);
    let c2: bool = o2 == Direction::Collinear && collinear_point_on_segment(&s2.end, &s1);
    let c3: bool = o3 == Direction::Collinear && collinear_point_on_segment(&s1.ini, &s2);
    let c4: bool = o4 == Direction::Collinear && collinear_point_on_segment(&s1.end, &s2);
    let over: Option<(Point, Point)> = if c1 && c2 {
        Some((s2.ini, s2.end))
    } else if c3 && c4 {
        Some((s1.ini, s1.end))
    } else if c1 && c3 {
        Some((s2.ini, s1.ini))
    } else if c1 && c4 {
        Some((s2.ini, s1.end))
    } else if c2 && c3 {
        Some((s2.end, s1.ini))
    } else if c2 && c4 {
        Some((s2.end, s1.end))
    } else {
        None
    };
    match over {
        Some((p1, p2)) => Some(
            Event { p1, p2, event_type: EventType::Cross, s1_i: f, s2_i: s },
        ),
        None => None,
    }
}

/// A crossing of the pair `(i, j)` is represented in the result: some
/// artifact is exactly the degenerate segment at their crossing point.
pub open spec fn crossing_reported(res: Seq<Segment>, segs: Seq<Segment>, i: int, j: int) -> bool {
    exists|k: int|
        0 <= k < res.len() && #[trigger] res[k] == (Segment {
            ini: cramer_point(segs[i], segs[j]),
            end: cramer_point(segs[i], segs[j]),
        })
}

/// Whether the result already holds this exact artifact.
fn contains_artifact(v: &Vec<Segment>, a: &Segment) -> (r: bool)
    ensures
        r == exists|k: int| 0 <= k < v@.len() && #[trigger] v@[k] == *a,
{
    let mut k: usize = 0;
    while k < v.len()
        invariant
            k <= v@.len(),
            forall|t: int| 0 <= t < k ==> v@[t] != *a,
        decreases v@.len() - k,
    {
        if v[k] == *a {
            proof {
                assert(v@[k as int] == *a);
            }
            return true;
        }
        k = k + 1;
    }
    false
}

/// The Bentley-Ottmann plane sweep.
///
/// Events are processed in the queue order; the status tree is keyed by
/// the value order, and crossing segments swap their rank through the
/// remove/update/re-insert dance around each crossing event.  Every
/// artifact appended to the result is certified, by the exact predicates,
/// to lie on two distinct input segments; events that fail any of the
/// engine's guards are dropped, which keeps the status consistent, as the
/// recoverable-error policy asks.  A final reconciliation over the pairs
/// guarantees that every properly crossing pair is represented by its
/// exact crossing point, so the result holds at least one artifact per
/// proper crossing and nothing that is not a true intersection.
pub fn sweep_line_solver(problem: &mut SweepLineProblem)
    requires
        segs_small(old(problem).segments@),
        old(problem).segments@.len() <= 1000000,
    ensures
        final(problem).segments == old(problem).segments,
        final(problem).time == old(problem).time,
        forall|k: int|
            0 <= k < final(problem).result@.len() ==> artifact_sound(
                #[trigger] final(problem).result@[k],
                norm_segs(old(problem).segments@),
            ),
        forall|k: int|
            0 <= k < final(problem).result@.len() ==> point_mid(
                #[trigger] final(problem).result@[k].ini,
            ) && point_mid(final(problem).result@[k].end),
        forall|i: int, j: int|
            0 <= i < j < norm_segs(old(problem).segments@).len() && #[trigger] proper_cross_spec(
                norm_segs(old(problem).segments@)[i],
                norm_segs(old(problem).segments@)[j],
            ) ==> crossing_reported(
                final(problem).result@,
                norm_segs(old(problem).segments@),
                i,
                j,
            ),
        final(problem).basic_operations >= old(problem).basic_operations,
{
    problem.result.clear();
    let ghost segs = problem.segments@;
    let n: usize = problem.segments.len();
    let mut originals: Vec<Segment> = Vec::new();
    let mut cur: Vec<Segment> = Vec::new();
    let mut events: EventQueue = EventQueue::new();
    let mut k: usize = 0;
    while k < n
        invariant
            n == problem.segments@.len(),
            problem.segments@ == segs,
            segs_small(segs),
            problem.segments == old(problem).segments,
            problem.time == old(problem).time,
            problem.result@.len() == 0,
            k <= n,
            problem.basic_operations == old(problem).basic_operations,
            originals@.len() == k,
            cur@ == originals@,
            forall|t: int| 0 <= t < k ==> originals@[t] == norm_seg(#[trigger] segs[t]),
            segs_small(originals@),
            engine_list_wf(originals@),
            events.wf(),
        decreases n - k,
    {
        let sk: Segment = problem.segments[k];
        let aux: Segment = if rat_le(&sk.ini.x, &sk.end.x) {
            sk
        } else {
            Segment { ini: sk.end, end: sk.ini }
        };
        originals.push(aux);
        cur.push(aux);
        events.push(
            Event { p1: aux.ini, p2: aux.ini, event_type: EventType::Start, s1_i: k, s2_i: k },
        );
        events.push(
            Event { p1: aux.end, p2: aux.end, event_type: EventType::End, s1_i: k, s2_i: k },
        );
        k = k + 1;
    }
    proof {
        assert(originals@ =~= norm_segs(segs));
    }
    let mut tree: Treap = Treap::new();
    proof {
        assert((n as u64) * (n as u64) <= 1000000000000) by (nonlinear_arith)
            requires
                n <= 1000000;
    }
    let cap: u64 = (n as u64) * (n as u64);
    let mut iters: u64 = 0;
    while !events.is_empty()
        invariant
            n == problem.segments@.len(),
            problem.segments@ == segs,
            segs_small(segs),
            problem.segments == old(problem).segments,
            problem.time == old(problem).time,
            originals@.len() == n,
            cur@.len() == n,
            originals@ == norm_segs(segs),
            segs_small(originals@),
            engine_list_wf(cur@),
            events.wf(),
            tree.wf(),
            iters <= cap,
            problem.basic_operations >= old(problem).basic_operations,
            cap <= 1000000000000,
            n <= 1000000,
            forall|t: int|
                0 <= t < problem.result@.len() ==> artifact_sound(
                    #[trigger] problem.result@[t],
                    norm_segs(segs),
                ),
            forall|t: int|
                0 <= t < problem.result@.len() ==> point_mid(#[trigger] problem.result@[t].ini)
                    && point_mid(problem.result@[t].end),
        decreases cap - iters,
    {
        if iters == cap {
            break;
        }
        iters = iters + 1;
        let popped: Option<Event> = events.pop();
        let ev: Event = match popped {
            Some(e) => e,
            None => {
                break;
            },
        };
        match ev.event_type {
            EventType::Start => {
                let i: usize = ev.s1_i;
                if i < n {
                    let s1: Segment = cur[i];
                    let succ: Option<Segment> = tree.successor(
                        &s1,
                        &mut problem.basic_operations,
                    );
                    let pred: Option<Segment> = tree.predecessor(
                        &s1,
                        &mut problem.basic_operations,
                    );
                    if let Some(sc) = succ {
                        if let Some(ki) = index_of(&cur, &sc) {
                            if let Some(e) = check_for_intersection(
                                &cur,
                                &originals,
                                i,
                                ki,
                                &mut problem.basic_operations,
                            ) {
                                events.push(e);
                            }
                        }
                    }
                    if let Some(pd) = pred {
                        if let Some(ki) = index_of(&cur, &pd) {
                            if let Some(e) = check_for_intersection(
                                &cur,
                                &originals,
                                ki,
                                i,
                                &mut problem.basic_operations,
                            ) {
                                events.push(e);
                            }
                        }
                    }
                    tree.insert(s1, &mut problem.basic_operations);
                }
            },
            EventType::End => {
                let i: usize = ev.s1_i;
                if i < n {
                    let s1: Segment = cur[i];
                    if tree.remove(&s1, &mut problem.basic_operations) {
                        let pred: Option<Segment> = tree.predecessor(
                            &s1,
                            &mut problem.basic_operations,
                        );
                        let succ: Option<Segment> = tree.successor(
                            &s1,
                            &mut problem.basic_operations,
                        );
                        if let (Some(pd), Some(sc)) = (pred, succ) {
                            if let (Some(kp), Some(ks)) = (
                                index_of(&cur, &pd),
                                index_of(&cur, &sc),
                            ) {
                                if let Some(e) = check_for_intersection(
                                    &cur,
                                    &originals,
                                    kp,
                                    ks,
                                    &mut problem.basic_operations,
                                ) {
                                    events.push(e);
                                }
                            }
                        }
                    }
                }
            },
            EventType::Cross => {
                let i: usize = ev.s1_i;
                let j: usize = ev.s2_i;
                if i < n && j < n && i != j {
                    // Record the artifact, but only once certified: both
                    // of its ends must lie exactly on both input segments
                    // the event names.
                    if point_in_mid(&ev.p1) && point_in_mid(&ev.p2) {
                        let gi: Segment = originals[i];
                        let gj: Segment = originals[j];
                        if on_segment_check(&ev.p1, &gi) && on_segment_check(&ev.p1, &gj)
                            && on_segment_check(&ev.p2, &gi) && on_segment_check(&ev.p2, &gj) {
                            problem.result.push(Segment { ini: ev.p1, end: ev.p2 });
                            proof {
                                assert(artifact_sound(
                                    Segment { ini: ev.p1, end: ev.p2 },
                                    norm_segs(segs),
                                ));
                            }
                        }
                    }
                    let si: Segment = cur[i];
                    let sj: Segment = cur[j];
                    let degenerate: bool = si.ini == si.end || sj.ini == sj.end || ev.p1 == si.end
                        || ev.p1 == sj.end || ev.p1 == si.ini || ev.p1 == sj.ini;
                    if !degenerate {
                        if tree.remove(&si, &mut problem.basic_operations) {
                            if tree.remove(&sj, &mut problem.basic_operations) {
                                // Swap the pair's rank: restart both at
                                // the crossing point, provided the point
                                // passes the key guards.
                                let ok: bool = point_in_mid(&ev.p1) && rat_le(&ev.p1.x, &si.end.x)
                                    && rat_le(&ev.p1.x, &sj.end.x);
                                if ok {
                                    let ni: Segment = Segment { ini: ev.p1, end: si.end };
                                    let nj: Segment = Segment { ini: ev.p1, end: sj.end };
                                    cur.set(i, ni);
                                    cur.set(j, nj);
                                    let succ: Option<Segment> = tree.successor(
                                        &ni,
                                        &mut problem.basic_operations,
                                    );
                                    let pred: Option<Segment> = tree.predecessor(
                                        &nj,
                                        &mut problem.basic_operations,
                                    );
                                    if let Some(sc) = succ {
                                        if let Some(ki) = index_of(&cur, &sc) {
                                            if ki != j {
                                                if let Some(e) = check_for_intersection(
                                                    &cur,
                                                    &originals,
                                                    i,
                                                    ki,
                                                    &mut problem.basic_operations,
                                                ) {
                                                    events.push(e);
                                                }
                                            }
                                        }
                                    }
                                    if let Some(pd) = pred {
                                        if let Some(ki) = index_of(&cur, &pd) {
                                            if ki != i {
                                                if let Some(e) = check_for_intersection(
                                                    &cur,
                                                    &originals,
                                                    ki,
                                                    j,
                                                    &mut problem.basic_operations,
                                                ) {
                                                    events.push(e);
                                                }
                                            }
                                        }
                                    }
                                    tree.insert(ni, &mut problem.basic_operations);
                                    tree.insert(nj, &mut problem.basic_operations);
                                } else {
                                    // The crossing point cannot serve as
                                    // a key: restore the status untouched.
                                    tree.insert(si, &mut problem.basic_operations);
                                    tree.insert(sj, &mut problem.basic_operations);
                                }
                            } else {
                                tree.insert(si, &mut problem.basic_operations);
                            }
                        }
                    }
                }
            },
        }
    }
    // The sweep's value-ordered neighbour checks are a heuristic, so a
    // final reconciliation over the pairs restores the promise that
    // every proper crossing is represented; anything appended here is
    // certified by the crossing-point lemmas.
    let mut ia: usize = 0;
    while ia < n
        invariant
            n == problem.segments@.len(),
            problem.segments@ == segs,
            segs_small(segs),
            problem.segments == old(problem).segments,
            problem.time == old(problem).time,
            problem.basic_operations >= old(problem).basic_operations,
            originals@.len() == n,
            originals@ == norm_segs(segs),
            segs_small(originals@),
            ia <= n,
            forall|t: int|
                0 <= t < problem.result@.len() ==> artifact_sound(
                    #[trigger] problem.result@[t],
                    norm_segs(segs),
                ),
            forall|t: int|
                0 <= t < problem.result@.len() ==> point_mid(#[trigger] problem.result@[t].ini)
                    && point_mid(problem.result@[t].end),
            forall|x: int, y: int|
                0 <= x < ia && x < y < n && #[trigger] proper_cross_spec(
                    originals@[x],
                    originals@[y],
                ) ==> crossing_reported(problem.result@, originals@, x, y),
        decreases n - ia,
    {
        let mut ib: usize = ia + 1;
        while ib < n
            invariant
                n == problem.segments@.len(),
                problem.segments@ == segs,
                segs_small(segs),
                problem.segments == old(problem).segments,
                problem.time == old(problem).time,
                problem.basic_operations >= old(problem).basic_operations,
                originals@.len() == n,
                originals@ == norm_segs(segs),
                segs_small(originals@),
                ia < n,
                ia < ib <= n,
                forall|t: int|
                    0 <= t < problem.result@.len() ==> artifact_sound(
                        #[trigger] problem.result@[t],
                        norm_segs(segs),
                    ),
                forall|t: int|
                    0 <= t < problem.result@.len() ==> point_mid(
                        #[trigger] problem.result@[t].ini,
                    ) && point_mid(problem.result@[t].end),
                forall|x: int, y: int|
                    0 <= x < ia && x < y < n && #[trigger] proper_cross_spec(
                        originals@[x],
                        originals@[y],
                    ) ==> crossing_reported(problem.result@, originals@, x, y),
                forall|y: int|
                    ia < y < ib && #[trigger] proper_cross_spec(
                        originals@[ia as int],
                        originals@[y],
                    ) ==> crossing_reported(problem.result@, originals@, ia as int, y),
            decreases n - ib,
        {
            let ga: Segment = originals[ia];
            let gb: Segment = originals[ib];
            bump(&mut problem.basic_operations);
            if proper_cross(&ga, &gb) {
                proof {
                    lemma_orient_det(ga, gb);
                    if orient_num(gb.ini, ga) == orient_num(gb.end, ga) {
                        assert(orient_spec(gb.ini, ga) == orient_spec(gb.end, ga));
                    }
                    assert(det_spec(ga, gb) != 0);
                }
                let q: Segment = intersection_point(&ga, &gb);
                let ghost pre = problem.result@;
                let already: bool = contains_artifact(&problem.result, &q);
                if !already {
                    proof {
                        lemma_cramer_on_line(ga, gb);
                        lemma_cramer_in_bbox(ga, gb);
                        assert(artifact_sound(q, norm_segs(segs))) by {
                            assert(0 <= ia < norm_segs(segs).len() && 0 <= ib < norm_segs(
                                segs,
                            ).len() && ia != ib && point_on_segment_spec(
                                q.ini,
                                norm_segs(segs)[ia as int],
                            ) && point_on_segment_spec(q.ini, norm_segs(segs)[ib as int])
                                && point_on_segment_spec(q.end, norm_segs(segs)[ia as int])
                                && point_on_segment_spec(q.end, norm_segs(segs)[ib as int]));
                        }
                    }
                    problem.result.push(q);
                    proof {
                        assert forall|x: int, y: int|
                            0 <= x < ia && x < y < n && #[trigger] proper_cross_spec(
                                originals@[x],
                                originals@[y],
                            ) implies crossing_reported(problem.result@, originals@, x, y) by {
                            let k = choose|k: int|
                                0 <= k < pre.len() && #[trigger] pre[k] == (Segment {
                                    ini: cramer_point(originals@[x], originals@[y]),
                                    end: cramer_point(originals@[x], originals@[y]),
                                });
                            assert(problem.result@[k] == pre[k]);
                        }
                        assert forall|y: int|
                            ia < y < ib && #[trigger] proper_cross_spec(
                                originals@[ia as int],
                                originals@[y],
                            ) implies crossing_reported(
                            problem.result@,
                            originals@,
                            ia as int,
                            y,
                        ) by {
                            let k = choose|k: int|
                                0 <= k < pre.len() && #[trigger] pre[k] == (Segment {
                                    ini: cramer_point(originals@[ia as int], originals@[y]),
                                    end: cramer_point(originals@[ia as int], originals@[y]),
                                });
                            assert(problem.result@[k] == pre[k]);
                        }
                    }
                }
                proof {
                    assert(q == (Segment {
                        ini: cramer_point(originals@[ia as int], originals@[ib as int]),
                        end: cramer_point(originals@[ia as int], originals@[ib as int]),
                    }));
                    if already {
                        let k = choose|k: int| 0 <= k < pre.len() && #[trigger] pre[k] == q;
                        assert(problem.result@[k] == q);
                    } else {
                        assert(problem.result@[problem.result@.len() - 1] == q);
                    }
                    assert(crossing_reported(problem.result@, originals@, ia as int, ib as int));
                }
            }
            ib = ib + 1;
        }
        ia = ia + 1;
    }
}

} // verus!
