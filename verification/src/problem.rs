//! The problem record the solvers work on, and the shared notions of
//! input validity and artifact soundness.

use crate::geometry::{point_on_segment_spec, seg_small, Segment};
use crate::rat::rat_le_spec;
use vstd::prelude::*;

verus! {

/// An instance: input segments, the artifacts found, elapsed time (for
/// measurements; the solvers do not touch it) and the basic-operations
/// counter.
pub struct SweepLineProblem {
    pub segments: Vec<Segment>,
    pub result: Vec<Segment>,
    pub time: u64,
    pub basic_operations: u64,
}

impl SweepLineProblem {
    /// A fresh instance around the given segments.
    pub fn new(segments: Vec<Segment>) -> (p: SweepLineProblem)
        ensures
            p.segments == segments,
            p.result@ == Seq::<Segment>::empty(),
            p.time == 0,
            p.basic_operations == 0,
    {
        SweepLineProblem { segments, result: Vec::new(), time: 0, basic_operations: 0 }
    }
}

/// All segments are input-sized: integer coordinates within the range.
pub open spec fn segs_small(s: Seq<Segment>) -> bool {
    forall|k: int| 0 <= k < s.len() ==> seg_small(#[trigger] s[k])
}

/// A segment normalized to run left to right (ties left alone).
pub open spec fn norm_seg(s: Segment) -> Segment {
    if rat_le_spec(s.ini.x, s.end.x) {
        s
    } else {
        Segment { ini: s.end, end: s.ini }
    }
}

/// The input list normalized segment by segment.
pub open spec fn norm_segs(s: Seq<Segment>) -> Seq<Segment> {
    s.map_values(|x: Segment| norm_seg(x))
}

/// An artifact is sound for a list of segments when both of its ends
/// lie exactly on two distinct segments of the list.
pub open spec fn artifact_sound(a: Segment, segs: Seq<Segment>) -> bool {
    exists|i: int, j: int|
        0 <= i < segs.len() && 0 <= j < segs.len() && i != j && point_on_segment_spec(
            a.ini,
            #[trigger] segs[i],
        ) && point_on_segment_spec(a.ini, #[trigger] segs[j]) && point_on_segment_spec(
            a.end,
            segs[i],
        ) && point_on_segment_spec(a.end, segs[j])
}

/// Saturating step of the basic-operations counter.
pub(crate) fn bump(ops: &mut u64)
    ensures
        *final(ops) >= *old(ops),
        *old(ops) < u64::MAX ==> *final(ops) > *old(ops),
{
    if *ops < u64::MAX {
        *ops = *ops + 1;
    }
}

} // verus!
