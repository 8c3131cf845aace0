//! Random problem instances: bounded integer segments that are neither
//! vertical nor horizontal.

use crate::geometry::{Point, Segment};
use crate::rat::Rat;
use crate::problem::{segs_small, SweepLineProblem};
use vstd::prelude::*;

verus! {

/// A coordinate drawn uniformly-ish from 0..=999, reduced from a raw
/// random draw exactly as the engine's instances are built.
fn random_coordinate() -> (r: i128)
    ensures
        0 <= r <= 999,
{
    let raw: i32 = rand::random::<i32>();
    let m: i32 = raw % 1000;
    let m: i32 = if m < 0 {
        -m
    } else {
        m
    };
    m as i128
}

/// Build a random instance of `n_segments` segments with integer
/// coordinates in `0..=999`, none of them vertical or horizontal.
/// Draws that would be vertical or horizontal are redrawn; after a
/// bounded number of redraws a fixed diagonal is used, so the size of
/// the instance is always as requested.
pub fn create_random_example(n_segments: i32) -> (p: SweepLineProblem)
    ensures
        p.result@.len() == 0,
        p.basic_operations == 0,
        p.time == 0,
        segs_small(p.segments@),
        n_segments >= 0 ==> p.segments@.len() == n_segments,
        n_segments < 0 ==> p.segments@.len() == 0,
        forall|k: int|
            0 <= k < p.segments@.len() ==> {
                let s = #[trigger] p.segments@[k];
                0 <= s.ini.x.num <= 999 && 0 <= s.ini.y.num <= 999 && 0 <= s.end.x.num <= 999 && 0
                    <= s.end.y.num <= 999 && s.ini.x.num != s.end.x.num && s.ini.y.num
                    != s.end.y.num
            },
{
    let count: usize = if n_segments <= 0 {
        0
    } else {
        n_segments as usize
    };
    let mut segments: Vec<Segment> = Vec::new();
    while segments.len() < count
        invariant
            segments@.len() <= count,
            segs_small(segments@),
            forall|k: int|
                0 <= k < segments@.len() ==> {
                    let s = #[trigger] segments@[k];
                    0 <= s.ini.x.num <= 999 && 0 <= s.ini.y.num <= 999 && 0 <= s.end.x.num <= 999
                        && 0 <= s.end.y.num <= 999 && s.ini.x.num != s.end.x.num && s.ini.y.num
                        != s.end.y.num
                },
        decreases count - segments@.len(),
    {
        let mut chosen: Segment = Segment {
            ini: Point { x: Rat { num: 0, den: 1 }, y: Rat { num: 0, den: 1 } },
            end: Point { x: Rat { num: 1, den: 1 }, y: Rat { num: 1, den: 1 } },
        };
        let mut tries: usize = 0;
        while tries < 64
            invariant
                0 <= chosen.ini.x.num <= 999,
                0 <= chosen.ini.y.num <= 999,
                0 <= chosen.end.x.num <= 999,
                0 <= chosen.end.y.num <= 999,
                chosen.ini.x.num != chosen.end.x.num,
                chosen.ini.y.num != chosen.end.y.num,
                chosen.ini.x.den == 1,
                chosen.ini.y.den == 1,
                chosen.end.x.den == 1,
                chosen.end.y.den == 1,
            decreases 64 - tries,
        {
            let x1: i128 = random_coordinate();
            let y1: i128 = random_coordinate();
            let x2: i128 = random_coordinate();
            let y2: i128 = random_coordinate();
            if x1 != x2 && y1 != y2 {
                chosen = Segment {
                    ini: Point { x: Rat { num: x1, den: 1 }, y: Rat { num: y1, den: 1 } },
                    end: Point { x: Rat { num: x2, den: 1 }, y: Rat { num: y2, den: 1 } },
                };
                tries = 64;
            } else {
                tries = tries + 1;
            }
        }
        segments.push(chosen);
    }
    SweepLineProblem { segments, result: Vec::new(), time: 0, basic_operations: 0 }
}

} // verus!
