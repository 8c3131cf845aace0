//! The event queue: a min-priority queue of sweep events.
//!
//! Events are ordered by ascending x, then by kind with starts and
//! crossings before ends at the same x, then by ascending y.  The queue
//! keeps its events sorted in descending order, so the minimum is popped
//! from the back; `pop` is proved to return an event no later than
//! everything still queued, which is the queue-ordering property.

use crate::geometry::{point_wf, Point};
use crate::rat::{lemma_rat_order_trans, rat_cmp, rat_le, rat_eq_spec, rat_le_spec, rat_lt_spec,
    rat_wf, Cmp};
use vstd::prelude::*;
use vstd::seq_lib::group_to_multiset_ensures;

verus! {

/// What happens at a sweep event.
#[derive(Clone, Copy, PartialEq, Eq, Structural, Debug)]
pub enum EventType {
    Start,
    Cross,
    End,
}

/// A sweep event: its point(s) and the segment indices it concerns.
/// For `Start` and `End` the two points and indices coincide; for
/// `Cross`, `p1` and `p2` are the ends of the reported intersection and
/// the indices name the two segments involved.
#[derive(Clone, Copy, PartialEq, Eq, Structural, Debug)]
pub struct Event {
    pub p1: Point,
    pub p2: Point,
    pub event_type: EventType,
    pub s1_i: usize,
    pub s2_i: usize,
}

/// Kind rank at equal x: starts and crossings come before ends.
pub open spec fn kind_rank(k: EventType) -> int {
    match k {
        EventType::Start => 0,
        EventType::Cross => 0,
        EventType::End => 1,
    }
}

/// Events with comparable (well-formed) points.
pub open spec fn event_wf(e: Event) -> bool {
    point_wf(e.p1) && point_wf(e.p2)
}

/// The queue order: ascending x, then kind rank, then ascending y.
pub open spec fn event_le(a: Event, b: Event) -> bool {
    if !rat_eq_spec(a.p1.x, b.p1.x) {
        rat_lt_spec(a.p1.x, b.p1.x)
    } else if kind_rank(a.event_type) != kind_rank(b.event_type) {
        kind_rank(a.event_type) < kind_rank(b.event_type)
    } else {
        rat_le_spec(a.p1.y, b.p1.y)
    }
}

/// The queue order is total on well-formed events.
pub proof fn lemma_event_le_total(a: Event, b: Event)
    requires
        event_wf(a),
        event_wf(b),
    ensures
        event_le(a, b) || event_le(b, a),
{
}

/// The queue order is transitive on well-formed events.
pub proof fn lemma_event_le_trans(a: Event, b: Event, c: Event)
    requires
        event_wf(a),
        event_wf(b),
        event_wf(c),
        event_le(a, b),
        event_le(b, c),
    ensures
        event_le(a, c),
{
    lemma_rat_order_trans(a.p1.x, b.p1.x, c.p1.x);
    lemma_rat_order_trans(a.p1.y, b.p1.y, c.p1.y);
    lemma_rat_order_trans(b.p1.x, a.p1.x, c.p1.x);
    lemma_rat_order_trans(a.p1.x, c.p1.x, b.p1.x);
}

/// Decide the queue order between two events.
pub fn event_le_exec(a: &Event, b: &Event) -> (r: bool)
    requires
        event_wf(*a),
        event_wf(*b),
    ensures
        r == event_le(*a, *b),
{
    let cx: Cmp = rat_cmp(&a.p1.x, &b.p1.x);
    match cx {
        Cmp::Lt => true,
        Cmp::Gt => false,
        Cmp::Eq => {
            let ra: u8 = match a.event_type {
                EventType::Start => 0,
                EventType::Cross => 0,
                EventType::End => 1,
            };
            let rb: u8 = match b.event_type {
                EventType::Start => 0,
                EventType::Cross => 0,
                EventType::End => 1,
            };
            if ra != rb {
                ra < rb
            } else {
                rat_le(&a.p1.y, &b.p1.y)
            }
        },
    }
}

/// A min-priority queue of events, kept sorted with the earliest event
/// last so that popping is constant-time.
pub struct EventQueue {
    items: Vec<Event>,
}

impl EventQueue {
    /// The queued events, latest first.
    pub closed spec fn as_seq(self) -> Seq<Event> {
        self.items@
    }

    /// Sorted descending, all events well-formed.
    pub closed spec fn wf(self) -> bool {
        &&& forall|i: int, j: int|
            0 <= i <= j < self.items@.len() ==> event_le(
                #[trigger] self.items@[j],
                #[trigger] self.items@[i],
            )
        &&& forall|i: int| 0 <= i < self.items@.len() ==> event_wf(#[trigger] self.items@[i])
    }

    /// The empty queue.
    pub fn new() -> (q: EventQueue)
        ensures
            q.wf(),
            q@ == Seq::<Event>::empty(),
    {
        EventQueue { items: Vec::new() }
    }

    /// How many events are queued.
    pub fn len(&self) -> (n: usize)
        ensures
            n == self@.len(),
    {
        self.items.len()
    }

    /// Whether the queue is empty.
    pub fn is_empty(&self) -> (r: bool)
        ensures
            r == (self@.len() == 0),
    {
        self.items.len() == 0
    }

    /// Queue an event.  The stored multiset grows by exactly that event.
    pub fn push(&mut self, e: Event)
        requires
            old(self).wf(),
            event_wf(e),
        ensures
            final(self).wf(),
            final(self)@.to_multiset() == old(self)@.to_multiset().insert(e),
            final(self)@.len() == old(self)@.len() + 1,
    {
        proof {
            broadcast use group_to_multiset_ensures;
        }
        let ghost orig = self.items@;
        let mut pos: usize = self.items.len();
        while pos > 0 && !event_le_exec(&e, &self.items[pos - 1])
            invariant
                pos <= self.items@.len(),
                self.items@ == orig,
                old(self).wf(),
                event_wf(e),
                forall|k: int|
                    pos <= k < self.items@.len() ==> event_le(#[trigger] self.items@[k], e),
            decreases pos,
        {
            proof {
                lemma_event_le_total(e, self.items@[pos - 1]);
            }
            pos = pos - 1;
        }
        self.items.insert(pos, e);
        proof {
            let t = self.items@;
            assert forall|i: int, j: int| 0 <= i <= j < t.len() implies event_le(
                #[trigger] t[j],
                #[trigger] t[i],
            ) by {
                if i == j {
                    lemma_event_le_total(t[i], t[i]);
                } else if j < pos {
                } else if i > pos {
                } else if i == pos && j == pos {
                } else if i == pos {
                    assert(t[j] == orig[j - 1] && t[i] == e);
                } else if j == pos {
                    assert(t[i] == orig[i]);
                    if pos < orig.len() {
                    }
                    assert(pos > 0);
                    assert(event_le(e, orig[pos - 1]));
                    if i < pos - 1 {
                        lemma_event_le_trans(e, orig[pos - 1], orig[i]);
                    }
                } else {
                    assert(t[i] == orig[i] && t[j] == orig[j - 1]);
                }
            }
            assert(t.remove(pos as int) =~= orig);
            assert(t.to_multiset().remove(e) =~= orig.to_multiset());
            assert(t.to_multiset() =~= orig.to_multiset().insert(e));
        }
    }

    /// Remove and return the earliest event: it is no later, in the
    /// queue order, than every event still queued.
    pub fn pop(&mut self) -> (r: Option<Event>)
        requires
            old(self).wf(),
        ensures
            final(self).wf(),
            old(self)@.len() == 0 ==> r is None && final(self)@ == old(self)@,
            old(self)@.len() > 0 ==> r == Some(old(self)@.last()) && final(self)@ == old(
                self,
            )@.drop_last() && event_wf(old(self)@.last()) && forall|k: int|
                0 <= k < final(self)@.len() ==> event_le(
                    old(self)@.last(),
                    #[trigger] final(self)@[k],
                ),
    {
        self.items.pop()
    }
}

impl View for EventQueue {
    type V = Seq<Event>;

    open spec fn view(&self) -> Seq<Event> {
        self.as_seq()
    }
}

/// Queue-ordering law: of any two events popped one after the other,
/// the first is no later than the second.
pub proof fn lemma_consecutive_pops_ordered(q: EventQueue)
    requires
        q.wf(),
        q@.len() >= 2,
    ensures
        event_le(q@[q@.len() - 1], q@[q@.len() - 2]),
{
}

} // verus!
