use sweepline::events::{event_le_exec, Event, EventQueue, EventType};
use sweepline::geometry::{Point, Segment};
use sweepline::rat::{rat_eq, Rat};
use sweepline::treap::{Node, Treap};

fn ri(n: i128) -> Rat {
    Rat { num: n, den: 1 }
}

fn pt(x: i128, y: i128) -> Point {
    Point { x: ri(x), y: ri(y) }
}

fn seg(x1: i128, y1: i128, x2: i128, y2: i128) -> Segment {
    Segment { ini: pt(x1, y1), end: pt(x2, y2) }
}

fn seg_value_eq(a: &Segment, b: &Segment) -> bool {
    rat_eq(&a.ini.x, &b.ini.x) && rat_eq(&a.ini.y, &b.ini.y) && rat_eq(&a.end.x, &b.end.x)
        && rat_eq(&a.end.y, &b.end.y)
}

#[test]
fn treap_insert_find_remove() {
    let mut ops: u64 = 0;
    let mut tree = Treap::new();
    let segs = [
        seg(0, 0, 10, 1),
        seg(0, 2, 10, 3),
        seg(0, 1, 10, 2),
        seg(0, 5, 10, 4),
        seg(0, 3, 10, 9),
    ];
    for s in segs.iter() {
        tree.insert(*s, &mut ops);
    }
    for s in segs.iter() {
        assert!(tree.find(s, &mut ops));
    }
    assert!(!tree.find(&seg(0, 7, 10, 7), &mut ops));
    assert!(tree.remove(&segs[2], &mut ops));
    assert!(!tree.find(&segs[2], &mut ops));
    assert!(!tree.remove(&segs[2], &mut ops));
    for (k, s) in segs.iter().enumerate() {
        if k != 2 {
            assert!(tree.find(s, &mut ops));
        }
    }
    assert!(ops > 0);
}

#[test]
fn treap_inorder_is_sorted_by_start_height() {
    let mut ops: u64 = 0;
    let mut tree = Treap::new();
    let heights = [5i128, 1, 9, 3, 7, 2, 8, 4, 6, 0];
    for h in heights.iter() {
        tree.insert(seg(0, *h, 10, *h + 1), &mut ops);
    }
    let keys = tree.inorder_keys();
    assert_eq!(keys.len(), 10);
    for w in keys.windows(2) {
        assert!(w[0].ini.y.num < w[1].ini.y.num);
    }
}

#[test]
fn treap_duplicate_key_is_replaced() {
    let mut ops: u64 = 0;
    let mut tree = Treap::new();
    tree.insert(seg(0, 4, 8, 6), &mut ops);
    tree.insert(seg(0, 4, 8, 6), &mut ops);
    let keys = tree.inorder_keys();
    assert_eq!(keys.len(), 1);
    assert!(tree.remove(&seg(0, 4, 8, 6), &mut ops));
    assert_eq!(tree.inorder_keys().len(), 0);
}

#[test]
fn treap_successor_predecessor() {
    let mut ops: u64 = 0;
    let mut tree = Treap::new();
    let mut segs: Vec<Segment> = Vec::new();
    for h in 0..20i128 {
        let s = seg(0, 3 * h, 10, 3 * h + 1);
        segs.push(s);
        tree.insert(s, &mut ops);
    }
    for (k, s) in segs.iter().enumerate() {
        let suc = tree.successor(s, &mut ops);
        let pre = tree.predecessor(s, &mut ops);
        if k + 1 < segs.len() {
            assert!(seg_value_eq(&suc.unwrap(), &segs[k + 1]));
        } else {
            assert!(suc.is_none());
        }
        if k > 0 {
            assert!(seg_value_eq(&pre.unwrap(), &segs[k - 1]));
        } else {
            assert!(pre.is_none());
        }
    }
}

#[test]
fn treap_merge_joins_separated_subtrees() {
    let mut ops: u64 = 0;
    let low = Node { key: seg(0, 1, 10, 2), priority: 7, left: None, right: None };
    let high = Node { key: seg(0, 8, 10, 9), priority: 3, left: None, right: None };
    let joined = Treap::new().merge(
        Some(Box::new(low)),
        Some(Box::new(high)),
        &mut ops,
    );
    let root = joined.expect("merge of two nodes is a node");
    assert_eq!(root.key.ini.y.num, 1);
    assert_eq!(root.priority, 7);
    let right = root.right.expect("lower priority node hangs right");
    assert_eq!(right.key.ini.y.num, 8);
}

fn ev(x: i128, y: i128, kind: EventType, i: usize) -> Event {
    Event { p1: pt(x, y), p2: pt(x, y), event_type: kind, s1_i: i, s2_i: i }
}

#[test]
fn queue_orders_by_x_then_kind_then_y() {
    let mut q = EventQueue::new();
    q.push(ev(5, 0, EventType::End, 0));
    q.push(ev(3, 9, EventType::Start, 1));
    q.push(ev(3, 9, EventType::End, 2));
    q.push(ev(3, 1, EventType::Cross, 3));
    q.push(ev(1, 7, EventType::Start, 4));
    assert_eq!(q.len(), 5);
    let a = q.pop().unwrap();
    assert_eq!(a.s1_i, 4);
    let b = q.pop().unwrap();
    assert_eq!(b.s1_i, 3);
    let c = q.pop().unwrap();
    assert_eq!(c.s1_i, 1);
    let d = q.pop().unwrap();
    assert_eq!(d.s1_i, 2);
    let e = q.pop().unwrap();
    assert_eq!(e.s1_i, 0);
    assert!(q.pop().is_none());
}

#[test]
fn queue_consecutive_pops_are_ordered() {
    let mut q = EventQueue::new();
    let xs = [9i128, 2, 7, 2, 5, 0, 3, 3, 8, 1];
    for (k, x) in xs.iter().enumerate() {
        let kind = if k % 3 == 0 {
            EventType::End
        } else if k % 3 == 1 {
            EventType::Start
        } else {
            EventType::Cross
        };
        q.push(ev(*x, (k as i128) % 4, kind, k));
    }
    let mut prev: Option<Event> = None;
    while let Some(e) = q.pop() {
        if let Some(p) = prev {
            assert!(event_le_exec(&p, &e));
        }
        prev = Some(e);
    }
}
