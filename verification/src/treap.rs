//! The sweep-status tree: a treap over segments in the value order.
//!
//! Keys are `Segment`s compared by `seg_cmp_spec`; each node carries a
//! random priority, kept in max-heap order, which gives the expected
//! logarithmic depth.  The tree is a set: inserting a key that compares
//! equal to a stored one replaces it.  The abstract view is the set of
//! stored keys; in-order traversal is proved sorted, and successor and
//! predecessor are proved to return the exact neighbours in the order.

use crate::geometry::Segment;
use crate::order::{
    lemma_seg_cmp_flip, lemma_seg_cmp_refl, lemma_seg_eqv_trans, lemma_seg_lt_eqv,
    lemma_seg_lt_trans, seg_cmp_spec, seg_compare, seg_eqv, seg_key_wf, seg_lt,
};
use crate::rat::Cmp;
use vstd::prelude::*;

verus! {

/// One node of the treap.
pub struct Node {
    pub key: Segment,
    pub priority: u64,
    pub left: Option<Box<Node>>,
    pub right: Option<Box<Node>>,
}

/// The randomized sweep-status tree.
pub struct Treap {
    root: Option<Box<Node>>,
}

impl Node {
    /// The set of keys stored in an optional subtree.
    pub open spec fn opt_set(n: Option<Box<Node>>) -> Set<Segment>
        decreases n,
    {
        match n {
            None => Set::empty(),
            Some(node) => node.key_set(),
        }
    }

    /// The set of keys stored under this node, itself included.
    pub open spec fn key_set(self) -> Set<Segment>
        decreases self,
    {
        Node::opt_set(self.left).union(Node::opt_set(self.right)).insert(self.key)
    }

    /// The keys of an optional subtree in tree order, left to right.
    pub open spec fn opt_seq(n: Option<Box<Node>>) -> Seq<Segment>
        decreases n,
    {
        match n {
            None => Seq::empty(),
            Some(node) => Node::opt_seq(node.left) + seq![node.key] + Node::opt_seq(node.right),
        }
    }

    /// The root priority of an optional subtree is at most `p`.
    pub open spec fn opt_pri_below(n: Option<Box<Node>>, p: u64) -> bool {
        match n {
            None => true,
            Some(node) => node.priority <= p,
        }
    }

    /// Well-formedness of an optional subtree.
    pub open spec fn opt_wf(n: Option<Box<Node>>) -> bool
        decreases n,
    {
        match n {
            None => true,
            Some(node) => node.wf(),
        }
    }

    /// Well-formedness: keys are valid and strictly ordered around every
    /// node, and priorities never grow along a path downwards.
    pub open spec fn wf(self) -> bool
        decreases self,
    {
        &&& seg_key_wf(self.key)
        &&& forall|e: Segment| #[trigger]
            Node::opt_set(self.left).contains(e) ==> seg_lt(e, self.key)
        &&& forall|e: Segment| #[trigger]
            Node::opt_set(self.right).contains(e) ==> seg_lt(self.key, e)
        &&& Node::opt_pri_below(self.left, self.priority)
        &&& Node::opt_pri_below(self.right, self.priority)
        &&& Node::opt_wf(self.left)
        &&& Node::opt_wf(self.right)
    }
}

/// Every key stored in a well-formed subtree is a valid tree key.
proof fn lemma_wf_keys(n: Option<Box<Node>>)
    requires
        Node::opt_wf(n),
    ensures
        forall|e: Segment| #[trigger] Node::opt_set(n).contains(e) ==> seg_key_wf(e),
    decreases n,
{
    match n {
        None => {},
        Some(node) => {
            lemma_wf_keys(node.left);
            lemma_wf_keys(node.right);
            assert forall|e: Segment| #[trigger] Node::opt_set(n).contains(e) implies seg_key_wf(
                e,
            ) by {
                if Node::opt_set(node.left).contains(e) {
                } else if Node::opt_set(node.right).contains(e) {
                } else {
                    assert(e == node.key);
                }
            }
        },
    }
}

/// Saturating step of the basic-operations counter.
fn count_op(ops: &mut u64)
    ensures
        *final(ops) >= *old(ops),
        *old(ops) < u64::MAX ==> *final(ops) > *old(ops),
{
    if *ops < u64::MAX {
        *ops = *ops + 1;
    }
}

/// Split a subtree around `key`: keys below it to the left, keys above
/// it to the right.  A key comparing equal to `key` is dropped, which is
/// what insertion and removal both rely on.
fn split(n: Option<Box<Node>>, key: &Segment, ops: &mut u64) -> (r: (
    Option<Box<Node>>,
    Option<Box<Node>>,
))
    requires
        seg_key_wf(*key),
        Node::opt_wf(n),
    ensures
        Node::opt_wf(r.0),
        Node::opt_wf(r.1),
        Node::opt_set(r.0) == Node::opt_set(n).filter(|e: Segment| seg_lt(e, *key)),
        Node::opt_set(r.1) == Node::opt_set(n).filter(|e: Segment| seg_lt(*key, e)),
        r.0 matches Some(x) ==> n matches Some(m) && x.priority <= m.priority,
        r.1 matches Some(x) ==> n matches Some(m) && x.priority <= m.priority,
        *final(ops) >= *old(ops),
        *old(ops) < u64::MAX ==> *final(ops) > *old(ops),
    decreases n,
{
    count_op(ops);
    match n {
        None => {
            proof {
                assert(Node::opt_set(n).filter(|e: Segment| seg_lt(e, *key)) =~= Set::empty());
                assert(Node::opt_set(n).filter(|e: Segment| seg_lt(*key, e)) =~= Set::empty());
            }
            (None, None)
        },
        Some(boxed) => {
            let ghost full = Node::opt_set(n);
            let node = *boxed;
            let Node { key: nk, priority, left, right } = node;
            proof {
                lemma_wf_keys(left);
                lemma_wf_keys(right);
            }
            let c: Cmp = seg_compare(key, &nk);
            proof {
                lemma_seg_cmp_flip(*key, nk);
            }
            match c {
                Cmp::Gt => {
                    // node.key < key: node and its left side stay left.
                    let (sl, sr) = split(right, key, ops);
                    let out = Node { key: nk, priority, left, right: sl };
                    proof {
                        assert forall|e: Segment| #[trigger] out.key_set().contains(e) implies
                            seg_lt(e, *key) by {
                            if e == nk {
                            } else if Node::opt_set(left).contains(e) {
                                lemma_seg_lt_trans(e, nk, *key);
                            }
                        }
                        assert(out.key_set() =~= full.filter(|e: Segment| seg_lt(e, *key)));
                        assert forall|e: Segment| #[trigger] full.contains(e) && seg_lt(
                            *key,
                            e,
                        ) implies Node::opt_set(right).contains(e) by {
                            if Node::opt_set(left).contains(e) {
                                lemma_seg_lt_trans(e, nk, *key);
                                lemma_seg_cmp_flip(e, *key);
                            } else if e == nk {
                            }
                        }
                        assert(Node::opt_set(sr) =~= full.filter(|e: Segment| seg_lt(*key, e)));
                    }
                    (Some(Box::new(out)), sr)
                },
                Cmp::Lt => {
                    // key < node.key: node and its right side stay right.
                    let (sl, sr) = split(left, key, ops);
                    let out = Node { key: nk, priority, left: sr, right };
                    proof {
                        assert forall|e: Segment| #[trigger] out.key_set().contains(e) implies
                            seg_lt(*key, e) by {
                            if e == nk {
                            } else if Node::opt_set(right).contains(e) {
                                lemma_seg_lt_trans(*key, nk, e);
                            }
                        }
                        assert forall|e: Segment| #[trigger] full.contains(e) && seg_lt(
                            e,
                            *key,
                        ) implies Node::opt_set(left).contains(e) by {
                            if Node::opt_set(right).contains(e) {
                                lemma_seg_lt_trans(*key, nk, e);
                                lemma_seg_cmp_flip(e, *key);
                            } else if e == nk {
                            }
                        }
                        assert(Node::opt_set(sl) =~= full.filter(|e: Segment| seg_lt(e, *key)));
                        assert(out.key_set() =~= full.filter(|e: Segment| seg_lt(*key, e)));
                    }
                    (sl, Some(Box::new(out)))
                },
                Cmp::Eq => {
                    // The stored key compares equal: drop it.
                    proof {
                        assert forall|e: Segment| #[trigger]
                            Node::opt_set(left).contains(e) implies seg_lt(e, *key) by {
                            lemma_seg_lt_eqv(e, nk, *key);
                        }
                        assert forall|e: Segment| #[trigger]
                            Node::opt_set(right).contains(e) implies seg_lt(*key, e) by {
                            lemma_seg_lt_eqv(*key, nk, e);
                        }
                        assert(Node::opt_set(left) =~= full.filter(|e: Segment| seg_lt(e, *key)));
                        assert(Node::opt_set(right) =~= full.filter(
                            |e: Segment| seg_lt(*key, e),
                        ));
                    }
                    (left, right)
                },
            }
        },
    }
}

/// Merge two subtrees, every key of the left one below every key of the
/// right one, choosing roots by priority.
fn merge(l: Option<Box<Node>>, r: Option<Box<Node>>, ops: &mut u64) -> (res: Option<Box<Node>>)
    requires
        Node::opt_wf(l),
        Node::opt_wf(r),
        forall|a: Segment, b: Segment|
            Node::opt_set(l).contains(a) && Node::opt_set(r).contains(b) ==> seg_lt(a, b),
    ensures
        Node::opt_wf(res),
        Node::opt_set(res) == Node::opt_set(l).union(Node::opt_set(r)),
        Node::opt_seq(res) == Node::opt_seq(l) + Node::opt_seq(r),
        res matches Some(x) ==> (l matches Some(a) && x.priority <= a.priority) || (
        r matches Some(b) && x.priority <= b.priority),
        l is None ==> res == r,
        r is None ==> res == l,
        l is Some && r is Some ==> res is Some && (if l.unwrap().priority
            > r.unwrap().priority {
            res.unwrap().key == l.unwrap().key && res.unwrap().priority == l.unwrap().priority
        } else {
            res.unwrap().key == r.unwrap().key && res.unwrap().priority == r.unwrap().priority
        }),
        *final(ops) >= *old(ops),
        *old(ops) < u64::MAX ==> *final(ops) > *old(ops),
    decreases l, r,
{
    count_op(ops);
    match (l, r) {
        (None, None) => {
            proof {
                assert(Node::opt_set(None::<Box<Node>>).union(Node::opt_set(None::<Box<Node>>))
                    =~= Set::<Segment>::empty());
                assert(Node::opt_seq(None::<Box<Node>>) + Node::opt_seq(None::<Box<Node>>)
                    =~= Seq::<Segment>::empty());
            }
            None
        },
        (Some(left), None) => {
            proof {
                assert(left.key_set().union(Set::empty()) =~= left.key_set());
                assert(Node::opt_seq(Some(left)) + Seq::<Segment>::empty() =~= Node::opt_seq(
                    Some(left),
                ));
            }
            Some(left)
        },
        (None, Some(right)) => {
            proof {
                assert(Set::empty().union(right.key_set()) =~= right.key_set());
                assert(Seq::<Segment>::empty() + Node::opt_seq(Some(right)) =~= Node::opt_seq(
                    Some(right),
                ));
            }
            Some(right)
        },
        (Some(left), Some(right)) => {
            if left.priority > right.priority {
                let ghost lset = left.key_set();
                let ghost rset = right.key_set();
                let node = *left;
                let Node { key: nk, priority, left: ll, right: lr } = node;
                let merged = merge(lr, Some(right), ops);
                let out = Node { key: nk, priority, left: ll, right: merged };
                proof {
                    assert(lset.contains(nk));
                    assert forall|e: Segment| #[trigger]
                        Node::opt_set(merged).contains(e) implies seg_lt(nk, e) by {}
                    assert(out.key_set() =~= lset.union(rset));
                    assert(Node::opt_seq(Some(Box::new(out))) =~= Node::opt_seq(l) + Node::opt_seq(
                        r,
                    ));
                }
                Some(Box::new(out))
            } else {
                let ghost lset = left.key_set();
                let ghost rset = right.key_set();
                let node = *right;
                let Node { key: nk, priority, left: rl, right: rr } = node;
                let merged = merge(Some(left), rl, ops);
                let out = Node { key: nk, priority, left: merged, right: rr };
                proof {
                    assert(rset.contains(nk));
                    assert forall|e: Segment| #[trigger]
                        Node::opt_set(merged).contains(e) implies seg_lt(e, nk) by {}
                    assert(out.key_set() =~= lset.union(rset));
                    assert(Node::opt_seq(Some(Box::new(out))) =~= Node::opt_seq(l) + Node::opt_seq(
                        r,
                    ));
                }
                Some(Box::new(out))
            }
        },
    }
}

/// Membership search below an optional subtree.
fn find_in(n: &Option<Box<Node>>, key: &Segment, ops: &mut u64) -> (r: bool)
    requires
        seg_key_wf(*key),
        Node::opt_wf(*n),
    ensures
        r == exists|e: Segment| #[trigger]
            Node::opt_set(*n).contains(e) && seg_eqv(e, *key),
        *final(ops) >= *old(ops),
        *old(ops) < u64::MAX ==> *final(ops) > *old(ops),
    decreases n,
{
    count_op(ops);
    match n {
        None => {
            proof {
                assert(forall|e: Segment| !Node::opt_set(*n).contains(e));
            }
            false
        },
        Some(node) => {
            proof {
                lemma_wf_keys(node.left);
                lemma_wf_keys(node.right);
                lemma_seg_cmp_flip(*key, node.key);
            }
            let c: Cmp = seg_compare(key, &node.key);
            match c {
                Cmp::Eq => {
                    proof {
                        assert(Node::opt_set(*n).contains(node.key) && seg_eqv(node.key, *key));
                    }
                    true
                },
                Cmp::Lt => {
                    let r = find_in(&node.left, key, ops);
                    proof {
                        assert forall|e: Segment| #[trigger] Node::opt_set(*n).contains(e)
                            && seg_eqv(e, *key) implies Node::opt_set(node.left).contains(e) by {
                            if Node::opt_set(node.right).contains(e) {
                                lemma_seg_lt_trans(*key, node.key, e);
                                lemma_seg_cmp_flip(e, *key);
                            } else if e == node.key {
                                lemma_seg_cmp_flip(node.key, *key);
                            }
                        }
                        if r {
                            let w = choose|e: Segment|
                                Node::opt_set(node.left).contains(e) && seg_eqv(e, *key);
                            assert(Node::opt_set(*n).contains(w) && seg_eqv(w, *key));
                        }
                    }
                    r
                },
                Cmp::Gt => {
                    let r = find_in(&node.right, key, ops);
                    proof {
                        lemma_seg_cmp_flip(node.key, *key);
                        assert forall|e: Segment| #[trigger] Node::opt_set(*n).contains(e)
                            && seg_eqv(e, *key) implies Node::opt_set(node.right).contains(e) by {
                            if Node::opt_set(node.left).contains(e) {
                                lemma_seg_lt_trans(e, node.key, *key);
                            } else if e == node.key {
                            }
                        }
                        if r {
                            let w = choose|e: Segment|
                                Node::opt_set(node.right).contains(e) && seg_eqv(e, *key);
                            assert(Node::opt_set(*n).contains(w) && seg_eqv(w, *key));
                        }
                    }
                    r
                },
            }
        },
    }
}

/// Smallest key strictly above `key` in the subtree, if any.
fn succ_in(n: &Option<Box<Node>>, key: &Segment, ops: &mut u64) -> (r: Option<Segment>)
    requires
        seg_key_wf(*key),
        Node::opt_wf(*n),
    ensures
        match r {
            None => forall|e: Segment| #[trigger]
                Node::opt_set(*n).contains(e) ==> !seg_lt(*key, e),
            Some(s) => Node::opt_set(*n).contains(s) && seg_lt(*key, s) && forall|e: Segment|
                #[trigger] Node::opt_set(*n).contains(e) && seg_lt(*key, e) ==> !seg_lt(e, s),
        },
        *final(ops) >= *old(ops),
    decreases n,
{
    match n {
        None => None,
        Some(node) => {
            count_op(ops);
            proof {
                lemma_wf_keys(node.left);
                lemma_wf_keys(node.right);
                lemma_seg_cmp_flip(*key, node.key);
                lemma_seg_cmp_refl(node.key);
            }
            let c: Cmp = seg_compare(key, &node.key);
            if matches!(c, Cmp::Lt) {
                let rec = succ_in(&node.left, key, ops);
                match rec {
                    Some(s) => {
                        proof {
                            assert(Node::opt_set(node.left).contains(s));
                            assert forall|e: Segment| #[trigger] Node::opt_set(*n).contains(e)
                                && seg_lt(*key, e) implies !seg_lt(e, s) by {
                                if Node::opt_set(node.left).contains(e) {
                                } else if e == node.key {
                                    lemma_seg_cmp_flip(s, node.key);
                                } else {
                                    assert(Node::opt_set(node.right).contains(e));
                                    lemma_seg_lt_trans(s, node.key, e);
                                    lemma_seg_cmp_flip(s, e);
                                }
                            }
                        }
                        Some(s)
                    },
                    None => {
                        proof {
                            assert forall|e: Segment| #[trigger] Node::opt_set(*n).contains(e)
                                && seg_lt(*key, e) implies !seg_lt(e, node.key) by {
                                if Node::opt_set(node.left).contains(e) {
                                } else if e == node.key {
                                } else {
                                    assert(Node::opt_set(node.right).contains(e));
                                    lemma_seg_cmp_flip(node.key, e);
                                }
                            }
                        }
                        Some(node.key)
                    },
                }
            } else {
                let rec = succ_in(&node.right, key, ops);
                proof {
                    assert forall|e: Segment| #[trigger] Node::opt_set(*n).contains(e) && seg_lt(
                        *key,
                        e,
                    ) implies Node::opt_set(node.right).contains(e) by {
                        if Node::opt_set(node.left).contains(e) {
                            if seg_cmp_spec(*key, node.key) == Cmp::Gt {
                                lemma_seg_cmp_flip(*key, node.key);
                                lemma_seg_lt_trans(e, node.key, *key);
                                lemma_seg_cmp_flip(*key, e);
                            } else {
                                lemma_seg_cmp_flip(*key, node.key);
                                lemma_seg_lt_eqv(e, node.key, *key);
                                lemma_seg_cmp_flip(*key, e);
                            }
                        } else if e == node.key {
                        }
                    }
                }
                rec
            }
        },
    }
}

/// Greatest key strictly below `key` in the subtree, if any.
fn pred_in(n: &Option<Box<Node>>, key: &Segment, ops: &mut u64) -> (r: Option<Segment>)
    requires
        seg_key_wf(*key),
        Node::opt_wf(*n),
    ensures
        match r {
            None => forall|e: Segment| #[trigger]
                Node::opt_set(*n).contains(e) ==> !seg_lt(e, *key),
            Some(s) => Node::opt_set(*n).contains(s) && seg_lt(s, *key) && forall|e: Segment|
                #[trigger] Node::opt_set(*n).contains(e) && seg_lt(e, *key) ==> !seg_lt(s, e),
        },
        *final(ops) >= *old(ops),
    decreases n,
{
    match n {
        None => None,
        Some(node) => {
            count_op(ops);
            proof {
                lemma_wf_keys(node.left);
                lemma_wf_keys(node.right);
                lemma_seg_cmp_flip(*key, node.key);
                lemma_seg_cmp_refl(node.key);
            }
            let c: Cmp = seg_compare(key, &node.key);
            if matches!(c, Cmp::Gt) {
                let rec = pred_in(&node.right, key, ops);
                match rec {
                    Some(s) => {
                        proof {
                            assert(Node::opt_set(node.right).contains(s));
                            assert forall|e: Segment| #[trigger] Node::opt_set(*n).contains(e)
                                && seg_lt(e, *key) implies !seg_lt(s, e) by {
                                if Node::opt_set(node.right).contains(e) {
                                } else if e == node.key {
                                    lemma_seg_cmp_flip(node.key, s);
                                } else {
                                    assert(Node::opt_set(node.left).contains(e));
                                    lemma_seg_lt_trans(e, node.key, s);
                                    lemma_seg_cmp_flip(e, s);
                                }
                            }
                        }
                        Some(s)
                    },
                    None => {
                        proof {
                            assert forall|e: Segment| #[trigger] Node::opt_set(*n).contains(e)
                                && seg_lt(e, *key) implies !seg_lt(node.key, e) by {
                                if Node::opt_set(node.right).contains(e) {
                                } else if e == node.key {
                                } else {
                                    assert(Node::opt_set(node.left).contains(e));
                                    lemma_seg_cmp_flip(e, node.key);
                                }
                            }
                        }
                        Some(node.key)
                    },
                }
            } else {
                let rec = pred_in(&node.left, key, ops);
                proof {
                    assert forall|e: Segment| #[trigger] Node::opt_set(*n).contains(e) && seg_lt(
                        e,
                        *key,
                    ) implies Node::opt_set(node.left).contains(e) by {
                        if Node::opt_set(node.right).contains(e) {
                            if seg_cmp_spec(*key, node.key) == Cmp::Lt {
                                lemma_seg_lt_trans(*key, node.key, e);
                                lemma_seg_cmp_flip(e, *key);
                            } else {
                                lemma_seg_cmp_flip(*key, node.key);
                                lemma_seg_lt_eqv(*key, node.key, e);
                                lemma_seg_cmp_flip(e, *key);
                            }
                        } else if e == node.key {
                        }
                    }
                }
                rec
            }
        },
    }
}

/// The in-order sequence holds exactly the stored keys.
proof fn lemma_inorder_set(n: Option<Box<Node>>)
    ensures
        forall|i: int|
            0 <= i < Node::opt_seq(n).len() ==> Node::opt_set(n).contains(
                #[trigger] Node::opt_seq(n)[i],
            ),
        forall|e: Segment| #[trigger]
            Node::opt_set(n).contains(e) ==> exists|i: int|
                0 <= i < Node::opt_seq(n).len() && Node::opt_seq(n)[i] == e,
    decreases n,
{
    match n {
        None => {},
        Some(node) => {
            lemma_inorder_set(node.left);
            lemma_inorder_set(node.right);
            let ls = Node::opt_seq(node.left);
            let rs = Node::opt_seq(node.right);
            let s = Node::opt_seq(n);
            assert(s == ls + seq![node.key] + rs);
            assert forall|i: int| 0 <= i < s.len() implies Node::opt_set(n).contains(
                #[trigger] s[i],
            ) by {
                if i < ls.len() {
                    assert(s[i] == ls[i]);
                } else if i == ls.len() {
                    assert(s[i] == node.key);
                } else {
                    assert(s[i] == rs[i - ls.len() - 1]);
                }
            }
            assert forall|e: Segment| #[trigger] Node::opt_set(n).contains(e) implies exists|i: int|
                0 <= i < s.len() && s[i] == e by {
                if Node::opt_set(node.left).contains(e) {
                    let i = choose|i: int| 0 <= i < ls.len() && ls[i] == e;
                    assert(s[i] == e);
                } else if Node::opt_set(node.right).contains(e) {
                    let i = choose|i: int| 0 <= i < rs.len() && rs[i] == e;
                    assert(s[ls.len() + 1 + i] == e);
                } else {
                    assert(s[ls.len() as int] == e);
                }
            }
        },
    }
}

/// In a well-formed subtree the in-order sequence is strictly sorted.
proof fn lemma_inorder_sorted(n: Option<Box<Node>>)
    requires
        Node::opt_wf(n),
    ensures
        forall|i: int, j: int|
            0 <= i < j < Node::opt_seq(n).len() ==> seg_lt(
                #[trigger] Node::opt_seq(n)[i],
                #[trigger] Node::opt_seq(n)[j],
            ),
    decreases n,
{
    match n {
        None => {},
        Some(node) => {
            lemma_inorder_sorted(node.left);
            lemma_inorder_sorted(node.right);
            lemma_inorder_set(node.left);
            lemma_inorder_set(node.right);
            lemma_wf_keys(node.left);
            lemma_wf_keys(node.right);
            let ls = Node::opt_seq(node.left);
            let rs = Node::opt_seq(node.right);
            let s = Node::opt_seq(n);
            assert(s == ls + seq![node.key] + rs);
            assert forall|i: int, j: int| 0 <= i < j < s.len() implies seg_lt(
                #[trigger] s[i],
                #[trigger] s[j],
            ) by {
                let ll = ls.len() as int;
                if j < ll {
                    assert(s[i] == ls[i] && s[j] == ls[j]);
                } else if i < ll && j == ll {
                    assert(s[i] == ls[i] && s[j] == node.key);
                } else if i < ll && j > ll {
                    assert(s[i] == ls[i] && s[j] == rs[j - ll - 1]);
                    lemma_seg_lt_trans(ls[i], node.key, rs[j - ll - 1]);
                } else if i == ll {
                    assert(s[i] == node.key && s[j] == rs[j - ll - 1]);
                } else {
                    assert(s[i] == rs[i - ll - 1] && s[j] == rs[j - ll - 1]);
                }
            }
        },
    }
}

/// Append the subtree's keys to `out` in tree order.
fn inorder_in(n: &Option<Box<Node>>, out: &mut Vec<Segment>)
    ensures
        final(out)@ == old(out)@ + Node::opt_seq(*n),
    decreases n,
{
    match n {
        None => {
            proof {
                assert(old(out)@ + Node::opt_seq(*n) =~= old(out)@);
            }
        },
        Some(node) => {
            inorder_in(&node.left, out);
            out.push(node.key);
            inorder_in(&node.right, out);
            proof {
                assert(final(out)@ =~= old(out)@ + Node::opt_seq(*n));
            }
        },
    }
}

impl Treap {
    /// The set of stored keys; the tree's abstract content.
    pub closed spec fn as_set(self) -> Set<Segment> {
        Node::opt_set(self.root)
    }

    /// The stored keys in tree order, left to right.
    pub closed spec fn in_order(self) -> Seq<Segment> {
        Node::opt_seq(self.root)
    }

    /// Well-formedness: search order and heap order hold everywhere.
    pub closed spec fn wf(self) -> bool {
        Node::opt_wf(self.root)
    }

    /// The empty tree.
    pub fn new() -> (t: Treap)
        ensures
            t.wf(),
            t@ == Set::<Segment>::empty(),
    {
        Treap { root: None }
    }

    /// Insert a key, replacing any stored key that compares equal; the
    /// new node gets a fresh random priority.
    pub fn insert(&mut self, key: Segment, ops: &mut u64)
        requires
            old(self).wf(),
            seg_key_wf(key),
        ensures
            final(self).wf(),
            final(self)@ == old(self)@.filter(|e: Segment| !seg_eqv(e, key)).insert(key),
            *final(ops) >= *old(ops),
            *old(ops) < u64::MAX ==> *final(ops) > *old(ops),
    {
        proof {
            lemma_wf_keys(self.root);
        }
        let ghost orig = Node::opt_set(self.root);
        let root = self.root.take();
        let (l, r) = split(root, &key, ops);
        let pri: u64 = rand::random::<u64>();
        let node = Node { key, priority: pri, left: None, right: None };
        proof {
            assert(Node::opt_set(None::<Box<Node>>) =~= Set::<Segment>::empty());
            assert(node.wf());
            assert(node.key_set() =~= Set::<Segment>::empty().insert(key));
            assert forall|a: Segment, b: Segment|
                Node::opt_set(l).contains(a) && node.key_set().contains(b) implies seg_lt(
                a,
                b,
            ) by {
                assert(b == key);
            }
        }
        let lk = merge(l, Some(Box::new(node)), ops);
        proof {
            assert forall|a: Segment, b: Segment|
                Node::opt_set(lk).contains(a) && Node::opt_set(r).contains(b) implies seg_lt(
                a,
                b,
            ) by {
                assert(orig.contains(b) && seg_lt(key, b));
                if a != key {
                    assert(orig.contains(a) && seg_lt(a, key));
                    lemma_seg_lt_trans(a, key, b);
                }
            }
        }
        self.root = merge(lk, r, ops);
        proof {
            assert forall|e: Segment| #[trigger] orig.contains(e) implies (seg_lt(e, key) || seg_lt(
                key,
                e,
            )) == !seg_eqv(e, key) by {
                lemma_seg_cmp_flip(e, key);
            }
            assert(Node::opt_set(self.root) =~= orig.filter(|e: Segment| !seg_eqv(e, key)).insert(
                key,
            ));
        }
    }

    /// Merge two detached subtrees whose key ranges are separated,
    /// choosing roots by priority; the building block that `insert`
    /// and `remove` rebuild the tree with.
    pub fn merge(
        &self,
        left: Option<Box<Node>>,
        right: Option<Box<Node>>,
        ops: &mut u64,
    ) -> (r: Option<Box<Node>>)
        requires
            Node::opt_wf(left),
            Node::opt_wf(right),
            forall|a: Segment, b: Segment|
                Node::opt_set(left).contains(a) && Node::opt_set(right).contains(b) ==> seg_lt(
                    a,
                    b,
                ),
        ensures
            Node::opt_wf(r),
            Node::opt_set(r) == Node::opt_set(left).union(Node::opt_set(right)),
            Node::opt_seq(r) == Node::opt_seq(left) + Node::opt_seq(right),
            left is None ==> r == right,
            right is None ==> r == left,
            left is Some && right is Some ==> r is Some && (if left.unwrap().priority
                > right.unwrap().priority {
                r.unwrap().key == left.unwrap().key && r.unwrap().priority
                    == left.unwrap().priority
            } else {
                r.unwrap().key == right.unwrap().key && r.unwrap().priority
                    == right.unwrap().priority
            }),
            *final(ops) >= *old(ops),
            *old(ops) < u64::MAX ==> *final(ops) > *old(ops),
    {
        merge(left, right, ops)
    }

    /// Whether some stored key compares equal to `key`.
    pub fn find(&self, key: &Segment, ops: &mut u64) -> (r: bool)
        requires
            self.wf(),
            seg_key_wf(*key),
        ensures
            r == exists|e: Segment| #[trigger] self@.contains(e) && seg_eqv(e, *key),
            *final(ops) >= *old(ops),
            *old(ops) < u64::MAX ==> *final(ops) > *old(ops),
    {
        let r = find_in(&self.root, key, ops);
        proof {
            assert(self@ == Node::opt_set(self.root));
            if r {
                let w = choose|e: Segment|
                    Node::opt_set(self.root).contains(e) && seg_eqv(e, *key);
                assert(self@.contains(w) && seg_eqv(w, *key));
            }
        }
        r
    }

    /// Remove the stored key comparing equal to `key`, if there is one;
    /// reports whether a removal happened.
    pub fn remove(&mut self, key: &Segment, ops: &mut u64) -> (r: bool)
        requires
            old(self).wf(),
            seg_key_wf(*key),
        ensures
            final(self).wf(),
            final(self)@ == old(self)@.filter(|e: Segment| !seg_eqv(e, *key)),
            r == exists|e: Segment| #[trigger] old(self)@.contains(e) && seg_eqv(e, *key),
            *final(ops) >= *old(ops),
            *old(ops) < u64::MAX ==> *final(ops) > *old(ops),
    {
        proof {
            lemma_wf_keys(self.root);
        }
        let ghost orig = Node::opt_set(self.root);
        if !find_in(&self.root, key, ops) {
            proof {
                assert forall|e: Segment| #[trigger] orig.contains(e) implies !seg_eqv(
                    e,
                    *key,
                ) by {}
                assert(orig =~= orig.filter(|e: Segment| !seg_eqv(e, *key)));
            }
            return false;
        }
        let root = self.root.take();
        let (l, r) = split(root, key, ops);
        proof {
            assert forall|a: Segment, b: Segment|
                Node::opt_set(l).contains(a) && Node::opt_set(r).contains(b) implies seg_lt(
                a,
                b,
            ) by {
                assert(orig.contains(a) && seg_lt(a, *key));
                assert(orig.contains(b) && seg_lt(*key, b));
                lemma_seg_lt_trans(a, *key, b);
            }
        }
        self.root = merge(l, r, ops);
        proof {
            assert forall|e: Segment| #[trigger] orig.contains(e) implies (seg_lt(e, *key)
                || seg_lt(*key, e)) == !seg_eqv(e, *key) by {
                lemma_seg_cmp_flip(e, *key);
            }
            assert(Node::opt_set(self.root) =~= orig.filter(|e: Segment| !seg_eqv(e, *key)));
        }
        true
    }

    /// The smallest stored key strictly above `key`, if any.
    pub fn successor(&self, key: &Segment, ops: &mut u64) -> (r: Option<Segment>)
        requires
            self.wf(),
            seg_key_wf(*key),
        ensures
            match r {
                None => forall|e: Segment| #[trigger] self@.contains(e) ==> !seg_lt(*key, e),
                Some(s) => self@.contains(s) && seg_lt(*key, s) && forall|e: Segment| #[trigger]
                    self@.contains(e) && seg_lt(*key, e) ==> !seg_lt(e, s),
            },
            *final(ops) >= *old(ops),
    {
        succ_in(&self.root, key, ops)
    }

    /// The greatest stored key strictly below `key`, if any.
    pub fn predecessor(&self, key: &Segment, ops: &mut u64) -> (r: Option<Segment>)
        requires
            self.wf(),
            seg_key_wf(*key),
        ensures
            match r {
                None => forall|e: Segment| #[trigger] self@.contains(e) ==> !seg_lt(e, *key),
                Some(s) => self@.contains(s) && seg_lt(s, *key) && forall|e: Segment| #[trigger]
                    self@.contains(e) && seg_lt(e, *key) ==> !seg_lt(s, e),
            },
            *final(ops) >= *old(ops),
    {
        pred_in(&self.root, key, ops)
    }

    /// The stored keys in order, smallest first.
    pub fn inorder_keys(&self) -> (r: Vec<Segment>)
        ensures
            r@ == self.in_order(),
    {
        let mut out: Vec<Segment> = Vec::new();
        inorder_in(&self.root, &mut out);
        proof {
            assert(out@ =~= self.in_order());
        }
        out
    }

    /// The treap property: an in-order traversal of a well-formed tree
    /// yields keys in strictly increasing value order, and those keys
    /// are exactly the stored set.
    pub proof fn lemma_in_order_sorted(self)
        requires
            self.wf(),
        ensures
            forall|i: int, j: int|
                0 <= i < j < self.in_order().len() ==> seg_lt(
                    #[trigger] self.in_order()[i],
                    #[trigger] self.in_order()[j],
                ),
            forall|i: int|
                0 <= i < self.in_order().len() ==> self@.contains(#[trigger] self.in_order()[i]),
            forall|e: Segment| #[trigger]
                self@.contains(e) ==> exists|i: int|
                    0 <= i < self.in_order().len() && self.in_order()[i] == e,
    {
        lemma_inorder_sorted(self.root);
        lemma_inorder_set(self.root);
        assert(self.in_order() == Node::opt_seq(self.root));
        assert(self@ == Node::opt_set(self.root));
    }
}

impl View for Treap {
    type V = Set<Segment>;

    open spec fn view(&self) -> Set<Segment> {
        self.as_set()
    }
}

} // verus!
