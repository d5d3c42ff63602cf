//! A size-augmented red-black tree: an ordered map from `u64` keys to
//! arbitrary values, supporting construction, insertion and size queries.
//!
//! Invariants, established by the constructor and preserved by every
//! operation:
//!
//! 1. No red node has a red child.
//! 2. Every path from the root to an absent-child position passes through
//!    the same number of black nodes.
//! 3. Every node's `size` field counts the nodes of the subtree rooted at
//!    it, including itself.
//! 4. Keys are unique and ordered: a node's left subtree holds only smaller
//!    keys, its right subtree only larger ones.

use vstd::prelude::*;

verus! {

#[derive(Clone, Copy, Debug, PartialEq, Eq, Structural)]
pub enum Color {
    Red,
    Black,
}

/// One node of the tree. It exclusively owns its children; the subtree
/// rooted at a node is never shared.
pub struct Node<V> {
    /// Count of nodes in the subtree rooted here, including this one.
    pub size: usize,
    pub color: Color,
    pub key: u64,
    pub value: V,
    pub left: Option<Box<Node<V>>>,
    pub right: Option<Box<Node<V>>>,
}

/// An ordered map from `u64` keys to values of type `V`, kept balanced as a
/// red-black tree. Lookup structure only grows: there is no deletion.
pub struct RedBlackTree<V> {
    pub root: Option<Box<Node<V>>>,
}

/// Inserting an already-present key leaves the tree untouched and returns
/// this error.
#[derive(Clone, Copy, Debug, PartialEq, Eq, Structural)]
pub struct DuplicateKeyError;

/// The key-value mapping held by an optional subtree.
pub open spec fn opt_map<V>(t: Option<Box<Node<V>>>) -> Map<u64, V>
    decreases t,
{
    match t {
        None => Map::empty(),
        Some(n) => n.as_map(),
    }
}

/// The number of nodes of an optional subtree.
pub open spec fn opt_count<V>(t: Option<Box<Node<V>>>) -> nat
    decreases t,
{
    match t {
        None => 0,
        Some(n) => n.count(),
    }
}

/// The color of an optional subtree's root; absent children count as black.
pub open spec fn opt_color<V>(t: Option<Box<Node<V>>>) -> Color {
    match t {
        None => Color::Black,
        Some(n) => n.color,
    }
}

/// Binary-search ordering of an optional subtree.
pub open spec fn opt_ordered<V>(t: Option<Box<Node<V>>>) -> bool
    decreases t,
{
    match t {
        None => true,
        Some(n) => n.ordered(),
    }
}

/// Size fields of an optional subtree agree with the node counts.
pub open spec fn opt_sizes_ok<V>(t: Option<Box<Node<V>>>) -> bool
    decreases t,
{
    match t {
        None => true,
        Some(n) => n.sizes_ok(),
    }
}

/// No red node of an optional subtree has a red child.
pub open spec fn opt_no_red_red<V>(t: Option<Box<Node<V>>>) -> bool
    decreases t,
{
    match t {
        None => true,
        Some(n) => n.no_red_red(),
    }
}

/// The number of black nodes on the leftmost path of an optional subtree.
pub open spec fn opt_black_height<V>(t: Option<Box<Node<V>>>) -> nat
    decreases t,
{
    match t {
        None => 0,
        Some(n) => n.black_height(),
    }
}

/// Every path of an optional subtree passes through the same number of
/// black nodes.
pub open spec fn opt_black_balanced<V>(t: Option<Box<Node<V>>>) -> bool
    decreases t,
{
    match t {
        None => true,
        Some(n) => n.black_balanced(),
    }
}

/// A valid red-black subtree: ordered, correctly sized, no red-red edge,
/// and black-balanced.
pub open spec fn opt_rb_valid<V>(t: Option<Box<Node<V>>>) -> bool {
    &&& opt_ordered(t)
    &&& opt_sizes_ok(t)
    &&& opt_no_red_red(t)
    &&& opt_black_balanced(t)
}

impl<V> Node<V> {
    /// The key-value mapping of the subtree rooted at this node.
    pub open spec fn as_map(self) -> Map<u64, V>
        decreases self,
    {
        opt_map(self.left).union_prefer_right(opt_map(self.right)).insert(self.key, self.value)
    }

    /// The number of nodes of the subtree rooted at this node.
    pub open spec fn count(self) -> nat
        decreases self,
    {
        1 + opt_count(self.left) + opt_count(self.right)
    }

    /// Binary-search ordering: smaller keys to the left, larger to the
    /// right, recursively.
    pub open spec fn ordered(self) -> bool
        decreases self,
    {
        &&& forall|k: u64| opt_map(self.left).dom().contains(k) ==> k < self.key
        &&& forall|k: u64| opt_map(self.right).dom().contains(k) ==> k > self.key
        &&& opt_ordered(self.left)
        &&& opt_ordered(self.right)
    }

    /// Every `size` field of this subtree equals the node count of its
    /// subtree.
    pub open spec fn sizes_ok(self) -> bool
        decreases self,
    {
        &&& self.size == self.count()
        &&& opt_sizes_ok(self.left)
        &&& opt_sizes_ok(self.right)
    }

    /// No red node of this subtree has a red child.
    pub open spec fn no_red_red(self) -> bool
        decreases self,
    {
        &&& self.color == Color::Red ==> opt_color(self.left) == Color::Black && opt_color(
            self.right,
        ) == Color::Black
        &&& opt_no_red_red(self.left)
        &&& opt_no_red_red(self.right)
    }

    /// The number of black nodes on the leftmost path from this node down
    /// to an absent child.
    pub open spec fn black_height(self) -> nat
        decreases self,
    {
        opt_black_height(self.left) + if self.color == Color::Black {
            1nat
        } else {
            0nat
        }
    }

    /// Both children have equal black heights, recursively: every
    /// root-to-nil path of this subtree has the same number of black nodes.
    pub open spec fn black_balanced(self) -> bool
        decreases self,
    {
        &&& opt_black_balanced(self.left)
        &&& opt_black_balanced(self.right)
        &&& opt_black_height(self.left) == opt_black_height(self.right)
    }

    /// A valid red-black subtree rooted at this node.
    pub open spec fn rb_valid(self) -> bool {
        &&& self.ordered()
        &&& self.sizes_ok()
        &&& self.no_red_red()
        &&& self.black_balanced()
    }

    fn new(color: Color, key: u64, value: V) -> (r: Self)
        ensures
            r.size == 1,
            r.color == color,
            r.key == key,
            r.value == value,
            r.left is None,
            r.right is None,
            r.rb_valid(),
            r.as_map() == Map::empty().insert(key, value),
            r.count() == 1,
            r.black_height() == if color == Color::Black {
                1nat
            } else {
                0nat
            },
    {
        let r = Node { size: 1, color, key, value, left: None, right: None };
        proof {
            assert(r.as_map() =~= Map::empty().insert(key, value));
        }
        r
    }

    /// Return this subtree with its root colored black; everything else is
    /// unchanged.
    pub fn make_black(self) -> (r: Self)
        ensures
            r.color == Color::Black,
            r.size == self.size,
            r.key == self.key,
            r.value == self.value,
            r.left == self.left,
            r.right == self.right,
    {
        let mut n = self;
        n.color = Color::Black;
        n
    }

    /// Insert a key that is absent from this subtree, rebuilding and
    /// rebalancing the nodes along the insertion path. The result holds the
    /// old mapping plus the new binding and keeps the subtree's black
    /// height. Below the result's root no red node has a red child; the
    /// root itself may have turned red, and when this node was already red
    /// it may transiently have one red child, which the caller's
    /// rebalancing step repairs.
    pub fn insert(self, key: u64, value: V) -> (r: Self)
        requires
            self.rb_valid(),
            !self.as_map().dom().contains(key),
            self.count() < usize::MAX,
        ensures
            r.ordered(),
            r.sizes_ok(),
            r.black_balanced(),
            r.black_height() == self.black_height(),
            r.count() == self.count() + 1,
            r.as_map() == self.as_map().insert(key, value),
            self.color == Color::Black ==> r.no_red_red(),
            self.color == Color::Red ==> r.color == Color::Red && opt_no_red_red(r.left)
                && opt_no_red_red(r.right),
        decreases self,
    {
        let ghost gs = self;
        proof {
            assert(gs.as_map().dom().contains(gs.key));
        }
        let Node { size, color, key: nkey, value: nvalue, left, right } = self;
        if key < nkey {
            let new_left: Option<Box<Node<V>>> = match left {
                None => {
                    let leaf = Node::new(Color::Red, key, value);
                    let nl = Some(Box::new(leaf));
                    proof {
                        assert(opt_map(gs.left) =~= Map::<u64, V>::empty());
                        assert(opt_map(nl) == leaf.as_map());
                        assert(opt_map(nl) =~= opt_map(gs.left).insert(key, value));
                        assert(opt_ordered(nl) && opt_sizes_ok(nl) && opt_black_balanced(nl));
                        assert(opt_black_height(nl) == opt_black_height(gs.left));
                        assert(opt_count(nl) == opt_count(gs.left) + 1);
                        assert(opt_no_red_red(nl));
                        assert(opt_near_rb(nl));
                    }
                    nl
                },
                Some(l) => {
                    let lnode = *l;
                    let ghost gl = lnode;
                    proof {
                        assert(gs.left is Some && gl == gs.left.unwrap());
                        lemma_opt_unfold(gs.left);
                        assert(gl.rb_valid());
                        assert(!gl.as_map().dom().contains(key)) by {
                            if gl.as_map().dom().contains(key) {
                                assert(gs.as_map().dom().contains(key));
                            }
                        }
                        assert(gs.count() == 1 + gl.count() + opt_count(gs.right));
                        assert(gl.count() < usize::MAX);
                    }
                    let res = lnode.insert(key, value);
                    let nl = Some(Box::new(res));
                    proof {
                        assert(opt_map(nl) == res.as_map());
                        assert(opt_map(nl) == opt_map(gs.left).insert(key, value));
                        assert(opt_ordered(nl) && opt_sizes_ok(nl) && opt_black_balanced(nl));
                        assert(opt_black_height(nl) == opt_black_height(gs.left));
                        assert(opt_count(nl) == opt_count(gs.left) + 1);
                        if gl.color == Color::Black {
                            assert(res.no_red_red());
                            assert(opt_no_red_red(nl) && opt_near_rb(nl));
                        } else {
                            assert(opt_near_rb(nl));
                        }
                        assert(opt_color(gs.left) == Color::Black ==> opt_no_red_red(nl));
                        if gs.color == Color::Red {
                            assert(gs.no_red_red());
                            assert(opt_color(gs.left) == Color::Black);
                            assert(opt_no_red_red(nl));
                        }
                    }
                    nl
                },
            };
            let mut m = Node { size, color, key: nkey, value: nvalue, left: new_left, right };
            proof {
                assert(opt_map(m.left) == opt_map(gs.left).insert(key, value));
                assert(opt_sizes_ok(m.left) && opt_sizes_ok(m.right));
                assert(gs.count() == 1 + opt_count(gs.left) + opt_count(gs.right));
                assert(m.count() == gs.count() + 1);
                assert(m.count() <= usize::MAX);
            }
            m.update_size();
            let ghost gm = m;
            proof {
                assert(gm.count() == gs.count() + 1);
                assert forall|k: u64| opt_map(gm.left).dom().contains(k) implies k < nkey by {
                    assert(opt_map(gs.left).insert(key, value).dom().contains(k));
                }
                assert(forall|k: u64| opt_map(gm.right).dom().contains(k) ==> k > nkey);
                assert(gm.ordered());
                assert(gm.sizes_ok());
                assert(gs.black_balanced());
                assert(gm.black_balanced());
                assert(gm.black_height() == gs.black_height());
                if gs.right is Some {
                    lemma_opt_unfold(gs.right);
                    assert(gs.right.unwrap().no_red_red());
                }
                assert(opt_no_red_red(gm.right));
                assert(opt_near_rb(gm.left) && opt_near_rb(gm.right));
                assert(gm.color == Color::Red ==> opt_no_red_red(gm.left) && opt_no_red_red(
                    gm.right,
                ));
            }
            let r = m.balance();
            proof {
                assert(!opt_map(gs.right).dom().contains(key)) by {
                    if opt_map(gs.right).dom().contains(key) {
                        assert(key > nkey);
                    }
                }
                assert(gm.as_map() =~= gs.as_map().insert(key, value));
                assert(r.as_map() == gs.as_map().insert(key, value));
                assert(r.black_height() == gs.black_height());
                assert(r.count() == gs.count() + 1);
            }
            r
        } else {
            let new_right: Option<Box<Node<V>>> = match right {
                None => {
                    let leaf = Node::new(Color::Red, key, value);
                    let nr = Some(Box::new(leaf));
                    proof {
                        assert(opt_map(gs.right) =~= Map::<u64, V>::empty());
                        assert(opt_map(nr) == leaf.as_map());
                        assert(opt_map(nr) =~= opt_map(gs.right).insert(key, value));
                        assert(opt_ordered(nr) && opt_sizes_ok(nr) && opt_black_balanced(nr));
                        assert(opt_black_height(nr) == opt_black_height(gs.right));
                        assert(opt_count(nr) == opt_count(gs.right) + 1);
                        assert(opt_no_red_red(nr));
                        assert(opt_near_rb(nr));
                    }
                    nr
                },
                Some(n) => {
                    let rnode = *n;
                    let ghost gr = rnode;
                    proof {
                        assert(gs.right is Some && gr == gs.right.unwrap());
                        lemma_opt_unfold(gs.right);
                        assert(gr.rb_valid());
                        assert(!gr.as_map().dom().contains(key)) by {
                            if gr.as_map().dom().contains(key) {
                                assert(gs.as_map().dom().contains(key));
                            }
                        }
                        assert(gs.count() == 1 + opt_count(gs.left) + gr.count());
                        assert(gr.count() < usize::MAX);
                    }
                    let res = rnode.insert(key, value);
                    let nr = Some(Box::new(res));
                    proof {
                        assert(opt_map(nr) == res.as_map());
                        assert(opt_map(nr) == opt_map(gs.right).insert(key, value));
                        assert(opt_ordered(nr) && opt_sizes_ok(nr) && opt_black_balanced(nr));
                        assert(opt_black_height(nr) == opt_black_height(gs.right));
                        assert(opt_count(nr) == opt_count(gs.right) + 1);
                        if gr.color == Color::Black {
                            assert(res.no_red_red());
                            assert(opt_no_red_red(nr) && opt_near_rb(nr));
                        } else {
                            assert(opt_near_rb(nr));
                        }
                        assert(opt_color(gs.right) == Color::Black ==> opt_no_red_red(nr));
                        if gs.color == Color::Red {
                            assert(gs.no_red_red());
                            assert(opt_color(gs.right) == Color::Black);
                            assert(opt_no_red_red(nr));
                        }
                    }
                    nr
                },
            };
            let mut m = Node { size, color, key: nkey, value: nvalue, left, right: new_right };
            proof {
                assert(key != nkey);
                assert(key > nkey);
                assert(opt_map(m.right) == opt_map(gs.right).insert(key, value));
                assert(opt_sizes_ok(m.left) && opt_sizes_ok(m.right));
                assert(gs.count() == 1 + opt_count(gs.left) + opt_count(gs.right));
                assert(m.count() == gs.count() + 1);
                assert(m.count() <= usize::MAX);
            }
            m.update_size();
            let ghost gm = m;
            proof {
                assert(gm.count() == gs.count() + 1);
                assert forall|k: u64| opt_map(gm.right).dom().contains(k) implies k > nkey by {
                    assert(opt_map(gs.right).insert(key, value).dom().contains(k));
                }
                assert(forall|k: u64| opt_map(gm.left).dom().contains(k) ==> k < nkey);
                assert(gm.ordered());
                assert(gm.sizes_ok());
                assert(gs.black_balanced());
                assert(gm.black_balanced());
                assert(gm.black_height() == gs.black_height());
                if gs.left is Some {
                    lemma_opt_unfold(gs.left);
                    assert(gs.left.unwrap().no_red_red());
                }
                assert(opt_no_red_red(gm.left));
                assert(opt_near_rb(gm.left) && opt_near_rb(gm.right));
                assert(gm.color == Color::Red ==> opt_no_red_red(gm.left) && opt_no_red_red(
                    gm.right,
                ));
            }
            let r = m.balance();
            proof {
                assert(!opt_map(gs.left).dom().contains(key)) by {
                    if opt_map(gs.left).dom().contains(key) {
                        assert(key < nkey);
                    }
                }
                assert(gm.as_map() =~= gs.as_map().insert(key, value));
                assert(r.as_map() == gs.as_map().insert(key, value));
                assert(r.black_height() == gs.black_height());
                assert(r.count() == gs.count() + 1);
            }
            r
        }
    }

    /// Recompute this node's `size` field from its children's.
    fn update_size(&mut self)
        requires
            opt_sizes_ok(old(self).left),
            opt_sizes_ok(old(self).right),
            old(self).count() <= usize::MAX,
        ensures
            final(self).size == old(self).count(),
            final(self).color == old(self).color,
            final(self).key == old(self).key,
            final(self).value == old(self).value,
            final(self).left == old(self).left,
            final(self).right == old(self).right,
            final(self).sizes_ok(),
    {
        let ln: usize = match &self.left {
            None => 0,
            Some(n) => n.size,
        };
        let rn: usize = match &self.right {
            None => 0,
            Some(n) => n.size,
        };
        self.size = ln + rn + 1;
    }

    /// The rebalancing step applied to each node on the way back up from an
    /// insertion. A black node whose child is red with a red child of its
    /// own is restructured by the matching single or double rotation; any
    /// other node is returned unchanged. The result holds the same mapping
    /// with the same black height, and below its root (which may be red)
    /// no red node has a red child.
    #[verifier::rlimit(100)]
    fn balance(self) -> (r: Self)
        requires
            self.ordered(),
            self.sizes_ok(),
            self.black_balanced(),
            opt_near_rb(self.left),
            opt_near_rb(self.right),
            opt_no_red_red(self.left) || opt_no_red_red(self.right),
            self.color == Color::Red ==> opt_no_red_red(self.left) && opt_no_red_red(
                self.right,
            ),
        ensures
            r.ordered(),
            r.sizes_ok(),
            r.black_balanced(),
            r.black_height() == self.black_height(),
            r.count() == self.count(),
            r.as_map() == self.as_map(),
            self.color == Color::Black ==> r.no_red_red(),
            self.color == Color::Red ==> r == self,
    {
        let ghost gs = self;
        let l_red = opt_is_red(&self.left);
        let r_red = opt_is_red(&self.right);
        let (ll_red, lr_red) = match &self.left {
            None => (false, false),
            Some(l) => (opt_is_red(&l.left), opt_is_red(&l.right)),
        };
        let (rl_red, rr_red) = match &self.right {
            None => (false, false),
            Some(n) => (opt_is_red(&n.left), opt_is_red(&n.right)),
        };
        let is_black = match self.color {
            Color::Black => true,
            Color::Red => false,
        };
        if is_black && l_red && ll_red {
            // Right rotation: promote the left child.
            let Node { size: _, color: _, key, value, left, right } = self;
            let l = *left.unwrap();
            let ghost gl = l;
            let Node { size: _, color: _, key: lkey, value: lvalue, left: lleft, right: lright } =
                l;
            let mut ll = *lleft.unwrap();
            let ghost gll = ll;
            ll.color = Color::Black;
            let ghost glb = ll;
            let mut new_self = Node { size: 0, color: Color::Black, key, value, left: lright, right };
            proof {
                assert(gs.left is Some && gl == gs.left.unwrap());
                assert(gl.left is Some && gll == gl.left.unwrap());
                lemma_opt_unfold(gs.left);
                lemma_opt_unfold(gl.left);
                assert(gs.ordered() && gl.ordered() && gll.ordered());
                assert(gs.sizes_ok() && gl.sizes_ok() && gll.sizes_ok());
                assert(gs.black_balanced() && gl.black_balanced() && gll.black_balanced());
                assert(!gl.no_red_red());
                assert(opt_no_red_red(gs.right));
                assert(opt_no_red_red(gl.right));
                assert(gll.no_red_red());
                assert(gs.count() <= usize::MAX);
                assert(gs.count() == 1 + gl.count() + opt_count(gs.right));
                assert(gl.count() == 1 + gll.count() + opt_count(gl.right));
                assert(new_self.count() == 1 + opt_count(gl.right) + opt_count(gs.right));
            }
            new_self.update_size();
            let ghost gns = new_self;
            let mut new_root = Node {
                size: 0,
                color: Color::Red,
                key: lkey,
                value: lvalue,
                left: Some(Box::new(ll)),
                right: Some(Box::new(new_self)),
            };
            proof {
                assert(glb.count() == gll.count());
                assert(glb.sizes_ok());
                assert(new_root.count() == 1 + glb.count() + gns.count());
            }
            new_root.update_size();
            proof {
                // ordering facts
                assert(gl.as_map().dom().contains(lkey));
                assert(gll.as_map().dom().contains(gll.key));
                assert(lkey < key);
                assert(glb.as_map() == gll.as_map());
                assert(gns.as_map() == opt_map(gl.right).union_prefer_right(
                    opt_map(gs.right),
                ).insert(key, value));
                assert(forall|k: u64| opt_map(gl.left).dom().contains(k) ==> k < lkey);
                assert forall|k: u64| opt_map(gl.right).dom().contains(k) implies k > lkey && k
                    < key by {
                    assert(gl.as_map().dom().contains(k));
                    assert(opt_map(gs.left).dom().contains(k));
                }
                assert(forall|k: u64| opt_map(gs.right).dom().contains(k) ==> k > key);
                assert(glb.ordered());
                assert(gns.ordered());
                assert(new_root.ordered());
                assert(new_root.as_map() =~= gs.as_map());
                // colors
                assert(glb.no_red_red());
                assert(gns.no_red_red());
                assert(new_root.no_red_red());
                // black heights
                assert(glb.black_height() == gll.black_height() + 1);
                assert(glb.black_balanced());
                assert(gns.black_height() == opt_black_height(gl.right) + 1);
                assert(gns.black_balanced());
                assert(new_root.black_balanced());
                assert(new_root.black_height() == gs.black_height());
                assert(new_root.count() == gs.count());
            }
            new_root
        } else if is_black && l_red && lr_red {
            // Left-right double rotation: promote the left child's right child.
            let Node { size: _, color: _, key, value, left, right } = self;
            let l = *left.unwrap();
            let ghost gl = l;
            let Node { size: _, color: _, key: lkey, value: lvalue, left: lleft, right: lright } =
                l;
            let lr = *lright.unwrap();
            let ghost glr = lr;
            let Node {
                size: _,
                color: _,
                key: lrkey,
                value: lrvalue,
                left: lrleft,
                right: lrright,
            } = lr;
            let mut new_left = Node {
                size: 0,
                color: Color::Black,
                key: lkey,
                value: lvalue,
                left: lleft,
                right: lrleft,
            };
            proof {
                assert(gs.left is Some && gl == gs.left.unwrap());
                assert(gl.right is Some && glr == gl.right.unwrap());
                lemma_opt_unfold(gs.left);
                lemma_opt_unfold(gl.right);
                assert(gs.ordered() && gl.ordered() && glr.ordered());
                assert(gs.sizes_ok() && gl.sizes_ok() && glr.sizes_ok());
                assert(gs.black_balanced() && gl.black_balanced() && glr.black_balanced());
                assert(!gl.no_red_red());
                assert(opt_no_red_red(gs.right));
                assert(opt_no_red_red(gl.left));
                assert(glr.no_red_red());
                assert(gs.count() <= usize::MAX);
                assert(gs.count() == 1 + gl.count() + opt_count(gs.right));
                assert(gl.count() == 1 + opt_count(gl.left) + glr.count());
                assert(glr.count() == 1 + opt_count(glr.left) + opt_count(glr.right));
                assert(new_left.count() == 1 + opt_count(gl.left) + opt_count(glr.left));
            }
            new_left.update_size();
            let ghost gnl = new_left;
            let mut new_self = Node {
                size: 0,
                color: Color::Black,
                key,
                value,
                left: lrright,
                right,
            };
            proof {
                assert(new_self.count() == 1 + opt_count(glr.right) + opt_count(gs.right));
            }
            new_self.update_size();
            let ghost gns = new_self;
            let mut new_root = Node {
                size: 0,
                color: Color::Red,
                key: lrkey,
                value: lrvalue,
                left: Some(Box::new(new_left)),
                right: Some(Box::new(new_self)),
            };
            proof {
                assert(new_root.count() == 1 + gnl.count() + gns.count());
            }
            new_root.update_size();
            proof {
                // ordering facts
                assert(gl.as_map().dom().contains(lkey));
                assert(glr.as_map().dom().contains(lrkey));
                assert(opt_map(gl.right).dom().contains(lrkey));
                assert(gl.as_map().dom().contains(lrkey));
                assert(opt_map(gs.left).dom().contains(lrkey));
                assert(lkey < key);
                assert(lrkey < key);
                assert(lrkey > lkey);
                assert(gnl.as_map() == opt_map(gl.left).union_prefer_right(
                    opt_map(glr.left),
                ).insert(lkey, lvalue));
                assert(gns.as_map() == opt_map(glr.right).union_prefer_right(
                    opt_map(gs.right),
                ).insert(key, value));
                assert(forall|k: u64| opt_map(gl.left).dom().contains(k) ==> k < lkey);
                assert forall|k: u64| opt_map(glr.left).dom().contains(k) implies k > lkey && k
                    < lrkey by {
                    assert(glr.as_map().dom().contains(k));
                    assert(opt_map(gl.right).dom().contains(k));
                }
                assert forall|k: u64| opt_map(glr.right).dom().contains(k) implies k > lrkey && k
                    < key by {
                    assert(glr.as_map().dom().contains(k));
                    assert(opt_map(gl.right).dom().contains(k));
                    assert(gl.as_map().dom().contains(k));
                    assert(opt_map(gs.left).dom().contains(k));
                }
                assert(forall|k: u64| opt_map(gs.right).dom().contains(k) ==> k > key);
                assert(gnl.ordered());
                assert(gns.ordered());
                assert(new_root.ordered());
                assert(new_root.as_map() =~= gs.as_map());
                // colors
                assert(gnl.no_red_red());
                assert(gns.no_red_red());
                assert(new_root.no_red_red());
                // black heights
                assert(gnl.black_height() == opt_black_height(gl.left) + 1);
                assert(gnl.black_balanced());
                assert(gns.black_height() == opt_black_height(glr.right) + 1);
                assert(gns.black_balanced());
                assert(new_root.black_balanced());
                assert(new_root.black_height() == gs.black_height());
                assert(new_root.count() == gs.count());
            }
            new_root
        } else if is_black && r_red && rr_red {
            // Left rotation: promote the right child.
            let Node { size: _, color: _, key, value, left, right } = self;
            let n = *right.unwrap();
            let ghost gr = n;
            let Node { size: _, color: _, key: rkey, value: rvalue, left: rleft, right: rright } =
                n;
            let mut rr = *rright.unwrap();
            let ghost grr = rr;
            rr.color = Color::Black;
            let ghost grb = rr;
            let mut new_self = Node { size: 0, color: Color::Black, key, value, left, right: rleft };
            proof {
                assert(gs.right is Some && gr == gs.right.unwrap());
                assert(gr.right is Some && grr == gr.right.unwrap());
                lemma_opt_unfold(gs.right);
                lemma_opt_unfold(gr.right);
                assert(gs.ordered() && gr.ordered() && grr.ordered());
                assert(gs.sizes_ok() && gr.sizes_ok() && grr.sizes_ok());
                assert(gs.black_balanced() && gr.black_balanced() && grr.black_balanced());
                assert(!gr.no_red_red());
                assert(opt_no_red_red(gs.left));
                assert(opt_no_red_red(gr.left));
                assert(grr.no_red_red());
                assert(gs.count() <= usize::MAX);
                assert(gs.count() == 1 + opt_count(gs.left) + gr.count());
                assert(gr.count() == 1 + opt_count(gr.left) + grr.count());
                assert(new_self.count() == 1 + opt_count(gs.left) + opt_count(gr.left));
            }
            new_self.update_size();
            let ghost gns = new_self;
            let mut new_root = Node {
                size: 0,
                color: Color::Red,
                key: rkey,
                value: rvalue,
                left: Some(Box::new(new_self)),
                right: Some(Box::new(rr)),
            };
            proof {
                assert(grb.count() == grr.count());
                assert(grb.sizes_ok());
                assert(new_root.count() == 1 + gns.count() + grb.count());
            }
            new_root.update_size();
            proof {
                // ordering facts
                assert(gr.as_map().dom().contains(rkey));
                assert(grr.as_map().dom().contains(grr.key));
                assert(rkey > key);
                assert(grb.as_map() == grr.as_map());
                assert(gns.as_map() == opt_map(gs.left).union_prefer_right(
                    opt_map(gr.left),
                ).insert(key, value));
                assert(forall|k: u64| opt_map(gr.right).dom().contains(k) ==> k > rkey);
                assert forall|k: u64| opt_map(gr.left).dom().contains(k) implies k > key && k
                    < rkey by {
                    assert(gr.as_map().dom().contains(k));
                    assert(opt_map(gs.right).dom().contains(k));
                }
                assert(forall|k: u64| opt_map(gs.left).dom().contains(k) ==> k < key);
                assert(grb.ordered());
                assert(gns.ordered());
                assert(new_root.ordered());
                assert(new_root.as_map() =~= gs.as_map());
                // colors
                assert(grb.no_red_red());
                assert(gns.no_red_red());
                assert(new_root.no_red_red());
                // black heights
                assert(grb.black_height() == grr.black_height() + 1);
                assert(grb.black_balanced());
                assert(gns.black_height() == opt_black_height(gs.left) + 1);
                assert(gns.black_balanced());
                assert(new_root.black_balanced());
                assert(new_root.black_height() == gs.black_height());
                assert(new_root.count() == gs.count());
            }
            new_root
        } else if is_black && r_red && rl_red {
            // Right-left double rotation: promote the right child's left child.
            let Node { size: _, color: _, key, value, left, right } = self;
            let n = *right.unwrap();
            let ghost gr = n;
            let Node { size: _, color: _, key: rkey, value: rvalue, left: rleft, right: rright } =
                n;
            let rl = *rleft.unwrap();
            let ghost grl = rl;
            let Node {
                size: _,
                color: _,
                key: rlkey,
                value: rlvalue,
                left: rlleft,
                right: rlright,
            } = rl;
            let mut new_self = Node {
                size: 0,
                color: Color::Black,
                key,
                value,
                left,
                right: rlleft,
            };
            proof {
                assert(gs.right is Some && gr == gs.right.unwrap());
                assert(gr.left is Some && grl == gr.left.unwrap());
                lemma_opt_unfold(gs.right);
                lemma_opt_unfold(gr.left);
                assert(gs.ordered() && gr.ordered() && grl.ordered());
                assert(gs.sizes_ok() && gr.sizes_ok() && grl.sizes_ok());
                assert(gs.black_balanced() && gr.black_balanced() && grl.black_balanced());
                assert(!gr.no_red_red());
                assert(opt_no_red_red(gs.left));
                assert(opt_no_red_red(gr.right));
                assert(grl.no_red_red());
                assert(gs.count() <= usize::MAX);
                assert(gs.count() == 1 + opt_count(gs.left) + gr.count());
                assert(gr.count() == 1 + grl.count() + opt_count(gr.right));
                assert(grl.count() == 1 + opt_count(grl.left) + opt_count(grl.right));
                assert(new_self.count() == 1 + opt_count(gs.left) + opt_count(grl.left));
            }
            new_self.update_size();
            let ghost gns = new_self;
            let mut new_right = Node {
                size: 0,
                color: Color::Black,
                key: rkey,
                value: rvalue,
                left: rlright,
                right: rright,
            };
            proof {
                assert(new_right.count() == 1 + opt_count(grl.right) + opt_count(gr.right));
            }
            new_right.update_size();
            let ghost gnr = new_right;
            let mut new_root = Node {
                size: 0,
                color: Color::Red,
                key: rlkey,
                value: rlvalue,
                left: Some(Box::new(new_self)),
                right: Some(Box::new(new_right)),
            };
            proof {
                assert(new_root.count() == 1 + gns.count() + gnr.count());
            }
            new_root.update_size();
            proof {
                // ordering facts
                assert(gr.as_map().dom().contains(rkey));
                assert(grl.as_map().dom().contains(rlkey));
                assert(opt_map(gr.left).dom().contains(rlkey));
                assert(gr.as_map().dom().contains(rlkey));
                assert(opt_map(gs.right).dom().contains(rlkey));
                assert(rkey > key);
                assert(rlkey > key);
                assert(rlkey < rkey);
                assert(gns.as_map() == opt_map(gs.left).union_prefer_right(
                    opt_map(grl.left),
                ).insert(key, value));
                assert(gnr.as_map() == opt_map(grl.right).union_prefer_right(
                    opt_map(gr.right),
                ).insert(rkey, rvalue));
                assert(forall|k: u64| opt_map(gs.left).dom().contains(k) ==> k < key);
                assert forall|k: u64| opt_map(grl.left).dom().contains(k) implies k > key && k
                    < rlkey by {
                    assert(grl.as_map().dom().contains(k));
                    assert(opt_map(gr.left).dom().contains(k));
                    assert(gr.as_map().dom().contains(k));
                    assert(opt_map(gs.right).dom().contains(k));
                }
                assert forall|k: u64| opt_map(grl.right).dom().contains(k) implies k > rlkey && k
                    < rkey by {
                    assert(grl.as_map().dom().contains(k));
                    assert(opt_map(gr.left).dom().contains(k));
                }
                assert(forall|k: u64| opt_map(gr.right).dom().contains(k) ==> k > rkey);
                assert(gns.ordered());
                assert(gnr.ordered());
                assert(new_root.ordered());
                assert(new_root.as_map() =~= gs.as_map());
                // colors
                assert(gns.no_red_red());
                assert(gnr.no_red_red());
                assert(new_root.no_red_red());
                // black heights
                assert(gns.black_height() == opt_black_height(gs.left) + 1);
                assert(gns.black_balanced());
                assert(gnr.black_height() == opt_black_height(grl.right) + 1);
                assert(gnr.black_balanced());
                assert(new_root.black_balanced());
                assert(new_root.black_height() == gs.black_height());
                assert(new_root.count() == gs.count());
            }
            new_root
        } else {
            // No pattern matches: the node is already locally valid.
            proof {
                if gs.color == Color::Black {
                    match gs.left {
                        None => {},
                        Some(l) => {
                            if l.color == Color::Red {
                                assert(!ll_red && !lr_red);
                                assert(opt_color(l.left) == Color::Black);
                                assert(opt_color(l.right) == Color::Black);
                            }
                            assert(l.no_red_red());
                        },
                    }
                    match gs.right {
                        None => {},
                        Some(n) => {
                            if n.color == Color::Red {
                                assert(!rl_red && !rr_red);
                                assert(opt_color(n.left) == Color::Black);
                                assert(opt_color(n.right) == Color::Black);
                            }
                            assert(n.no_red_red());
                        },
                    }
                    assert(gs.no_red_red());
                }
            }
            self
        }
    }
}

/// The subtree is a valid red-black tree except that its root, when red,
/// may have a red child: the one transient shape the insertion recursion
/// hands upward before rebalancing repairs it.
pub open spec fn opt_near_rb<V>(t: Option<Box<Node<V>>>) -> bool {
    match t {
        None => true,
        Some(n) => opt_no_red_red(n.left) && opt_no_red_red(n.right),
    }
}

/// Does the optional subtree hold the key?
fn opt_contains<V>(t: &Option<Box<Node<V>>>, key: u64) -> (r: bool)
    requires
        opt_ordered(*t),
    ensures
        r == opt_map(*t).dom().contains(key),
    decreases t,
{
    match t {
        None => false,
        Some(n) => {
            if key == n.key {
                true
            } else if key < n.key {
                proof {
                    assert(!opt_map(n.right).dom().contains(key));
                }
                opt_contains(&n.left, key)
            } else {
                proof {
                    assert(!opt_map(n.left).dom().contains(key));
                }
                opt_contains(&n.right, key)
            }
        },
    }
}

/// Does the optional subtree have a red root?
fn opt_is_red<V>(t: &Option<Box<Node<V>>>) -> (r: bool)
    ensures
        r == (opt_color(*t) == Color::Red),
{
    match t {
        None => false,
        Some(n) => n.color == Color::Red,
    }
}

impl<V> View for RedBlackTree<V> {
    type V = Map<u64, V>;

    open spec fn view(&self) -> Map<u64, V> {
        opt_map(self.root)
    }
}

impl<V> RedBlackTree<V> {
    /// The tree is a valid red-black tree with a black root. Holds after
    /// construction and after every operation.
    pub open spec fn inv(self) -> bool {
        &&& opt_rb_valid(self.root)
        &&& opt_color(self.root) == Color::Black
    }

    /// The in-order sequence of the tree's keys.
    pub open spec fn in_order_keys(self) -> Seq<u64> {
        opt_key_seq(self.root)
    }

    /// An empty tree.
    pub fn new() -> (r: Self)
        ensures
            r.inv(),
            r@ == Map::<u64, V>::empty(),
    {
        RedBlackTree { root: None }
    }

    /// The number of keys in the tree.
    pub fn size(&self) -> (r: usize)
        requires
            self.inv(),
        ensures
            r == self@.len(),
    {
        proof {
            lemma_opt_map_len(self.root);
        }
        match &self.root {
            None => 0,
            Some(n) => n.size,
        }
    }

    /// Insert a key-value pair. If the key is already present, nothing at
    /// all changes and `Err(DuplicateKeyError)` is returned; otherwise the
    /// binding is added, the tree is rebalanced along the insertion path,
    /// and `Ok(())` is returned.
    pub fn insert(&mut self, key: u64, value: V) -> (res: Result<(), DuplicateKeyError>)
        requires
            old(self).inv(),
            old(self)@.len() < usize::MAX,
        ensures
            final(self).inv(),
            match res {
                Ok(_) => !old(self)@.dom().contains(key) && final(self)@ == old(self)@.insert(
                    key,
                    value,
                ),
                Err(_) => old(self)@.dom().contains(key) && *final(self) == *old(self),
            },
    {
        proof {
            lemma_opt_map_len(self.root);
        }
        if opt_contains(&self.root, key) {
            return Err(DuplicateKeyError);
        }
        match self.root.take() {
            None => {
                let n = Node::new(Color::Black, key, value);
                self.root = Some(Box::new(n));
                proof {
                    assert(self@ == n.as_map());
                    assert(old(self)@ =~= Map::<u64, V>::empty());
                    assert(self@ =~= old(self)@.insert(key, value));
                }
                Ok(())
            },
            Some(b) => {
                let n = *b;
                let ghost gn = n;
                proof {
                    assert(old(self).root is Some && gn == old(self).root.unwrap());
                    lemma_opt_unfold(old(self).root);
                    assert(gn.rb_valid());
                    assert(gn.count() < usize::MAX);
                }
                let n2 = n.insert(key, value);
                let ghost gn2 = n2;
                let n3 = n2.make_black();
                let ghost gn3 = n3;
                self.root = Some(Box::new(n3));
                proof {
                    assert(gn3.as_map() == gn2.as_map());
                    assert(gn3.count() == gn2.count());
                    assert(gn3.ordered());
                    assert(gn3.sizes_ok());
                    assert(gn3.black_balanced());
                    assert(gn.color == Color::Black);
                    assert(gn2.no_red_red());
                    assert(gn3.no_red_red());
                    assert(self.inv());
                    assert(self@ == old(self)@.insert(key, value));
                }
                Ok(())
            },
        }
    }

    /// True iff the tree holds no keys.
    pub fn is_empty(&self) -> (r: bool)
        requires
            self.inv(),
        ensures
            r == (self@ == Map::<u64, V>::empty()),
    {
        match &self.root {
            None => {
                proof {
                    assert(self@ =~= Map::<u64, V>::empty());
                }
                true
            },
            Some(n) => {
                proof {
                    assert(self@.dom().contains(n.key));
                }
                false
            },
        }
    }
}

/// The in-order key sequence of an optional subtree.
pub open spec fn opt_key_seq<V>(t: Option<Box<Node<V>>>) -> Seq<u64>
    decreases t,
{
    match t {
        None => Seq::empty(),
        Some(n) => opt_key_seq(n.left) + seq![n.key] + opt_key_seq(n.right),
    }
}

/// In an ordered subtree, the in-order key sequence is strictly
/// increasing, has one entry per node, and lists exactly the keys of the
/// subtree's map.
proof fn lemma_opt_key_seq<V>(t: Option<Box<Node<V>>>)
    requires
        opt_ordered(t),
    ensures
        opt_key_seq(t).len() == opt_count(t),
        forall|k: u64| opt_key_seq(t).contains(k) <==> opt_map(t).dom().contains(k),
        forall|i: int, j: int|
            0 <= i < j < opt_key_seq(t).len() ==> opt_key_seq(t)[i] < opt_key_seq(t)[j],
    decreases t,
{
    match t {
        None => {
            assert(opt_key_seq(t) =~= Seq::<u64>::empty());
            assert(opt_map(t).dom() =~= Set::<u64>::empty());
            assert forall|k: u64| opt_key_seq(t).contains(k) <==> opt_map(t).dom().contains(
                k,
            ) by {
                assert(!opt_key_seq(t).contains(k));
            }
        },
        Some(n) => {
            lemma_opt_key_seq(n.left);
            lemma_opt_key_seq(n.right);
            let s = opt_key_seq(t);
            let sl = opt_key_seq(n.left);
            let sr = opt_key_seq(n.right);
            assert(s == sl + seq![n.key] + sr);
            assert(s.len() == sl.len() + 1 + sr.len());
            assert forall|k: u64| s.contains(k) implies opt_map(t).dom().contains(k) by {
                let i = choose|i: int| 0 <= i < s.len() && s[i] == k;
                if i < sl.len() {
                    assert(sl[i] == k);
                    assert(sl.contains(k));
                    assert(opt_map(n.left).dom().contains(k));
                } else if i == sl.len() {
                    assert(k == n.key);
                } else {
                    assert(sr[i - sl.len() - 1] == k);
                    assert(sr.contains(k));
                    assert(opt_map(n.right).dom().contains(k));
                }
            }
            assert forall|k: u64| opt_map(t).dom().contains(k) implies s.contains(k) by {
                if opt_map(n.left).dom().contains(k) {
                    assert(sl.contains(k));
                    let i = choose|i: int| 0 <= i < sl.len() && sl[i] == k;
                    assert(s[i] == k);
                    assert(s.contains(k));
                } else if opt_map(n.right).dom().contains(k) {
                    assert(sr.contains(k));
                    let i = choose|i: int| 0 <= i < sr.len() && sr[i] == k;
                    assert(s[sl.len() + 1 + i] == k);
                    assert(s.contains(k));
                } else {
                    assert(k == n.key);
                    assert(s[sl.len() as int] == k);
                    assert(s.contains(k));
                }
            }
            assert forall|i: int, j: int| 0 <= i < j < s.len() implies s[i] < s[j] by {
                if j < sl.len() {
                    assert(s[i] == sl[i] && s[j] == sl[j]);
                } else if i < sl.len() {
                    assert(s[i] == sl[i]);
                    assert(sl.contains(sl[i]));
                    assert(opt_map(n.left).dom().contains(s[i]));
                    assert(s[i] < n.key);
                    if j == sl.len() {
                        assert(s[j] == n.key);
                    } else {
                        assert(s[j] == sr[j - sl.len() - 1]);
                        assert(sr.contains(s[j]));
                        assert(opt_map(n.right).dom().contains(s[j]));
                        assert(s[j] > n.key);
                    }
                } else if i == sl.len() {
                    assert(s[i] == n.key);
                    assert(s[j] == sr[j - sl.len() - 1]);
                    assert(sr.contains(s[j]));
                    assert(opt_map(n.right).dom().contains(s[j]));
                    assert(s[j] > n.key);
                } else {
                    assert(s[i] == sr[i - sl.len() - 1] && s[j] == sr[j - sl.len() - 1]);
                }
            }
        },
    }
}

/// The map obtained by inserting each entry of the sequence in turn,
/// starting from the empty map.
pub open spec fn map_of_entries<V>(entries: Seq<(u64, V)>) -> Map<u64, V>
    decreases entries.len(),
{
    if entries.len() == 0 {
        Map::empty()
    } else {
        map_of_entries(entries.drop_last()).insert(entries.last().0, entries.last().1)
    }
}

/// Law: a successful `insert` turns a tree's map `m` into
/// `m.insert(key, value)`, so a fresh tree into which N entries with
/// distinct keys were inserted successfully, in any order, holds the map
/// `map_of_entries` of those entries; this lemma states that that map has
/// exactly N keys — which is then what `size` returns.
pub proof fn lemma_distinct_inserts_count<V>(entries: Seq<(u64, V)>)
    requires
        forall|i: int, j: int| 0 <= i < j < entries.len() ==> entries[i].0 != entries[j].0,
    ensures
        map_of_entries(entries).dom().finite(),
        map_of_entries(entries).len() == entries.len(),
        forall|k: u64|
            map_of_entries(entries).dom().contains(k) <==> exists|i: int|
                0 <= i < entries.len() && entries[i].0 == k,
    decreases entries.len(),
{
    if entries.len() == 0 {
        assert(map_of_entries(entries).dom() =~= Set::<u64>::empty());
        assert forall|k: u64|
            map_of_entries(entries).dom().contains(k) <==> exists|i: int|
                0 <= i < entries.len() && entries[i].0 == k by {
            assert(!map_of_entries(entries).dom().contains(k));
        }
    } else {
        let prefix = entries.drop_last();
        let last = entries.last();
        lemma_distinct_inserts_count(prefix);
        assert(!map_of_entries(prefix).dom().contains(last.0)) by {
            if map_of_entries(prefix).dom().contains(last.0) {
                let i = choose|i: int| 0 <= i < prefix.len() && prefix[i].0 == last.0;
                assert(entries[i].0 == entries[entries.len() - 1].0);
            }
        }
        assert(map_of_entries(entries) == map_of_entries(prefix).insert(last.0, last.1));
        assert(map_of_entries(entries).dom() =~= map_of_entries(prefix).dom().insert(last.0));
        assert forall|k: u64|
            map_of_entries(entries).dom().contains(k) <==> exists|i: int|
                0 <= i < entries.len() && entries[i].0 == k by {
            if map_of_entries(entries).dom().contains(k) {
                if k == last.0 {
                    assert(entries[entries.len() - 1].0 == k);
                } else {
                    let i = choose|i: int| 0 <= i < prefix.len() && prefix[i].0 == k;
                    assert(entries[i].0 == k);
                }
            }
            if exists|i: int| 0 <= i < entries.len() && entries[i].0 == k {
                let i = choose|i: int| 0 <= i < entries.len() && entries[i].0 == k;
                if i == entries.len() - 1 {
                    assert(k == last.0);
                } else {
                    assert(prefix[i].0 == k);
                }
            }
        }
    }
}

/// Each property of a present optional subtree is the corresponding
/// property of its root node.
proof fn lemma_opt_unfold<V>(t: Option<Box<Node<V>>>)
    requires
        t is Some,
    ensures
        opt_map(t) == t.unwrap().as_map(),
        opt_count(t) == t.unwrap().count(),
        opt_color(t) == t.unwrap().color,
        opt_ordered(t) == t.unwrap().ordered(),
        opt_sizes_ok(t) == t.unwrap().sizes_ok(),
        opt_no_red_red(t) == t.unwrap().no_red_red(),
        opt_black_height(t) == t.unwrap().black_height(),
        opt_black_balanced(t) == t.unwrap().black_balanced(),
{
}

/// Law: in a valid tree, the in-order traversal of the keys is strictly
/// increasing and lists exactly the keys of the tree's map — none lost,
/// none duplicated, none reordered — one entry per held key.
pub proof fn lemma_in_order_keys<V>(t: RedBlackTree<V>)
    requires
        t.inv(),
    ensures
        forall|i: int, j: int|
            0 <= i < j < t.in_order_keys().len() ==> t.in_order_keys()[i] < t.in_order_keys()[j],
        forall|k: u64| t.in_order_keys().contains(k) <==> t@.dom().contains(k),
        t.in_order_keys().len() == t@.len(),
{
    lemma_opt_key_seq(t.root);
    lemma_opt_map_len(t.root);
}

/// An ordered subtree holds as many distinct keys as it has nodes.
proof fn lemma_opt_map_len<V>(t: Option<Box<Node<V>>>)
    requires
        opt_ordered(t),
    ensures
        opt_map(t).dom().finite(),
        opt_map(t).dom().len() == opt_count(t),
    decreases t,
{
    match t {
        None => {
            assert(opt_map(t).dom() =~= Set::<u64>::empty());
        },
        Some(n) => {
            lemma_opt_map_len(n.left);
            lemma_opt_map_len(n.right);
            let lm = opt_map(n.left);
            let rm = opt_map(n.right);
            assert(lm.dom().disjoint(rm.dom()));
            vstd::map_lib::lemma_disjoint_union_size(lm, rm);
            vstd::map_lib::lemma_union_dom(lm, rm);
            let u = lm.union_prefer_right(rm);
            assert(!u.dom().contains(n.key));
            assert(u.insert(n.key, n.value).dom() =~= u.dom().insert(n.key));
        },
    }
}

} // verus!
