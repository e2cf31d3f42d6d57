//! A persistent red-black tree.
//!
//! Every "mutator" returns a new tree that shares unchanged subtrees
//! with the old one.  The mathematical model of a tree is the
//! [`SpecTree`] mirror of its node structure, and each operation's
//! contract states the exact model of its result; the ordering-based
//! operations are pinned down whenever the element type's comparison
//! obeys its specification.

use std::rc::Rc;
use vstd::prelude::*;
use vstd::std_specs::cmp::{PartialOrdSpec, PartialEqSpec};

verus! {

/// The colour of a node; the empty tree counts as black.
#[derive(Debug, Copy, Clone, PartialEq, Eq, Structural)]
pub enum Colour {
    Red,
    Black,
}

#[derive(Debug)]
enum RBNode<T> {
    Empty,
    Node(Colour, Rc<T>, Rc<RBNode<T>>, Rc<RBNode<T>>),
}

/// The mathematical model of a red-black tree.
#[verifier::ext_equal]
pub ghost enum SpecTree<T> {
    Leaf,
    Node(Colour, T, Box<SpecTree<T>>, Box<SpecTree<T>>),
}

/// The model of a node structure.
spec fn node_view<T>(n: RBNode<T>) -> SpecTree<T>
    decreases n,
{
    match n {
        RBNode::Empty => SpecTree::Leaf,
        RBNode::Node(c, v, l, r) => SpecTree::Node(
            c,
            *v,
            Box::new(node_view(*l)),
            Box::new(node_view(*r)),
        ),
    }
}

/// A persistent red-black tree.
#[derive(Debug)]
pub struct RBTree<T> {
    root: Rc<RBNode<T>>,
}

impl<T> View for RBTree<T> {
    type V = SpecTree<T>;

    closed spec fn view(&self) -> SpecTree<T> {
        node_view(*self.root)
    }
}

impl<T> SpecTree<T> {
    /// The root value, when there is one.
    pub open spec fn spec_root(self) -> Option<T> {
        match self {
            SpecTree::Leaf => None,
            SpecTree::Node(_c, v, _l, _r) => Some(v),
        }
    }

    /// The root colour; an empty tree is black.
    pub open spec fn spec_colour(self) -> Colour {
        match self {
            SpecTree::Leaf => Colour::Black,
            SpecTree::Node(c, _v, _l, _r) => c,
        }
    }

    /// The left subtree of a non-empty tree.
    pub open spec fn spec_left(self) -> SpecTree<T>
        recommends
            self is Node,
    {
        match self {
            SpecTree::Leaf => SpecTree::Leaf,
            SpecTree::Node(_c, _v, l, _r) => *l,
        }
    }

    /// The right subtree of a non-empty tree.
    pub open spec fn spec_right(self) -> SpecTree<T>
        recommends
            self is Node,
    {
        match self {
            SpecTree::Leaf => SpecTree::Leaf,
            SpecTree::Node(_c, _v, _l, r) => *r,
        }
    }

    /// A red node whose left child is also red.
    pub open spec fn spec_doubled_left(self) -> bool {
        &&& self is Node
        &&& self.spec_colour() == Colour::Red
        &&& self.spec_left() is Node
        &&& self.spec_left().spec_colour() == Colour::Red
    }

    /// A red node whose right child is also red.
    pub open spec fn spec_doubled_right(self) -> bool {
        &&& self is Node
        &&& self.spec_colour() == Colour::Red
        &&& self.spec_right() is Node
        &&& self.spec_right().spec_colour() == Colour::Red
    }
}

/// The rebalancing step: a black node with a doubled-red child on
/// either side is rearranged into a red node over two black children;
/// any other combination is rebuilt unchanged.
pub open spec fn spec_balance<T>(c: Colour, x: T, l: SpecTree<T>, r: SpecTree<T>) -> SpecTree<T> {
    if c == Colour::Black && l.spec_doubled_left() {
        SpecTree::Node(
            Colour::Red,
            l.spec_root()->Some_0,
            Box::new(spec_paint(l.spec_left(), Colour::Black)),
            Box::new(SpecTree::Node(Colour::Black, x, Box::new(l.spec_right()), Box::new(r))),
        )
    } else if c == Colour::Black && l.spec_doubled_right() {
        SpecTree::Node(
            Colour::Red,
            l.spec_right().spec_root()->Some_0,
            Box::new(
                SpecTree::Node(
                    Colour::Black,
                    l.spec_root()->Some_0,
                    Box::new(l.spec_left()),
                    Box::new(l.spec_right().spec_left()),
                ),
            ),
            Box::new(
                SpecTree::Node(
                    Colour::Black,
                    x,
                    Box::new(l.spec_right().spec_right()),
                    Box::new(r),
                ),
            ),
        )
    } else if c == Colour::Black && r.spec_doubled_left() {
        SpecTree::Node(
            Colour::Red,
            r.spec_left().spec_root()->Some_0,
            Box::new(
                SpecTree::Node(Colour::Black, x, Box::new(l), Box::new(r.spec_left().spec_left())),
            ),
            Box::new(
                SpecTree::Node(
                    Colour::Black,
                    r.spec_root()->Some_0,
                    Box::new(r.spec_left().spec_right()),
                    Box::new(r.spec_right()),
                ),
            ),
        )
    } else if c == Colour::Black && r.spec_doubled_right() {
        SpecTree::Node(
            Colour::Red,
            r.spec_root()->Some_0,
            Box::new(SpecTree::Node(Colour::Black, x, Box::new(l), Box::new(r.spec_left()))),
            Box::new(spec_paint(r.spec_right(), Colour::Black)),
        )
    } else {
        SpecTree::Node(c, x, Box::new(l), Box::new(r))
    }
}

/// Repainting the root of a non-empty tree.
pub open spec fn spec_paint<T>(t: SpecTree<T>, c: Colour) -> SpecTree<T>
    recommends
        t is Node,
{
    match t {
        SpecTree::Leaf => SpecTree::Leaf,
        SpecTree::Node(_old, v, l, r) => SpecTree::Node(c, v, l, r),
    }
}

/// Sorted insertion without rebalancing at the root: the result of the
/// recursive descent, before the root is painted black.
pub open spec fn spec_ins<T: PartialOrd>(t: SpecTree<T>, x: T) -> SpecTree<T>
    decreases t,
{
    match t {
        SpecTree::Leaf => SpecTree::Node(
            Colour::Red,
            x,
            Box::new(SpecTree::Leaf),
            Box::new(SpecTree::Leaf),
        ),
        SpecTree::Node(c, y, l, r) => {
            if x.partial_cmp_spec(&y) == Some(core::cmp::Ordering::Less) {
                spec_balance(c, y, spec_ins(*l, x), *r)
            } else if x.partial_cmp_spec(&y) == Some(core::cmp::Ordering::Greater) {
                spec_balance(c, y, *l, spec_ins(*r, x))
            } else {
                SpecTree::Node(c, y, l, r)
            }
        },
    }
}

/// Sorted insertion that replaces the stored value when an equal one
/// is found, before the root is painted black.
pub open spec fn spec_ins_or_rep<T: PartialOrd>(t: SpecTree<T>, x: T) -> SpecTree<T>
    decreases t,
{
    match t {
        SpecTree::Leaf => SpecTree::Node(
            Colour::Red,
            x,
            Box::new(SpecTree::Leaf),
            Box::new(SpecTree::Leaf),
        ),
        SpecTree::Node(c, y, l, r) => {
            if x.partial_cmp_spec(&y) == Some(core::cmp::Ordering::Less) {
                spec_balance(c, y, spec_ins_or_rep(*l, x), *r)
            } else if x.partial_cmp_spec(&y) == Some(core::cmp::Ordering::Greater) {
                spec_balance(c, y, *l, spec_ins_or_rep(*r, x))
            } else {
                SpecTree::Node(c, x, l, r)
            }
        },
    }
}

/// Insertion as the callers see it: the descent's result with a black
/// root.
pub open spec fn spec_inserted<T: PartialOrd>(t: SpecTree<T>, x: T) -> SpecTree<T> {
    spec_paint(spec_ins(t, x), Colour::Black)
}

/// Insert-or-replace as the callers see it.
pub open spec fn spec_inserted_or_replaced<T: PartialOrd>(t: SpecTree<T>, x: T) -> SpecTree<T> {
    spec_paint(spec_ins_or_rep(t, x), Colour::Black)
}

/// Whether a value equal to `x` is in the tree, following the sorted
/// structure.
pub open spec fn spec_contains<T, U>(t: SpecTree<T>, x: U) -> bool where T: PartialOrd<U>
    decreases t,
{
    match t {
        SpecTree::Leaf => false,
        SpecTree::Node(_c, y, l, r) => {
            if y.partial_cmp_spec(&x) == Some(core::cmp::Ordering::Greater) {
                spec_contains(*l, x)
            } else if y.partial_cmp_spec(&x) == Some(core::cmp::Ordering::Less) {
                spec_contains(*r, x)
            } else {
                true
            }
        },
    }
}

/// The stored value that compares equal to `x`, if any.
pub open spec fn spec_get<T, U>(t: SpecTree<T>, x: U) -> Option<T> where T: PartialOrd<U>
    decreases t,
{
    match t {
        SpecTree::Leaf => None,
        SpecTree::Node(_c, y, l, r) => {
            if y.partial_cmp_spec(&x) == Some(core::cmp::Ordering::Greater) {
                spec_get(*l, x)
            } else if y.partial_cmp_spec(&x) == Some(core::cmp::Ordering::Less) {
                spec_get(*r, x)
            } else {
                Some(y)
            }
        },
    }
}

impl<T> Clone for RBTree<T> {
    /// Cloning shares the whole structure, so the model is unchanged.
    fn clone(&self) -> (r: Self)
        ensures
            r@ == self@,
    {
        RBTree { root: self.root.clone() }
    }
}

impl<T> RBTree<T> {
    /// The empty tree.
    pub fn new() -> (r: Self)
        ensures
            r@ == SpecTree::<T>::Leaf,
    {
        RBTree { root: Rc::new(RBNode::Empty) }
    }

    /// A red node holding `value` over two empty subtrees.
    pub fn leaf(value: T) -> (r: Self)
        ensures
            r@ == SpecTree::Node(
                Colour::Red,
                value,
                Box::new(SpecTree::<T>::Leaf),
                Box::new(SpecTree::<T>::Leaf),
            ),
    {
        let r = RBTree {
            root: Rc::new(
                RBNode::Node(
                    Colour::Red,
                    Rc::new(value),
                    Rc::new(RBNode::Empty),
                    Rc::new(RBNode::Empty),
                ),
            ),
        };
        proof {
            assert(node_view(RBNode::<T>::Empty) == SpecTree::<T>::Leaf);
            assert(r@ =~= SpecTree::Node(
                Colour::Red,
                value,
                Box::new(SpecTree::<T>::Leaf),
                Box::new(SpecTree::<T>::Leaf),
            ));
        }
        r
    }

    /// A node with the given colour, value and subtrees; the subtrees
    /// are shared, not copied.
    pub fn tree(colour: Colour, value: T, left: &Self, right: &Self) -> (r: Self)
        ensures
            r@ == SpecTree::Node(colour, value, Box::new(left@), Box::new(right@)),
    {
        RBTree {
            root: Rc::new(
                RBNode::Node(colour, Rc::new(value), left.root.clone(), right.root.clone()),
            ),
        }
    }

    /// The tree whose root is an existing node.
    fn from_node(node: &Rc<RBNode<T>>) -> (r: Self)
        ensures
            r@ == node_view(**node),
            r.root == *node,
    {
        RBTree { root: node.clone() }
    }

    /// Whether the tree has no nodes.
    pub fn is_empty(&self) -> (r: bool)
        ensures
            r == (self@ is Leaf),
    {
        match &*self.root {
            RBNode::Empty => true,
            _ => false,
        }
    }

    /// The root value, or `None` for the empty tree.
    pub fn root(&self) -> (r: Option<&T>)
        ensures
            match r {
                None => self@ is Leaf,
                Some(v) => self@ is Node && self@.spec_root() == Some(*v),
            },
    {
        match &*self.root {
            RBNode::Empty => None,
            RBNode::Node(_c, v, _l, _r) => Some(&**v),
        }
    }

    /// The root colour; the empty tree counts as black.
    pub fn root_colour(&self) -> (r: Colour)
        ensures
            r == self@.spec_colour(),
    {
        match &*self.root {
            RBNode::Empty => Colour::Black,
            RBNode::Node(c, _v, _l, _r) => *c,
        }
    }

    /// The left subtree of a non-empty tree.
    pub fn left(&self) -> (r: Self)
        requires
            self@ is Node,
        ensures
            r@ == self@.spec_left(),
    {
        match &*self.root {
            RBNode::Empty => unreached(),
            RBNode::Node(_c, _v, l, _r) => RBTree::from_node(l),
        }
    }

    /// The right subtree of a non-empty tree.
    pub fn right(&self) -> (r: Self)
        requires
            self@ is Node,
        ensures
            r@ == self@.spec_right(),
    {
        match &*self.root {
            RBNode::Empty => unreached(),
            RBNode::Node(_c, _v, _l, r) => RBTree::from_node(r),
        }
    }

    /// A red node whose left child is also red.
    fn doubled_left(&self) -> (r: bool)
        ensures
            r == self@.spec_doubled_left(),
    {
        if self.is_empty() {
            return false;
        }
        if !matches!(self.root_colour(), Colour::Red) {
            return false;
        }
        let l = self.left();
        if l.is_empty() {
            return false;
        }
        matches!(l.root_colour(), Colour::Red)
    }

    /// A red node whose right child is also red.
    fn doubled_right(&self) -> (r: bool)
        ensures
            r == self@.spec_doubled_right(),
    {
        if self.is_empty() {
            return false;
        }
        if !matches!(self.root_colour(), Colour::Red) {
            return false;
        }
        let rt = self.right();
        if rt.is_empty() {
            return false;
        }
        matches!(rt.root_colour(), Colour::Red)
    }

    /// The same tree with its root repainted.
    fn paint(&self, c: Colour) -> (r: Self)
        requires
            self@ is Node,
        ensures
            r@ == spec_paint(self@, c),
    {
        match &*self.root {
            RBNode::Empty => unreached(),
            RBNode::Node(_old, v, l, r) => RBTree {
                root: Rc::new(RBNode::Node(c, v.clone(), l.clone(), r.clone())),
            },
        }
    }
}

impl<T: PartialOrd> RBTree<T> {
    /// The tree with `x` inserted; a value already present under the
    /// ordering is left in place.  The result is pinned down whenever
    /// the element type's comparison obeys its specification.
    pub fn inserted(&self, x: T) -> (r: Self)
        ensures
            T::obeys_partial_cmp_spec() ==> r@ == spec_inserted(self@, x),
    {
        let t = self.ins(Rc::new(x));
        match &*t.root {
            RBNode::Empty => unreached(),
            RBNode::Node(_c, v, l, r) => {
                let painted = RBTree {
                    root: Rc::new(RBNode::Node(Colour::Black, v.clone(), l.clone(), r.clone())),
                };
                painted
            },
        }
    }

    /// The tree with `x` inserted, replacing a value already present
    /// under the ordering.
    pub fn inserted_or_replaced(&self, x: T) -> (r: Self)
        ensures
            T::obeys_partial_cmp_spec() ==> r@ == spec_inserted_or_replaced(self@, x),
    {
        let t = self.ins_or_rep(Rc::new(x));
        match &*t.root {
            RBNode::Empty => unreached(),
            RBNode::Node(_c, v, l, r) => {
                let painted = RBTree {
                    root: Rc::new(RBNode::Node(Colour::Black, v.clone(), l.clone(), r.clone())),
                };
                painted
            },
        }
    }

    /// The recursive sorted descent of insertion.
    fn ins(&self, x: Rc<T>) -> (r: Self)
        ensures
            T::obeys_partial_cmp_spec() ==> r@ == spec_ins(self@, *x),
            r@ is Node,
        decreases *self.root,
    {
        match &*self.root {
            RBNode::Empty => {
                let r = RBTree {
                    root: Rc::new(
                        RBNode::Node(Colour::Red, x, Rc::new(RBNode::Empty), Rc::new(RBNode::Empty)),
                    ),
                };
                proof {
                    assert(node_view(RBNode::<T>::Empty) == SpecTree::<T>::Leaf);
                    assert(r@ =~= spec_ins(self@, *x));
                }
                r
            },
            RBNode::Node(c, y, left, right) => {
                if (*x).lt(&**y) {
                    let sub = RBTree::from_node(left).ins(x);
                    let r = balance(*c, y.clone(), &sub, &RBTree::from_node(right));
                    proof {
                        assert(T::obeys_partial_cmp_spec() ==> r@ =~= spec_ins(self@, *x));
                    }
                    r
                } else if (*x).gt(&**y) {
                    let sub = RBTree::from_node(right).ins(x);
                    let r = balance(*c, y.clone(), &RBTree::from_node(left), &sub);
                    proof {
                        assert(T::obeys_partial_cmp_spec() ==> r@ =~= spec_ins(self@, *x));
                    }
                    r
                } else {
                    RBTree { root: self.root.clone() }
                }
            },
        }
    }

    /// The recursive sorted descent of insert-or-replace.
    fn ins_or_rep(&self, x: Rc<T>) -> (r: Self)
        ensures
            T::obeys_partial_cmp_spec() ==> r@ == spec_ins_or_rep(self@, *x),
            r@ is Node,
        decreases *self.root,
    {
        match &*self.root {
            RBNode::Empty => {
                let r = RBTree {
                    root: Rc::new(
                        RBNode::Node(Colour::Red, x, Rc::new(RBNode::Empty), Rc::new(RBNode::Empty)),
                    ),
                };
                proof {
                    assert(node_view(RBNode::<T>::Empty) == SpecTree::<T>::Leaf);
                    assert(r@ =~= spec_ins_or_rep(self@, *x));
                }
                r
            },
            RBNode::Node(c, y, left, right) => {
                if (*x).lt(&**y) {
                    let sub = RBTree::from_node(left).ins_or_rep(x);
                    let r = balance(*c, y.clone(), &sub, &RBTree::from_node(right));
                    proof {
                        assert(T::obeys_partial_cmp_spec() ==> r@ =~= spec_ins_or_rep(self@, *x));
                    }
                    r
                } else if (*x).gt(&**y) {
                    let sub = RBTree::from_node(right).ins_or_rep(x);
                    let r = balance(*c, y.clone(), &RBTree::from_node(left), &sub);
                    proof {
                        assert(T::obeys_partial_cmp_spec() ==> r@ =~= spec_ins_or_rep(self@, *x));
                    }
                    r
                } else {
                    let r = RBTree {
                        root: Rc::new(RBNode::Node(*c, x, left.clone(), right.clone())),
                    };
                    proof {
                        if T::obeys_partial_cmp_spec() {
                            assert(r@ =~= spec_ins_or_rep(self@, *x));
                        }
                    }
                    r
                }
            },
        }
    }
}

impl<T> RBTree<T> {
    /// Whether a value equal to `x` is in the tree.
    pub fn contains<U>(&self, x: &U) -> (r: bool) where T: PartialOrd<U>
        ensures
            <T as PartialOrdSpec<U>>::obeys_partial_cmp_spec() ==> r == spec_contains(self@, *x),
    {
        rbnode_contains(&self.root, x)
    }

    /// The stored value equal to `x`, if any.
    pub fn get<'a, U>(&'a self, x: &U) -> (r: Option<&'a T>) where T: PartialOrd<U>
        ensures
            <T as PartialOrdSpec<U>>::obeys_partial_cmp_spec() ==> match spec_get(self@, *x) {
                None => r is None,
                Some(v) => r matches Some(rv) && *rv == v,
            },
    {
        match &*self.root {
            RBNode::Empty => None,
            RBNode::Node(_c, y, left, right) => {
                if (**y).gt(x) {
                    rbnode_get(left, x)
                } else if (**y).lt(x) {
                    rbnode_get(right, x)
                } else {
                    Some(&**y)
                }
            },
        }
    }

    /// The stored value equal to `x`, or `default` when there is none.
    pub fn get_or_default<'a, U>(&'a self, x: &U, default: &'a T) -> (r: &'a T) where
        T: PartialOrd<U>,

        ensures
            <T as PartialOrdSpec<U>>::obeys_partial_cmp_spec() ==> match spec_get(self@, *x) {
                None => r == default,
                Some(v) => *r == v,
            },
    {
        match self.get(x) {
            Some(v) => v,
            None => default,
        }
    }
}

/// The sorted membership descent on a shared node.
fn rbnode_contains<T, U>(node: &Rc<RBNode<T>>, x: &U) -> (r: bool) where T: PartialOrd<U>
    ensures
        <T as PartialOrdSpec<U>>::obeys_partial_cmp_spec() ==> r == spec_contains(
            node_view(**node),
            *x,
        ),
    decreases **node,
{
    match &**node {
        RBNode::Empty => false,
        RBNode::Node(_c, y, left, right) => {
            if (**y).gt(x) {
                rbnode_contains(left, x)
            } else if (**y).lt(x) {
                rbnode_contains(right, x)
            } else {
                true
            }
        },
    }
}

/// The lookup descent on a shared node, so that the returned reference
/// borrows from the node rather than from a temporary tree.
fn rbnode_get<'a, T, U>(node: &'a Rc<RBNode<T>>, x: &U) -> (r: Option<&'a T>) where
    T: PartialOrd<U>,

    ensures
        <T as PartialOrdSpec<U>>::obeys_partial_cmp_spec() ==> match spec_get(
            node_view(**node),
            *x,
        ) {
            None => r is None,
            Some(v) => r matches Some(rv) && *rv == v,
        },
    decreases **node,
{
    match &**node {
        RBNode::Empty => None,
        RBNode::Node(_c, y, left, right) => {
            if (**y).gt(x) {
                rbnode_get(left, x)
            } else if (**y).lt(x) {
                rbnode_get(right, x)
            } else {
                Some(&**y)
            }
        },
    }
}

/// A node from a shared value and shared subtrees.
fn tree_rc<T>(c: Colour, v: Rc<T>, l: &RBTree<T>, r: &RBTree<T>) -> (res: RBTree<T>)
    ensures
        res@ == SpecTree::Node(c, *v, Box::new(l@), Box::new(r@)),
{
    let res = RBTree { root: Rc::new(RBNode::Node(c, v, l.root.clone(), r.root.clone())) };
    proof {
        assert(res@ =~= SpecTree::Node(c, *v, Box::new(l@), Box::new(r@)));
    }
    res
}

/// Rebuilds a node from its pieces, rearranging it when a black parent
/// has gained a doubled-red child.
fn balance<T>(c: Colour, x: Rc<T>, left: &RBTree<T>, right: &RBTree<T>) -> (res: RBTree<T>)
    ensures
        res@ == spec_balance(c, *x, left@, right@),
        res@ is Node,
{
    let black = matches!(c, Colour::Black);
    if black && left.doubled_left() {
        let ll = left.left();
        let lr = left.right();
        let lv = left.root_value();
        let res = tree_rc(
            Colour::Red,
            lv,
            &ll.paint(Colour::Black),
            &tree_rc(Colour::Black, x, &lr, right),
        );
        proof {
            assert(res@ =~= spec_balance(c, *x, left@, right@));
        }
        res
    } else if black && left.doubled_right() {
        let ll = left.left();
        let lr = left.right();
        let lrl = lr.left();
        let lrr = lr.right();
        let res = tree_rc(
            Colour::Red,
            lr.root_value(),
            &tree_rc(Colour::Black, left.root_value(), &ll, &lrl),
            &tree_rc(Colour::Black, x, &lrr, right),
        );
        proof {
            assert(res@ =~= spec_balance(c, *x, left@, right@));
        }
        res
    } else if black && right.doubled_left() {
        let rl = right.left();
        let rr = right.right();
        let rll = rl.left();
        let rlr = rl.right();
        let res = tree_rc(
            Colour::Red,
            rl.root_value(),
            &tree_rc(Colour::Black, x, left, &rll),
            &tree_rc(Colour::Black, right.root_value(), &rlr, &rr),
        );
        proof {
            assert(res@ =~= spec_balance(c, *x, left@, right@));
        }
        res
    } else if black && right.doubled_right() {
        let rl = right.left();
        let rr = right.right();
        let res = tree_rc(
            Colour::Red,
            right.root_value(),
            &tree_rc(Colour::Black, x, left, &rl),
            &rr.paint(Colour::Black),
        );
        proof {
            assert(res@ =~= spec_balance(c, *x, left@, right@));
        }
        res
    } else {
        let res = tree_rc(c, x, left, right);
        proof {
            assert(res@ =~= spec_balance(c, *x, left@, right@));
        }
        res
    }
}

impl<T> RBTree<T> {
    /// The shared root value of a non-empty tree.
    fn root_value(&self) -> (r: Rc<T>)
        requires
            self@ is Node,
        ensures
            self@.spec_root() == Some(*r),
    {
        match &*self.root {
            RBNode::Empty => unreached(),
            RBNode::Node(_c, v, _l, _r) => v.clone(),
        }
    }
}

impl<T: PartialEqSpec> PartialEq for RBTree<T> {
    /// Structural equality: the same values in the same arrangement,
    /// colours included.
    fn eq(&self, other: &Self) -> (r: bool)
        decreases self@,
    {
        let se = self.is_empty();
        let oe = other.is_empty();
        if se && oe {
            return true;
        }
        if se || oe {
            return false;
        }
        let sv = match &*self.root {
            RBNode::Empty => unreached(),
            RBNode::Node(_c, v, _l, _r) => &**v,
        };
        let ov = match &*other.root {
            RBNode::Empty => unreached(),
            RBNode::Node(_c, v, _l, _r) => &**v,
        };
        if !(*sv == *ov) {
            return false;
        }
        if !matches!(
            (self.root_colour(), other.root_colour()),
            (Colour::Red, Colour::Red) | (Colour::Black, Colour::Black)
        ) {
            return false;
        }
        if !(self.left() == other.left()) {
            return false;
        }
        if !(self.right() == other.right()) {
            return false;
        }
        true
    }
}

/// Structural equality of two tree models, under the element type's
/// own equality spec.
pub open spec fn spec_tree_eq<T: PartialEqSpec>(a: SpecTree<T>, b: SpecTree<T>) -> bool
    decreases a,
{
    match a {
        SpecTree::Leaf => b is Leaf,
        SpecTree::Node(ca, va, la, ra) => match b {
            SpecTree::Leaf => false,
            SpecTree::Node(cb, vb, lb, rb) => {
                &&& ca == cb
                &&& va.eq_spec(&vb)
                &&& spec_tree_eq(*la, *lb)
                &&& spec_tree_eq(*ra, *rb)
            },
        },
    }
}

impl<T: PartialEqSpec> vstd::std_specs::cmp::PartialEqSpecImpl for RBTree<T> {
    open spec fn obeys_eq_spec() -> bool {
        T::obeys_eq_spec()
    }

    open spec fn eq_spec(&self, other: &Self) -> bool {
        spec_tree_eq(self@, other@)
    }
}

} // verus!
