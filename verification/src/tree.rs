//! A persistent n-ary tree: a possibly empty tree whose nodes hold a
//! value over an ordered collection of child trees.  Subtrees are
//! shared, never copied.

use std::rc::Rc;
use vstd::prelude::*;
use vstd::std_specs::cmp::PartialEqSpec;

verus! {

/// A persistent n-ary tree.
#[derive(Debug)]
pub struct Tree<T> {
    root: Rc<TreeNode<T>>,
}

#[derive(Debug)]
enum TreeNode<T> {
    Empty,
    Node(T, Vec<Tree<T>>),
}

impl<T> Tree<T> {
    /// Whether the tree is empty.
    pub closed spec fn spec_is_empty(self) -> bool {
        *self.root is Empty
    }

    /// The root value, when there is one.
    pub closed spec fn spec_root(self) -> Option<T> {
        match *self.root {
            TreeNode::Empty => None,
            TreeNode::Node(x, _children) => Some(x),
        }
    }

    /// The children of a non-empty tree.
    pub closed spec fn spec_children(self) -> Seq<Tree<T>> {
        match *self.root {
            TreeNode::Empty => Seq::empty(),
            TreeNode::Node(_x, children) => children@,
        }
    }

    /// The empty tree.
    pub fn new() -> (r: Self)
        ensures
            r.spec_is_empty(),
            r.spec_root() is None,
    {
        let root = Rc::new(TreeNode::Empty);
        Tree { root }
    }

    /// A tree holding `x` with no children.
    pub fn leaf(x: T) -> (r: Self)
        ensures
            !r.spec_is_empty(),
            r.spec_root() == Some(x),
            r.spec_children() == Seq::<Tree<T>>::empty(),
    {
        let r = Tree { root: Rc::new(TreeNode::Node(x, Vec::new())) };
        proof {
            assert(r.spec_children() =~= Seq::<Tree<T>>::empty());
        }
        r
    }

    /// A tree holding `x` over copies of the given children; the
    /// children's structure is shared.
    pub fn tree(x: T, children: &Vec<Tree<T>>) -> (r: Self)
        ensures
            !r.spec_is_empty(),
            r.spec_root() == Some(x),
            r.spec_children() == children@,
    {
        let mut copied: Vec<Tree<T>> = Vec::new();
        let mut i: usize = 0;
        while i < children.len()
            invariant
                i <= children@.len(),
                copied@.len() == i,
                forall|j: int| 0 <= j < i ==> #[trigger] copied@[j] == children@[j],
            decreases children@.len() - i,
        {
            copied.push(children[i].clone());
            i = i + 1;
        }
        proof {
            assert(copied@ =~= children@);
        }
        Tree { root: Rc::new(TreeNode::Node(x, copied)) }
    }

    /// Whether the tree has no nodes at all.
    pub fn is_empty(&self) -> (r: bool)
        ensures
            r == self.spec_is_empty(),
    {
        match &*self.root {
            TreeNode::Empty => true,
            _ => false,
        }
    }

    /// The root value, or `None` for the empty tree.
    pub fn root(&self) -> (r: Option<&T>)
        ensures
            match r {
                None => self.spec_root() is None,
                Some(x) => self.spec_root() == Some(*x),
            },
    {
        match &*self.root {
            TreeNode::Empty => None,
            TreeNode::Node(x, _children) => Some(x),
        }
    }

    /// The children of a non-empty tree.
    pub fn children(&self) -> (r: &Vec<Tree<T>>)
        requires
            !self.spec_is_empty(),
        ensures
            r@ == self.spec_children(),
    {
        match &*self.root {
            TreeNode::Empty => unreached(),
            TreeNode::Node(_x, children) => children,
        }
    }
}

impl<T> Clone for Tree<T> {
    /// Cloning shares the whole structure.
    fn clone(&self) -> (r: Self)
        ensures
            r == *self,
    {
        Tree { root: self.root.clone() }
    }
}

/// Structural equality of two trees, under the element type's own
/// equality spec.
pub closed spec fn spec_tree_equal<T: PartialEqSpec>(a: Tree<T>, b: Tree<T>) -> bool
    decreases a,
{
    if a.spec_is_empty() {
        b.spec_is_empty()
    } else if b.spec_is_empty() {
        false
    } else {
        &&& a.spec_root()->Some_0.eq_spec(&b.spec_root()->Some_0)
        &&& a.spec_children().len() == b.spec_children().len()
        &&& forall|i: int|
            0 <= i < a.spec_children().len() ==> spec_tree_equal(
                #[trigger] a.spec_children()[i],
                b.spec_children()[i],
            )
    }
}

impl<T: PartialEqSpec> PartialEq for Tree<T> {
    /// Two trees are equal when their shapes agree and their values
    /// agree position by position.
    fn eq(&self, other: &Self) -> (r: bool)
        decreases *self,
    {
        match (&*self.root, &*other.root) {
            (TreeNode::Empty, TreeNode::Empty) => true,
            (TreeNode::Node(x, xs), TreeNode::Node(y, ys)) => {
                if !(*x == *y) {
                    return false;
                }
                if xs.len() != ys.len() {
                    return false;
                }
                let mut i: usize = 0;
                while i < xs.len()
                    invariant
                        i <= xs@.len(),
                        xs@.len() == ys@.len(),
                        *self.root is Node,
                        *other.root is Node,
                        xs@ == self.spec_children(),
                        ys@ == other.spec_children(),
                        T::obeys_eq_spec() ==> self.spec_root()->Some_0.eq_spec(
                            &other.spec_root()->Some_0,
                        ),
                        forall|j: int|
                            0 <= j < i ==> T::obeys_eq_spec() ==> spec_tree_equal(
                                #[trigger] xs@[j],
                                ys@[j],
                            ),
                    decreases xs@.len() - i,
                {
                    proof {
                        assert(xs@[i as int] == self.spec_children()[i as int]);
                    }
                    if !(xs[i] == ys[i]) {
                        proof {
                            if T::obeys_eq_spec() {
                                assert(!spec_tree_equal(xs@[i as int], ys@[i as int]));
                                assert(!spec_tree_equal(*self, *other));
                            }
                        }
                        return false;
                    }
                    i = i + 1;
                }
                proof {
                    if T::obeys_eq_spec() {
                        assert(spec_tree_equal(*self, *other));
                    }
                }
                true
            },
            _ => {
                proof {
                    if T::obeys_eq_spec() {
                        assert(!spec_tree_equal(*self, *other));
                    }
                }
                false
            },
        }
    }
}

impl<T: PartialEqSpec> vstd::std_specs::cmp::PartialEqSpecImpl for Tree<T> {
    open spec fn obeys_eq_spec() -> bool {
        T::obeys_eq_spec()
    }

    open spec fn eq_spec(&self, other: &Self) -> bool {
        spec_tree_equal(*self, *other)
    }
}

} // verus!
