use kxparser::rb_map::RBMap;
use kxparser::rb_tree::{Colour, RBTree};
use kxparser::tree::Tree;

#[test]
fn rb_tree_new_creates_empty_tree() {
    let tree = RBTree::<i32>::new();

    assert!(tree.is_empty());
    assert_eq!(tree.root(), None);
}

#[test]
fn rb_tree_tree_creates_nonempty_tree() {
    let empty_tree = RBTree::new();
    let tree = RBTree::tree(Colour::Red, 5, &empty_tree, &empty_tree);

    assert!(!tree.is_empty());
    assert_eq!(tree.root(), Some(&5));
}

#[test]
fn rb_tree_left_returns_left_tree() {
    let tree = RBTree::tree(Colour::Black, "root", &RBTree::leaf("left"), &RBTree::leaf("right"));

    println!("{:?}", tree);
    assert_eq!(tree.left(), RBTree::leaf("left"));
    assert_eq!(tree.right(), RBTree::leaf("right"));
}

#[test]
fn rb_tree_inserted_on_empty_tree_returns_larger_tree() {
    let empty_tree = RBTree::new();

    assert_eq!(empty_tree.root(), None);
    assert_eq!(empty_tree.root_colour(), Colour::Black);
    let t1 = empty_tree.inserted("b");

    assert_eq!(t1.root(), Some(&"b"));
    assert_eq!(t1.root_colour(), Colour::Black);
}

#[test]
fn rb_tree_inserted_two_times() {
    let empty_tree = RBTree::new();

    let t1 = empty_tree.inserted("b");

    let t2 = t1.inserted("a");
    assert_eq!(t2.root(), Some(&"b"));
    assert_eq!(t2.root_colour(), Colour::Black);
    assert_eq!(t2.left().root(), Some(&"a"));
    assert_eq!(t2.left().root_colour(), Colour::Red);
    assert!(t2.right().is_empty());
}

#[test]
fn rb_tree_inserted_three_times() {
    let empty_tree = RBTree::new();
    assert!(!empty_tree.contains(&"a"));

    let t1 = empty_tree.inserted("c");
    assert!(!t1.contains(&"a"));
    let t2 = t1.inserted("a");
    assert!(t2.contains(&"a"));
    let t = t2.inserted("b");

    assert_eq!(t.root(), Some(&"b"));
    assert_eq!(t.root_colour(), Colour::Black);
    assert_eq!(t.left().root(), Some(&"a"));
    assert_eq!(t.left().root_colour(), Colour::Black);
    assert_eq!(t.right().root(), Some(&"c"));
    assert_eq!(t.right().root_colour(), Colour::Black);
}

#[derive(Clone, Debug, PartialEq)]
struct KV<K, V>(K, V);

impl<K, V> PartialOrd for KV<K, V>
where
    K: PartialOrd,
    V: PartialEq,
{
    fn partial_cmp(&self, other: &Self) -> Option<std::cmp::Ordering> {
        self.0.partial_cmp(&other.0)
    }
}

#[test]
fn inserted_or_replaced() {
    let empty_tree = RBTree::new();

    let t1 = empty_tree.inserted_or_replaced(KV(4, "a"));
    let t2 = t1.inserted_or_replaced(KV(3, "b"));
    let t3 = t2.inserted_or_replaced(KV(5, "c"));
    let t4 = t3.inserted_or_replaced(KV(4, "d"));

    assert_eq!(t3.root(), Some(&KV(4, "a")));
    assert_eq!(t4.root(), Some(&KV(4, "d")));
}

#[test]
fn rb_tree_get_or_default() {
    let t1 = RBTree::new();

    assert_eq!(t1.get_or_default(&5, &7), &7);
}

#[test]
fn empty_creates_map() {
    let map = RBMap::<i32, &str>::new();

    assert!(map.is_empty());
    assert!(!map.contains_key(&5));
}

#[test]
fn rb_map_inserted_returns_larger_tree() {
    let m1 = RBMap::new();

    let m = m1.inserted(5, "b");

    assert!(!m.is_empty());
    assert!(m.contains_key(&5));
    assert!(!m.contains_key(&6));

    assert_eq!(m.get_key_value(&5), Some((&5, &"b")));
    assert_eq!(m.get_key_value(&6), None);
    assert_eq!(m.get(&5), Some(&"b"));
    assert_eq!(m.get(&6), None);
}

#[test]
fn rb_map_get_or_default() {
    let m1 = RBMap::new();

    let m = m1.inserted_or_replaced("g", 5);

    assert_eq!(m1.get_or_default(&"g", &0), &0);
    assert_eq!(m.get_or_default(&"g", &0), &5);
}

#[test]
fn tree_new_creates_empty_tree() {
    let tree = Tree::<&str>::new();

    assert!(tree.is_empty());
    assert_eq!(tree.root(), None);
}

#[test]
fn tree_tree_creates_nonempty_tree() {
    let empty_tree = RBTree::new();
    let tree = RBTree::tree(Colour::Red, 5, &empty_tree, &empty_tree);

    assert!(!tree.is_empty());
    assert_eq!(tree.root(), Some(&5));
}

#[test]
fn tree_left_returns_left_tree() {
    let tree = RBTree::tree(Colour::Black, "root", &RBTree::leaf("left"), &RBTree::leaf("right"));

    println!("{:?}", tree);
    assert_eq!(tree.left(), RBTree::leaf("left"));
    assert_eq!(tree.right(), RBTree::leaf("right"));
}

#[test]
fn tree_inserted_returns_larger_tree() {
    let empty_tree = RBTree::new();

    let t1 = empty_tree.inserted("b");

    assert_eq!(t1.root(), Some(&"b"));
}

#[test]
fn leaf_creates_tree_w_no_children() {
    let tree = Tree::leaf(5);

    assert!(!tree.is_empty());
    assert_eq!(tree.root(), Some(&5));
    assert!(tree.children().is_empty());
}

#[test]
fn tree_creates_tree_w_no_children() {
    let tree = Tree::tree("a", &Vec::new());

    assert!(!tree.is_empty());
    assert_eq!(tree.root(), Some(&"a"));
    assert!(tree.children().is_empty());
}

#[test]
fn tree_creates_tree_w_children() {
    let children = vec![Tree::leaf("b"), Tree::leaf("c")];
    let tree = Tree::tree("a", &children);

    assert!(!tree.is_empty());
    assert_eq!(tree.root(), Some(&"a"));
    assert!(!tree.children().is_empty());
    assert_eq!(tree.children(), &children);
}

#[test]
fn tree_test_partial_eq() {
    let t1 = Tree::<i32>::new();
    let t2 = Tree::<i32>::new();
    let t3 = Tree::leaf(4);
    let t4 = Tree::tree(4, &vec![Tree::leaf(5)]);
    let t5 = Tree::tree(4, &vec![Tree::leaf(5)]);
    let t6 = Tree::tree(4, &vec![Tree::leaf(6)]);
    assert!(t1 == t2);
    assert!(t1 != t3);
    assert!(t1 != t4);
    assert!(t3 != t4);
    assert!(t3 == Tree::leaf(4));
    assert!(t3 != Tree::leaf(5));
    assert!(t4 == t5);
    assert!(t4 != t6);
}
