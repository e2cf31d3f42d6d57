use kxparser::list::{concat_all, filter, fmap, foldl, foldr, mbind, mreturn, reverse, List};
use kxparser::pair::make_pair;
use kxparser::weight_recursive;
use kxparser::BifurcateCoordinate;

#[test]
fn list_create_empty() {
    let list = List::<i32>::empty();

    assert!(list.is_empty());
    assert_eq!(list.front(), None);
}

#[test]
fn list_create_cons() {
    let list = List::cons(3, &List::empty());

    assert_eq!(list.front(), Some(&3));
    assert!(list.popped_front().is_empty());
    assert!(!list.is_empty());
}

#[test]
fn list_pushed_front_creates_new_longer_list() {
    let l1 = List::empty();
    let l2 = l1.pushed_front(6.7);

    assert!(l1.is_empty());
    assert_eq!(l1.front(), None);

    assert!(!l2.is_empty());
    assert_eq!(l2.front(), Some(&6.7));
}

#[test]
fn list_popped_front_returns_tail() {
    let l1 = List::empty();
    let l2 = List::cons(3, &l1);
    let l3 = List::cons(4, &l2);

    assert_eq!(l3.front(), Some(&4));
    let l4 = l3.popped_front();
    assert_eq!(l4.front(), Some(&3));
}

#[test]
fn list_list_macro_creates_list_in_reversed_order() {
    let l1 = List::empty().pushed_front(1);
    assert_eq!(l1.front(), Some(&1));
    assert!(l1.popped_front().is_empty());

    let l2 = List::empty().pushed_front(1).pushed_front(2);
    assert_eq!(l2.front(), Some(&2));
    assert_eq!(l2.popped_front().front(), Some(&1));
    assert!(l2.popped_front().popped_front().is_empty());
}

fn even(v: &i32) -> bool {
    v % 2 == 0
}

#[test]
fn list_filter_creates_new_list_with_fn_predicate() {
    let list = List::empty().pushed_front(4).pushed_front(3).pushed_front(2).pushed_front(1);

    let evens = filter(even, &list);

    let expected = List::empty().pushed_front(4).pushed_front(2);
    assert_eq!(evens, expected);
}

#[test]
fn list_test_partial_eq() {
    let l1 = List::empty().pushed_front(1).pushed_front(2).pushed_front(3);

    assert_eq!(l1, l1);
    assert_eq!(List::<i32>::empty(), List::<i32>::empty());
    let a = List::empty().pushed_front(5).pushed_front(7).pushed_front(0);
    let b = List::empty().pushed_front(5).pushed_front(7).pushed_front(0);
    assert_eq!(a, b);
}

fn double(v: &i32) -> i32 {
    v * 2
}

#[test]
fn list_fmap_creates_new_list_with_fn_function() {
    let list = List::empty().pushed_front(4).pushed_front(3).pushed_front(2).pushed_front(1);

    let doubles = fmap(double, &list);

    let expected = List::empty().pushed_front(2).pushed_front(4).pushed_front(6).pushed_front(8);
    assert_eq!(doubles, expected);
}

fn sum(a: i32, b: &i32) -> i32 {
    a + b
}

fn sum_r(a: &i32, b: i32) -> i32 {
    a + b
}

#[test]
fn list_sum_w_foldl_and_foldr_are_equal() {
    let list = List::empty().pushed_front(4).pushed_front(3).pushed_front(2).pushed_front(1);

    assert_eq!(foldl(sum, 0, &list), foldr(sum_r, 0, &list));
}

#[test]
fn list_mreturn_creates_list() {
    let list = mreturn(3);

    assert_eq!(list, List::empty().pushed_front(3));
}

#[test]
fn from_value_and_head_tail_split_a_list() {
    let list = List::cons(4, &List::from_value(7));

    let (head, tail) = list.head_tail();
    assert_eq!(head, Some(&4));
    assert_eq!(tail.front(), Some(&7));
    let rest = list.tail();
    assert_eq!(rest.front(), Some(&7));

    let no_elements = List::<i32>::empty();
    let (none, empty_tail) = no_elements.head_tail();
    assert_eq!(none, None);
    assert!(empty_tail.is_empty());
}

#[test]
fn iterator_walks_the_list_front_to_back() {
    let list = List::empty().pushed_front(3).pushed_front(2).pushed_front(1);

    let mut it = list.iter();
    assert_eq!(it.next(), Some(&1));
    assert_eq!(it.next(), Some(&2));
    assert_eq!(it.next(), Some(&3));
    assert_eq!(it.next(), None);
}

#[test]
fn reverse_flips_the_order() {
    let list = List::empty().pushed_front(3).pushed_front(2).pushed_front(1);

    let expected = List::empty().pushed_front(1).pushed_front(2).pushed_front(3);
    assert_eq!(reverse(&list), expected);
    assert_eq!(list.reversed(), expected);
}

#[test]
fn concat_joins_two_lists_in_order() {
    let a = List::empty().pushed_front(2).pushed_front(1);
    let b = List::empty().pushed_front(4).pushed_front(3);

    let joined = kxparser::list::concat(&a, &b);
    let expected =
        List::empty().pushed_front(4).pushed_front(3).pushed_front(2).pushed_front(1);
    assert_eq!(joined, expected);
}

#[test]
fn concat_all_reverses_the_flattened_lists() {
    let a = List::empty().pushed_front(2).pushed_front(1);
    let b = List::empty().pushed_front(4).pushed_front(3);
    let xss = List::empty().pushed_front(b).pushed_front(a);

    // the elements 1 2 3 4 are each pushed to the front in turn
    let flattened = concat_all(&xss);
    let expected =
        List::empty().pushed_front(1).pushed_front(2).pushed_front(3).pushed_front(4);
    assert_eq!(flattened, expected);
}

fn tens_pair(x: &i32) -> List<i32> {
    List::from_value(*x).pushed_front(*x * 10)
}

#[test]
fn mbind_flattens_the_mapped_lists() {
    let list = List::empty().pushed_front(1).pushed_front(2);

    // mapping reverses, and flattening reverses again
    let bound = mbind(&list, tens_pair);
    let expected = List::empty()
        .pushed_front(10)
        .pushed_front(1)
        .pushed_front(20)
        .pushed_front(2);
    assert_eq!(bound, expected);
}

#[test]
fn pair_test_partial_eq() {
    let p1 = make_pair(1, 2);
    let p2 = make_pair(1, 2);

    assert_eq!(p1, p2);

    assert!(p1 != make_pair(2, 1));
    let p3 = make_pair(3, "one");

    assert!(make_pair(5, "i") != p3);
}

struct EmptyCoord;

impl BifurcateCoordinate for EmptyCoord {
    fn is_empty(&self) -> bool {
        true
    }
}

#[test]
fn empty_coord_is_empty() {
    let c = EmptyCoord {};

    assert!(c.is_empty());
}

#[test]
fn weight_recursive_on_empty_coord_returns_0() {
    let c = EmptyCoord {};

    assert_eq!(weight_recursive(c), 0);
}

struct TwoWayNode {
    left: Option<Box<TwoWayNode>>,
    right: Option<Box<TwoWayNode>>,
}

impl TwoWayNode {
    fn new() -> Self {
        TwoWayNode { left: None, right: None }
    }

    fn both(left: Self, right: Self) -> Self {
        TwoWayNode { left: Some(Box::new(left)), right: Some(Box::new(right)) }
    }
}

impl BifurcateCoordinate for TwoWayNode {
    fn is_empty(&self) -> bool {
        self.left.is_none() && self.right.is_none()
    }
}

#[test]
fn empty_node_is_empty() {
    let n = TwoWayNode::new();

    assert!(n.is_empty());
}

#[test]
fn non_empty_node_is_not_empty() {
    let n = TwoWayNode::both(TwoWayNode::new(), TwoWayNode::new());

    assert!(!n.is_empty());
}
