//! A persistent singly linked list with shared structure.
//!
//! Every operation leaves the original list intact; "mutators" such as
//! [`List::pushed_front`] return a new list that shares its tail with the
//! old one through reference counting.  The mathematical model of a list
//! is the sequence of its elements, front first.
//!
//! Functions that rebuild cells around values of a generic element type
//! have to clone those values; their contracts relate the copies to the
//! originals with [`vstd::pervasive::cloned`], which degenerates to
//! equality whenever the element type's `clone` promises it.

use std::rc::Rc;
use vstd::pervasive::cloned;
use vstd::prelude::*;
use vstd::std_specs::cmp::PartialEqSpec;

verus! {

/// A persistent list; an empty list has no head node.
#[derive(Debug)]
pub struct List<T> {
    pub(crate) head: Option<Rc<Node<T>>>,
}

/// One cell of a [`List`]: an element and the rest of the list.
#[derive(Debug)]
pub struct Node<T> {
    pub(crate) element: T,
    pub(crate) next: Option<Rc<Node<T>>>,
}

/// The sequence of elements hanging off a link, front first.
pub closed spec fn link_view<T>(link: Option<Rc<Node<T>>>) -> Seq<T>
    decreases link,
{
    match link {
        None => Seq::empty(),
        Some(node) => seq![node.element] + link_view(node.next),
    }
}

impl<T> View for List<T> {
    type V = Seq<T>;

    closed spec fn view(&self) -> Seq<T> {
        link_view(self.head)
    }
}

impl<T> List<T> {
    /// The empty list.
    pub fn empty() -> (r: List<T>)
        ensures
            r@ == Seq::<T>::empty(),
    {
        List { head: None }
    }

    /// The empty list.
    pub fn new() -> (r: List<T>)
        ensures
            r@ == Seq::<T>::empty(),
    {
        List { head: None }
    }

    /// A list whose head is `element` and whose tail shares `tail`'s cells.
    pub fn cons(element: T, tail: &List<T>) -> (r: List<T>)
        ensures
            r@ == seq![element] + tail@,
    {
        let next = match &tail.head {
            None => None,
            Some(node) => Some(node.clone()),
        };
        List { head: Some(Rc::new(Node { element, next })) }
    }

    /// The list that starts at an existing cell.
    pub(crate) fn from_node(tail: &Rc<Node<T>>) -> (r: List<T>)
        ensures
            r@ == link_view(Some(*tail)),
    {
        List { head: Some(tail.clone()) }
    }

    /// A one-element list.
    pub fn from_value(value: T) -> (r: List<T>)
        ensures
            r@ == seq![value],
    {
        let r = List { head: Some(Rc::new(Node { element: value, next: None })) };
        proof {
            assert(link_view::<T>(None) == Seq::<T>::empty());
            assert(r@ =~= seq![value]);
        }
        r
    }

    /// The front element, or `None` when the list is empty.
    pub fn front(&self) -> (r: Option<&T>)
        ensures
            match r {
                None => self@.len() == 0,
                Some(x) => self@.len() > 0 && *x == self@[0],
            },
    {
        match &self.head {
            None => None,
            Some(node) => Some(&node.element),
        }
    }

    /// Whether the list has no elements.
    pub fn is_empty(&self) -> (r: bool)
        ensures
            r == (self@.len() == 0),
    {
        self.head.is_none()
    }

    /// The list without its front element; the front element must exist.
    pub fn popped_front(&self) -> (r: List<T>)
        requires
            self@.len() > 0,
        ensures
            r@ == self@.drop_first(),
    {
        match &self.head {
            None => unreached(),
            Some(head) => {
                let r = match &head.next {
                    None => List::new(),
                    Some(node) => List::from_node(node),
                };
                proof {
                    assert(r@ =~= self@.drop_first());
                }
                r
            },
        }
    }

    /// The list without its front element; the front element must exist.
    pub fn tail(&self) -> (r: List<T>)
        requires
            self@.len() > 0,
        ensures
            r@ == self@.drop_first(),
    {
        self.popped_front()
    }

    /// The front element together with the rest of the list; an empty
    /// list yields `None` and another empty list.
    pub fn head_tail(&self) -> (r: (Option<&T>, List<T>))
        ensures
            self@.len() == 0 ==> r.0 is None && r.1@ == Seq::<T>::empty(),
            self@.len() > 0 ==> {
                &&& r.0 matches Some(x) && *x == self@[0]
                &&& r.1@ == self@.drop_first()
            },
    {
        let rest = match &self.head {
            None => List::new(),
            Some(head) => match &head.next {
                None => List::new(),
                Some(node) => List::from_node(node),
            },
        };
        proof {
            if self@.len() > 0 {
                assert(rest@ =~= self@.drop_first());
            }
        }
        (self.front(), rest)
    }

    /// A new list with `value` in front of this one.
    pub fn pushed_front(&self, value: T) -> (r: List<T>)
        ensures
            r@ == seq![value] + self@,
    {
        List::cons(value, self)
    }

    /// The reversal of the list; elements are cloned into the new cells.
    pub fn reversed(&self) -> (r: List<T>) where T: Clone
        ensures
            r@.len() == self@.len(),
            forall|i: int|
                0 <= i < self@.len() ==> cloned::<T>(self@[i], #[trigger] r@[self@.len() - 1 - i]),
    {
        reverse(self)
    }

    /// A cursor over the elements, front first.
    pub fn iter(&self) -> (it: ListIterator<'_, T>)
        ensures
            it@ == self@,
    {
        let next = match &self.head {
            None => None,
            Some(node) => Some(&**node),
        };
        ListIterator { next }
    }
}

/// A cursor over a [`List`]; its model is the sequence of elements it has
/// not yet handed out.
pub struct ListIterator<'a, T> {
    next: Option<&'a Node<T>>,
}

impl<'a, T> View for ListIterator<'a, T> {
    type V = Seq<T>;

    closed spec fn view(&self) -> Seq<T> {
        match self.next {
            None => Seq::empty(),
            Some(node) => seq![node.element] + link_view(node.next),
        }
    }
}

impl<'a, T> ListIterator<'a, T> {
    /// The next element, or `None` when the cursor is exhausted.
    pub fn next(&mut self) -> (r: Option<&'a T>)
        ensures
            old(self)@.len() == 0 ==> r is None && final(self)@ == old(self)@,
            old(self)@.len() > 0 ==> {
                &&& r matches Some(x) && *x == old(self)@[0]
                &&& final(self)@ == old(self)@.drop_first()
            },
    {
        match self.next {
            None => None,
            Some(node) => {
                self.next = match &node.next {
                    None => None,
                    Some(next_node) => Some(&**next_node),
                };
                proof {
                    assert(self@ =~= old(self)@.drop_first());
                }
                Some(&node.element)
            },
        }
    }
}

impl<T> Clone for List<T> {
    /// Cloning shares every cell, so the model is unchanged.
    fn clone(&self) -> (r: Self)
        ensures
            r@ == self@,
    {
        match &self.head {
            None => List::new(),
            Some(node) => List::from_node(node),
        }
    }
}

impl<T: PartialEqSpec> PartialEq for List<T> {
    /// Two lists are equal when they have the same length and their
    /// elements agree pointwise.
    fn eq(&self, other: &Self) -> (r: bool) {
        let mut a = self.iter();
        let mut b = other.iter();
        loop
            invariant
                T::obeys_eq_spec() ==> (seqs_eq_spec(self@, other@) <==> seqs_eq_spec(a@, b@)),
            decreases a@.len() + b@.len(),
        {
            let ghost prev_a = a@;
            let ghost prev_b = b@;
            let x = a.next();
            let y = b.next();
            match (x, y) {
                (None, None) => {
                    return true;
                },
                (Some(xe), Some(ye)) => {
                    if !(*xe == *ye) {
                        return false;
                    }
                    proof {
                        if T::obeys_eq_spec() {
                            if prev_a.len() == prev_b.len() {
                                assert forall|i: int| 0 <= i < a@.len() implies a@[i] == prev_a[i
                                    + 1] && b@[i] == prev_b[i + 1] by {}
                                if seqs_eq_spec(prev_a, prev_b) {
                                    assert forall|i: int| 0 <= i < a@.len() implies a@[i].eq_spec(
                                        &b@[i],
                                    ) by {
                                        assert(prev_a[i + 1].eq_spec(&prev_b[i + 1]));
                                    }
                                    assert(seqs_eq_spec(a@, b@));
                                }
                                if seqs_eq_spec(a@, b@) {
                                    assert forall|i: int| 0 <= i < prev_a.len() implies prev_a[i].eq_spec(
                                        &prev_b[i],
                                    ) by {
                                        if i > 0 {
                                            assert(a@[i - 1].eq_spec(&b@[i - 1]));
                                        }
                                    }
                                    assert(seqs_eq_spec(prev_a, prev_b));
                                }
                            }
                        }
                    }
                },
                _ => {
                    return false;
                },
            }
        }
    }
}

/// Pointwise agreement, under the element type's own equality spec.
pub open spec fn seqs_eq_spec<T: PartialEqSpec>(a: Seq<T>, b: Seq<T>) -> bool {
    a.len() == b.len() && forall|i: int| 0 <= i < a.len() ==> a[i].eq_spec(&b[i])
}

impl<T: PartialEqSpec> vstd::std_specs::cmp::PartialEqSpecImpl for List<T> {
    open spec fn obeys_eq_spec() -> bool {
        T::obeys_eq_spec()
    }

    open spec fn eq_spec(&self, other: &Self) -> bool {
        seqs_eq_spec(self@, other@)
    }
}

/// The elements of `s` at the positions marked true, in their original
/// order.
pub open spec fn filter_marked<T>(s: Seq<T>, kept: Seq<bool>) -> Seq<T>
    recommends
        kept.len() == s.len(),
    decreases s.len(),
{
    if s.len() == 0 {
        Seq::empty()
    } else {
        (if kept[0] {
            seq![s[0]]
        } else {
            Seq::empty()
        }) + filter_marked(s.drop_first(), kept.drop_first())
    }
}

/// Exactly the elements on which `p` answered true, in their original
/// order: the result is the subsequence of `list` selected by one run
/// of `p` over every element.
pub fn filter<T: Copy>(p: impl Fn(&T) -> bool + Copy, list: &List<T>) -> (r: List<T>)
    requires
        forall|i: int| 0 <= i < list@.len() ==> call_requires(p, (&list@[i],)),
    ensures
        exists|kept: Seq<bool>|
            {
                &&& kept.len() == list@.len()
                &&& forall|i: int|
                    0 <= i < list@.len() ==> call_ensures(p, (&list@[i],), #[trigger] kept[i])
                &&& r@ == filter_marked(list@, kept)
            },
    decreases list@.len(),
{
    match list.front() {
        Some(head) => {
            let keep = p(head);
            let rest = list.popped_front();
            let tail = filter(p, &rest);
            let r = if keep {
                List::cons(*head, &tail)
            } else {
                tail
            };
            proof {
                let kept_t = choose|kept_t: Seq<bool>|
                    {
                        &&& kept_t.len() == rest@.len()
                        &&& forall|i: int|
                            0 <= i < rest@.len() ==> call_ensures(
                                p,
                                (&rest@[i],),
                                #[trigger] kept_t[i],
                            )
                        &&& tail@ == filter_marked(rest@, kept_t)
                    };
                let kept = seq![keep] + kept_t;
                assert(kept.drop_first() =~= kept_t);
                assert(list@.drop_first() =~= rest@);
                assert(kept.len() == list@.len());
                assert forall|i: int| 0 <= i < list@.len() implies call_ensures(
                    p,
                    (&list@[i],),
                    #[trigger] kept[i],
                ) by {
                    if i == 0 {
                        assert(kept[0] == keep);
                    } else {
                        assert(kept[i] == kept_t[i - 1] && list@[i] == rest@[i - 1]);
                    }
                }
                assert(filter_marked(list@, kept) == (if kept[0] {
                    seq![list@[0]]
                } else {
                    Seq::<T>::empty()
                }) + filter_marked(rest@, kept_t));
                assert(r@ =~= filter_marked(list@, kept));
            }
            r
        },
        None => {
            let r = List::empty();
            proof {
                let kept = Seq::<bool>::empty();
                assert(kept.len() == list@.len());
                assert(r@ =~= filter_marked(list@, kept));
            }
            r
        },
    }
}

/// The reversal of `list`; elements are cloned into the new cells.
pub fn reverse<T: Clone>(list: &List<T>) -> (r: List<T>)
    ensures
        r@.len() == list@.len(),
        forall|i: int|
            0 <= i < list@.len() ==> cloned::<T>(list@[i], #[trigger] r@[list@.len() - 1 - i]),
{
    reverse_onto(list, List::empty())
}

/// Clones the elements of `list`, in order, onto the front of `acc`.
fn reverse_onto<T: Clone>(list: &List<T>, acc: List<T>) -> (r: List<T>)
    ensures
        r@.len() == list@.len() + acc@.len(),
        forall|i: int|
            0 <= i < list@.len() ==> cloned::<T>(list@[i], #[trigger] r@[list@.len() - 1 - i]),
        forall|i: int| 0 <= i < acc@.len() ==> r@[list@.len() + i] == #[trigger] acc@[i],
    decreases list@.len(),
{
    match list.front() {
        None => acc,
        Some(head) => {
            let copied = head.clone();
            let acc2 = List::cons(copied, &acc);
            let rest = list.popped_front();
            let r = reverse_onto(&rest, acc2);
            proof {
                assert forall|i: int| 0 <= i < list@.len() implies cloned::<T>(
                    list@[i],
                    #[trigger] r@[list@.len() - 1 - i],
                ) by {
                    if i == 0 {
                        assert(r@[rest@.len() as int] == acc2@[0]);
                    } else {
                        assert(list@[i] == rest@[i - 1]);
                        assert(cloned::<T>(rest@[i - 1], r@[rest@.len() - 1 - (i - 1)]));
                    }
                }
                assert forall|i: int| 0 <= i < acc@.len() implies r@[list@.len() + i]
                    == #[trigger] acc@[i] by {
                    assert(r@[rest@.len() + (i + 1)] == acc2@[i + 1]);
                }
            }
            r
        },
    }
}

/// Applies `f` to every element; the results appear in reverse order.
pub fn fmap<U, T>(f: impl Fn(&T) -> U + Copy, list: &List<T>) -> (r: List<U>)
    requires
        forall|i: int| 0 <= i < list@.len() ==> call_requires(f, (&list@[i],)),
    ensures
        r@.len() == list@.len(),
        forall|i: int|
            0 <= i < list@.len() ==> call_ensures(
                f,
                (&list@[i],),
                #[trigger] r@[list@.len() - 1 - i],
            ),
{
    fmap_onto(f, list, List::empty())
}

/// Applies `f` to every element of `list`, pushing the results, in order,
/// onto the front of `acc`.
fn fmap_onto<U, T>(f: impl Fn(&T) -> U + Copy, list: &List<T>, acc: List<U>) -> (r: List<U>)
    requires
        forall|i: int| 0 <= i < list@.len() ==> call_requires(f, (&list@[i],)),
    ensures
        r@.len() == list@.len() + acc@.len(),
        forall|i: int|
            0 <= i < list@.len() ==> call_ensures(
                f,
                (&list@[i],),
                #[trigger] r@[list@.len() - 1 - i],
            ),
        forall|i: int| 0 <= i < acc@.len() ==> r@[list@.len() + i] == #[trigger] acc@[i],
    decreases list@.len(),
{
    match list.front() {
        None => acc,
        Some(head) => {
            let mapped = f(head);
            let acc2 = List::cons(mapped, &acc);
            let rest = list.popped_front();
            let r = fmap_onto(f, &rest, acc2);
            proof {
                assert forall|i: int| 0 <= i < list@.len() implies call_ensures(
                    f,
                    (&list@[i],),
                    #[trigger] r@[list@.len() - 1 - i],
                ) by {
                    if i == 0 {
                        assert(r@[rest@.len() as int] == acc2@[0]);
                    } else {
                        assert(list@[i] == rest@[i - 1]);
                        assert(call_ensures(f, (&rest@[i - 1],), r@[rest@.len() - 1 - (i - 1)]));
                    }
                }
                assert forall|i: int| 0 <= i < acc@.len() implies r@[list@.len() + i]
                    == #[trigger] acc@[i] by {
                    assert(r@[rest@.len() + (i + 1)] == acc2@[i + 1]);
                }
            }
            r
        },
    }
}

/// Whether `accs` records a left fold of `f` over `xs`: it starts at the
/// initial accumulator and each step is a possible result of `f`.
pub open spec fn foldl_chain<U, T, F: Fn(U, &T) -> U>(f: F, xs: Seq<T>, accs: Seq<U>) -> bool {
    &&& accs.len() == xs.len() + 1
    &&& forall|i: int|
        0 <= i < xs.len() ==> call_ensures(f, (accs[i], &xs[i]), #[trigger] accs[i + 1])
}

/// Folds `f` over the list from the left, starting from `acc`.
pub fn foldl<U, T>(f: impl Fn(U, &T) -> U + Copy, acc: U, list: &List<T>) -> (r: U)
    requires
        forall|a: U, i: int| 0 <= i < list@.len() ==> call_requires(f, (a, &list@[i])),
    ensures
        exists|accs: Seq<U>|
            #[trigger] foldl_chain(f, list@, accs) && accs[0] == acc && accs[list@.len() as int]
                == r,
    decreases list@.len(),
{
    match list.front() {
        None => {
            proof {
                let accs = seq![acc];
                assert(foldl_chain(f, list@, accs));
            }
            acc
        },
        Some(head) => {
            let next = f(acc, head);
            let rest = list.popped_front();
            let r = foldl(f, next, &rest);
            proof {
                let sub = choose|sub: Seq<U>|
                    #[trigger] foldl_chain(f, rest@, sub) && sub[0] == next && sub[rest@.len() as int]
                        == r;
                let accs = seq![acc] + sub;
                assert forall|i: int| 0 <= i < list@.len() implies call_ensures(
                    f,
                    (accs[i], &list@[i]),
                    #[trigger] accs[i + 1],
                ) by {
                    if i == 0 {
                        assert(accs[0] == acc && accs[1] == sub[0]);
                    } else {
                        assert(list@[i] == rest@[i - 1]);
                        assert(call_ensures(f, (sub[i - 1], &rest@[i - 1]), sub[i]));
                    }
                }
                assert(foldl_chain(f, list@, accs));
                assert(accs[list@.len() as int] == r);
            }
            r
        },
    }
}

/// Whether `accs` records a right fold of `f` over `xs`: it ends at the
/// initial accumulator and each step is a possible result of `f`.
pub open spec fn foldr_chain<U, T, F: Fn(&T, U) -> U>(f: F, xs: Seq<T>, accs: Seq<U>) -> bool {
    &&& accs.len() == xs.len() + 1
    &&& forall|i: int|
        0 <= i < xs.len() ==> call_ensures(f, (&xs[i], accs[i + 1]), #[trigger] accs[i])
}

/// Folds `f` over the list from the right, starting from `acc`.
pub fn foldr<U, T>(f: impl Fn(&T, U) -> U + Copy, acc: U, list: &List<T>) -> (r: U)
    requires
        forall|a: U, i: int| 0 <= i < list@.len() ==> call_requires(f, (&list@[i], a)),
    ensures
        exists|accs: Seq<U>|
            #[trigger] foldr_chain(f, list@, accs) && accs[list@.len() as int] == acc && accs[0]
                == r,
    decreases list@.len(),
{
    match list.front() {
        None => {
            proof {
                let accs = seq![acc];
                assert(foldr_chain(f, list@, accs));
            }
            acc
        },
        Some(head) => {
            let rest = list.popped_front();
            let folded = foldr(f, acc, &rest);
            let r = f(head, folded);
            proof {
                let sub = choose|sub: Seq<U>|
                    #[trigger] foldr_chain(f, rest@, sub) && sub[rest@.len() as int] == acc
                        && sub[0] == folded;
                let accs = seq![r] + sub;
                assert forall|i: int| 0 <= i < list@.len() implies call_ensures(
                    f,
                    (&list@[i], accs[i + 1]),
                    #[trigger] accs[i],
                ) by {
                    if i == 0 {
                        assert(accs[1] == sub[0]);
                    } else {
                        assert(list@[i] == rest@[i - 1]);
                        assert(call_ensures(f, (&rest@[i - 1], sub[i]), sub[i - 1]));
                    }
                }
                assert(foldr_chain(f, list@, accs));
                assert(accs[list@.len() as int] == acc);
            }
            r
        },
    }
}

/// Calls `f` on every element, front to back.
pub fn for_each<T>(list: &List<T>, f: impl Fn(&T) + Copy)
    requires
        forall|i: int| 0 <= i < list@.len() ==> call_requires(f, (&list@[i],)),
    decreases list@.len(),
{
    match list.front() {
        None => (),
        Some(head) => {
            f(head);
            for_each(&list.popped_front(), f);
        },
    }
}

/// The concatenation of `a` and `b`; `a`'s elements are cloned into new
/// cells, while `b`'s cells are shared.
pub fn concat<T: Clone>(a: &List<T>, b: &List<T>) -> (r: List<T>)
    ensures
        r@.len() == a@.len() + b@.len(),
        forall|i: int| 0 <= i < a@.len() ==> cloned::<T>(a@[i], #[trigger] r@[i]),
        forall|i: int| 0 <= i < b@.len() ==> r@[a@.len() + i] == #[trigger] b@[i],
    decreases a@.len(),
{
    match a.front() {
        None => b.clone(),
        Some(head) => {
            let copied = head.clone();
            let rest = concat(&a.popped_front(), b);
            List::cons(copied, &rest)
        },
    }
}

/// The number of elements in the first `k` lists of `s`.
pub open spec fn prefix_len<T>(s: Seq<List<T>>, k: int) -> int
    decreases k,
{
    if k <= 0 {
        0
    } else {
        prefix_len(s, k - 1) + s[k - 1]@.len()
    }
}

/// All elements of all the lists, cloned into one list; the element that
/// is `j`-th in the `i`-th list lands at the mirrored position, so the
/// whole result is the reversal of the concatenation.
pub fn concat_all<T: Clone>(xss: &List<List<T>>) -> (r: List<T>)
    ensures
        r@.len() == prefix_len(xss@, xss@.len() as int),
        forall|i: int, j: int|
            0 <= i < xss@.len() && 0 <= j < xss@[i]@.len() ==> cloned::<T>(
                xss@[i]@[j],
                #[trigger] r@[r@.len() - prefix_len(xss@, i) - j - 1],
            ),
{
    let r = concat_all_onto(xss, List::empty());
    proof {
        assert forall|i: int, j: int|
            0 <= i < xss@.len() && 0 <= j < xss@[i]@.len() implies cloned::<T>(
            xss@[i]@[j],
            #[trigger] r@[r@.len() - prefix_len(xss@, i) - j - 1],
        ) by {
            assert(cloned::<T>(xss@[i]@[j], r@[r@.len() - 0 - prefix_len(xss@, i) - j - 1]));
        }
    }
    r
}

/// Clones every element of every list, in order, onto the front of `acc`.
fn concat_all_onto<T: Clone>(xss: &List<List<T>>, acc: List<T>) -> (r: List<T>)
    ensures
        r@.len() == prefix_len(xss@, xss@.len() as int) + acc@.len(),
        forall|i: int, j: int|
            0 <= i < xss@.len() && 0 <= j < xss@[i]@.len() ==> cloned::<T>(
                xss@[i]@[j],
                #[trigger] r@[r@.len() - acc@.len() - prefix_len(xss@, i) - j - 1],
            ),
        forall|i: int| 0 <= i < acc@.len() ==> r@[r@.len() - acc@.len() + i] == #[trigger] acc@[i],
    decreases xss@.len(),
{
    match xss.front() {
        None => acc,
        Some(xs) => {
            let acc2 = reverse_onto(xs, acc);
            let rest = xss.popped_front();
            let r = concat_all_onto(&rest, acc2);
            proof {
                lemma_prefix_len_step(xss@, rest@);
                assert forall|i: int, j: int|
                    0 <= i < xss@.len() && 0 <= j < xss@[i]@.len() implies cloned::<T>(
                    xss@[i]@[j],
                    #[trigger] r@[r@.len() - acc@.len() - prefix_len(xss@, i) - j - 1],
                ) by {
                    if i == 0 {
                        assert(acc2@[xs@.len() - 1 - j] == r@[r@.len() - acc2@.len() + (xs@.len() - 1
                            - j)]);
                        assert(cloned::<T>(xs@[j], acc2@[xs@.len() - 1 - j]));
                    } else {
                        assert(rest@[i - 1] == xss@[i]);
                        assert(prefix_len(xss@, i) == prefix_len(rest@, i - 1) + xs@.len());
                        assert(cloned::<T>(
                            rest@[i - 1]@[j],
                            r@[r@.len() - acc2@.len() - prefix_len(rest@, i - 1) - j - 1],
                        ));
                    }
                }
            }
            r
        },
    }
}

/// Aligns the prefix sums of a list-of-lists with those of its tail.
proof fn lemma_prefix_len_step<T>(xss: Seq<List<T>>, rest: Seq<List<T>>)
    requires
        xss.len() > 0,
        rest == xss.drop_first(),
    ensures
        forall|k: int|
            0 < k <= xss.len() ==> #[trigger] prefix_len(xss, k) == xss[0]@.len() + prefix_len(
                rest,
                k - 1,
            ),
    decreases xss.len(),
{
    assert forall|k: int| 0 < k <= xss.len() implies #[trigger] prefix_len(xss, k) == xss[0]@.len()
        + prefix_len(rest, k - 1) by {
        lemma_prefix_len_step_one(xss, rest, k);
    }
}

/// One instance of the prefix-sum alignment, proved by induction on `k`.
proof fn lemma_prefix_len_step_one<T>(xss: Seq<List<T>>, rest: Seq<List<T>>, k: int)
    requires
        xss.len() > 0,
        rest == xss.drop_first(),
        0 < k <= xss.len(),
    ensures
        prefix_len(xss, k) == xss[0]@.len() + prefix_len(rest, k - 1),
    decreases k,
{
    assert(prefix_len(xss, 0) == 0);
    assert(prefix_len(rest, 0) == 0);
    if k == 1 {
        assert(prefix_len(xss, 1) == prefix_len(xss, 0) + xss[0]@.len());
    } else {
        lemma_prefix_len_step_one(xss, rest, k - 1);
        assert(xss[k - 1] == rest[k - 2]);
        assert(prefix_len(xss, k) == prefix_len(xss, k - 1) + xss[k - 1]@.len());
        assert(prefix_len(rest, k - 1) == prefix_len(rest, k - 2) + rest[k - 2]@.len());
    }
}

/// The one-element list holding `t`.
pub fn mreturn<T>(t: T) -> (r: List<T>)
    ensures
        r@ == seq![t],
{
    let r = List::cons(t, &List::empty());
    proof {
        assert(r@ =~= seq![t]);
    }
    r
}

/// Monadic bind: applies `k` to every element and flattens the results.
/// The intermediate lists are recorded existentially, in the (reversed)
/// order `fmap` produces them.
pub fn mbind<A: Copy, B: Copy>(list: &List<A>, k: impl Fn(&A) -> List<B> + Copy) -> (r: List<B>)
    requires
        forall|i: int| 0 <= i < list@.len() ==> call_requires(k, (&list@[i],)),
    ensures
        exists|ls: Seq<List<B>>|
            {
                &&& ls.len() == list@.len()
                &&& forall|p: int|
                    0 <= p < ls.len() ==> call_ensures(
                        k,
                        (&list@[list@.len() - 1 - p],),
                        #[trigger] ls[p],
                    )
                &&& r@.len() == prefix_len(ls, ls.len() as int)
                &&& forall|p: int, j: int|
                    0 <= p < ls.len() && 0 <= j < ls[p]@.len() ==> cloned::<B>(
                        ls[p]@[j],
                        #[trigger] r@[r@.len() - prefix_len(ls, p) - j - 1],
                    )
            },
{
    let list_list = fmap(k, list);
    let r = concat_all(&list_list);
    proof {
        let ls = list_list@;
        assert(ls.len() == list@.len());
        assert forall|p: int| 0 <= p < ls.len() implies call_ensures(
            k,
            (&list@[list@.len() - 1 - p],),
            #[trigger] ls[p],
        ) by {
            let i = list@.len() - 1 - p;
            assert(call_ensures(k, (&list@[i],), ls[list@.len() - 1 - i]));
        }
    }
    r
}

} // verus!
