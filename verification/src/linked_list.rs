//! A singly-linked list with stack discipline: values are pushed and popped at
//! the head, inspected through `peek` and `find`, and traversed head to tail.
use vstd::prelude::*;
use vstd::std_specs::cmp::PartialEqSpec;
use crate::list_model::{head_of, lemma_push_all, push_all, push_front, without_head};

verus! {

/// One storage cell: a value and the link to the rest of the chain. Nodes are
/// made and released by the list alone.
///
/// The view of a node is the sequence of values from the node to the tail.
pub struct Node<T> {
    data: T,
    next: Link<T>,
}

/// Either the end of the chain, or the unique owner of the next node.
type Link<T> = Option<Box<Node<T>>>;

/// The values owned through `link`, from the node it owns to the tail.
spec fn link_view<T>(link: Link<T>) -> Seq<T>
    decreases link,
{
    match link {
        None => Seq::empty(),
        Some(node) => seq![node.data] + link_view(node.next),
    }
}

/// A stack of values held in a chain of heap-allocated nodes.
///
/// The view `list@` is the sequence of values from the head (the value pushed
/// last) to the tail (the value pushed first).
pub struct LinkedList<T> {
    head: Link<T>,
}

impl<T> View for LinkedList<T> {
    type V = Seq<T>;

    closed spec fn view(&self) -> Seq<T> {
        link_view(self.head)
    }
}

impl<T> LinkedList<T> {
    /// An empty list.
    pub fn new() -> (list: Self)
        ensures
            list@ == Seq::<T>::empty(),
    {
        LinkedList { head: None }
    }

    /// Puts `data` in front of the list.
    pub fn push(&mut self, data: T)
        ensures
            final(self)@ == push_front(old(self)@, data),
    {
        let new_node = Box::new(Node { data, next: self.head.take() });
        self.head = Some(new_node);
    }

    /// Takes the head value off the list, if there is one.
    pub fn pop(&mut self) -> (popped: Option<T>)
        ensures
            popped == head_of(old(self)@),
            final(self)@ == without_head(old(self)@),
    {
        match self.head.take() {
            None => None,
            Some(boxed) => {
                let node = *boxed;
                self.head = node.next;
                proof {
                    assert((seq![node.data] + link_view(node.next)).drop_first() =~= link_view(
                        node.next,
                    ));
                }
                Some(node.data)
            },
        }
    }

    /// A shared reference to the head value, if there is one.
    pub fn peek(&self) -> (head: Option<&T>)
        ensures
            match head {
                Some(value) => head_of(self@) == Some(*value),
                None => head_of(self@) is None,
            },
    {
        match &self.head {
            None => None,
            Some(node) => Some(&node.data),
        }
    }

    /// An exclusive reference to the head value, if there is one. What the
    /// caller writes through it becomes the head value; the rest of the list
    /// stays as it is.
    pub fn peek_mut(&mut self) -> (head: Option<&mut T>)
        ensures
            match head {
                Some(value) => head_of(old(self)@) == Some(*value) && final(self)@ == old(
                    self
                )@.update(0, *final(value)),
                None => head_of(old(self)@) is None && final(self)@ == old(self)@,
            },
    {
        match &mut self.head {
            None => None,
            Some(node) => Some(&mut node.data),
        }
    }
}

impl<T> Drop for LinkedList<T> {
    /// Releases the chain one node at a time: each node's link is detached
    /// before the node itself is released, so that releasing a node never
    /// releases its successors in turn. The list is left without any node.
    fn drop(&mut self)
        ensures
            final(self)@ == Seq::<T>::empty(),
        opens_invariants none
        no_unwind
    {
        let mut curr_node: Link<T> = None;
        core::mem::swap(&mut curr_node, &mut self.head);
        loop
            invariant
                self.head is None,
            decreases link_view(curr_node).len(),
        {
            match curr_node {
                None => {
                    break ;
                },
                Some(mut boxed_data) => {
                    let mut detached: Link<T> = None;
                    core::mem::swap(&mut detached, &mut boxed_data.next);
                    curr_node = detached;
                },
            }
        }
    }
}

impl<T: PartialEq> LinkedList<T> {
    /// The position, counted from the head, of the first value equal to
    /// `target`; `None` when no value of the list equals it.
    pub fn find(&mut self, target: T) -> (found: Option<usize>)
        requires
            old(self)@.len() <= usize::MAX,
        ensures
            final(self)@ == old(self)@,
            T::obeys_eq_spec() ==> match found {
                Some(i) => is_first_match(old(self)@, target, i as int),
                None => no_match(old(self)@, target),
            },
    {
        let mut idx: usize = 0;
        let mut curr_node = self.head.as_ref();
        while curr_node.is_some()
            invariant
                self@.len() <= usize::MAX,
                0 <= idx <= self@.len(),
                ref_view(curr_node) == self@.skip(idx as int),
                T::obeys_eq_spec() ==> forall|i: int| 0 <= i < idx ==> !self@[i].eq_spec(&target),
            decreases self@.len() - idx,
        {
            let boxed_data = curr_node.unwrap();
            assert(self@.skip(idx as int).len() > 0);
            assert(self@.skip(idx as int)[0] == boxed_data.data);
            if boxed_data.data == target {
                return Some(idx);
            }
            proof {
                let rest = link_view(boxed_data.next);
                assert((seq![boxed_data.data] + rest).drop_first() =~= rest);
                assert(self@.skip(idx as int).drop_first() =~= self@.skip(idx as int + 1));
            }
            idx = idx + 1;
            curr_node = boxed_data.next.as_ref();
        }
        None
    }
}

impl<T> View for Node<T> {
    type V = Seq<T>;

    closed spec fn view(&self) -> Seq<T> {
        seq![self.data] + link_view(self.next)
    }
}

/// A consuming traversal: owns the list and hands its values out, head first.
///
/// The view is the sequence of values still to come.
pub struct IntoIter<T>(LinkedList<T>);

impl<T> View for IntoIter<T> {
    type V = Seq<T>;

    closed spec fn view(&self) -> Seq<T> {
        self.0@
    }
}

impl<T> IntoIter<T> {
    /// The next value, moved out of the list; `None` once the list is drained,
    /// and on every later call.
    pub fn next(&mut self) -> (item: Option<T>)
        ensures
            item == head_of(old(self)@),
            final(self)@ == without_head(old(self)@),
    {
        self.0.pop()
    }
}

/// A read-only traversal from the head to the tail.
///
/// The view is the sequence of values still to come.
pub struct Iter<'a, T> {
    next: Option<&'a Node<T>>,
}

impl<'a, T> View for Iter<'a, T> {
    type V = Seq<T>;

    closed spec fn view(&self) -> Seq<T> {
        match self.next {
            None => Seq::empty(),
            Some(node) => node@,
        }
    }
}

impl<'a, T> Iter<'a, T> {
    /// A reference to the next value; `None` past the tail, and on every
    /// later call.
    pub fn next(&mut self) -> (item: Option<&'a T>)
        ensures
            match item {
                Some(value) => head_of(old(self)@) == Some(*value),
                None => head_of(old(self)@) is None,
            },
            final(self)@ == without_head(old(self)@),
    {
        match self.next {
            None => None,
            Some(node) => {
                self.next = match &node.next {
                    None => None,
                    Some(boxed) => Some(&**boxed),
                };
                proof {
                    let rest = link_view(node.next);
                    assert((seq![node.data] + rest).drop_first() =~= rest);
                }
                Some(&node.data)
            },
        }
    }
}

impl<T> LinkedList<T> {
    /// Turns the list into a traversal that owns it.
    pub fn into_iter(self) -> (iter: IntoIter<T>)
        ensures
            iter@ == self@,
    {
        IntoIter(self)
    }

    /// A read-only traversal positioned at the head.
    pub fn iter(&self) -> (iter: Iter<'_, T>)
        ensures
            iter@ == self@,
    {
        Iter {
            next: match &self.head {
                None => None,
                Some(boxed) => Some(&**boxed),
            },
        }
    }
}

/// A traversal from the head to the tail that hands out exclusive references,
/// one node at a time.
///
/// The view is the sequence of values still to come, as they are now. The
/// cursor is a public field, so that the proof of a caller can follow the
/// borrowed node to the end of the borrow and learn what the list holds then.
pub struct IterMut<'a, T> {
    pub next: Option<&'a mut Node<T>>,
}

impl<'a, T> View for IterMut<'a, T> {
    type V = Seq<T>;

    open spec fn view(&self) -> Seq<T> {
        match self.next {
            None => Seq::empty(),
            Some(node) => node@,
        }
    }
}

impl<'a, T> IterMut<'a, T> {
    /// An exclusive reference to the next value; `None` past the tail, and on
    /// every later call.
    pub fn next(&mut self) -> (item: Option<&'a mut T>)
        ensures
            match item {
                Some(value) => head_of(old(self)@) == Some(*value),
                None => head_of(old(self)@) is None,
            },
            final(self)@ == without_head(old(self)@),
            old(self).next matches Some(node) ==> item is Some && (*final(node))@ == push_front(
                match final(self).next {
                    None => Seq::empty(),
                    Some(rest) => (*final(rest))@,
                },
                *final(item.unwrap()),
            ),
    {
        match self.next.take() {
            None => None,
            Some(node) => {
                self.next = match &mut node.next {
                    None => None,
                    Some(boxed) => Some(&mut **boxed),
                };
                Some(&mut node.data)
            },
        }
    }
}

impl<T> LinkedList<T> {
    /// A traversal positioned at the head, through which the values can be
    /// changed in place.
    pub fn iter_mut(&mut self) -> (iter: IterMut<'_, T>)
        ensures
            iter@ == old(self)@,
            final(self)@ == (match iter.next {
                None => Seq::empty(),
                Some(node) => (*final(node))@,
            }),
    {
        IterMut {
            next: match &mut self.head {
                None => None,
                Some(boxed) => Some(&mut **boxed),
            },
        }
    }
}

/// The values reachable from a borrowed link.
spec fn ref_view<T>(link: Option<&Box<Node<T>>>) -> Seq<T> {
    match link {
        None => Seq::empty(),
        Some(node) => seq![node.data] + link_view(node.next),
    }
}

/// Whether `i` is the least index at which `s` holds a value equal to
/// `target`.
pub open spec fn is_first_match<T: PartialEq>(s: Seq<T>, target: T, i: int) -> bool {
    &&& 0 <= i < s.len()
    &&& s[i].eq_spec(&target)
    &&& forall|j: int| 0 <= j < i ==> !#[trigger] s[j].eq_spec(&target)
}

/// Whether no value of `s` equals `target`.
pub open spec fn no_match<T: PartialEq>(s: Seq<T>, target: T) -> bool {
    forall|j: int| 0 <= j < s.len() ==> !#[trigger] s[j].eq_spec(&target)
}

/// Searching a list that was built by pushing the values `vs` in order, so
/// that its head is the value pushed last: position `i` from the head is the
/// first match exactly if the value pushed as the `i`-th from the end equals
/// `target` and none of the values pushed after it does, and there is no
/// match exactly if no pushed value equals `target`.
pub proof fn lemma_find_after_pushes<T: PartialEq>(vs: Seq<T>, target: T, i: int)
    ensures
        is_first_match(push_all(Seq::empty(), vs), target, i) <==> {
            &&& 0 <= i < vs.len()
            &&& vs[vs.len() - 1 - i].eq_spec(&target)
            &&& forall|later: int|
                vs.len() - 1 - i < later < vs.len() ==> !#[trigger] vs[later].eq_spec(&target)
        },
        no_match(push_all(Seq::empty(), vs), target) <==> forall|k: int|
            0 <= k < vs.len() ==> !#[trigger] vs[k].eq_spec(&target),
{
    let list = push_all(Seq::<T>::empty(), vs);
    lemma_push_all(Seq::<T>::empty(), vs);
    assert(list =~= vs.reverse());
    let n = vs.len() as int;
    if is_first_match(list, target, i) {
        assert forall|later: int| n - 1 - i < later < n implies !#[trigger] vs[later].eq_spec(
            &target,
        ) by {
            assert(list[n - 1 - later] == vs[later]);
        }
    }
    if 0 <= i < n && vs[n - 1 - i].eq_spec(&target) && forall|later: int|
        n - 1 - i < later < n ==> !#[trigger] vs[later].eq_spec(&target) {
        assert forall|j: int| 0 <= j < i implies !#[trigger] list[j].eq_spec(&target) by {
            assert(list[j] == vs[n - 1 - j]);
        }
    }
    if no_match(list, target) {
        assert forall|k: int| 0 <= k < n implies !#[trigger] vs[k].eq_spec(&target) by {
            assert(list[n - 1 - k] == vs[k]);
        }
    }
    if forall|k: int| 0 <= k < n ==> !#[trigger] vs[k].eq_spec(&target) {
        assert forall|j: int| 0 <= j < list.len() implies !#[trigger] list[j].eq_spec(&target) by {
            assert(list[j] == vs[n - 1 - j]);
        }
    }
}

} // verus!
