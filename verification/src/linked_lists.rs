//! Lists of nodes for trying out list algorithms.
use vstd::prelude::*;
use vstd::std_specs::cmp::{PartialEqSpec, PartialEqSpecImpl};
use crate::math::gen_random_vector;

verus! {

/// A node that holds one value.
#[derive(Debug)]
pub struct Node<T> {
    pub val: T,
}

impl<T> Node<T> {
    /// A node that holds `data`.
    pub fn new(data: T) -> (node: Node<T>)
        ensures
            node.val == data,
    {
        Node { val: data }
    }
}

impl<T: PartialEq> PartialEq for Node<T> {
    /// Two nodes are equal if their values are.
    fn eq(&self, other: &Self) -> (equal: bool) {
        self.val == other.val
    }
}

impl<T: PartialEq> PartialEqSpecImpl for Node<T> {
    open spec fn obeys_eq_spec() -> bool {
        T::obeys_eq_spec()
    }

    open spec fn eq_spec(&self, other: &Self) -> bool {
        self.val.eq_spec(&other.val)
    }
}

/// A list of nodes, in the order in which the values came.
#[derive(Debug)]
pub struct TestData<T> {
    pub data: Vec<Node<T>>,
}

/// Whether `nodes` hold the values of `values`, one node for each value, in
/// the same order.
pub open spec fn holds_values<T>(nodes: Seq<Node<T>>, values: Seq<T>) -> bool {
    &&& nodes.len() == values.len()
    &&& forall|i: int| 0 <= i < nodes.len() ==> (#[trigger] nodes[i]).val == values[i]
}

impl<T> TestData<Vec<T>> {
    /// The list of the values of `input`, in their order.
    pub fn gen_linked_list(input: Vec<T>) -> (list: TestData<T>)
        ensures
            holds_values(list.data@, input@),
    {
        let ghost values = input@;
        let mut list: Vec<Node<T>> = Vec::new();
        for el in it: input
            invariant
                it.seq() == values,
                holds_values(list@, values.take(it.index() as int)),
        {
            list.push(Node::new(el));
        }
        proof {
            assert(values.take(values.len() as int) =~= values);
        }
        TestData { data: list }
    }
}

impl TestData<i32> {
    /// A list of `count` numbers, each drawn from the half-open range from
    /// `start` to `stop`, which must not be empty.
    pub fn gen_mock_dataset(start: i32, stop: i32, count: u32) -> (list: TestData<i32>)
        requires
            start < stop,
        ensures
            list.data@.len() == count,
            forall|i: int|
                0 <= i < list.data@.len() ==> start <= (#[trigger] list.data@[i]).val < stop,
    {
        let rand_data = gen_random_vector(start, stop, count);
        let ghost values = rand_data@;
        let mut dataset: Vec<Node<i32>> = Vec::new();
        for el in it: rand_data
            invariant
                it.seq() == values,
                holds_values(dataset@, values.take(it.index() as int)),
        {
            dataset.push(Node::new(el));
        }
        proof {
            assert(values.take(values.len() as int) =~= values);
        }
        TestData { data: dataset }
    }
}

/// How many values of `s` differ from `target`.
pub open spec fn misses<T: PartialEq>(s: Seq<T>, target: T) -> nat
    decreases s.len(),
{
    if s.len() == 0 {
        0
    } else if s.last().eq_spec(&target) {
        misses(s.drop_last(), target)
    } else {
        misses(s.drop_last(), target) + 1
    }
}

/// How many values that differ from `target` stand before the last value of
/// `s` that equals it; `None` where no value equals it.
pub open spec fn misses_before_last_hit<T: PartialEq>(s: Seq<T>, target: T) -> Option<nat>
    decreases s.len(),
{
    if s.len() == 0 {
        None
    } else if s.last().eq_spec(&target) {
        Some(misses(s.drop_last(), target))
    } else {
        misses_before_last_hit(s.drop_last(), target)
    }
}

/// Looks for `target` in `linked_list` and hands the list back as it was,
/// together with what the search counted: how many values differ from
/// `target`, and how many of them stand before the last value that equals
/// it, if there is one. No node is taken out.
///
/// The counts are stated for value types whose `==` obeys its specification.
pub fn remove_node<T: PartialEq>(linked_list: Vec<T>, target: T) -> (scanned: (
    Vec<T>,
    usize,
    Option<usize>,
))
    ensures
        scanned.0@ == linked_list@,
        T::obeys_eq_spec() ==> scanned.1 == misses(linked_list@, target),
        T::obeys_eq_spec() ==> match scanned.2 {
            Some(del_idx) => misses_before_last_hit(linked_list@, target) == Some(del_idx as nat),
            None => misses_before_last_hit(linked_list@, target) is None,
        },
{
    let mut del_idx: Option<usize> = None;
    let mut curr_idx: usize = 0;
    let mut i: usize = 0;
    while i < linked_list.len()
        invariant
            i <= linked_list.len(),
            curr_idx <= i,
            T::obeys_eq_spec() ==> curr_idx == misses(linked_list@.take(i as int), target),
            T::obeys_eq_spec() ==> match del_idx {
                Some(idx) => misses_before_last_hit(linked_list@.take(i as int), target) == Some(
                    idx as nat,
                ),
                None => misses_before_last_hit(linked_list@.take(i as int), target) is None,
            },
        decreases linked_list.len() - i,
    {
        proof {
            assert(linked_list@.take(i + 1).drop_last() =~= linked_list@.take(i as int));
            assert(linked_list@.take(i + 1).last() == linked_list@[i as int]);
        }
        if linked_list[i] == target {
            del_idx = Some(curr_idx);
        } else {
            curr_idx += 1;
        }
        i = i + 1;
    }
    proof {
        assert(linked_list@.take(linked_list.len() as int) =~= linked_list@);
    }
    (linked_list, curr_idx, del_idx)
}

} // verus!
