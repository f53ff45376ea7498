//! Utilities over vectors.
use std::collections::HashSet;
use std::hash::Hash;
use vstd::prelude::*;
use vstd::std_specs::hash::obeys_key_model;
use vstd::std_specs::iter::IteratorSpec;
use crate::counting::occurrences;
use crate::digits::{
    append_digits, decimal_digits, decimal_value, digits_lsb_first, digits_msb_first,
    lemma_append_digits_grows, lemma_append_digits_push, lemma_digits_lsb_first_decimal,
    lemma_digits_msb_first_value, write_reversed,
};

pub use self::pairing::{add_to_target_brute, add_to_target_mapped};
pub use self::rain::rain_catcher;
pub use self::sudoku::is_valid_sudoku;

pub mod pairing;
pub mod rain;
pub mod sudoku;

verus! {

broadcast use vstd::std_specs::hash::group_hash_axioms;

/// `s` with every value that equals the value right before it left out.
pub open spec fn dedup_adjacent(s: Seq<i32>) -> Seq<i32>
    decreases s.len(),
{
    if s.len() <= 1 {
        s
    } else if s[s.len() - 1] == s[s.len() - 2] {
        dedup_adjacent(s.drop_last())
    } else {
        dedup_adjacent(s.drop_last()).push(s.last())
    }
}

/// Whether no value of `s` equals the value right before it.
pub open spec fn no_adjacent_repeat(s: Seq<i32>) -> bool {
    forall|i: int| 0 < i < s.len() ==> s[i - 1] != #[trigger] s[i]
}

/// A sequence without adjacent repeats is its own deduplication.
pub proof fn lemma_dedup_fixed_point(s: Seq<i32>)
    requires
        no_adjacent_repeat(s),
    ensures
        dedup_adjacent(s) == s,
    decreases s.len(),
{
    if s.len() > 1 {
        let front = s.drop_last();
        assert forall|i: int| 0 < i < front.len() implies front[i - 1] != #[trigger] front[i] by {
            assert(s[i - 1] != s[i]);
        }
        lemma_dedup_fixed_point(front);
        assert(s[s.len() - 2] != s[s.len() - 1]);
        assert(front.push(s.last()) =~= s);
    }
}

/// Taking out a value that equals the value right before it does not change
/// the deduplication.
pub proof fn lemma_dedup_remove_repeat(s: Seq<i32>, i: int)
    requires
        0 < i < s.len(),
        s[i] == s[i - 1],
    ensures
        dedup_adjacent(s.remove(i)) == dedup_adjacent(s),
    decreases s.len(),
{
    let shorter = s.remove(i);
    if i == s.len() - 1 {
        assert(shorter =~= s.drop_last());
    } else {
        assert(shorter.drop_last() =~= s.drop_last().remove(i));
        assert(shorter.last() == s.last());
        assert(shorter[shorter.len() - 2] == s[s.len() - 2]);
        lemma_dedup_remove_repeat(s.drop_last(), i);
    }
}

/// Removes every value that equals the value right before it, so that of
/// each run of equal values one is left.
pub fn remove_dupes(target: Vec<i32>) -> (unique: Vec<i32>)
    ensures
        unique@ == dedup_adjacent(target@),
{
    let mut target = target;
    let ghost given = target@;
    let mut i: usize = 1;
    while i < target.len()
        invariant
            1 <= i,
            dedup_adjacent(target@) == dedup_adjacent(given),
            forall|k: int| 0 < k < i && k < target.len() ==> target[k - 1] != #[trigger] target[k],
        decreases target.len() - i,
    {
        if target[i] == target[i - 1] {
            proof {
                lemma_dedup_remove_repeat(target@, i as int);
            }
            target.remove(i);
            continue ;
        }
        i = i + 1;
    }
    proof {
        lemma_dedup_fixed_point(target@);
    }
    target
}

/// The gain of holding over one day: the rise of the price, or nothing when
/// the price does not rise.
pub open spec fn day_gain(before: i32, after: i32) -> int {
    if after > before {
        after - before
    } else {
        0
    }
}

/// The sum of the gains of all days on which the price rises: the most that
/// any number of purchases and sales along `prices` can yield.
pub open spec fn total_gain(prices: Seq<i32>) -> int
    decreases prices.len(),
{
    if prices.len() <= 1 {
        0
    } else {
        total_gain(prices.drop_last()) + day_gain(
            prices[prices.len() - 2],
            prices[prices.len() - 1],
        )
    }
}

/// The gain over a shorter period is never negative and never more than the
/// gain over the whole period.
pub proof fn lemma_total_gain_monotonic(prices: Seq<i32>, days: int)
    requires
        0 <= days <= prices.len(),
    ensures
        0 <= total_gain(prices.take(days)) <= total_gain(prices),
    decreases prices.len() - days,
{
    if days == prices.len() {
        assert(prices.take(days) =~= prices);
        lemma_total_gain_nonnegative(prices);
    } else {
        lemma_total_gain_monotonic(prices, days + 1);
        assert(prices.take(days + 1).drop_last() =~= prices.take(days));
        lemma_total_gain_nonnegative(prices.take(days));
    }
}

/// The total gain is never negative.
pub proof fn lemma_total_gain_nonnegative(prices: Seq<i32>)
    ensures
        0 <= total_gain(prices),
    decreases prices.len(),
{
    if prices.len() > 1 {
        lemma_total_gain_nonnegative(prices.drop_last());
    }
}

/// The most that can be gained from `prices`, where `prices[i]` is the price
/// on day `i`, by buying and selling as often as one likes.
///
/// The result is a 32-bit number, so the gain has to fit in one.
pub fn max_return(prices: Vec<i32>) -> (max_profit: i32)
    requires
        total_gain(prices@) <= i32::MAX,
    ensures
        max_profit == total_gain(prices@),
{
    let mut max_profit: i32 = 0;
    let mut i: usize = 1;
    while i < prices.len()
        invariant
            1 <= i,
            total_gain(prices@) <= i32::MAX,
            i <= prices.len() ==> max_profit == total_gain(prices@.take(i as int)),
            i > prices.len() ==> max_profit == 0 && prices.len() == 0,
        decreases prices.len() - i,
    {
        proof {
            lemma_total_gain_monotonic(prices@, i as int);
            lemma_total_gain_monotonic(prices@, i + 1);
            assert(prices@.take(i + 1).drop_last() =~= prices@.take(i as int));
        }
        if prices[i] > prices[i - 1] {
            max_profit = max_profit + (prices[i] - prices[i - 1]);
        }
        i = i + 1;
    }
    proof {
        if prices.len() > 0 {
            assert(prices@.take(prices.len() as int) =~= prices@);
        }
    }
    max_profit
}

/// The number of places by which a rotation by `rotations` places moves the
/// values of a vector of `len` values to the right: `rotations` reduced
/// modulo the length.
pub open spec fn rotation_pivot(len: nat, rotations: u16) -> int {
    rotations as int % len as int
}

/// Moves the values of `items` to the right by `rotations` places; what moves
/// past the end comes back in at the front.
///
/// The vector must not be empty.
pub fn rotate_array<T: Clone>(items: Vec<T>, rotations: u16) -> (rotated: Vec<T>)
    requires
        items.len() > 0,
    ensures
        rotated@ == items@.skip(items.len() - rotation_pivot(items@.len(), rotations))
            + items@.take(items.len() - rotation_pivot(items@.len(), rotations)),
{
    let mut items = items;
    let ghost given = items@;
    let pivot: usize = rotations as usize % items.len();
    let rot: usize = items.len() - pivot;
    let mut rotated = items.split_off(rot);
    rotated.append(&mut items);
    proof {
        assert(given.subrange(rot as int, given.len() as int) =~= given.skip(rot as int));
        assert(given.subrange(0, rot as int) =~= given.take(rot as int));
    }
    rotated
}

/// Moves every zero of `input` to the back; the other values keep their
/// order in front of the zeros.
pub fn zeroes_in_back(input: Vec<i32>) -> (sorted: Vec<i32>)
    ensures
        sorted@ == input@.filter(|v: i32| v != 0) + input@.filter(|v: i32| v == 0),
{
    let ghost nonzero = |v: i32| v != 0;
    let ghost zero = |v: i32| v == 0;
    let mut front: Vec<i32> = Vec::new();
    let mut back: Vec<i32> = Vec::new();
    let mut i: usize = 0;
    proof {
        reveal(Seq::filter);
        assert(input@.take(0) =~= Seq::<i32>::empty());
    }
    while i < input.len()
        invariant
            i <= input.len(),
            front@ == input@.take(i as int).filter(nonzero),
            back@ == input@.take(i as int).filter(zero),
            nonzero == (|v: i32| v != 0),
            zero == (|v: i32| v == 0),
        decreases input.len() - i,
    {
        let value = input[i];
        proof {
            assert(input@.take(i + 1) =~= input@.take(i as int).push(value));
            input@.take(i as int).lemma_filter_push(value, nonzero);
            input@.take(i as int).lemma_filter_push(value, zero);
        }
        if value == 0 {
            back.push(value);
        } else {
            front.push(value);
        }
        i = i + 1;
    }
    proof {
        assert(input@.take(input.len() as int) =~= input@);
    }
    front.append(&mut back);
    front
}

/// The set of the values of `items`.
fn set_of<T: Eq + Hash>(items: Vec<T>) -> (set: HashSet<T>)
    ensures
        obeys_key_model::<T>() ==> set@ == items@.to_set(),
{
    let ghost given = items@;
    let mut set: HashSet<T> = HashSet::new();
    for item in it: items
        invariant
            it.seq() == given,
            obeys_key_model::<T>() ==> set@ == given.take(it.index() as int).to_set(),
    {
        proof {
            assert(given.take(it.index() + 1) =~= given.take(it.index() as int).push(item));
            given.take(it.index() as int).lemma_push_to_set_commute(item);
        }
        set.insert(item);
    }
    proof {
        assert(given.take(given.len() as int) =~= given);
    }
    set
}

/// Whether no value occurs twice in `items`. (The name says the opposite of
/// what the function answers.)
///
/// The answer is stated for value types whose hashing and equality agree
/// with equality of values.
pub fn has_dupes<T: Eq + Hash>(items: Vec<T>) -> (all_distinct: bool)
    ensures
        obeys_key_model::<T>() ==> all_distinct == items@.no_duplicates(),
{
    let item_len = items.len();
    let ghost given = items@;
    let hashed: HashSet<T> = set_of(items);
    proof {
        if obeys_key_model::<T>() {
            if given.no_duplicates() {
                given.unique_seq_to_set();
            }
            if given.to_set().len() == given.len() {
                given.lemma_no_dup_set_cardinality();
            }
        }
    }
    hashed.len() == item_len
}

/// Whether `copy` holds, value by value, clones of some enumeration of `set`
/// that names every value of the set once.
pub open spec fn is_cloned_enumeration<T: Clone>(copy: Seq<T>, set: Set<T>) -> bool {
    exists|order: Seq<T>| #[trigger] clones_of(order, copy) && order.no_duplicates() && order.to_set() == set
}

/// Whether `copy` holds, value by value, clones of the values of `order`.
pub open spec fn clones_of<T: Clone>(order: Seq<T>, copy: Seq<T>) -> bool {
    &&& order.len() == copy.len()
    &&& forall|i: int| 0 <= i < order.len() ==> cloned(#[trigger] order[i], copy[i])
}

/// The values of `from` that `other` holds, where `common` is set, or that
/// `other` does not hold, where it is not: cloned, in the order in which
/// `from` hands its values out.
fn select_members<T: Eq + Hash + Clone>(
    from: &HashSet<T>,
    other: &HashSet<T>,
    common: bool,
) -> (picked: Vec<T>)
    requires
        obeys_key_model::<T>(),
    ensures
        is_cloned_enumeration(
            picked@,
            Set::new(|x: T| from@.contains(x) && other@.contains(x) == common),
        ),
{
    let mut picked: Vec<T> = Vec::new();
    let ghost mut order: Seq<T> = Seq::empty();
    let ghost wanted = Set::new(|x: T| from@.contains(x) && other@.contains(x) == common);
    proof {
        let all = from.iter().remaining().unref();
        assert(all.skip(0) =~= all);
    }
    for x in it: from.iter()
        invariant
            obeys_key_model::<T>(),
            wanted == Set::new(|x: T| from@.contains(x) && other@.contains(x) == common),
            it.seq().unref().to_set() == from@,
            it.seq().no_duplicates(),
            order.no_duplicates(),
            clones_of(order, picked@),
            forall|v: T|
                order.contains(v) ==> wanted.contains(v) && !it.seq().unref().skip(
                    it.index() as int,
                ).contains(v),
            forall|v: T|
                wanted.contains(v) ==> order.contains(v) || it.seq().unref().skip(
                    it.index() as int,
                ).contains(v),
    {
        let is_in_other = other.contains(x);
        proof {
            let all = it.seq().unref();
            let k = it.index() as int;
            let rest0 = all.skip(k);
            let rest1 = all.skip(k + 1);
            assert(all[k] == *x);
            assert(rest0[0] == *x);
            assert(rest1 =~= rest0.drop_first());
            assert(!rest1.contains(*x)) by {
                if rest1.contains(*x) {
                    let j = choose|j: int| 0 <= j < rest1.len() && rest1[j] == *x;
                    assert(all[k + 1 + j] == all[k]);
                }
            }
            assert forall|v: T| rest0.contains(v) implies v == *x || rest1.contains(v) by {
                let j = choose|j: int| 0 <= j < rest0.len() && rest0[j] == v;
                if j > 0 {
                    assert(rest1[j - 1] == v);
                }
            }
            assert forall|v: T| rest1.contains(v) implies rest0.contains(v) by {
                let j = choose|j: int| 0 <= j < rest1.len() && rest1[j] == v;
                assert(rest0[j + 1] == v);
            }
            assert(all.contains(*x));
            assert(from@.contains(*x));
        }
        if is_in_other == common {
            let copy = x.clone();
            proof {
                assert(!order.contains(*x));
                let longer = order.push(*x);
                assert forall|v: T| longer.contains(v) <==> (order.contains(v) || v == *x) by {
                    if longer.contains(v) {
                        let j = choose|j: int| 0 <= j < longer.len() && longer[j] == v;
                        if j < order.len() {
                            assert(order[j] == v);
                        }
                    }
                    if order.contains(v) {
                        let j = choose|j: int| 0 <= j < order.len() && order[j] == v;
                        assert(longer[j] == v);
                    }
                    if v == *x {
                        assert(longer[order.len() as int] == v);
                    }
                }
                assert(longer.no_duplicates()) by {
                    assert forall|i: int, j: int|
                        0 <= i < longer.len() && 0 <= j < longer.len() && i != j implies longer[i]
                        != longer[j] by {
                        if i < order.len() && j < order.len() {
                        } else if i < order.len() {
                            assert(order.contains(order[i]));
                        } else {
                            assert(order.contains(order[j]));
                        }
                    }
                }
                order = order.push(*x);
            }
            picked.push(copy);
        }
    }
    proof {
        assert(order.to_set() =~= wanted);
        assert(clones_of(order, picked@));
    }
    picked
}

/// The values that occur exactly once in `items`, each once, in no
/// particular order.
///
/// The values are told apart by hashing, so the value type has to hash and
/// compare in agreement with equality of values.
pub fn get_unique<T: Eq + Hash + Clone>(items: Vec<T>) -> (unique: Vec<T>)
    requires
        obeys_key_model::<T>(),
    ensures
        is_cloned_enumeration(unique@, Set::new(|x: T| occurrences(items@, x) == 1)),
{
    let mut items = items;
    let ghost given = items@;
    let mut set_a: HashSet<T> = HashSet::with_capacity(items.len());
    let mut set_b: HashSet<T> = HashSet::new();
    proof {
        assert(given.skip(given.len() as int) =~= Seq::<T>::empty());
    }
    while items.len() > 0
        invariant
            obeys_key_model::<T>(),
            items@ == given.take(items.len() as int),
            items.len() <= given.len(),
            forall|x: T| set_a@.contains(x) <==> occurrences(given.skip(items.len() as int), x) >= 1,
            forall|x: T| set_b@.contains(x) <==> occurrences(given.skip(items.len() as int), x) >= 2,
        decreases items.len(),
    {
        let ghost before = items.len() as int;
        let el = items.pop().unwrap();
        proof {
            assert(given.skip(before - 1).drop_first() =~= given.skip(before));
            assert(given.skip(before - 1)[0] == el);
            assert(items@ =~= given.take(before - 1));
        }
        if set_a.contains(&el) {
            set_b.insert(el);
        } else {
            set_a.insert(el);
        }
    }
    proof {
        assert(given.skip(0) =~= given);
    }
    let mut unique = select_members(&set_a, &set_b, false);
    let mut rest = select_members(&set_b, &set_a, false);
    proof {
        let singles = Set::new(|x: T| occurrences(given, x) == 1);
        let first = Set::new(|x: T| set_a@.contains(x) && set_b@.contains(x) == false);
        let second = Set::new(|x: T| set_b@.contains(x) && set_a@.contains(x) == false);
        assert(first =~= singles);
        assert(second =~= Set::<T>::empty());
        let order = choose|order: Seq<T>| #[trigger]
            clones_of(order, rest@) && order.no_duplicates() && order.to_set() == second;
        if order.len() > 0 {
            assert(order.contains(order[0]));
            assert(second.contains(order[0]));
        }
        assert(unique@ + rest@ =~= unique@);
    }
    unique.append(&mut rest);
    unique
}

/// The values that both `vec_a` and `vec_b` hold, each once, in no particular
/// order.
///
/// The values are told apart by hashing, so the value type has to hash and
/// compare in agreement with equality of values.
pub fn get_intersection<T: Eq + Hash + Clone>(vec_a: Vec<T>, vec_b: Vec<T>) -> (shared: Vec<T>)
    requires
        obeys_key_model::<T>(),
    ensures
        is_cloned_enumeration(shared@, vec_a@.to_set().intersect(vec_b@.to_set())),
{
    let set_a: HashSet<T> = set_of(vec_a);
    let set_b: HashSet<T> = set_of(vec_b);
    let shared = select_members(&set_a, &set_b, true);
    proof {
        assert(Set::new(|x: T| set_a@.contains(x) && set_b@.contains(x) == true)
            =~= vec_a@.to_set().intersect(vec_b@.to_set()));
    }
    shared
}

/// The number that `items` write when the decimal digits of each item are
/// written one item after the other, every item from its least significant
/// digit. For items that are single digits this is the number that the digits
/// write, the most significant first.
pub open spec fn written_number(items: Seq<u32>) -> int
    decreases items.len(),
{
    if items.len() == 0 {
        0
    } else {
        append_digits(written_number(items.drop_last()), digits_lsb_first(items.last() as nat))
    }
}

/// The number that the first `count` items write is not negative and not
/// greater than the number that all of them write.
pub proof fn lemma_written_number_prefix(items: Seq<u32>, count: int)
    requires
        0 <= count <= items.len(),
    ensures
        0 <= written_number(items.take(count)) <= written_number(items),
    decreases items.len() - count,
{
    if count == items.len() {
        assert(items.take(count) =~= items);
        lemma_written_number_nonnegative(items);
    } else {
        lemma_written_number_prefix(items, count + 1);
        assert(items.take(count + 1).drop_last() =~= items.take(count));
        lemma_written_number_nonnegative(items.take(count));
        lemma_digits_lsb_first_decimal(items[count] as nat);
        lemma_append_digits_grows(
            written_number(items.take(count)),
            digits_lsb_first(items[count] as nat),
        );
    }
}

/// The number that items write is not negative.
pub proof fn lemma_written_number_nonnegative(items: Seq<u32>)
    ensures
        0 <= written_number(items),
    decreases items.len(),
{
    if items.len() > 0 {
        lemma_written_number_nonnegative(items.drop_last());
        lemma_digits_lsb_first_decimal(items.last() as nat);
        lemma_append_digits_grows(
            written_number(items.drop_last()),
            digits_lsb_first(items.last() as nat),
        );
    }
}

/// Items that are single digits write the number that the digits write, the
/// most significant first.
pub proof fn lemma_written_number_of_digits(items: Seq<u32>)
    requires
        forall|i: int| 0 <= i < items.len() ==> #[trigger] items[i] <= 9,
    ensures
        written_number(items) == decimal_value(items.map_values(|d: u32| d as int)),
    decreases items.len(),
{
    let digits = items.map_values(|d: u32| d as int);
    if items.len() > 0 {
        lemma_written_number_of_digits(items.drop_last());
        assert(items.drop_last().map_values(|d: u32| d as int) =~= digits.drop_last());
        lemma_append_digits_push(
            written_number(items.drop_last()),
            Seq::<int>::empty(),
            items.last() as int,
        );
        assert(Seq::<int>::empty().push(items.last() as int) =~= digits_lsb_first(
            items.last() as nat,
        ));
    }
}

/// Adds one to the number that the digits of `input` write, the most
/// significant first, and gives the digits of the sum.
///
/// An item of more than one digit counts as its digits from the least
/// significant to the most significant. The input must not be empty, and the
/// sum has to fit in 32 bits.
pub fn add_one(input: Vec<u32>) -> (plus_one: Vec<u32>)
    requires
        input.len() > 0,
        written_number(input@) < u32::MAX,
    ensures
        plus_one@.map_values(|d: u32| d as int) == digits_msb_first(
            (written_number(input@) + 1) as nat,
        ),
        decimal_value(plus_one@.map_values(|d: u32| d as int)) == written_number(input@) + 1,
        (forall|i: int| 0 <= i < input.len() ==> #[trigger] input[i] <= 9) ==> written_number(
            input@,
        ) == decimal_value(input@.map_values(|d: u32| d as int)),
{
    let mut value: u64 = 0;
    let mut i: usize = 0;
    proof {
        assert(input@.take(0) =~= Seq::<u32>::empty());
    }
    while i < input.len()
        invariant
            i <= input.len(),
            written_number(input@) < u32::MAX,
            value == written_number(input@.take(i as int)),
        decreases input.len() - i,
    {
        proof {
            lemma_written_number_prefix(input@, i + 1);
            assert(input@.take(i + 1).drop_last() =~= input@.take(i as int));
        }
        value = write_reversed(value, input[i]);
        i = i + 1;
    }
    proof {
        assert(input@.take(input.len() as int) =~= input@);
        lemma_digits_msb_first_value((value + 1) as nat);
        if forall|i: int| 0 <= i < input.len() ==> #[trigger] input[i] <= 9 {
            lemma_written_number_of_digits(input@);
        }
    }
    let plus_one: u32 = (value + 1) as u32;
    decimal_digits(plus_one)
}

} // verus!
