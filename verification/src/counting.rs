//! Counting how often a value occurs in a sequence.
use vstd::prelude::*;

verus! {

/// How often `x` occurs in `s`.
pub open spec fn occurrences<T>(s: Seq<T>, x: T) -> nat
    decreases s.len(),
{
    if s.len() == 0 {
        0
    } else {
        (if s[0] == x {
            1nat
        } else {
            0nat
        }) + occurrences(s.drop_first(), x)
    }
}

/// One more value at the end adds one to the count of that value and leaves
/// all other counts as they are.
pub proof fn lemma_occurrences_push<T>(s: Seq<T>, last: T, x: T)
    ensures
        occurrences(s.push(last), x) == occurrences(s, x) + (if last == x {
            1nat
        } else {
            0nat
        }),
    decreases s.len(),
{
    if s.len() == 0 {
        reveal_with_fuel(occurrences, 2);
        assert(s.push(last).drop_first() =~= Seq::<T>::empty());
        assert(s.push(last)[0] == last);
    } else {
        lemma_occurrences_push(s.drop_first(), last, x);
        assert(s.push(last).drop_first() =~= s.drop_first().push(last));
        assert(s.push(last)[0] == s[0]);
    }
}

/// A value occurs at least once exactly if the sequence holds it, and never
/// more often than the sequence is long.
pub proof fn lemma_occurrences_bounds<T>(s: Seq<T>, x: T)
    ensures
        occurrences(s, x) <= s.len(),
        occurrences(s, x) >= 1 <==> s.contains(x),
    decreases s.len(),
{
    if s.len() > 0 {
        lemma_occurrences_bounds(s.drop_first(), x);
        if s.drop_first().contains(x) {
            let j = choose|j: int| 0 <= j < s.drop_first().len() && s.drop_first()[j] == x;
            assert(s[j + 1] == x);
        }
        if s.contains(x) && s[0] != x {
            let j = choose|j: int| 0 <= j < s.len() && s[j] == x;
            assert(s.drop_first()[j - 1] == x);
        }
    }
}

/// A value occurs in the first values of a sequence at most as often as in
/// the whole sequence.
pub proof fn lemma_occurrences_prefix<T>(s: Seq<T>, count: int, x: T)
    requires
        0 <= count <= s.len(),
    ensures
        occurrences(s.take(count), x) <= occurrences(s, x),
    decreases s.len() - count,
{
    if count == s.len() {
        assert(s.take(count) =~= s);
    } else {
        lemma_occurrences_prefix(s, count + 1, x);
        assert(s.take(count + 1) =~= s.take(count).push(s[count]));
        lemma_occurrences_push(s.take(count), s[count], x);
    }
}

} // verus!
