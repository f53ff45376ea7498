//! The mathematical model of the list: a sequence of values, head first, and
//! the laws that pushing, popping, peeking and traversing obey on it.
use vstd::prelude::*;

verus! {

/// The sequence with `v` put in front.
pub open spec fn push_front<T>(s: Seq<T>, v: T) -> Seq<T> {
    seq![v] + s
}

/// The first value of `s`, if it has one.
pub open spec fn head_of<T>(s: Seq<T>) -> Option<T> {
    if s.len() == 0 {
        None
    } else {
        Some(s[0])
    }
}

/// The sequence without its first value; the empty sequence stays empty.
pub open spec fn without_head<T>(s: Seq<T>) -> Seq<T> {
    if s.len() == 0 {
        s
    } else {
        s.drop_first()
    }
}

/// The sequence after the values of `vs` have been put in front one by one,
/// `vs[0]` first.
pub open spec fn push_all<T>(s: Seq<T>, vs: Seq<T>) -> Seq<T>
    decreases vs.len(),
{
    if vs.len() == 0 {
        s
    } else {
        push_front(push_all(s, vs.drop_last()), vs.last())
    }
}

/// What `n` removals at the head hand back, in the order of the removals.
pub open spec fn pops<T>(s: Seq<T>, n: nat) -> Seq<Option<T>>
    decreases n,
{
    if n == 0 {
        Seq::empty()
    } else {
        seq![head_of(s)] + pops(without_head(s), (n - 1) as nat)
    }
}

/// The sequence that is left after `n` removals at the head.
pub open spec fn after_pops<T>(s: Seq<T>, n: nat) -> Seq<T>
    decreases n,
{
    if n == 0 {
        s
    } else {
        after_pops(without_head(s), (n - 1) as nat)
    }
}

/// The `i`-th of `n` removals hands back the `i`-th value while there is one,
/// and nothing after that; what is left is the sequence without its first `n`
/// values, or the empty sequence.
pub proof fn lemma_pops<T>(s: Seq<T>, n: nat)
    ensures
        pops(s, n).len() == n,
        forall|i: int| 0 <= i < n && i < s.len() ==> #[trigger] pops(s, n)[i] == Some(s[i]),
        forall|i: int| 0 <= i < n && i >= s.len() ==> (#[trigger] pops(s, n)[i]) is None,
        n <= s.len() ==> after_pops(s, n) == s.skip(n as int),
        n >= s.len() ==> after_pops(s, n) == Seq::<T>::empty(),
    decreases n,
{
    if n > 0 {
        let rest = without_head(s);
        lemma_pops(rest, (n - 1) as nat);
        let tail = pops(rest, (n - 1) as nat);
        assert forall|i: int| 0 <= i < n && i < s.len() implies #[trigger] pops(s, n)[i] == Some(
            s[i],
        ) by {
            if i > 0 {
                assert(pops(s, n)[i] == tail[i - 1]);
                assert(rest[i - 1] == s[i]);
            }
        }
        assert forall|i: int| 0 <= i < n && i >= s.len() implies (#[trigger] pops(s, n)[i]) is None by {
            if i > 0 {
                assert(pops(s, n)[i] == tail[i - 1]);
            }
        }
        if n <= s.len() {
            assert(rest.skip(n - 1) =~= s.skip(n as int));
        }
        if n >= s.len() {
            assert(after_pops(s, n) =~= Seq::<T>::empty());
        }
    } else {
        assert(s.skip(0) =~= s);
    }
}

/// Pushing leaves the values in reverse order of arrival in front of what was
/// there before.
pub proof fn lemma_push_all<T>(s: Seq<T>, vs: Seq<T>)
    ensures
        push_all(s, vs) == vs.reverse() + s,
    decreases vs.len(),
{
    if vs.len() > 0 {
        lemma_push_all(s, vs.drop_last());
        assert(seq![vs.last()] + (vs.drop_last().reverse() + s) =~= vs.reverse() + s);
    } else {
        assert(vs.reverse() + s =~= s);
    }
}

/// Last in, first out: after the values `vs` have been pushed, as many
/// removals hand them back in reverse order of arrival and leave the list as
/// it was before.
pub proof fn lemma_lifo<T>(s: Seq<T>, vs: Seq<T>)
    ensures
        pops(push_all(s, vs), vs.len()) == vs.reverse().map_values(|v: T| Some(v)),
        after_pops(push_all(s, vs), vs.len()) == s,
{
    let full = push_all(s, vs);
    lemma_push_all(s, vs);
    lemma_pops(full, vs.len());
    assert(pops(full, vs.len()) =~= vs.reverse().map_values(|v: T| Some(v)));
    assert(full.skip(vs.len() as int) =~= s);
}

/// Length conservation: after `vs.len()` pushes onto an empty list and
/// `j <= vs.len()` removals, a consuming traversal hands out exactly
/// `vs.len() - j` values and then nothing.
pub proof fn lemma_length_conservation<T>(vs: Seq<T>, j: nat, n: nat)
    requires
        j <= vs.len(),
    ensures
        after_pops(push_all(Seq::empty(), vs), j).len() == vs.len() - j,
        forall|i: int|
            0 <= i < n ==> ((#[trigger] pops(after_pops(push_all(Seq::empty(), vs), j), n)[i])
                is Some <==> i < vs.len() - j),
{
    let full = push_all(Seq::<T>::empty(), vs);
    lemma_push_all(Seq::<T>::empty(), vs);
    lemma_pops(full, j);
    let left = after_pops(full, j);
    lemma_pops(left, n);
}

/// Exhaustion: on an empty list every removal hands back nothing and leaves
/// the list empty, however often it is repeated.
pub proof fn lemma_exhaustion<T>(n: nat)
    ensures
        forall|i: int| 0 <= i < n ==> (#[trigger] pops(Seq::<T>::empty(), n)[i]) is None,
        after_pops(Seq::<T>::empty(), n) == Seq::<T>::empty(),
{
    lemma_pops(Seq::<T>::empty(), n);
}

/// Peeking and popping agree: the value that a peek shows is the value that
/// the removal right after it hands back.
pub proof fn lemma_peek_pop_agree<T>(s: Seq<T>)
    ensures
        pops(s, 1)[0] == head_of(s),
{
    lemma_pops(s, 1);
    assert(pops(without_head(s), 0) =~= Seq::<Option<T>>::empty());
}

/// A traversal that starts on `s` and takes the head at every step visits
/// the values of `s` in order, head first, and is exhausted after `s.len()`
/// steps. Every kind of traversal of the list steps in this way, so all of
/// them visit the same values in the same order.
pub proof fn lemma_traversal_order<T>(s: Seq<T>)
    ensures
        pops(s, s.len()) == s.map_values(|v: T| Some(v)),
        after_pops(s, s.len()) == Seq::<T>::empty(),
{
    lemma_pops(s, s.len());
    assert(pops(s, s.len()) =~= s.map_values(|v: T| Some(v)));
}

/// Mutation visibility: once the head value has been replaced by `v`, a peek
/// shows `v` and a removal hands back `v`; replacing the value at position `i`
/// is seen by the removal that reaches it.
pub proof fn lemma_mutation_visible<T>(s: Seq<T>, i: int, v: T)
    requires
        0 <= i < s.len(),
    ensures
        i == 0 ==> head_of(s.update(i, v)) == Some(v),
        pops(s.update(i, v), (i + 1) as nat)[i] == Some(v),
        forall|k: int| 0 <= k < i ==> #[trigger] pops(s.update(i, v), (i + 1) as nat)[k] == Some(s[k]),
{
    lemma_pops(s.update(i, v), (i + 1) as nat);
}

} // verus!
