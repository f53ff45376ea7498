//! Pairs of positions whose values add up to a target.
use std::collections::{HashMap, HashSet};
use vstd::prelude::*;

verus! {

broadcast use vstd::std_specs::hash::group_hash_axioms;

/// Whether the values at positions `i` and `j` of `input` add up to `target`.
pub open spec fn sums_to(input: Seq<i32>, i: int, j: int, target: i32) -> bool {
    input[i] + input[j] == target
}

/// The positions that the pairs of `out` whose first position is below
/// `first` have taken.
pub open spec fn taken_before(out: Seq<(usize, usize)>, first: int) -> Set<int> {
    Set::new(
        |idx: int|
            exists|m: int|
                0 <= m < out.len() && (#[trigger] out[m]).0 < first && (out[m].0 == idx
                    || out[m].1 == idx),
    )
}

/// Whether position `idx` is still free when the search reaches position
/// `first`: no pair that starts before `first` has taken it.
pub open spec fn free_at(out: Seq<(usize, usize)>, first: int, idx: int) -> bool {
    !taken_before(out, first).contains(idx)
}

/// Whether `out[k]` pairs a free position with the first free position behind
/// it whose value completes the sum.
pub open spec fn pair_is_first_fit(
    input: Seq<i32>,
    target: i32,
    out: Seq<(usize, usize)>,
    k: int,
) -> bool {
    let i = out[k].0 as int;
    let j = out[k].1 as int;
    &&& 0 <= i < j < input.len()
    &&& sums_to(input, i, j, target)
    &&& free_at(out, i, i)
    &&& free_at(out, i, j)
    &&& forall|between: int|
        i < between < j ==> !free_at(out, i, between) || !#[trigger] sums_to(
            input,
            i,
            between,
            target,
        )
}

/// Whether some pair of `out` starts at position `i`.
pub open spec fn starts_pair(out: Seq<(usize, usize)>, i: int) -> bool {
    exists|k: int| 0 <= k < out.len() && (#[trigger] out[k]).0 == i
}

/// Whether `out` is the first-fit pairing of the positions below `limit`:
/// going through the positions in rising order, every position that is still
/// free and has a free partner behind it is paired with the first such
/// partner, and nothing else is paired.
pub open spec fn first_fit_pairing_upto(
    input: Seq<i32>,
    target: i32,
    out: Seq<(usize, usize)>,
    limit: int,
) -> bool {
    &&& forall|k: int|
        0 <= k < out.len() ==> (#[trigger] out[k]).0 < limit && pair_is_first_fit(
            input,
            target,
            out,
            k,
        )
    &&& forall|k: int, m: int|
        0 <= k < m < out.len() ==> (#[trigger] out[k]).0 < (#[trigger] out[m]).0
    &&& forall|i: int, j: int|
        0 <= i < limit && i < j < input.len() && #[trigger] sums_to(input, i, j, target)
            && free_at(out, i, i) && free_at(out, i, j) ==> starts_pair(out, i)
}

/// Whether `out` is the first-fit pairing of all positions of `input`.
pub open spec fn is_first_fit_pairing(
    input: Seq<i32>,
    target: i32,
    out: Seq<(usize, usize)>,
) -> bool {
    first_fit_pairing_upto(input, target, out, input.len() as int)
}

/// A pair that starts at or behind `first` takes nothing before `first`.
proof fn lemma_taken_before_push(out: Seq<(usize, usize)>, pair: (usize, usize), first: int)
    requires
        pair.0 >= first,
    ensures
        taken_before(out.push(pair), first) == taken_before(out, first),
{
    let longer = out.push(pair);
    assert forall|idx: int| taken_before(longer, first).contains(idx) implies taken_before(
        out,
        first,
    ).contains(idx) by {
        let m = choose|m: int|
            0 <= m < longer.len() && (#[trigger] longer[m]).0 < first && (longer[m].0 == idx
                || longer[m].1 == idx);
        assert(m < out.len());
        assert(out[m] == longer[m]);
    }
    assert forall|idx: int| taken_before(out, first).contains(idx) implies taken_before(
        longer,
        first,
    ).contains(idx) by {
        let m = choose|m: int|
            0 <= m < out.len() && (#[trigger] out[m]).0 < first && (out[m].0 == idx || out[m].1
                == idx);
        assert(longer[m] == out[m]);
    }
    assert(taken_before(longer, first) =~= taken_before(out, first));
}

/// Pairs of positions of `input` whose values add up to `target`, found by
/// first fit: the positions are gone through in rising order, and each one
/// that no earlier pair has taken is paired with the first position behind it
/// that no pair has taken and whose value completes the sum. No position is
/// in two pairs.
///
/// The input must not be empty.
pub fn add_to_target_brute(input: Vec<i32>, target: i32) -> (output: Vec<(usize, usize)>)
    requires
        input.len() > 0,
    ensures
        is_first_fit_pairing(input@, target, output@),
{
    let mut found: HashSet<usize> = HashSet::new();
    let mut output: Vec<(usize, usize)> = Vec::new();
    let n = input.len();

    let mut i: usize = 0;
    while i < n - 1
        invariant
            n == input.len(),
            n > 0,
            i <= n - 1,
            first_fit_pairing_upto(input@, target, output@, i as int),
            forall|idx: usize| found@.contains(idx) <==> taken_before(output@, i as int).contains(idx as int),
        decreases n - i,
    {
        let ghost out0 = output@;
        let ghost found0 = found@;
        if !found.contains(&i) {
            let mut j: usize = i + 1;
            while j < n
                invariant
                    n == input.len(),
                    i < j <= n,
                    i < n - 1,
                    !found0.contains(i),
                    first_fit_pairing_upto(input@, target, out0, i as int),
                    forall|idx: usize| found0.contains(idx) <==> taken_before(out0, i as int).contains(idx as int),
                    output@.len() == out0.len() || output@.len() == out0.len() + 1,
                    output@.len() == out0.len() ==> output@ == out0 && found@ == found0
                        && forall|between: int|
                        i < between < j ==> found0.contains(between as usize) || !#[trigger] sums_to(
                            input@,
                            i as int,
                            between,
                            target,
                        ),
                    output@.len() == out0.len() + 1 ==> ({
                        let pair = output@[out0.len() as int];
                        &&& output@ == out0.push(pair)
                        &&& pair.0 == i
                        &&& i < pair.1 < j
                        &&& sums_to(input@, i as int, pair.1 as int, target)
                        &&& !found0.contains(pair.1)
                        &&& found@ == found0.insert(i).insert(pair.1)
                        &&& forall|between: int|
                            i < between < pair.1 ==> found0.contains(between as usize)
                                || !#[trigger] sums_to(input@, i as int, between, target)
                    }),
                decreases n - j,
            {
                if !(found.contains(&j) || found.contains(&i)) {
                    if input[i] as i64 + input[j] as i64 == target as i64 {
                        found.insert(i);
                        found.insert(j);
                        output.push((i, j));
                    }
                }
                j = j + 1;
            }
        }
        proof {
            let out1 = output@;
            let next = i as int + 1;
            if out1.len() == out0.len() {
                assert(out1 == out0);
                assert(taken_before(out0, next) =~= taken_before(out0, i as int)) by {
                    assert forall|idx: int| taken_before(out0, next).contains(idx) implies taken_before(
                        out0,
                        i as int,
                    ).contains(idx) by {
                        let m = choose|m: int|
                            0 <= m < out0.len() && (#[trigger] out0[m]).0 < next && (out0[m].0 == idx
                                || out0[m].1 == idx);
                        assert(out0[m].0 < i);
                    }
                }
                assert forall|a: int, b: int|
                    0 <= a < next && a < b < input@.len() && #[trigger] sums_to(input@, a, b, target)
                        && free_at(out1, a, a) && free_at(out1, a, b) implies starts_pair(out1, a) by {
                    if a == i {
                        if found0.contains(i) {
                            assert(taken_before(out0, i as int).contains(i as int));
                        } else {
                            assert(found0.contains(b as usize) || !sums_to(input@, i as int, b, target));
                            assert(taken_before(out0, i as int).contains(b));
                        }
                    }
                }
            } else {
                let pair = out1[out0.len() as int];
                assert(out1 == out0.push(pair));
                lemma_first_fit_push(input@, target, out0, pair, i as int);
                assert forall|idx: usize| found@.contains(idx) <==> taken_before(out1, next).contains(
                    idx as int,
                ) by {
                    lemma_taken_before_push(out0, pair, i as int);
                    if taken_before(out1, next).contains(idx as int) {
                        let m = choose|m: int|
                            0 <= m < out1.len() && (#[trigger] out1[m]).0 < next && (out1[m].0
                                == idx as int || out1[m].1 == idx as int);
                        if m < out0.len() {
                            assert(out0[m] == out1[m]);
                            assert(out0[m].0 < i);
                            assert(taken_before(out0, i as int).contains(idx as int));
                        }
                    }
                    if found@.contains(idx) {
                        if idx == i || idx == pair.1 {
                            assert(out1[out0.len() as int].0 < next);
                        } else {
                            assert(taken_before(out0, i as int).contains(idx as int));
                            let m = choose|m: int|
                                0 <= m < out0.len() && (#[trigger] out0[m]).0 < i && (out0[m].0
                                    == idx as int || out0[m].1 == idx as int);
                            assert(out1[m] == out0[m]);
                        }
                    }
                }
            }
        }
        i = i + 1;
    }
    proof {
        let out = output@;
        assert forall|a: int, b: int|
            0 <= a < n && a < b < input@.len() && #[trigger] sums_to(input@, a, b, target) && free_at(
                out,
                a,
                a,
            ) && free_at(out, a, b) implies starts_pair(out, a) by {
            assert(a < n - 1);
        }
    }
    output
}

/// Appending a first-fit pair for position `i` to the first-fit pairing of
/// the positions below `i` gives the first-fit pairing of the positions up to
/// and including `i`.
proof fn lemma_first_fit_push(
    input: Seq<i32>,
    target: i32,
    out: Seq<(usize, usize)>,
    pair: (usize, usize),
    i: int,
)
    requires
        first_fit_pairing_upto(input, target, out, i),
        pair.0 == i,
        i < pair.1 < input.len(),
        0 <= i,
        sums_to(input, i, pair.1 as int, target),
        free_at(out, i, i),
        free_at(out, i, pair.1 as int),
        forall|between: int|
            i < between < pair.1 ==> !free_at(out, i, between) || !#[trigger] sums_to(
                input,
                i,
                between,
                target,
            ),
    ensures
        first_fit_pairing_upto(input, target, out.push(pair), i + 1),
{
    let longer = out.push(pair);
    assert forall|k: int| 0 <= k < longer.len() implies (#[trigger] longer[k]).0 < i + 1
        && pair_is_first_fit(input, target, longer, k) by {
        let first = longer[k].0 as int;
        if k < out.len() {
            assert(longer[k] == out[k]);
            assert(pair_is_first_fit(input, target, out, k));
        }
        lemma_taken_before_push(out, pair, first);
    }
    assert forall|k: int, m: int| 0 <= k < m < longer.len() implies (#[trigger] longer[k]).0 < (
    #[trigger] longer[m]).0 by {
        assert(longer[k] == out[k]);
        if m < out.len() {
            assert(longer[m] == out[m]);
        }
    }
    assert forall|a: int, b: int|
        0 <= a < i + 1 && a < b < input.len() && #[trigger] sums_to(input, a, b, target) && free_at(
            longer,
            a,
            a,
        ) && free_at(longer, a, b) implies starts_pair(longer, a) by {
        lemma_taken_before_push(out, pair, a);
        if a == i {
            assert(longer[out.len() as int].0 == i);
        } else {
            assert(starts_pair(out, a));
            let k = choose|k: int| 0 <= k < out.len() && (#[trigger] out[k]).0 == a;
            assert(longer[k] == out[k]);
        }
    }
}

/// Whether `idx` is the last position of `input` that holds `value`.
pub open spec fn is_last_index_of(input: Seq<i32>, idx: int, value: int) -> bool {
    &&& 0 <= idx < input.len()
    &&& input[idx] == value
    &&& forall|later: int| idx < later < input.len() ==> #[trigger] input[later] != value
}

/// The positions that the pairs of `out` whose first position is below
/// `first` have as their second position.
pub open spec fn seconds_before(out: Seq<(usize, usize)>, first: int) -> Set<int> {
    Set::new(
        |idx: int|
            exists|m: int| 0 <= m < out.len() && (#[trigger] out[m]).0 < first && out[m].1 == idx,
    )
}

/// Whether position `i` is to be paired with position `partner`: `partner`
/// is another position, the last one whose value completes the sum, and no
/// pair that starts before `i` has `i` or `partner` as its second position.
pub open spec fn pairs_with_last(
    input: Seq<i32>,
    target: i32,
    out: Seq<(usize, usize)>,
    i: int,
    partner: int,
) -> bool {
    &&& 0 <= i < input.len()
    &&& is_last_index_of(input, partner, target - input[i])
    &&& partner != i
    &&& !seconds_before(out, i).contains(partner)
    &&& !seconds_before(out, i).contains(i)
}

/// Whether `out` holds, in rising order of the first position, exactly the
/// pairs that `pairs_with_last` asks for among the positions below `limit`.
pub open spec fn last_index_pairing_upto(
    input: Seq<i32>,
    target: i32,
    out: Seq<(usize, usize)>,
    limit: int,
) -> bool {
    &&& forall|k: int|
        0 <= k < out.len() ==> (#[trigger] out[k]).0 < limit && pairs_with_last(
            input,
            target,
            out,
            out[k].0 as int,
            out[k].1 as int,
        )
    &&& forall|k: int, m: int|
        0 <= k < m < out.len() ==> (#[trigger] out[k]).0 < (#[trigger] out[m]).0
    &&& forall|i: int, partner: int|
        0 <= i < limit && #[trigger] pairs_with_last(input, target, out, i, partner)
            ==> starts_pair(out, i)
}

/// Whether `out` holds exactly the pairs that `pairs_with_last` asks for
/// among all positions of `input`.
pub open spec fn is_last_index_pairing(
    input: Seq<i32>,
    target: i32,
    out: Seq<(usize, usize)>,
) -> bool {
    last_index_pairing_upto(input, target, out, input.len() as int)
}

/// A pair that starts at or behind `first` adds no second position before
/// `first`.
proof fn lemma_seconds_before_push(out: Seq<(usize, usize)>, pair: (usize, usize), first: int)
    requires
        pair.0 >= first,
    ensures
        seconds_before(out.push(pair), first) == seconds_before(out, first),
{
    let longer = out.push(pair);
    assert forall|idx: int| seconds_before(longer, first).contains(idx) implies seconds_before(
        out,
        first,
    ).contains(idx) by {
        let m = choose|m: int|
            0 <= m < longer.len() && (#[trigger] longer[m]).0 < first && longer[m].1 == idx;
        assert(m < out.len());
        assert(out[m] == longer[m]);
    }
    assert forall|idx: int| seconds_before(out, first).contains(idx) implies seconds_before(
        longer,
        first,
    ).contains(idx) by {
        let m = choose|m: int| 0 <= m < out.len() && (#[trigger] out[m]).0 < first && out[m].1 == idx;
        assert(longer[m] == out[m]);
    }
    assert(seconds_before(longer, first) =~= seconds_before(out, first));
}

/// Going on to the next position without a new pair keeps the pairing.
proof fn lemma_last_index_skip(input: Seq<i32>, target: i32, out: Seq<(usize, usize)>, i: int)
    requires
        last_index_pairing_upto(input, target, out, i),
        forall|partner: int| !pairs_with_last(input, target, out, i, partner),
    ensures
        last_index_pairing_upto(input, target, out, i + 1),
        seconds_before(out, i + 1) == seconds_before(out, i),
{
    assert forall|idx: int| seconds_before(out, i + 1).contains(idx) implies seconds_before(
        out,
        i,
    ).contains(idx) by {
        let m = choose|m: int| 0 <= m < out.len() && (#[trigger] out[m]).0 < i + 1 && out[m].1 == idx;
        assert(out[m].0 < i);
    }
    assert(seconds_before(out, i + 1) =~= seconds_before(out, i));
}

/// Appending the pair that `pairs_with_last` asks for at position `i` keeps
/// the pairing.
proof fn lemma_last_index_push(
    input: Seq<i32>,
    target: i32,
    out: Seq<(usize, usize)>,
    pair: (usize, usize),
    i: int,
)
    requires
        last_index_pairing_upto(input, target, out, i),
        pair.0 == i,
        pairs_with_last(input, target, out, i, pair.1 as int),
    ensures
        last_index_pairing_upto(input, target, out.push(pair), i + 1),
        seconds_before(out.push(pair), i + 1) == seconds_before(out, i).insert(pair.1 as int),
{
    let longer = out.push(pair);
    assert forall|k: int| 0 <= k < longer.len() implies (#[trigger] longer[k]).0 < i + 1
        && pairs_with_last(input, target, longer, longer[k].0 as int, longer[k].1 as int) by {
        let first = longer[k].0 as int;
        if k < out.len() {
            assert(longer[k] == out[k]);
            assert(pairs_with_last(input, target, out, out[k].0 as int, out[k].1 as int));
        }
        lemma_seconds_before_push(out, pair, first);
    }
    assert forall|k: int, m: int| 0 <= k < m < longer.len() implies (#[trigger] longer[k]).0 < (
    #[trigger] longer[m]).0 by {
        assert(longer[k] == out[k]);
        if m < out.len() {
            assert(longer[m] == out[m]);
        }
    }
    assert forall|a: int, partner: int|
        0 <= a < i + 1 && #[trigger] pairs_with_last(
            input,
            target,
            longer,
            a,
            partner,
        ) implies starts_pair(longer, a) by {
        lemma_seconds_before_push(out, pair, a);
        if a == i {
            assert(longer[out.len() as int].0 == i);
        } else {
            assert(pairs_with_last(input, target, out, a, partner));
            assert(starts_pair(out, a));
            let k = choose|k: int| 0 <= k < out.len() && (#[trigger] out[k]).0 == a;
            assert(longer[k] == out[k]);
        }
    }
    assert(seconds_before(longer, i + 1) =~= seconds_before(out, i).insert(pair.1 as int)) by {
        assert forall|idx: int| seconds_before(longer, i + 1).contains(idx) implies seconds_before(
            out,
            i,
        ).insert(pair.1 as int).contains(idx) by {
            let m = choose|m: int|
                0 <= m < longer.len() && (#[trigger] longer[m]).0 < i + 1 && longer[m].1 == idx;
            if m < out.len() {
                assert(longer[m] == out[m]);
                assert(out[m].0 < i);
            }
        }
        assert forall|idx: int|
            seconds_before(out, i).insert(pair.1 as int).contains(idx) implies seconds_before(
            longer,
            i + 1,
        ).contains(idx) by {
            if idx == pair.1 as int {
                assert(longer[out.len() as int].0 < i + 1);
            } else {
                let m = choose|m: int|
                    0 <= m < out.len() && (#[trigger] out[m]).0 < i && out[m].1 == idx;
                assert(longer[m] == out[m]);
            }
        }
    }
}

/// Pairs of positions of `input` whose values add up to `target`, found with
/// a map from each value to the last position that holds it: the positions
/// are gone through in rising order, and each one is paired with the last
/// position whose value completes the sum, unless that is the position
/// itself or one of the two is already the second position of a pair.
pub fn add_to_target_mapped(input: Vec<i32>, target: i32) -> (output: Vec<(usize, usize)>)
    ensures
        is_last_index_pairing(input@, target, output@),
{
    let mut hashed: HashMap<i32, usize> = HashMap::new();
    let mut found: HashSet<usize> = HashSet::new();
    let mut output: Vec<(usize, usize)> = Vec::new();
    let n = input.len();

    let mut i: usize = 0;
    while i < n
        invariant
            n == input.len(),
            i <= n,
            forall|idx: int| 0 <= idx < i ==> hashed@.contains_key(#[trigger] input@[idx]),
            forall|v: i32| #[trigger]
                hashed@.contains_key(v) ==> hashed@[v] < i && is_last_index_of(
                    input@.take(i as int),
                    hashed@[v] as int,
                    v as int,
                ),
        decreases n - i,
    {
        let ghost before = hashed@;
        hashed.insert(input[i], i);
        proof {
            let shorter = input@.take(i as int);
            let longer = input@.take(i + 1);
            assert(longer[i as int] == input@[i as int]);
            assert forall|v: i32| #[trigger] hashed@.contains_key(v) implies hashed@[v] < i + 1
                && is_last_index_of(longer, hashed@[v] as int, v as int) by {
                if v != input@[i as int] {
                    assert(before.contains_key(v));
                    assert(is_last_index_of(shorter, before[v] as int, v as int));
                    assert(longer[before[v] as int] == shorter[before[v] as int]);
                    assert forall|later: int| before[v] < later < longer.len() implies #[trigger] longer[later]
                        != v as int by {
                        if later < i {
                            assert(shorter[later] != v as int);
                        }
                    }
                }
            }
        }
        i = i + 1;
    }
    proof {
        assert(input@.take(n as int) =~= input@);
    }

    let mut i: usize = 0;
    while i < n
        invariant
            n == input.len(),
            i <= n,
            forall|idx: int| 0 <= idx < n ==> hashed@.contains_key(#[trigger] input@[idx]),
            forall|v: i32| #[trigger]
                hashed@.contains_key(v) ==> is_last_index_of(input@, hashed@[v] as int, v as int),
            last_index_pairing_upto(input@, target, output@, i as int),
            forall|idx: usize|
                found@.contains(idx) <==> seconds_before(output@, i as int).contains(idx as int),
        decreases n - i,
    {
        let temp: i64 = target as i64 - input[i] as i64;
        let ghost out0 = output@;
        let ghost mut paired = false;
        if i32::MIN as i64 <= temp && temp <= i32::MAX as i64 {
            let key: i32 = temp as i32;
            match hashed.get(&key) {
                Some(index_ref) => {
                    let index: usize = *index_ref;
                    assert(is_last_index_of(input@, index as int, temp as int));
                    if i != index && !found.contains(&index) && !found.contains(&i) {
                        proof {
                            assert(pairs_with_last(input@, target, out0, i as int, index as int));
                            lemma_last_index_push(input@, target, out0, (i, index), i as int);
                            paired = true;
                        }
                        output.push((i, index));
                        found.insert(index);
                    } else {
                        proof {
                            assert forall|partner: int|
                                !pairs_with_last(input@, target, out0, i as int, partner) by {
                                if pairs_with_last(input@, target, out0, i as int, partner) {
                                    if partner < index {
                                        assert(input@[index as int] != temp as int);
                                    } else if partner > index {
                                        assert(input@[partner] != temp as int);
                                    }
                                }
                            }
                        }
                    }
                },
                None => {
                    proof {
                        assert forall|partner: int|
                            !pairs_with_last(input@, target, out0, i as int, partner) by {
                            if pairs_with_last(input@, target, out0, i as int, partner) {
                                assert(hashed@.contains_key(input@[partner]));
                            }
                        }
                    }
                },
            }
        } else {
            proof {
                assert forall|partner: int|
                    !pairs_with_last(input@, target, out0, i as int, partner) by {
                    if pairs_with_last(input@, target, out0, i as int, partner) {
                        assert(input@[partner] == temp);
                    }
                }
            }
        }
        proof {
            if !paired {
                lemma_last_index_skip(input@, target, out0, i as int);
            }
        }
        i = i + 1;
    }
    output
}

} // verus!
