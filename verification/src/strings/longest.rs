//! The longest stretch of a text in which no character occurs twice.
use std::collections::{HashMap, HashSet};
use vstd::prelude::*;
use crate::strings::{chars_of, code_of, lemma_code_of_injective, string_of};

verus! {

broadcast use vstd::std_specs::hash::group_hash_axioms;

/// Whether no character occurs twice among the characters of `s` from
/// position `from` up to, but not including, position `to`.
pub open spec fn repeat_free(s: Seq<char>, from: int, to: int) -> bool {
    forall|i: int, j: int| from <= i < j < to ==> s[i] != s[j]
}

/// Whether the `len` characters of `s` from position `start` on are the last
/// of the longest stretches of `s` in which no character occurs twice: no
/// such stretch is longer, and none of the same length starts later.
pub open spec fn is_last_longest_repeat_free(s: Seq<char>, start: int, len: int) -> bool {
    &&& 0 <= start
    &&& 0 <= len
    &&& start + len <= s.len()
    &&& repeat_free(s, start, start + len)
    &&& forall|a: int, b: int|
        0 <= a <= b <= s.len() && #[trigger] repeat_free(s, a, b) ==> b - a < len || (b - a == len
            && a <= start)
}

/// Whether `sub` is the last of the longest stretches of `s` in which no
/// character occurs twice.
pub open spec fn is_last_longest_stretch(s: Seq<char>, sub: Seq<char>) -> bool {
    exists|start: int| #[trigger]
        is_last_longest_repeat_free(s, start, sub.len() as int) && sub == s.subrange(
            start,
            start + sub.len(),
        )
}

/// What the search has found after it has noted down the stretch that ends
/// at position `i`: the longest stretch noted so far has `longest`
/// characters, starts at `best` and stands in `dict` under its length, and
/// every stretch without a repeated character that ends at or before `i` is
/// shorter, or as long and starts no later.
spec fn search_noted(
    s: Seq<char>,
    i: int,
    longest: int,
    best: int,
    dict: Map<usize, String>,
) -> bool {
    &&& 0 <= best
    &&& 0 <= longest
    &&& best + longest <= i <= s.len()
    &&& dict.contains_key(longest as usize)
    &&& dict[longest as usize]@ == s.subrange(best, best + longest)
    &&& repeat_free(s, best, best + longest)
    &&& forall|a: int, b: int|
        0 <= a <= b <= i && #[trigger] repeat_free(s, a, b) ==> b - a < longest || (b - a
            == longest && a <= best)
}

/// What the search knows while the stretch from `w` to `i` is growing: it is
/// the longest stretch without a repeated character that ends at `i`, and
/// every such stretch that ends at or before `i` lies inside it or has been
/// noted down.
spec fn search_growing(
    s: Seq<char>,
    i: int,
    w: int,
    noted: bool,
    longest: int,
    best: int,
    dict: Map<usize, String>,
) -> bool {
    &&& 0 <= w <= i <= s.len()
    &&& repeat_free(s, w, i)
    &&& forall|a: int| 0 <= a < w ==> !#[trigger] repeat_free(s, a, i)
    &&& !noted ==> longest == 0
    &&& noted ==> {
        &&& 0 <= best <= w
        &&& 0 <= longest
        &&& best + longest <= i
        &&& dict.contains_key(longest as usize)
        &&& dict[longest as usize]@ == s.subrange(best, best + longest)
        &&& repeat_free(s, best, best + longest)
    }
    &&& forall|a: int, b: int|
        0 <= a <= b <= i && #[trigger] repeat_free(s, a, b) ==> a >= w || (noted && (b - a
            < longest || (b - a == longest && a <= best)))
}

/// The position of the first `c` in `chars`.
fn position_of(chars: &Vec<char>, c: char) -> (position: usize)
    requires
        chars@.contains(c),
    ensures
        position < chars.len(),
        chars@[position as int] == c,
        forall|k: int| 0 <= k < position ==> chars@[k] != c,
{
    let mut position: usize = 0;
    while chars[position] != c
        invariant
            position < chars.len(),
            chars@.contains(c),
            forall|k: int| 0 <= k < position ==> chars@[k] != c,
        decreases chars.len() - position,
    {
        proof {
            let j = choose|j: int| 0 <= j < chars@.len() && chars@[j] == c;
            assert(j > position);
        }
        position = position + 1;
    }
    position
}

/// The set of the code points of `chars`.
fn codes_of(chars: &Vec<char>) -> (codes: HashSet<u32>)
    ensures
        forall|x: char| codes@.contains(#[trigger] code_of(x)) <==> chars@.contains(x),
{
    let mut codes: HashSet<u32> = HashSet::new();
    let mut i: usize = 0;
    while i < chars.len()
        invariant
            i <= chars.len(),
            forall|x: char|
                codes@.contains(#[trigger] code_of(x)) <==> chars@.take(i as int).contains(x),
        decreases chars.len() - i,
    {
        let c = chars[i];
        let ghost prefix = chars@.take(i as int);
        let ghost longer = chars@.take(i + 1);
        codes.insert(c as u32);
        proof {
            assert(longer =~= prefix.push(c));
            assert(longer[i as int] == c);
            assert forall|x: char| codes@.contains(#[trigger] code_of(x)) <==> longer.contains(x) by {
                lemma_code_of_injective(x, c);
                if prefix.contains(x) {
                    let j = choose|j: int| 0 <= j < prefix.len() && prefix[j] == x;
                    assert(longer[j] == x);
                }
                if longer.contains(x) && x != c {
                    let j = choose|j: int| 0 <= j < longer.len() && longer[j] == x;
                    assert(prefix[j] == x);
                }
            }
        }
        i = i + 1;
    }
    proof {
        assert(chars@.take(chars.len() as int) =~= chars@);
    }
    codes
}

/// Noting down the growing stretch covers everything that ends at or before
/// its end.
proof fn lemma_search_note(
    s: Seq<char>,
    i: int,
    w: int,
    noted: bool,
    longest: int,
    best: int,
    dict: Map<usize, String>,
    window: String,
)
    requires
        search_growing(s, i, w, noted, longest, best, dict),
        window@ == s.subrange(w, i),
        i - w <= usize::MAX,
        longest <= usize::MAX,
    ensures
        i - w >= longest ==> search_noted(s, i, i - w, w, dict.insert((i - w) as usize, window)),
        i - w < longest ==> search_noted(
            s,
            i,
            longest,
            best,
            dict.insert((i - w) as usize, window),
        ),
{
    let len = i - w;
    let after = dict.insert(len as usize, window);
    if len >= longest {
        assert forall|a: int, b: int| 0 <= a <= b <= i && #[trigger] repeat_free(s, a, b) implies b
            - a < len || (b - a == len && a <= w) by {
            if a >= w {
            } else {
                assert(noted);
            }
        }
    } else {
        assert(noted);
        assert(after[longest as usize] == dict[longest as usize]);
    }
}

/// The last of the longest stretches of `input` in which no character occurs
/// twice; the empty text for the empty input. The result is never `None`.
pub fn longest_substring(input: String) -> (found: Option<String>)
    ensures
        found matches Some(sub) && is_last_longest_stretch(input@, sub@),
{
    let chars = chars_of(input.as_str());
    let n = chars.len();
    let ghost s = chars@;
    let mut sub_dict: HashMap<usize, String> = HashMap::new();
    let mut seen: HashSet<u32> = HashSet::new();
    let mut sub_container: Vec<char> = Vec::with_capacity(n);
    let mut longest: usize = 0;
    let ghost mut w: int = 0;
    let ghost mut best: int = 0;
    let ghost mut noted: bool = false;

    let mut i: usize = 0;
    proof {
        assert(s.subrange(0, 0) =~= Seq::<char>::empty());
    }
    while i < n
        invariant
            n == chars.len(),
            s == chars@,
            s == input@,
            i <= n,
            search_growing(s, i as int, w, noted, longest as int, best, sub_dict@),
            sub_container@ == s.subrange(w, i as int),
            forall|x: char| seen@.contains(#[trigger] code_of(x)) <==> sub_container@.contains(x),
        decreases n - i,
    {
        let c = chars[i];
        let key: u32 = c as u32;
        assert(key == code_of(c));
        if seen.contains(&key) {
            assert(seen@.contains(code_of(c)));
            assert(sub_container@.contains(c));
            let ghost dict0 = sub_dict@;
            let ghost longest0 = longest as int;
            let window = string_of(&sub_container);
            proof {
                lemma_search_note(s, i as int, w, noted, longest0, best, dict0, window);
            }
            if sub_container.len() >= longest {
                longest = sub_container.len();
                proof {
                    best = w;
                }
            }
            sub_dict.insert(sub_container.len(), window);
            proof {
                noted = true;
            }
            assert(search_noted(s, i as int, longest as int, best, sub_dict@));

            let splice_pos = position_of(&sub_container, c);
            let ghost p = w + splice_pos;
            let mut right = sub_container.split_off(splice_pos + 1);
            right.push(c);
            sub_container = right;
            seen = codes_of(&sub_container);
            proof {
                assert(s[p] == c);
                assert(s[i as int] == c);
                assert(sub_container@ =~= s.subrange(p + 1, i + 1));
                assert(repeat_free(s, p + 1, i + 1)) by {
                    assert forall|x: int, y: int| p + 1 <= x < y < i + 1 implies s[x] != s[y] by {
                        if y == i {
                            assert(s.subrange(w, i as int)[x - w] == s[x]);
                        }
                    }
                }
                assert forall|a: int| 0 <= a < p + 1 implies !#[trigger] repeat_free(s, a, i + 1) by {
                    assert(s[p] == s[i as int]);
                }
                assert forall|a: int, b: int|
                    0 <= a <= b <= i + 1 && #[trigger] repeat_free(s, a, b) implies a >= p + 1 || (b
                        - a < longest || (b - a == longest && a <= best)) by {
                    if b == i + 1 {
                        if a <= p {
                            assert(s[p] == s[i as int]);
                        }
                    }
                }
                w = p + 1;
            }
        } else {
            proof {
                assert(!sub_container@.contains(c));
                assert(repeat_free(s, w, i + 1)) by {
                    assert forall|x: int, y: int| w <= x < y < i + 1 implies s[x] != s[y] by {
                        if y == i {
                            assert(sub_container@[x - w] == s[x]);
                        }
                    }
                }
                assert forall|a: int| 0 <= a < w implies !#[trigger] repeat_free(s, a, i + 1) by {
                    if repeat_free(s, a, i + 1) {
                        assert(repeat_free(s, a, i as int));
                    }
                }
                assert forall|a: int, b: int|
                    0 <= a <= b <= i + 1 && #[trigger] repeat_free(s, a, b) implies a >= w || (noted
                        && (b - a < longest || (b - a == longest && a <= best))) by {
                    if b == i + 1 && a < w {
                        assert(repeat_free(s, a, i as int));
                    }
                }
            }
            let ghost before = sub_container@;
            sub_container.push(c);
            seen.insert(key);
            proof {
                assert(sub_container@ =~= s.subrange(w, i + 1));
                assert forall|x: char|
                    seen@.contains(#[trigger] code_of(x)) <==> sub_container@.contains(x) by {
                    lemma_code_of_injective(x, c);
                    assert(sub_container@[before.len() as int] == c);
                    if before.contains(x) {
                        let j = choose|j: int| 0 <= j < before.len() && before[j] == x;
                        assert(sub_container@[j] == x);
                    }
                    if sub_container@.contains(x) && x != c {
                        let j = choose|j: int|
                            0 <= j < sub_container@.len() && sub_container@[j] == x;
                        assert(before[j] == x);
                    }
                }
            }
        }
        i = i + 1;
    }

    let window = string_of(&sub_container);
    proof {
        lemma_search_note(s, n as int, w, noted, longest as int, best, sub_dict@, window);
    }
    if sub_container.len() >= longest {
        longest = sub_container.len();
        proof {
            best = w;
        }
    }
    sub_dict.insert(sub_container.len(), window);
    assert(search_noted(s, n as int, longest as int, best, sub_dict@));

    assert(sub_dict@.contains_key(longest));
    match sub_dict.get(&longest) {
        Some(val) => {
            let sub = val.clone();
            proof {
                assert(sub@ == input@.subrange(best, best + longest));
                assert(sub@.len() == longest);
                assert(is_last_longest_repeat_free(input@, best, sub@.len() as int));
                assert(is_last_longest_stretch(input@, sub@));
            }
            Some(sub)
        },
        None => {
            assert(false);
            None
        },
    }
}

} // verus!
