//! String utilities.
use std::collections::HashMap;
use vstd::prelude::*;
use vstd::std_specs::iter::IteratorSpec;
use crate::counting::{
    lemma_occurrences_bounds, lemma_occurrences_prefix, lemma_occurrences_push, occurrences,
};
use crate::digits::{
    decimal_value, lemma_append_digits_concat, lemma_append_digits_grows,
    lemma_append_digits_push, reversed_number, write_reversed,
};

pub use self::longest::longest_substring;

pub mod longest;

verus! {

broadcast use vstd::std_specs::hash::group_hash_axioms;

/// `String::push` of the standard library: the character is appended at the
/// end of the string, and nothing else changes.
pub assume_specification[ String::push ](s: &mut String, ch: char)
    ensures
        final(s)@ == old(s)@.push(ch),
;

/// The lower-case form of a text as the standard library gives it; it follows
/// the Unicode tables and is not spelled out here.
pub uninterp spec fn lowercase_of(text: Seq<char>) -> Seq<char>;

/// `str::to_lowercase` of the standard library: the result is a function of
/// the characters of the text alone.
pub assume_specification[ str::to_lowercase ](s: &str) -> (lower: String)
    ensures
        lower@ == lowercase_of(s@),
;

/// Whether a character is a letter or a number in the sense of the Unicode
/// tables of the standard library; not spelled out here.
pub uninterp spec fn alphanumeric(c: char) -> bool;

/// `char::is_alphanumeric` of the standard library: the answer is a function
/// of the character alone.
pub assume_specification[ char::is_alphanumeric ](c: char) -> (answer: bool)
    ensures
        answer == alphanumeric(c),
;

/// The characters of `s`, in order.
pub fn chars_of(s: &str) -> (chars: Vec<char>)
    ensures
        chars@ == s@,
{
    let mut chars: Vec<char> = Vec::new();
    for c in it: s.chars()
        invariant
            it.seq() == s@,
            chars@ == s@.take(it.index() as int),
    {
        chars.push(c);
        assert(s@.take(it.index() + 1) =~= s@.take(it.index() as int).push(c));
    }
    assert(s@.take(s@.len() as int) =~= s@);
    chars
}

/// Whether `c` is one of the decimal digits `0` to `9`.
pub open spec fn is_digit_char(c: char) -> bool {
    '0' <= c <= '9'
}

/// The value of the decimal digit `c`.
pub open spec fn digit_of(c: char) -> int {
    c as int - '0' as int
}

/// The values of the decimal digits among `text`, in order.
pub open spec fn digit_values(text: Seq<char>) -> Seq<int> {
    text.filter(|c: char| is_digit_char(c)).map_values(|c: char| digit_of(c))
}

/// `text` without the plus sign that it may start with.
pub open spec fn without_plus(text: Seq<char>) -> Seq<char> {
    if text.len() > 0 && text[0] == '+' {
        text.drop_first()
    } else {
        text
    }
}

/// The number up to 255 that `text` writes: an optional plus sign followed by
/// one or more decimal digits and nothing else. `None` for any other text and
/// for a greater number.
pub open spec fn small_number(text: Seq<char>) -> Option<u8> {
    let digits = without_plus(text);
    if digits.len() > 0 && (forall|i: int| 0 <= i < digits.len() ==> is_digit_char(#[trigger] digits[i]))
        && decimal_value(digits.map_values(|c: char| digit_of(c))) <= 255 {
        Some(decimal_value(digits.map_values(|c: char| digit_of(c))) as u8)
    } else {
        None
    }
}

/// Whether `c` is a decimal digit.
pub fn is_decimal_digit(c: char) -> (digit: bool)
    ensures
        digit == is_digit_char(c),
{
    '0' <= c && c <= '9'
}

/// Reads `text` as a number up to 255, written as an optional plus sign
/// followed by decimal digits.
pub fn parse_small_number(text: &str) -> (number: Option<u8>)
    ensures
        number == small_number(text@),
{
    let chars = chars_of(text);
    let n = chars.len();
    let first: usize = if n > 0 && chars[0] == '+' {
        1
    } else {
        0
    };
    if first == n {
        return None;
    }
    let ghost digits = chars@.skip(first as int);
    let ghost values = digits.map_values(|c: char| digit_of(c));
    proof {
        if first == 1 {
            assert(chars@.drop_first() =~= digits);
        } else {
            assert(chars@ =~= digits);
        }
        assert(values.take(0) =~= Seq::<int>::empty());
    }
    let mut value: u32 = 0;
    let mut i: usize = first;
    while i < n
        invariant
            first <= i <= n,
            n == chars.len(),
            digits == chars@.skip(first as int),
            digits == without_plus(text@),
            values == digits.map_values(|c: char| digit_of(c)),
            forall|k: int| 0 <= k < i - first ==> is_digit_char(#[trigger] digits[k]),
            value == decimal_value(values.take(i - first)),
            value <= 255,
        decreases n - i,
    {
        let c = chars[i];
        assert(digits[i - first] == c);
        if !is_decimal_digit(c) {
            return None;
        }
        let d: u32 = c as u32 - '0' as u32;
        proof {
            assert(values.take(i - first + 1) =~= values.take(i - first).push(d as int));
            lemma_append_digits_push(0, values.take(i - first), d as int);
        }
        value = value * 10 + d;
        if value > 255 {
            proof {
                if forall|k: int| 0 <= k < digits.len() ==> is_digit_char(#[trigger] digits[k]) {
                    let done = values.take(i - first + 1);
                    let rest = values.skip(i - first + 1);
                    assert(done + rest =~= values);
                    assert forall|k: int| 0 <= k < rest.len() implies 0 <= #[trigger] rest[k] <= 9 by {
                        assert(is_digit_char(digits[i - first + 1 + k]));
                    }
                    lemma_append_digits_concat(0, done, rest);
                    lemma_append_digits_grows(decimal_value(done), rest);
                }
            }
            return None;
        }
        i = i + 1;
    }
    proof {
        assert(values.take(n - first) =~= values);
    }
    Some(value as u8)
}

/// The string that the characters `chars` make up.
pub fn string_of(chars: &Vec<char>) -> (s: String)
    ensures
        s@ == chars@,
{
    let mut s = String::new();
    let mut i: usize = 0;
    while i < chars.len()
        invariant
            i <= chars.len(),
            s@ == chars@.take(i as int),
        decreases chars.len() - i,
    {
        s.push(chars[i]);
        proof {
            assert(chars@.take(i + 1) =~= chars@.take(i as int).push(chars@[i as int]));
        }
        i = i + 1;
    }
    proof {
        assert(chars@.take(chars.len() as int) =~= chars@);
    }
    s
}

/// The characters of `input` in reverse order.
pub fn reverse_string(input: String) -> (reversed: String)
    ensures
        reversed@ == input@.reverse(),
{
    let chars = chars_of(input.as_str());
    let mut reversed = String::new();
    let mut i: usize = chars.len();
    while i > 0
        invariant
            i <= chars.len(),
            chars@ == input@,
            reversed@.len() == chars.len() - i,
            forall|k: int| 0 <= k < reversed@.len() ==> reversed@[k] == chars@[chars.len() - 1 - k],
        decreases i,
    {
        i = i - 1;
        reversed.push(chars[i]);
    }
    proof {
        assert(reversed@ =~= input@.reverse());
    }
    reversed
}

/// The number whose decimal digits are those of `input` in reverse order,
/// with the sign of `input`.
///
/// The input is not the least 32-bit number, whose magnitude does not fit,
/// and the reversed number has to fit in 32 bits.
pub fn reverse_integer(input: i32) -> (reversed: i32)
    requires
        input != i32::MIN,
        input < 0 ==> reversed_number((-input) as nat) <= i32::MAX,
        input >= 0 ==> reversed_number(input as nat) <= i32::MAX,
    ensures
        input < 0 ==> reversed == -reversed_number((-input) as nat),
        input >= 0 ==> reversed == reversed_number(input as nat),
{
    if input < 0 {
        let positive: i32 = -input;
        let magnitude: u32 = positive as u32;
        let temp: i32 = write_reversed(0, magnitude) as i32;
        let reversed: i32 = -temp;
        reversed
    } else {
        let magnitude: u32 = input as u32;
        write_reversed(0, magnitude) as i32
    }
}

/// Whether `c` opens a bracket.
pub open spec fn is_opener(c: char) -> bool {
    c == '[' || c == '(' || c == '{'
}

/// Whether `close` closes the bracket that `open` opens.
pub open spec fn closes(open: char, close: char) -> bool {
    ||| open == '[' && close == ']'
    ||| open == '{' && close == '}'
    ||| open == '(' && close == ')'
}

/// The outcome of reading `text` with the brackets in `stack` open, the one
/// opened last at the end: every opener is put on the stack, and every other
/// character has to close the bracket opened last.
///
/// `Some(false)` at the first character that does not close it; at the end of
/// the text `Some(true)` if no bracket is left open and `Some(false)` if one
/// is; `None` where a character that is no opener meets no open bracket.
pub open spec fn scan_brackets(text: Seq<char>, stack: Seq<char>) -> Option<bool>
    decreases text.len(),
{
    if text.len() == 0 {
        Some(stack.len() == 0)
    } else if is_opener(text[0]) {
        scan_brackets(text.drop_first(), stack.push(text[0]))
    } else if stack.len() == 0 {
        None
    } else if closes(stack.last(), text[0]) {
        scan_brackets(text.drop_first(), stack.drop_last())
    } else {
        Some(false)
    }
}

/// Whether the brackets of `input` are balanced: every character that opens
/// no bracket closes the bracket that was opened last and is still open, and
/// no bracket is left open at the end.
///
/// No character that opens no bracket may come while no bracket is open,
/// unless the answer has been found to be `false` before it.
pub fn bracket_checker(input: String) -> (balanced: bool)
    requires
        scan_brackets(input@, Seq::empty()) is Some,
    ensures
        Some(balanced) == scan_brackets(input@, Seq::empty()),
{
    let chars = chars_of(input.as_str());
    if chars.len() == 0 {
        return true;
    }
    let mut brackets: Vec<char> = Vec::with_capacity(chars.len());
    let mut i: usize = 0;
    proof {
        assert(chars@.skip(0) =~= chars@);
    }
    while i < chars.len()
        invariant
            i <= chars.len(),
            chars@ == input@,
            scan_brackets(chars@.skip(i as int), brackets@) == scan_brackets(input@, Seq::empty()),
            scan_brackets(input@, Seq::empty()) is Some,
        decreases chars.len() - i,
    {
        let c = chars[i];
        proof {
            assert(chars@.skip(i as int)[0] == c);
            assert(chars@.skip(i as int).drop_first() =~= chars@.skip(i + 1));
        }
        if c == '[' || c == '(' || c == '{' {
            brackets.push(c);
        } else {
            let ghost before = brackets@;
            let open = brackets.pop().unwrap();
            proof {
                assert(brackets@ =~= before.drop_last());
            }
            if open == '[' {
                if c != ']' {
                    return false;
                }
            } else if open == '{' {
                if c != '}' {
                    return false;
                }
            } else if open == '(' {
                if c != ')' {
                    return false;
                }
            } else {
                return false;
            }
        }
        i = i + 1;
    }
    proof {
        assert(chars@.skip(chars.len() as int) =~= Seq::<char>::empty());
    }
    brackets.len() == 0
}

/// Whether `chars` reads the same from both ends.
pub fn is_mirrored(chars: &Vec<char>) -> (mirrored: bool)
    ensures
        mirrored == (chars@ == chars@.reverse()),
{
    let n = chars.len();
    let mut i: usize = 0;
    while i < n
        invariant
            i <= n,
            n == chars.len(),
            forall|k: int| 0 <= k < i ==> #[trigger] chars@[k] == chars@[n - 1 - k],
        decreases n - i,
    {
        if chars[i] != chars[n - 1 - i] {
            proof {
                assert(chars@.reverse()[i as int] == chars@[n - 1 - i]);
            }
            return false;
        }
        i = i + 1;
    }
    proof {
        assert(chars@ =~= chars@.reverse());
    }
    true
}

/// Whether `input` is a palindrome: the empty text is one, and any other
/// text is one if its lower-case form, cut down to its letters and numbers,
/// reads the same from both ends.
pub fn is_palindrome(input: String) -> (palindrome: bool)
    ensures
        palindrome == (input@.len() == 0 || {
            let clean = lowercase_of(input@).filter(|c: char| alphanumeric(c));
            clean == clean.reverse()
        }),
{
    if input.as_str().unicode_len() == 0 {
        return true;
    }
    let lower = input.as_str().to_lowercase();
    let chars = chars_of(lower.as_str());
    let ghost keep = |c: char| alphanumeric(c);
    let mut clean: Vec<char> = Vec::new();
    let mut i: usize = 0;
    proof {
        reveal(Seq::filter);
        assert(chars@.take(0) =~= Seq::<char>::empty());
    }
    while i < chars.len()
        invariant
            i <= chars.len(),
            keep == (|c: char| alphanumeric(c)),
            clean@ == chars@.take(i as int).filter(keep),
        decreases chars.len() - i,
    {
        let c = chars[i];
        proof {
            assert(chars@.take(i + 1) =~= chars@.take(i as int).push(c));
            chars@.take(i as int).lemma_filter_push(c, keep);
        }
        if c.is_alphanumeric() {
            clean.push(c);
        }
        i = i + 1;
    }
    proof {
        assert(chars@.take(chars.len() as int) =~= chars@);
    }
    is_mirrored(&clean)
}

/// The number that a sign and the decimal digits `digits` write, held to the
/// range of 32-bit numbers: where there is no digit, or the digits write more
/// than the greatest 32-bit number, the result is the end of the range on the
/// side of the sign.
pub open spec fn clamped_number(negative: bool, digits: Seq<int>) -> int {
    if digits.len() > 0 && decimal_value(digits) <= i32::MAX {
        if negative {
            -decimal_value(digits)
        } else {
            decimal_value(digits)
        }
    } else if negative {
        i32::MIN as int
    } else {
        i32::MAX as int
    }
}

/// The number that the decimal digits among `chars` write, all other
/// characters left out, with the sign that `negative` gives, held to the
/// range of 32-bit numbers.
pub fn number_from_digits(chars: &Vec<char>, negative: bool) -> (number: i32)
    ensures
        number == clamped_number(negative, digit_values(chars@)),
{
    let bound: i32 = 2147483647;
    let ghost is_digit = |c: char| is_digit_char(c);
    let ghost value_of = |c: char| digit_of(c);
    let mut value: u64 = 0;
    let mut any_digit = false;
    let mut too_large = false;
    let mut i: usize = 0;
    proof {
        reveal(Seq::filter);
        assert(chars@.take(0) =~= Seq::<char>::empty());
        assert(chars@.take(0).filter(is_digit).map_values(value_of) =~= Seq::<int>::empty());
    }
    while i < chars.len()
        invariant
            i <= chars.len(),
            is_digit == (|c: char| is_digit_char(c)),
            value_of == (|c: char| digit_of(c)),
            any_digit == (chars@.take(i as int).filter(is_digit).len() > 0),
            !too_large ==> value == decimal_value(
                chars@.take(i as int).filter(is_digit).map_values(value_of),
            ) && value <= i32::MAX,
            too_large ==> decimal_value(chars@.take(i as int).filter(is_digit).map_values(value_of))
                > i32::MAX,
        decreases chars.len() - i,
    {
        let c = chars[i];
        proof {
            let before = chars@.take(i as int).filter(is_digit);
            assert(chars@.take(i + 1) =~= chars@.take(i as int).push(c));
            chars@.take(i as int).lemma_filter_push(c, is_digit);
            if is_digit_char(c) {
                assert(before.push(c).map_values(value_of) =~= before.map_values(value_of).push(
                    digit_of(c),
                ));
                lemma_append_digits_push(0, before.map_values(value_of), digit_of(c));
            }
        }
        if is_decimal_digit(c) {
            any_digit = true;
            if !too_large {
                let d: u64 = (c as u32 - '0' as u32) as u64;
                assert(d == digit_of(c));
                value = value * 10 + d;
                if value > 2147483647u64 {
                    too_large = true;
                }
            }
        }
        i = i + 1;
    }
    proof {
        assert(chars@.take(chars.len() as int) =~= chars@);
        assert(digit_values(chars@) == chars@.filter(is_digit).map_values(value_of));
        assert(digit_values(chars@).len() == chars@.filter(is_digit).len());
    }
    if any_digit && !too_large {
        let val: i32 = value as i32;
        if negative {
            let flipped: i32 = val * -1;
            return flipped;
        }
        return val;
    }
    if negative {
        return i32::MIN;
    }
    bound
}

/// Whether `text` starts with a minus sign.
pub open spec fn starts_with_minus(text: Seq<char>) -> bool {
    text.len() > 0 && text[0] == '-'
}

/// Whether `c` is white space: one of the characters that Unicode gives the
/// property `White_Space`.
pub open spec fn is_white_space(c: char) -> bool {
    let code = c as u32;
    ||| 0x09 <= code <= 0x0D
    ||| code == 0x20
    ||| code == 0x85
    ||| code == 0xA0
    ||| code == 0x1680
    ||| 0x2000 <= code <= 0x200A
    ||| code == 0x2028
    ||| code == 0x2029
    ||| code == 0x202F
    ||| code == 0x205F
    ||| code == 0x3000
}

/// `text` without the white space that it starts with.
pub open spec fn without_leading_white_space(text: Seq<char>) -> Seq<char>
    decreases text.len(),
{
    if text.len() > 0 && is_white_space(text[0]) {
        without_leading_white_space(text.drop_first())
    } else {
        text
    }
}

/// `text` without the white space that it ends with.
pub open spec fn without_trailing_white_space(text: Seq<char>) -> Seq<char>
    decreases text.len(),
{
    if text.len() > 0 && is_white_space(text.last()) {
        without_trailing_white_space(text.drop_last())
    } else {
        text
    }
}

/// `text` without the white space at its two ends.
pub open spec fn trimmed(text: Seq<char>) -> Seq<char> {
    without_trailing_white_space(without_leading_white_space(text))
}

/// Taking the white space off the end of a text that starts with another
/// character leaves that character in front.
pub proof fn lemma_trailing_keeps_first(text: Seq<char>)
    requires
        text.len() > 0,
        !is_white_space(text[0]),
    ensures
        without_trailing_white_space(text).len() > 0,
        without_trailing_white_space(text)[0] == text[0],
    decreases text.len(),
{
    if is_white_space(text.last()) {
        lemma_trailing_keeps_first(text.drop_last());
    }
}

/// Whether `c` is white space.
pub fn is_white_space_char(c: char) -> (white: bool)
    ensures
        white == is_white_space(c),
{
    let code: u32 = c as u32;
    (0x09 <= code && code <= 0x0D) || code == 0x20 || code == 0x85 || code == 0xA0 || code
        == 0x1680 || (0x2000 <= code && code <= 0x200A) || code == 0x2028 || code == 0x2029
        || code == 0x202F || code == 0x205F || code == 0x3000
}

/// Whether a minus sign is the first character of `chars` that is no white
/// space.
pub fn starts_negative(chars: &Vec<char>) -> (negative: bool)
    ensures
        negative == starts_with_minus(trimmed(chars@)),
{
    let n = chars.len();
    let mut i: usize = 0;
    proof {
        assert(chars@.skip(0) =~= chars@);
    }
    while i < n && is_white_space_char(chars[i])
        invariant
            i <= n,
            n == chars.len(),
            without_leading_white_space(chars@.skip(i as int)) == without_leading_white_space(
                chars@,
            ),
        decreases n - i,
    {
        proof {
            assert(chars@.skip(i as int)[0] == chars@[i as int]);
            assert(chars@.skip(i as int).drop_first() =~= chars@.skip(i + 1));
        }
        i = i + 1;
    }
    proof {
        let rest = chars@.skip(i as int);
        if i < n {
            assert(rest[0] == chars@[i as int]);
            lemma_trailing_keeps_first(rest);
        } else {
            assert(rest.len() == 0);
        }
    }
    i < n && chars[i] == '-'
}

/// Reads a number from `s`: its sign is negative if a minus sign is the
/// first character that is no white space, and its digits are all the
/// decimal digits of `s`, whatever stands between them. The result is held
/// to the range of 32-bit numbers; a text without digits gives the end of the
/// range on the side of the sign.
pub fn string_to_int(s: String) -> (parsed: i32)
    ensures
        parsed == clamped_number(starts_with_minus(trimmed(s@)), digit_values(s@)),
{
    let chars = chars_of(s.as_str());
    let negative = starts_negative(&chars);
    number_from_digits(&chars, negative)
}

/// The code point of `c`, by which the character counters are keyed.
pub open spec fn code_of(c: char) -> u32 {
    c as u32
}

/// Different characters have different code points.
pub proof fn lemma_code_of_injective(a: char, b: char)
    ensures
        code_of(a) == code_of(b) ==> a == b,
{
}

/// Whether `counts` holds, under the code point of every character of `text`
/// and under no other key, how often the character occurs in `text`.
pub open spec fn counts_chars_of(counts: Map<u32, u32>, text: Seq<char>) -> bool {
    &&& forall|c: char| counts.contains_key(#[trigger] code_of(c)) <==> text.contains(c)
    &&& forall|c: char|
        text.contains(c) ==> counts[#[trigger] code_of(c)] == occurrences(text, c)
    &&& forall|k: u32| #[trigger]
        counts.contains_key(k) ==> exists|c: char| #[trigger] code_of(c) == k && text.contains(c)
}

/// How often each character occurs in `a`, keyed by the code point of the
/// character.
///
/// The counts are 32-bit numbers, so no character occurs more often than fits
/// in one.
pub fn char_counter(a: String) -> (mapped: HashMap<u32, u32>)
    requires
        forall|c: char| #[trigger] occurrences(a@, c) <= u32::MAX,
    ensures
        counts_chars_of(mapped@, a@),
{
    let chars = chars_of(a.as_str());
    let mut mapped: HashMap<u32, u32> = HashMap::new();
    let mut i: usize = 0;
    proof {
        assert(chars@.take(0) =~= Seq::<char>::empty());
    }
    while i < chars.len()
        invariant
            i <= chars.len(),
            forall|c: char| #[trigger] occurrences(chars@, c) <= u32::MAX,
            chars@ == a@,
            counts_chars_of(mapped@, chars@.take(i as int)),
        decreases chars.len() - i,
    {
        let c = chars[i];
        let key: u32 = c as u32;
        let ghost before = mapped@;
        let ghost prefix = chars@.take(i as int);
        let ghost longer = chars@.take(i + 1);
        let seen: u32 = match mapped.get(&key) {
            Some(counter) => *counter,
            None => 0,
        };
        proof {
            assert(key == code_of(c));
            assert(longer =~= prefix.push(c));
            lemma_occurrences_bounds(prefix, c);
            assert(seen == occurrences(prefix, c));
            lemma_occurrences_push(prefix, c, c);
            lemma_occurrences_prefix(chars@, i + 1, c);
            assert(occurrences(chars@, c) <= u32::MAX);
        }
        mapped.insert(key, seen + 1);
        proof {
            assert(longer[i as int] == c);
            assert forall|x: char| mapped@.contains_key(#[trigger] code_of(x)) <==> longer.contains(
                x,
            ) by {
                lemma_code_of_injective(x, c);
                if prefix.contains(x) {
                    let j = choose|j: int| 0 <= j < prefix.len() && prefix[j] == x;
                    assert(longer[j] == x);
                }
                if longer.contains(x) && x != c {
                    let j = choose|j: int| 0 <= j < longer.len() && longer[j] == x;
                    assert(prefix[j] == x);
                }
            }
            assert forall|x: char| longer.contains(x) implies mapped@[#[trigger] code_of(x)]
                == occurrences(longer, x) by {
                lemma_code_of_injective(x, c);
                lemma_occurrences_push(prefix, c, x);
                if x != c {
                    let j = choose|j: int| 0 <= j < longer.len() && longer[j] == x;
                    assert(prefix[j] == x);
                }
            }
            assert forall|k: u32| #[trigger] mapped@.contains_key(k) implies exists|x: char| #[trigger]
                code_of(x) == k && longer.contains(x) by {
                if k == key {
                    assert(code_of(c) == k && longer.contains(c));
                } else {
                    assert(before.contains_key(k));
                    let x = choose|x: char| #[trigger] code_of(x) == k && prefix.contains(x);
                    let j = choose|j: int| 0 <= j < prefix.len() && prefix[j] == x;
                    assert(longer[j] == x);
                    assert(code_of(x) == k && longer.contains(x));
                }
            }
        }
        i = i + 1;
    }
    proof {
        assert(chars@.take(chars.len() as int) =~= chars@);
    }
    mapped
}

/// The position of the first character of `input` that occurs in it only
/// once, or -1 where every character occurs more than once.
///
/// The position is given as a 32-bit number, so the text has at most as many
/// characters as fit in one.
pub fn first_unique_character(input: String) -> (position: i32)
    requires
        input@.len() <= i32::MAX,
    ensures
        position == -1 ==> forall|i: int|
            0 <= i < input@.len() ==> occurrences(input@, #[trigger] input@[i]) != 1,
        position != -1 ==> 0 <= position < input@.len() && occurrences(
            input@,
            input@[position as int],
        ) == 1 && forall|i: int|
            0 <= i < position ==> occurrences(input@, #[trigger] input@[i]) != 1,
{
    let chars = chars_of(input.as_str());
    proof {
        assert forall|c: char| #[trigger] occurrences(input@, c) <= u32::MAX by {
            lemma_occurrences_bounds(input@, c);
        }
    }
    let mapped = char_counter(input);
    let mut i: usize = 0;
    while i < chars.len()
        invariant
            i <= chars.len(),
            chars@.len() <= i32::MAX,
            chars@ == input@,
            counts_chars_of(mapped@, chars@),
            forall|k: int| 0 <= k < i ==> occurrences(chars@, #[trigger] chars@[k]) != 1,
        decreases chars.len() - i,
    {
        let c = chars[i];
        let key: u32 = c as u32;
        assert(key == code_of(c));
        assert(chars@.contains(c));
        match mapped.get(&key) {
            Some(counter) => {
                if *counter == 1 {
                    return i as i32;
                }
            },
            None => {},
        }
        i = i + 1;
    }
    -1
}

/// Whether `second` holds every key of `first` with the same count.
fn counts_within(first: &HashMap<u32, u32>, second: &HashMap<u32, u32>) -> (within: bool)
    ensures
        within == forall|k: u32| #[trigger]
            first@.contains_key(k) ==> second@.contains_key(k) && second@[k] == first@[k],
{
    for pair in it: first.iter()
        invariant
            forall|idx: int|
                0 <= idx < it.seq().len() ==> first@.contains_key(*(#[trigger] it.seq()[idx]).0)
                    && first@[*it.seq()[idx].0] == *it.seq()[idx].1,
            forall|k: u32| #[trigger]
                first@.contains_key(k) ==> (second@.contains_key(k) && second@[k] == first@[k])
                    || exists|idx: int|
                    it.index() <= idx < it.seq().len() && *(#[trigger] it.seq()[idx]).0 == k,
    {
        let k = pair.0;
        let v_a = pair.1;
        assert(it.seq()[it.index() as int] == pair);
        assert(first@.contains_key(*k) && first@[*k] == *v_a);
        match second.get(k) {
            Some(v_b) => {
                if *v_b != *v_a {
                    return false;
                }
            },
            None => {
                return false;
            },
        }
    }
    true
}

/// Whether `a` and `b` are anagrams of one another: every character occurs
/// as often in the one as in the other.
///
/// The characters are counted in 32-bit numbers, so in neither text a
/// character occurs more often than fits in one.
pub fn is_anagram(a: String, b: String) -> (anagram: bool)
    requires
        forall|c: char| #[trigger] occurrences(a@, c) <= u32::MAX,
        forall|c: char| #[trigger] occurrences(b@, c) <= u32::MAX,
    ensures
        anagram == forall|c: char| #[trigger] occurrences(a@, c) == occurrences(b@, c),
{
    let ghost text_a = a@;
    let ghost text_b = b@;
    let mapped_a = char_counter(a);
    let mapped_b = char_counter(b);

    let a_within_b = counts_within(&mapped_a, &mapped_b);
    let b_within_a = counts_within(&mapped_b, &mapped_a);
    proof {
        if a_within_b && b_within_a {
            assert forall|c: char| #[trigger] occurrences(text_a, c) == occurrences(text_b, c) by {
                lemma_occurrences_bounds(text_a, c);
                lemma_occurrences_bounds(text_b, c);
                if text_a.contains(c) {
                    assert(mapped_a@.contains_key(code_of(c)));
                    assert(mapped_b@.contains_key(code_of(c)));
                    assert(text_b.contains(c));
                } else if text_b.contains(c) {
                    assert(mapped_b@.contains_key(code_of(c)));
                    assert(mapped_a@.contains_key(code_of(c)));
                }
            }
        }
        if forall|c: char| #[trigger] occurrences(text_a, c) == occurrences(text_b, c) {
            lemma_counts_within(mapped_a@, text_a, mapped_b@, text_b);
            lemma_counts_within(mapped_b@, text_b, mapped_a@, text_a);
        }
    }
    a_within_b && b_within_a
}

/// Where every character occurs in `other` as often as in `text`, the counts
/// of `other` hold every key of the counts of `text` with the same count.
proof fn lemma_counts_within(
    counts: Map<u32, u32>,
    text: Seq<char>,
    other_counts: Map<u32, u32>,
    other: Seq<char>,
)
    requires
        counts_chars_of(counts, text),
        counts_chars_of(other_counts, other),
        forall|c: char| #[trigger] occurrences(text, c) == occurrences(other, c),
    ensures
        forall|k: u32| #[trigger]
            counts.contains_key(k) ==> other_counts.contains_key(k) && other_counts[k] == counts[k],
{
    assert forall|k: u32| #[trigger] counts.contains_key(k) implies other_counts.contains_key(k)
        && other_counts[k] == counts[k] by {
        let c = choose|c: char| #[trigger] code_of(c) == k && text.contains(c);
        lemma_occurrences_bounds(text, c);
        lemma_occurrences_bounds(other, c);
        assert(occurrences(text, c) == occurrences(other, c));
        assert(other.contains(c));
        assert(other_counts.contains_key(code_of(c)));
    }
}

} // verus!
