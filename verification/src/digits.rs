//! Decimal digits: the numbers that sequences of digits write, and the digits
//! that write a number.
use vstd::prelude::*;

verus! {

/// The number that results from writing the decimal digits `digits`, the
/// most significant first, behind the number `value`.
pub open spec fn append_digits(value: int, digits: Seq<int>) -> int
    decreases digits.len(),
{
    if digits.len() == 0 {
        value
    } else {
        append_digits(value, digits.drop_last()) * 10 + digits.last()
    }
}

/// The number that the decimal digits `digits`, the most significant first,
/// write; 0 for no digits.
pub open spec fn decimal_value(digits: Seq<int>) -> int {
    append_digits(0, digits)
}

/// The decimal digits of `n`, the least significant first; one digit 0 for 0.
pub open spec fn digits_lsb_first(n: nat) -> Seq<int>
    decreases n,
{
    if n < 10 {
        seq![n as int]
    } else {
        seq![(n % 10) as int] + digits_lsb_first(n / 10)
    }
}

/// The decimal digits of `n`, the most significant first; one digit 0 for 0.
pub open spec fn digits_msb_first(n: nat) -> Seq<int>
    decreases n,
{
    if n < 10 {
        seq![n as int]
    } else {
        digits_msb_first(n / 10).push((n % 10) as int)
    }
}

/// The number that the decimal digits of `n` write when they are read from
/// the least significant to the most significant.
pub open spec fn reversed_number(n: nat) -> int {
    decimal_value(digits_lsb_first(n))
}

/// Whether every value of `digits` is a decimal digit.
pub open spec fn all_decimal(digits: Seq<int>) -> bool {
    forall|i: int| 0 <= i < digits.len() ==> 0 <= #[trigger] digits[i] <= 9
}

/// The digits of a number are decimal digits, and there is at least one.
pub proof fn lemma_digits_lsb_first_decimal(n: nat)
    ensures
        all_decimal(digits_lsb_first(n)),
        digits_lsb_first(n).len() >= 1,
    decreases n,
{
    if n >= 10 {
        lemma_digits_lsb_first_decimal(n / 10);
    }
}

/// Read the other way round, the digits from the least significant are the
/// digits from the most significant.
pub proof fn lemma_digits_reverse(n: nat)
    ensures
        digits_lsb_first(n).reverse() == digits_msb_first(n),
    decreases n,
{
    if n >= 10 {
        lemma_digits_reverse(n / 10);
        let rest = digits_lsb_first(n / 10);
        let d = (n % 10) as int;
        assert((seq![d] + rest).reverse() =~= rest.reverse().push(d));
    } else {
        assert(seq![n as int].reverse() =~= seq![n as int]);
    }
}

/// Writing one more digit at the end multiplies by ten and adds the digit.
pub proof fn lemma_append_digits_push(value: int, digits: Seq<int>, d: int)
    ensures
        append_digits(value, digits.push(d)) == append_digits(value, digits) * 10 + d,
{
    assert(digits.push(d).drop_last() =~= digits);
}

/// Writing a digit and then more digits is writing all of them.
pub proof fn lemma_append_digits_front(value: int, d: int, tail: Seq<int>)
    ensures
        append_digits(value, seq![d] + tail) == append_digits(value * 10 + d, tail),
    decreases tail.len(),
{
    if tail.len() == 0 {
        assert(seq![d] + tail =~= Seq::<int>::empty().push(d));
        lemma_append_digits_push(value, Seq::<int>::empty(), d);
    } else {
        lemma_append_digits_front(value, d, tail.drop_last());
        assert((seq![d] + tail).drop_last() =~= seq![d] + tail.drop_last());
    }
}

/// Writing digits and then more digits is writing all of them.
pub proof fn lemma_append_digits_concat(value: int, front: Seq<int>, back: Seq<int>)
    ensures
        append_digits(value, front + back) == append_digits(append_digits(value, front), back),
    decreases back.len(),
{
    if back.len() == 0 {
        assert(front + back =~= front);
    } else {
        lemma_append_digits_concat(value, front, back.drop_last());
        assert((front + back).drop_last() =~= front + back.drop_last());
    }
}

/// Decimal digits written behind a number that is not negative never make it
/// smaller.
pub proof fn lemma_append_digits_grows(value: int, digits: Seq<int>)
    requires
        0 <= value,
        all_decimal(digits),
    ensures
        value <= append_digits(value, digits),
    decreases digits.len(),
{
    if digits.len() > 0 {
        lemma_append_digits_grows(value, digits.drop_last());
    }
}

/// The digits of a number, the most significant first, write that number.
pub proof fn lemma_digits_msb_first_value(n: nat)
    ensures
        decimal_value(digits_msb_first(n)) == n,
    decreases n,
{
    if n >= 10 {
        lemma_digits_msb_first_value(n / 10);
        lemma_append_digits_push(0, digits_msb_first(n / 10), (n % 10) as int);
    } else {
        lemma_append_digits_push(0, Seq::<int>::empty(), n as int);
        assert(Seq::<int>::empty().push(n as int) =~= seq![n as int]);
    }
}

/// Writes the decimal digits of `n` behind the number `value`, the least
/// significant digit of `n` first.
///
/// The result has to fit in 64 bits.
pub fn write_reversed(value: u64, n: u32) -> (written: u64)
    requires
        append_digits(value as int, digits_lsb_first(n as nat)) <= u64::MAX,
    ensures
        written == append_digits(value as int, digits_lsb_first(n as nat)),
{
    let mut written: u64 = value;
    let mut rest: u32 = n;
    loop
        invariant_except_break
            append_digits(written as int, digits_lsb_first(rest as nat)) == append_digits(
                value as int,
                digits_lsb_first(n as nat),
            ),
            append_digits(value as int, digits_lsb_first(n as nat)) <= u64::MAX,
        ensures
            written == append_digits(value as int, digits_lsb_first(n as nat)),
        decreases rest,
    {
        let d: u32 = rest % 10;
        proof {
            if rest >= 10 {
                lemma_append_digits_front(
                    written as int,
                    d as int,
                    digits_lsb_first((rest / 10) as nat),
                );
                lemma_digits_lsb_first_decimal((rest / 10) as nat);
                lemma_append_digits_grows(
                    written as int * 10 + d as int,
                    digits_lsb_first((rest / 10) as nat),
                );
            } else {
                lemma_append_digits_push(written as int, Seq::<int>::empty(), d as int);
                assert(Seq::<int>::empty().push(d as int) =~= seq![d as int]);
            }
        }
        written = written * 10 + d as u64;
        if rest < 10 {
            break ;
        }
        rest = rest / 10;
    }
    written
}

/// The decimal digits of `n`, the most significant first.
pub fn decimal_digits(n: u32) -> (digits: Vec<u32>)
    ensures
        digits@.map_values(|d: u32| d as int) == digits_msb_first(n as nat),
{
    let mut reversed: Vec<u32> = Vec::new();
    let mut rest: u32 = n;
    loop
        invariant_except_break
            reversed@.map_values(|d: u32| d as int) + digits_lsb_first(rest as nat)
                == digits_lsb_first(n as nat),
        ensures
            reversed@.map_values(|d: u32| d as int) == digits_lsb_first(n as nat),
        decreases rest,
    {
        let d: u32 = rest % 10;
        let ghost before = reversed@.map_values(|d: u32| d as int);
        reversed.push(d);
        proof {
            let after = reversed@.map_values(|d: u32| d as int);
            assert(after =~= before.push(d as int));
            if rest >= 10 {
                assert(before.push(d as int) + digits_lsb_first((rest / 10) as nat) =~= before + (
                seq![d as int] + digits_lsb_first((rest / 10) as nat)));
            } else {
                assert(before.push(d as int) =~= before + seq![d as int]);
            }
        }
        if rest < 10 {
            break ;
        }
        rest = rest / 10;
    }
    let mut digits: Vec<u32> = Vec::new();
    let mut i: usize = reversed.len();
    let ghost lsb = reversed@.map_values(|d: u32| d as int);
    while i > 0
        invariant
            i <= reversed.len(),
            lsb == reversed@.map_values(|d: u32| d as int),
            digits@.len() == reversed.len() - i,
            forall|k: int| 0 <= k < digits@.len() ==> digits@[k] == reversed@[reversed.len() - 1 - k],
        decreases i,
    {
        i = i - 1;
        digits.push(reversed[i]);
    }
    proof {
        lemma_digits_reverse(n as nat);
        assert(digits@.map_values(|d: u32| d as int) =~= lsb.reverse());
    }
    digits
}

} // verus!
