//! Decimal numbers as ASCII text: how a number is written, and what number a
//! run of digits spells.

use vstd::prelude::*;

verus! {

/// The ASCII character of the decimal digit `d`.
pub open spec fn digit(d: nat) -> u8 {
    (48 + d) as u8
}

/// Whether `b` is the ASCII character of a decimal digit.
pub open spec fn is_digit(b: u8) -> bool {
    48 <= b <= 57
}

/// The shortest decimal numeral of `value`, most significant digit first.
pub open spec fn decimal(value: nat) -> Seq<u8>
    decreases value,
{
    if value < 10 {
        seq![digit(value)]
    } else {
        decimal(value / 10).push(digit(value % 10))
    }
}

/// `count` zero digits.
pub open spec fn zeros(count: nat) -> Seq<u8> {
    Seq::new(count, |i: int| 48u8)
}

/// The decimal numeral of `value`, with zeros in front where it has fewer
/// than `width` digits.
pub open spec fn padded(value: nat, width: nat) -> Seq<u8> {
    let numeral = decimal(value);
    if numeral.len() >= width {
        numeral
    } else {
        zeros((width - numeral.len()) as nat) + numeral
    }
}

/// Whether every byte of `s` is a decimal digit.
pub open spec fn all_digits(s: Seq<u8>) -> bool {
    forall|i: int| 0 <= i < s.len() ==> is_digit(#[trigger] s[i])
}

/// The number that the digits of `s` spell, most significant digit first.
pub open spec fn number(s: Seq<u8>) -> nat
    decreases s.len(),
{
    if s.len() == 0 {
        0
    } else {
        number(s.drop_last()) * 10 + (s.last() - 48) as nat
    }
}

/// What a run of bytes spells as a number of at most `u32::MAX`: the number
/// of its digits, or `None` where a byte is no digit or the number is larger.
pub open spec fn spelled(run: Seq<u8>) -> Option<u32> {
    if all_digits(run) && number(run) <= u32::MAX {
        Some(number(run) as u32)
    } else {
        None
    }
}

/// Ten to the power `exponent`.
pub open spec fn pow10(exponent: nat) -> nat
    decreases exponent,
{
    if exponent == 0 {
        1
    } else {
        10 * pow10((exponent - 1) as nat)
    }
}

/// A numeral consists of digits, and spells the number it was written for.
pub proof fn lemma_decimal(value: nat)
    ensures
        decimal(value).len() >= 1,
        all_digits(decimal(value)),
        number(decimal(value)) == value,
    decreases value,
{
    if value >= 10 {
        lemma_decimal(value / 10);
        let shorter = decimal(value / 10);
        let whole = decimal(value);
        assert(whole.drop_last() =~= shorter);
        assert(whole.last() == digit(value % 10));
        assert(number(whole) == number(shorter) * 10 + (whole.last() - 48) as nat);
        assert forall|i: int| 0 <= i < whole.len() implies is_digit(#[trigger] whole[i]) by {
            if i < shorter.len() {
                assert(whole[i] == shorter[i]);
            }
        }
    } else {
        let whole = decimal(value);
        assert(whole.drop_last() =~= Seq::<u8>::empty());
        assert(number(whole.drop_last()) == 0);
        assert(number(whole) == number(whole.drop_last()) * 10 + (whole.last() - 48) as nat);
    }
}

/// A number below ten to the `digits` has a numeral of at most `digits` digits.
pub proof fn lemma_decimal_len(value: nat, digits: nat)
    requires
        digits >= 1,
        value < pow10(digits),
    ensures
        decimal(value).len() <= digits,
    decreases digits,
{
    if value >= 10 {
        if digits == 1 {
            assert(pow10(1) == 10) by {
                reveal_with_fuel(pow10, 2);
            }
        } else {
            lemma_decimal_len(value / 10, (digits - 1) as nat);
        }
    }
}

/// Zeros in front of a run of digits do not change the number it spells.
pub proof fn lemma_number_zeros(count: nat, s: Seq<u8>)
    ensures
        number(zeros(count) + s) == number(s),
    decreases s.len(),
{
    let whole = zeros(count) + s;
    if s.len() == 0 {
        assert(whole =~= zeros(count));
        lemma_number_of_zeros(count);
    } else {
        assert(whole.drop_last() =~= zeros(count) + s.drop_last());
        lemma_number_zeros(count, s.drop_last());
    }
}

/// A run of zeros spells zero.
pub proof fn lemma_number_of_zeros(count: nat)
    ensures
        number(zeros(count)) == 0,
    decreases count,
{
    if count > 0 {
        assert(zeros(count).drop_last() =~= zeros((count - 1) as nat));
        lemma_number_of_zeros((count - 1) as nat);
    }
}

/// A padded numeral consists of digits, spells the number it was written for,
/// and has at least the width asked for.
pub proof fn lemma_padded(value: nat, width: nat)
    ensures
        padded(value, width).len() >= width,
        all_digits(padded(value, width)),
        number(padded(value, width)) == value,
{
    lemma_decimal(value);
    let numeral = decimal(value);
    if numeral.len() < width {
        let front = (width - numeral.len()) as nat;
        lemma_number_zeros(front, numeral);
        assert forall|i: int| 0 <= i < padded(value, width).len() implies is_digit(
            #[trigger] padded(value, width)[i],
        ) by {
            if i >= front {
                assert(padded(value, width)[i] == numeral[i - front]);
            }
        }
    }
}

/// Below one hundred, the two-digit form is the tens digit and the ones digit.
pub proof fn lemma_padded_two(value: nat)
    requires
        value < 100,
    ensures
        padded(value, 2) == seq![digit(value / 10), digit(value % 10)],
{
    reveal_with_fuel(decimal, 2);
    if value < 10 {
        assert(padded(value, 2) =~= seq![digit(value / 10), digit(value % 10)]);
    } else {
        assert(padded(value, 2) =~= seq![digit(value / 10), digit(value % 10)]);
    }
}

/// Below ten thousand, the four-digit form is the four digits from the
/// thousands down.
pub proof fn lemma_padded_four(value: nat)
    requires
        value < 10000,
    ensures
        padded(value, 4) == seq![
            digit(value / 1000),
            digit(value / 100 % 10),
            digit(value / 10 % 10),
            digit(value % 10),
        ],
{
    reveal_with_fuel(decimal, 4);
    let expected = seq![
        digit(value / 1000),
        digit(value / 100 % 10),
        digit(value / 10 % 10),
        digit(value % 10),
    ];
    if value < 10 {
        assert(padded(value, 4) =~= expected);
    } else if value < 100 {
        assert(padded(value, 4) =~= expected);
    } else if value < 1000 {
        assert(padded(value, 4) =~= expected);
    } else {
        assert(padded(value, 4) =~= expected);
    }
}

/// The number of digits in the shortest decimal numeral of `value`.
pub fn digit_count(value: u32) -> (count: usize)
    ensures
        count == decimal(value as nat).len(),
        1 <= count <= 10,
    decreases value,
{
    proof {
        assert(pow10(10) == 10_000_000_000nat) by {
            reveal_with_fuel(pow10, 11);
        }
        lemma_decimal_len(value as nat, 10);
        lemma_decimal(value as nat);
    }
    if value < 10 {
        1
    } else {
        proof {
            lemma_decimal_len((value / 10) as nat, 10);
        }
        1 + digit_count(value / 10)
    }
}

/// Appends the shortest decimal numeral of `value` to `out`.
pub fn push_decimal(out: &mut Vec<u8>, value: u32)
    ensures
        final(out)@ == old(out)@ + decimal(value as nat),
    decreases value,
{
    if value >= 10 {
        push_decimal(out, value / 10);
    }
    let low: u8 = (value % 10) as u8;
    out.push('0' as u8 + low);
    proof {
        assert(final(out)@ =~= old(out)@ + decimal(value as nat));
    }
}

/// Appends the decimal numeral of `value` to `out`, with zeros in front where
/// it has fewer than `width` digits.
pub fn push_padded(out: &mut Vec<u8>, value: u32, width: usize)
    ensures
        final(out)@ == old(out)@ + padded(value as nat, width as nat),
{
    let count: usize = digit_count(value);
    let mut written: usize = count;
    while written < width
        invariant
            count <= written,
            written <= width || written == count,
            out@ == old(out)@ + zeros((written - count) as nat),
        decreases width - written,
    {
        out.push('0' as u8);
        written = written + 1;
        proof {
            assert(out@ =~= old(out)@ + zeros((written - count) as nat));
        }
    }
    push_decimal(out, value);
    proof {
        assert(final(out)@ =~= old(out)@ + padded(value as nat, width as nat));
    }
}

/// Appends `bytes` to `out`.
pub fn push_all(out: &mut Vec<u8>, bytes: &[u8])
    ensures
        final(out)@ == old(out)@ + bytes@,
{
    let mut index: usize = 0;
    while index < bytes.len()
        invariant
            index <= bytes.len(),
            out@ == old(out)@ + bytes@.subrange(0, index as int),
        decreases bytes.len() - index,
    {
        out.push(bytes[index]);
        index = index + 1;
        proof {
            assert(out@ =~= old(out)@ + bytes@.subrange(0, index as int));
        }
    }
    proof {
        assert(bytes@.subrange(0, index as int) =~= bytes@);
    }
}

/// The number that the bytes of `bytes` from `start` up to `end` spell, where
/// all of them are digits and the number fits; `None` otherwise.
pub fn read_number(bytes: &[u8], start: usize, end: usize) -> (value: Option<u32>)
    requires
        start <= end <= bytes.len(),
    ensures
        value == spelled(bytes@.subrange(start as int, end as int)),
{
    let ghost run = bytes@.subrange(start as int, end as int);
    let mut total: u64 = 0;
    let mut index: usize = start;
    while index < end
        invariant
            start <= index <= end <= bytes.len(),
            run == bytes@.subrange(start as int, end as int),
            all_digits(run.subrange(0, index - start)),
            total == number(run.subrange(0, index - start)),
            total <= u32::MAX,
        decreases end - index,
    {
        let byte: u8 = bytes[index];
        let ghost shorter = run.subrange(0, index - start);
        let ghost longer = run.subrange(0, index + 1 - start);
        proof {
            assert(longer.drop_last() =~= shorter);
            assert(longer.last() == byte);
        }
        if byte < 48 || byte > 57 {
            proof {
                assert(run[index - start] == byte);
            }
            return None;
        }
        total = total * 10 + (byte - 48) as u64;
        if total > 0xffff_ffff {
            proof {
                if all_digits(run) {
                    lemma_number_grows(run, (index + 1 - start) as nat);
                }
            }
            return None;
        }
        index = index + 1;
    }
    proof {
        assert(run.subrange(0, index - start) =~= run);
    }
    Some(total as u32)
}

/// A run of digits spells at least what any of its prefixes spells.
pub proof fn lemma_number_grows(run: Seq<u8>, prefix: nat)
    requires
        prefix <= run.len(),
        all_digits(run),
    ensures
        number(run.subrange(0, prefix as int)) <= number(run),
    decreases run.len(),
{
    if prefix < run.len() {
        assert(run.drop_last().subrange(0, prefix as int) =~= run.subrange(0, prefix as int));
        assert forall|i: int| 0 <= i < run.drop_last().len() implies is_digit(
            #[trigger] run.drop_last()[i],
        ) by {
            assert(run.drop_last()[i] == run[i]);
        }
        lemma_number_grows(run.drop_last(), prefix);
        assert(is_digit(run[run.len() - 1]));
    } else {
        assert(run.subrange(0, prefix as int) =~= run);
    }
}

} // verus!
