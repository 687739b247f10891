//! Numbers and names as text.

use vstd::prelude::*;
use vstd::string::{StrSliceExecFns, StringExecFns};

verus! {

/// The lower-case digit of a value below sixteen.
pub open spec fn digit(value: int) -> char {
    if value < 10 {
        ('0' as int + value) as char
    } else {
        ('a' as int + value - 10) as char
    }
}

/// The digits of a number in base ten.
pub open spec fn decimal(value: nat) -> Seq<char>
    decreases value,
{
    if value < 10 {
        seq![digit(value as int)]
    } else {
        decimal(value / 10).push(digit((value % 10) as int))
    }
}

/// Two lower-case digits per byte.
pub open spec fn hexadecimal(bytes: Seq<u8>) -> Seq<char> {
    Seq::new(
        2 * bytes.len(),
        |i: int|
            if i % 2 == 0 {
                digit(bytes[i / 2] as int / 16)
            } else {
                digit(bytes[i / 2] as int % 16)
            },
    )
}

fn digit_text(value: u8) -> (text: &'static str)
    requires
        value < 16,
    ensures
        text@ == seq![digit(value as int)],
{
    proof {
        reveal_strlit("0");
        reveal_strlit("1");
        reveal_strlit("2");
        reveal_strlit("3");
        reveal_strlit("4");
        reveal_strlit("5");
        reveal_strlit("6");
        reveal_strlit("7");
        reveal_strlit("8");
        reveal_strlit("9");
        reveal_strlit("a");
        reveal_strlit("b");
        reveal_strlit("c");
        reveal_strlit("d");
        reveal_strlit("e");
        reveal_strlit("f");
    }
    let text = match value {
        0 => "0",
        1 => "1",
        2 => "2",
        3 => "3",
        4 => "4",
        5 => "5",
        6 => "6",
        7 => "7",
        8 => "8",
        9 => "9",
        10 => "a",
        11 => "b",
        12 => "c",
        13 => "d",
        14 => "e",
        _ => "f",
    };
    assert(text@ =~= seq![digit(value as int)]);
    text
}

/// A number in base ten.
pub fn decimal_text(value: usize) -> (text: String)
    ensures
        text@ == decimal(value as nat),
    decreases value,
{
    if value < 10 {
        digit_text(value as u8).to_owned()
    } else {
        let mut text = decimal_text(value / 10);
        text.append(digit_text((value % 10) as u8));
        assert(text@ =~= decimal(value as nat));
        text
    }
}

/// Bytes as two lower-case digits each.
pub fn hexadecimal_text(bytes: &[u8]) -> (text: String)
    ensures
        text@ == hexadecimal(bytes@),
{
    let mut text = String::new();
    let count = bytes.len();
    let mut index: usize = 0;
    while index < count
        invariant
            count == bytes@.len(),
            index <= count,
            text@ =~= hexadecimal(bytes@).take(2 * index),
        decreases count - index,
    {
        let byte = bytes[index];
        text.append(digit_text(byte / 16));
        text.append(digit_text(byte % 16));
        index = index + 1;
    }
    assert(hexadecimal(bytes@).take(2 * index) =~= hexadecimal(bytes@));
    text
}

/// A name with a suffix.
pub fn joined(name: &str, suffix: &str) -> (text: String)
    ensures
        text@ == name@ + suffix@,
{
    name.to_owned().concat(suffix)
}

/// A name with a number after it.
pub fn numbered(name: &str, number: usize) -> (text: String)
    ensures
        text@ == name@ + decimal(number as nat),
{
    name.to_owned().concat(decimal_text(number).as_str())
}

proof fn lemma_decimal_nonempty(value: nat)
    ensures
        decimal(value).len() > 0,
    decreases value,
{
    if value >= 10 {
        lemma_decimal_nonempty(value / 10);
    }
}

proof fn lemma_digit_distinct(a: int, b: int)
    requires
        0 <= a < 16,
        0 <= b < 16,
        digit(a) == digit(b),
    ensures
        a == b,
{
}

/// Different numbers have different digits.
pub proof fn law_decimal_is_unique(a: nat, b: nat)
    requires
        decimal(a) == decimal(b),
    ensures
        a == b,
    decreases a,
{
    lemma_decimal_nonempty(a / 10);
    lemma_decimal_nonempty(b / 10);
    assert(decimal(a).last() == digit((a % 10) as int));
    assert(decimal(b).last() == digit((b % 10) as int));
    lemma_digit_distinct((a % 10) as int, (b % 10) as int);
    if a >= 10 && b >= 10 {
        assert(decimal(a).drop_last() =~= decimal(a / 10));
        assert(decimal(b).drop_last() =~= decimal(b / 10));
        law_decimal_is_unique(a / 10, b / 10);
    } else {
        assert(a < 10 ==> decimal(a).len() == 1);
        assert(b < 10 ==> decimal(b).len() == 1);
        assert(a >= 10 ==> decimal(a).len() >= 2);
        assert(b >= 10 ==> decimal(b).len() >= 2);
    }
}

/// Different bytes have different hexadecimal texts, so comparing digests as
/// text is comparing them as bytes.
pub proof fn law_hexadecimal_is_unique(a: Seq<u8>, b: Seq<u8>)
    requires
        hexadecimal(a) == hexadecimal(b),
    ensures
        a == b,
{
    assert(hexadecimal(a).len() == 2 * a.len() && hexadecimal(b).len() == 2 * b.len());
    assert forall|i: int| 0 <= i < a.len() implies a[i] == b[i] by {
        assert((2 * i) / 2 == i && (2 * i) % 2 == 0 && (2 * i + 1) / 2 == i && (2 * i + 1) % 2
            == 1);
        assert(hexadecimal(a)[2 * i] == digit(a[i] as int / 16));
        assert(hexadecimal(b)[2 * i] == digit(b[i] as int / 16));
        assert(hexadecimal(a)[2 * i + 1] == digit(a[i] as int % 16));
        assert(hexadecimal(b)[2 * i + 1] == digit(b[i] as int % 16));
        lemma_digit_distinct(a[i] as int / 16, b[i] as int / 16);
        lemma_digit_distinct(a[i] as int % 16, b[i] as int % 16);
    }
    assert(a =~= b);
}

/// Whether every character is a decimal digit.
pub open spec fn all_digits(text: Seq<char>) -> bool {
    forall|i: int| 0 <= i < text.len() ==> '0' <= #[trigger] text[i] <= '9'
}

/// The number that decimal digits stand for.
pub open spec fn number(digits: Seq<char>) -> nat
    decreases digits.len(),
{
    if digits.len() == 0 {
        0
    } else {
        number(digits.drop_last()) * 10 + (digits.last() as nat - '0' as nat) as nat
    }
}

/// The digits of a count that may be written with a plus sign.
pub open spec fn unsigned_digits(text: Seq<char>) -> Seq<char> {
    if text.len() > 0 && text[0] == '+' {
        text.skip(1)
    } else {
        text
    }
}

/// The count that a text stands for: an optional plus sign, then one or more
/// decimal digits, of a number that fits. Nothing for any other text.
pub open spec fn count_in(text: Seq<char>) -> Option<usize> {
    let digits = unsigned_digits(text);
    if digits.len() > 0 && all_digits(digits) && number(digits) <= usize::MAX {
        Some(number(digits) as usize)
    } else {
        None
    }
}

/// The leading digits stand for no more than all of them.
proof fn lemma_number_grows(digits: Seq<char>, count: int)
    requires
        0 <= count <= digits.len(),
    ensures
        number(digits.take(count)) <= number(digits),
    decreases digits.len() - count,
{
    if count == digits.len() {
        assert(digits.take(count) =~= digits);
    } else {
        lemma_number_grows(digits, count + 1);
        assert(digits.take(count + 1).drop_last() =~= digits.take(count));
    }
}

/// The count that a text stands for, if it does.
pub fn parse_count(text: &str) -> (count: Option<usize>)
    ensures
        count == count_in(text@),
{
    let length = text.unicode_len();
    let first: usize = if length > 0 && text.get_char(0) == '+' {
        1
    } else {
        0
    };
    let ghost digits = unsigned_digits(text@);
    if length == first {
        return None;
    }
    let mut value: usize = 0;
    let mut index: usize = first;
    proof {
        assert(digits.take(0) =~= Seq::<char>::empty());
    }
    while index < length
        invariant
            length == text@.len(),
            first <= index <= length,
            digits == unsigned_digits(text@),
            digits == text@.skip(first as int),
            all_digits(digits.take(index - first)),
            value == number(digits.take(index - first)),
        decreases length - index,
    {
        let digit = text.get_char(index);
        let ghost before = digits.take(index - first);
        let ghost after = digits.take(index - first + 1);
        proof {
            assert(digits[index - first] == digit);
            assert(after.drop_last() =~= before);
            assert(after.last() == digit);
            lemma_number_grows(digits, index - first + 1);
        }
        if digit < '0' || digit > '9' {
            return None;
        }
        let amount = digit as usize - '0' as usize;
        if value > usize::MAX / 10 || value * 10 > usize::MAX - amount {
            return None;
        }
        value = value * 10 + amount;
        index = index + 1;
        proof {
            assert forall|i: int| 0 <= i < after.len() implies '0' <= #[trigger] after[i]
                <= '9' by {
                if i < before.len() {
                    assert(before[i] == after[i]);
                }
            }
        }
    }
    proof {
        assert(digits.take(index - first) =~= digits);
    }
    Some(value)
}

proof fn lemma_decimal_digits(value: nat)
    ensures
        all_digits(decimal(value)),
        number(decimal(value)) == value,
        decimal(value).len() > 0,
        decimal(value)[0] != '+',
    decreases value,
{
    if value < 10 {
        assert(decimal(value).drop_last() =~= Seq::<char>::empty());
        assert(number(Seq::<char>::empty()) == 0);
        assert(decimal(value).last() == digit(value as int));
    } else {
        lemma_decimal_digits(value / 10);
        let front = decimal(value / 10);
        assert(decimal(value).drop_last() =~= front);
        assert(decimal(value).last() == digit((value % 10) as int));
        assert forall|i: int| 0 <= i < decimal(value).len() implies '0'
            <= #[trigger] decimal(value)[i] <= '9' by {
            if i < front.len() {
                assert(front[i] == decimal(value)[i]);
            }
        }
    }
}

/// A count that was written down is read back.
pub proof fn law_counts_are_read_back(value: usize)
    ensures
        count_in(decimal(value as nat)) == Some(value),
{
    lemma_decimal_digits(value as nat);
}

} // verus!
