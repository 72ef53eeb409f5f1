//! Names of tensors and other text.

use vstd::prelude::*;
use vstd::string::*;

verus! {

/// The character of a decimal digit.
pub open spec fn digit(value: nat) -> char {
    (48 + value) as char
}

/// The decimal notation of a number.
pub open spec fn decimal(value: nat) -> Seq<char>
    decreases value,
{
    if value < 10 {
        seq![digit(value)]
    } else {
        decimal(value / 10).push(digit(value % 10))
    }
}

/// The number that some digits stand for.
pub open spec fn value_of(digits: Seq<char>) -> int
    decreases digits.len(),
{
    if digits.len() == 0 {
        0
    } else {
        10 * value_of(digits.drop_last()) + (digits.last() as int - '0' as int)
    }
}

/// The decimal notation of a number stands for it, is made of digits and does
/// not begin with a zero, unless it is zero. So no two numbers share one.
pub proof fn lemma_decimal(value: nat)
    ensures
        value_of(decimal(value)) == value,
        decimal(value).len() >= 1,
        forall|i: int|
            0 <= i < decimal(value).len() ==> '0' <= (#[trigger] decimal(value)[i]) && decimal(
                value,
            )[i] <= '9',
        value > 0 ==> decimal(value)[0] != '0',
    decreases value,
{
    reveal_with_fuel(value_of, 3);
    if value >= 10 {
        lemma_decimal(value / 10);
        assert(decimal(value).drop_last() =~= decimal(value / 10));
    } else {
        assert(decimal(value).drop_last() =~= seq![]);
    }
}

/// A digit as text.
fn digit_text(value: u64) -> (result: &'static str)
    requires
        value < 10,
    ensures
        result@ == seq![digit(value as nat)],
{
    proof {
        reveal_strlit("0");
        reveal_strlit("1");
        reveal_strlit("2");
        reveal_strlit("3");
        reveal_strlit("4");
        reveal_strlit("5");
        reveal_strlit("6");
        reveal_strlit("7");
        reveal_strlit("8");
        reveal_strlit("9");
    }
    let result = match value {
        0 => "0",
        1 => "1",
        2 => "2",
        3 => "3",
        4 => "4",
        5 => "5",
        6 => "6",
        7 => "7",
        8 => "8",
        _ => "9",
    };
    assert(result@ =~= seq![digit(value as nat)]);
    result
}

/// Adds the decimal notation of a number.
pub fn append_number(text: &mut String, value: u64)
    ensures
        final(text)@ == old(text)@ + decimal(value as nat),
    decreases value,
{
    if value >= 10 {
        append_number(text, value / 10);
    }
    text.append(digit_text(value % 10));
    assert(text@ =~= old(text)@ + decimal(value as nat));
}

/// `prefix`, a number and `suffix`, one after the other.
pub open spec fn numbered_name(prefix: Seq<char>, index: nat, suffix: Seq<char>) -> Seq<char> {
    prefix + decimal(index) + suffix
}

/// See [`numbered_name`].
pub fn numbered(prefix: &str, index: usize, suffix: &str) -> (result: String)
    ensures
        result@ == numbered_name(prefix@, index as nat, suffix@),
{
    let mut result = prefix.to_owned();
    append_number(&mut result, index as u64);
    result.append(suffix);
    result
}

/// Two texts, one after the other.
pub fn joined(prefix: &str, suffix: &str) -> (result: String)
    ensures
        result@ == prefix@ + suffix@,
{
    let mut result = prefix.to_owned();
    result.append(suffix);
    result
}

/// Whether a text begins with another.
pub open spec fn begins_with(text: Seq<char>, prefix: Seq<char>) -> bool {
    prefix.len() <= text.len() && text.take(prefix.len() as int) == prefix
}

/// A text begins with another exactly where something can be put after that one
/// to make it.
pub proof fn lemma_begins_with(text: Seq<char>, prefix: Seq<char>)
    ensures
        begins_with(text, prefix) <==> exists|rest: Seq<char>| text == #[trigger] (prefix + rest),
{
    if begins_with(text, prefix) {
        assert(text =~= prefix + text.skip(prefix.len() as int));
    }
    if exists|rest: Seq<char>| text == #[trigger] (prefix + rest) {
        let rest = choose|rest: Seq<char>| text == #[trigger] (prefix + rest);
        assert(text.take(prefix.len() as int) =~= prefix);
    }
}

/// See [`begins_with`].
pub fn starts_with(text: &str, prefix: &str) -> (result: bool)
    ensures
        result == begins_with(text@, prefix@),
{
    let length = prefix.unicode_len();
    if length > text.unicode_len() {
        return false;
    }
    let mut index: usize = 0;
    while index < length
        invariant
            index <= length == prefix@.len() <= text@.len(),
            forall|i: int| 0 <= i < index ==> text@[i] == prefix@[i],
        decreases length - index,
    {
        if text.get_char(index) != prefix.get_char(index) {
            assert(text@.take(length as int)[index as int] != prefix@[index as int]);
            return false;
        }
        index = index + 1;
    }
    assert(text@.take(length as int) =~= prefix@);
    true
}

/// A number as text, with its sign.
pub open spec fn signed_decimal(value: int) -> Seq<char> {
    if value < 0 {
        "-"@ + decimal((-value) as nat)
    } else {
        decimal(value as nat)
    }
}

/// Adds a number with its sign.
pub fn append_signed(text: &mut String, value: i32)
    ensures
        final(text)@ == old(text)@ + signed_decimal(value as int),
{
    if value < 0 {
        text.append("-");
        append_number(text, (0 - value as i64) as u64);
    } else {
        append_number(text, value as u64);
    }
    assert(text@ =~= old(text)@ + signed_decimal(value as int));
}

/// The first `count` numbers, separated by commas.
pub open spec fn listed(values: Seq<i32>, count: nat) -> Seq<char>
    decreases count,
{
    if count == 0 {
        seq![]
    } else if count == 1 {
        signed_decimal(values[0] as int)
    } else {
        listed(values, (count - 1) as nat) + ", "@ + signed_decimal(values[count - 1] as int)
    }
}

/// A list of numbers in brackets.
pub open spec fn bracketed(values: Seq<i32>) -> Seq<char> {
    "["@ + listed(values, values.len()) + "]"@
}

/// A list shows its numbers in order: the first one, and then a comma and the
/// list of the others, if there are any.
pub proof fn lemma_listed(first: i32, others: Seq<i32>)
    ensures
        others.len() > 0 ==> listed(seq![first] + others, 1 + others.len()) == signed_decimal(
            first as int,
        ) + ", "@ + listed(others, others.len()),
        others.len() == 0 ==> listed(seq![first] + others, 1 + others.len()) == signed_decimal(
            first as int,
        ),
    decreases others.len(),
{
    let values = seq![first] + others;
    if others.len() > 0 {
        let shorter = others.drop_last();
        let fewer = seq![first] + shorter;
        lemma_listed(first, shorter);
        lemma_listed_part(fewer, values, others.len());
        lemma_listed_part(shorter, others, shorter.len());
        assert(values[others.len() as int] == others.last());
        let comma = ", "@;
        let head = signed_decimal(first as int);
        let tail = signed_decimal(others.last() as int);
        if shorter.len() > 0 {
            let middle = listed(shorter, shorter.len());
            assert(head + comma + middle + comma + tail =~= head + comma + (middle + comma + tail));
        } else {
            assert(listed(values, 1) == head);
        }
    }
}

/// The first numbers of a list are listed the same whatever follows them.
proof fn lemma_listed_part(part: Seq<i32>, whole: Seq<i32>, count: nat)
    requires
        count <= part.len() <= whole.len(),
        forall|i: int| 0 <= i < part.len() ==> part[i] == whole[i],
    ensures
        listed(part, count) == listed(whole, count),
    decreases count,
{
    if count > 1 {
        lemma_listed_part(part, whole, (count - 1) as nat);
    }
}

/// A negative number is shown as the positive one behind a minus sign.
pub proof fn lemma_signed_decimal(value: nat)
    ensures
        value_of(signed_decimal(value as int)) == value,
        value > 0 ==> signed_decimal(-(value as int)) == "-"@ + signed_decimal(value as int),
{
    lemma_decimal(value);
}

/// Adds a list of numbers in brackets.
pub fn append_list(text: &mut String, values: &Vec<i32>)
    ensures
        final(text)@ == old(text)@ + bracketed(values@),
{
    text.append("[");
    let ghost start = text@;
    let mut index: usize = 0;
    assert(text@ =~= start + listed(values@, 0));
    while index < values.len()
        invariant
            index <= values@.len(),
            text@ == start + listed(values@, index as nat),
        decreases values@.len() - index,
    {
        if index > 0 {
            text.append(", ");
        }
        append_signed(text, values[index]);
        index = index + 1;
        assert(text@ =~= start + listed(values@, index as nat));
    }
    text.append("]");
    assert(text@ =~= old(text)@ + bracketed(values@));
}

} // verus!
