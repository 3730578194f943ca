use vstd::prelude::*;
use vstd::string::StringExecFns;

verus! {

/// The character of one decimal digit.
pub open spec fn digit_text(digit: nat) -> Seq<char> {
    if digit == 0 {
        "0"@
    } else if digit == 1 {
        "1"@
    } else if digit == 2 {
        "2"@
    } else if digit == 3 {
        "3"@
    } else if digit == 4 {
        "4"@
    } else if digit == 5 {
        "5"@
    } else if digit == 6 {
        "6"@
    } else if digit == 7 {
        "7"@
    } else if digit == 8 {
        "8"@
    } else {
        "9"@
    }
}

/// A number in decimal digits, without leading zeros.
pub open spec fn decimal_text(value: nat) -> Seq<char>
    decreases value,
{
    if value < 10 {
        digit_text(value)
    } else {
        decimal_text(value / 10) + digit_text(value % 10)
    }
}

/// `count` spaces.
pub open spec fn spaces_text(count: nat) -> Seq<char>
    decreases count,
{
    if count == 0 {
        Seq::empty()
    } else {
        spaces_text((count - 1) as nat) + " "@
    }
}

/// The text of one decimal digit.
fn digit(value: usize) -> (text: &'static str)
    requires
        value < 10,
    ensures
        text@ == digit_text(value as nat),
{
    if value == 0 {
        "0"
    } else if value == 1 {
        "1"
    } else if value == 2 {
        "2"
    } else if value == 3 {
        "3"
    } else if value == 4 {
        "4"
    } else if value == 5 {
        "5"
    } else if value == 6 {
        "6"
    } else if value == 7 {
        "7"
    } else if value == 8 {
        "8"
    } else {
        "9"
    }
}

/// Appends `value` in decimal digits to `text`.
pub fn append_decimal(text: &mut String, value: usize)
    ensures
        final(text)@ == old(text)@ + decimal_text(value as nat),
    decreases value,
{
    if value >= 10 {
        append_decimal(text, value / 10);
    }
    text.append(digit(value % 10));
    proof {
        if value >= 10 {
            assert(old(text)@ + decimal_text((value / 10) as nat) + digit_text(
                (value % 10) as nat,
            ) =~= old(text)@ + decimal_text(value as nat));
        }
    }
}

/// `value` in decimal digits.
pub fn decimal(value: usize) -> (text: String)
    ensures
        text@ == decimal_text(value as nat),
{
    let mut text = String::new();
    append_decimal(&mut text, value);
    assert(Seq::<char>::empty() + decimal_text(value as nat) =~= decimal_text(value as nat));
    text
}

/// Appends `count` spaces to `text`.
pub fn append_spaces(text: &mut String, count: usize)
    ensures
        final(text)@ == old(text)@ + spaces_text(count as nat),
{
    let mut i: usize = 0;
    assert(text@ + spaces_text(0) =~= text@);
    while i < count
        invariant
            i <= count,
            text@ == old(text)@ + spaces_text(i as nat),
        decreases count - i,
    {
        text.append(" ");
        i += 1;
        assert(old(text)@ + spaces_text((i - 1) as nat) + " "@ =~= old(text)@ + spaces_text(
            i as nat,
        ));
    }
}

/// A number in decimal digits, with `-` in front where it is negative.
pub open spec fn signed_text(value: int) -> Seq<char> {
    if value < 0 {
        "-"@ + decimal_text((-value) as nat)
    } else {
        decimal_text(value as nat)
    }
}

/// Appends `value` in decimal digits to `text`, with its sign where it is
/// negative.
pub fn append_signed(text: &mut String, value: isize)
    ensures
        final(text)@ == old(text)@ + signed_text(value as int),
{
    if value < 0 {
        let distance: usize = if value == isize::MIN {
            (isize::MAX as usize) + 1
        } else {
            (-value) as usize
        };
        text.append("-");
        append_decimal(text, distance);
        assert(text@ =~= old(text)@ + signed_text(value as int));
    } else {
        append_decimal(text, value as usize);
    }
}

} // verus!
