//! Writing numbers and sentences as text.

use vstd::prelude::*;

verus! {

/// A decimal digit.
pub open spec fn digit(value: int) -> char {
    ('0' as int + value) as char
}

/// A number in decimal digits, without leading zeros.
pub open spec fn decimal(value: nat) -> Seq<char>
    decreases value,
{
    if value < 10 {
        seq![digit(value as int)]
    } else {
        decimal(value / 10).push(digit((value % 10) as int))
    }
}

/// A number in decimal digits with a sign where it is negative.
pub open spec fn signed(value: int) -> Seq<char> {
    if value < 0 {
        seq!['-'] + decimal((-value) as nat)
    } else {
        decimal(value as nat)
    }
}

fn digit_text(value: u128) -> (r: &'static str)
    requires
        value < 10,
    ensures
        r@ == seq![digit(value as int)],
{
    proof {
        reveal_strlit("0");
        reveal_strlit("1");
        reveal_strlit("2");
        reveal_strlit("3");
        reveal_strlit("4");
        reveal_strlit("5");
        reveal_strlit("6");
        reveal_strlit("7");
        reveal_strlit("8");
        reveal_strlit("9");
    }
    let r: &'static str = if value == 0 {
        "0"
    } else if value == 1 {
        "1"
    } else if value == 2 {
        "2"
    } else if value == 3 {
        "3"
    } else if value == 4 {
        "4"
    } else if value == 5 {
        "5"
    } else if value == 6 {
        "6"
    } else if value == 7 {
        "7"
    } else if value == 8 {
        "8"
    } else {
        "9"
    };
    assert(r@ =~= seq![digit(value as int)]);
    r
}

/// A number in decimal digits.
pub fn decimal_text(value: u128) -> (r: String)
    ensures
        r@ == decimal(value as nat),
    decreases value,
{
    if value < 10 {
        String::from_str(digit_text(value))
    } else {
        let r = decimal_text(value / 10).concat(digit_text(value % 10));
        assert(r@ =~= decimal(value as nat));
        r
    }
}

/// A number in decimal digits with a sign where it is negative.
pub fn signed_text(value: i128) -> (r: String)
    ensures
        r@ == signed(value as int),
{
    if value < 0 {
        let magnitude: u128 = (-(value + 1)) as u128 + 1;
        let digits = decimal_text(magnitude);
        let r = String::from_str("-").concat(digits.as_str());
        proof {
            reveal_strlit("-");
            assert("-"@ =~= seq!['-']);
        }
        r
    } else {
        decimal_text(value as u128)
    }
}

/// The number that some decimal digits stand for.
pub open spec fn value_of(digits: Seq<char>) -> int
    decreases digits.len(),
{
    if digits.len() == 0 {
        0
    } else {
        10 * value_of(digits.drop_last()) + (digits.last() as int - '0' as int)
    }
}

/// A number in decimal digits reads back, has digits alone, and starts with a
/// zero only where it is zero.
pub proof fn law_decimal_reads_back(value: nat)
    ensures
        value_of(decimal(value)) == value,
        decimal(value).len() > 0,
        forall|i: int|
            0 <= i < decimal(value).len() ==> '0' <= (#[trigger] decimal(value)[i]) <= '9',
        decimal(value)[0] == '0' ==> value == 0,
    decreases value,
{
    let digits = decimal(value);
    if value < 10 {
        assert(digits.drop_last() =~= Seq::<char>::empty());
        assert(value_of(digits.drop_last()) == 0);
    } else {
        law_decimal_reads_back(value / 10);
        assert(digits.drop_last() =~= decimal(value / 10));
        assert(digits[0] == decimal(value / 10)[0]);
        assert forall|i: int| 0 <= i < digits.len() implies '0' <= (#[trigger] digits[i])
            <= '9' by {
            if i < digits.len() - 1 {
                assert(digits[i] == decimal(value / 10)[i]);
            }
        }
    }
}

/// A number with a sign is its magnitude, behind a hyphen where it is negative.
pub proof fn law_signed_is_the_magnitude(value: int)
    ensures
        value >= 0 ==> signed(value) == decimal(value as nat),
        value < 0 ==> signed(value) == seq!['-'] + decimal((-value) as nat),
{
}

} // verus!
