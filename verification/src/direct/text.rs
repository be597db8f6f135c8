//! Numbers in messages.

use vstd::prelude::*;
use vstd::arithmetic::div_mod::lemma_mod_breakdown;
use vstd::arithmetic::mul::lemma_mul_is_commutative;
use vstd::arithmetic::power::{lemma_pow0, lemma_pow1, lemma_pow_adds, lemma_pow_positive, pow};
use vstd::string::StringExecFns;

verus! {

pub open spec fn digit(value: nat) -> Seq<char> {
    if value == 0 {
        "0"@
    } else if value == 1 {
        "1"@
    } else if value == 2 {
        "2"@
    } else if value == 3 {
        "3"@
    } else if value == 4 {
        "4"@
    } else if value == 5 {
        "5"@
    } else if value == 6 {
        "6"@
    } else if value == 7 {
        "7"@
    } else if value == 8 {
        "8"@
    } else {
        "9"@
    }
}

/// The decimal digits of a number, without leading zeros.
pub open spec fn decimal_of(value: nat) -> Seq<char>
    decreases value,
{
    if value < 10 {
        digit(value)
    } else {
        decimal_of(value / 10) + digit(value % 10)
    }
}

fn digit_text(value: u64) -> (r: &'static str)
    requires
        value < 10,
    ensures
        r@ == digit(value as nat),
{
    if value == 0 {
        "0"
    } else if value == 1 {
        "1"
    } else if value == 2 {
        "2"
    } else if value == 3 {
        "3"
    } else if value == 4 {
        "4"
    } else if value == 5 {
        "5"
    } else if value == 6 {
        "6"
    } else if value == 7 {
        "7"
    } else if value == 8 {
        "8"
    } else {
        "9"
    }
}

pub fn decimal(value: u64) -> (r: String)
    ensures
        r@ == decimal_of(value as nat),
    decreases value,
{
    if value < 10 {
        String::from_str(digit_text(value))
    } else {
        decimal(value / 10).concat(digit_text(value % 10))
    }
}

/// A hexadecimal digit.
pub open spec fn hex_digit(value: nat) -> Seq<char> {
    if value < 10 {
        digit(value)
    } else if value == 10 {
        "a"@
    } else if value == 11 {
        "b"@
    } else if value == 12 {
        "c"@
    } else if value == 13 {
        "d"@
    } else if value == 14 {
        "e"@
    } else {
        "f"@
    }
}

/// The lowest `digits` hexadecimal digits of a number.
pub open spec fn hex_of(value: nat, digits: nat) -> Seq<char>
    decreases digits,
{
    if digits == 0 {
        Seq::empty()
    } else {
        hex_of(value / 16, (digits - 1) as nat) + hex_digit(value % 16)
    }
}

fn hex_digit_text(value: u64) -> (r: &'static str)
    requires
        value < 16,
    ensures
        r@ == hex_digit(value as nat),
{
    if value < 10 {
        digit_text(value)
    } else if value == 10 {
        "a"
    } else if value == 11 {
        "b"
    } else if value == 12 {
        "c"
    } else if value == 13 {
        "d"
    } else if value == 14 {
        "e"
    } else {
        "f"
    }
}

/// A number in `digits` hexadecimal digits.
pub fn hex(value: u64, digits: u8) -> (r: String)
    ensures
        r@ == hex_of(value as nat, digits as nat),
    decreases digits,
{
    if digits == 0 {
        proof {
            reveal_strlit("");
            assert(""@ =~= Seq::<char>::empty());
        }
        String::from_str("")
    } else {
        hex(value / 16, digits - 1).concat(hex_digit_text(value % 16))
    }
}

/// The number that a hexadecimal digit stands for.
pub open spec fn digit_value(c: char) -> int {
    if '0' <= c && c <= '9' {
        c as int - '0' as int
    } else {
        c as int - 'a' as int + 10
    }
}

/// The number that digits stand for.
pub open spec fn read_back(text: Seq<char>, base: int) -> int
    decreases text.len(),
{
    if text.len() == 0 {
        0
    } else {
        read_back(text.drop_last(), base) * base + digit_value(text.last())
    }
}

proof fn lemma_digits(value: nat)
    requires
        value < 16,
    ensures
        hex_digit(value).len() == 1,
        digit_value(hex_digit(value)[0]) == value,
        value < 10 ==> digit(value) == hex_digit(value),
{
    reveal_strlit("0");
    reveal_strlit("1");
    reveal_strlit("2");
    reveal_strlit("3");
    reveal_strlit("4");
    reveal_strlit("5");
    reveal_strlit("6");
    reveal_strlit("7");
    reveal_strlit("8");
    reveal_strlit("9");
    reveal_strlit("a");
    reveal_strlit("b");
    reveal_strlit("c");
    reveal_strlit("d");
    reveal_strlit("e");
    reveal_strlit("f");
}

/// The decimal text of a number is read back as that number, and two numbers never have
/// the same text.
pub proof fn law_decimals_are_read_back(value: nat)
    ensures
        read_back(decimal_of(value), 10) == value,
        decimal_of(value).len() > 0,
    decreases value,
{
    lemma_digits(value % 10);
    let last = digit(value % 10);
    if value < 10 {
        assert(decimal_of(value) == last);
        assert(last.drop_last() =~= Seq::<char>::empty());
        assert(read_back(last.drop_last(), 10) == 0);
    } else {
        law_decimals_are_read_back(value / 10);
        let rest = decimal_of(value / 10);
        assert((rest + last).drop_last() =~= rest);
        assert((rest + last).last() == last[0]);
    }
}

/// The hexadecimal text of a number has as many digits as were asked for, and is read back
/// as what of the number fits in them.
pub proof fn law_hexadecimals_are_read_back(value: nat, digits: nat)
    ensures
        hex_of(value, digits).len() == digits,
        read_back(hex_of(value, digits), 16) == value % pow(16, digits) as nat,
    decreases digits,
{
    if digits == 0 {
        lemma_pow0(16);
    } else {
        let rest = hex_of(value / 16, (digits - 1) as nat);
        let last = hex_digit(value % 16);
        law_hexadecimals_are_read_back(value / 16, (digits - 1) as nat);
        lemma_digits(value % 16);
        assert((rest + last).drop_last() =~= rest);
        assert((rest + last).last() == last[0]);
        let power = pow(16, (digits - 1) as nat);
        lemma_pow1(16);
        lemma_pow_adds(16, 1, (digits - 1) as nat);
        lemma_pow_positive(16, (digits - 1) as nat);
        lemma_mod_breakdown(value as int, 16, power);
        lemma_mul_is_commutative((value as int / 16) % power, 16);
    }
}

} // verus!
