//! Decimal notation for timestamps.
//!
//! A session is named by its timestamp written in decimal digits. This
//! module says what number such a name denotes and how a number is written,
//! and proves that reading undoes writing.

use vstd::prelude::*;

verus! {

/// Whether `c` is one of the ten decimal digits.
pub open spec fn is_digit(c: char) -> bool {
    '0' <= c <= '9'
}

/// The number that a sequence of decimal digits denotes, the most
/// significant digit first.
pub open spec fn decimal_value(digits: Seq<char>) -> nat
    decreases digits.len(),
{
    if digits.len() == 0 {
        0
    } else {
        (10 * decimal_value(digits.drop_last()) + (digits.last() as int - '0' as int)) as nat
    }
}

/// Whether `digits` is a numeral: one decimal digit or more, and nothing
/// else.
pub open spec fn is_numeral(digits: Seq<char>) -> bool {
    digits.len() > 0 && forall|i: int| 0 <= i < digits.len() ==> is_digit(#[trigger] digits[i])
}

/// A name without the plus sign that may stand in front of it.
pub open spec fn unsigned(name: Seq<char>) -> Seq<char> {
    if name.len() > 0 && name[0] == '+' {
        name.drop_first()
    } else {
        name
    }
}

/// The timestamp that `name` denotes: `name` is a numeral, with or without
/// a plus sign in front, whose value fits in 128 bits. Any other name
/// denotes none.
pub open spec fn timestamp_of(name: Seq<char>) -> Option<u128> {
    let digits = unsigned(name);
    if is_numeral(digits) && decimal_value(digits) <= u128::MAX {
        Some(decimal_value(digits) as u128)
    } else {
        None
    }
}

/// The value of a numeral is at least the value of each of its prefixes.
pub proof fn lemma_prefix_value(digits: Seq<char>, n: int)
    requires
        0 <= n <= digits.len(),
        forall|i: int| 0 <= i < digits.len() ==> is_digit(#[trigger] digits[i]),
    ensures
        decimal_value(digits.take(n)) <= decimal_value(digits),
    decreases digits.len(),
{
    if n < digits.len() {
        lemma_prefix_value(digits.drop_last(), n);
        assert(digits.drop_last().take(n) =~= digits.take(n));
    } else {
        assert(digits.take(n) =~= digits);
    }
}

/// Reads a timestamp from the name of a session.
pub fn parse_timestamp(name: &str) -> (r: Option<u128>)
    ensures
        r == timestamp_of(name@),
{
    let mut value: u128 = 0;
    let mut valid = true;
    let mut signed = false;
    let mut any = false;
    for c in it: name.chars()
        invariant
            it.seq() == name@,
            signed == (it.index() > 0 && name@[0] == '+'),
            any == (it.index() > (if signed { 1int } else { 0int })),
            valid ==> value == decimal_value(unsigned(name@.take(it.index() as int))),
            valid ==> forall|i: int|
                0 <= i < unsigned(name@.take(it.index() as int)).len() ==> is_digit(
                    #[trigger] unsigned(name@.take(it.index() as int))[i],
                ),
            !valid ==> timestamp_of(name@) is None,
    {
        let ghost k = it.index() as int;
        let ghost before = unsigned(name@.take(k));
        let ghost after = unsigned(name@.take(k + 1));
        assert(c == name@[k]);
        if !any && !signed && c == '+' {
            signed = true;
            assert(after =~= Seq::<char>::empty());
        } else if valid && '0' <= c && c <= '9' {
            let digit: u128 = (c as u8 - '0' as u8) as u128;
            proof {
                assert(after.drop_last() =~= before);
                assert(after.last() == c);
                assert forall|i: int| 0 <= i < after.len() implies is_digit(
                    #[trigger] after[i],
                ) by {
                    if i < before.len() {
                        assert(after[i] == before[i]);
                    }
                }
                if is_numeral(unsigned(name@)) {
                    assert(unsigned(name@).take(after.len() as int) =~= after);
                    lemma_prefix_value(unsigned(name@), after.len() as int);
                }
            }
            any = true;
            match value.checked_mul(10) {
                Some(tens) => match tens.checked_add(digit) {
                    Some(sum) => {
                        value = sum;
                    },
                    None => {
                        valid = false;
                    },
                },
                None => {
                    valid = false;
                },
            }
        } else {
            proof {
                if valid {
                    let digits = unsigned(name@);
                    assert(digits[after.len() - 1] == c);
                }
            }
            any = true;
            valid = false;
        }
    }
    proof {
        assert(name@.take(name@.len() as int) =~= name@);
    }
    if valid && any {
        Some(value)
    } else {
        None
    }
}

/// The decimal digit for a number below ten.
pub open spec fn digit_char(d: nat) -> char {
    ('0' as u8 + d) as u8 as char
}

/// A number written in decimal digits, the most significant first, without
/// leading zeros.
pub open spec fn decimal_digits(n: nat) -> Seq<char>
    decreases n,
{
    if n < 10 {
        seq![digit_char(n)]
    } else {
        decimal_digits(n / 10).push(digit_char(n % 10))
    }
}

/// The one-letter text for a digit.
fn digit_str(d: u8) -> (s: &'static str)
    requires
        d < 10,
    ensures
        s@ == seq![digit_char(d as nat)],
{
    proof {
        reveal_strlit("0");
        reveal_strlit("1");
        reveal_strlit("2");
        reveal_strlit("3");
        reveal_strlit("4");
        reveal_strlit("5");
        reveal_strlit("6");
        reveal_strlit("7");
        reveal_strlit("8");
        reveal_strlit("9");
    }
    let s = match d {
        0 => "0",
        1 => "1",
        2 => "2",
        3 => "3",
        4 => "4",
        5 => "5",
        6 => "6",
        7 => "7",
        8 => "8",
        _ => "9",
    };
    assert(s@ =~= seq![digit_char(d as nat)]);
    s
}

/// Writes a timestamp as the name of a session.
pub fn timestamp_name(timestamp: u128) -> (name: String)
    ensures
        name@ == decimal_digits(timestamp as nat),
    decreases timestamp,
{
    if timestamp < 10 {
        String::from_str(digit_str(timestamp as u8))
    } else {
        let mut name = timestamp_name(timestamp / 10);
        name.append(digit_str((timestamp % 10) as u8));
        assert(name@ =~= decimal_digits(timestamp as nat));
        name
    }
}

/// What is written is a numeral that denotes the number written.
pub proof fn lemma_digits_denote(n: nat)
    ensures
        is_numeral(decimal_digits(n)),
        decimal_digits(n)[0] != '+',
        decimal_value(decimal_digits(n)) == n,
    decreases n,
{
    let digits = decimal_digits(n);
    if n < 10 {
        assert(digits.drop_last() =~= Seq::<char>::empty());
        assert(decimal_value(digits.drop_last()) == 0);
    } else {
        lemma_digits_denote(n / 10);
        assert(digits.drop_last() =~= decimal_digits(n / 10));
        assert forall|i: int| 0 <= i < digits.len() implies is_digit(#[trigger] digits[i]) by {
            if i < digits.len() - 1 {
                assert(digits[i] == decimal_digits(n / 10)[i]);
            }
        }
    }
}

/// Reading undoes writing: the name written for a timestamp denotes that
/// timestamp.
pub proof fn lemma_name_denotes_timestamp(timestamp: u128)
    ensures
        timestamp_of(decimal_digits(timestamp as nat)) == Some(timestamp),
{
    lemma_digits_denote(timestamp as nat);
}

} // verus!
