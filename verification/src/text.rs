//! Decimal text for error messages.
use vstd::prelude::*;
use vstd::string::StringExecFns;

verus! {

/// The character of one decimal digit.
pub open spec fn digit_char(d: nat) -> char {
    if d == 0 {
        '0'
    } else if d == 1 {
        '1'
    } else if d == 2 {
        '2'
    } else if d == 3 {
        '3'
    } else if d == 4 {
        '4'
    } else if d == 5 {
        '5'
    } else if d == 6 {
        '6'
    } else if d == 7 {
        '7'
    } else if d == 8 {
        '8'
    } else {
        '9'
    }
}

/// Decimal notation of `n`, without leading zeros.
pub open spec fn dec(n: nat) -> Seq<char>
    decreases n,
{
    if n < 10 {
        seq![digit_char(n)]
    } else {
        dec(n / 10).push(digit_char(n % 10))
    }
}

/// The literal that spells one decimal digit.
fn digit_str(d: u64) -> (s: &'static str)
    requires
        d < 10,
    ensures
        s@ == seq![digit_char(d as nat)],
{
    proof {
        reveal_strlit("0");
        reveal_strlit("1");
        reveal_strlit("2");
        reveal_strlit("3");
        reveal_strlit("4");
        reveal_strlit("5");
        reveal_strlit("6");
        reveal_strlit("7");
        reveal_strlit("8");
        reveal_strlit("9");
    }
    if d == 0 {
        "0"
    } else if d == 1 {
        "1"
    } else if d == 2 {
        "2"
    } else if d == 3 {
        "3"
    } else if d == 4 {
        "4"
    } else if d == 5 {
        "5"
    } else if d == 6 {
        "6"
    } else if d == 7 {
        "7"
    } else if d == 8 {
        "8"
    } else {
        "9"
    }
}

/// Decimal notation of `n` as a string.
pub fn dec_string(n: u64) -> (s: String)
    ensures
        s@ == dec(n as nat),
    decreases n,
{
    if n < 10 {
        String::from_str(digit_str(n))
    } else {
        let mut s = dec_string(n / 10);
        let last: u64 = n % 10;
        s.append(digit_str(last));
        assert(s@ =~= dec(n as nat));
        s
    }
}

/// Decimal notation of a signed number.
pub open spec fn dec_signed(v: int) -> Seq<char> {
    if v < 0 {
        seq!['-'] + dec((-v) as nat)
    } else {
        dec(v as nat)
    }
}

/// Decimal notation of a signed number as a string.
pub fn dec_signed_string(v: i64) -> (s: String)
    requires
        v > i64::MIN,
    ensures
        s@ == dec_signed(v as int),
{
    if v < 0 {
        let mut s = String::from_str("-");
        let digits = dec_string((-v) as u64);
        s.append(digits.as_str());
        proof {
            reveal_strlit("-");
            assert(s@ =~= dec_signed(v as int));
        }
        s
    } else {
        dec_string(v as u64)
    }
}

/// `prefix` followed by the decimal notation of `n` and `suffix`.
pub fn with_number(prefix: &str, n: u64, suffix: &str) -> (s: String)
    ensures
        s@ == prefix@ + dec(n as nat) + suffix@,
{
    let mut s = String::from_str(prefix);
    let number = dec_string(n);
    s.append(number.as_str());
    s.append(suffix);
    s
}

/// The notation of a negative number is that of its opposite with a minus
/// sign in front; other numbers bear no sign.
pub proof fn only_negative_numbers_bear_a_sign(v: int)
    requires
        v > 0,
    ensures
        dec_signed(0 - v) == seq!['-'] + dec_signed(v),
        dec_signed(v) == dec(v as nat),
        dec_signed(v)[0] != '-',
        dec_signed(0) == dec(0),
{
    crate::words::reading_undoes_writing(v as nat);
    assert(crate::words::is_digit(dec(v as nat)[0]));
}

} // verus!
