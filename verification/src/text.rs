//! Decimal rendering of integers into strings.
use vstd::prelude::*;

verus! {

/// The character of a decimal digit.
pub open spec fn digit_char(d: int) -> char {
    if d == 0 {
        '0'
    } else if d == 1 {
        '1'
    } else if d == 2 {
        '2'
    } else if d == 3 {
        '3'
    } else if d == 4 {
        '4'
    } else if d == 5 {
        '5'
    } else if d == 6 {
        '6'
    } else if d == 7 {
        '7'
    } else if d == 8 {
        '8'
    } else {
        '9'
    }
}

/// The decimal digits of a natural number, most significant first.
pub open spec fn nat_digits(n: nat) -> Seq<char>
    decreases n,
{
    if n < 10 {
        seq![digit_char(n as int)]
    } else {
        nat_digits(n / 10).push(digit_char((n % 10) as int))
    }
}

/// The decimal text of an integer, with a leading `-` when negative.
pub open spec fn int_decimal(k: int) -> Seq<char> {
    if k < 0 {
        seq!['-'] + nat_digits((-k) as nat)
    } else {
        nat_digits(k as nat)
    }
}

fn digit_str(d: u64) -> (s: &'static str)
    requires
        d < 10,
    ensures
        s@ == seq![digit_char(d as int)],
{
    proof {
        reveal_strlit("0");
        reveal_strlit("1");
        reveal_strlit("2");
        reveal_strlit("3");
        reveal_strlit("4");
        reveal_strlit("5");
        reveal_strlit("6");
        reveal_strlit("7");
        reveal_strlit("8");
        reveal_strlit("9");
    }
    if d == 0 {
        "0"
    } else if d == 1 {
        "1"
    } else if d == 2 {
        "2"
    } else if d == 3 {
        "3"
    } else if d == 4 {
        "4"
    } else if d == 5 {
        "5"
    } else if d == 6 {
        "6"
    } else if d == 7 {
        "7"
    } else if d == 8 {
        "8"
    } else {
        "9"
    }
}

/// The digits of `n / 10^k` for the first `k` digits removed.
proof fn lemma_nat_digits_split(n: nat)
    requires
        n >= 10,
    ensures
        nat_digits(n) == nat_digits(n / 10).push(digit_char((n % 10) as int)),
{
}

/// Appends the decimal digits of `n` to `out`.
pub fn push_nat(out: &mut String, n: u64)
    ensures
        final(out)@ == old(out)@ + nat_digits(n as nat),
    decreases n,
{
    if n < 10 {
        out.append(digit_str(n));
    } else {
        push_nat(out, n / 10);
        out.append(digit_str(n % 10));
        proof {
            lemma_nat_digits_split(n as nat);
            assert(old(out)@ + nat_digits(n as nat) =~= old(out)@ + nat_digits((n / 10) as nat) + seq![
                digit_char((n % 10) as int),
            ]);
        }
    }
}

/// Appends the decimal text of `k` to `out`.
pub fn push_i64(out: &mut String, k: i64)
    ensures
        final(out)@ == old(out)@ + int_decimal(k as int),
{
    if k < 0 {
        proof {
            reveal_strlit("-");
        }
        out.append("-");
        let m: u64 = (-(k as i128)) as u64;
        push_nat(out, m);
        assert(final(out)@ =~= old(out)@ + int_decimal(k as int)) by {
            assert(old(out)@ + int_decimal(k as int) =~= old(out)@ + seq!['-'] + nat_digits(m as nat));
        }
    } else {
        push_nat(out, k as u64);
    }
}

/// The decimal text of `k`.
pub fn i64_to_string(k: i64) -> (s: String)
    ensures
        s@ == int_decimal(k as int),
{
    let mut s = String::new();
    push_i64(&mut s, k);
    assert(s@ =~= int_decimal(k as int));
    s
}

/// The decimal text of `n`.
pub fn usize_to_string(n: usize) -> (s: String)
    ensures
        s@ == nat_digits(n as nat),
{
    let mut s = String::new();
    push_nat(&mut s, n as u64);
    assert(s@ =~= nat_digits(n as nat));
    s
}

/// Whether the string holds exactly `lit`.
pub(crate) fn string_is(s: &String, lit: &str) -> (b: bool)
    ensures
        b == (s@ == lit@),
{
    let t = String::from_str(lit);
    *s == t
}

} // verus!
