use vstd::prelude::*;

verus! {

pub open spec fn digit_char(n: int) -> char {
    if n == 0 {
        '0'
    } else if n == 1 {
        '1'
    } else if n == 2 {
        '2'
    } else if n == 3 {
        '3'
    } else if n == 4 {
        '4'
    } else if n == 5 {
        '5'
    } else if n == 6 {
        '6'
    } else if n == 7 {
        '7'
    } else if n == 8 {
        '8'
    } else {
        '9'
    }
}

/// `n` in decimal, without leading zeros.
pub open spec fn decimal(n: nat) -> Seq<char>
    decreases n,
{
    if n < 10 {
        seq![digit_char(n as int)]
    } else {
        decimal(n / 10).push(digit_char((n % 10) as int))
    }
}

/// `n` in decimal, padded with a zero to at least two digits.
pub open spec fn padded2(n: nat) -> Seq<char> {
    if n < 10 {
        seq!['0', digit_char(n as int)]
    } else {
        decimal(n)
    }
}

/// A chamber label: the chamber's number followed by `#`.
pub open spec fn chamber_label(n: nat) -> Seq<char> {
    decimal(n) + seq!['#']
}

/// A count of minutes as `HH:MM`; the hours are not reduced modulo a day.
pub open spec fn hhmm_text(minutes: nat) -> Seq<char> {
    padded2(minutes / 60) + seq![':'] + padded2(minutes % 60)
}

fn digit_to_char(d: u64) -> (c: char)
    requires
        d < 10,
    ensures
        c == digit_char(d as int),
{
    if d == 0 {
        '0'
    } else if d == 1 {
        '1'
    } else if d == 2 {
        '2'
    } else if d == 3 {
        '3'
    } else if d == 4 {
        '4'
    } else if d == 5 {
        '5'
    } else if d == 6 {
        '6'
    } else if d == 7 {
        '7'
    } else if d == 8 {
        '8'
    } else {
        '9'
    }
}

/// Appends `n` in decimal.
pub fn push_decimal(out: &mut Vec<char>, n: u64)
    ensures
        final(out)@ == old(out)@ + decimal(n as nat),
    decreases n,
{
    if n >= 10 {
        push_decimal(out, n / 10);
    }
    out.push(digit_to_char(n % 10));
    assert(final(out)@ =~= old(out)@ + decimal(n as nat));
}

fn push_padded2(out: &mut Vec<char>, n: u64)
    ensures
        final(out)@ == old(out)@ + padded2(n as nat),
{
    if n < 10 {
        out.push('0');
    }
    push_decimal(out, n);
    assert(final(out)@ =~= old(out)@ + padded2(n as nat));
}

/// Relies on `String: FromIterator<&char>`: the string holds the characters in order.
#[verifier::external_body]
pub(crate) fn string_of_chars(v: &Vec<char>) -> (r: String)
    ensures
        r@ == v@,
{
    v.iter().collect()
}

/// Renders a non-negative count of minutes as `HH:MM`, both fields zero-padded
/// to two digits; hours may exceed 23 (and 99).
pub fn minutes_to_hhmm(minutes: i64) -> (r: String)
    requires
        minutes >= 0,
    ensures
        r@ == hhmm_text(minutes as nat),
{
    let mut out: Vec<char> = Vec::new();
    push_padded2(&mut out, (minutes / 60) as u64);
    out.push(':');
    push_padded2(&mut out, (minutes % 60) as u64);
    assert(out@ =~= hhmm_text(minutes as nat));
    string_of_chars(&out)
}

} // verus!
