//! Character-level helpers shared by the stages: decimal rendering of
//! integers and appending to `String`s.

use vstd::prelude::*;
use vstd::string::StringExecFns;

verus! {

/// The ASCII digit for `d`, where `0 <= d < 10`.
pub open spec fn digit_char(d: int) -> char {
    if d == 0 { '0' }
    else if d == 1 { '1' }
    else if d == 2 { '2' }
    else if d == 3 { '3' }
    else if d == 4 { '4' }
    else if d == 5 { '5' }
    else if d == 6 { '6' }
    else if d == 7 { '7' }
    else if d == 8 { '8' }
    else { '9' }
}

/// The decimal representation of `n`, without leading zeros ("0" for zero).
pub open spec fn decimal(n: nat) -> Seq<char>
    decreases n,
{
    if n < 10 {
        seq![digit_char(n as int)]
    } else {
        decimal(n / 10).push(digit_char((n % 10) as int))
    }
}

/// The decimal representation of a signed integer, with a leading '-' when
/// it is negative (as Rust's `{}` formatting prints it).
pub open spec fn int_text(i: int) -> Seq<char> {
    if i < 0 {
        seq!['-'] + decimal((-i) as nat)
    } else {
        decimal(i as nat)
    }
}

/// Why a stage stopped: an error that it reports to the user, or a condition
/// under which it gives up outright (an index out of range, an arithmetic
/// overflow, a lookup that must succeed).
pub enum Failure {
    Error(String),
    Panic(String),
}

/// The mathematical counterpart of [`Failure`].
pub enum FailureView {
    Error(Seq<char>),
    Panic(Seq<char>),
}

impl View for Failure {
    type V = FailureView;

    open spec fn view(&self) -> FailureView {
        match self {
            Failure::Error(s) => FailureView::Error(s@),
            Failure::Panic(s) => FailureView::Panic(s@),
        }
    }
}

/// A string holding exactly `t`.
pub fn string_of(t: &str) -> (s: String)
    ensures
        s@ == t@,
{
    String::from_str(t)
}


proof fn lemma_digit_char_injective(a: int, b: int)
    requires
        0 <= a < 10,
        0 <= b < 10,
        digit_char(a) == digit_char(b),
    ensures
        a == b,
{
}

pub proof fn lemma_decimal_len(n: nat)
    ensures
        decimal(n).len() >= 1,
        n >= 10 ==> decimal(n).len() >= 2,
    decreases n,
{
    if n >= 10 {
        lemma_decimal_len(n / 10);
    }
}

/// Different numbers have different decimal representations.
pub proof fn law_decimal_injective(n: nat, m: nat)
    requires
        decimal(n) == decimal(m),
    ensures
        n == m,
    decreases n,
{
    lemma_decimal_len(n);
    lemma_decimal_len(m);
    if n < 10 && m < 10 {
        assert(decimal(n) == seq![digit_char(n as int)]);
        assert(decimal(m) == seq![digit_char(m as int)]);
        let x = digit_char(n as int);
        let y = digit_char(m as int);
        assert(seq![x][0] == x);
        assert(seq![y][0] == y);
        lemma_digit_char_injective(n as int, m as int);
    } else if n >= 10 && m >= 10 {
        let dn = decimal(n);
        let dm = decimal(m);
        assert(dn.last() == digit_char((n % 10) as int));
        assert(dm.last() == digit_char((m % 10) as int));
        lemma_digit_char_injective((n % 10) as int, (m % 10) as int);
        assert(dn.drop_last() =~= decimal(n / 10));
        assert(dm.drop_last() =~= decimal(m / 10));
        law_decimal_injective(n / 10, m / 10);
    } else {
        assert(decimal(n).len() != decimal(m).len());
    }
}

/// Appends one character to a string (`String::push`).
#[verifier::external_body]
pub fn push_char(s: &mut String, c: char)
    ensures
        final(s)@ == old(s)@.push(c),
{
    s.push(c);
}

fn digit_of(d: u64) -> (c: char)
    requires
        d < 10,
    ensures
        c == digit_char(d as int),
{
    if d == 0 { '0' }
    else if d == 1 { '1' }
    else if d == 2 { '2' }
    else if d == 3 { '3' }
    else if d == 4 { '4' }
    else if d == 5 { '5' }
    else if d == 6 { '6' }
    else if d == 7 { '7' }
    else if d == 8 { '8' }
    else { '9' }
}

/// Appends the decimal representation of `n`.
pub fn push_decimal(s: &mut String, n: u64)
    ensures
        final(s)@ == old(s)@ + decimal(n as nat),
    decreases n,
{
    if n >= 10 {
        push_decimal(s, n / 10);
    }
    push_char(s, digit_of(n % 10));
    proof {
        if n < 10 {
            assert(decimal(n as nat) == seq![digit_char(n as int)]);
        }
    }
    assert(final(s)@ =~= old(s)@ + decimal(n as nat));
}

/// Appends a signed integer as `{}` formatting prints it.
pub fn push_int(s: &mut String, i: i32)
    ensures
        final(s)@ == old(s)@ + int_text(i as int),
{
    if i < 0 {
        push_char(s, '-');
        let m: i64 = -(i as i64);
        push_decimal(s, m as u64);
        assert(final(s)@ =~= old(s)@ + int_text(i as int));
    } else {
        push_decimal(s, i as u64);
    }
}

/// Appends a string slice.
pub fn push_str(s: &mut String, t: &str)
    ensures
        final(s)@ == old(s)@ + t@,
{
    s.append(t);
}

} // verus!
