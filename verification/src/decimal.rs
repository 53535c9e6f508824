//! Numbers as text.
use crate::hgr::{all_digits, digits_value, is_digit, parsed_index, without_sign};
use std::fmt::Write;
use vstd::prelude::*;

verus! {

/// The character of a decimal digit.
pub open spec fn digit_char(d: nat) -> char {
    ('0' as u8 + d) as char
}

/// A number in decimal notation, without leading zeros.
pub open spec fn decimal(n: nat) -> Seq<char>
    decreases n,
{
    if n < 10 {
        seq![digit_char(n)]
    } else {
        decimal(n / 10).push(digit_char(n % 10))
    }
}

/// `write!` with a number and the empty format: appends it in decimal notation.
#[verifier::external_body]
pub(crate) fn append_number(s: &mut String, n: u64)
    ensures
        final(s)@ == old(s)@ + decimal(n as nat),
{
    write!(s, "{}", n).unwrap();
}

/// The character of a digit stands for it.
proof fn lemma_digit_char(d: nat)
    requires
        d < 10,
    ensures
        is_digit(digit_char(d)),
        digit_char(d) as nat - '0' as nat == d,
{
}

/// Decimal notation consists of digits that stand for the number.
proof fn lemma_decimal(n: nat)
    ensures
        all_digits(decimal(n)),
        decimal(n).len() > 0,
        digits_value(decimal(n)) == n,
    decreases n,
{
    if n < 10 {
        lemma_digit_char(n);
        let s = decimal(n);
        assert(s.drop_last() =~= Seq::empty());
        assert(digits_value(s.drop_last()) == 0);
    } else {
        lemma_decimal(n / 10);
        lemma_digit_char(n % 10);
        let s = decimal(n);
        assert(s.drop_last() =~= decimal(n / 10));
    }
}

/// Reading a number in decimal notation gives the number back.
pub proof fn decimal_is_read_back(n: usize)
    ensures
        parsed_index(decimal(n as nat)) == Some(n),
{
    lemma_decimal(n as nat);
    let s = decimal(n as nat);
    assert(is_digit(s[0]));
    assert(without_sign(s) == s);
}

} // verus!
