use vstd::prelude::*;

use crate::render::{digit_char, int_text, nat_text};

verus! {

/// Relies on `String::push`: appends one character at the end.
#[verifier::external_body]
pub(crate) fn push_char(s: &mut String, c: char)
    ensures
        final(s)@ == old(s)@.push(c),
{
    s.push(c);
}

/// Appends the decimal digits of `m`.
fn push_digits(s: &mut String, m: u64)
    ensures
        final(s)@ == old(s)@ + nat_text(m as nat),
    decreases m,
{
    if m >= 10 {
        push_digits(s, m / 10);
    }
    let c = ((m % 10) as u8 + 48u8) as char;
    assert(c == digit_char(m as nat));
    push_char(s, c);
    proof {
        if m < 10 {
            assert(nat_text(m as nat) == seq![digit_char(m as nat)]);
        } else {
            assert(digit_char(m as nat) == digit_char((m % 10) as nat));
        }
    }
    assert(final(s)@ =~= old(s)@ + nat_text(m as nat));
}

/// Appends the decimal text of `n`.
pub(crate) fn push_int(s: &mut String, n: i64)
    ensures
        final(s)@ == old(s)@ + int_text(n as int),
{
    if n < 0 {
        push_char(s, '-');
        let m = (-(n as i128)) as u64;
        push_digits(s, m);
        assert(final(s)@ =~= old(s)@ + int_text(n as int));
    } else {
        push_digits(s, n as u64);
    }
}

/// Appends the characters of `t`.
pub(crate) fn push_str(s: &mut String, t: &str)
    ensures
        final(s)@ == old(s)@ + t@,
{
    s.append(t);
}

} // verus!
