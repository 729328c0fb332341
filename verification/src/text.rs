//! Building text: characters appended to a string, and numbers in decimal.

use vstd::prelude::*;

verus! {

/// Appends `c` to `s`.
///
/// Calls `String::push` of the standard library, which appends the given
/// character to the end of the string: afterwards the string holds the
/// characters it held before, followed by `c`.
#[verifier::external_body]
pub(crate) fn push_char(s: &mut String, c: char)
    ensures
        final(s)@ == old(s)@.push(c),
{
    s.push(c)
}

/// The character for the decimal digit `d`.
pub open spec fn digit(d: int) -> char {
    (d + 48) as u8 as char
}

/// The decimal digits of `n`, most significant first.
pub open spec fn digits(n: nat) -> Seq<char>
    decreases n,
{
    if n < 10 {
        seq![digit(n as int)]
    } else {
        digits(n / 10).push(digit((n % 10) as int))
    }
}

/// The number `n` in decimal, with a `-` before it if it is negative.
pub open spec fn decimal(n: int) -> Seq<char> {
    if n < 0 {
        seq!['-'] + digits((-n) as nat)
    } else {
        digits(n as nat)
    }
}

/// Appends the decimal digits of `n` to `s`.
pub(crate) fn push_digits(s: &mut String, n: u64)
    ensures
        final(s)@ == old(s)@ + digits(n as nat),
    decreases n,
{
    if n >= 10 {
        push_digits(s, n / 10);
    }
    let d: u8 = (n % 10) as u8;
    push_char(s, (d + 48) as char);
    proof {
        if n >= 10 {
            assert(old(s)@ + digits(n as nat) =~= (old(s)@ + digits((n / 10) as nat)).push(
                digit((n % 10) as int),
            ));
        } else {
            assert(old(s)@ + digits(n as nat) =~= old(s)@.push(digit(n as int)));
        }
    }
}

/// Appends `n` in decimal to `s`.
pub(crate) fn push_decimal(s: &mut String, n: i64)
    ensures
        final(s)@ == old(s)@ + decimal(n as int),
{
    if n < 0 {
        push_char(s, '-');
        let magnitude: u64 = if n == i64::MIN {
            0x8000_0000_0000_0000u64
        } else {
            (-n) as u64
        };
        push_digits(s, magnitude);
        assert(old(s)@ + decimal(n as int) =~= old(s)@.push('-') + digits((-n) as nat));
    } else {
        push_digits(s, n as u64);
    }
}

} // verus!
