//! The unguessable URL segment protecting the full-verdict run file:
//! a short random string of ASCII letters and digits.

use vstd::prelude::*;

verus! {

/// Characters allowed in a secret path segment.
pub open spec fn is_secret_char(c: char) -> bool {
    ('A' <= c && c <= 'Z') || ('a' <= c && c <= 'z') || ('0' <= c && c <= '9')
}

/// Relies on `rand::random_range`: a uniformly random number drawn
/// from the given range by the thread-local generator. Nothing can be
/// promised about which number comes back, only that it lies below the
/// bound.
#[verifier::external_body]
fn random_below(n: usize) -> (r: usize)
    requires
        n > 0,
    ensures
        r < n,
{
    rand::random_range(0..n)
}

/// One random character of the secret alphabet.
fn random_secret_char() -> (c: char)
    ensures
        is_secret_char(c),
{
    let idx = random_below(62);
    if idx < 26 {
        (('A' as u8) + (idx as u8)) as char
    } else if idx < 52 {
        (('a' as u8) + ((idx - 26) as u8)) as char
    } else {
        (('0' as u8) + ((idx - 52) as u8)) as char
    }
}

/// Relies on `String::push`: appending one character to a string
/// appends it to the character sequence.
#[verifier::external_body]
fn push_char(s: &mut String, c: char)
    ensures
        final(s)@ == old(s)@.push(c),
{
    s.push(c)
}

/// A random path segment of six letters and digits, fit to serve as
/// the unguessable suffix of the secret runs endpoint.
pub fn random_path_part() -> (s: String)
    ensures
        s@.len() == 6,
        forall|i: int| 0 <= i < s@.len() ==> is_secret_char(#[trigger] s@[i]),
{
    let mut out = String::new();
    let mut i: usize = 0;
    while i < 6
        invariant
            i <= 6,
            out@.len() == i,
            forall|k: int| 0 <= k < i ==> is_secret_char(#[trigger] out@[k]),
        decreases 6 - i,
    {
        let c = random_secret_char();
        push_char(&mut out, c);
        i = i + 1;
    }
    out
}

} // verus!
