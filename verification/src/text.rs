use vstd::prelude::*;

verus! {

/// Appends `t` to `s`.
///
/// Trusted: `String::push_str` appends the characters of `t` at the end of
/// `s`, as its documentation says.
#[verifier::external_body]
pub(crate) fn push_str(s: &mut String, t: &str)
    ensures
        final(s)@ == old(s)@ + t@,
{
    s.push_str(t);
}

/// Appends the character `c` to `s`.
///
/// Trusted: `String::push` appends `c` at the end of `s`, as its
/// documentation says.
#[verifier::external_body]
pub(crate) fn push_char(s: &mut String, c: char)
    ensures
        final(s)@ == old(s)@.push(c),
{
    s.push(c);
}

/// The character of a decimal digit.
pub open spec fn digit_char(d: nat) -> char {
    ((48 + d) as u32) as char
}

/// The decimal notation of a number, most significant digit first, without
/// leading zeros ("0" for zero).
pub open spec fn spec_decimal(n: nat) -> Seq<char>
    decreases n,
{
    if n < 10 {
        seq![digit_char(n)]
    } else {
        spec_decimal(n / 10) + seq![digit_char(n % 10)]
    }
}

/// Appends the decimal notation of `n` to `s`.
pub fn push_decimal(s: &mut String, n: usize)
    ensures
        final(s)@ == old(s)@ + spec_decimal(n as nat),
    decreases n,
{
    if n >= 10 {
        push_decimal(s, n / 10);
    }
    let d: u8 = (n % 10) as u8;
    let c = (48u8 + d) as char;
    assert(c == digit_char((n % 10) as nat));
    push_char(s, c);
    assert(final(s)@ =~= old(s)@ + spec_decimal(n as nat)) by {
        if n >= 10 {
            assert(spec_decimal(n as nat) == spec_decimal((n / 10) as nat) + seq![digit_char((n % 10) as nat)]);
        }
    }
}

/// The decimal notation of `n`.
pub fn decimal(n: usize) -> (r: String)
    ensures
        r@ == spec_decimal(n as nat),
{
    let mut s = String::new();
    push_decimal(&mut s, n);
    assert(s@ =~= spec_decimal(n as nat));
    s
}

} // verus!
