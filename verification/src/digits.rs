use vstd::prelude::*;

verus! {

/// `String::push` puts one character behind the others.
pub assume_specification[ String::push ](s: &mut String, ch: char)
    ensures
        final(s)@ == old(s)@.push(ch),
;

/// The decimal digit for a number under ten.
pub open spec fn digit(d: int) -> char {
    (d + 48) as char
}

/// A number under a hundred in two decimal digits.
pub open spec fn two(n: int) -> Seq<char> {
    seq![digit(n / 10), digit(n % 10)]
}

/// A number in decimal digits, two of them at least.
pub open spec fn two_or_more(n: int) -> Seq<char>
    decreases n,
{
    if n < 100 {
        two(n)
    } else {
        two_or_more(n / 10).push(digit(n % 10))
    }
}

/// The decimal digit for a number under ten.
pub(crate) fn digit_char(d: u8) -> (r: char)
    requires
        d < 10,
    ensures
        r == digit(d as int),
{
    (48 + d) as char
}

/// Writes a number under a hundred behind `out`, in two digits.
pub(crate) fn push_two(out: &mut String, n: u32)
    requires
        n < 100,
    ensures
        final(out)@ == old(out)@ + two(n as int),
{
    out.push(digit_char((n / 10) as u8));
    out.push(digit_char((n % 10) as u8));
    assert(out@ =~= old(out)@ + two(n as int));
}

/// Writes a number behind `out`, in two digits at least.
pub(crate) fn push_two_or_more(out: &mut String, n: u32)
    ensures
        final(out)@ == old(out)@ + two_or_more(n as int),
    decreases n,
{
    if n < 100 {
        push_two(out, n);
    } else {
        push_two_or_more(out, n / 10);
        out.push(digit_char((n % 10) as u8));
        assert(out@ =~= old(out)@ + two_or_more(n as int));
    }
}

} // verus!
