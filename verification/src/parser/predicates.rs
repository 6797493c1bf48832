use std::ops::{Range, RangeInclusive};
use vstd::prelude::*;
use vstd::string::*;

verus! {

/// A set of characters, given by its membership test.
pub trait Predicate {
    /// The test can be applied to every character, and answers the same each
    /// time. Left open here, for each kind of predicate to say.
    open spec fn wf(&self) -> bool {
        arbitrary()
    }

    /// Whether `ch` belongs to the set. Left open here, for each kind of
    /// predicate to say.
    open spec fn accepts(&self, ch: char) -> bool {
        arbitrary()
    }

    fn predicate(&self, ch: char) -> (r: bool)
        requires
            self.wf(),
        ensures
            r == self.accepts(ch),
    ;
}

/// `predicate` accepts every character of `chars`.
pub open spec fn all_accepted<P: Predicate>(predicate: &P, chars: Seq<char>) -> bool {
    forall|i: int| 0 <= i < chars.len() ==> predicate.accepts(#[trigger] chars[i])
}

impl<T: Fn(char) -> bool> Predicate for T {
    open spec fn wf(&self) -> bool {
        forall|ch: char|
            #![trigger call_requires(*self, (ch,))]
            call_requires(*self, (ch,)) && !(call_ensures(*self, (ch,), true) && call_ensures(
                *self,
                (ch,),
                false,
            ))
    }

    open spec fn accepts(&self, ch: char) -> bool {
        call_ensures(*self, (ch,), true)
    }

    fn predicate(&self, ch: char) -> (r: bool) {
        assert(call_requires(*self, (ch,)));
        self(ch)
    }
}

/// A function or closure that can be called on every character, and whose
/// result is what `set` says, is a predicate in order. What it accepts lies
/// in `set`.
pub proof fn lemma_fn_predicate<F: Fn(char) -> bool>(f: F, set: spec_fn(char) -> bool)
    requires
        forall|ch: char| #[trigger] call_requires(f, (ch,)),
        forall|ch: char, r: bool| #[trigger] call_ensures(f, (ch,), r) ==> r == set(ch),
    ensures
        f.wf(),
        forall|ch: char| #[trigger] f.accepts(ch) ==> set(ch),
{
}

impl Predicate for char {
    open spec fn wf(&self) -> bool {
        true
    }

    open spec fn accepts(&self, ch: char) -> bool {
        ch == *self
    }

    fn predicate(&self, ch: char) -> (r: bool) {
        ch == *self
    }
}

impl Predicate for &str {
    open spec fn wf(&self) -> bool {
        true
    }

    open spec fn accepts(&self, ch: char) -> bool {
        self@.contains(ch)
    }

    fn predicate(&self, ch: char) -> (r: bool) {
        let n = self.unicode_len();
        let mut i: usize = 0;
        while i < n
            invariant
                n == self@.len(),
                i <= n,
                forall|j: int| 0 <= j < i ==> self@[j] != ch,
            decreases n - i,
        {
            if self.get_char(i) == ch {
                return true;
            }
            i += 1;
        }
        false
    }
}

impl<const N: usize> Predicate for [char; N] {
    open spec fn wf(&self) -> bool {
        true
    }

    open spec fn accepts(&self, ch: char) -> bool {
        self@.contains(ch)
    }

    fn predicate(&self, ch: char) -> (r: bool) {
        let mut i: usize = 0;
        while i < N
            invariant
                i <= N,
                self@.len() == N,
                forall|j: int| 0 <= j < i ==> self@[j] != ch,
            decreases N - i,
        {
            if self[i] == ch {
                return true;
            }
            i += 1;
        }
        false
    }
}

impl Predicate for Range<char> {
    open spec fn wf(&self) -> bool {
        true
    }

    open spec fn accepts(&self, ch: char) -> bool {
        self.start <= ch < self.end
    }

    fn predicate(&self, ch: char) -> (r: bool) {
        self.start <= ch && ch < self.end
    }
}

impl Predicate for RangeInclusive<char> {
    open spec fn wf(&self) -> bool {
        !self@.exhausted
    }

    open spec fn accepts(&self, ch: char) -> bool {
        self@.start <= ch <= self@.end
    }

    fn predicate(&self, ch: char) -> (r: bool) {
        *self.start() <= ch && ch <= *self.end()
    }
}

/// Accepts what `P` rejects.
pub struct Not<P>(pub P);

impl<P: Predicate> Predicate for Not<P> {
    open spec fn wf(&self) -> bool {
        self.0.wf()
    }

    open spec fn accepts(&self, ch: char) -> bool {
        !self.0.accepts(ch)
    }

    fn predicate(&self, ch: char) -> (r: bool) {
        !self.0.predicate(ch)
    }
}

/// Accepts what `A` or `B` accepts.
pub struct Or<A, B>(pub A, pub B);

impl<A: Predicate, B: Predicate> Predicate for Or<A, B> {
    open spec fn wf(&self) -> bool {
        self.0.wf() && self.1.wf()
    }

    open spec fn accepts(&self, ch: char) -> bool {
        self.0.accepts(ch) || self.1.accepts(ch)
    }

    fn predicate(&self, ch: char) -> (r: bool) {
        self.0.predicate(ch) || self.1.predicate(ch)
    }
}

/// Accepts what neither `A` nor `B` accepts.
pub struct Nor<A, B>(pub A, pub B);

impl<A: Predicate, B: Predicate> Predicate for Nor<A, B> {
    open spec fn wf(&self) -> bool {
        self.0.wf() && self.1.wf()
    }

    open spec fn accepts(&self, ch: char) -> bool {
        !self.0.accepts(ch) && !self.1.accepts(ch)
    }

    fn predicate(&self, ch: char) -> (r: bool) {
        !self.0.predicate(ch) && !self.1.predicate(ch)
    }
}

/// Any character.
pub fn any(ch: char) -> (r: bool)
    ensures
        r,
{
    true
}

/// ASCII newline.
pub fn newline(ch: char) -> (r: bool)
    ensures
        r == (ch == '\n'),
{
    ch == '\n'
}

/// ASCII whitespace, U+000B VERTICAL TAB included.
pub fn whitespace(ch: char) -> (r: bool)
    ensures
        r == (ch == '\n' || ch == '\t' || ch == '\r' || ch == '\x0b' || ch == '\x0c' || ch == ' '),
{
    ch == '\n' || ch == '\t' || ch == '\r' || ch == '\x0b' || ch == '\x0c' || ch == ' '
}

/// Any ASCII character.
pub fn ascii(ch: char) -> (r: bool)
    ensures
        r == (ch <= '\x7f'),
{
    ch <= '\x7f'
}

/// ASCII alphabetic.
pub fn alphabetic(ch: char) -> (r: bool)
    ensures
        r == ('a' <= ch <= 'z' || 'A' <= ch <= 'Z'),
{
    ('a' <= ch && ch <= 'z') || ('A' <= ch && ch <= 'Z')
}

/// ASCII alphanumeric.
pub fn alphanumeric(ch: char) -> (r: bool)
    ensures
        r == ('a' <= ch <= 'z' || 'A' <= ch <= 'Z' || '0' <= ch <= '9'),
{
    ('a' <= ch && ch <= 'z') || ('A' <= ch && ch <= 'Z') || ('0' <= ch && ch <= '9')
}

/// ASCII decimal digit.
pub fn digit(ch: char) -> (r: bool)
    ensures
        r == ('0' <= ch <= '9'),
{
    '0' <= ch && ch <= '9'
}

/// ASCII hexadecimal digit.
pub fn hexdigit(ch: char) -> (r: bool)
    ensures
        r == ('0' <= ch <= '9' || 'a' <= ch <= 'f' || 'A' <= ch <= 'F'),
{
    ('0' <= ch && ch <= '9') || ('a' <= ch && ch <= 'f') || ('A' <= ch && ch <= 'F')
}

/// ASCII octal digit.
pub fn octdigit(ch: char) -> (r: bool)
    ensures
        r == ('0' <= ch <= '7'),
{
    '0' <= ch && ch <= '7'
}

/// ASCII binary digit.
pub fn bindigit(ch: char) -> (r: bool)
    ensures
        r == (ch == '0' || ch == '1'),
{
    ch == '0' || ch == '1'
}

/// Whether Unicode gives `ch` the property XID_Start.
pub uninterp spec fn is_xid_start(ch: char) -> bool;

/// Whether Unicode gives `ch` the property XID_Continue.
pub uninterp spec fn is_xid_continue(ch: char) -> bool;

/// Unicode XID_START character, as `unicode_ident::is_xid_start` reads it
/// from its tables: the answer depends on the character alone.
#[verifier::external_body]
pub fn xid_start(ch: char) -> (r: bool)
    ensures
        r == is_xid_start(ch),
{
    unicode_ident::is_xid_start(ch)
}

/// Unicode XID_CONTINUE character, as `unicode_ident::is_xid_continue` reads
/// it from its tables: the answer depends on the character alone.
#[verifier::external_body]
pub fn xid_continue(ch: char) -> (r: bool)
    ensures
        r == is_xid_continue(ch),
{
    unicode_ident::is_xid_continue(ch)
}

/// The classes of characters that the library knows by name.
#[derive(Clone, Copy, Debug, PartialEq, Eq)]
pub enum Class {
    Any,
    Newline,
    Whitespace,
    Ascii,
    Alphabetic,
    Alphanumeric,
    Digit,
    Hexdigit,
    Octdigit,
    Bindigit,
    XidStart,
    XidContinue,
}

/// Whether `ch` belongs to `class`.
pub open spec fn in_class(class: Class, ch: char) -> bool {
    match class {
        Class::Any => true,
        Class::Newline => ch == '\n',
        Class::Whitespace => ch == '\n' || ch == '\t' || ch == '\r' || ch == '\x0b' || ch == '\x0c'
            || ch == ' ',
        Class::Ascii => ch <= '\x7f',
        Class::Alphabetic => 'a' <= ch <= 'z' || 'A' <= ch <= 'Z',
        Class::Alphanumeric => 'a' <= ch <= 'z' || 'A' <= ch <= 'Z' || '0' <= ch <= '9',
        Class::Digit => '0' <= ch <= '9',
        Class::Hexdigit => '0' <= ch <= '9' || 'a' <= ch <= 'f' || 'A' <= ch <= 'F',
        Class::Octdigit => '0' <= ch <= '7',
        Class::Bindigit => ch == '0' || ch == '1',
        Class::XidStart => is_xid_start(ch),
        Class::XidContinue => is_xid_continue(ch),
    }
}

impl Predicate for Class {
    open spec fn wf(&self) -> bool {
        true
    }

    open spec fn accepts(&self, ch: char) -> bool {
        in_class(*self, ch)
    }

    fn predicate(&self, ch: char) -> (r: bool) {
        match self {
            Class::Any => any(ch),
            Class::Newline => newline(ch),
            Class::Whitespace => whitespace(ch),
            Class::Ascii => ascii(ch),
            Class::Alphabetic => alphabetic(ch),
            Class::Alphanumeric => alphanumeric(ch),
            Class::Digit => digit(ch),
            Class::Hexdigit => hexdigit(ch),
            Class::Octdigit => octdigit(ch),
            Class::Bindigit => bindigit(ch),
            Class::XidStart => xid_start(ch),
            Class::XidContinue => xid_continue(ch),
        }
    }
}

} // verus!
