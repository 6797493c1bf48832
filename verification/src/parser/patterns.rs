use super::utf8::{lemma_leading, lemma_prefix_boundary, utf8_first_byte, utf8_width};
use vstd::prelude::*;
use vstd::string::StringSliceAdditionalSpecFns;
use vstd::utf8::*;

verus! {

/// `cand` is not empty and starts with the byte `begin`.
pub open spec fn begins_with(cand: Seq<u8>, begin: u8) -> bool {
    cand.len() > 0 && cand[0] == begin
}

/// `found` is the length of the longest candidate that starts with `begin`,
/// and is absent when no candidate starts with it.
pub open spec fn indicated(cands: Seq<Seq<u8>>, begin: u8, found: Option<usize>) -> bool {
    match found {
        None => forall|i: int| 0 <= i < cands.len() ==> !begins_with(#[trigger] cands[i], begin),
        Some(n) => {
            &&& exists|i: int|
                0 <= i < cands.len() && begins_with(#[trigger] cands[i], begin) && cands[i].len()
                    == n
            &&& forall|i: int|
                0 <= i < cands.len() && begins_with(#[trigger] cands[i], begin) ==> cands[i].len()
                    <= n
        },
    }
}

/// Candidate `i` is the first one that `text` starts with.
pub open spec fn first_match(cands: Seq<Seq<u8>>, text: Seq<u8>, i: int) -> bool {
    &&& 0 <= i < cands.len()
    &&& cands[i].is_prefix_of(text)
    &&& forall|j: int| 0 <= j < i ==> !(#[trigger] cands[j]).is_prefix_of(text)
}

/// `text` starts with none of the candidates.
pub open spec fn no_match(cands: Seq<Seq<u8>>, text: Seq<u8>) -> bool {
    forall|j: int| 0 <= j < cands.len() ==> !(#[trigger] cands[j]).is_prefix_of(text)
}

/// A candidate fits at the place `at` of the text, and one starts with the
/// byte that stands there.
pub open spec fn found_at(cands: Seq<Seq<u8>>, text: Seq<u8>, at: int) -> bool {
    &&& 0 <= at < text.len()
    &&& exists|i: int| 0 <= i < cands.len() && begins_with(#[trigger] cands[i], text[at])
    &&& exists|j: int|
        0 <= j < cands.len() && (#[trigger] cands[j]).is_prefix_of(
            text.subrange(at, text.len() as int),
        )
}

/// Enough of the text is known to tell what fits at the place `at`: the text
/// has ended, or it holds as many bytes from `at` on as the longest candidate
/// that starts with the byte at `at`.
pub open spec fn decided_at(cands: Seq<Seq<u8>>, text: Seq<u8>, at: int, ended: bool) -> bool {
    ended || forall|i: int|
        0 <= i < cands.len() && begins_with(#[trigger] cands[i], text[at]) ==> at + cands[i].len()
            <= text.len()
}

/// Nothing fits at the place `at` of the text, and nothing will.
pub open spec fn missed_at(cands: Seq<Seq<u8>>, text: Seq<u8>, at: int, ended: bool) -> bool {
    !found_at(cands, text, at) && decided_at(cands, text, at, ended)
}

/// What did not fit at a place does not fit there when more text has come.
pub proof fn lemma_miss_stays(
    cands: Seq<Seq<u8>>,
    text: Seq<u8>,
    longer: Seq<u8>,
    at: int,
    ended: bool,
    later: bool,
)
    requires
        text.is_prefix_of(longer),
        0 <= at < text.len(),
        missed_at(cands, text, at, ended),
        ended ==> later && longer == text,
    ensures
        missed_at(cands, longer, at, later),
{
    let tail = text.subrange(at, text.len() as int);
    let long_tail = longer.subrange(at, longer.len() as int);
    assert(longer[at] == text[at]);
    if !ended {
        if found_at(cands, longer, at) {
            let j = choose|j: int|
                0 <= j < cands.len() && (#[trigger] cands[j]).is_prefix_of(long_tail);
            if cands[j].len() > 0 {
                assert(cands[j][0] == long_tail[0]);
                assert(begins_with(cands[j], text[at]));
            }
            assert(cands[j] =~= tail.subrange(0, cands[j].len() as int));
            assert(cands[j].is_prefix_of(tail));
            assert(false);
        }
    }
}

/// What did not fit before the place `upto` does not fit there when more
/// text has come.
pub proof fn lemma_misses_stay(
    cands: Seq<Seq<u8>>,
    text: Seq<u8>,
    longer: Seq<u8>,
    upto: int,
    ended: bool,
    later: bool,
)
    requires
        text.is_prefix_of(longer),
        0 <= upto <= text.len(),
        forall|p: int| 0 <= p < upto ==> #[trigger] missed_at(cands, text, p, ended),
        ended ==> later && longer == text,
    ensures
        forall|p: int| 0 <= p < upto ==> #[trigger] missed_at(cands, longer, p, later),
{
    assert forall|p: int| 0 <= p < upto implies #[trigger] missed_at(cands, longer, p, later) by {
        assert(missed_at(cands, text, p, ended));
        lemma_miss_stays(cands, text, longer, p, ended, later);
    }
}

/// The head of a text decides what the text starts with, where it is as long
/// as the longest candidate that starts as the text does, or is the whole
/// text.
pub proof fn lemma_head_decides(cands: Seq<Seq<u8>>, text: Seq<u8>, take: int, longest: usize)
    requires
        0 < text.len(),
        0 <= take <= text.len(),
        indicated(cands, text[0], Some(longest)),
        take >= longest || take == text.len(),
    ensures
        forall|j: int|
            0 <= j < cands.len() ==> ((#[trigger] cands[j]).is_prefix_of(text.subrange(0, take))
                <==> cands[j].is_prefix_of(text)),
        forall|i: int| first_match(cands, text.subrange(0, take), i) <==> first_match(cands, text, i),
        no_match(cands, text.subrange(0, take)) <==> no_match(cands, text),
{
    let head = text.subrange(0, take);
    assert forall|j: int| 0 <= j < cands.len() implies ((#[trigger] cands[j]).is_prefix_of(head)
        <==> cands[j].is_prefix_of(text)) by {
        let c = cands[j];
        if c.is_prefix_of(head) {
            assert(c =~= text.subrange(0, c.len() as int));
        }
        if c.is_prefix_of(text) {
            if c.len() > 0 {
                assert(c[0] == text[0]);
                assert(begins_with(c, text[0]));
                assert(c.len() <= take);
            }
            assert(c =~= head.subrange(0, c.len() as int));
        }
    }
}

/// Nothing fits at the places whose bytes start no candidate.
pub proof fn lemma_misses_more(
    cands: Seq<Seq<u8>>,
    text: Seq<u8>,
    from: int,
    upto: int,
    ended: bool,
)
    requires
        0 <= from <= upto <= text.len(),
        forall|p: int| 0 <= p < from ==> #[trigger] missed_at(cands, text, p, ended),
        forall|p: int| from <= p < upto ==> indicated(cands, #[trigger] text[p], None),
    ensures
        forall|p: int| 0 <= p < upto ==> #[trigger] missed_at(cands, text, p, ended),
{
    assert forall|p: int| 0 <= p < upto implies #[trigger] missed_at(cands, text, p, ended) by {
        if p >= from {
            assert(indicated(cands, text[p], None));
        }
    }
}

/// A fixed list of literal texts, of which the first that fits is taken.
pub trait Pattern {
    /// What tells the candidates apart.
    type Discriminant;

    /// The candidates as UTF-8, in the order in which they are tried. Left
    /// open here, for each kind of pattern to say.
    open spec fn candidates(&self) -> Seq<Seq<u8>> {
        arbitrary()
    }

    /// What is reported when candidate `i` fits. Left open here, for each
    /// kind of pattern to say.
    open spec fn discriminant(&self, i: int) -> Self::Discriminant {
        arbitrary()
    }

    /// Returns the length of the longest candidate that starts with `begin`.
    /// No candidate starts in the middle of a character.
    fn indicate(&self, begin: u8) -> (r: Option<usize>)
        ensures
            indicated(self.candidates(), begin, r),
            r is Some ==> !is_continuation_byte(begin),
    ;

    /// Returns the length of the first candidate that `content` starts with,
    /// and its discriminant. No candidate ends in the middle of a character.
    fn matches(&self, content: &str) -> (r: Option<(usize, Self::Discriminant)>)
        ensures
            match r {
                None => no_match(self.candidates(), content.spec_bytes()),
                Some((len, found)) => exists|i: int|
                    first_match(self.candidates(), content.spec_bytes(), i) && len
                        == #[trigger] self.candidates()[i].len() && found == self.discriminant(i),
            },
            r matches Some((len, _)) ==> is_char_boundary(content.spec_bytes(), len as int),
    ;
}

/// A character does not start in the middle of one.
pub proof fn lemma_encode_scalar_leading(ch: char)
    ensures
        encode_scalar(ch as u32).len() > 0,
        !is_continuation_byte(encode_scalar(ch as u32)[0]),
{
    lemma_encode_scalar_valid(ch);
    char_is_scalar(ch);
    lemma_leading(encode_scalar(ch as u32));
}

/// A text does not start in the middle of a character.
pub proof fn lemma_text_leading(text: Seq<char>)
    requires
        encode_utf8(text).len() > 0,
    ensures
        !is_continuation_byte(encode_utf8(text)[0]),
{
    encode_utf8_valid_utf8(text);
    lemma_leading(encode_utf8(text));
}

/// A text ends between two characters of every text that starts with it.
pub proof fn lemma_text_prefix(lit: Seq<char>, content: Seq<char>)
    requires
        encode_utf8(lit).is_prefix_of(encode_utf8(content)),
    ensures
        is_char_boundary(encode_utf8(content), encode_utf8(lit).len() as int),
{
    encode_utf8_valid_utf8(lit);
    encode_utf8_valid_utf8(content);
    lemma_prefix_boundary(encode_utf8(lit), encode_utf8(content));
}

/// A character ends between two characters of every text that starts with
/// it.
pub proof fn lemma_char_prefix(ch: char, content: Seq<char>)
    requires
        encode_scalar(ch as u32).is_prefix_of(encode_utf8(content)),
    ensures
        is_char_boundary(encode_utf8(content), encode_scalar(ch as u32).len() as int),
{
    lemma_encode_scalar_valid(ch);
    encode_utf8_valid_utf8(content);
    lemma_prefix_boundary(encode_scalar(ch as u32), encode_utf8(content));
}

/// One character alone is well-formed text.
pub proof fn lemma_encode_scalar_valid(ch: char)
    ensures
        valid_utf8(encode_scalar(ch as u32)),
        encode_utf8(seq![ch]) == encode_scalar(ch as u32),
{
    let one = seq![ch];
    assert(one.drop_first() =~= Seq::<char>::empty());
    reveal_with_fuel(encode_utf8, 2);
    assert(encode_utf8(one) =~= encode_scalar(ch as u32));
    encode_utf8_valid_utf8(one);
}

/// Whether `text` starts with `lit`.
pub fn starts_with(text: &[u8], lit: &[u8]) -> (r: bool)
    ensures
        r == lit@.is_prefix_of(text@),
{
    if lit.len() > text.len() {
        return false;
    }
    let mut i: usize = 0;
    while i < lit.len()
        invariant
            i <= lit@.len() <= text@.len(),
            forall|j: int| 0 <= j < i ==> lit@[j] == text@[j],
        decreases lit@.len() - i,
    {
        if lit[i] != text[i] {
            assert(lit@[i as int] != text@.subrange(0, lit@.len() as int)[i as int]);
            return false;
        }
        i += 1;
    }
    assert(lit@ =~= text@.subrange(0, lit@.len() as int));
    true
}

/// Looks, from the place `from` of the text on, for a byte with which a
/// candidate of `pattern` starts. Returns the place, and the length of the
/// longest candidate that starts so; where there is no such byte, the length
/// of the text and nothing.
pub(crate) fn seek<P: Pattern>(pattern: &P, text: &[u8], from: usize) -> (r: (usize, Option<usize>))
    requires
        from <= text@.len(),
    ensures
        from <= r.0 <= text@.len(),
        forall|p: int|
            from <= p < r.0 ==> indicated(pattern.candidates(), #[trigger] text@[p], None),
        match r.1 {
            Some(n) => r.0 < text@.len() && indicated(
                pattern.candidates(),
                text@[r.0 as int],
                Some(n),
            ) && !is_continuation_byte(text@[r.0 as int]),
            None => r.0 == text@.len(),
        },
{
    let mut at = from;
    while at < text.len()
        invariant
            from <= at <= text@.len(),
            forall|p: int|
                from <= p < at ==> indicated(pattern.candidates(), #[trigger] text@[p], None),
        decreases text@.len() - at,
    {
        match pattern.indicate(text[at]) {
            Some(n) => {
                return (at, Some(n));
            },
            None => {
                at = at + 1;
            },
        }
    }
    (at, None)
}

/// The bytes of `ch` in UTF-8.
pub fn encode_char(ch: char) -> (r: Vec<u8>)
    ensures
        r@ == encode_scalar(ch as u32),
{
    let code = ch as u32;
    let width = utf8_width(ch);
    let mut out: Vec<u8> = Vec::new();
    out.push(utf8_first_byte(ch));
    assert((code >> 12) & 0x3F < 0x40) by (bit_vector);
    assert((code >> 6) & 0x3F < 0x40) by (bit_vector);
    assert(code & 0x3F < 0x40) by (bit_vector);
    if width >= 4 {
        out.push(0x80 | ((code >> 12) & 0x3F) as u8);
    }
    if width >= 3 {
        out.push(0x80 | ((code >> 6) & 0x3F) as u8);
    }
    if width >= 2 {
        out.push(0x80 | (code & 0x3F) as u8);
    }
    proof {
        char_is_scalar(ch);
        assert(out@ =~= encode_scalar(code));
    }
    out
}

impl Pattern for char {
    type Discriminant = Self;

    open spec fn candidates(&self) -> Seq<Seq<u8>> {
        seq![encode_scalar(*self as u32)]
    }

    open spec fn discriminant(&self, i: int) -> char {
        *self
    }

    fn indicate(&self, begin: u8) -> (r: Option<usize>) {
        let width = utf8_width(*self);
        if utf8_first_byte(*self) == begin {
            proof {
                lemma_encode_scalar_leading(*self);
            }
            assert(begins_with(self.candidates()[0], begin));
            Some(width)
        } else {
            None
        }
    }

    fn matches(&self, content: &str) -> (r: Option<(usize, char)>) {
        let lit = encode_char(*self);
        if starts_with(content.as_bytes(), lit.as_slice()) {
            proof {
                lemma_char_prefix(*self, content@);
            }
            assert(first_match(self.candidates(), content.spec_bytes(), 0));
            Some((lit.len(), *self))
        } else {
            None
        }
    }
}

impl Pattern for &str {
    type Discriminant = Self;

    open spec fn candidates(&self) -> Seq<Seq<u8>> {
        seq![self.spec_bytes()]
    }

    open spec fn discriminant(&self, i: int) -> Self {
        *self
    }

    fn indicate(&self, begin: u8) -> (r: Option<usize>) {
        let lit = self.as_bytes();
        if lit.len() > 0 && lit[0] == begin {
            proof {
                lemma_text_leading(self@);
            }
            assert(begins_with(self.candidates()[0], begin));
            Some(lit.len())
        } else {
            None
        }
    }

    fn matches(&self, content: &str) -> (r: Option<(usize, Self)>) {
        let lit = self.as_bytes();
        if starts_with(content.as_bytes(), lit) {
            proof {
                lemma_text_prefix(self@, content@);
            }
            assert(first_match(self.candidates(), content.spec_bytes(), 0));
            Some((lit.len(), *self))
        } else {
            None
        }
    }
}

impl<const N: usize> Pattern for [char; N] {
    type Discriminant = char;

    open spec fn candidates(&self) -> Seq<Seq<u8>> {
        Seq::new(N as nat, |i: int| encode_scalar(self@[i] as u32))
    }

    open spec fn discriminant(&self, i: int) -> char {
        self@[i]
    }

    fn indicate(&self, begin: u8) -> (r: Option<usize>) {
        let mut found: Option<usize> = None;
        let ghost mut at: int = 0;
        let mut k: usize = 0;
        while k < N
            invariant
                k <= N,
                self@.len() == N,
                found matches Some(n) ==> 0 <= at < k && begins_with(self.candidates()[at], begin)
                    && self.candidates()[at].len() == n,
                found is Some ==> !is_continuation_byte(begin),
                forall|i: int|
                    0 <= i < k && begins_with(#[trigger] self.candidates()[i], begin) ==> found
                        is Some && self.candidates()[i].len() <= found->0,
            decreases N - k,
        {
            let width = utf8_width(self[k]);
            if utf8_first_byte(self[k]) == begin {
                proof {
                    lemma_encode_scalar_leading(self[k as int]);
                }
                let longer = match found {
                    Some(n) => width > n,
                    None => true,
                };
                if longer {
                    found = Some(width);
                    proof {
                        at = k as int;
                    }
                }
            }
            k += 1;
        }
        found
    }

    fn matches(&self, content: &str) -> (r: Option<(usize, char)>) {
        let text = content.as_bytes();
        let mut k: usize = 0;
        while k < N
            invariant
                k <= N,
                self@.len() == N,
                text@ == content.spec_bytes(),
                forall|j: int| 0 <= j < k ==> !(#[trigger] self.candidates()[j]).is_prefix_of(text@),
            decreases N - k,
        {
            let lit = encode_char(self[k]);
            if starts_with(text, lit.as_slice()) {
                proof {
                    lemma_char_prefix(self[k as int], content@);
                }
                assert(first_match(self.candidates(), text@, k as int));
                return Some((lit.len(), self[k]));
            }
            k += 1;
        }
        None
    }
}

impl<'a, const N: usize> Pattern for [&'a str; N] {
    type Discriminant = &'a str;

    open spec fn candidates(&self) -> Seq<Seq<u8>> {
        Seq::new(N as nat, |i: int| self@[i].spec_bytes())
    }

    open spec fn discriminant(&self, i: int) -> &'a str {
        self@[i]
    }

    fn indicate(&self, begin: u8) -> (r: Option<usize>) {
        let mut found: Option<usize> = None;
        let ghost mut at: int = 0;
        let mut k: usize = 0;
        while k < N
            invariant
                k <= N,
                self@.len() == N,
                found matches Some(n) ==> 0 <= at < k && begins_with(self.candidates()[at], begin)
                    && self.candidates()[at].len() == n,
                found is Some ==> !is_continuation_byte(begin),
                forall|i: int|
                    0 <= i < k && begins_with(#[trigger] self.candidates()[i], begin) ==> found
                        is Some && self.candidates()[i].len() <= found->0,
            decreases N - k,
        {
            let lit = self[k].as_bytes();
            if lit.len() > 0 && lit[0] == begin {
                proof {
                    lemma_text_leading(self[k as int]@);
                }
                let longer = match found {
                    Some(n) => lit.len() > n,
                    None => true,
                };
                if longer {
                    found = Some(lit.len());
                    proof {
                        at = k as int;
                    }
                }
            }
            k += 1;
        }
        found
    }

    fn matches(&self, content: &str) -> (r: Option<(usize, &'a str)>) {
        let text = content.as_bytes();
        let mut k: usize = 0;
        while k < N
            invariant
                k <= N,
                self@.len() == N,
                text@ == content.spec_bytes(),
                forall|j: int| 0 <= j < k ==> !(#[trigger] self.candidates()[j]).is_prefix_of(text@),
            decreases N - k,
        {
            let lit = self[k].as_bytes();
            if starts_with(text, lit) {
                proof {
                    lemma_text_prefix(self[k as int]@, content@);
                }
                assert(first_match(self.candidates(), text@, k as int));
                return Some((lit.len(), self[k]));
            }
            k += 1;
        }
        None
    }
}

} // verus!
