use super::bounds::{count_allowed, count_extends, URangeBounds};
use super::patterns::{
    decided_at, first_match, found_at, indicated, lemma_head_decides, lemma_misses_more,
    lemma_misses_stay, missed_at, seek, Pattern,
};
use super::predicates::{all_accepted, Predicate};
use super::source::{ByteSource, NoSource};
use super::utf8::{
    decode_first, fault_of, first_char, first_width, from_utf8, head_of, is_boundary,
    lemma_between, lemma_boundary_extend, lemma_boundary_grow, lemma_boundary_shift,
    lemma_boundary_within, lemma_decode_push, lemma_fault_not_valid, lemma_first_scalar,
    lemma_cut_not_text, lemma_prefix_boundary, lemma_truncated_not_valid,
    unfinished, utf8_width, width_of, Utf8Fault,
};
use vstd::prelude::*;
use vstd::string::StringSliceAdditionalSpecFns;
use vstd::utf8::*;

verus! {

/// What ends a read before it has brought what was asked for.
#[derive(Debug, PartialEq, Eq)]
pub enum ReadError<E> {
    /// The source failed; its error is handed on as it came.
    Io(E),
    /// The stream holds bytes that no text can hold: `len` of them, from the
    /// absolute offset `offset` on.
    InvalidData { offset: usize, len: usize },
    /// The stream ended inside a character.
    UnexpectedEof,
    /// The stream has outgrown the reader: its bytes cannot be counted in
    /// `usize`, or the buffer cannot be made to hold a text that has to be
    /// seen in one piece.
    Overflow,
}

enum Source<'src, R: ByteSource> {
    Borrowed(&'src str),
    Reader {
        rdr: R,
        buf: Vec<u8>,
        buf_cap: usize,
        tot_read: usize,
        off_valid: usize,
        taken: Ghost<Seq<u8>>,
    },
}

/// Seven eighths of a capacity: a buffer that holds more than that grows
/// before it is filled further.
pub open spec fn mark_of(capacity: nat) -> nat {
    capacity * 7 / 8
}

/// `to` is `from`, doubled some number of times.
pub open spec fn doubled(from: nat, to: nat) -> bool
    decreases to,
{
    to == from || (to > from && to % 2 == 0 && doubled(from, to / 2))
}

/// How far a search has come: to a candidate that fits, to a place from
/// which it goes on, or to the end of the text.
enum Sought<D> {
    Found { at: usize, len: usize, which: D },
    On(usize),
    Ended(usize),
}

/// A reader that turns the bytes of a source into text, piece by piece, and
/// hands the text out by character, by predicate or by pattern.
pub struct Utf8Reader<'src, R: ByteSource> {
    src: Source<'src, R>,
    off_consumed: usize,
    tot_consumed: usize,
    peeked: Option<u8>,
    eof: bool,
    fault: Option<(usize, usize)>,
}

/// What a reader stands for, and what holds of it.
impl<'src, R: ByteSource> Utf8Reader<'src, R> {
    /// How many bytes the buffer holds at first, and at most while it is
    /// filled by `pull`.
    pub const INIT_CAP: usize = 32 * 1024;

    /// How close to full the buffer has to be for `pull` to make room in it.
    pub const THRES_ARRANGE: usize = 8 * 1024;

    /// Every byte that the source has handed over so far; for text in memory,
    /// the whole text.
    pub closed spec fn stream(&self) -> Seq<u8> {
        match self.src {
            Source::Borrowed(s) => s.spec_bytes(),
            Source::Reader { taken, .. } => taken@,
        }
    }

    /// How much of the stream, from its start, is known to be text.
    pub closed spec fn validated(&self) -> nat {
        match self.src {
            Source::Borrowed(s) => s.spec_bytes().len(),
            Source::Reader { off_valid, .. } => (self.tot_consumed + off_valid) as nat,
        }
    }

    /// How much of the stream has been consumed.
    pub closed spec fn position(&self) -> nat {
        (self.tot_consumed + self.off_consumed) as nat
    }

    /// How much of the stream has left the buffer.
    pub closed spec fn discarded(&self) -> nat {
        self.tot_consumed as nat
    }

    /// Whether the source has reported its end.
    pub closed spec fn at_eof(&self) -> bool {
        self.eof
    }

    /// Where the stream was found to hold bytes that are no text, and how
    /// many: the offset and the length that the error has named.
    pub closed spec fn fault(&self) -> Option<(usize, usize)> {
        self.fault
    }

    /// Whether the reader is over text in memory.
    pub closed spec fn borrowed(&self) -> bool {
        self.src is Borrowed
    }

    /// The bytes that the source has yet to hand over.
    pub closed spec fn ahead(&self) -> Seq<u8> {
        match self.src {
            Source::Borrowed(_) => Seq::empty(),
            Source::Reader { rdr, .. } => rdr.remaining(),
        }
    }

    /// The error with which the next read of the source fails; nothing where
    /// it delivers.
    pub closed spec fn source_failing(&self) -> Option<R::Error> {
        match self.src {
            Source::Borrowed(_) => None,
            Source::Reader { rdr, .. } => rdr.failing(),
        }
    }

    /// No read of the source fails, now or later.
    pub closed spec fn source_reliable(&self) -> bool {
        match self.src {
            Source::Borrowed(_) => true,
            Source::Reader { rdr, .. } => rdr.reliable(),
        }
    }

    /// The stream from its first byte to its last: what the source has
    /// handed over and what it has yet to hand over.
    pub open spec fn whole(&self) -> Seq<u8> {
        self.stream() + self.ahead()
    }

    /// How many bytes the source has yet to hand over.
    pub open spec fn fuel(&self) -> nat {
        self.ahead().len()
    }

    /// The text that has been confirmed so far, consumed or not.
    pub open spec fn seen(&self) -> Seq<u8> {
        self.stream().subrange(0, self.validated() as int)
    }

    /// The text that is confirmed and not yet consumed.
    pub open spec fn text(&self) -> Seq<u8> {
        self.stream().subrange(self.position() as int, self.validated() as int)
    }

    /// The bytes that have arrived and are not yet confirmed.
    pub open spec fn pending(&self) -> Seq<u8> {
        self.stream().subrange(self.validated() as int, self.stream().len() as int)
    }

    /// What has been consumed so far.
    pub open spec fn consumed_text(&self) -> Seq<u8> {
        self.stream().subrange(0, self.position() as int)
    }

    /// How many bytes of the stream the buffer holds.
    pub open spec fn buffered(&self) -> nat {
        (self.stream().len() - self.discarded()) as nat
    }

    /// Nothing is left to consume and the source has ended.
    pub open spec fn is_exhausted(&self) -> bool {
        self.at_eof() && self.position() == self.validated()
    }

    /// The buffer holds the end of the stream, and the offsets lie in it.
    pub closed spec fn inv(&self) -> bool {
        match self.src {
            Source::Borrowed(s) => self.tot_consumed == 0 && self.eof,
            Source::Reader { rdr, buf, buf_cap, tot_read, off_valid, taken } => {
                &&& Self::INIT_CAP <= buf_cap
                &&& buf@.len() <= buf_cap
                &&& self.off_consumed <= off_valid <= buf@.len()
                &&& tot_read == self.tot_consumed + buf@.len()
                &&& taken@.len() == tot_read
                &&& buf@ == taken@.subrange(self.tot_consumed as int, tot_read as int)
            },
        }
    }

    /// The offsets lie in the stream one behind the other, what the reader
    /// calls text is text, and the place up to which it has consumed lies
    /// between two characters.
    pub open spec fn sound(&self) -> bool {
        &&& self.inv()
        &&& self.discarded() <= self.position() <= self.validated() <= self.stream().len()
            <= usize::MAX
        &&& self.buffered() <= self.capacity()
        &&& valid_utf8(self.seen())
        &&& is_char_boundary(self.seen(), self.position() as int)
        &&& self.borrowed() ==> self.at_eof() && self.pending().len() == 0
        &&& self.at_eof() ==> self.ahead().len() == 0
    }

    /// The reader is in order: it is sound; a character that it has looked
    /// at without consuming it is the head of the text; and what has arrived
    /// without being confirmed is text followed by the beginning of one
    /// character, unless the stream was found to hold bytes that are no
    /// text: then what is unconfirmed is text up to the offset that the
    /// error has named, where these bytes stand.
    pub open spec fn wf(&self) -> bool {
        &&& self.sound()
        &&& self.peek_ok()
        &&& match self.fault() {
            None => self.pending().len() == 0 || unfinished(self.pending()),
            Some((offset, len)) => self.validated() <= offset && fault_of(
                self.pending(),
                Utf8Fault {
                    valid_up_to: (offset - self.validated()) as usize,
                    error_len: Some(len),
                },
            ),
        }
    }

    /// The reader cannot take more of the stream: it holds as many bytes of
    /// it as `usize` can count, or its buffer is full and too large to be
    /// doubled.
    pub open spec fn outgrown(&self) -> bool {
        ||| self.stream().len() == usize::MAX
        ||| self.capacity() > usize::MAX / 2 && self.buffered() == self.capacity()
    }

    /// The state in which a read leaves the reader when it fails with `e`:
    /// with the fault on record where the stream holds bytes that are no
    /// text, and every later read fails alike; at the end of a stream that
    /// stops inside a character, with the beginning of that character
    /// unconfirmed; before the end of the stream where the source has
    /// failed; and before the end of a stream that it has outgrown.
    pub open spec fn failed_as(&self, e: ReadError<R::Error>) -> bool {
        match e {
            ReadError::InvalidData { offset, len } => self.fault() == Some((offset, len)),
            ReadError::UnexpectedEof => self.fault() is None && self.at_eof()
                && self.pending().len() > 0,
            ReadError::Io(_) => self.fault() is None && !self.at_eof(),
            ReadError::Overflow => self.fault() is None && !self.at_eof() && self.outgrown(),
        }
    }

    /// No read will be made: the stream has been found to hold bytes that
    /// are no text, or the source has reported its end.
    pub open spec fn settled(&self) -> bool {
        self.fault() is Some || self.at_eof()
    }

    /// What a call fails with that has to pull where no read will be made:
    /// the fault on record, or the end of a stream that stops inside a
    /// character; nothing where the stream has ended in order.
    pub open spec fn pull_fails_as(&self) -> Option<ReadError<R::Error>> {
        match self.fault() {
            Some((offset, len)) => Some(ReadError::InvalidData { offset, len }),
            None => if self.at_eof() && self.pending().len() > 0 {
                Some(ReadError::UnexpectedEof)
            } else {
                None
            },
        }
    }

    /// How many bytes the next read asks the source for: as many as the
    /// buffer has room for, and no more than can still be counted.
    pub open spec fn asked(&self) -> nat {
        if self.room() <= usize::MAX - self.stream().len() {
            self.room()
        } else {
            (usize::MAX - self.stream().len()) as nat
        }
    }

    /// `after` has taken more from the source than `self`, or nothing, and
    /// has confirmed more of it as text, or nothing. The stream as a whole
    /// stays what it is: what the reader holds of it grows at its end only,
    /// by what the source had yet to hand over, and not after the end of
    /// the stream was reported.
    pub open spec fn fed_into(&self, after: &Self) -> bool {
        &&& after.whole() == self.whole()
        &&& self.stream().is_prefix_of(after.stream())
        &&& self.validated() <= after.validated()
        &&& self.position() <= after.position()
        &&& self.discarded() <= after.discarded()
        &&& after.borrowed() == self.borrowed()
        &&& after.fuel() <= self.fuel()
        &&& after.fuel() == self.fuel() || self.at_eof() || self.fault() is Some ==> after.stream()
            == self.stream() && after.validated() == self.validated()
        &&& self.at_eof() ==> after.at_eof() && after.fuel() == self.fuel()
        &&& self.at_eof() || self.fault() is Some ==> after.fault() == self.fault()
        &&& self.source_reliable() ==> after.source_reliable()
    }

    /// `after` has grown out of `self` and has consumed nothing.
    pub open spec fn grown_into(&self, after: &Self) -> bool {
        &&& self.fed_into(after)
        &&& after.position() == self.position()
    }

    /// Growth goes on from growth.
    pub proof fn lemma_fed_on(&self, mid: &Self, after: &Self)
        requires
            self.fed_into(mid),
            mid.fed_into(after),
        ensures
            self.fed_into(after),
    {
        assert(self.stream() =~= after.stream().subrange(0, self.stream().len() as int));
    }

    /// The place of consumption never moves back, and what a call consumes
    /// is the piece of the stream that lies between the place before it and
    /// the place after it: the consumed text grows by that piece, at its end.
    pub proof fn lemma_consumed_grows(&self, after: &Self)
        requires
            self.sound(),
            after.sound(),
            self.fed_into(after),
        ensures
            self.position() <= after.position(),
            after.consumed_text() == self.consumed_text() + after.stream().subrange(
                self.position() as int,
                after.position() as int,
            ),
    {
        assert(after.consumed_text() =~= self.consumed_text() + after.stream().subrange(
            self.position() as int,
            after.position() as int,
        ));
    }

    /// A reader that is exhausted, with nothing left unconfirmed, has
    /// consumed the whole stream: the pieces that the calls have consumed,
    /// one behind the other, are the stream from its first byte to its last.
    pub proof fn lemma_exhausted_consumed_all(&self)
        requires
            self.wf(),
            self.is_exhausted(),
            self.pending().len() == 0,
        ensures
            self.consumed_text() == self.whole(),
    {
        assert(self.consumed_text() =~= self.whole());
    }

    /// Over a stream that is text from its first byte to its last, no bytes
    /// are found that are no text, and the stream does not end inside a
    /// character: a read fails only as the source fails, or where the reader
    /// has outgrown the machine.
    pub proof fn lemma_text_reads_clean(&self)
        requires
            self.wf(),
            valid_utf8(self.whole()),
        ensures
            self.fault() is None,
            self.at_eof() ==> self.pending().len() == 0,
            self.pull_fails_as() is None,
            forall|e: ReadError<R::Error>| #[trigger]
                self.failed_as(e) ==> e is Io || e is Overflow,
    {
        let whole = self.whole();
        let seen = self.seen();
        let pending = self.pending();
        let rest = pending + self.ahead();
        assert(whole =~= seen + rest);
        lemma_prefix_boundary(seen, whole);
        valid_utf8_split(whole, seen.len() as int);
        assert(whole.subrange(seen.len() as int, whole.len() as int) =~= rest);
        if let Some((offset, len)) = self.fault() {
            let k = offset - self.validated();
            lemma_cut_not_text(pending, self.ahead(), k);
        } else if self.at_eof() && pending.len() > 0 {
            let k = choose|k: usize|
                #[trigger] fault_of(pending, Utf8Fault { valid_up_to: k, error_len: None });
            assert(rest =~= pending);
            lemma_cut_not_text(pending, self.ahead(), k as int);
            lemma_truncated_not_valid(pending.subrange(k as int, pending.len() as int));
        }
    }

    /// Growth goes on from growth.
    pub proof fn lemma_grown_on(&self, mid: &Self, after: &Self)
        requires
            self.grown_into(mid),
            mid.grown_into(after),
        ensures
            self.grown_into(after),
    {
        self.lemma_fed_on(mid, after);
    }

    /// How many bytes the buffer is meant to hold at most.
    pub closed spec fn capacity(&self) -> nat {
        match self.src {
            Source::Borrowed(s) => s.spec_bytes().len(),
            Source::Reader { buf_cap, .. } => buf_cap as nat,
        }
    }

    /// How many bytes the buffer takes before it is full.
    pub open spec fn room(&self) -> nat {
        (self.capacity() - self.buffered()) as nat
    }

    /// The stream and what is confirmed of it are the same in `self` and in
    /// `after`.
    pub open spec fn same_text(&self, after: &Self) -> bool {
        &&& after.stream() == self.stream()
        &&& after.validated() == self.validated()
        &&& after.discarded() == self.discarded()
        &&& after.at_eof() == self.at_eof()
        &&& after.borrowed() == self.borrowed()
        &&& after.ahead() == self.ahead()
        &&& after.fault() == self.fault()
    }

    /// Nothing but the place of consumption differs between `self` and
    /// `after`.
    pub open spec fn same_stream(&self, after: &Self) -> bool {
        &&& after.stream() == self.stream()
        &&& after.validated() == self.validated()
        &&& after.discarded() == self.discarded()
        &&& after.at_eof() == self.at_eof()
        &&& after.borrowed() == self.borrowed()
        &&& after.ahead() == self.ahead()
        &&& after.source_failing() == self.source_failing()
        &&& after.source_reliable() == self.source_reliable()
        &&& after.fault() == self.fault()
    }

    /// What is not yet consumed is text, and so is what was consumed.
    pub proof fn lemma_text(&self)
        requires
            self.sound(),
        ensures
            valid_utf8(self.text()),
            valid_utf8(self.stream().subrange(0, self.position() as int)),
            self.text() == self.seen().subrange(self.position() as int, self.seen().len() as int),
    {
        valid_utf8_split(self.seen(), self.position() as int);
        assert(self.text() =~= self.seen().subrange(
            self.position() as int,
            self.seen().len() as int,
        ));
        assert(self.stream().subrange(0, self.position() as int) =~= self.seen().subrange(
            0,
            self.position() as int,
        ));
    }
}

/// Reading what is there.
impl<'src, R: ByteSource> Utf8Reader<'src, R> {
    /// Returns the count of totally consumed bytes.
    pub fn consumed(&self) -> (r: usize)
        requires
            self.wf(),
        ensures
            r == self.position(),
    {
        self.tot_consumed + self.off_consumed
    }

    /// Returns `true` if the source has ended and all text is consumed.
    pub fn exhausted(&self) -> (r: bool)
        requires
            self.wf(),
        ensures
            r == self.is_exhausted(),
    {
        match &self.src {
            Source::Borrowed(s) => self.off_consumed == s.len(),
            Source::Reader { off_valid, .. } => self.eof && self.off_consumed == *off_valid,
        }
    }

    /// The bytes of the text that is not yet consumed.
    fn window(&self) -> (r: &[u8])
        requires
            self.wf(),
        ensures
            r@ == self.text(),
            valid_utf8(r@),
    {
        proof {
            self.lemma_text();
        }
        match &self.src {
            Source::Borrowed(s) => {
                let all = s.as_bytes();
                &all[self.off_consumed..all.len()]
            },
            Source::Reader { buf, off_valid, .. } => {
                let r = &buf.as_slice()[self.off_consumed..*off_valid];
                assert(r@ =~= self.text());
                r
            },
        }
    }

    /// Returns the text that is confirmed and not yet consumed.
    pub fn content(&self) -> (r: &str)
        requires
            self.wf(),
        ensures
            r.spec_bytes() == self.text(),
    {
        proof {
            self.lemma_text();
        }
        match &self.src {
            Source::Borrowed(s) => {
                assert(self.seen() =~= s.spec_bytes());
                s.split_at(self.off_consumed).1
            },
            Source::Reader { buf, off_valid, .. } => {
                let bytes = &buf.as_slice()[self.off_consumed..*off_valid];
                assert(bytes@ =~= self.text());
                match from_utf8(bytes) {
                    Ok(s) => s,
                    Err(fault) => {
                        proof {
                            lemma_fault_not_valid(bytes@, fault);
                        }
                        unreached()
                    },
                }
            },
        }
    }

    /// Whether the content can be cut behind its leading `n` bytes without
    /// splitting a character: the test that `consume` asks of its caller.
    pub fn can_consume(&self, n: usize) -> (r: bool)
        requires
            self.wf(),
        ensures
            r == is_char_boundary(self.text(), n as int),
    {
        is_boundary(self.window(), n)
    }

    /// Marks the leading `n` bytes of the content as consumed, they will
    /// disappear in the future content. The `n`th byte has to be at a
    /// character boundary of the content.
    pub fn consume(&mut self, n: usize)
        requires
            old(self).wf(),
            is_char_boundary(old(self).text(), n as int),
        ensures
            final(self).wf(),
            old(self).same_stream(final(self)),
            final(self).position() == old(self).position() + n,
            final(self).text() == old(self).text().subrange(
                n as int,
                old(self).text().len() as int,
            ),
    {
        proof {
            self.lemma_text();
            lemma_boundary_shift(self.seen(), self.position() as int, n as int);
        }
        self.off_consumed = self.off_consumed + n;
        self.peeked = None;
        assert(self.text() =~= old(self).text().subrange(
            n as int,
            old(self).text().len() as int,
        ));
    }
}

/// Filling the buffer.
impl<'src, R: ByteSource> Utf8Reader<'src, R> {
    /// Confirms what has arrived as text, if all of it is text, and else
    /// leaves the confirmed text as it is. Returns whether it is text;
    /// `false` stands for a character at its end that is not yet whole.
    #[verifier::rlimit(30)]
    fn validate(&mut self) -> (r: Result<bool, ReadError<R::Error>>)
        requires
            old(self).sound(),
            old(self).peek_ok(),
            old(self).fault() is None,
            !old(self).borrowed(),
        ensures
            final(self).wf(),
            r is Ok ==> final(self).fault() is None,
            final(self).stream() == old(self).stream(),
            final(self).position() == old(self).position(),
            final(self).discarded() == old(self).discarded(),
            final(self).at_eof() == old(self).at_eof(),
            final(self).borrowed() == old(self).borrowed(),
            final(self).ahead() == old(self).ahead(),
            final(self).source_failing() == old(self).source_failing(),
            final(self).source_reliable() == old(self).source_reliable(),
            final(self).capacity() == old(self).capacity(),
            final(self).validated() == if r matches Ok(true) {
                final(self).stream().len()
            } else {
                old(self).validated()
            },
            r matches Err(e) ==> final(self).failed_as(e),
            match r {
                Ok(true) => valid_utf8(old(self).pending()),
                Ok(false) => unfinished(old(self).pending()) && !valid_utf8(old(self).pending()),
                Err(ReadError::InvalidData { offset, len }) => old(self).validated() <= offset
                    && fault_of(
                    old(self).pending(),
                    Utf8Fault {
                        valid_up_to: (offset - old(self).validated()) as usize,
                        error_len: Some(len),
                    },
                ) && !valid_utf8(old(self).pending()),
                Err(_) => false,
            },
    {
        let tot_consumed = self.tot_consumed;
        let ghost seen = self.seen();
        let ghost pending = self.pending();
        let ghost position = self.position() as int;
        let ghost text = self.text();
        match &mut self.src {
            Source::Borrowed(_) => Ok(true),
            Source::Reader { buf, off_valid, taken, .. } => {
                let fresh = &buf.as_slice()[*off_valid..buf.len()];
                assert(fresh@ =~= pending);
                match from_utf8(fresh) {
                    Ok(_) => {
                        *off_valid = buf.len();
                        proof {
                            lemma_boundary_extend(seen, pending, position);
                            assert(seen + pending =~= taken@.subrange(0, taken@.len() as int));
                            assert(self.seen() =~= seen + pending);
                            assert(text.len() > 0 ==> self.text()[0] == text[0]);
                        }
                        Ok(true)
                    },
                    Err(fault) => {
                        proof {
                            lemma_fault_not_valid(pending, fault);
                        }
                        match fault.error_len {
                            None => {
                                assert(fault_of(
                                    pending,
                                    Utf8Fault { valid_up_to: fault.valid_up_to, error_len: None },
                                ));
                                Ok(false)
                            },
                            Some(len) => {
                                let offset = tot_consumed + *off_valid + fault.valid_up_to;
                                self.fault = Some((offset, len));
                                Err(ReadError::InvalidData { offset, len })
                            },
                        }
                    },
                }
            },
        }
    }

    /// Whether the source has ended with a character left unfinished.
    fn cut_short(&self) -> (r: bool)
        requires
            self.sound(),
        ensures
            r == (self.pending().len() > 0),
    {
        match &self.src {
            Source::Borrowed(_) => false,
            Source::Reader { buf, off_valid, .. } => *off_valid < buf.len(),
        }
    }

    /// Takes in what one read has delivered: nothing, which is the end of the
    /// stream, or bytes, which join the stream and are confirmed as text if
    /// all that is unconfirmed is text with them. Returns whether the reader
    /// has come to rest; `false` asks for another read, to finish a
    /// character.
    #[verifier::rlimit(30)]
    pub fn absorb(&mut self, chunk: Vec<u8>) -> (r: Result<bool, ReadError<R::Error>>)
        requires
            old(self).wf(),
            old(self).fault() is None,
            !old(self).borrowed(),
            !old(self).at_eof(),
            chunk@.len() <= old(self).room(),
            old(self).stream().len() + chunk@.len() <= usize::MAX,
            chunk@.len() == 0 ==> old(self).ahead().len() == 0,
        ensures
            final(self).wf(),
            final(self).position() == old(self).position(),
            final(self).discarded() == old(self).discarded(),
            final(self).borrowed() == old(self).borrowed(),
            final(self).ahead() == old(self).ahead(),
            final(self).source_failing() == old(self).source_failing(),
            final(self).source_reliable() == old(self).source_reliable(),
            final(self).capacity() == old(self).capacity(),
            final(self).validated() == if r matches Ok(true) && chunk@.len() > 0 {
                final(self).stream().len()
            } else {
                old(self).validated()
            },
            final(self).stream() == old(self).stream() + chunk@,
            final(self).at_eof() == (chunk@.len() == 0),
            r is Ok ==> final(self).fault() is None,
            r matches Err(e) ==> final(self).failed_as(e),
            match r {
                Ok(done) => if chunk@.len() == 0 {
                    done && old(self).pending().len() == 0
                } else {
                    done == valid_utf8(old(self).pending() + chunk@)
                },
                Err(ReadError::UnexpectedEof) => chunk@.len() == 0 && old(self).pending().len() > 0,
                Err(ReadError::InvalidData { offset, len }) => chunk@.len() > 0 && old(
                    self).validated() <= offset && fault_of(
                    old(self).pending() + chunk@,
                    Utf8Fault {
                        valid_up_to: (offset - old(self).validated()) as usize,
                        error_len: Some(len),
                    },
                ),
                Err(_) => false,
            },
            r matches Ok(true) ==> final(self).pending().len() == 0,
            r matches Ok(false) ==> unfinished(final(self).pending()),
    {
        let n = chunk.len();
        if n == 0 {
            self.eof = true;
            assert(self.stream() =~= old(self).stream() + chunk@);
            return if self.cut_short() {
                Err(ReadError::UnexpectedEof)
            } else {
                Ok(true)
            };
        }
        let ghost before = self.stream();
        let ghost pending = self.pending();
        match &mut self.src {
            Source::Borrowed(_) => {},
            Source::Reader { buf, tot_read, taken, .. } => {
                *tot_read = *tot_read + n;
                let ghost held = buf@;
                let ghost base = self.tot_consumed as int;
                buf.extend_from_slice(chunk.as_slice());
                proof {
                    *taken = Ghost(taken@ + chunk@);
                    assert(buf@ =~= held + chunk@);
                    assert(buf@ =~= taken@.subrange(base, taken@.len() as int));
                }
            },
        }
        proof {
            assert(self.stream() == before + chunk@);
            assert(self.seen() =~= old(self).seen());
            assert(self.pending() =~= pending + chunk@);
        }
        let ghost mid = *self;
        let r = self.validate();
        proof {
            assert(self.pending() =~= if r matches Ok(true) {
                Seq::<u8>::empty()
            } else {
                mid.pending()
            });
        }
        r
    }

    /// How many bytes the next read asks the source for.
    fn request(&self) -> (max: usize)
        requires
            self.sound(),
            !self.borrowed(),
        ensures
            max == self.asked(),
    {
        match &self.src {
            Source::Borrowed(_) => 0,
            Source::Reader { buf, buf_cap, tot_read, .. } => {
                let room = *buf_cap - buf.len();
                let countable = usize::MAX - *tot_read;
                if room <= countable {
                    room
                } else {
                    countable
                }
            },
        }
    }

    /// Reads once from the source, unless it has ended, and takes in what
    /// came: it asks for `asked()` bytes, and hands on the error of a read
    /// that fails, which leaves the reader as it was. Returns whether the
    /// reader has come to rest; `false` asks for another read, to finish a
    /// character.
    #[verifier::rlimit(30)]
    fn fetch(&mut self) -> (r: Result<bool, ReadError<R::Error>>)
        requires
            old(self).wf(),
            old(self).fault() is None,
            !old(self).borrowed(),
            old(self).room() > 0,
        ensures
            final(self).wf(),
            old(self).grown_into(final(self)),
            final(self).discarded() == old(self).discarded(),
            final(self).capacity() == old(self).capacity(),
            r is Ok ==> final(self).fault() is None,
            r matches Err(e) ==> final(self).failed_as(e),
            old(self).source_reliable() ==> !(r matches Err(ReadError::Io(_))),
            old(self).at_eof() ==> *final(self) == *old(self) && !(r matches Ok(false)) && (r
                matches Ok(true) ==> old(self).pending().len() == 0),
            r matches Ok(true) ==> final(self).pending().len() == 0 && (final(self).at_eof()
                || final(self).stream().len() > old(self).stream().len()),
            r matches Ok(false) ==> !final(self).at_eof() && final(self).fuel() < old(self).fuel()
                && final(self).stream().len() > old(self).stream().len(),
            r matches Ok(false) ==> final(self).pending().len() > 0,
            r matches Err(ReadError::InvalidData { .. }) ==> final(self).stream().len() > old(
                self).stream().len(),
            r matches Err(ReadError::Overflow) <==> !old(self).at_eof() && old(self).stream().len()
                == usize::MAX,
            r matches Err(ReadError::Io(e)) ==> old(self).source_failing() == Some(e),
            !old(self).at_eof() && old(self).stream().len() < usize::MAX ==> (r matches Err(
                ReadError::Io(_),
            ) <==> old(self).source_failing() is Some),
            r matches Err(ReadError::UnexpectedEof) <==> old(self).pending().len() > 0 && (old(
                self).at_eof() || (final(self).at_eof() && final(self).stream() == old(
                self).stream())),
            r matches Err(ReadError::Overflow) ==> *final(self) == *old(self),
            r matches Err(ReadError::Io(_)) ==> old(self).same_text(final(self)) && final(
                self).position() == old(self).position(),
            final(self).stream().len() <= old(self).stream().len() + old(self).asked(),
    {
        if self.eof {
            return if self.cut_short() {
                Err(ReadError::UnexpectedEof)
            } else {
                Ok(true)
            };
        }
        let max = self.request();
        if max == 0 {
            return Err(ReadError::Overflow);
        }
        let chunk = match &mut self.src {
            Source::Borrowed(_) => Vec::new(),
            Source::Reader { rdr, .. } => {
                match rdr.read(max) {
                    Ok(chunk) => chunk,
                    Err(e) => {
                        return Err(ReadError::Io(e));
                    },
                }
            },
        };
        let ghost mid = *self;
        assert(mid.seen() =~= old(self).seen());
        assert(mid.pending() =~= old(self).pending());
        assert(chunk@.len() == 0 ==> mid.ahead() =~= old(self).ahead());
        let r = self.absorb(chunk);
        proof {
            assert((mid.stream() + chunk@) + mid.ahead() =~= mid.stream() + (chunk@ + mid.ahead()));
            assert(chunk@.len() == 0 ==> self.stream() =~= old(self).stream());
        }
        r
    }

    /// Pulls no more than [`INIT_CAP`](Self::INIT_CAP) bytes into the buffer,
    /// after making room in it where most of it is used up. The buffer is
    /// left alone where it already holds more than that.
    ///
    /// What has arrived is confirmed as text once it ends with a whole
    /// character. A full buffer that does not end so leaves the content as
    /// it was: `pull_more` finishes the character.
    #[verifier::rlimit(60)]
    pub fn pull(&mut self) -> (r: Result<(), ReadError<R::Error>>)
        requires
            old(self).wf(),
        ensures
            final(self).wf(),
            old(self).grown_into(final(self)),
            r is Ok ==> final(self).fault() == old(self).fault(),
            r matches Err(e) ==> final(self).failed_as(e),
            old(self).source_reliable() ==> !(r matches Err(ReadError::Io(_))),
            r is Ok ==> final(self).text().len() > 0 || final(self).is_exhausted() || final(
                self).pending().len() >= Self::INIT_CAP,
            r is Ok && final(self).at_eof() ==> final(self).pending().len() == 0,
            *final(self) == *old(self) || final(self).buffered() <= Self::INIT_CAP,
            final(self).discarded() == old(self).discarded() || final(self).discarded()
                == old(self).position(),
            !old(self).at_eof() && old(self).fault() is None && !old(self).borrowed() && old(
                self).stream().len() - old(self).position() <= Self::INIT_CAP && old(
                self).buffered() > Self::INIT_CAP - Self::THRES_ARRANGE ==> final(self).discarded()
                == old(self).position(),
            r is Ok && !final(self).at_eof() && final(self).stream() == old(self).stream()
                ==> old(self).stream().len() - old(self).position() >= Self::INIT_CAP,
            old(self).borrowed() ==> r is Ok,
            old(self).at_eof() || old(self).fault() is Some ==> *final(self) == *old(self),
            old(self).at_eof() && old(self).pending().len() == 0 ==> r is Ok,
            old(self).fault() matches Some((offset, len)) ==> r == Err::<(), ReadError<R::Error>>(
                ReadError::InvalidData { offset, len },
            ),
            old(self).fault() is None && old(self).at_eof() && old(self).pending().len() > 0 ==> r
                == Err::<(), ReadError<R::Error>>(ReadError::UnexpectedEof),
            old(self).fault() is None && (r matches Err(ReadError::InvalidData { .. }))
                ==> final(self).stream().len() > old(self).stream().len(),
            r matches Err(ReadError::Io(_)) ==> (final(self).stream() == old(self).stream()
                && final(self).validated() == old(self).validated()) || final(
                self).pending().len() > 0,
            r matches Err(ReadError::Overflow) ==> final(self).stream().len() == usize::MAX,
            r is Ok && final(self).buffered() < Self::INIT_CAP ==> final(self).pending().len() == 0
                || *final(self) == *old(self),
            old(self).fault() is None && old(self).ahead().len() == 0 && old(self).pending().len()
                > 0 && old(self).stream().len() - old(self).position() < Self::INIT_CAP ==> r
                is Err && !(r matches Err(ReadError::InvalidData { .. })),
            old(self).source_reliable() && old(self).fault() is None && old(self).ahead().len() == 0
                && old(self).pending().len() > 0 && old(self).stream().len() - old(
                self).position() < Self::INIT_CAP && old(self).stream().len() < usize::MAX ==> r
                == Err::<(), ReadError<R::Error>>(ReadError::UnexpectedEof),
            !old(self).settled() && old(self).stream().len() - old(self).position()
                < Self::INIT_CAP && old(self).stream().len() < usize::MAX ==> (old(
                self).source_failing() matches Some(e) ==> r == Err::<(), ReadError<R::Error>>(
                ReadError::Io(e),
            )),
            r matches Err(ReadError::Io(e)) ==> (final(self).stream() == old(self).stream() ==> old(
                self).source_failing() == Some(e)),
    {
        if let Some((offset, len)) = self.fault {
            return Err(ReadError::InvalidData { offset, len });
        }
        if self.eof {
            return if self.cut_short() {
                Err(ReadError::UnexpectedEof)
            } else {
                Ok(())
            };
        }
        loop
            invariant
                self.wf(),
                self.fault() is None,
                old(self).fault() is None,
                !self.at_eof(),
                !old(self).at_eof(),
                old(self).grown_into(self),
                (self.stream() == old(self).stream() && self.validated() == old(self).validated())
                    || self.pending().len() > 0,
                self.fuel() == old(self).fuel() ==> self.pending() == old(self).pending(),
                self.stream() == old(self).stream() ==> self.source_failing() == old(
                    self).source_failing(),
                self.stream() != old(self).stream() ==> old(self).source_failing() is None,
                *self == *old(self) || self.buffered() <= Self::INIT_CAP,
                self.discarded() == old(self).discarded() || self.discarded() == old(
                    self).position(),
                *self == *old(self) || self.discarded() == old(self).position() || (old(
                    self).stream().len() - old(self).position() <= Self::INIT_CAP && old(
                    self).buffered() <= Self::INIT_CAP - Self::THRES_ARRANGE),
                *self == *old(self) || self.stream().len() > old(self).stream().len(),
            decreases self.fuel(),
        {
            let ghost before = *self;
            let off_consumed = self.off_consumed;
            match &mut self.src {
                Source::Borrowed(_) => {
                    return Ok(());
                },
                Source::Reader { buf, buf_cap, off_valid, taken, .. } => {
                    if buf.len() - off_consumed > Self::INIT_CAP {
                        return Ok(());
                    }
                    if buf.len() > Self::INIT_CAP - Self::THRES_ARRANGE {
                        let ghost held = buf@;
                        let rest = buf.split_off(off_consumed);
                        *buf = rest;
                        *off_valid = *off_valid - off_consumed;
                        self.tot_consumed = self.tot_consumed + off_consumed;
                        self.off_consumed = 0;
                        assert(buf@ =~= taken@.subrange(
                            self.tot_consumed as int,
                            taken@.len() as int,
                        ));
                    }
                    *buf_cap = Self::INIT_CAP;
                    if buf.len() >= Self::INIT_CAP {
                        proof {
                            assert(self.seen() =~= before.seen());
                            assert(self.pending() =~= before.pending());
                        }
                        return Ok(());
                    }
                },
            }
            proof {
                assert(self.seen() =~= before.seen());
                assert(self.pending() =~= before.pending());
            }
            let ghost mid = *self;
            let step = self.fetch();
            proof {
                old(self).lemma_grown_on(&mid, self);
            }
            match step {
                Ok(true) => {
                    return Ok(());
                },
                Ok(false) => {},
                Err(e) => {
                    return Err(e);
                },
            }
        }
    }

    /// Pulls more bytes into the buffer, which grows as far as it has to.
    /// What the buffer holds stays where it is.
    #[verifier::rlimit(60)]
    pub fn pull_more(&mut self) -> (r: Result<(), ReadError<R::Error>>)
        requires
            old(self).wf(),
        ensures
            final(self).wf(),
            old(self).grown_into(final(self)),
            final(self).discarded() == old(self).discarded(),
            r is Ok ==> final(self).fault() == old(self).fault(),
            r matches Err(e) ==> final(self).failed_as(e),
            old(self).source_reliable() ==> !(r matches Err(ReadError::Io(_))),
            r is Ok ==> final(self).pending().len() == 0 && (final(self).at_eof() || final(
                self).stream().len() > old(self).stream().len()),
            final(self).capacity() == old(self).capacity() || final(self).capacity() >= 2 * old(
                self).capacity(),
            doubled(old(self).capacity(), final(self).capacity()),
            final(self).buffered() <= mark_of(old(self).capacity()) ==> final(self).capacity()
                == old(self).capacity(),
            final(self).capacity() > old(self).capacity() ==> mark_of(final(self).capacity() / 2)
                < final(self).buffered(),
            old(self).borrowed() ==> r is Ok,
            old(self).at_eof() || old(self).fault() is Some ==> *final(self) == *old(self),
            old(self).at_eof() && old(self).pending().len() == 0 ==> r is Ok,
            old(self).fault() matches Some((offset, len)) ==> r == Err::<(), ReadError<R::Error>>(
                ReadError::InvalidData { offset, len },
            ),
            old(self).fault() is None && old(self).at_eof() && old(self).pending().len() > 0 ==> r
                == Err::<(), ReadError<R::Error>>(ReadError::UnexpectedEof),
            old(self).fault() is None && (r matches Err(ReadError::InvalidData { .. }))
                ==> final(self).stream().len() > old(self).stream().len(),
            r matches Err(ReadError::Io(_)) ==> (final(self).stream() == old(self).stream()
                && final(self).validated() == old(self).validated()) || final(
                self).pending().len() > 0,
            old(self).fault() is None && old(self).ahead().len() == 0 && old(self).pending().len()
                > 0 ==> r is Err && !(r matches Err(ReadError::InvalidData { .. })),
            old(self).source_reliable() && old(self).fault() is None && old(self).ahead().len() == 0
                && old(self).pending().len() > 0 && !old(self).outgrown() ==> r == Err::<
                (),
                ReadError<R::Error>,
            >(ReadError::UnexpectedEof),
            !old(self).settled() && !old(self).outgrown() ==> (old(self).source_failing() matches Some(
                e,
            ) ==> r == Err::<(), ReadError<R::Error>>(ReadError::Io(e))),
            r matches Err(ReadError::Io(e)) ==> (final(self).stream() == old(self).stream() ==> old(
                self).source_failing() == Some(e)),
    {
        if let Some((offset, len)) = self.fault {
            return Err(ReadError::InvalidData { offset, len });
        }
        if self.eof {
            return if self.cut_short() {
                Err(ReadError::UnexpectedEof)
            } else {
                Ok(())
            };
        }
        loop
            invariant
                self.wf(),
                self.fault() is None,
                old(self).fault() is None,
                !self.at_eof(),
                !old(self).at_eof(),
                (self.stream() == old(self).stream() && self.validated() == old(self).validated())
                    || self.pending().len() > 0,
                self.fuel() == old(self).fuel() ==> self.pending() == old(self).pending(),
                self.stream() == old(self).stream() ==> self.source_failing() == old(
                    self).source_failing(),
                self.stream() != old(self).stream() ==> old(self).source_failing() is None,
                old(self).grown_into(self),
                self.discarded() == old(self).discarded(),
                self.capacity() == old(self).capacity() || self.capacity() >= 2 * old(
                    self).capacity(),
                doubled(old(self).capacity(), self.capacity()),
                self.stream() == old(self).stream() ==> self.capacity() == old(self).capacity(),
                self.buffered() <= mark_of(old(self).capacity()) ==> self.capacity() == old(
                    self).capacity(),
                self.capacity() > old(self).capacity() ==> mark_of(self.capacity() / 2)
                    < self.buffered(),
            decreases self.fuel(),
        {
            let ghost before = *self;
            match &mut self.src {
                Source::Borrowed(_) => {
                    return Ok(());
                },
                Source::Reader { buf, buf_cap, .. } => {
                    let mark = *buf_cap / 8 * 7 + *buf_cap % 8 * 7 / 8;
                    assert(mark == mark_of(*buf_cap as nat)) by {
                        let c = *buf_cap as int;
                        assert(c == 8 * (c / 8) + c % 8);
                        assert(c * 7 == 8 * (c / 8 * 7) + (c % 8) * 7);
                    }
                    if buf.len() > mark && *buf_cap <= usize::MAX / 2 {
                        *buf_cap = *buf_cap * 2;
                        buf.reserve(*buf_cap - buf.len());
                    }
                    if buf.len() >= *buf_cap {
                        proof {
                            assert(self.seen() =~= before.seen());
                            assert(self.pending() =~= before.pending());
                        }
                        return Err(ReadError::Overflow);
                    }
                },
            }
            proof {
                assert(self.seen() =~= before.seen());
                assert(self.pending() =~= before.pending());
            }
            let ghost mid = *self;
            let step = self.fetch();
            proof {
                old(self).lemma_grown_on(&mid, self);
            }
            match step {
                Ok(true) => {
                    return Ok(());
                },
                Ok(false) => {},
                Err(e) => {
                    return Err(e);
                },
            }
        }
    }

    /// Pulls, and pulls more where the buffer is full of bytes that do not
    /// end with a whole character, so that there is text to read unless the
    /// stream has ended.
    fn refill(&mut self) -> (r: Result<(), ReadError<R::Error>>)
        requires
            old(self).wf(),
        ensures
            final(self).wf(),
            old(self).grown_into(final(self)),
            r is Ok ==> final(self).fault() == old(self).fault(),
            r matches Err(e) ==> final(self).failed_as(e),
            old(self).source_reliable() ==> !(r matches Err(ReadError::Io(_))),
            old(self).settled() && old(self).pull_fails_as() is None ==> r is Ok,
            r is Err && old(self).settled() ==> old(self).pull_fails_as() == Some(r->Err_0),
            r is Ok ==> final(self).text().len() > 0 || (final(self).is_exhausted() && final(
                self).pending().len() == 0),
            old(self).borrowed() ==> r is Ok,
            old(self).settled() ==> *final(self) == *old(self),
    {
        match self.pull() {
            Ok(_) => {},
            Err(e) => {
                return Err(e);
            },
        }
        if self.window().len() == 0 && !self.eof {
            let ghost mid = *self;
            let step = self.pull_more();
            proof {
                old(self).lemma_grown_on(&mid, self);
            }
            return step;
        }
        Ok(())
    }

    /// Pulls more bytes until the content has at least `n` bytes.
    ///
    /// Returns `Ok(false)` if the source ended before that.
    #[verifier::rlimit(30)]
    pub fn pull_at_least(&mut self, n: usize) -> (r: Result<bool, ReadError<R::Error>>)
        requires
            old(self).wf(),
        ensures
            final(self).wf(),
            old(self).grown_into(final(self)),
            final(self).discarded() == old(self).discarded(),
            r is Ok ==> final(self).fault() == old(self).fault(),
            r matches Err(e) ==> final(self).failed_as(e),
            old(self).source_reliable() ==> !(r matches Err(ReadError::Io(_))),
            old(self).settled() && old(self).pull_fails_as() is None ==> r is Ok,
            r is Err && old(self).settled() ==> old(self).pull_fails_as() == Some(r->Err_0),
            r matches Ok(enough) ==> enough == (final(self).text().len() >= n) && (enough
                || final(self).at_eof()),
            old(self).text().len() >= n ==> r is Ok && *final(self) == *old(self),
            old(self).borrowed() ==> r is Ok,
    {
        loop
            invariant
                self.wf(),
                self.fault() == old(self).fault(),
                old(self).grown_into(self),
                self.discarded() == old(self).discarded(),
                old(self).text().len() >= n ==> *self == *old(self),
            decreases
                    if self.at_eof() {
                        0
                    } else {
                        self.fuel() + 1
                    },
        {
            let have = match &self.src {
                Source::Borrowed(s) => s.as_bytes().len() - self.off_consumed,
                Source::Reader { off_valid, .. } => *off_valid - self.off_consumed,
            };
            if have >= n {
                return Ok(true);
            }
            if self.eof {
                return Ok(false);
            }
            let ghost mid = *self;
            let step = self.pull_more();
            proof {
                old(self).lemma_grown_on(&mid, self);
            }
            match step {
                Ok(_) => {},
                Err(e) => {
                    return Err(e);
                },
            }
        }
    }
}

/// Scanning by character.
impl<'src, R: ByteSource> Utf8Reader<'src, R> {
    /// The width of the character that the last look ahead has found and not
    /// yet consumed.
    pub closed spec fn peek_width(&self) -> nat {
        match self.peeked {
            Some(w) => w as nat,
            None => 0,
        }
    }

    /// What the last look ahead has found is the head of the text.
    pub closed spec fn peek_ok(&self) -> bool {
        self.peeked is Some ==> self.text().len() > 0 && self.peek_width() == first_width(
            self.text(),
        )
    }

    /// The text between two places of the buffer, both between characters.
    fn slice_text(&self, from: usize, to: usize) -> (r: &str)
        requires
            self.sound(),
            from <= to,
            self.discarded() + to <= self.validated(),
            is_char_boundary(self.seen(), self.discarded() + from),
            is_char_boundary(self.seen(), self.discarded() + to),
        ensures
            r.spec_bytes() == self.stream().subrange(
                self.discarded() + from,
                self.discarded() + to,
            ),
    {
        let ghost a = self.discarded() + from;
        let ghost b = self.discarded() + to;
        proof {
            lemma_between(self.seen(), a, b);
            assert(self.seen().subrange(a, b) =~= self.stream().subrange(a, b));
        }
        match &self.src {
            Source::Borrowed(s) => {
                assert(self.seen() =~= s.spec_bytes());
                let (head, _) = s.split_at(to);
                let (_, r) = head.split_at(from);
                assert(r.spec_bytes() =~= self.stream().subrange(a, b));
                r
            },
            Source::Reader { buf, .. } => {
                let bytes = &buf.as_slice()[from..to];
                assert(bytes@ =~= self.stream().subrange(a, b));
                match from_utf8(bytes) {
                    Ok(s) => s,
                    Err(fault) => {
                        proof {
                            lemma_fault_not_valid(bytes@, fault);
                        }
                        unreached()
                    },
                }
            },
        }
    }

    /// Moves the place of consumption behind the first character of the
    /// text.
    fn step_over(&mut self, width: usize)
        requires
            old(self).wf(),
            old(self).text().len() > 0,
            width == first_width(old(self).text()),
        ensures
            final(self).wf(),
            old(self).same_stream(final(self)),
            final(self).position() == old(self).position() + width,
            final(self).peek_width() == 0,
            final(self).text() == old(self).text().subrange(
                width as int,
                old(self).text().len() as int,
            ),
    {
        proof {
            self.lemma_text();
            lemma_first_scalar(self.text());
            lemma_boundary_shift(self.seen(), self.position() as int, width as int);
        }
        self.off_consumed = self.off_consumed + width;
        self.peeked = None;
        assert(self.text() =~= old(self).text().subrange(
            width as int,
            old(self).text().len() as int,
        ));
    }

    /// Consumes one character.
    ///
    /// Pulls first if the content is empty, and pulls more where that leaves
    /// it empty before the end of the stream.
    pub fn next(&mut self) -> (r: Result<Option<char>, ReadError<R::Error>>)
        requires
            old(self).wf(),
        ensures
            final(self).wf(),
            old(self).fed_into(final(self)),
            r is Ok ==> final(self).fault() == old(self).fault(),
            r matches Err(e) ==> final(self).failed_as(e),
            old(self).source_reliable() ==> !(r matches Err(ReadError::Io(_))),
            old(self).settled() && old(self).pull_fails_as() is None ==> r is Ok,
            r is Err && old(self).settled() ==> old(self).pull_fails_as() == Some(r->Err_0),
            r matches Ok(found) ==> found == head_of(
                final(self).stream().subrange(
                    old(self).position() as int,
                    final(self).validated() as int,
                ),
            ),
            r matches Ok(Some(ch)) ==> final(self).position() == old(self).position() + width_of(
                ch,
            ),
            r matches Ok(None) ==> final(self).is_exhausted() && final(self).pending().len() == 0,
            !(r matches Ok(Some(_))) ==> final(self).position() == old(self).position(),
            old(self).text().len() > 0 ==> r is Ok && old(self).same_stream(final(self)),
            old(self).borrowed() ==> r is Ok,
    {
        if self.window().len() == 0 {
            match self.refill() {
                Ok(_) => {},
                Err(e) => {
                    return Err(e);
                },
            }
        }
        let ghost mid = *self;
        let text = self.window();
        if text.len() == 0 {
            return Ok(None);
        }
        let (ch, width) = decode_first(text);
        self.step_over(width);
        proof {
            old(self).lemma_fed_on(&mid, self);
        }
        Ok(Some(ch))
    }

    /// What `peek` leaves behind and returns.
    pub open spec fn peek_post(
        before: &Self,
        after: &Self,
        r: Result<Option<char>, ReadError<R::Error>>,
    ) -> bool {
        &&& after.wf()
        &&& before.grown_into(after)
        &&& r is Ok ==> after.fault() == before.fault()
        &&& r matches Err(e) ==> after.failed_as(e)
        &&& before.source_reliable() ==> !(r matches Err(ReadError::Io(_)))
        &&& before.settled() && before.pull_fails_as() is None ==> r is Ok
        &&& r is Err && before.settled() ==> before.pull_fails_as() == Some(r->Err_0)
        &&& r matches Ok(found) ==> found == head_of(after.text())
        &&& r matches Ok(None) ==> after.is_exhausted() && after.pending().len() == 0
        &&& before.text().len() > 0 || (before.is_exhausted() && before.pending().len() == 0)
            ==> r is Ok && before.same_stream(after)
        &&& before.borrowed() ==> r is Ok
    }

    /// A second look gives what the first look gave, and moves nothing: where
    /// `peek` has returned a character or the end, `peek` returns the same
    /// again, and the place of consumption stays.
    pub proof fn lemma_peek_again(
        first: &Self,
        second: &Self,
        third: &Self,
        r1: Result<Option<char>, ReadError<R::Error>>,
        r2: Result<Option<char>, ReadError<R::Error>>,
    )
        requires
            first.wf(),
            Self::peek_post(first, second, r1),
            Self::peek_post(second, third, r2),
            r1 is Ok,
        ensures
            r2 == r1,
            second.position() == first.position(),
            third.position() == first.position(),
            second.same_stream(third),
    {
    }

    /// Peeks one character.
    ///
    /// Pulls first if the content is empty, and pulls more where that leaves
    /// it empty before the end of the stream.
    pub fn peek(&mut self) -> (r: Result<Option<char>, ReadError<R::Error>>)
        requires
            old(self).wf(),
        ensures
            Self::peek_post(old(self), final(self), r),
    {
        if self.window().len() == 0 {
            match self.refill() {
                Ok(_) => {},
                Err(e) => {
                    return Err(e);
                },
            }
        }
        let text = self.window();
        if text.len() == 0 {
            return Ok(None);
        }
        let (ch, _) = decode_first(text);
        Ok(Some(ch))
    }

    /// Consumes the character that the last call has found, then looks at the
    /// next one, which it neither consumes nor forgets.
    ///
    /// Pulls more if the content is empty.
    #[verifier::rlimit(30)]
    fn peeking(&mut self) -> (r: Result<Option<char>, ReadError<R::Error>>)
        requires
            old(self).wf(),
        ensures
            final(self).wf(),
            old(self).fed_into(final(self)),
            final(self).discarded() == old(self).discarded(),
            r is Ok ==> final(self).fault() == old(self).fault(),
            r matches Err(e) ==> final(self).failed_as(e),
            old(self).source_reliable() ==> !(r matches Err(ReadError::Io(_))),
            old(self).settled() && old(self).pull_fails_as() is None ==> r is Ok,
            r is Err && old(self).settled() ==> old(self).pull_fails_as() == Some(r->Err_0),
            final(self).position() == old(self).position() + old(self).peek_width(),
            final(self).peek_ok(),
            r matches Ok(found) ==> found == head_of(final(self).text()),
            r matches Ok(Some(ch)) ==> final(self).peek_width() == width_of(ch),
            r matches Ok(None) ==> final(self).is_exhausted() && final(self).pending().len() == 0,
            !(r matches Ok(Some(_))) ==> final(self).peek_width() == 0,
            old(self).borrowed() ==> r is Ok,
    {
        if let Some(width) = self.peeked {
            self.step_over(width as usize);
        }
        let ghost first = *self;
        if self.window().len() == 0 {
            let step = self.pull_more();
            self.peeked = None;
            proof {
                old(self).lemma_fed_on(&first, self);
            }
            match step {
                Ok(_) => {},
                Err(e) => {
                    return Err(e);
                },
            }
        }
        let text = self.window();
        if text.len() == 0 {
            return Ok(None);
        }
        let (ch, width) = decode_first(text);
        self.peeked = Some(width as u8);
        Ok(Some(ch))
    }

    /// Consumes one character if `predicate` accepts it.
    ///
    /// Pulls first if the content is empty.
    pub fn take_once<P>(&mut self, predicate: P) -> (r: Result<Option<char>, ReadError<R::Error>>)
        where P: Predicate
        requires
            old(self).wf(),
            predicate.wf(),
        ensures
            final(self).wf(),
            old(self).fed_into(final(self)),
            r is Ok ==> final(self).fault() == old(self).fault(),
            r matches Err(e) ==> final(self).failed_as(e),
            old(self).source_reliable() ==> !(r matches Err(ReadError::Io(_))),
            old(self).settled() && old(self).pull_fails_as() is None ==> r is Ok,
            r is Err && old(self).settled() ==> old(self).pull_fails_as() == Some(r->Err_0),
            r matches Ok(taken) ==> {
                let head = head_of(
                    final(self).stream().subrange(
                        old(self).position() as int,
                        final(self).validated() as int,
                    ),
                );
                match head {
                    Some(ch) => taken == if predicate.accepts(ch) {
                        Some(ch)
                    } else {
                        None
                    },
                    None => taken is None && final(self).is_exhausted() && final(
                        self).pending().len() == 0,
                }
            },
            r matches Ok(Some(ch)) ==> final(self).position() == old(self).position() + width_of(
                ch,
            ),
            !(r matches Ok(Some(_))) ==> final(self).position() == old(self).position(),
            old(self).text().len() > 0 ==> r is Ok && old(self).same_stream(final(self)),
            old(self).borrowed() ==> r is Ok,
    {
        let found = match self.peek() {
            Ok(found) => found,
            Err(e) => {
                return Err(e);
            },
        };
        let ghost mid = *self;
        match found {
            None => Ok(None),
            Some(ch) => {
                if predicate.predicate(ch) {
                    proof {
                        self.lemma_text();
                        lemma_first_scalar(self.text());
                    }
                    let width = utf8_width(ch);
                    self.step_over(width);
                    proof {
                        old(self).lemma_fed_on(&mid, self);
                    }
                    Ok(Some(ch))
                } else {
                    Ok(None)
                }
            },
        }
    }

    /// What was consumed since the place `origin` is text, and stays so while
    /// the stream grows.
    proof fn lemma_run(&self, origin: int)
        requires
            self.sound(),
            0 <= origin <= self.position(),
            is_char_boundary(self.seen(), origin),
        ensures
            valid_utf8(self.stream().subrange(origin, self.position() as int)),
            valid_utf8(self.text()),
    {
        self.lemma_text();
        lemma_between(self.seen(), origin, self.position() as int);
        assert(self.seen().subrange(origin, self.position() as int) =~= self.stream().subrange(
            origin,
            self.position() as int,
        ));
    }

    /// A boundary of the text that a reader has seen is one of the text that
    /// it sees later.
    proof fn lemma_seen_grows(&self, after: &Self, at: int)
        requires
            self.sound(),
            after.sound(),
            self.fed_into(after),
            0 <= at <= self.validated(),
            is_char_boundary(self.seen(), at),
        ensures
            is_char_boundary(after.seen(), at),
    {
        assert(self.seen() =~= after.seen().subrange(0, self.validated() as int));
        lemma_boundary_grow(self.seen(), after.seen(), at);
    }

    /// Consumes the characters that `predicate` accepts, up to the first one
    /// that it does not accept, which is returned beside them; where the text
    /// ends before that, nothing is.
    ///
    /// Pulls more if the content is insufficient.
    #[verifier::rlimit(60)]
    pub fn take_while<P>(&mut self, predicate: P) -> (r: Result<
        (&str, Option<char>),
        ReadError<R::Error>,
    >) where P: Predicate
        requires
            old(self).wf(),
            predicate.wf(),
        ensures
            final(self).wf(),
            old(self).fed_into(final(self)),
            r is Ok ==> final(self).fault() == old(self).fault(),
            r matches Err(e) ==> final(self).failed_as(e),
            old(self).source_reliable() ==> !(r matches Err(ReadError::Io(_))),
            old(self).settled() && old(self).pull_fails_as() is None ==> r is Ok,
            r is Err && old(self).settled() ==> old(self).pull_fails_as() == Some(r->Err_0),
            r matches Ok((span, stop)) ==> {
                &&& span.spec_bytes() == final(self).stream().subrange(
                    old(self).position() as int,
                    final(self).position() as int,
                )
                &&& all_accepted(&predicate, span@)
                &&& stop == head_of(final(self).text())
                &&& match stop {
                    Some(ch) => !predicate.accepts(ch),
                    None => final(self).is_exhausted() && final(self).pending().len() == 0,
                }
            },
            old(self).borrowed() ==> r is Ok,
    {
        self.peeked = None;
        let start = self.off_consumed;
        let ghost origin = self.position() as int;
        proof {
            self.lemma_run(origin);
            assert(self.stream().subrange(origin, origin) =~= Seq::<u8>::empty());
            assert(self.text() =~= old(self).text());
            assert(self.seen() =~= old(self).seen());
            assert(self.pending() =~= old(self).pending());
        }
        loop
            invariant
                self.wf(),
                self.fault() == old(self).fault(),
                self.peek_ok(),
                predicate.wf(),
                old(self).fed_into(self),
                self.discarded() == old(self).discarded(),
                origin == old(self).position() == self.discarded() + start,
                origin <= self.position(),
                is_char_boundary(self.seen(), origin),
                all_accepted(
                    &predicate,
                    decode_utf8(self.stream().subrange(origin, self.position() as int)),
                ),
                self.peek_width() > 0 ==> predicate.accepts(first_char(self.text())),
            decreases self.fuel(), self.validated() - self.position() - self.peek_width(),
        {
            let ghost before = *self;
            let step = self.peeking();
            proof {
                old(self).lemma_fed_on(&before, self);
                before.lemma_seen_grows(self, origin);
                before.lemma_run(origin);
                self.lemma_run(origin);
                let run = before.stream().subrange(origin, before.position() as int);
                let now = self.stream().subrange(origin, self.position() as int);
                let width = before.peek_width() as int;
                if width > 0 {
                    lemma_decode_push(run, before.text());
                    assert(now =~= run + before.text().subrange(0, width));
                } else {
                    assert(now =~= run);
                }
            }
            match step {
                Err(e) => {
                    return Err(e);
                },
                Ok(None) => {
                    let span = self.slice_text(start, self.off_consumed);
                    proof {
                        encode_utf8_decode_utf8(span@);
                    }
                    return Ok((span, None));
                },
                Ok(Some(ch)) => {
                    if !predicate.predicate(ch) {
                        let span = self.slice_text(start, self.off_consumed);
                        proof {
                            encode_utf8_decode_utf8(span@);
                        }
                        return Ok((span, Some(ch)));
                    }
                    proof {
                        self.lemma_text();
                        lemma_first_scalar(self.text());
                    }
                },
            }
        }
    }

    /// Consumes the characters that `predicate` accepts, as many as `range`
    /// asks for, and returns them with the first character that was not
    /// taken, if the text has one.
    ///
    /// Returns the characters as `Err` and consumes nothing if their number
    /// is not in `range`.
    ///
    /// Pulls more if the content is insufficient.
    #[verifier::rlimit(60)]
    pub fn take_times<P, U>(&mut self, predicate: P, range: U) -> (r: Result<
        (Result<&str, &str>, Option<char>),
        ReadError<R::Error>,
    >) where P: Predicate, U: URangeBounds
        requires
            old(self).wf(),
            predicate.wf(),
            range.wf(),
        ensures
            final(self).wf(),
            old(self).fed_into(final(self)),
            r is Ok ==> final(self).fault() == old(self).fault(),
            r matches Err(e) ==> final(self).failed_as(e),
            old(self).source_reliable() ==> !(r matches Err(ReadError::Io(_))),
            old(self).settled() && old(self).pull_fails_as() is None ==> r is Ok,
            r is Err && old(self).settled() ==> old(self).pull_fails_as() == Some(r->Err_0),
            r matches Ok((outcome, stop)) ==> {
                let span = match outcome {
                    Ok(span) => span,
                    Err(span) => span,
                };
                let end = (old(self).position() + span.spec_bytes().len()) as int;
                &&& end <= final(self).validated()
                &&& span.spec_bytes() == final(self).stream().subrange(
                    old(self).position() as int,
                    end,
                )
                &&& all_accepted(&predicate, span@)
                &&& span@.len() > 0 ==> count_extends(range.upper(), span@.len() - 1)
                &&& stop == head_of(final(self).stream().subrange(end, final(self).validated() as int))
                &&& match stop {
                    Some(ch) => !(count_extends(range.upper(), span@.len() as int)
                        && predicate.accepts(ch)),
                    None => final(self).at_eof() && final(self).pending().len() == 0,
                }
                &&& outcome is Ok <==> count_allowed(
                    range.lower(),
                    range.upper(),
                    span@.len() as int,
                )
                &&& final(self).position() == if outcome is Ok {
                    end
                } else {
                    old(self).position() as int
                }
            },
            old(self).borrowed() ==> r is Ok,
    {
        self.peeked = None;
        let start = self.off_consumed;
        let mut times: usize = 0;
        let ghost origin = self.position() as int;
        proof {
            self.lemma_run(origin);
            assert(self.stream().subrange(origin, origin) =~= Seq::<u8>::empty());
            assert(self.text() =~= old(self).text());
            assert(self.seen() =~= old(self).seen());
            assert(self.pending() =~= old(self).pending());
        }
        let mut stop: Option<char> = None;
        loop
            invariant_except_break
                self.peek_ok(),
                self.peek_width() > 0 ==> predicate.accepts(first_char(self.text())),
                times == decode_utf8(
                    self.stream().subrange(origin, self.position() as int),
                ).len() + if self.peek_width() > 0 {
                    1int
                } else {
                    0int
                },
            invariant
                self.wf(),
                self.fault() == old(self).fault(),
                predicate.wf(),
                range.wf(),
                old(self).fed_into(self),
                self.discarded() == old(self).discarded(),
                origin == old(self).position() == self.discarded() + start,
                origin <= self.position(),
                is_char_boundary(self.seen(), origin),
                all_accepted(
                    &predicate,
                    decode_utf8(self.stream().subrange(origin, self.position() as int)),
                ),
                times > 0 ==> count_extends(range.upper(), times - 1),
                times <= self.position() + self.peek_width() - origin,
            ensures
                times == decode_utf8(
                    self.stream().subrange(origin, self.position() as int),
                ).len(),
                stop == head_of(self.text()),
                match stop {
                    Some(ch) => !(count_extends(range.upper(), times as int) && predicate.accepts(
                        ch,
                    )),
                    None => self.at_eof() && self.pending().len() == 0,
                },
            decreases self.fuel(), self.validated() - self.position() - self.peek_width(),
        {
            let ghost before = *self;
            let step = self.peeking();
            proof {
                old(self).lemma_fed_on(&before, self);
                before.lemma_seen_grows(self, origin);
                before.lemma_run(origin);
                self.lemma_run(origin);
                let run = before.stream().subrange(origin, before.position() as int);
                let now = self.stream().subrange(origin, self.position() as int);
                let width = before.peek_width() as int;
                if width > 0 {
                    lemma_decode_push(run, before.text());
                    assert(now =~= run + before.text().subrange(0, width));
                } else {
                    assert(now =~= run);
                }
            }
            match step {
                Err(e) => {
                    return Err(e);
                },
                Ok(None) => {
                    stop = None;
                    break ;
                },
                Ok(Some(ch)) => {
                    if !(range.want_more(times) && predicate.predicate(ch)) {
                        stop = Some(ch);
                        break ;
                    }
                    proof {
                        self.lemma_text();
                        lemma_first_scalar(self.text());
                    }
                    times = times + 1;
                },
            }
        }
        let end = self.off_consumed;
        let fits = range.contains(times);
        if !fits {
            self.off_consumed = start;
            self.peeked = None;
        }
        let span = self.slice_text(start, end);
        proof {
            encode_utf8_decode_utf8(span@);
        }
        if fits {
            Ok((Ok(span), stop))
        } else {
            Ok((Err(span), stop))
        }
    }
}

/// Scanning by pattern.
impl<'src, R: ByteSource> Utf8Reader<'src, R> {
    /// A place of the text where no character goes on lies between two
    /// characters.
    proof fn lemma_hit_boundary(&self, at: int)
        requires
            self.sound(),
            0 <= at < self.text().len(),
            !is_continuation_byte(self.text()[at]),
        ensures
            is_char_boundary(self.text(), at),
            is_char_boundary(self.seen(), self.position() + at),
    {
        self.lemma_text();
        is_char_boundary_iff_not_is_continuation_byte(self.text(), at);
        lemma_boundary_shift(self.seen(), self.position() as int, at);
    }

    /// Consumes what `pattern` finds at the head of the text, and returns
    /// what tells which candidate it was.
    ///
    /// Returns `Ok(None)` and consumes nothing if no candidate fits.
    ///
    /// Pulls first, more where that leaves the content empty before the end
    /// of the stream, and then as much as the longest candidate takes that
    /// starts as the text does.
    #[verifier::rlimit(60)]
    pub fn matches<P>(&mut self, pattern: P) -> (r: Result<
        Option<P::Discriminant>,
        ReadError<R::Error>,
    >) where P: Pattern
        requires
            old(self).wf(),
        ensures
            final(self).wf(),
            old(self).fed_into(final(self)),
            r is Ok ==> final(self).fault() == old(self).fault(),
            r matches Err(e) ==> final(self).failed_as(e),
            old(self).source_reliable() ==> !(r matches Err(ReadError::Io(_))),
            old(self).settled() && old(self).pull_fails_as() is None ==> r is Ok,
            r is Err && old(self).settled() ==> old(self).pull_fails_as() == Some(r->Err_0),
            r matches Ok(found) ==> {
                let text = final(self).stream().subrange(
                    old(self).position() as int,
                    final(self).validated() as int,
                );
                &&& text.len() == 0 ==> final(self).at_eof()
                &&& text.len() > 0 ==> decided_at(
                    pattern.candidates(),
                    text,
                    0,
                    final(self).at_eof(),
                )
                &&& match found {
                    Some(which) => found_at(pattern.candidates(), text, 0) && exists|i: int|
                        first_match(pattern.candidates(), text, i) && which
                            == pattern.discriminant(i) && final(self).position() == old(
                            self).position() + #[trigger] pattern.candidates()[i].len(),
                    None => !found_at(pattern.candidates(), text, 0) && final(self).position()
                        == old(self).position(),
                }
            },
            r is Err ==> final(self).position() == old(self).position(),
            old(self).borrowed() ==> r is Ok,
    {
        match self.refill() {
            Ok(_) => {},
            Err(e) => {
                return Err(e);
            },
        }
        let ghost first = *self;
        let text = self.window();
        if text.len() == 0 {
            return Ok(None);
        }
        let longest = match pattern.indicate(text[0]) {
            None => {
                return Ok(None);
            },
            Some(n) => n,
        };
        let start = self.off_consumed;
        let step = self.try_at(&pattern, start, 0, longest);
        proof {
            old(self).lemma_fed_on(&first, self);
            assert(self.text().subrange(0, self.text().len() as int) =~= self.text());
        }
        match step {
            Err(e) => Err(e),
            Ok(None) => Ok(None),
            Ok(Some((len, which))) => {
                self.off_consumed = start + len;
                self.peeked = None;
                Ok(Some(which))
            },
        }
    }

    /// What is not consumed only grows at its end while the reader grows.
    proof fn lemma_text_grows(&self, after: &Self)
        requires
            self.sound(),
            after.sound(),
            self.grown_into(after),
        ensures
            self.text().is_prefix_of(after.text()),
            self.at_eof() ==> after.text() == self.text(),
            after.fuel() == self.fuel() ==> after.text() == self.text(),
    {
        assert(self.text() =~= after.text().subrange(0, self.text().len() as int));
        if self.at_eof() || after.fuel() == self.fuel() {
            assert(after.text() =~= self.text());
        }
    }

    /// Tells whether a candidate of `pattern` fits at the place `at` of the
    /// text, where the longest candidate that may fit has `longest` bytes,
    /// after pulling as much as that takes. Returns the length of the
    /// candidate that fits and what tells which one it is. Consumes nothing.
    #[verifier::rlimit(60)]
    fn try_at<P>(&mut self, pattern: &P, start: usize, at: usize, longest: usize) -> (r: Result<
        Option<(usize, P::Discriminant)>,
        ReadError<R::Error>,
    >) where P: Pattern
        requires
            old(self).wf(),
            at < old(self).text().len(),
            old(self).position() == old(self).discarded() + start,
            indicated(pattern.candidates(), old(self).text()[at as int], Some(longest)),
            !is_continuation_byte(old(self).text()[at as int]),
        ensures
            final(self).wf(),
            old(self).grown_into(final(self)),
            final(self).discarded() == old(self).discarded(),
            r is Ok ==> final(self).fault() == old(self).fault(),
            r matches Err(e) ==> final(self).failed_as(e),
            old(self).source_reliable() ==> !(r matches Err(ReadError::Io(_))),
            old(self).settled() && old(self).pull_fails_as() is None ==> r is Ok,
            r is Err && old(self).settled() ==> old(self).pull_fails_as() == Some(r->Err_0),
            r is Ok ==> decided_at(
                pattern.candidates(),
                final(self).text(),
                at as int,
                final(self).at_eof(),
            ),
            r matches Ok(None) ==> !found_at(pattern.candidates(), final(self).text(), at as int),
            r matches Ok(Some((len, which))) ==> {
                &&& found_at(pattern.candidates(), final(self).text(), at as int)
                &&& at + len <= final(self).text().len()
                &&& is_char_boundary(final(self).seen(), final(self).position() + at)
                &&& is_char_boundary(final(self).seen(), final(self).position() + at + len)
                &&& exists|i: int|
                    first_match(
                        pattern.candidates(),
                        final(self).text().subrange(at as int, final(self).text().len() as int),
                        i,
                    ) && which == pattern.discriminant(i) && len
                        == #[trigger] pattern.candidates()[i].len()
            },
            old(self).borrowed() ==> r is Ok,
    {
        let ghost cands = pattern.candidates();
        let need = match at.checked_add(longest) {
            Some(need) => need,
            None => usize::MAX,
        };
        match self.pull_at_least(need) {
            Ok(_) => {},
            Err(e) => {
                return Err(e);
            },
        }
        if !self.eof && self.window().len() - at < longest {
            return Err(ReadError::Overflow);
        }
        let ghost whole = self.text();
        let ghost tail = whole.subrange(at as int, whole.len() as int);
        proof {
            old(self).lemma_text_grows(self);
            assert(whole[at as int] == old(self).text()[at as int]);
            assert(decided_at(cands, whole, at as int, self.at_eof()));
            self.lemma_hit_boundary(at as int);
        }
        let take = self.reach(at, longest);
        let content = self.slice_text(start + at, start + at + take);
        proof {
            assert(content.spec_bytes() =~= tail.subrange(0, take as int));
            assert(tail[0] == whole[at as int]);
            lemma_head_decides(cands, tail, take as int, longest);
        }
        match pattern.matches(content) {
            None => Ok(None),
            Some((len, which)) => {
                proof {
                    assert(self.seen().subrange(self.position() + at, self.position() + at + take)
                        =~= content.spec_bytes());
                    lemma_boundary_within(
                        self.seen(),
                        self.position() + at,
                        self.position() + at + take,
                        len as int,
                    );
                }
                Ok(Some((len, which)))
            },
        }
    }

    /// How much of the text from the place `at` on decides what fits there:
    /// as many bytes as the longest candidate has that may fit, and those
    /// that finish the last character; all there is, where that is less.
    fn reach(&self, at: usize, longest: usize) -> (take: usize)
        requires
            self.wf(),
            at < self.text().len(),
        ensures
            at + take <= self.text().len(),
            take >= longest || at + take == self.text().len(),
            is_char_boundary(self.seen(), self.position() + at + take),
    {
        let text = self.window();
        let rest = text.len() - at;
        let mut take = if longest < rest {
            longest
        } else {
            rest
        };
        while at + take < text.len() && 0x80 <= text[at + take] && text[at + take] <= 0xBF
            invariant
                at + take <= text@.len() <= usize::MAX,
                take >= longest || at + take == text@.len(),
            decreases text@.len() - take,
        {
            take = take + 1;
        }
        proof {
            if at + take < text@.len() {
                self.lemma_hit_boundary(at + take);
            } else {
                is_char_boundary_start_end_of_seq(self.seen());
            }
        }
        take
    }

    /// Goes on with the search for `pattern` from the place `cur` of the
    /// text, before which nothing fits: up to the next byte with which a
    /// candidate starts, where it tells whether one fits, or to the end of
    /// what is there, where it pulls more. Consumes nothing.
    #[verifier::rlimit(60)]
    fn seek_on<P>(&mut self, pattern: &P, start: usize, cur: usize) -> (r: Result<
        Sought<P::Discriminant>,
        ReadError<R::Error>,
    >) where P: Pattern
        requires
            old(self).wf(),
            old(self).position() == old(self).discarded() + start,
            cur <= old(self).text().len(),
            forall|p: int|
                0 <= p < cur ==> #[trigger] missed_at(
                    pattern.candidates(),
                    old(self).text(),
                    p,
                    old(self).at_eof(),
                ),
        ensures
            final(self).wf(),
            old(self).grown_into(final(self)),
            final(self).discarded() == old(self).discarded(),
            r is Ok ==> final(self).fault() == old(self).fault(),
            r matches Err(e) ==> final(self).failed_as(e),
            old(self).source_reliable() ==> !(r matches Err(ReadError::Io(_))),
            old(self).settled() && old(self).pull_fails_as() is None ==> r is Ok,
            r is Err && old(self).settled() ==> old(self).pull_fails_as() == Some(r->Err_0),
            old(self).borrowed() ==> r is Ok,
            match r {
                Ok(Sought::On(next)) => {
                    &&& next <= final(self).text().len()
                    &&& forall|p: int|
                        0 <= p < next ==> #[trigger] missed_at(
                            pattern.candidates(),
                            final(self).text(),
                            p,
                            final(self).at_eof(),
                        )
                    &&& final(self).fuel() < old(self).fuel() || (!old(self).at_eof() && final(
                        self).at_eof()) || (final(self).at_eof() == old(self).at_eof() && final(
                        self).text().len() - next < old(self).text().len() - cur)
                },
                Ok(Sought::Ended(end)) => {
                    &&& end == final(self).text().len()
                    &&& final(self).at_eof()
                    &&& forall|p: int|
                        0 <= p < end ==> #[trigger] missed_at(
                            pattern.candidates(),
                            final(self).text(),
                            p,
                            true,
                        )
                },
                Ok(Sought::Found { at, len, which }) => {
                    &&& at + len <= final(self).text().len()
                    &&& at < final(self).text().len()
                    &&& forall|p: int|
                        0 <= p < at ==> #[trigger] missed_at(
                            pattern.candidates(),
                            final(self).text(),
                            p,
                            final(self).at_eof(),
                        )
                    &&& found_at(pattern.candidates(), final(self).text(), at as int)
                    &&& decided_at(
                        pattern.candidates(),
                        final(self).text(),
                        at as int,
                        final(self).at_eof(),
                    )
                    &&& is_char_boundary(final(self).seen(), final(self).position() + at)
                    &&& is_char_boundary(final(self).seen(), final(self).position() + at + len)
                    &&& exists|i: int|
                        first_match(
                            pattern.candidates(),
                            final(self).text().subrange(
                                at as int,
                                final(self).text().len() as int,
                            ),
                            i,
                        ) && which == pattern.discriminant(i) && len
                            == #[trigger] pattern.candidates()[i].len()
                },
                Err(_) => true,
            },
    {
        let ghost cands = pattern.candidates();
        let (at, longest) = seek(pattern, self.window(), cur);
        proof {
            lemma_misses_more(cands, self.text(), cur as int, at as int, self.at_eof());
        }
        match longest {
            None => {
                if self.eof {
                    return Ok(Sought::Ended(at));
                }
                let step = self.pull_more();
                proof {
                    old(self).lemma_text_grows(self);
                    lemma_misses_stay(
                        cands,
                        old(self).text(),
                        self.text(),
                        at as int,
                        old(self).at_eof(),
                        self.at_eof(),
                    );
                }
                match step {
                    Ok(_) => Ok(Sought::On(at)),
                    Err(e) => Err(e),
                }
            },
            Some(n) => {
                let step = self.try_at(pattern, start, at, n);
                proof {
                    old(self).lemma_text_grows(self);
                    lemma_misses_stay(
                        cands,
                        old(self).text(),
                        self.text(),
                        at as int,
                        old(self).at_eof(),
                        self.at_eof(),
                    );
                }
                match step {
                    Err(e) => Err(e),
                    Ok(None) => Ok(Sought::On(at + 1)),
                    Ok(Some((len, which))) => Ok(Sought::Found { at, len, which }),
                }
            },
        }
    }

    /// Consumes the text up to the first place where `pattern` finds a
    /// candidate, and the candidate; returns the text before it with what
    /// tells which candidate it was.
    ///
    /// Returns the rest of the text as `Err` and consumes nothing if the text
    /// ends before any candidate is found.
    ///
    /// Pulls more if the content is insufficient.
    #[verifier::rlimit(60)]
    pub fn until<P>(&mut self, pattern: P) -> (r: Result<
        Result<(&str, P::Discriminant), &str>,
        ReadError<R::Error>,
    >) where P: Pattern
        requires
            old(self).wf(),
        ensures
            final(self).wf(),
            old(self).fed_into(final(self)),
            r is Ok ==> final(self).fault() == old(self).fault(),
            r matches Err(e) ==> final(self).failed_as(e),
            old(self).source_reliable() ==> !(r matches Err(ReadError::Io(_))),
            old(self).settled() && old(self).pull_fails_as() is None ==> r is Ok,
            r is Err && old(self).settled() ==> old(self).pull_fails_as() == Some(r->Err_0),
            r matches Ok(outcome) ==> {
                let text = final(self).stream().subrange(
                    old(self).position() as int,
                    final(self).validated() as int,
                );
                match outcome {
                    Ok((span, which)) => {
                        let at = span.spec_bytes().len() as int;
                        &&& at < text.len()
                        &&& span.spec_bytes() == text.subrange(0, at)
                        &&& forall|p: int|
                            0 <= p < at ==> #[trigger] missed_at(
                                pattern.candidates(),
                                text,
                                p,
                                final(self).at_eof(),
                            )
                        &&& found_at(pattern.candidates(), text, at)
                        &&& decided_at(pattern.candidates(), text, at, final(self).at_eof())
                        &&& exists|i: int|
                            first_match(
                                pattern.candidates(),
                                text.subrange(at, text.len() as int),
                                i,
                            ) && which == pattern.discriminant(i) && final(self).position()
                                == old(self).position() + at
                                + #[trigger] pattern.candidates()[i].len()
                    },
                    Err(span) => {
                        &&& span.spec_bytes() == text
                        &&& forall|p: int|
                            0 <= p < text.len() ==> #[trigger] missed_at(
                                pattern.candidates(),
                                text,
                                p,
                                true,
                            )
                        &&& final(self).at_eof()
                        &&& final(self).position() == old(self).position()
                    },
                }
            },
            r is Err ==> final(self).position() == old(self).position(),
            old(self).borrowed() ==> r is Ok,
    {
        self.peeked = None;
        let start = self.off_consumed;
        let mut cur: usize = 0;
        let ghost cands = pattern.candidates();
        proof {
            assert(self.text() =~= old(self).text());
            assert(self.seen() =~= old(self).seen());
            assert(self.pending() =~= old(self).pending());
        }
        loop
            invariant
                self.wf(),
                self.fault() == old(self).fault(),
                old(self).grown_into(self),
                self.discarded() == old(self).discarded(),
                old(self).position() == self.discarded() + start,
                cands == pattern.candidates(),
                cur <= self.text().len(),
                forall|p: int|
                    0 <= p < cur ==> #[trigger] missed_at(cands, self.text(), p, self.at_eof()),
            decreases
                    if self.at_eof() {
                        0
                    } else {
                        self.fuel() + 1
                    },
                    self.text().len() - cur,
        {
            let ghost before = *self;
            let step = self.seek_on(&pattern, start, cur);
            proof {
                old(self).lemma_grown_on(&before, self);
            }
            match step {
                Err(e) => {
                    return Err(e);
                },
                Ok(Sought::On(next)) => {
                    cur = next;
                },
                Ok(Sought::Ended(end)) => {
                    proof {
                        self.lemma_text();
                        is_char_boundary_start_end_of_seq(self.seen());
                    }
                    let span = self.slice_text(start, start + end);
                    return Ok(Err(span));
                },
                Ok(Sought::Found { at, len, which }) => {
                    self.off_consumed = start + at + len;
                    self.peeked = None;
                    let span = self.slice_text(start, start + at);
                    return Ok(Ok((span, which)));
                },
            }
        }
    }
}

/// Readers over what is in memory.
impl<'src> Utf8Reader<'src, NoSource> {
    /// A reader over text in memory.
    pub fn from_str(s: &'src str) -> (r: Self)
        ensures
            r.wf(),
            r.borrowed(),
            r.stream() == s.spec_bytes(),
            r.position() == 0,
            r.validated() == s.spec_bytes().len(),
            r.at_eof(),
    {
        let n = s.as_bytes().len();
        let r = Utf8Reader {
            src: Source::Borrowed(s),
            off_consumed: 0,
            tot_consumed: 0,
            peeked: None,
            eof: true,
            fault: None,
        };
        proof {
            encode_utf8_valid_utf8(s@);
            assert(r.seen() =~= s.spec_bytes());
            is_char_boundary_start_end_of_seq(r.seen());
        }
        r
    }

    /// A reader over bytes in memory, if they are text.
    pub fn from_bytes(bytes: &'src [u8]) -> (r: Result<Self, Utf8Fault>)
        ensures
            r is Ok <==> valid_utf8(bytes@),
            r matches Ok(rdr) ==> rdr.wf() && rdr.borrowed() && rdr.stream() == bytes@
                && rdr.position() == 0 && rdr.validated() == bytes@.len() && rdr.at_eof(),
            r matches Err(fault) ==> fault_of(bytes@, fault),
    {
        match from_utf8(bytes) {
            Ok(s) => Ok(Self::from_str(s)),
            Err(fault) => {
                proof {
                    lemma_fault_not_valid(bytes@, fault);
                }
                Err(fault)
            },
        }
    }
}

/// Readers over a source.
impl<R: ByteSource> Utf8Reader<'static, R> {
    /// A reader over what `rdr` delivers.
    pub fn from_reader(rdr: R) -> (r: Self)
        ensures
            r.wf(),
            !r.borrowed(),
            r.stream() == Seq::<u8>::empty(),
            r.position() == 0,
            r.validated() == 0,
            !r.at_eof(),
            r.ahead() == rdr.remaining(),
            r.source_failing() == rdr.failing(),
            r.source_reliable() == rdr.reliable(),
            r.capacity() == Self::INIT_CAP,
    {
        let r = Utf8Reader {
            src: Source::Reader {
                rdr,
                buf: Vec::with_capacity(Self::INIT_CAP),
                buf_cap: Self::INIT_CAP,
                tot_read: 0,
                off_valid: 0,
                taken: Ghost(Seq::empty()),
            },
            off_consumed: 0,
            tot_consumed: 0,
            peeked: None,
            eof: false,
            fault: None,
        };
        proof {
            assert(r.seen() =~= Seq::<u8>::empty());
            assert(r.pending() =~= Seq::<u8>::empty());
        }
        r
    }
}

} // verus!
