use std::convert::Infallible;
use vstd::prelude::*;

verus! {

/// Where a reader takes its bytes from: one blocking operation, which hands
/// over the next bytes of the stream, at most `max` of them. No bytes at all
/// means that the stream has ended for good.
///
/// The stream is taken to be finite: `remaining` is what of it has not been
/// handed over yet. A read hands over the beginning of that, and a read that
/// fails hands over nothing. Whether the next read fails, and with what, is
/// `failing`; a source that is `reliable` never fails.
pub trait ByteSource {
    /// What a failed read reports.
    type Error;

    /// The error with which the next read fails; nothing where it delivers.
    /// Left open here, for each source to say.
    open spec fn failing(&self) -> Option<Self::Error> {
        arbitrary()
    }

    /// No read fails, now or later. Left open here, for each source to say.
    open spec fn reliable(&self) -> bool {
        arbitrary()
    }

    /// The bytes that are still to be handed over. Left open here, for each
    /// source to say.
    open spec fn remaining(&self) -> Seq<u8> {
        arbitrary()
    }

    fn read(&mut self, max: usize) -> (r: Result<Vec<u8>, Self::Error>)
        ensures
            match r {
                Ok(chunk) => {
                    &&& old(self).failing() is None
                    &&& chunk@.len() <= max
                    &&& chunk@ + final(self).remaining() == old(self).remaining()
                    &&& max > 0 && chunk@.len() == 0 ==> old(self).remaining().len() == 0
                },
                Err(e) => old(self).failing() == Some(e) && final(self).remaining() == old(
                    self).remaining(),
            },
            old(self).reliable() ==> old(self).failing() is None && final(self).reliable(),
    ;
}

/// The source of a reader over text that is already in memory: it has nothing
/// to deliver.
pub struct NoSource;

impl ByteSource for NoSource {
    type Error = Infallible;

    open spec fn remaining(&self) -> Seq<u8> {
        Seq::empty()
    }

    open spec fn failing(&self) -> Option<Infallible> {
        None
    }

    open spec fn reliable(&self) -> bool {
        true
    }

    fn read(&mut self, max: usize) -> (r: Result<Vec<u8>, Infallible>)
        ensures
            r matches Ok(chunk) && chunk@.len() == 0,
    {
        let chunk: Vec<u8> = Vec::new();
        assert(chunk@ + self.remaining() =~= self.remaining());
        Ok(chunk)
    }
}

/// The lesser of two numbers.
pub open spec fn least(a: nat, b: nat) -> nat {
    if a <= b {
        a
    } else {
        b
    }
}

/// A source over bytes in memory, which delivers at most `step` of them at a
/// time: as many as are asked for and are left, up to `step`.
pub struct SliceSource<'a> {
    data: &'a [u8],
    at: usize,
    step: usize,
}

impl<'a> SliceSource<'a> {
    #[verifier::type_invariant]
    spec fn inv(&self) -> bool {
        self.at <= self.data@.len() && self.step > 0
    }

    /// The bytes that are still to be delivered.
    pub closed spec fn left(&self) -> Seq<u8> {
        self.data@.subrange(self.at as int, self.data@.len() as int)
    }

    /// The most that one read delivers.
    pub closed spec fn step(&self) -> nat {
        self.step as nat
    }

    /// A source that delivers `data` in pieces of at most `step` bytes; a
    /// `step` of 0 is taken as 1.
    pub fn new(data: &'a [u8], step: usize) -> (r: Self)
        ensures
            r.remaining() == data@,
            r.step() == if step == 0 { 1nat } else { step as nat },
    {
        let r = SliceSource { data, at: 0, step: if step == 0 { 1 } else { step } };
        assert(r.left() =~= data@);
        r
    }
}

impl<'a> ByteSource for SliceSource<'a> {
    type Error = Infallible;

    open spec fn remaining(&self) -> Seq<u8> {
        self.left()
    }

    open spec fn failing(&self) -> Option<Infallible> {
        None
    }

    open spec fn reliable(&self) -> bool {
        true
    }

    fn read(&mut self, max: usize) -> (r: Result<Vec<u8>, Infallible>)
        ensures
            r is Ok,
            r->Ok_0@.len() == least(least(max as nat, old(self).step()), old(self).left().len()),
            final(self).step() == old(self).step(),
    {
        proof {
            use_type_invariant(&*self);
        }
        let mut out: Vec<u8> = Vec::new();
        let left = self.data.len() - self.at;
        let room = if max < self.step { max } else { self.step };
        let n = if left < room { left } else { room };
        let start = self.at;
        let mut i: usize = 0;
        while i < n
            invariant
                i <= n,
                start + n <= self.data@.len() <= usize::MAX,
                self.at == start,
                out@ == self.data@.subrange(start as int, start + i),
            decreases n - i,
        {
            out.push(self.data[start + i]);
            assert(out@ =~= self.data@.subrange(start as int, start + i + 1));
            i += 1;
        }
        self.at = start + n;
        assert(out@ + self.left() =~= old(self).left());
        Ok(out)
    }
}

} // verus!
