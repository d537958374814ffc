//! Forward-only byte sources.

use vstd::prelude::*;
use vstd::slice::slice_subrange;

verus! {

/// The failure of a read: the source has no byte at hand, and is not known
/// to have ended.
#[derive(Debug, Clone, Copy, PartialEq, Eq, Structural)]
pub struct ReadFailure;

/// A source of bytes that is read front to back, in chunks, and never
/// rewound.
///
/// The model of a source is the finite sequence of bytes that it has at
/// hand and has yet to hand out, which is no longer than `usize::MAX`, and
/// whether that is all: a source is complete when no byte will be added to
/// it. A read takes bytes off the front of the sequence: as many as the
/// buffer holds, or all that are left. It fails exactly when a source that
/// is not complete has no byte at hand, and then it takes nothing. So a
/// read returns 0 only for an empty buffer or a complete source that is
/// exhausted.
pub trait ByteSource {
    /// The bytes that this source has at hand and has yet to hand out, in
    /// order.
    spec fn pending(&self) -> Seq<u8>;

    /// Whether no byte will be added to what is pending.
    spec fn complete(&self) -> bool;

    /// Every offset into what is pending can be held in a `usize`.
    proof fn lemma_pending_fits(&self)
        ensures
            self.pending().len() <= usize::MAX,
    ;

    /// Reads into the front of `buf` and returns how many bytes were read:
    /// `buf.len()`, or fewer where the pending bytes end before. A read
    /// leaves `buf` as long as it was.
    fn read(&mut self, buf: &mut Vec<u8>) -> (read: Result<usize, ReadFailure>)
        ensures
            final(buf).len() == old(buf).len(),
            final(self).complete() == old(self).complete(),
            read is Err <==> !old(self).complete() && old(self).pending().len() == 0,
            match read {
                Ok(n) => {
                    &&& n == if old(buf).len() <= old(self).pending().len() {
                        old(buf).len() as int
                    } else {
                        old(self).pending().len() as int
                    }
                    &&& final(buf)@.take(n as int) == old(self).pending().take(n as int)
                    &&& final(self).pending() == old(self).pending().skip(n as int)
                },
                Err(_) => final(self).pending() == old(self).pending(),
            },
    ;
}

/// A slice of bytes in memory is a complete source: a read copies as much
/// of it as the buffer holds and leaves the rest.
impl<'a> ByteSource for &'a [u8] {
    open spec fn pending(&self) -> Seq<u8> {
        (*self)@
    }

    open spec fn complete(&self) -> bool {
        true
    }

    proof fn lemma_pending_fits(&self) {
        assert((*self).len() == (*self)@.len());
    }

    fn read(&mut self, buf: &mut Vec<u8>) -> (read: Result<usize, ReadFailure>) {
        let bytes: &'a [u8] = *self;
        let available = bytes.len();
        let n = if buf.len() <= available { buf.len() } else { available };
        let mut i: usize = 0;
        while i < n
            invariant
                i <= n <= available,
                n <= buf.len(),
                available == bytes@.len(),
                buf.len() == old(buf).len(),
                buf@.take(i as int) == bytes@.take(i as int),
            decreases n - i,
        {
            buf[i] = bytes[i];
            i += 1;
        }
        *self = slice_subrange(bytes, n, available);
        Ok(n)
    }
}

/// A source that its owner fills piece by piece, for bytes that arrive from
/// elsewhere: a file, a socket, another thread.
///
/// A pipe hands out what was pushed into it, in order. When it is empty and
/// still open, a read fails: the bytes that would answer it have not been
/// pushed yet. Once the pipe is closed nothing more can be pushed, and a
/// read from the empty pipe returns 0.
pub struct Pipe {
    bytes: Vec<u8>,
    closed: bool,
}

impl Pipe {
    /// The bytes that were pushed and not read yet.
    pub closed spec fn held(&self) -> Seq<u8> {
        self.bytes@
    }

    /// Whether the pipe was closed.
    pub closed spec fn is_closed(&self) -> bool {
        self.closed
    }

    /// An empty, open pipe.
    pub fn new() -> (pipe: Self)
        ensures
            pipe.held() == Seq::<u8>::empty(),
            !pipe.is_closed(),
    {
        Pipe { bytes: Vec::new(), closed: false }
    }

    /// Whether the pipe was closed.
    pub fn closed(&self) -> (closed: bool)
        ensures
            closed == self.is_closed(),
    {
        self.closed
    }

    /// The number of bytes that were pushed and not read yet.
    pub fn len(&self) -> (len: usize)
        ensures
            len == self.held().len(),
    {
        self.bytes.len()
    }

    /// Appends `chunk` to what the pipe holds. A closed pipe takes nothing,
    /// nor does a pipe that would then hold more than `usize::MAX` bytes:
    /// the result says whether the chunk was taken.
    pub fn push(&mut self, chunk: &[u8]) -> (taken: bool)
        ensures
            taken <==> !old(self).is_closed() && old(self).held().len() + chunk@.len()
                <= usize::MAX,
            final(self).held() == if taken {
                old(self).held() + chunk@
            } else {
                old(self).held()
            },
            final(self).is_closed() == old(self).is_closed(),
    {
        if self.closed || chunk.len() > usize::MAX - self.bytes.len() {
            return false;
        }
        let mut i: usize = 0;
        while i < chunk.len()
            invariant
                i <= chunk@.len(),
                self.closed == old(self).closed,
                self.bytes@ == old(self).bytes@ + chunk@.take(i as int),
            decreases chunk@.len() - i,
        {
            self.bytes.push(chunk[i]);
            i += 1;
        }
        proof {
            assert(chunk@.take(chunk@.len() as int) == chunk@);
        }
        true
    }

    /// Closes the pipe: what it holds is the end of the source.
    pub fn close(&mut self)
        ensures
            final(self).is_closed(),
            final(self).held() == old(self).held(),
    {
        self.closed = true;
    }
}

/// A pipe is complete once it is closed.
impl ByteSource for Pipe {
    open spec fn pending(&self) -> Seq<u8> {
        self.held()
    }

    open spec fn complete(&self) -> bool {
        self.is_closed()
    }

    proof fn lemma_pending_fits(&self) {
        assert(self.bytes.len() == self.bytes@.len());
    }

    fn read(&mut self, buf: &mut Vec<u8>) -> (read: Result<usize, ReadFailure>) {
        let available = self.bytes.len();
        if available == 0 && !self.closed {
            return Err(ReadFailure);
        }
        let n = if buf.len() <= available { buf.len() } else { available };
        let mut i: usize = 0;
        while i < n
            invariant
                i <= n <= available,
                n <= buf.len(),
                available == self.bytes@.len(),
                self.bytes@ == old(self).bytes@,
                self.closed == old(self).closed,
                buf.len() == old(buf).len(),
                buf@.take(i as int) == self.bytes@.take(i as int),
            decreases n - i,
        {
            buf[i] = self.bytes[i];
            i += 1;
        }
        let rest = self.bytes.split_off(n);
        self.bytes = rest;
        Ok(n)
    }
}

} // verus!
