use vstd::prelude::*;
use crate::error::Error;

verus! {

/// The encoding visitor: a byte sink, growable or bounded by a fixed capacity.
pub struct Reader {
    bytes: Vec<u8>,
    limit: usize,
}

impl Reader {
    /// The bytes written so far.
    pub closed spec fn written(&self) -> Seq<u8> {
        self.bytes@
    }

    /// The most bytes this sink will hold.
    pub closed spec fn limit(&self) -> nat {
        self.limit as nat
    }

    /// A growable sink.
    pub fn new() -> (r: Reader)
        ensures
            r.written() == Seq::<u8>::empty(),
            r.limit() == usize::MAX,
    {
        Reader { bytes: Vec::new(), limit: usize::MAX }
    }

    /// A sink that refuses to hold more than `limit` bytes.
    pub fn with_capacity(limit: usize) -> (r: Reader)
        ensures
            r.written() == Seq::<u8>::empty(),
            r.limit() == limit,
    {
        Reader { bytes: Vec::new(), limit }
    }

    pub fn len(&self) -> (n: usize)
        ensures
            n == self.written().len(),
    {
        self.bytes.len()
    }

    /// Appends one byte, or fails with `CapacityExceeded` when the sink is full.
    pub fn write_byte(&mut self, b: u8) -> (r: Result<(), Error>)
        ensures
            final(self).limit() == old(self).limit(),
            r is Ok <==> old(self).written().len() < old(self).limit(),
            r is Ok ==> final(self).written() == old(self).written().push(b),
            r is Err ==> r == Err::<(), Error>(Error::CapacityExceeded) && final(self).written()
                == old(self).written(),
    {
        if self.bytes.len() < self.limit {
            self.bytes.push(b);
            Ok(())
        } else {
            Err(Error::CapacityExceeded)
        }
    }

    /// Hands over the bytes written.
    pub fn into_bytes(self) -> (v: Vec<u8>)
        ensures
            v@ == self.written(),
    {
        self.bytes
    }
}

/// The decoding visitor: a byte source read from the front.
pub struct Writer {
    bytes: Vec<u8>,
    pos: usize,
}

impl Writer {
    /// The bytes not read yet.
    pub closed spec fn remaining(&self) -> Seq<u8> {
        if self.pos <= self.bytes@.len() {
            self.bytes@.subrange(self.pos as int, self.bytes@.len() as int)
        } else {
            Seq::<u8>::empty()
        }
    }

    pub fn new(bytes: Vec<u8>) -> (w: Writer)
        ensures
            w.remaining() == bytes@,
    {
        let w = Writer { bytes, pos: 0 };
        assert(w.remaining() =~= w.bytes@);
        w
    }

    /// How many bytes are left to read.
    pub fn remaining_len(&self) -> (n: usize)
        ensures
            n == self.remaining().len(),
    {
        if self.pos <= self.bytes.len() {
            self.bytes.len() - self.pos
        } else {
            0
        }
    }

    /// Takes the next byte, or fails with `Truncated` when none is left.
    pub fn read_byte(&mut self) -> (r: Result<u8, Error>)
        ensures
            old(self).remaining().len() == 0 ==> r == Err::<u8, Error>(Error::Truncated)
                && final(self).remaining() == old(self).remaining(),
            old(self).remaining().len() > 0 ==> r == Ok::<u8, Error>(old(self).remaining()[0])
                && final(self).remaining() == old(self).remaining().skip(1),
    {
        if self.pos < self.bytes.len() {
            let b = self.bytes[self.pos];
            self.pos = self.pos + 1;
            assert(self.remaining() =~= old(self).remaining().skip(1));
            Ok(b)
        } else {
            Err(Error::Truncated)
        }
    }
}

} // verus!
