//! Sources and sinks that live in memory: a loopback channel for the codec.

use crate::transport::{ByteSink, ByteSource, TransportError};
use vstd::prelude::*;

verus! {

/// The smaller of two numbers.
pub open spec fn min2(a: int, b: int) -> int {
    if a <= b {
        a
    } else {
        b
    }
}

/// A source that hands out the bytes of a buffer, at most `chunk` per read,
/// and then reports the end of the stream.
pub struct MemorySource {
    data: Vec<u8>,
    pos: usize,
    chunk: usize,
}

impl MemorySource {
    #[verifier::type_invariant]
    spec fn inv(self) -> bool {
        self.pos <= self.data.len()
    }

    /// Every byte of the stream, handed out or not.
    pub closed spec fn content(&self) -> Seq<u8> {
        self.data@
    }

    /// How many bytes have been handed out.
    pub closed spec fn position(&self) -> nat {
        self.pos as nat
    }

    /// The most bytes that one read hands out.
    pub closed spec fn limit(&self) -> nat {
        self.chunk as nat
    }

    /// The bytes handed out so far.
    pub open spec fn consumed(&self) -> Seq<u8> {
        self.content().subrange(0, self.position() as int)
    }

    /// A source over `data` that hands out at most `chunk` bytes per read.
    pub fn new(data: Vec<u8>, chunk: usize) -> (s: MemorySource)
        ensures
            s.content() == data@,
            s.position() == 0,
            s.limit() == chunk,
    {
        MemorySource { data, pos: 0, chunk }
    }
}

impl ByteSource for MemorySource {
    open spec fn handed_out(&self) -> Option<Seq<u8>> {
        Some(self.consumed())
    }

    open spec fn greedy(&self) -> bool {
        self.limit() == usize::MAX
    }

    open spec fn to_come(&self) -> Option<Seq<u8>> {
        if self.limit() > 0 && self.position() <= self.content().len() {
            Some(self.content().skip(self.position() as int))
        } else {
            None
        }
    }

    fn read(&mut self, buf: &mut Vec<u8>, start: usize, end: usize) -> (r: Result<
        usize,
        TransportError,
    >)
        ensures
            final(self).content() == old(self).content(),
            final(self).limit() == old(self).limit(),
            old(self).position() <= old(self).content().len(),
            r matches Ok(n) && ({
                let from = old(self).position() as int;
                &&& n == min2(
                    min2(end - start, old(self).limit() as int),
                    old(self).content().len() - from,
                )
                &&& final(self).position() == from + n
                &&& final(buf)@.subrange(start as int, start + n) == old(self).content().subrange(
                    from,
                    from + n,
                )
            }),
    {
        proof {
            use_type_invariant(&*self);
        }
        let mut n: usize = end - start;
        if self.chunk < n {
            n = self.chunk;
        }
        if self.data.len() - self.pos < n {
            n = self.data.len() - self.pos;
        }
        let from: usize = self.pos;
        let mut i: usize = 0;
        while i < n
            invariant
                i <= n,
                from + n <= self.data.len(),
                start + n <= end <= buf.len(),
                buf.len() == old(buf).len(),
                forall|k: int|
                    0 <= k < start || start + i <= k < buf.len() ==> buf@[k] == old(buf)@[k],
                forall|k: int|
                    start <= k < start + i ==> buf@[k] == self.data@[k - start + from],
            decreases n - i,
        {
            let b: u8 = self.data[from + i];
            buf.set(start + i, b);
            i = i + 1;
        }
        self.pos = from + n;
        proof {
            let got = buf@.subrange(start as int, start + n);
            assert(got =~= self.data@.subrange(from as int, from + n));
            assert(self.data@.subrange(0, from + n) =~= self.data@.subrange(0, from as int) + got);
            assert(got =~= self.data@.skip(from as int).subrange(0, n as int));
            assert(self.data@.skip(from + n) =~= self.data@.skip(from as int).skip(n as int));
        }
        Ok(n)
    }
}

/// A sink that keeps what it accepts, at most `chunk` bytes per write.
pub struct MemorySink {
    data: Vec<u8>,
    chunk: usize,
    flushed: Ghost<nat>,
}

impl MemorySink {
    /// The most bytes that one write accepts.
    pub closed spec fn limit(&self) -> nat {
        self.chunk as nat
    }

    /// Everything the sink has accepted, in order.
    pub closed spec fn written(&self) -> Seq<u8> {
        self.data@
    }

    /// How often the sink has been flushed.
    pub closed spec fn flush_count(&self) -> nat {
        self.flushed@
    }

    /// An empty sink that accepts at most `chunk` bytes per write.
    pub fn new(chunk: usize) -> (s: MemorySink)
        ensures
            s.written() == Seq::<u8>::empty(),
            s.limit() == chunk,
            s.flush_count() == 0,
    {
        MemorySink { data: Vec::new(), chunk, flushed: Ghost(0) }
    }

    /// Everything the sink has accepted.
    pub fn into_bytes(self) -> (v: Vec<u8>)
        ensures
            v@ == self.written(),
    {
        self.data
    }
}

impl ByteSink for MemorySink {
    open spec fn accepted(&self) -> Option<Seq<u8>> {
        Some(self.written())
    }

    open spec fn flushes(&self) -> Option<nat> {
        Some(self.flush_count())
    }

    open spec fn steady(&self) -> bool {
        self.limit() > 0
    }

    fn write(&mut self, data: &[u8]) -> (r: Result<usize, TransportError>)
        ensures
            final(self).limit() == old(self).limit(),
            r is Ok,
            r matches Ok(n) && n == min2(data@.len() as int, old(self).limit() as int)
                && final(self).written() == old(self).written() + data@.subrange(0, n as int),
    {
        let mut n: usize = data.len();
        if self.chunk < n {
            n = self.chunk;
        }
        let mut i: usize = 0;
        while i < n
            invariant
                i <= n <= data@.len(),
                self.chunk == old(self).chunk,
                self.flushed == old(self).flushed,
                self.data@ == old(self).data@ + data@.subrange(0, i as int),
            decreases n - i,
        {
            self.data.push(data[i]);
            i = i + 1;
        }
        Ok(n)
    }

    fn flush(&mut self) -> (r: Result<(), TransportError>)
        ensures
            final(self).limit() == old(self).limit(),
            final(self).written() == old(self).written(),
            final(self).flush_count() == old(self).flush_count() + 1,
            r is Ok,
    {
        self.flushed = Ghost(self.flushed@ + 1);
        Ok(())
    }
}

} // verus!
