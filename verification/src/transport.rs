//! Byte streams as the codec sees them: a source that hands bytes out, a sink
//! that takes bytes in, and what either reports when it cannot go on.

use vstd::prelude::*;

verus! {

/// Why a source or a sink did not complete an operation.
#[derive(Clone, Copy, Debug, PartialEq, Eq, Structural)]
pub enum TransportError {
    /// Nothing can be done right now; the same call may succeed later.
    WouldBlock,
    /// The transport failed, with its own error code.
    Failed(i32),
}

/// A stream that bytes are read from.
///
/// A source may keep its history and may promise what is still to come; the
/// contracts of the codec speak of both where it does. A source that does
/// neither, as one over a socket, leaves the two functions as they are.
pub trait ByteSource {
    /// The bytes that the source has handed out so far, in order, where it
    /// keeps track of them.
    open spec fn handed_out(&self) -> Option<Seq<u8>> {
        None
    }

    /// The bytes that are still to come, where the source is steady: one
    /// that never blocks or fails, hands these bytes out in order, at
    /// least one per read, and reports the end after the last.
    open spec fn to_come(&self) -> Option<Seq<u8>> {
        None
    }

    /// Whether the source, where it promises what is to come, hands out
    /// as many bytes as it is asked for, as far as they go.
    open spec fn greedy(&self) -> bool {
        false
    }

    /// Reads at most `end - start` bytes into `buf[start..start + n]` and
    /// returns `n`. A return of `0` for a non-empty range means that the
    /// stream has ended. Bytes outside `buf[start..end]` are left alone, and a
    /// failed call hands out nothing.
    fn read(&mut self, buf: &mut Vec<u8>, start: usize, end: usize) -> (r: Result<
        usize,
        TransportError,
    >)
        requires
            start <= end <= old(buf).len(),
        ensures
            final(buf).len() == old(buf).len(),
            forall|i: int|
                0 <= i < start || end <= i < old(buf).len() ==> final(buf)@[i] == old(buf)@[i],
            r matches Ok(n) ==> n <= end - start,
            old(self).handed_out() matches Some(before) ==> final(self).handed_out() == Some(
                before + taken(final(buf)@, start, r),
            ),
            old(self).handed_out() is None ==> final(self).handed_out() is None,
            final(self).greedy() == old(self).greedy(),
            old(self).to_come() matches Some(rest) ==> {
                &&& r matches Ok(n)
                &&& n <= rest.len()
                &&& old(self).greedy() ==> n == rest.len() || n == end - start
                &&& n == 0 <==> rest.len() == 0 || start == end
                &&& final(buf)@.subrange(start as int, start + n) == rest.subrange(0, n as int)
                &&& final(self).to_come() == Some(rest.skip(n as int))
            },
    ;
}

/// The bytes that a transfer moved: the first `n` from `start` on where it
/// gave `Ok(n)`, none where it failed.
pub open spec fn taken(bytes: Seq<u8>, start: usize, r: Result<usize, TransportError>) -> Seq<u8> {
    match r {
        Ok(n) => bytes.subrange(start as int, start + n),
        Err(_) => Seq::empty(),
    }
}

/// A stream that bytes are written to.
///
/// A sink may keep its history and may promise to be steady; the contracts
/// of the codec speak of both where it does. A sink that does neither, as
/// one over a socket, leaves the functions as they are.
pub trait ByteSink {
    /// The bytes that the sink has accepted so far, in order, where it
    /// keeps track of them.
    open spec fn accepted(&self) -> Option<Seq<u8>> {
        None
    }

    /// How often the sink has been flushed with success, where it keeps
    /// track of that.
    open spec fn flushes(&self) -> Option<nat> {
        None
    }

    /// Whether the sink is steady: one that never blocks or fails and
    /// accepts at least one byte of whatever it is offered.
    open spec fn steady(&self) -> bool {
        false
    }

    /// Accepts the first `n` bytes of `data` and returns `n`. A failed call
    /// accepts nothing.
    fn write(&mut self, data: &[u8]) -> (r: Result<usize, TransportError>)
        ensures
            r matches Ok(n) ==> n <= data@.len(),
            final(self).flushes() == old(self).flushes(),
            final(self).steady() == old(self).steady(),
            old(self).accepted() matches Some(before) ==> final(self).accepted() == Some(
                before + taken(data@, 0, r),
            ),
            old(self).accepted() is None ==> final(self).accepted() is None,
            old(self).steady() ==> (r matches Ok(n) && (n == 0 <==> data@.len() == 0)),
    ;

    /// Pushes accepted bytes on to their destination; accepts nothing new.
    fn flush(&mut self) -> (r: Result<(), TransportError>)
        ensures
            final(self).accepted() == old(self).accepted(),
            final(self).steady() == old(self).steady(),
            old(self).flushes() matches Some(count) ==> final(self).flushes() == Some(
                if r is Ok {
                    count + 1
                } else {
                    count
                },
            ),
            old(self).flushes() is None ==> final(self).flushes() is None,
            old(self).steady() ==> r is Ok,
    ;
}

} // verus!
