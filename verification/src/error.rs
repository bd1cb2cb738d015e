//! What the codec reports: how far it got, or why it stopped.

use crate::transport::TransportError;
use vstd::prelude::*;

verus! {

/// Why a copy through the codec stopped.
#[derive(Clone, Copy, Debug, PartialEq, Eq, Structural)]
pub enum CodecError {
    /// The peer broke the framing: the stream ended inside a frame, or a
    /// sink accepted nothing of what it was offered.
    UnexpectedEof,
    /// The transport failed; its error code is passed on unchanged.
    Io(i32),
}

/// How far one call moved a copy.
#[derive(Clone, Copy, Debug, PartialEq, Eq, Structural)]
pub enum Progress {
    /// The copy is complete; the number is the count of payload bytes.
    Ready(u64),
    /// The source or the sink cannot go on right now.
    NotReady,
    /// The copy moved on to its next state and can be advanced again.
    Again,
}

/// The error for a stream that ended inside a frame.
pub fn unexpected_eof() -> (e: CodecError)
    ensures
        e == CodecError::UnexpectedEof,
{
    CodecError::UnexpectedEof
}

/// What to do after an attempt to move bytes.
#[derive(Clone, Copy, Debug, PartialEq, Eq, Structural)]
pub enum Verdict {
    /// Bytes moved; the number is how many are in place now.
    Continue(usize),
    /// The stream ended between two frames: a graceful end.
    Finish,
    /// Nothing moved, and nothing will for now.
    Block,
    /// The copy cannot go on.
    Fail(CodecError),
}

/// The verdict on an attempt that found `have` bytes in place and had the
/// given outcome. A count of zero is the end of the stream: graceful where
/// `may_end` holds and nothing was in place, a broken frame otherwise.
pub open spec fn verdict_of(have: usize, outcome: Result<usize, TransportError>, may_end: bool)
    -> Verdict {
    match outcome {
        Ok(n) => if n > 0 {
            Verdict::Continue((have + n) as usize)
        } else if may_end && have == 0 {
            Verdict::Finish
        } else {
            Verdict::Fail(CodecError::UnexpectedEof)
        },
        Err(TransportError::WouldBlock) => Verdict::Block,
        Err(TransportError::Failed(code)) => Verdict::Fail(CodecError::Io(code)),
    }
}

/// Judges an attempt to move bytes: a read for a header or a payload, or a
/// write. `may_end` says whether the stream may end here without breaking a
/// frame, as it may before the first byte of a header.
pub fn judge(have: usize, outcome: Result<usize, TransportError>, may_end: bool) -> (v: Verdict)
    requires
        outcome matches Ok(n) ==> have + n <= usize::MAX,
    ensures
        v == verdict_of(have, outcome, may_end),
{
    match outcome {
        Ok(n) => {
            if n > 0 {
                Verdict::Continue(have + n)
            } else if may_end && have == 0 {
                Verdict::Finish
            } else {
                Verdict::Fail(unexpected_eof())
            }
        },
        Err(TransportError::WouldBlock) => Verdict::Block,
        Err(TransportError::Failed(code)) => Verdict::Fail(CodecError::Io(code)),
    }
}

/// What a copy that has reached its end reports after the flush of its
/// sink: the count when the flush was made, `NotReady` when it would block,
/// and the transport's error when it failed.
pub open spec fn flush_result(count: u64, outcome: Result<(), TransportError>) -> Result<
    Progress,
    CodecError,
> {
    match outcome {
        Ok(()) => Ok(Progress::Ready(count)),
        Err(TransportError::WouldBlock) => Ok(Progress::NotReady),
        Err(TransportError::Failed(code)) => Err(CodecError::Io(code)),
    }
}

/// Judges the flush at the end of a copy that has counted `count` bytes.
pub fn judge_flush(count: u64, outcome: Result<(), TransportError>) -> (r: Result<
    Progress,
    CodecError,
>)
    ensures
        r == flush_result(count, outcome),
{
    match outcome {
        Ok(()) => Ok(Progress::Ready(count)),
        Err(TransportError::WouldBlock) => Ok(Progress::NotReady),
        Err(TransportError::Failed(code)) => Err(CodecError::Io(code)),
    }
}

} // verus!
