//! The tunnel's framing codec.
//!
//! ```plain
//! +---------------+-----------------------------------------+
//! | LENGTH LE     | PAYLOAD                                 |
//! +---------------+-----------------------------------------+
//! ```
//!
//! A frame with `LENGTH = 0` closes the logical stream and leaves the
//! transport open. The decoder turns frames into payload, the encoder turns
//! payload into frames; both are state machines that can stop wherever the
//! transport would block and go on from there.

use crate::error::{judge, judge_flush, verdict_of, CodecError, Progress, Verdict};
use crate::transport::{taken, ByteSink, ByteSource, TransportError};
use crate::wire::{
    close_frame, frame, lemma_le_round_trip, lemma_le_zero, lemma_scan_body_full,
    lemma_scan_body_part, lemma_scan_close_frame, lemma_scan_closed, lemma_scan_concat,
    lemma_scan_frame, lemma_scan_header_full, lemma_scan_header_part, read_header, scan,
    scan_from, split, write_header, frames, framed, joined, le_u32, lemma_split_step, Phase,
    Scan, HEADER_LEN,
};
use vstd::math::min;
use vstd::prelude::*;
use vstd::slice::slice_subrange;

verus! {

/// The most payload bytes that the encoder puts into one frame, and the
/// size of the decoder's buffer before a longer frame arrives.
pub const CHUNK_LEN: usize = 2048;

/// A byte count as a 64-bit counter holds it.
pub open spec fn wrap64(n: int) -> int {
    n % 0x1_0000_0000_0000_0000
}

/// Counting on from a wrapped count gives the wrapped sum.
pub proof fn lemma_wrap_add(total: int, more: int)
    ensures
        wrap64(wrap64(total) + more) == wrap64(total + more),
{
    vstd::arithmetic::div_mod::lemma_add_mod_noop(total, more, 0x1_0000_0000_0000_0000);
    vstd::arithmetic::div_mod::lemma_add_mod_noop(
        wrap64(total),
        more,
        0x1_0000_0000_0000_0000,
    );
    vstd::arithmetic::div_mod::lemma_mod_twice(total, 0x1_0000_0000_0000_0000);
}

/// Adds `n` to a 64-bit counter, wrapping round at its end.
pub fn count_add(count: u64, n: usize) -> (sum: u64)
    ensures
        sum == wrap64(count + n),
{
    let m: u64 = n as u64;
    let room: u64 = u64::MAX - count;
    if m > room {
        m - room - 1
    } else {
        count + m
    }
}

/// The count of a sink's flushes after a call that gave `r`: one more where
/// the copy reports its end, which it does behind a flush, and the same
/// otherwise.
pub open spec fn flushes_after(before: Option<nat>, r: Result<Progress, CodecError>) -> Option<
    nat,
> {
    match before {
        Some(count) => Some(
            if r matches Ok(Progress::Ready(_)) {
                count + 1
            } else {
                count
            },
        ),
        None => None,
    }
}

/// The states of the decoder.
#[derive(Clone, Copy, Debug, PartialEq, Eq, Structural)]
pub enum DecodeState {
    /// Collecting the four bytes of a frame header.
    ReadLength,
    /// Collecting the payload of a frame.
    ReadBody,
    /// Writing a collected payload to the sink.
    Deliver,
    /// The logical stream has ended; only the flush is left.
    Eof,
}

/// Reads frames from a source and copies their payload to a sink.
pub struct TunnelCopyDecode<R: ByteSource, W: ByteSink> {
    r: R,
    w: W,
    buf: Vec<u8>,
    cap: usize,
    pos: usize,
    amt: u64,
    state: DecodeState,
    data_length: usize,
    closing: bool,
    seen: Ghost<Seq<u8>>,
    sent: Ghost<Seq<u8>>,
    r_base: Ghost<Option<Seq<u8>>>,
    w_base: Ghost<Option<Seq<u8>>>,
}

impl<R: ByteSource, W: ByteSink> TunnelCopyDecode<R, W> {
    /// The source as it stands.
    pub closed spec fn source(&self) -> R {
        self.r
    }

    /// The sink as it stands.
    pub closed spec fn sink(&self) -> W {
        self.w
    }

    /// The wire bytes taken from the source since the decoder was made.
    pub closed spec fn input(&self) -> Seq<u8> {
        self.seen@
    }

    /// The payload bytes given to the sink since the decoder was made.
    pub closed spec fn output(&self) -> Seq<u8> {
        self.sent@
    }

    /// The state the decoder is in.
    pub closed spec fn phase(&self) -> DecodeState {
        self.state
    }

    /// Whether the decoder was told to close early.
    pub closed spec fn closing(&self) -> bool {
        self.closing
    }

    /// The running count of payload bytes given to the sink.
    pub closed spec fn count(&self) -> u64 {
        self.amt
    }

    /// The number of bytes that are being collected: four for a header,
    /// and for a payload the length that its header gave.
    pub closed spec fn wanted(&self) -> nat {
        if self.state == DecodeState::ReadLength {
            HEADER_LEN as nat
        } else {
            self.data_length as nat
        }
    }

    /// The bytes of the header or the payload that have been collected so
    /// far.
    pub closed spec fn held(&self) -> Seq<u8> {
        if self.state == DecodeState::ReadLength || self.state == DecodeState::ReadBody {
            self.buf@.subrange(0, self.cap as int)
        } else {
            Seq::empty()
        }
    }

    /// The `n` bytes that a read has just put behind the collected ones.
    pub closed spec fn incoming(&self, n: nat) -> Seq<u8> {
        self.buf@.subrange(self.cap as int, self.cap + n)
    }

    /// The payload bytes that were read and not yet given to the sink.
    pub closed spec fn undelivered(&self) -> Seq<u8> {
        if self.state == DecodeState::Deliver {
            self.buf@.subrange(self.pos as int, self.cap as int)
        } else {
            Seq::empty()
        }
    }

    spec fn base_ok(&self) -> bool {
        &&& self.buf.len() >= HEADER_LEN
        &&& self.amt == wrap64(self.output().len() as int)
    }

    /// The histories of the source and of the sink as they were when the
    /// decoder was made, where they keep them.
    pub closed spec fn bases(&self) -> (Option<Seq<u8>>, Option<Seq<u8>>) {
        (self.r_base@, self.w_base@)
    }

    spec fn sound(&self) -> bool {
        let sc = scan(self.input());
        &&& self.base_ok()
        &&& match self.state {
            DecodeState::ReadLength => {
                &&& self.cap < HEADER_LEN
                &&& self.pos == 0
                &&& sc == (Scan {
                    done: self.output(),
                    phase: Phase::Header(self.buf@.subrange(0, self.cap as int)),
                })
            },
            DecodeState::ReadBody => {
                &&& 0 < self.data_length <= u32::MAX
                &&& self.cap < self.data_length <= self.buf.len()
                &&& sc == (Scan {
                    done: self.output(),
                    phase: Phase::Body {
                        need: self.data_length as nat,
                        got: self.buf@.subrange(0, self.cap as int),
                    },
                })
            },
            DecodeState::Deliver => {
                &&& self.pos < self.cap <= self.buf.len()
                &&& sc == (Scan {
                    done: self.output() + self.buf@.subrange(self.pos as int, self.cap as int),
                    phase: Phase::Header(Seq::empty()),
                })
            },
            DecodeState::Eof => {
                &&& sc.done == self.output()
                &&& (sc.phase == Phase::Closed || sc.phase == Phase::Header(Seq::<u8>::empty()))
            },
        }
    }

    spec fn tied(&self, lag_in: Seq<u8>, lag_out: Seq<u8>) -> bool {
        &&& self.r.handed_out() == (match self.r_base@ {
            Some(b) => Some(b + self.seen@ + lag_in),
            None => None,
        })
        &&& self.w.accepted() == (match self.w_base@ {
            Some(b) => Some(b + self.sent@ + lag_out),
            None => None,
        })
    }

    /// The decoder's invariant: its buffer and counters agree with what it
    /// has taken from the source and given to the sink, and where the
    /// source and the sink keep their histories, these have grown by just
    /// those bytes.
    pub closed spec fn wf(&self) -> bool {
        self.sound() && self.tied(Seq::empty(), Seq::empty())
    }

    /// The decoder right behind a read of its source with the given
    /// outcome: the bytes that came lie behind the collected ones and are
    /// not taken in yet.
    pub closed spec fn behind_read(&self, outcome: Result<usize, TransportError>) -> bool {
        &&& self.sound()
        &&& self.state == DecodeState::ReadLength || self.state == DecodeState::ReadBody
        &&& outcome matches Ok(n) ==> self.cap + n <= self.wanted()
        &&& self.tied(taken(self.buf@, self.cap, outcome), Seq::empty())
    }

    /// The decoder right behind a write of the undelivered payload to its
    /// sink with the given outcome: the bytes that the sink took are not
    /// counted yet.
    pub closed spec fn behind_write(&self, outcome: Result<usize, TransportError>) -> bool {
        &&& self.sound()
        &&& self.state == DecodeState::Deliver
        &&& outcome matches Ok(n) ==> self.pos + n <= self.cap
        &&& self.tied(Seq::empty(), taken(self.buf@, self.pos, outcome))
    }

    /// What has reached the transports since `before`: where the source
    /// keeps its history, it has handed out just the bytes by which the
    /// input grew, and where the sink keeps its history, it has accepted
    /// just the bytes by which the output grew.
    pub open spec fn carries(&self, before: Self) -> bool {
        &&& before.source().handed_out() matches Some(h) ==> self.source().handed_out() == Some(
            h + self.input().skip(before.input().len() as int),
        )
        &&& before.sink().accepted() matches Some(a) ==> self.sink().accepted() == Some(
            a + self.output().skip(before.output().len() as int),
        )
    }

    /// Whether the source has promised what is still to come and the sink
    /// to take what it is offered: then nothing blocks and nothing fails.
    pub open spec fn steady(&self) -> bool {
        self.source().to_come() is Some && self.sink().steady()
    }

    /// Whether a source that promised what is to come has nothing left.
    pub open spec fn drained(&self) -> bool {
        self.source().to_come() matches Some(rest) && rest.len() == 0
    }

    /// What a source that promised what is to come has left since
    /// `before`: all but the bytes by which the input grew.
    pub open spec fn fed(&self, before: Self) -> bool {
        before.source().to_come() matches Some(rest) ==> {
            let n = self.input().len() - before.input().len();
            &&& n <= rest.len()
            &&& self.source().to_come() == Some(rest.skip(n))
            &&& self.input().skip(before.input().len() as int) == rest.subrange(0, n)
        }
    }

    /// A bound on the states that a copy over steady transports still has
    /// to go through: it falls with every state that is left behind.
    pub open spec fn effort(&self) -> nat {
        let rank: nat = match self.phase() {
            DecodeState::Eof => 0,
            DecodeState::ReadLength => 1,
            DecodeState::ReadBody => 1,
            DecodeState::Deliver => 2,
        };
        match self.source().to_come() {
            Some(rest) => 3 * rest.len() + rank,
            None => rank,
        }
    }

    /// What a call that gave `r` has done since `before` where the
    /// transports are steady. It has not been held up and has met no error
    /// of the transport; it has found the frame broken only at the end of
    /// the source; it has ended the copy, unless told to, only behind the
    /// close signal or at the end of the source; and where it can be called
    /// again, the copy has come nearer to its end.
    pub open spec fn steadily(&self, before: Self, r: Result<Progress, CodecError>) -> bool {
        before.steady() ==> {
            &&& self.steady()
            &&& self.fed(before)
            &&& r != Ok::<Progress, CodecError>(Progress::NotReady)
            &&& !(r matches Err(CodecError::Io(_)))
            &&& r is Err ==> self.drained() && self.phase() != DecodeState::Deliver
            &&& self.phase() == DecodeState::Eof && before.phase() != DecodeState::Eof
                && !before.closing() ==> scan(self.input()).phase == Phase::Closed
                || self.drained()
        }
    }

    /// What the decoder owes its caller at all times: the sink has received
    /// the payload of the complete frames that were read, in order and
    /// without the part that is still waiting to be delivered; the count is
    /// the length of what it received; and the state is the place in the
    /// wire format at which the input stands.
    pub open spec fn faithful(&self) -> bool {
        let sc = scan(self.input());
        &&& self.output() + self.undelivered() == sc.done
        &&& self.count() == wrap64(self.output().len() as int)
        &&& match self.phase() {
            DecodeState::ReadLength => sc.phase == Phase::Header(self.held())
                && self.undelivered().len() == 0,
            DecodeState::ReadBody => sc.phase == (Phase::Body {
                need: self.wanted(),
                got: self.held(),
            }) && self.undelivered().len() == 0,
            DecodeState::Deliver => sc.phase == Phase::Header(Seq::<u8>::empty())
                && self.undelivered().len() > 0,
            DecodeState::Eof => (sc.phase == Phase::Closed || sc.phase == Phase::Header(
                Seq::<u8>::empty(),
            )) && self.undelivered().len() == 0,
        }
    }

    /// The invariant gives what the decoder owes.
    pub proof fn lemma_faithful(self)
        requires
            self.wf(),
        ensures
            self.faithful(),
    {
        assert(self.output() + Seq::<u8>::empty() =~= self.output());
    }

    proof fn lemma_carries(self, before: Self)
        requires
            before.wf(),
            self.wf(),
            self.bases() == before.bases(),
            before.input().is_prefix_of(self.input()),
            before.output().is_prefix_of(self.output()),
        ensures
            self.carries(before),
    {
        let more_in = self.input().skip(before.input().len() as int);
        let more_out = self.output().skip(before.output().len() as int);
        assert(self.input() =~= before.input() + more_in);
        assert(self.output() =~= before.output() + more_out);
        let e = Seq::<u8>::empty();
        if let Some(b) = self.r_base@ {
            assert(b + self.seen@ + e =~= (b + before.seen@ + e) + more_in);
        }
        if let Some(b) = self.w_base@ {
            assert(b + self.sent@ + e =~= (b + before.sent@ + e) + more_out);
        }
    }

    /// A call that has left the source and the input alone has left what
    /// was to come.
    pub proof fn lemma_fed_idle(self, before: Self)
        requires
            self.source() == before.source(),
            self.input() == before.input(),
        ensures
            self.fed(before),
    {
        if let Some(all) = before.source().to_come() {
            assert(all.skip(0) =~= all);
            assert(self.input().skip(before.input().len() as int) =~= all.subrange(0, 0));
        }
    }

    /// What is left of what was to come adds up over two calls.
    pub proof fn lemma_fed_twice(self, mid: Self, start: Self)
        requires
            mid.fed(start),
            self.fed(mid),
            start.input().is_prefix_of(mid.input()),
            mid.input().is_prefix_of(self.input()),
        ensures
            self.fed(start),
    {
        if let Some(all) = start.source().to_come() {
            let a = mid.input().len() - start.input().len();
            let b = self.input().len() - mid.input().len();
            let base = start.input().len() as int;
            assert(all.skip(a).skip(b) =~= all.skip(a + b));
            assert(all.skip(a).subrange(0, b) =~= all.subrange(a, a + b));
            assert(self.input().skip(base) =~= mid.input().skip(base) + self.input().skip(
                mid.input().len() as int,
            ));
            assert(all.subrange(0, a) + all.subrange(a, a + b) =~= all.subrange(0, a + b));
        }
    }

    /// Behind a read, a source that promised what is to come has given the
    /// next of it, and none only at its end.
    proof fn lemma_fed_on(self, start: Self, before: Self, outcome: Result<usize, TransportError>)
        requires
            before.fed(start),
            start.input().is_prefix_of(before.input()),
            self.seen == before.seen,
            before.r.to_come() matches Some(rest) ==> {
                &&& outcome matches Ok(n)
                &&& n <= rest.len()
                &&& self.r.to_come() == Some(rest.skip(n as int))
                &&& taken(self.buf@, before.cap, outcome) == rest.subrange(0, n as int)
            },
        ensures
            self.fed_behind(start, taken(self.buf@, before.cap, outcome)),
    {
        if let Some(all) = start.source().to_come() {
            let done = before.input().len() - start.input().len();
            let n = outcome->Ok_0;
            assert(all.skip(done).skip(n as int) =~= all.skip(done + n));
            assert(all.skip(done).subrange(0, n as int) =~= all.subrange(done, done + n));
            assert(before.input().skip(start.input().len() as int) + all.subrange(
                done,
                done + n,
            ) =~= all.subrange(0, done + n));
        }
    }

    /// The decoder behind a read that gave the bytes `came`, which are not
    /// taken in yet: a source that promised what is to come has given them
    /// as the next of it.
    spec fn fed_behind(&self, start: Self, came: Seq<u8>) -> bool {
        start.source().to_come() matches Some(all) ==> {
            let n = self.input().len() - start.input().len() + came.len();
            &&& n <= all.len()
            &&& self.source().to_come() == Some(all.skip(n))
            &&& self.input().skip(start.input().len() as int) + came == all.subrange(0, n)
        }
    }

    /// Behind the step that takes a read in, the source has left what it
    /// had left behind the read.
    proof fn lemma_fed_step(self, start: Self, mid: Self, came: Seq<u8>)
        requires
            start.input().is_prefix_of(mid.input()),
            mid.fed_behind(start, came),
            self.source() == mid.source(),
            self.input() == mid.input() + came || (self.input() == mid.input() && came.len()
                == 0),
        ensures
            self.fed(start),
    {
        if let Some(all) = start.source().to_come() {
            let base = start.input().len() as int;
            if self.input() == mid.input() + came {
                assert(self.input().skip(base) =~= mid.input().skip(base) + came);
            } else {
                assert(mid.input().skip(base) + came =~= mid.input().skip(base));
            }
        }
    }

    /// A decoder that has read and delivered nothing yet.
    pub fn new(r: R, w: W) -> (d: TunnelCopyDecode<R, W>)
        ensures
            d.wf(),
            d.faithful(),
            d.source() == r,
            d.sink() == w,
            d.input() == Seq::<u8>::empty(),
            d.output() == Seq::<u8>::empty(),
            d.phase() == DecodeState::ReadLength,
            !d.closing(),
            d.count() == 0,
    {
        let ghost rb = r.handed_out();
        let ghost wb = w.accepted();
        let d = TunnelCopyDecode {
            r: r,
            w: w,
            buf: vec![0u8; CHUNK_LEN],
            cap: 0,
            pos: 0,
            amt: 0,
            state: DecodeState::ReadLength,
            data_length: 0,
            closing: false,
            seen: Ghost(Seq::empty()),
            sent: Ghost(Seq::empty()),
            r_base: Ghost(rb),
            w_base: Ghost(wb),
        };
        proof {
            let e = Seq::<u8>::empty();
            assert(d.input() =~= e);
            assert(d.output() =~= e);
            assert(d.buf@.subrange(0, 0) =~= e);
            if let Some(b) = rb {
                assert(b + e + e =~= b);
            }
            if let Some(b) = wb {
                assert(b + e + e =~= b);
            }
        }
        d
    }

    /// Takes in what one read for a header gave. Bytes that came are added
    /// to the header; when it is whole, a length of zero ends the stream
    /// and any other length opens a payload of that length. `None` says
    /// that more is to be read. A stream that has ended before the first
    /// byte of a header has ended gracefully; one that has ended inside the
    /// header has broken the frame.
    #[verifier::rlimit(50)]
    pub fn header_read(&mut self, outcome: Result<usize, TransportError>) -> (next: Option<
        Result<Progress, CodecError>,
    >)
        requires
            old(self).behind_read(outcome),
            old(self).phase() == DecodeState::ReadLength,
        ensures
            final(self).wf(),
            final(self).output() == old(self).output(),
            final(self).count() == old(self).count(),
            final(self).closing() == old(self).closing(),
            final(self).source() == old(self).source(),
            final(self).sink() == old(self).sink(),
            final(self).bases() == old(self).bases(),
            match verdict_of(old(self).held().len() as usize, outcome, true) {
                Verdict::Continue(have) => {
                    let came = old(self).incoming((have - old(self).held().len()) as nat);
                    let all = old(self).held() + came;
                    &&& final(self).input() == old(self).input() + came
                    &&& if have < HEADER_LEN {
                        &&& next is None
                        &&& final(self).phase() == DecodeState::ReadLength
                        &&& final(self).held() == all
                    } else if le_u32(all) == 0 {
                        &&& next == Some(Ok::<Progress, CodecError>(Progress::Again))
                        &&& final(self).phase() == DecodeState::Eof
                        &&& scan(final(self).input()).phase == Phase::Closed
                    } else {
                        &&& next == Some(Ok::<Progress, CodecError>(Progress::Again))
                        &&& final(self).phase() == DecodeState::ReadBody
                        &&& final(self).wanted() == le_u32(all)
                        &&& final(self).held() == Seq::<u8>::empty()
                    }
                },
                Verdict::Finish => {
                    &&& next == Some(Ok::<Progress, CodecError>(Progress::Again))
                    &&& final(self).phase() == DecodeState::Eof
                    &&& final(self).input() == old(self).input()
                },
                Verdict::Block => next == Some(Ok::<Progress, CodecError>(Progress::NotReady))
                    && *final(self) == *old(self),
                Verdict::Fail(e) => next == Some(Err::<Progress, CodecError>(e)) && *final(self)
                    == *old(self),
            },
    {
        let ghost empty = Seq::<u8>::empty();
        let ghost head = self.buf@.subrange(0, self.cap as int);
        let ghost inp = self.input();
        let ghost before = scan(inp);
        proof {
            assert(taken(self.buf@, self.cap, outcome).len() == 0 ==> taken(
                self.buf@,
                self.cap,
                outcome,
            ) =~= empty);
        }
        match judge(self.cap, outcome, true) {
            Verdict::Continue(cap) => {
                let ghost d = self.buf@.subrange(self.cap as int, cap as int);
                proof {
                    assert(self.buf@.subrange(0, cap as int) =~= head + d);
                    lemma_scan_concat(scan(Seq::<u8>::empty()), inp, d);
                    if cap < HEADER_LEN {
                        lemma_scan_header_part(before, head, d);
                    } else {
                        lemma_scan_header_full(before, head, d);
                        lemma_le_zero(head + d);
                    }
                    if let Some(b) = self.r_base@ {
                        assert(b + (self.seen@ + d) + empty =~= b + self.seen@ + d);
                    }
                }
                self.seen = Ghost(self.seen@ + d);
                self.cap = cap;
                if self.cap < HEADER_LEN {
                    None
                } else {
                    let len: u32 = read_header(self.buf.as_slice());
                    self.data_length = len as usize;
                    self.cap = 0;
                    if len == 0 {
                        self.state = DecodeState::Eof;
                    } else {
                        let ghost sent = self.w.accepted();
                        if self.buf.len() < self.data_length {
                            self.buf.resize(self.data_length, 0);
                        }
                        proof {
                            assert(self.buf@.subrange(0, 0) =~= empty);
                        }
                        self.state = DecodeState::ReadBody;
                    }
                    Some(Ok(Progress::Again))
                }
            },
            Verdict::Finish => {
                proof {
                    assert(head =~= empty);
                }
                self.state = DecodeState::Eof;
                Some(Ok(Progress::Again))
            },
            Verdict::Block => Some(Ok(Progress::NotReady)),
            Verdict::Fail(e) => Some(Err(e)),
        }
    }

    /// Collects the four bytes of a frame header, in as many reads as it
    /// takes and no byte beyond them, and reads the length from them. A
    /// decoder that was told to close, with no header byte in hand, ends at
    /// once. What each read leads to is said of `header_read`.
    #[verifier::rlimit(50)]
    fn read_length(&mut self) -> (r: Result<Progress, CodecError>)
        requires
            old(self).wf(),
            old(self).phase() == DecodeState::ReadLength,
        ensures
            final(self).wf(),
            final(self).closing() == old(self).closing(),
            final(self).sink() == old(self).sink(),
            final(self).output() == old(self).output(),
            final(self).count() == old(self).count(),
            final(self).bases() == old(self).bases(),
            old(self).input().is_prefix_of(final(self).input()),
            final(self).fed(*old(self)),
            old(self).source().to_come() is Some ==> {
                &&& r != Ok::<Progress, CodecError>(Progress::NotReady)
                &&& !(r matches Err(CodecError::Io(_)))
                &&& r is Err ==> final(self).drained()
                &&& final(self).phase() == DecodeState::Eof && !old(self).closing() ==> scan(
                    final(self).input(),
                ).phase == Phase::Closed || final(self).drained()
            },
            old(self).closing() && scan(old(self).input()).phase == Phase::Header(
                Seq::<u8>::empty(),
            ) ==> r == Ok::<Progress, CodecError>(Progress::Again) && final(self).phase()
                == DecodeState::Eof && final(self).source() == old(self).source()
                && final(self).input() == old(self).input(),
            match r {
                Ok(Progress::Again) => final(self).phase() == DecodeState::Eof
                    || final(self).phase() == DecodeState::ReadBody,
                Ok(Progress::NotReady) => final(self).phase() == DecodeState::ReadLength,
                Ok(Progress::Ready(_)) => false,
                Err(CodecError::UnexpectedEof) => final(self).phase() == DecodeState::ReadLength
                    && scan(final(self).input()).phase != Phase::Header(Seq::<u8>::empty()),
                Err(CodecError::Io(_)) => final(self).phase() == DecodeState::ReadLength,
            },
    {
        let ghost empty = Seq::<u8>::empty();
        proof {
            self.lemma_fed_idle(*self);
        }
        if self.closing && self.cap == 0 {
            proof {
                assert(self.buf@.subrange(0, 0) =~= empty);
            }
            self.state = DecodeState::Eof;
            return Ok(Progress::Again);
        }
        assert(scan(self.input()).phase == Phase::Header(empty) ==> self.cap == 0) by {
            assert(self.buf@.subrange(0, self.cap as int).len() == self.cap);
        }
        loop
            invariant
                self.wf(),
                self.phase() == DecodeState::ReadLength,
                self.closing() == old(self).closing(),
                self.sink() == old(self).sink(),
                self.output() == old(self).output(),
                self.count() == old(self).count(),
                self.bases() == old(self).bases(),
                old(self).input().is_prefix_of(self.input()),
                self.fed(*old(self)),
                !(self.closing && scan(old(self).input()).phase == Phase::Header(
                    Seq::<u8>::empty(),
                )),
            decreases HEADER_LEN - self.cap,
        {
            let ghost before = *self;
            let outcome = self.r.read(&mut self.buf, self.cap, HEADER_LEN);
            proof {
                self.lemma_fed_on(*old(self), before, outcome);
                if let Some(left) = before.r.to_come() {
                    assert(outcome == Ok::<usize, TransportError>(0) ==> self.drained());
                }
                assert(self.buf@.subrange(0, self.cap as int) =~= before.buf@.subrange(
                    0,
                    before.cap as int,
                ));
                let lag = taken(self.buf@, self.cap, outcome);
                if let Some(b) = self.r_base@ {
                    assert(b + self.seen@ + lag =~= (b + self.seen@ + Seq::<u8>::empty()) + lag);
                }
            }
            let ghost mid = *self;
            match self.header_read(outcome) {
                Some(r) => {
                    proof {
                        if r == Err::<Progress, CodecError>(CodecError::UnexpectedEof) {
                            assert(mid.held().len() > 0);
                        }
                        self.lemma_fed_step(*old(self), mid, taken(mid.buf@, mid.cap, outcome));
                    }
                    return r;
                },
                None => {
                    proof {
                        self.lemma_fed_step(*old(self), mid, taken(mid.buf@, mid.cap, outcome));
                    }
                },
            }
        }
    }

    /// Takes in what one read for the payload gave. Bytes that came are
    /// added to the collected ones, and the payload goes on to delivery as
    /// soon as it is whole; `None` says that more is to be read. A stream
    /// that has ended here has broken the frame.
    #[verifier::rlimit(50)]
    pub fn body_read(&mut self, outcome: Result<usize, TransportError>) -> (next: Option<
        Result<Progress, CodecError>,
    >)
        requires
            old(self).behind_read(outcome),
            old(self).phase() == DecodeState::ReadBody,
        ensures
            final(self).wf(),
            final(self).output() == old(self).output(),
            final(self).count() == old(self).count(),
            final(self).closing() == old(self).closing(),
            final(self).source() == old(self).source(),
            final(self).sink() == old(self).sink(),
            final(self).bases() == old(self).bases(),
            match verdict_of(old(self).held().len() as usize, outcome, false) {
                Verdict::Continue(have) => {
                    let came = old(self).incoming((have - old(self).held().len()) as nat);
                    &&& final(self).input() == old(self).input() + came
                    &&& if have == old(self).wanted() {
                        &&& next == Some(Ok::<Progress, CodecError>(Progress::Again))
                        &&& final(self).phase() == DecodeState::Deliver
                        &&& final(self).undelivered() == old(self).held() + came
                    } else {
                        &&& next is None
                        &&& final(self).phase() == DecodeState::ReadBody
                        &&& final(self).wanted() == old(self).wanted()
                        &&& final(self).held() == old(self).held() + came
                    }
                },
                Verdict::Finish => false,
                Verdict::Block => next == Some(Ok::<Progress, CodecError>(Progress::NotReady))
                    && *final(self) == *old(self),
                Verdict::Fail(e) => next == Some(Err::<Progress, CodecError>(e)) && *final(self)
                    == *old(self),
            },
    {
        let ghost empty = Seq::<u8>::empty();
        proof {
            assert(taken(self.buf@, self.cap, outcome).len() == 0 ==> taken(
                self.buf@,
                self.cap,
                outcome,
            ) =~= empty);
        }
        match judge(self.cap, outcome, false) {
            Verdict::Continue(cap) => {
                let ghost got = self.buf@.subrange(0, self.cap as int);
                let ghost d = self.buf@.subrange(self.cap as int, cap as int);
                let ghost inp = self.input();
                let ghost need = self.data_length as nat;
                let ghost before = scan(inp);
                proof {
                    assert(self.buf@.subrange(0, cap as int) =~= got + d);
                    lemma_scan_concat(scan(Seq::<u8>::empty()), inp, d);
                    if cap < self.data_length {
                        lemma_scan_body_part(before, need, got, d);
                    } else {
                        lemma_scan_body_full(before, need, got, d);
                    }
                    if let Some(b) = self.r_base@ {
                        assert(b + (self.seen@ + d) + empty =~= b + self.seen@ + d);
                    }
                }
                self.seen = Ghost(self.seen@ + d);
                self.cap = cap;
                if self.cap < self.data_length {
                    None
                } else {
                    self.state = DecodeState::Deliver;
                    self.pos = 0;
                    Some(Ok(Progress::Again))
                }
            },
            Verdict::Finish => Some(Err(CodecError::UnexpectedEof)),
            Verdict::Block => Some(Ok(Progress::NotReady)),
            Verdict::Fail(e) => Some(Err(e)),
        }
    }

    /// Collects the payload of the frame whose header was read: exactly as
    /// many bytes as the header gave, in as many reads as it takes, and no
    /// byte beyond them. What each read leads to is said of `body_read`.
    #[verifier::rlimit(50)]
    fn read(&mut self) -> (r: Result<Progress, CodecError>)
        requires
            old(self).wf(),
            old(self).phase() == DecodeState::ReadBody,
        ensures
            final(self).wf(),
            final(self).closing() == old(self).closing(),
            final(self).sink() == old(self).sink(),
            final(self).output() == old(self).output(),
            final(self).count() == old(self).count(),
            final(self).bases() == old(self).bases(),
            old(self).input().is_prefix_of(final(self).input()),
            final(self).fed(*old(self)),
            old(self).source().to_come() is Some ==> {
                &&& r != Ok::<Progress, CodecError>(Progress::NotReady)
                &&& !(r matches Err(CodecError::Io(_)))
                &&& r is Err ==> final(self).drained()
            },
            match r {
                Ok(Progress::Again) => {
                    &&& final(self).phase() == DecodeState::Deliver
                    &&& final(self).input().len() == old(self).input().len() + old(self).wanted()
                        - old(self).held().len()
                    &&& final(self).undelivered() == old(self).held() + final(self).input().skip(
                        old(self).input().len() as int,
                    )
                },
                Ok(Progress::Ready(_)) => false,
                _ => {
                    &&& final(self).phase() == DecodeState::ReadBody
                    &&& final(self).wanted() == old(self).wanted()
                    &&& final(self).held() == old(self).held() + final(self).input().skip(
                        old(self).input().len() as int,
                    )
                    &&& final(self).held().len() < final(self).wanted()
                },
            },
    {
        proof {
            assert(self.input().skip(self.input().len() as int) =~= Seq::<u8>::empty());
            assert(self.held() + Seq::<u8>::empty() =~= self.held());
            self.lemma_fed_idle(*self);
        }
        loop
            invariant
                self.wf(),
                self.fed(*old(self)),
                self.phase() == DecodeState::ReadBody,
                self.closing() == old(self).closing(),
                self.sink() == old(self).sink(),
                self.output() == old(self).output(),
                self.count() == old(self).count(),
                self.bases() == old(self).bases(),
                self.wanted() == old(self).wanted(),
                old(self).input().is_prefix_of(self.input()),
                self.held() == old(self).held() + self.input().skip(
                    old(self).input().len() as int,
                ),
            decreases self.data_length - self.cap,
        {
            let ghost before = *self;
            let outcome = self.r.read(&mut self.buf, self.cap, self.data_length);
            proof {
                self.lemma_fed_on(*old(self), before, outcome);
                if let Some(left) = before.r.to_come() {
                    assert(outcome == Ok::<usize, TransportError>(0) ==> self.drained());
                }
                assert(self.buf@.subrange(0, self.cap as int) =~= before.buf@.subrange(
                    0,
                    before.cap as int,
                ));
                let lag = taken(self.buf@, self.cap, outcome);
                if let Some(b) = self.r_base@ {
                    assert(b + self.seen@ + lag =~= (b + self.seen@ + Seq::<u8>::empty()) + lag);
                }
            }
            let ghost mid = *self;
            match self.body_read(outcome) {
                Some(r) => {
                    proof {
                        self.lemma_fed_step(*old(self), mid, taken(mid.buf@, mid.cap, outcome));
                        let base = old(self).input().len() as int;
                        if r == Ok::<Progress, CodecError>(Progress::Again) {
                            let n = outcome->Ok_0 as nat;
                            assert(self.input().skip(base) =~= mid.input().skip(base)
                                + mid.incoming(n));
                            assert(self.undelivered() =~= old(self).held() + self.input().skip(
                                base,
                            ));
                        }
                    }
                    return r;
                },
                None => {
                    proof {
                        self.lemma_fed_step(*old(self), mid, taken(mid.buf@, mid.cap, outcome));
                        let base = old(self).input().len() as int;
                        let n = outcome->Ok_0 as nat;
                        assert(self.input().skip(base) =~= mid.input().skip(base) + mid.incoming(
                            n,
                        ));
                        assert(self.held() =~= old(self).held() + self.input().skip(base));
                    }
                },
            }
        }
    }

    /// Takes in what one write of the collected payload gave. Bytes that
    /// the sink took are counted, and the decoder goes back to reading as
    /// soon as the payload is delivered whole; `None` says that more is to
    /// be written. A sink that took nothing is an error.
    #[verifier::rlimit(50)]
    pub fn payload_written(&mut self, outcome: Result<usize, TransportError>) -> (next: Option<
        Result<Progress, CodecError>,
    >)
        requires
            old(self).behind_write(outcome),
        ensures
            final(self).wf(),
            final(self).input() == old(self).input(),
            final(self).closing() == old(self).closing(),
            final(self).source() == old(self).source(),
            final(self).sink() == old(self).sink(),
            final(self).bases() == old(self).bases(),
            match verdict_of(0, outcome, false) {
                Verdict::Continue(n) => {
                    &&& final(self).output() == old(self).output()
                        + old(self).undelivered().subrange(0, n as int)
                    &&& final(self).count() == wrap64(old(self).count() + n)
                    &&& if n == old(self).undelivered().len() {
                        &&& next == Some(Ok::<Progress, CodecError>(Progress::Again))
                        &&& final(self).phase() == DecodeState::ReadLength
                        &&& final(self).held() == Seq::<u8>::empty()
                    } else {
                        &&& next is None
                        &&& final(self).phase() == DecodeState::Deliver
                        &&& final(self).undelivered() == old(self).undelivered().skip(n as int)
                    }
                },
                Verdict::Finish => false,
                Verdict::Block => next == Some(Ok::<Progress, CodecError>(Progress::NotReady))
                    && *final(self) == *old(self),
                Verdict::Fail(e) => next == Some(Err::<Progress, CodecError>(e)) && *final(self)
                    == *old(self),
            },
    {
        let ghost empty = Seq::<u8>::empty();
        proof {
            assert(taken(self.buf@, self.pos, outcome).len() == 0 ==> taken(
                self.buf@,
                self.pos,
                outcome,
            ) =~= empty);
        }
        match judge(self.pos, outcome, false) {
            Verdict::Continue(pos) => {
                let ghost rest = self.buf@.subrange(self.pos as int, self.cap as int);
                let ghost d = rest.subrange(0, pos - self.pos);
                let ghost out = self.output();
                proof {
                    assert(d =~= self.buf@.subrange(self.pos as int, pos as int));
                    assert(out + rest =~= (out + d) + self.buf@.subrange(
                        pos as int,
                        self.cap as int,
                    ));
                    assert(rest.skip(pos - self.pos) =~= self.buf@.subrange(
                        pos as int,
                        self.cap as int,
                    ));
                    lemma_wrap_add(out.len() as int, (pos - self.pos) as int);
                    if let Some(b) = self.w_base@ {
                        assert(b + (self.sent@ + d) + empty =~= b + self.sent@ + d);
                    }
                }
                self.sent = Ghost(self.sent@ + d);
                self.amt = count_add(self.amt, pos - self.pos);
                self.pos = pos;
                if self.pos < self.cap {
                    None
                } else {
                    proof {
                        assert(self.buf@.subrange(self.pos as int, self.cap as int) =~= empty);
                        assert(out + rest =~= self.output());
                        assert(self.buf@.subrange(0, 0) =~= empty);
                    }
                    self.state = DecodeState::ReadLength;
                    self.cap = 0;
                    self.pos = 0;
                    Some(Ok(Progress::Again))
                }
            },
            Verdict::Finish => Some(Err(CodecError::UnexpectedEof)),
            Verdict::Block => Some(Ok(Progress::NotReady)),
            Verdict::Fail(e) => Some(Err(e)),
        }
    }

    /// Writes the collected payload to the sink, in as many writes as it
    /// takes, each offering what is left of it. What each write leads to is
    /// said of `payload_written`.
    #[verifier::rlimit(50)]
    fn read_done(&mut self) -> (r: Result<Progress, CodecError>)
        requires
            old(self).wf(),
            old(self).phase() == DecodeState::Deliver,
        ensures
            final(self).wf(),
            final(self).closing() == old(self).closing(),
            final(self).source() == old(self).source(),
            final(self).input() == old(self).input(),
            final(self).bases() == old(self).bases(),
            final(self).sink().flushes() == old(self).sink().flushes(),
            final(self).sink().steady() == old(self).sink().steady(),
            old(self).sink().steady() ==> r == Ok::<Progress, CodecError>(Progress::Again),
            old(self).output().is_prefix_of(final(self).output()),
            final(self).output() + final(self).undelivered() == old(self).output()
                + old(self).undelivered(),
            final(self).count() == wrap64(
                old(self).count() + final(self).output().len() - old(self).output().len(),
            ),
            match r {
                Ok(Progress::Again) => final(self).phase() == DecodeState::ReadLength
                    && final(self).output() == old(self).output() + old(self).undelivered(),
                Ok(Progress::Ready(_)) => false,
                _ => final(self).phase() == DecodeState::Deliver,
            },
    {
        let ghost total = self.output() + self.undelivered();
        loop
            invariant
                self.wf(),
                self.phase() == DecodeState::Deliver,
                self.closing() == old(self).closing(),
                self.source() == old(self).source(),
                self.input() == old(self).input(),
                self.bases() == old(self).bases(),
                self.sink().flushes() == old(self).sink().flushes(),
                self.sink().steady() == old(self).sink().steady(),
                old(self).output().is_prefix_of(self.output()),
                total == old(self).output() + old(self).undelivered(),
                total == self.output() + self.undelivered(),
                self.count() == wrap64(
                    old(self).count() + self.output().len() - old(self).output().len(),
                ),
            decreases self.cap - self.pos,
        {
            let ghost before = *self;
            let outcome = self.w.write(slice_subrange(self.buf.as_slice(), self.pos, self.cap));
            proof {
                let offered = self.buf@.subrange(self.pos as int, self.cap as int);
                let lag = taken(self.buf@, self.pos, outcome);
                assert(taken(offered, 0, outcome) =~= lag);
                if let Some(b) = self.w_base@ {
                    assert(b + self.sent@ + lag =~= (b + self.sent@ + Seq::<u8>::empty()) + lag);
                }
            }
            match self.payload_written(outcome) {
                Some(r) => {
                    proof {
                        lemma_wrap_add(
                            old(self).count() + before.output().len() - old(self).output().len(),
                            self.output().len() - before.output().len(),
                        );
                        if r == Ok::<Progress, CodecError>(Progress::Again) {
                            let n = outcome->Ok_0 as int;
                            assert(before.undelivered().subrange(0, n)
                                =~= before.undelivered());
                            assert(self.undelivered() =~= Seq::<u8>::empty());
                            assert(self.output() + self.undelivered() =~= self.output());
                        }
                    }
                    return r;
                },
                None => {
                    proof {
                        lemma_wrap_add(
                            old(self).count() + before.output().len() - old(self).output().len(),
                            self.output().len() - before.output().len(),
                        );
                        let n = outcome->Ok_0 as int;
                        let u = before.undelivered();
                        assert(before.output() + u =~= (before.output() + u.subrange(0, n))
                            + u.skip(n));
                    }
                },
            }
        }
    }

    /// Advances the copy by one state: collects a header, collects a
    /// payload, delivers a payload, or, at the end, flushes the sink and
    /// reports the count. `Again` means that the state changed and the next
    /// call has work to do; `NotReady` that the transport would block.
    ///
    /// Whatever the transport does, the sink is offered just the payload of
    /// complete frames, each byte once and in order, and the source is
    /// asked for no byte beyond the frame in hand. What each outcome of the
    /// transport leads to is said of `header_read`, `body_read`,
    /// `payload_written` and `judge_flush`.
    #[verifier::rlimit(50)]
    pub fn advance(&mut self) -> (r: Result<Progress, CodecError>)
        requires
            old(self).wf(),
        ensures
            final(self).wf(),
            final(self).faithful(),
            final(self).carries(*old(self)),
            final(self).steadily(*old(self), r),
            old(self).steady() && r == Ok::<Progress, CodecError>(Progress::Again)
                ==> final(self).effort() < old(self).effort(),
            final(self).sink().flushes() == flushes_after(old(self).sink().flushes(), r),
            final(self).bases() == old(self).bases(),
            final(self).closing() == old(self).closing(),
            old(self).input().is_prefix_of(final(self).input()),
            old(self).output().is_prefix_of(final(self).output()),
            old(self).phase() == DecodeState::ReadLength || old(self).phase()
                == DecodeState::ReadBody ==> final(self).sink() == old(self).sink()
                && final(self).output() == old(self).output(),
            old(self).phase() == DecodeState::Deliver || old(self).phase() == DecodeState::Eof
                ==> final(self).source() == old(self).source()
                    && final(self).input() == old(self).input(),
            old(self).phase() == DecodeState::Eof ==> final(self).output() == old(self).output(),
            old(self).phase() == DecodeState::ReadLength && old(self).closing() && scan(
                old(self).input(),
            ).phase == Phase::Header(Seq::<u8>::empty()) ==> r == Ok::<Progress, CodecError>(
                Progress::Again,
            ) && final(self).phase() == DecodeState::Eof
                && final(self).source() == old(self).source()
                && final(self).input() == old(self).input(),
            match r {
                Ok(Progress::Ready(n)) => old(self).phase() == DecodeState::Eof
                    && final(self).phase() == DecodeState::Eof && n == final(self).count(),
                Ok(Progress::NotReady) => final(self).phase() == old(self).phase(),
                Ok(Progress::Again) => match old(self).phase() {
                    DecodeState::ReadLength => final(self).phase() == DecodeState::Eof
                        || final(self).phase() == DecodeState::ReadBody,
                    DecodeState::ReadBody => final(self).phase() == DecodeState::Deliver,
                    DecodeState::Deliver => final(self).phase() == DecodeState::ReadLength,
                    DecodeState::Eof => false,
                },
                Err(CodecError::UnexpectedEof) => final(self).phase() == old(self).phase()
                    && old(self).phase() != DecodeState::Eof
                    && (old(self).phase() == DecodeState::ReadLength
                    ==> scan(final(self).input()).phase != Phase::Header(Seq::<u8>::empty())),
                Err(CodecError::Io(_)) => final(self).phase() == old(self).phase(),
            },
    {
        let r = match self.state {
            DecodeState::Eof => {
                let flushed = self.w.flush();
                judge_flush(self.amt, flushed)
            },
            DecodeState::ReadLength => self.read_length(),
            DecodeState::ReadBody => self.read(),
            DecodeState::Deliver => self.read_done(),
        };
        proof {
            self.lemma_faithful();
            old(self).lemma_faithful();
            self.lemma_carries(*old(self));
            if self.input().len() == old(self).input().len() {
                assert(self.input() =~= old(self).input());
            }
            if old(self).phase() == DecodeState::Deliver || old(self).phase()
                == DecodeState::Eof {
                self.lemma_fed_idle(*old(self));
            }
        }
        r
    }

    /// Advances the copy until it is complete, the transport would block,
    /// or an error occurs, but by `budget` states at most, so that a long
    /// stream does not keep the caller for ever. `Again` says that the
    /// budget is used up and the copy can go on.
    #[verifier::rlimit(50)]
    pub fn poll(&mut self, budget: usize) -> (r: Result<Progress, CodecError>)
        requires
            old(self).wf(),
        ensures
            final(self).wf(),
            final(self).faithful(),
            final(self).carries(*old(self)),
            final(self).steadily(*old(self), r),
            old(self).steady() && budget > 0 && r == Ok::<Progress, CodecError>(Progress::Again)
                ==> final(self).effort() < old(self).effort(),
            final(self).sink().flushes() == flushes_after(old(self).sink().flushes(), r),
            final(self).bases() == old(self).bases(),
            final(self).closing() == old(self).closing(),
            old(self).input().is_prefix_of(final(self).input()),
            old(self).output().is_prefix_of(final(self).output()),
            budget == 0 ==> r == Ok::<Progress, CodecError>(Progress::Again) && *final(self)
                == *old(self),
            budget > 0 && old(self).phase() == DecodeState::ReadLength && old(self).closing()
                && scan(old(self).input()).phase == Phase::Header(Seq::<u8>::empty())
                ==> final(self).phase() == DecodeState::Eof
                    && final(self).input() == old(self).input()
                    && final(self).output() == old(self).output(),
            old(self).phase() == DecodeState::Eof ==> final(self).phase() == DecodeState::Eof
                && final(self).input() == old(self).input()
                    && final(self).output() == old(self).output(),
            match r {
                Ok(Progress::Ready(n)) => final(self).phase() == DecodeState::Eof
                    && n == final(self).count(),
                Ok(Progress::NotReady) => budget > 0,
                Ok(Progress::Again) => true,
                Err(CodecError::UnexpectedEof) => budget > 0 && final(self).phase()
                    != DecodeState::Eof && (final(self).phase() == DecodeState::ReadLength
                    ==> scan(final(self).input()).phase != Phase::Header(Seq::<u8>::empty())),
                Err(CodecError::Io(_)) => budget > 0,
            },
    {
        let mut left: usize = budget;
        proof {
            self.lemma_faithful();
            self.lemma_carries(*old(self));
            self.lemma_fed_idle(*self);
        }
        while left > 0
            invariant
                old(self).wf(),
                self.wf(),
                self.steadily(*old(self), Ok(Progress::Again)),
                old(self).steady() && left < budget ==> self.effort() < old(self).effort(),
                self.faithful(),
                self.bases() == old(self).bases(),
                self.sink().flushes() == old(self).sink().flushes(),
                left <= budget,
                self.closing() == old(self).closing(),
                old(self).input().is_prefix_of(self.input()),
                old(self).output().is_prefix_of(self.output()),
                left < budget && old(self).phase() == DecodeState::ReadLength
                    && old(self).closing()
                    && scan(old(self).input()).phase == Phase::Header(Seq::<u8>::empty())
                    ==> self.phase() == DecodeState::Eof && self.input() == old(self).input()
                    && self.output() == old(self).output(),
                left == budget ==> *self == *old(self),
                old(self).phase() == DecodeState::Eof ==> self.phase() == DecodeState::Eof
                    && self.input() == old(self).input() && self.output() == old(self).output(),
            decreases left,
        {
            let ghost before = *self;
            let r = self.advance();
            proof {
                self.lemma_carries(*old(self));
                if old(self).steady() {
                    self.lemma_fed_twice(before, *old(self));
                }
                if before.phase() == DecodeState::Eof {
                    assert(self.input() =~= before.input());
                }
            }
            match r {
                Ok(Progress::Again) => {
                    left = left - 1;
                },
                _ => {
                    return r;
                },
            }
        }
        proof {
            self.lemma_carries(*old(self));
        }
        Ok(Progress::Again)
    }

    /// The count of payload bytes given to the sink so far.
    pub fn amount(&self) -> (n: u64)
        ensures
            n == self.count(),
    {
        self.amt
    }

    /// The state the decoder is in.
    pub fn state(&self) -> (s: DecodeState)
        ensures
            s == self.phase(),
    {
        self.state
    }

    /// Gives the source and the sink back.
    pub fn into_inner(self) -> (parts: (R, W))
        ensures
            parts.0 == self.source(),
            parts.1 == self.sink(),
    {
        (self.r, self.w)
    }

    /// Tells the decoder to stop at the next frame boundary instead of
    /// waiting for more input.
    pub fn close(self) -> (d: TunnelCopyDecode<R, W>)
        requires
            self.wf(),
        ensures
            d.wf(),
            d.faithful() == self.faithful(),
            d.closing(),
            d.source() == self.source(),
            d.sink() == self.sink(),
            d.input() == self.input(),
            d.output() == self.output(),
            d.phase() == self.phase(),
            d.count() == self.count(),
            d.undelivered() == self.undelivered(),
            d.held() == self.held(),
            d.wanted() == self.wanted(),
    {
        let mut d = self;
        d.closing = true;
        d
    }
}

/// A decoder that copies the payload of the frames in `r` to `w`.
pub fn copy_decode<R: ByteSource, W: ByteSink>(r: R, w: W) -> (d: TunnelCopyDecode<R, W>)
    ensures
        d.wf(),
        d.faithful(),
        d.source() == r,
        d.sink() == w,
        d.input() == Seq::<u8>::empty(),
        d.output() == Seq::<u8>::empty(),
        d.phase() == DecodeState::ReadLength,
        !d.closing(),
        d.count() == 0,
{
    TunnelCopyDecode::new(r, w)
}

/// The states of the encoder.
#[derive(Clone, Copy, Debug, PartialEq, Eq, Structural)]
pub enum EncodeState {
    /// Reading the next chunk of payload from the source.
    ReadSource,
    /// Writing a frame with payload to the sink.
    WriteFrame,
    /// Writing the frame that closes the stream.
    WriteEofFrame,
    /// The close signal is on the wire; only the flush is left.
    Eof,
}

/// How many of the first `pos` bytes of a frame are payload.
pub open spec fn payload_part(pos: int) -> int {
    if pos > HEADER_LEN {
        pos - HEADER_LEN
    } else {
        0
    }
}

/// Reads payload from a source and copies it, framed, to a sink.
pub struct TunnelCopyEncode<R: ByteSource, W: ByteSink> {
    r: R,
    w: W,
    buf: Vec<u8>,
    cap: usize,
    pos: usize,
    state: EncodeState,
    amt: u64,
    closing: bool,
    seen: Ghost<Seq<u8>>,
    sent: Ghost<Seq<u8>>,
    log: Ghost<Seq<Seq<u8>>>,
    r_base: Ghost<Option<Seq<u8>>>,
    w_base: Ghost<Option<Seq<u8>>>,
}

impl<R: ByteSource, W: ByteSink> TunnelCopyEncode<R, W> {
    /// The source as it stands.
    pub closed spec fn source(&self) -> R {
        self.r
    }

    /// The sink as it stands.
    pub closed spec fn sink(&self) -> W {
        self.w
    }

    /// The payload bytes taken from the source since the encoder was made.
    pub closed spec fn input(&self) -> Seq<u8> {
        self.seen@
    }

    /// The wire bytes given to the sink since the encoder was made.
    pub closed spec fn output(&self) -> Seq<u8> {
        self.sent@
    }

    /// The payloads of the frames made so far, one for each read that gave
    /// bytes, in order.
    pub closed spec fn chunks(&self) -> Seq<Seq<u8>> {
        self.log@
    }

    /// The state the encoder is in.
    pub closed spec fn phase(&self) -> EncodeState {
        self.state
    }

    /// Whether the encoder was told to close.
    pub closed spec fn closing(&self) -> bool {
        self.closing
    }

    /// The running count of payload bytes given to the sink.
    pub closed spec fn count(&self) -> u64 {
        self.amt
    }

    /// The `n` bytes that a read has just put into the frame's payload.
    pub closed spec fn incoming(&self, n: nat) -> Seq<u8> {
        self.buf@.subrange(HEADER_LEN as int, HEADER_LEN + n)
    }

    /// The wire bytes of the current frame that the sink has not taken yet.
    pub closed spec fn unsent(&self) -> Seq<u8> {
        if self.state == EncodeState::WriteFrame || self.state == EncodeState::WriteEofFrame {
            self.buf@.subrange(self.pos as int, self.cap as int)
        } else {
            Seq::empty()
        }
    }

    /// How many payload bytes of the current frame the sink has not taken yet.
    pub closed spec fn unsent_payload(&self) -> int {
        if self.state == EncodeState::WriteFrame {
            (self.cap - HEADER_LEN) - payload_part(self.pos as int)
        } else {
            0
        }
    }

    /// The histories of the source and of the sink as they were when the
    /// encoder was made, where they keep them.
    pub closed spec fn bases(&self) -> (Option<Seq<u8>>, Option<Seq<u8>>) {
        (self.r_base@, self.w_base@)
    }

    /// Whether the close signal is prepared or written.
    pub open spec fn ended(&self) -> bool {
        self.phase() == EncodeState::WriteEofFrame || self.phase() == EncodeState::Eof
    }

    spec fn base_ok(&self) -> bool {
        &&& self.buf.len() == CHUNK_LEN + HEADER_LEN
        &&& self.output() + self.unsent() == framed(self.log@, self.ended())
        &&& joined(self.log@) == self.input()
        &&& forall|i: int| 0 <= i < self.log@.len()
            ==> 0 < (#[trigger] self.log@[i]).len() <= CHUNK_LEN
    }

    spec fn sound(&self) -> bool {
        let sc = scan(self.output() + self.unsent());
        &&& self.base_ok()
        &&& self.amt == wrap64(self.input().len() - self.unsent_payload())
        &&& sc.done == self.input()
        &&& match self.state {
            EncodeState::ReadSource => {
                &&& self.cap == 0
                &&& self.pos == 0
                &&& sc.phase == Phase::Header(Seq::<u8>::empty())
            },
            EncodeState::WriteFrame => {
                &&& self.pos < self.cap <= self.buf.len()
                &&& self.cap > HEADER_LEN
                &&& self.cap - HEADER_LEN <= self.input().len()
                &&& sc.phase == Phase::Header(Seq::<u8>::empty())
            },
            EncodeState::WriteEofFrame => {
                &&& self.pos < self.cap == HEADER_LEN
                &&& sc.phase == Phase::Closed
            },
            EncodeState::Eof => sc.phase == Phase::Closed,
        }
    }

    spec fn tied(&self, lag_in: Seq<u8>, lag_out: Seq<u8>) -> bool {
        &&& self.r.handed_out() == (match self.r_base@ {
            Some(b) => Some(b + self.seen@ + lag_in),
            None => None,
        })
        &&& self.w.accepted() == (match self.w_base@ {
            Some(b) => Some(b + self.sent@ + lag_out),
            None => None,
        })
    }

    /// The encoder's invariant: its buffer and counters agree with what it
    /// has taken from the source and given to the sink, and where the
    /// source and the sink keep their histories, these have grown by just
    /// those bytes.
    pub closed spec fn wf(&self) -> bool {
        self.sound() && self.tied(Seq::empty(), Seq::empty())
    }

    /// The encoder right behind a read of its source with the given
    /// outcome: the bytes that came lie in the frame's payload and are not
    /// taken in yet.
    pub closed spec fn behind_read(&self, outcome: Result<usize, TransportError>) -> bool {
        &&& self.sound()
        &&& self.state == EncodeState::ReadSource
        &&& outcome matches Ok(n) ==> n <= CHUNK_LEN
        &&& self.tied(taken(self.buf@, HEADER_LEN, outcome), Seq::empty())
    }

    /// The encoder right behind a write of the unsent part of its frame to
    /// its sink with the given outcome: the bytes that the sink took are
    /// not counted yet.
    pub closed spec fn behind_write(&self, outcome: Result<usize, TransportError>) -> bool {
        &&& self.sound()
        &&& self.state == EncodeState::WriteFrame || self.state == EncodeState::WriteEofFrame
        &&& outcome matches Ok(n) ==> self.pos + n <= self.cap
        &&& self.tied(Seq::empty(), taken(self.buf@, self.pos, outcome))
    }

    /// What has reached the transports since `before`: where the source
    /// keeps its history, it has handed out just the bytes by which the
    /// input grew, and where the sink keeps its history, it has accepted
    /// just the bytes by which the output grew.
    pub open spec fn carries(&self, before: Self) -> bool {
        &&& before.source().handed_out() matches Some(h) ==> self.source().handed_out() == Some(
            h + self.input().skip(before.input().len() as int),
        )
        &&& before.sink().accepted() matches Some(a) ==> self.sink().accepted() == Some(
            a + self.output().skip(before.output().len() as int),
        )
    }

    /// Whether the source has promised what is still to come and the sink
    /// to take what it is offered: then nothing blocks and nothing fails.
    pub open spec fn steady(&self) -> bool {
        self.source().to_come() is Some && self.sink().steady()
    }

    /// Whether a source that promised what is to come has nothing left.
    pub open spec fn drained(&self) -> bool {
        self.source().to_come() matches Some(rest) && rest.len() == 0
    }

    /// What a source that promised what is to come has left since
    /// `before`: all but the bytes by which the input grew.
    pub open spec fn fed(&self, before: Self) -> bool {
        before.source().to_come() matches Some(rest) ==> {
            let n = self.input().len() - before.input().len();
            &&& n <= rest.len()
            &&& self.source().to_come() == Some(rest.skip(n))
            &&& self.input().skip(before.input().len() as int) == rest.subrange(0, n)
        }
    }

    /// The chunks of the whole copy where the source promises what is to
    /// come and hands out as much as it is asked for: those that were read,
    /// and behind them what is to come in stretches of 2048 bytes.
    pub open spec fn plan(&self) -> Seq<Seq<u8>> {
        match self.source().to_come() {
            Some(rest) => self.chunks() + split(rest, CHUNK_LEN as nat),
            None => self.chunks(),
        }
    }

    /// A bound on the states that a copy over steady transports still has
    /// to go through: it falls with every state that is left behind.
    pub open spec fn effort(&self) -> nat {
        let rank: nat = match self.phase() {
            EncodeState::Eof => 0,
            EncodeState::WriteEofFrame => 1,
            EncodeState::ReadSource => 2,
            EncodeState::WriteFrame => 3,
        };
        match self.source().to_come() {
            Some(rest) => 2 * rest.len() + rank,
            None => rank,
        }
    }

    /// What a call that gave `r` has done since `before` where the
    /// transports are steady. It has not been held up and has met no
    /// error; it has prepared the close signal, unless told to, only at the
    /// end of the source; and where the source hands out as much as it is
    /// asked for, the chunks are those of the plan.
    pub open spec fn steadily(&self, before: Self, r: Result<Progress, CodecError>) -> bool {
        before.steady() ==> {
            &&& self.steady()
            &&& self.fed(before)
            &&& r is Ok
            &&& r != Ok::<Progress, CodecError>(Progress::NotReady)
            &&& self.ended() && !before.ended() && !before.closing() ==> self.drained()
            &&& before.source().greedy() ==> self.source().greedy() && self.plan()
                == before.plan()
        }
    }

    /// What the encoder owes its caller at all times. The wire bytes that
    /// it has written and prepared are one frame for each chunk that it
    /// read, in order, and behind them the close signal once that is
    /// prepared; the chunks, each of one byte at least and 2048 at most,
    /// make up the payload that it has read; so the wire bytes decode to
    /// that payload; and the count is the length of the payload that the
    /// sink has taken.
    pub open spec fn faithful(&self) -> bool {
        let sc = scan(self.output() + self.unsent());
        &&& self.output() + self.unsent() == framed(self.chunks(), self.ended())
        &&& joined(self.chunks()) == self.input()
        &&& forall|i: int|
            0 <= i < self.chunks().len() ==> 0 < (#[trigger] self.chunks()[i]).len() <= CHUNK_LEN
        &&& sc.done == self.input()
        &&& sc.phase == (if self.ended() {
            Phase::Closed
        } else {
            Phase::Header(Seq::<u8>::empty())
        })
        &&& self.count() == wrap64(self.input().len() - self.unsent_payload())
        &&& 0 <= self.unsent_payload() <= self.unsent().len()
        &&& self.phase() == EncodeState::ReadSource || self.phase() == EncodeState::Eof
            ==> self.unsent().len() == 0
    }

    /// The invariant gives what the encoder owes.
    pub proof fn lemma_faithful(self)
        requires
            self.wf(),
        ensures
            self.faithful(),
    {
    }

    proof fn lemma_carries(self, before: Self)
        requires
            before.wf(),
            self.wf(),
            self.bases() == before.bases(),
            before.input().is_prefix_of(self.input()),
            before.output().is_prefix_of(self.output()),
        ensures
            self.carries(before),
    {
        let more_in = self.input().skip(before.input().len() as int);
        let more_out = self.output().skip(before.output().len() as int);
        assert(self.input() =~= before.input() + more_in);
        assert(self.output() =~= before.output() + more_out);
        let e = Seq::<u8>::empty();
        if let Some(b) = self.r_base@ {
            assert(b + self.seen@ + e =~= (b + before.seen@ + e) + more_in);
        }
        if let Some(b) = self.w_base@ {
            assert(b + self.sent@ + e =~= (b + before.sent@ + e) + more_out);
        }
    }

    /// A call that has left the source, the input and the chunks alone has
    /// left what was to come, and the plan.
    pub proof fn lemma_fed_idle(self, before: Self)
        requires
            self.source() == before.source(),
            self.input() == before.input(),
            self.chunks() == before.chunks(),
        ensures
            self.fed(before),
            self.plan() == before.plan(),
    {
        if let Some(all) = before.source().to_come() {
            assert(all.skip(0) =~= all);
            assert(self.input().skip(before.input().len() as int) =~= all.subrange(0, 0));
        }
    }

    /// What is left of what was to come adds up over two calls.
    pub proof fn lemma_fed_twice(self, mid: Self, start: Self)
        requires
            mid.fed(start),
            self.fed(mid),
            start.input().is_prefix_of(mid.input()),
            mid.input().is_prefix_of(self.input()),
        ensures
            self.fed(start),
    {
        if let Some(all) = start.source().to_come() {
            let a = mid.input().len() - start.input().len();
            let b = self.input().len() - mid.input().len();
            let base = start.input().len() as int;
            assert(all.skip(a).skip(b) =~= all.skip(a + b));
            assert(all.skip(a).subrange(0, b) =~= all.subrange(a, a + b));
            assert(self.input().skip(base) =~= mid.input().skip(base) + self.input().skip(
                mid.input().len() as int,
            ));
            assert(all.subrange(0, a) + all.subrange(a, a + b) =~= all.subrange(0, a + b));
        }
    }

    /// An encoder that has read and written nothing yet.
    pub fn new(r: R, w: W) -> (e: TunnelCopyEncode<R, W>)
        ensures
            e.wf(),
            e.faithful(),
            e.source() == r,
            e.sink() == w,
            e.input() == Seq::<u8>::empty(),
            e.output() == Seq::<u8>::empty(),
            e.chunks() == Seq::<Seq<u8>>::empty(),
            e.phase() == EncodeState::ReadSource,
            !e.closing(),
            e.count() == 0,
    {
        let ghost rb = r.handed_out();
        let ghost wb = w.accepted();
        let e = TunnelCopyEncode {
            r: r,
            w: w,
            buf: vec![0u8; CHUNK_LEN + HEADER_LEN],
            cap: 0,
            pos: 0,
            state: EncodeState::ReadSource,
            amt: 0,
            closing: false,
            seen: Ghost(Seq::empty()),
            sent: Ghost(Seq::empty()),
            log: Ghost(Seq::empty()),
            r_base: Ghost(rb),
            w_base: Ghost(wb),
        };
        proof {
            let none = Seq::<u8>::empty();
            assert(e.input() =~= none);
            assert(e.output() =~= none);
            assert(e.output() + e.unsent() =~= none);
            assert(framed(e.log@, false) =~= none);
            if let Some(b) = rb {
                assert(b + none + none =~= b);
            }
            if let Some(b) = wb {
                assert(b + none + none =~= b);
            }
        }
        e
    }

    /// Takes in what one read of the source gave. Bytes that came become
    /// the payload of a frame, with their number in front of them; a source
    /// that has ended is answered with the close signal.
    #[verifier::rlimit(50)]
    pub fn source_read(&mut self, outcome: Result<usize, TransportError>) -> (r: Result<
        Progress,
        CodecError,
    >)
        requires
            old(self).behind_read(outcome),
        ensures
            final(self).wf(),
            final(self).output() == old(self).output(),
            final(self).closing() == old(self).closing(),
            final(self).source() == old(self).source(),
            final(self).sink() == old(self).sink(),
            final(self).bases() == old(self).bases(),
            match verdict_of(0, outcome, true) {
                Verdict::Continue(n) => {
                    let chunk = old(self).incoming(n as nat);
                    &&& r == Ok::<Progress, CodecError>(Progress::Again)
                    &&& final(self).phase() == EncodeState::WriteFrame
                    &&& final(self).input() == old(self).input() + chunk
                    &&& final(self).chunks() == old(self).chunks().push(chunk)
                    &&& final(self).unsent() == frame(chunk)
                },
                Verdict::Finish => {
                    &&& r == Ok::<Progress, CodecError>(Progress::Again)
                    &&& final(self).phase() == EncodeState::WriteEofFrame
                    &&& final(self).input() == old(self).input()
                    &&& final(self).chunks() == old(self).chunks()
                    &&& final(self).unsent() == close_frame()
                },
                Verdict::Block => r == Ok::<Progress, CodecError>(Progress::NotReady)
                    && *final(self) == *old(self),
                Verdict::Fail(e) => r == Err::<Progress, CodecError>(e)
                    && *final(self) == *old(self),
            },
    {
        let ghost none = Seq::<u8>::empty();
        let ghost wire = self.output();
        let ghost inp = self.input();
        let ghost log = self.log@;
        proof {
            assert(self.output() + self.unsent() =~= wire);
            assert(taken(self.buf@, HEADER_LEN, outcome).len() == 0 ==> taken(
                self.buf@,
                HEADER_LEN,
                outcome,
            ) =~= none);
        }
        match judge(0, outcome, true) {
            Verdict::Continue(n) => {
                let ghost chunk = self.buf@.subrange(HEADER_LEN as int, HEADER_LEN + n);
                proof {
                    if let Some(b) = self.r_base@ {
                        assert(b + (self.seen@ + chunk) + none =~= b + self.seen@ + chunk);
                    }
                }
                self.seen = Ghost(self.seen@ + chunk);
                self.log = Ghost(self.log@.push(chunk));
                write_header(&mut self.buf, n as u32);
                self.cap = n + HEADER_LEN;
                self.pos = 0;
                self.state = EncodeState::WriteFrame;
                proof {
                    lemma_le_round_trip(n as u32);
                    assert(self.input() =~= inp + chunk);
                    assert(self.unsent() =~= frame(chunk));
                    assert(self.output() + self.unsent() =~= wire + frame(chunk));
                    lemma_scan_concat(scan(Seq::<u8>::empty()), wire, frame(chunk));
                    lemma_scan_frame(scan(wire), chunk);
                    assert(log.push(chunk).drop_last() =~= log);
                    assert(framed(log, false) + none =~= framed(log, false));
                    assert(framed(log.push(chunk), false) =~= framed(log, false) + frame(chunk));
                    lemma_wrap_add(inp.len() as int, 0);
                }
                Ok(Progress::Again)
            },
            Verdict::Finish => {
                write_header(&mut self.buf, 0);
                self.cap = HEADER_LEN;
                self.pos = 0;
                self.state = EncodeState::WriteEofFrame;
                proof {
                    lemma_le_round_trip(0);
                    assert(self.unsent() =~= close_frame());
                    lemma_scan_concat(scan(Seq::<u8>::empty()), wire, close_frame());
                    lemma_scan_close_frame(scan(wire));
                    assert(framed(log, false) =~= frames(log) + none);
                    assert(frames(log) + none =~= frames(log));
                }
                Ok(Progress::Again)
            },
            Verdict::Block => Ok(Progress::NotReady),
            Verdict::Fail(e) => Err(e),
        }
    }

    /// Reads the next chunk of payload, 2048 bytes at most, and puts its
    /// length in front of it. An encoder that was told to close reads
    /// nothing and prepares the close signal. What the read leads to is
    /// said of `source_read`.
    #[verifier::rlimit(50)]
    fn read(&mut self) -> (r: Result<Progress, CodecError>)
        requires
            old(self).wf(),
            old(self).phase() == EncodeState::ReadSource,
        ensures
            final(self).wf(),
            final(self).closing() == old(self).closing(),
            final(self).sink() == old(self).sink(),
            final(self).output() == old(self).output(),
            final(self).bases() == old(self).bases(),
            old(self).chunks().is_prefix_of(final(self).chunks()),
            old(self).input().is_prefix_of(final(self).input()),
            final(self).fed(*old(self)),
            final(self).source().greedy() == old(self).source().greedy(),
            old(self).source().to_come() is Some ==> {
                &&& r == Ok::<Progress, CodecError>(Progress::Again)
                &&& final(self).phase() == EncodeState::WriteEofFrame && !old(self).closing()
                    ==> final(self).drained()
                &&& old(self).source().greedy() ==> final(self).plan() == old(self).plan()
            },
            final(self).input().len() - old(self).input().len() <= CHUNK_LEN,
            old(self).closing() ==> r == Ok::<Progress, CodecError>(Progress::Again)
                && final(self).source() == old(self).source()
                && final(self).input() == old(self).input(),
            match r {
                Ok(Progress::Again) => {
                    let chunk = final(self).input().skip(old(self).input().len() as int);
                    if chunk.len() > 0 {
                        &&& final(self).phase() == EncodeState::WriteFrame
                        &&& final(self).unsent() == frame(chunk)
                        &&& final(self).chunks() == old(self).chunks().push(chunk)
                    } else {
                        &&& final(self).phase() == EncodeState::WriteEofFrame
                        &&& final(self).unsent() == close_frame()
                        &&& final(self).chunks() == old(self).chunks()
                    }
                },
                Ok(Progress::NotReady) => final(self).phase() == EncodeState::ReadSource
                    && final(self).input() == old(self).input(),
                Ok(Progress::Ready(_)) => false,
                Err(CodecError::UnexpectedEof) => false,
                Err(CodecError::Io(_)) => final(self).phase() == EncodeState::ReadSource
                    && final(self).input() == old(self).input(),
            },
    {
        let ghost none = Seq::<u8>::empty();
        let ghost wire = self.output();
        let ghost inp = self.input();
        let ghost log = self.log@;
        proof {
            assert(self.output() + self.unsent() =~= wire);
            assert(inp.skip(inp.len() as int) =~= none);
        }
        if self.closing {
            write_header(&mut self.buf, 0);
            self.state = EncodeState::WriteEofFrame;
            self.cap = HEADER_LEN;
            self.pos = 0;
            proof {
                self.lemma_fed_idle(*old(self));
                lemma_le_round_trip(0);
                assert(self.unsent() =~= close_frame());
                lemma_scan_concat(scan(Seq::<u8>::empty()), wire, close_frame());
                lemma_scan_close_frame(scan(wire));
                assert(framed(log, false) =~= frames(log) + none);
                assert(frames(log) + none =~= frames(log));
            }
            return Ok(Progress::Again);
        }
        let end: usize = self.buf.len();
        let ghost before = *self;
        let outcome = self.r.read(&mut self.buf, HEADER_LEN, end);
        proof {
            let lag = taken(self.buf@, HEADER_LEN, outcome);
            if let Some(b) = self.r_base@ {
                assert(b + self.seen@ + lag =~= (b + self.seen@ + none) + lag);
            }
        }
        let ghost mid = *self;
        let r = self.source_read(outcome);
        proof {
            if let Some(left) = before.r.to_come() {
                let n = outcome->Ok_0;
                let came = taken(mid.buf@, HEADER_LEN, outcome);
                assert(came =~= mid.incoming(n as nat));
                if n > 0 {
                    assert(self.input().skip(inp.len() as int) =~= came);
                    if before.r.greedy() {
                        lemma_split_step(left, n as nat, CHUNK_LEN as nat);
                        let tail = split(left.skip(n as int), CHUNK_LEN as nat);
                        assert(before.log@.push(came) + tail =~= before.log@ + (seq![came]
                            + tail));
                    }
                } else {
                    assert(self.input().skip(inp.len() as int) =~= left.subrange(0, 0));
                    assert(left.skip(0) =~= left);
                }
            }
            assert(mid.chunks().is_prefix_of(self.chunks())) by {
                if let Ok(n) = outcome {
                    if n > 0 {
                        assert(self.chunks().drop_last() =~= mid.chunks());
                    }
                }
            }
            if let Ok(n) = outcome {
                if n > 0 {
                    assert(self.input().skip(inp.len() as int) =~= mid.incoming(n as nat));
                } else {
                    assert(self.input().skip(inp.len() as int) =~= none);
                }
            }
        }
        r
    }

    /// Takes in what one write of the prepared frame gave. The payload
    /// bytes among those that the sink took are counted, and the encoder
    /// moves on to `to_state` as soon as the frame is written whole; `None`
    /// says that more is to be written. A sink that took nothing is an
    /// error.
    #[verifier::rlimit(60)]
    pub fn frame_written(
        &mut self,
        to_state: EncodeState,
        outcome: Result<usize, TransportError>,
    ) -> (next: Option<Result<Progress, CodecError>>)
        requires
            old(self).behind_write(outcome),
            old(self).phase() == EncodeState::WriteFrame && to_state == EncodeState::ReadSource
                || old(self).phase() == EncodeState::WriteEofFrame && to_state
                == EncodeState::Eof,
        ensures
            final(self).wf(),
            final(self).input() == old(self).input(),
            final(self).chunks() == old(self).chunks(),
            final(self).closing() == old(self).closing(),
            final(self).source() == old(self).source(),
            final(self).sink() == old(self).sink(),
            final(self).bases() == old(self).bases(),
            match verdict_of(0, outcome, false) {
                Verdict::Continue(n) => {
                    &&& final(self).output() == old(self).output() + old(self).unsent().subrange(
                        0,
                        n as int,
                    )
                    &&& final(self).unsent() == old(self).unsent().skip(n as int)
                    &&& final(self).unsent_payload() == min(
                        old(self).unsent_payload(),
                        old(self).unsent().len() - n,
                    )
                    &&& final(self).count() == wrap64(
                        old(self).count() + old(self).unsent_payload()
                            - final(self).unsent_payload(),
                    )
                    &&& if n == old(self).unsent().len() {
                        next == Some(Ok::<Progress, CodecError>(Progress::Again))
                            && final(self).phase() == to_state
                    } else {
                        next is None && final(self).phase() == old(self).phase()
                    }
                },
                Verdict::Finish => false,
                Verdict::Block => next == Some(Ok::<Progress, CodecError>(Progress::NotReady))
                    && *final(self) == *old(self),
                Verdict::Fail(e) => next == Some(Err::<Progress, CodecError>(e)) && *final(self)
                    == *old(self),
            },
    {
        let ghost none = Seq::<u8>::empty();
        proof {
            assert(taken(self.buf@, self.pos, outcome).len() == 0 ==> taken(
                self.buf@,
                self.pos,
                outcome,
            ) =~= none);
        }
        match judge(self.pos, outcome, false) {
            Verdict::Continue(pos) => {
                let ghost rest = self.buf@.subrange(self.pos as int, self.cap as int);
                let ghost d = rest.subrange(0, pos - self.pos);
                let ghost out = self.output();
                proof {
                    assert(d =~= self.buf@.subrange(self.pos as int, pos as int));
                    assert(out + rest =~= (out + d) + self.buf@.subrange(
                        pos as int,
                        self.cap as int,
                    ));
                    assert(rest.skip(pos - self.pos) =~= self.buf@.subrange(
                        pos as int,
                        self.cap as int,
                    ));
                    if let Some(b) = self.w_base@ {
                        assert(b + (self.sent@ + d) + none =~= b + self.sent@ + d);
                    }
                }
                let from: usize = if self.pos > HEADER_LEN {
                    self.pos
                } else {
                    HEADER_LEN
                };
                let to: usize = if pos > HEADER_LEN {
                    pos
                } else {
                    HEADER_LEN
                };
                let ghost left = self.unsent_payload();
                let ghost taken_in = self.input().len() - left;
                proof {
                    assert(to - from == payload_part(pos as int) - payload_part(self.pos as int));
                    assert(self.amt == wrap64(taken_in));
                    assert(self.state == EncodeState::WriteEofFrame ==> to - from == 0);
                }
                self.sent = Ghost(self.sent@ + d);
                self.amt = count_add(self.amt, to - from);
                self.pos = pos;
                proof {
                    lemma_wrap_add(taken_in, (to - from) as int);
                    assert(self.amt == wrap64(taken_in + (to - from)));
                    assert(self.output() + self.buf@.subrange(self.pos as int, self.cap as int)
                        =~= out + rest);
                }
                if self.pos < self.cap {
                    proof {
                        assert(self.unsent_payload() == left - (to - from));
                    }
                    None
                } else {
                    proof {
                        assert(left == to - from);
                        assert(self.buf@.subrange(self.pos as int, self.cap as int) =~= none);
                        assert(out + rest =~= self.output());
                        assert(self.output() + none =~= self.output());
                    }
                    self.state = to_state;
                    self.cap = 0;
                    self.pos = 0;
                    Some(Ok(Progress::Again))
                }
            },
            Verdict::Finish => Some(Err(CodecError::UnexpectedEof)),
            Verdict::Block => Some(Ok(Progress::NotReady)),
            Verdict::Fail(e) => Some(Err(e)),
        }
    }

    /// Writes the prepared frame to the sink, in as many writes as it
    /// takes, each offering what is left of it, and then moves on to
    /// `to_state`. Only payload bytes are counted. What each write leads to
    /// is said of `frame_written`.
    #[verifier::rlimit(60)]
    fn copy_encoded(&mut self, to_state: EncodeState) -> (r: Result<Progress, CodecError>)
        requires
            old(self).wf(),
            old(self).phase() == EncodeState::WriteFrame && to_state == EncodeState::ReadSource
                || old(self).phase() == EncodeState::WriteEofFrame && to_state
                == EncodeState::Eof,
        ensures
            final(self).wf(),
            final(self).closing() == old(self).closing(),
            final(self).source() == old(self).source(),
            final(self).input() == old(self).input(),
            final(self).chunks() == old(self).chunks(),
            final(self).bases() == old(self).bases(),
            final(self).sink().flushes() == old(self).sink().flushes(),
            final(self).sink().steady() == old(self).sink().steady(),
            old(self).sink().steady() ==> r == Ok::<Progress, CodecError>(Progress::Again),
            old(self).output().is_prefix_of(final(self).output()),
            final(self).output() + final(self).unsent() == old(self).output() + old(self).unsent(),
            final(self).count() == wrap64(
                old(self).count() + old(self).unsent_payload() - final(self).unsent_payload(),
            ),
            match r {
                Ok(Progress::Again) => final(self).phase() == to_state && final(self).output()
                    == old(self).output() + old(self).unsent(),
                Ok(Progress::Ready(_)) => false,
                _ => final(self).phase() == old(self).phase(),
            },
    {
        let ghost total = self.output() + self.unsent();
        loop
            invariant
                self.wf(),
                self.phase() == old(self).phase(),
                self.phase() == EncodeState::WriteFrame && to_state == EncodeState::ReadSource
                    || self.phase() == EncodeState::WriteEofFrame && to_state
                    == EncodeState::Eof,
                self.closing() == old(self).closing(),
                self.source() == old(self).source(),
                self.input() == old(self).input(),
                self.chunks() == old(self).chunks(),
                self.bases() == old(self).bases(),
                self.sink().flushes() == old(self).sink().flushes(),
                self.sink().steady() == old(self).sink().steady(),
                old(self).output().is_prefix_of(self.output()),
                total == old(self).output() + old(self).unsent(),
                total == self.output() + self.unsent(),
                self.count() == wrap64(
                    old(self).count() + old(self).unsent_payload() - self.unsent_payload(),
                ),
            decreases self.cap - self.pos,
        {
            let ghost before = *self;
            let outcome = self.w.write(slice_subrange(self.buf.as_slice(), self.pos, self.cap));
            proof {
                let offered = self.buf@.subrange(self.pos as int, self.cap as int);
                let lag = taken(self.buf@, self.pos, outcome);
                assert(taken(offered, 0, outcome) =~= lag);
                if let Some(b) = self.w_base@ {
                    assert(b + self.sent@ + lag =~= (b + self.sent@ + Seq::<u8>::empty()) + lag);
                }
            }
            match self.frame_written(to_state, outcome) {
                Some(r) => {
                    proof {
                        lemma_wrap_add(
                            old(self).count() + old(self).unsent_payload()
                                - before.unsent_payload(),
                            before.unsent_payload() - self.unsent_payload(),
                        );
                        if r == Ok::<Progress, CodecError>(Progress::Again) {
                            let n = outcome->Ok_0 as int;
                            assert(before.unsent().subrange(0, n) =~= before.unsent());
                            assert(self.output() + self.unsent() =~= self.output());
                        }
                    }
                    return r;
                },
                None => {
                    proof {
                        lemma_wrap_add(
                            old(self).count() + old(self).unsent_payload()
                                - before.unsent_payload(),
                            before.unsent_payload() - self.unsent_payload(),
                        );
                        let n = outcome->Ok_0 as int;
                        let u = before.unsent();
                        assert(before.output() + u =~= (before.output() + u.subrange(0, n))
                            + u.skip(n));
                    }
                },
            }
        }
    }

    /// Advances the copy by one state: reads a chunk and frames it, writes
    /// a frame, writes the close signal, or, at the end, flushes the sink
    /// and reports the count. `Again` means that the state changed and the
    /// next call has work to do; `NotReady` that the transport would block.
    ///
    /// Whatever the transport does, the sink is offered just the frames of
    /// the chunks that were read, each byte once and in order. What each
    /// outcome of the transport leads to is said of `source_read`,
    /// `frame_written` and `judge_flush`.
    #[verifier::rlimit(50)]
    pub fn advance(&mut self) -> (r: Result<Progress, CodecError>)
        requires
            old(self).wf(),
        ensures
            final(self).wf(),
            final(self).faithful(),
            final(self).carries(*old(self)),
            final(self).steadily(*old(self), r),
            old(self).steady() && r == Ok::<Progress, CodecError>(Progress::Again)
                ==> final(self).effort() < old(self).effort(),
            final(self).sink().flushes() == flushes_after(old(self).sink().flushes(), r),
            final(self).bases() == old(self).bases(),
            final(self).closing() == old(self).closing(),
            old(self).input().is_prefix_of(final(self).input()),
            old(self).output().is_prefix_of(final(self).output()),
            old(self).chunks().is_prefix_of(final(self).chunks()),
            old(self).phase() == EncodeState::ReadSource
                ==> final(self).sink() == old(self).sink()
                && final(self).output() == old(self).output(),
            old(self).phase() != EncodeState::ReadSource
                ==> final(self).source() == old(self).source()
                && final(self).input() == old(self).input() && final(self).chunks()
                == old(self).chunks()
                    && final(self).output() + final(self).unsent() == old(self).output()
                    + old(self).unsent(),
            old(self).phase() == EncodeState::ReadSource && old(self).closing() ==> r == Ok::<
                Progress,
                CodecError,
            >(Progress::Again) && final(self).source() == old(self).source()
                && final(self).input() == old(self).input(),
            match r {
                Ok(Progress::Ready(n)) => old(self).phase() == EncodeState::Eof
                    && final(self).phase() == EncodeState::Eof && n == final(self).count(),
                Ok(Progress::NotReady) => final(self).phase() == old(self).phase()
                    && final(self).input() == old(self).input(),
                Ok(Progress::Again) => match old(self).phase() {
                    EncodeState::ReadSource => {
                        let chunk = final(self).input().skip(old(self).input().len() as int);
                        &&& chunk.len() <= CHUNK_LEN
                        &&& if chunk.len() > 0 {
                            &&& final(self).phase() == EncodeState::WriteFrame
                            &&& final(self).unsent() == frame(chunk)
                            &&& final(self).chunks() == old(self).chunks().push(chunk)
                        } else {
                            &&& final(self).phase() == EncodeState::WriteEofFrame
                            &&& final(self).unsent() == close_frame()
                            &&& final(self).chunks() == old(self).chunks()
                        }
                    },
                    EncodeState::WriteFrame => final(self).phase() == EncodeState::ReadSource,
                    EncodeState::WriteEofFrame => final(self).phase() == EncodeState::Eof,
                    EncodeState::Eof => false,
                },
                Err(CodecError::UnexpectedEof) => final(self).phase() == old(self).phase() && (
                old(self).phase() == EncodeState::WriteFrame || old(self).phase()
                    == EncodeState::WriteEofFrame),
                Err(CodecError::Io(_)) => final(self).phase() == old(self).phase()
                    && final(self).input() == old(self).input(),
            },
    {
        let r = match self.state {
            EncodeState::ReadSource => self.read(),
            EncodeState::WriteFrame => self.copy_encoded(EncodeState::ReadSource),
            EncodeState::WriteEofFrame => self.copy_encoded(EncodeState::Eof),
            EncodeState::Eof => {
                let flushed = self.w.flush();
                proof {
                    assert(self.output() + self.unsent() =~= old(self).output()
                        + old(self).unsent());
                }
                judge_flush(self.amt, flushed)
            },
        };
        proof {
            self.lemma_faithful();
            old(self).lemma_faithful();
            self.lemma_carries(*old(self));
            if old(self).phase() != EncodeState::ReadSource {
                self.lemma_fed_idle(*old(self));
            }
        }
        r
    }

    /// Tells the encoder to read no more and to put the close signal on the
    /// wire at the next frame boundary. An encoder that has ended stays as
    /// it is.
    pub fn close(self) -> (e: TunnelCopyEncode<R, W>)
        requires
            self.wf(),
        ensures
            e.wf(),
            e.faithful() == self.faithful(),
            e.closing() == (self.closing() || self.phase() != EncodeState::Eof),
            e.source() == self.source(),
            e.sink() == self.sink(),
            e.input() == self.input(),
            e.output() == self.output(),
            e.chunks() == self.chunks(),
            e.phase() == self.phase(),
            e.count() == self.count(),
            e.unsent() == self.unsent(),
    {
        let mut e = self;
        if e.state == EncodeState::Eof {
            return e;
        }
        e.closing = true;
        e
    }

    /// Advances the copy until it is complete, the transport would block,
    /// or an error occurs, but by `budget` states at most, so that a long
    /// stream does not keep the caller for ever. `Again` says that the
    /// budget is used up and the copy can go on.
    #[verifier::rlimit(50)]
    pub fn poll(&mut self, budget: usize) -> (r: Result<Progress, CodecError>)
        requires
            old(self).wf(),
        ensures
            final(self).wf(),
            final(self).faithful(),
            final(self).carries(*old(self)),
            final(self).steadily(*old(self), r),
            old(self).steady() && budget > 0 && r == Ok::<Progress, CodecError>(Progress::Again)
                ==> final(self).effort() < old(self).effort(),
            final(self).sink().flushes() == flushes_after(old(self).sink().flushes(), r),
            final(self).bases() == old(self).bases(),
            final(self).closing() == old(self).closing(),
            old(self).input().is_prefix_of(final(self).input()),
            old(self).output().is_prefix_of(final(self).output()),
            old(self).chunks().is_prefix_of(final(self).chunks()),
            old(self).closing() ==> final(self).input() == old(self).input()
                && final(self).source() == old(self).source(),
            budget == 0 ==> r == Ok::<Progress, CodecError>(Progress::Again) && *final(self)
                == *old(self),
            budget > 0 && old(self).phase() == EncodeState::ReadSource && old(self).closing() ==> {
                &&& final(self).phase() == EncodeState::WriteEofFrame || final(self).phase()
                    == EncodeState::Eof
                &&& final(self).output() + final(self).unsent() == old(self).output()
                    + close_frame()
            },
            old(self).phase() == EncodeState::Eof ==> final(self).phase() == EncodeState::Eof
                && final(self).input() == old(self).input()
                    && final(self).output() == old(self).output(),
            match r {
                Ok(Progress::Ready(n)) => final(self).phase() == EncodeState::Eof
                    && n == final(self).count(),
                Ok(Progress::NotReady) => budget > 0,
                Ok(Progress::Again) => true,
                Err(CodecError::UnexpectedEof) => budget > 0 && (final(self).phase()
                    == EncodeState::WriteFrame || final(self).phase()
                    == EncodeState::WriteEofFrame),
                Err(CodecError::Io(_)) => budget > 0,
            },
    {
        let mut left: usize = budget;
        proof {
            self.lemma_faithful();
            self.lemma_carries(*old(self));
            self.lemma_fed_idle(*self);
        }
        while left > 0
            invariant
                old(self).wf(),
                self.wf(),
                self.steadily(*old(self), Ok(Progress::Again)),
                old(self).steady() && left < budget ==> self.effort() < old(self).effort(),
                self.faithful(),
                self.bases() == old(self).bases(),
                self.sink().flushes() == old(self).sink().flushes(),
                left <= budget,
                self.closing() == old(self).closing(),
                old(self).input().is_prefix_of(self.input()),
                old(self).output().is_prefix_of(self.output()),
                old(self).chunks().is_prefix_of(self.chunks()),
                old(self).closing() ==> self.input() == old(self).input() && self.source()
                    == old(self).source(),
                left == budget ==> *self == *old(self),
                left < budget && old(self).phase() == EncodeState::ReadSource
                    && old(self).closing() ==> {
                    &&& self.phase() == EncodeState::WriteEofFrame || self.phase()
                        == EncodeState::Eof
                    &&& self.output() + self.unsent() == old(self).output() + close_frame()
                },
                old(self).phase() == EncodeState::Eof ==> self.phase() == EncodeState::Eof
                    && self.input() == old(self).input() && self.output() == old(self).output(),
            decreases left,
        {
            let ghost before = *self;
            let r = self.advance();
            proof {
                self.lemma_carries(*old(self));
                if old(self).steady() {
                    self.lemma_fed_twice(before, *old(self));
                    if before.ended() {
                        self.lemma_fed_idle(before);
                    }
                }
                if before.phase() == EncodeState::Eof {
                    assert(self.output() + self.unsent() =~= self.output());
                    assert(before.output() + before.unsent() =~= before.output());
                }
            }
            match r {
                Ok(Progress::Again) => {
                    left = left - 1;
                },
                _ => {
                    return r;
                },
            }
        }
        proof {
            self.lemma_carries(*old(self));
        }
        Ok(Progress::Again)
    }

    /// The count of payload bytes given to the sink so far.
    pub fn amount(&self) -> (n: u64)
        ensures
            n == self.count(),
    {
        self.amt
    }

    /// The state the encoder is in.
    pub fn state(&self) -> (s: EncodeState)
        ensures
            s == self.phase(),
    {
        self.state
    }

    /// Gives the source and the sink back.
    pub fn into_inner(self) -> (parts: (R, W))
        ensures
            parts.0 == self.source(),
            parts.1 == self.sink(),
    {
        (self.r, self.w)
    }
}

/// An encoder that copies the bytes of `r`, framed, to `w`.
pub fn copy_encode<R: ByteSource, W: ByteSink>(r: R, w: W) -> (e: TunnelCopyEncode<R, W>)
    ensures
        e.wf(),
        e.faithful(),
        e.source() == r,
        e.sink() == w,
        e.input() == Seq::<u8>::empty(),
        e.output() == Seq::<u8>::empty(),
        e.phase() == EncodeState::ReadSource,
        !e.closing(),
        e.count() == 0,
{
    TunnelCopyEncode::new(r, w)
}

/// Round trip. When an encoder has finished and a decoder has finished on
/// the wire bytes that the encoder wrote, having read them up to the close
/// signal or to their end, the decoder has delivered exactly the bytes that
/// the encoder read, and both report the same count: the number of those
/// bytes, as a 64-bit counter holds it.
pub proof fn lemma_round_trip<R1: ByteSource, W1: ByteSink, R2: ByteSource, W2: ByteSink>(
    enc: TunnelCopyEncode<R1, W1>,
    dec: TunnelCopyDecode<R2, W2>,
)
    requires
        enc.faithful(),
        dec.faithful(),
        enc.phase() == EncodeState::Eof,
        dec.phase() == DecodeState::Eof,
        dec.input().is_prefix_of(enc.output()),
        scan(dec.input()).phase == Phase::Closed || dec.input() == enc.output(),
    ensures
        dec.output() == enc.input(),
        dec.count() == enc.count(),
        dec.count() == wrap64(enc.input().len() as int),
{
    let wire = enc.output();
    let taken = dec.input();
    assert(wire + enc.unsent() =~= wire);
    assert(dec.output() + dec.undelivered() =~= dec.output());
    if taken != wire {
        let rest = wire.skip(taken.len() as int);
        assert(wire =~= taken + rest);
        lemma_scan_concat(scan(Seq::<u8>::empty()), taken, rest);
        lemma_scan_closed(scan(taken), rest);
    }
}

/// The close signal on the wire is four bytes of zero, and a reader that
/// stands before a header and meets it ends with no payload added.
pub proof fn lemma_close_signal(s: Scan)
    requires
        s.phase == Phase::Header(Seq::<u8>::empty()),
    ensures
        close_frame() == seq![0u8, 0u8, 0u8, 0u8],
        scan_from(s, close_frame()) == (Scan { done: s.done, phase: Phase::Closed }),
{
    assert(close_frame() =~= seq![0u8, 0u8, 0u8, 0u8]);
    lemma_scan_close_frame(s);
}

/// A stream that ends after one, two or three bytes of a header has broken
/// the framing: the decoder fails with `UnexpectedEof`. Before the first
/// byte of a header the same end is graceful.
pub proof fn lemma_truncated_header(have: usize)
    requires
        have < HEADER_LEN,
    ensures
        have > 0 ==> verdict_of(have, Ok(0), true) == Verdict::Fail(CodecError::UnexpectedEof),
        have == 0 ==> verdict_of(have, Ok(0), true) == Verdict::Finish,
{
}

} // verus!
