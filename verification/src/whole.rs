//! Whole copies over bytes in memory: the streaming codec of `protocol`,
//! run to its end over a source and a sink in memory, where nothing blocks
//! and nothing fails. The result is then a function of the bytes alone,
//! however the source and the sink split them.

use crate::error::{CodecError, Progress};
use crate::memory::{MemorySink, MemorySource};
use crate::protocol::{copy_decode, copy_encode, wrap64, DecodeState, CHUNK_LEN};
use crate::transport::{ByteSink, ByteSource};
use crate::wire::{
    close_frame, frame, framed, frames, lemma_frames_behind, lemma_scan_close_frame,
    lemma_scan_closed, lemma_scan_concat, lemma_scan_frame, scan, scan_from, split, Phase, Scan,
};
use vstd::prelude::*;
use vstd::slice::slice_to_vec;

verus! {

/// What decoding a stretch of wire bytes gives: the payload that was
/// delivered, and the count of it or the reason why the copy failed.
#[derive(Debug)]
pub struct Decoded {
    pub payload: Vec<u8>,
    pub result: Result<u64, CodecError>,
}

/// How a copy from the given wire bytes ends. It ends well with the count
/// of the payload where the bytes end with the close signal or between two
/// frames, and it fails where they end inside a header or inside a
/// payload.
pub open spec fn decoded_result(wire: Seq<u8>) -> Result<u64, CodecError> {
    match scan(wire).phase {
        Phase::Closed => Ok(scan(wire).done.len() as u64),
        Phase::Header(h) => if h.len() == 0 {
            Ok(scan(wire).done.len() as u64)
        } else {
            Err(CodecError::UnexpectedEof)
        },
        Phase::Body { .. } => Err(CodecError::UnexpectedEof),
    }
}

/// The wire bytes of a payload: a frame for each stretch of 2048 bytes,
/// a shorter one for what is left over, and the close signal.
pub open spec fn encoded(payload: Seq<u8>) -> Seq<u8>
    decreases payload.len(),
{
    if payload.len() == 0 {
        close_frame()
    } else if payload.len() <= CHUNK_LEN {
        frame(payload) + close_frame()
    } else {
        frame(payload.take(CHUNK_LEN as int)) + encoded(payload.skip(CHUNK_LEN as int))
    }
}

/// The wire bytes of a payload decode to the payload, and close the
/// stream.
pub proof fn lemma_encoded_decodes(payload: Seq<u8>)
    ensures
        scan(encoded(payload)) == (Scan { done: payload, phase: Phase::Closed }),
        decoded_result(encoded(payload)) == Ok::<u64, CodecError>(payload.len() as u64),
{
    lemma_encoded_scans(scan(Seq::<u8>::empty()), payload);
    assert(Seq::<u8>::empty() + payload =~= payload);
}

proof fn lemma_encoded_scans(s: Scan, payload: Seq<u8>)
    requires
        s.phase == Phase::Header(Seq::<u8>::empty()),
    ensures
        scan_from(s, encoded(payload)) == (Scan { done: s.done + payload, phase: Phase::Closed }),
    decreases payload.len(),
{
    if payload.len() == 0 {
        lemma_scan_close_frame(s);
        assert(s.done + payload =~= s.done);
    } else if payload.len() <= CHUNK_LEN {
        lemma_scan_concat(s, frame(payload), close_frame());
        lemma_scan_frame(s, payload);
        lemma_scan_close_frame(scan_from(s, frame(payload)));
    } else {
        let first = payload.take(CHUNK_LEN as int);
        let rest = payload.skip(CHUNK_LEN as int);
        lemma_scan_concat(s, frame(first), encoded(rest));
        lemma_scan_frame(s, first);
        lemma_encoded_scans(scan_from(s, frame(first)), rest);
        assert((s.done + first) + rest =~= s.done + payload);
    }
}

/// The frames of a payload's stretches of 2048 bytes, with the close
/// signal behind them, are the wire bytes of the payload.
pub proof fn lemma_split_encodes(payload: Seq<u8>)
    ensures
        framed(split(payload, CHUNK_LEN as nat), true) == encoded(payload),
    decreases payload.len(),
{
    let none = Seq::<Seq<u8>>::empty();
    if payload.len() == 0 {
        assert(frames(none) =~= Seq::<u8>::empty());
        assert(framed(none, true) =~= close_frame());
    } else if payload.len() <= CHUNK_LEN {
        lemma_frames_behind(payload, none);
        assert(seq![payload] + none =~= seq![payload]);
        assert(frames(none) =~= Seq::<u8>::empty());
        assert(framed(seq![payload], true) =~= frame(payload) + close_frame());
    } else {
        let first = payload.take(CHUNK_LEN as int);
        let rest = payload.skip(CHUNK_LEN as int);
        let more = split(rest, CHUNK_LEN as nat);
        lemma_split_encodes(rest);
        lemma_frames_behind(first, more);
        assert(framed(seq![first] + more, true) =~= frame(first) + framed(more, true));
    }
}

/// Encodes a whole payload with the streaming encoder, over a source that
/// hands out as much as it is asked for and a sink that takes
/// `write_chunk` bytes at a time at most. However the writes are split,
/// the wire bytes are the frames of the payload's stretches of 2048 bytes
/// and the close signal.
pub fn encode_in_chunks(payload: Vec<u8>, write_chunk: usize) -> (wire: Vec<u8>)
    requires
        write_chunk > 0,
    ensures
        wire@ == encoded(payload@),
{
    let ghost all = payload@;
    let ghost none = Seq::<u8>::empty();
    let source = MemorySource::new(payload, usize::MAX);
    let sink = MemorySink::new(write_chunk);
    let mut enc = copy_encode(source, sink);
    let ghost start = enc;
    proof {
        assert(all.skip(0) =~= all);
        enc.lemma_fed_idle(start);
        assert(Seq::<Seq<u8>>::empty() + split(all, CHUNK_LEN as nat) =~= split(
            all,
            CHUNK_LEN as nat,
        ));
    }
    loop
        invariant
            all == payload@,
            enc.wf(),
            enc.faithful(),
            enc.steady(),
            enc.source().greedy(),
            !enc.closing(),
            start.input() == Seq::<u8>::empty(),
            start.source().to_come() == Some(all),
            enc.fed(start),
            enc.plan() == split(all, CHUNK_LEN as nat),
            enc.sink().accepted() == Some(enc.output()),
            enc.ended() ==> enc.drained(),
        decreases enc.effort(),
    {
        let ghost before = enc;
        let r = enc.poll(usize::MAX);
        proof {
            enc.lemma_fed_twice(before, start);
            assert(before.output() + enc.output().skip(before.output().len() as int)
                =~= enc.output());
            if enc.drained() {
                assert(split(enc.source().to_come()->0, CHUNK_LEN as nat) =~= Seq::<
                    Seq<u8>,
                >::empty());
                assert(enc.plan() =~= enc.chunks());
            }
            lemma_split_encodes(all);
        }
        match r {
            Ok(Progress::Again) => {},
            _ => {
                proof {
                    assert(enc.unsent() =~= Seq::<u8>::empty());
                    assert(enc.output() + Seq::<u8>::empty() =~= enc.output());
                }
                let (_, sink) = enc.into_inner();
                return sink.into_bytes();
            },
        }
    }
}

/// Encodes a whole payload: the frames of its stretches of 2048 bytes and
/// the close signal.
pub fn encode_all(payload: &[u8]) -> (wire: Vec<u8>)
    ensures
        wire@ == encoded(payload@),
{
    encode_in_chunks(slice_to_vec(payload), usize::MAX)
}

/// Decodes a whole stretch of wire bytes: delivers the payload of every
/// complete frame, in order, and stops at the close signal, at the end of
/// the bytes, or where a frame is cut off. Bytes behind the close signal
/// are left alone.
pub fn decode_all(wire: &[u8]) -> (out: Decoded)
    ensures
        out.payload@ == scan(wire@).done,
        out.result == decoded_result(wire@),
{
    decode_in_chunks(slice_to_vec(wire), usize::MAX, usize::MAX)
}

/// Decodes a whole stretch of wire bytes with the streaming decoder, over
/// a source that hands out `read_chunk` bytes at a time at most and a sink
/// that takes `write_chunk` bytes at a time at most. However the bytes are
/// split, the payload and the result are those of `decode_all`.
pub fn decode_in_chunks(wire: Vec<u8>, read_chunk: usize, write_chunk: usize) -> (out: Decoded)
    requires
        read_chunk > 0,
        write_chunk > 0,
    ensures
        out.payload@ == scan(wire@).done,
        out.result == decoded_result(wire@),
{
    let ghost all = wire@;
    let ghost none = Seq::<u8>::empty();
    let source = MemorySource::new(wire, read_chunk);
    let sink = MemorySink::new(write_chunk);
    let mut dec = copy_decode(source, sink);
    let ghost start = dec;
    proof {
        assert(all.skip(0) =~= all);
        dec.lemma_fed_idle(start);
    }
    loop
        invariant
            all == wire@,
            dec.wf(),
            dec.faithful(),
            dec.steady(),
            !dec.closing(),
            start.input() == Seq::<u8>::empty(),
            start.source().to_come() == Some(all),
            dec.fed(start),
            dec.sink().accepted() == Some(dec.output()),
            dec.phase() == DecodeState::Eof ==> scan(dec.input()).phase == Phase::Closed
                || dec.drained(),
        decreases dec.effort(),
    {
        let ghost before = dec;
        let r = dec.poll(usize::MAX);
        proof {
            let none = Seq::<u8>::empty();
            dec.lemma_fed_twice(before, start);
            assert(before.output() + dec.output().skip(before.output().len() as int)
                =~= dec.output());
            let n = dec.input().len() as int;
            assert(dec.input() =~= dec.input().skip(0));
            assert(dec.input() == all.subrange(0, n));
            assert(all =~= dec.input() + all.skip(n));
            lemma_scan_concat(scan(none), dec.input(), all.skip(n));
            if before.phase() == DecodeState::Eof {
                assert(dec.input() =~= before.input());
                assert(all.skip(n).skip(0) =~= all.skip(n));
            }
            if scan(dec.input()).phase == Phase::Closed {
                lemma_scan_closed(scan(dec.input()), all.skip(n));
            }
            if dec.drained() {
                assert(all.skip(n) =~= none);
                assert(dec.input() =~= all);
            }
            if dec.phase() != DecodeState::Deliver {
                assert(dec.undelivered() =~= none);
                assert(dec.output() + none =~= dec.output());
            }
            if let Phase::Header(h) = scan(dec.input()).phase {
                assert(h.len() == 0 ==> h =~= none);
            }
        }
        match r {
            Ok(Progress::Again) => {},
            Ok(Progress::Ready(count)) => {
                let (_, sink) = dec.into_inner();
                let payload = sink.into_bytes();
                let len: usize = payload.len();
                proof {
                    assert(payload@ == dec.output());
                    assert(len <= u64::MAX);
                    assert(wrap64(len as int) == len);
                }
                return Decoded { payload, result: Ok(count) };
            },
            Ok(Progress::NotReady) => {
                // a steady source and sink never hold the copy up
                let (_, sink) = dec.into_inner();
                let payload = sink.into_bytes();
                return Decoded { payload, result: Err(CodecError::UnexpectedEof) };
            },
            Err(e) => {
                let (_, sink) = dec.into_inner();
                let payload = sink.into_bytes();
                proof {
                    assert(payload@ == dec.output());
                    assert(e == CodecError::UnexpectedEof);
                    assert(dec.input() == all);
                }
                return Decoded { payload, result: Err(e) };
            },
        }
    }
}

} // verus!
