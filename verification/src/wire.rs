//! The wire format: frames of a 32-bit little-endian payload length followed
//! by that many payload bytes, and a header of zero that closes the stream.

use bytes::{ByteOrder, LittleEndian};
use vstd::prelude::*;

verus! {

/// Number of bytes in a frame header.
pub const HEADER_LEN: usize = 4;

/// The number that four bytes denote when the least significant byte comes first.
pub open spec fn le_u32(s: Seq<u8>) -> int
    recommends
        s.len() == 4,
{
    s[0] as int + 256 * (s[1] as int) + 65536 * (s[2] as int) + 16777216 * (s[3] as int)
}

/// The four bytes of `n`, least significant first.
pub open spec fn le_bytes(n: u32) -> Seq<u8> {
    seq![
        (n as int % 256) as u8,
        (n as int / 256 % 256) as u8,
        (n as int / 65536 % 256) as u8,
        (n as int / 16777216) as u8,
    ]
}

/// Decoding the encoding of a length gives the length back.
pub proof fn lemma_le_round_trip(n: u32)
    ensures
        le_bytes(n).len() == 4,
        le_u32(le_bytes(n)) == n,
{
}

/// Four bytes denote zero exactly when all of them are zero.
pub proof fn lemma_le_zero(s: Seq<u8>)
    requires
        s.len() == 4,
    ensures
        0 <= le_u32(s) <= u32::MAX,
        le_u32(s) == 0 <==> s =~= seq![0u8, 0u8, 0u8, 0u8],
{
}

/// Reads a frame header from the first four bytes of `buf`.
///
/// Calls `LittleEndian::read_u32` of the `bytes` crate, which takes the first
/// four bytes of the slice as a little-endian `u32` and panics on a shorter
/// slice.
#[verifier::external_body]
pub(crate) fn read_header(buf: &[u8]) -> (n: u32)
    requires
        buf@.len() >= 4,
    ensures
        n == le_u32(buf@.subrange(0, 4)),
{
    LittleEndian::read_u32(buf)
}

/// Writes `n` as a frame header over the first four bytes of `buf`.
///
/// Calls `LittleEndian::write_u32` of the `bytes` crate, which overwrites the
/// first four bytes of the slice with `n` in little-endian order, leaves the
/// rest alone, and panics on a shorter slice.
#[verifier::external_body]
pub(crate) fn write_header(buf: &mut Vec<u8>, n: u32)
    requires
        old(buf).len() >= 4,
    ensures
        final(buf)@ == le_bytes(n) + old(buf)@.skip(4),
{
    LittleEndian::write_u32(buf.as_mut_slice(), n)
}

/// Where a reader of the wire stands between two bytes.
#[verifier::ext_equal]
pub enum Phase {
    /// Inside a header, with the header bytes read so far (fewer than four).
    Header(Seq<u8>),
    /// Inside a payload of `need` bytes, with the bytes read so far (fewer than `need`).
    Body { need: nat, got: Seq<u8> },
    /// Behind the header of zero: the stream is closed and any further byte is ignored.
    Closed,
}

/// What a reader of the wire knows after some bytes: the payload of every
/// complete frame, in order, and where it stands in the frame that follows.
#[verifier::ext_equal]
pub struct Scan {
    pub done: Seq<u8>,
    pub phase: Phase,
}

/// The reader before the first byte.
pub open spec fn scan_start() -> Scan {
    Scan { done: Seq::empty(), phase: Phase::Header(Seq::empty()) }
}

/// The reader after one more byte.
pub open spec fn scan_byte(s: Scan, b: u8) -> Scan {
    match s.phase {
        Phase::Header(h) => {
            let h2 = h.push(b);
            if h2.len() < 4 {
                Scan { done: s.done, phase: Phase::Header(h2) }
            } else if le_u32(h2) == 0 {
                Scan { done: s.done, phase: Phase::Closed }
            } else {
                Scan {
                    done: s.done,
                    phase: Phase::Body { need: le_u32(h2) as nat, got: Seq::empty() },
                }
            }
        },
        Phase::Body { need, got } => {
            let g2 = got.push(b);
            if g2.len() < need {
                Scan { done: s.done, phase: Phase::Body { need, got: g2 } }
            } else {
                Scan { done: s.done + g2, phase: Phase::Header(Seq::empty()) }
            }
        },
        Phase::Closed => s,
    }
}

/// The reader after the bytes of `bytes`, starting from `s`.
pub open spec fn scan_from(s: Scan, bytes: Seq<u8>) -> Scan
    decreases bytes.len(),
{
    if bytes.len() == 0 {
        s
    } else {
        scan_byte(scan_from(s, bytes.drop_last()), bytes.last())
    }
}

/// The reader after the bytes of `bytes`, starting before the first byte.
pub open spec fn scan(bytes: Seq<u8>) -> Scan {
    scan_from(scan_start(), bytes)
}

/// The wire form of a frame that carries `payload`.
pub open spec fn frame(payload: Seq<u8>) -> Seq<u8> {
    le_bytes(payload.len() as u32) + payload
}

/// The wire form of the close signal: a header of zero.
pub open spec fn close_frame() -> Seq<u8> {
    le_bytes(0)
}

/// The wire form of a run of frames, one for each payload, in order.
pub open spec fn frames(payloads: Seq<Seq<u8>>) -> Seq<u8>
    decreases payloads.len(),
{
    if payloads.len() == 0 {
        Seq::empty()
    } else {
        frames(payloads.drop_last()) + frame(payloads.last())
    }
}

/// The wire form of a run of frames, with the close signal behind them
/// where the stream is closed.
pub open spec fn framed(payloads: Seq<Seq<u8>>, closed: bool) -> Seq<u8> {
    frames(payloads) + if closed {
        close_frame()
    } else {
        Seq::empty()
    }
}

/// The payloads of a run of frames, one behind the other.
pub open spec fn joined(payloads: Seq<Seq<u8>>) -> Seq<u8>
    decreases payloads.len(),
{
    if payloads.len() == 0 {
        Seq::empty()
    } else {
        joined(payloads.drop_last()) + payloads.last()
    }
}

/// A payload in stretches of `most` bytes, with what is left over as the
/// last.
pub open spec fn split(payload: Seq<u8>, most: nat) -> Seq<Seq<u8>>
    decreases payload.len(),
{
    if payload.len() == 0 || most == 0 {
        Seq::empty()
    } else if payload.len() <= most {
        seq![payload]
    } else {
        seq![payload.take(most as int)] + split(payload.skip(most as int), most)
    }
}

/// The first stretch of a payload and the split of the rest are the split
/// of the whole.
pub proof fn lemma_split_step(rest: Seq<u8>, k: nat, most: nat)
    requires
        0 < k <= most,
        k == rest.len() || (k == most && k <= rest.len()),
    ensures
        seq![rest.subrange(0, k as int)] + split(rest.skip(k as int), most) == split(rest, most),
{
    let none = Seq::<Seq<u8>>::empty();
    if rest.len() <= most {
        assert(rest.subrange(0, k as int) =~= rest);
        assert(split(rest.skip(k as int), most) =~= none);
        assert(seq![rest] + none =~= seq![rest]);
    } else {
        assert(rest.subrange(0, k as int) =~= rest.take(most as int));
    }
}

/// A run of frames behind a first frame.
pub proof fn lemma_frames_behind(first: Seq<u8>, more: Seq<Seq<u8>>)
    ensures
        frames(seq![first] + more) == frame(first) + frames(more),
    decreases more.len(),
{
    let all = seq![first] + more;
    if more.len() == 0 {
        assert(all.drop_last() =~= Seq::<Seq<u8>>::empty());
        assert(all.last() == first);
        assert(frames(all.drop_last()) =~= Seq::<u8>::empty());
        assert(frames(more) =~= Seq::<u8>::empty());
        assert(frames(all) =~= frames(all.drop_last()) + frame(all.last()));
        assert(frames(all) =~= frame(first) + frames(more));
    } else {
        lemma_frames_behind(first, more.drop_last());
        assert(all.drop_last() =~= seq![first] + more.drop_last());
        assert(all.last() == more.last());
        assert(frames(all) =~= frames(all.drop_last()) + frame(all.last()));
        assert(frames(more) =~= frames(more.drop_last()) + frame(more.last()));
        assert(frames(all) =~= frame(first) + frames(more));
    }
}

/// Reading `a` and then `b` is reading `a + b`.
pub proof fn lemma_scan_concat(s: Scan, a: Seq<u8>, b: Seq<u8>)
    ensures
        scan_from(s, a + b) == scan_from(scan_from(s, a), b),
    decreases b.len(),
{
    if b.len() == 0 {
        assert(a + b =~= a);
    } else {
        lemma_scan_concat(s, a, b.drop_last());
        assert((a + b).drop_last() =~= a + b.drop_last());
        assert((a + b).last() == b.last());
    }
}

/// Bytes that leave a header incomplete are added to it.
pub proof fn lemma_scan_header_part(s: Scan, h: Seq<u8>, d: Seq<u8>)
    requires
        s.phase == Phase::Header(h),
        h.len() + d.len() < 4,
    ensures
        scan_from(s, d) == (Scan { done: s.done, phase: Phase::Header(h + d) }),
    decreases d.len(),
{
    if d.len() == 0 {
        assert(h + d =~= h);
    } else {
        lemma_scan_header_part(s, h, d.drop_last());
        assert((h + d.drop_last()).push(d.last()) =~= h + d);
    }
}

/// Bytes that complete a header close the stream when the header is zero,
/// and open a payload of the length it gives otherwise.
pub proof fn lemma_scan_header_full(s: Scan, h: Seq<u8>, d: Seq<u8>)
    requires
        s.phase == Phase::Header(h),
        d.len() > 0,
        h.len() + d.len() == 4,
    ensures
        le_u32(h + d) == 0 ==> scan_from(s, d) == (Scan { done: s.done, phase: Phase::Closed }),
        le_u32(h + d) != 0 ==> scan_from(s, d) == (Scan {
            done: s.done,
            phase: Phase::Body { need: le_u32(h + d) as nat, got: Seq::empty() },
        }),
{
    lemma_scan_header_part(s, h, d.drop_last());
    assert((h + d.drop_last()).push(d.last()) =~= h + d);
}

/// Bytes that leave a payload incomplete are added to it.
pub proof fn lemma_scan_body_part(s: Scan, need: nat, got: Seq<u8>, d: Seq<u8>)
    requires
        s.phase == (Phase::Body { need, got }),
        got.len() + d.len() < need,
    ensures
        scan_from(s, d) == (Scan { done: s.done, phase: Phase::Body { need, got: got + d } }),
    decreases d.len(),
{
    if d.len() == 0 {
        assert(got + d =~= got);
    } else {
        lemma_scan_body_part(s, need, got, d.drop_last());
        assert((got + d.drop_last()).push(d.last()) =~= got + d);
    }
}

/// Bytes that complete a payload add it to what is done and stand before the
/// next header.
pub proof fn lemma_scan_body_full(s: Scan, need: nat, got: Seq<u8>, d: Seq<u8>)
    requires
        s.phase == (Phase::Body { need, got }),
        d.len() > 0,
        got.len() + d.len() == need,
    ensures
        scan_from(s, d) == (Scan {
            done: s.done + (got + d),
            phase: Phase::Header(Seq::empty()),
        }),
{
    lemma_scan_body_part(s, need, got, d.drop_last());
    assert((got + d.drop_last()).push(d.last()) =~= got + d);
}

/// Behind the close signal nothing changes.
pub proof fn lemma_scan_closed(s: Scan, d: Seq<u8>)
    requires
        s.phase == Phase::Closed,
    ensures
        scan_from(s, d) == s,
    decreases d.len(),
{
    if d.len() > 0 {
        lemma_scan_closed(s, d.drop_last());
    }
}

/// A whole frame, read from before its header, adds its payload to what is done.
pub proof fn lemma_scan_frame(s: Scan, payload: Seq<u8>)
    requires
        s.phase == Phase::Header(Seq::<u8>::empty()),
        0 < payload.len() <= u32::MAX,
    ensures
        scan_from(s, frame(payload)) == (Scan {
            done: s.done + payload,
            phase: Phase::Header(Seq::empty()),
        }),
{
    let n = payload.len() as u32;
    let e = Seq::<u8>::empty();
    lemma_le_round_trip(n);
    lemma_scan_concat(s, le_bytes(n), payload);
    lemma_scan_header_full(s, e, le_bytes(n));
    assert(e + le_bytes(n) =~= le_bytes(n));
    let mid = scan_from(s, le_bytes(n));
    lemma_scan_body_full(mid, n as nat, e, payload);
    assert(e + payload =~= payload);
}

/// The close signal, read from before a header, closes the stream.
pub proof fn lemma_scan_close_frame(s: Scan)
    requires
        s.phase == Phase::Header(Seq::<u8>::empty()),
    ensures
        scan_from(s, close_frame()) == (Scan { done: s.done, phase: Phase::Closed }),
{
    let e = Seq::<u8>::empty();
    lemma_le_round_trip(0);
    lemma_scan_header_full(s, e, le_bytes(0));
    assert(e + le_bytes(0) =~= le_bytes(0));
}

} // verus!
