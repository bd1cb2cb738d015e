use sskcp::error::{judge, unexpected_eof, CodecError, Progress, Verdict};
use sskcp::memory::{MemorySink, MemorySource};
use sskcp::protocol::{
    copy_decode, copy_encode, count_add, DecodeState, EncodeState, TunnelCopyDecode,
    TunnelCopyEncode,
};
use sskcp::transport::{ByteSink, ByteSource, TransportError};

fn encode_all(payload: &[u8], read_chunk: usize, write_chunk: usize) -> (Vec<u8>, u64) {
    let mut enc = copy_encode(
        MemorySource::new(payload.to_vec(), read_chunk),
        MemorySink::new(write_chunk),
    );
    loop {
        match enc.poll(5) {
            Ok(Progress::Ready(n)) => {
                let (_, sink) = enc.into_inner();
                return (sink.into_bytes(), n);
            }
            Ok(Progress::Again) => {}
            other => panic!("encoder stopped: {:?}", other),
        }
    }
}

fn decode_all(
    wire: &[u8],
    read_chunk: usize,
    write_chunk: usize,
) -> Result<(Vec<u8>, u64), (CodecError, Vec<u8>)> {
    let mut dec = copy_decode(
        MemorySource::new(wire.to_vec(), read_chunk),
        MemorySink::new(write_chunk),
    );
    loop {
        match dec.poll(7) {
            Ok(Progress::Ready(n)) => {
                let (_, sink) = dec.into_inner();
                return Ok((sink.into_bytes(), n));
            }
            Ok(Progress::Again) => {}
            Ok(Progress::NotReady) => panic!("a memory channel never blocks"),
            Err(e) => {
                let (_, sink) = dec.into_inner();
                return Err((e, sink.into_bytes()));
            }
        }
    }
}

fn pattern(len: usize) -> Vec<u8> {
    (0..len).map(|i| (i * 7 + 3) as u8).collect()
}

#[test]
fn round_trip_empty() {
    let (wire, n) = encode_all(&[], 4096, 4096);
    assert_eq!(wire, vec![0, 0, 0, 0]);
    assert_eq!(n, 0);
    assert_eq!(decode_all(&wire, 4096, 4096), Ok((vec![], 0)));
}

#[test]
fn round_trip_small() {
    let payload = b"hello tunnel".to_vec();
    let (wire, n) = encode_all(&payload, 4096, 4096);
    let mut expected = vec![12, 0, 0, 0];
    expected.extend_from_slice(&payload);
    expected.extend_from_slice(&[0, 0, 0, 0]);
    assert_eq!(wire, expected);
    assert_eq!(n, 12);
    assert_eq!(decode_all(&wire, 4096, 4096), Ok((payload, 12)));
}

#[test]
fn round_trip_spans_chunks() {
    let payload = pattern(5000);
    let (wire, n) = encode_all(&payload, 1 << 20, 1 << 20);
    assert_eq!(n, 5000);
    // frames of 2048, 2048 and 904 bytes, and the close signal
    assert_eq!(wire.len(), 5000 + 4 * 4);
    assert_eq!(&wire[0..4], &[0x00, 0x08, 0x00, 0x00]);
    assert_eq!(&wire[2052..2056], &[0x00, 0x08, 0x00, 0x00]);
    assert_eq!(&wire[4104..4108], &[0x88, 0x03, 0x00, 0x00]);
    assert_eq!(&wire[wire.len() - 4..], &[0, 0, 0, 0]);
    assert_eq!(decode_all(&wire, 1 << 20, 1 << 20), Ok((payload, 5000)));
}

#[test]
fn round_trip_with_short_reads_and_writes() {
    for (rc, wc) in [(1usize, 1usize), (3, 5), (7, 2), (2048, 1), (1, 4096), (5000, 3)] {
        for len in [0usize, 1, 3, 4, 5, 2047, 2048, 2049, 4096, 4100] {
            let payload = pattern(len);
            let (wire, n) = encode_all(&payload, rc, wc);
            assert_eq!(n, len as u64);
            let got = decode_all(&wire, wc, rc);
            assert_eq!(got, Ok((payload, len as u64)));
        }
    }
}

#[test]
fn header_is_little_endian() {
    let payload = pattern(0x0123);
    let (wire, _) = encode_all(&payload, 4096, 4096);
    assert_eq!(&wire[0..4], &[0x23, 0x01, 0x00, 0x00]);
    let mut frame = vec![0x02, 0x01, 0x00, 0x00];
    frame.extend_from_slice(&pattern(0x0102));
    assert_eq!(decode_all(&frame, 4096, 4096), Ok((pattern(0x0102), 0x0102)));
}

#[test]
fn decoder_takes_frames_longer_than_its_buffer() {
    let payload = pattern(70000);
    let mut wire = vec![0x70, 0x11, 0x01, 0x00];
    wire.extend_from_slice(&payload);
    wire.extend_from_slice(&[1, 0, 0, 0, 0xaa]);
    let mut expected = payload.clone();
    expected.push(0xaa);
    assert_eq!(decode_all(&wire, 999, 1001), Ok((expected, 70001)));
}

#[test]
fn decoder_stops_at_close_signal() {
    let wire = vec![2, 0, 0, 0, 9, 8, 0, 0, 0, 0, 1, 0, 0, 0, 7];
    let mut dec = copy_decode(MemorySource::new(wire, 64), MemorySink::new(64));
    let n = loop {
        match dec.advance() {
            Ok(Progress::Ready(n)) => break n,
            Ok(Progress::Again) => {}
            other => panic!("decoder stopped: {:?}", other),
        }
    };
    assert_eq!(n, 2);
    assert_eq!(dec.state(), DecodeState::Eof);
    let (mut src, sink) = dec.into_inner();
    assert_eq!(sink.into_bytes(), vec![9, 8]);
    // what follows the close signal is still in the source
    let mut rest = vec![0u8; 8];
    assert_eq!(src.read(&mut rest, 0, 8), Ok(5));
    assert_eq!(&rest[0..5], &[1, 0, 0, 0, 7]);
}

#[test]
fn end_of_stream_between_frames_is_graceful() {
    let wire = vec![1, 0, 0, 0, 42];
    assert_eq!(decode_all(&wire, 64, 64), Ok((vec![42], 1)));
    assert_eq!(decode_all(&[], 64, 64), Ok((vec![], 0)));
}

#[test]
fn truncated_header_is_a_protocol_violation() {
    for cut in 1..=3usize {
        let wire = vec![5u8, 0, 0, 0];
        assert_eq!(
            decode_all(&wire[..cut], 64, 64),
            Err((CodecError::UnexpectedEof, vec![]))
        );
        let mut after_frame = vec![1u8, 0, 0, 0, 77];
        after_frame.extend_from_slice(&wire[..cut]);
        assert_eq!(
            decode_all(&after_frame, 1, 64),
            Err((CodecError::UnexpectedEof, vec![77]))
        );
    }
}

#[test]
fn truncated_body_is_a_protocol_violation() {
    let wire = vec![3u8, 0, 0, 0, 1, 2];
    assert_eq!(
        decode_all(&wire, 64, 64),
        Err((CodecError::UnexpectedEof, vec![]))
    );
    let only_header = vec![3u8, 0, 0, 0];
    assert_eq!(
        decode_all(&only_header, 64, 64),
        Err((CodecError::UnexpectedEof, vec![]))
    );
}

#[test]
fn sink_that_accepts_nothing_is_an_error() {
    let wire = vec![1u8, 0, 0, 0, 42, 0, 0, 0, 0];
    assert_eq!(
        decode_all(&wire, 64, 0),
        Err((CodecError::UnexpectedEof, vec![]))
    );
    let mut enc = copy_encode(MemorySource::new(vec![1, 2, 3], 64), MemorySink::new(0));
    assert_eq!(enc.advance(), Ok(Progress::Again));
    assert_eq!(enc.state(), EncodeState::WriteFrame);
    assert_eq!(enc.advance(), Err(CodecError::UnexpectedEof));
    assert_eq!(enc.state(), EncodeState::WriteFrame);
}

#[test]
fn encoder_close_writes_only_the_close_signal() {
    let enc = TunnelCopyEncode::new(MemorySource::new(pattern(100), 64), MemorySink::new(64));
    let mut enc = enc.close();
    assert_eq!(enc.advance(), Ok(Progress::Again));
    assert_eq!(enc.state(), EncodeState::WriteEofFrame);
    assert_eq!(enc.advance(), Ok(Progress::Again));
    assert_eq!(enc.state(), EncodeState::Eof);
    assert_eq!(enc.advance(), Ok(Progress::Ready(0)));
    assert_eq!(enc.advance(), Ok(Progress::Ready(0)));
    let (mut src, sink) = enc.into_inner();
    let wire = sink.into_bytes();
    assert_eq!(wire, vec![0, 0, 0, 0]);
    let mut buf = vec![0u8; 4];
    assert_eq!(src.read(&mut buf, 0, 4), Ok(4));
    assert_eq!(decode_all(&wire, 64, 64), Ok((vec![], 0)));
}

#[test]
fn encoder_close_after_a_frame() {
    let mut enc = copy_encode(MemorySource::new(pattern(5000), 5000), MemorySink::new(5000));
    assert_eq!(enc.advance(), Ok(Progress::Again));
    assert_eq!(enc.advance(), Ok(Progress::Again));
    assert_eq!(enc.state(), EncodeState::ReadSource);
    assert_eq!(enc.amount(), 2048);
    let mut enc = enc.close();
    loop {
        match enc.advance() {
            Ok(Progress::Ready(n)) => {
                assert_eq!(n, 2048);
                break;
            }
            Ok(Progress::Again) => {}
            other => panic!("encoder stopped: {:?}", other),
        }
    }
    let (_, sink) = enc.into_inner();
    let wire = sink.into_bytes();
    assert_eq!(wire.len(), 4 + 2048 + 4);
    assert_eq!(decode_all(&wire, 64, 64), Ok((pattern(2048), 2048)));
}

#[test]
fn encoder_close_at_the_end_changes_nothing() {
    let mut enc = copy_encode(MemorySource::new(vec![], 8), MemorySink::new(8));
    while enc.state() != EncodeState::Eof {
        assert_eq!(enc.advance(), Ok(Progress::Again));
    }
    let mut enc = enc.close();
    assert_eq!(enc.advance(), Ok(Progress::Ready(0)));
    let (_, sink) = enc.into_inner();
    assert_eq!(sink.into_bytes(), vec![0, 0, 0, 0]);
}

#[test]
fn decoder_close_ends_at_a_frame_boundary() {
    let wire = vec![1u8, 0, 0, 0, 42, 1, 0, 0, 0, 43];
    let dec = TunnelCopyDecode::new(MemorySource::new(wire.clone(), 64), MemorySink::new(64));
    let mut dec = dec.close();
    assert_eq!(dec.advance(), Ok(Progress::Again));
    assert_eq!(dec.state(), DecodeState::Eof);
    assert_eq!(dec.advance(), Ok(Progress::Ready(0)));
    let (_, sink) = dec.into_inner();
    assert_eq!(sink.into_bytes(), vec![]);

    // told to close inside a frame, the decoder finishes the frame first
    let mut dec = copy_decode(MemorySource::new(wire, 2), MemorySink::new(64));
    assert_eq!(dec.advance(), Ok(Progress::Again));
    assert_eq!(dec.state(), DecodeState::ReadBody);
    let mut dec = dec.close();
    assert_eq!(dec.advance(), Ok(Progress::Again));
    assert_eq!(dec.state(), DecodeState::Deliver);
    assert_eq!(dec.advance(), Ok(Progress::Again));
    assert_eq!(dec.state(), DecodeState::ReadLength);
    assert_eq!(dec.amount(), 1);
    assert_eq!(dec.advance(), Ok(Progress::Again));
    assert_eq!(dec.state(), DecodeState::Eof);
    assert_eq!(dec.advance(), Ok(Progress::Ready(1)));
}

/// A source that would block on every other read.
struct Stalling {
    inner: MemorySource,
    stall: bool,
}

impl ByteSource for Stalling {
    fn read(&mut self, buf: &mut Vec<u8>, start: usize, end: usize) -> Result<usize, TransportError> {
        self.stall = !self.stall;
        if !self.stall {
            return Err(TransportError::WouldBlock);
        }
        self.inner.read(buf, start, end)
    }
}

/// A sink that fails once it holds `limit` bytes.
struct Failing {
    inner: MemorySink,
    taken: usize,
    limit: usize,
}

impl ByteSink for Failing {
    fn write(&mut self, data: &[u8]) -> Result<usize, TransportError> {
        if self.taken >= self.limit {
            return Err(TransportError::Failed(32));
        }
        let n = self.inner.write(&data[..data.len().min(self.limit - self.taken)])?;
        self.taken += n;
        Ok(n)
    }

    fn flush(&mut self) -> Result<(), TransportError> {
        Err(TransportError::WouldBlock)
    }
}

#[test]
fn decoder_resumes_after_would_block() {
    let payload = pattern(3000);
    let (wire, _) = encode_all(&payload, 4096, 4096);
    let src = Stalling { inner: MemorySource::new(wire, 3), stall: false };
    let mut dec = copy_decode(src, MemorySink::new(5));
    let mut blocked = 0;
    let n = loop {
        match dec.advance() {
            Ok(Progress::Ready(n)) => break n,
            Ok(Progress::Again) => {}
            Ok(Progress::NotReady) => blocked += 1,
            Err(e) => panic!("decoder failed: {:?}", e),
        }
    };
    assert_eq!(n, 3000);
    assert!(blocked > 1000);
    let (_, sink) = dec.into_inner();
    assert_eq!(sink.into_bytes(), payload);
}

#[test]
fn encoder_resumes_after_would_block() {
    let payload = pattern(3000);
    let src = Stalling { inner: MemorySource::new(payload.clone(), 700), stall: false };
    let mut enc = copy_encode(src, MemorySink::new(5));
    let mut blocked = 0;
    let n = loop {
        match enc.advance() {
            Ok(Progress::Ready(n)) => break n,
            Ok(Progress::Again) => {}
            Ok(Progress::NotReady) => blocked += 1,
            Err(e) => panic!("encoder failed: {:?}", e),
        }
    };
    assert_eq!(n, 3000);
    assert!(blocked >= 5);
    let (_, sink) = enc.into_inner();
    assert_eq!(decode_all(&sink.into_bytes(), 64, 64), Ok((payload, 3000)));
}

#[test]
fn transport_failure_is_passed_on() {
    let wire = vec![4u8, 0, 0, 0, 1, 2, 3, 4, 0, 0, 0, 0];
    let sink = Failing { inner: MemorySink::new(3), taken: 0, limit: 3 };
    let mut dec = copy_decode(MemorySource::new(wire, 64), sink);
    assert_eq!(dec.advance(), Ok(Progress::Again));
    assert_eq!(dec.advance(), Ok(Progress::Again));
    assert_eq!(dec.advance(), Err(CodecError::Io(32)));
    assert_eq!(dec.state(), DecodeState::Deliver);
    assert_eq!(dec.amount(), 3);
    let (_, sink) = dec.into_inner();
    assert_eq!(sink.inner.into_bytes(), vec![1, 2, 3]);

    let sink = Failing { inner: MemorySink::new(64), taken: 0, limit: 64 };
    let mut dec = copy_decode(MemorySource::new(vec![], 64), sink);
    assert_eq!(dec.advance(), Ok(Progress::Again));
    assert_eq!(dec.advance(), Ok(Progress::NotReady));
    assert_eq!(dec.state(), DecodeState::Eof);
}

#[test]
fn verdicts() {
    assert_eq!(unexpected_eof(), CodecError::UnexpectedEof);
    assert_eq!(judge(0, Ok(0), true), Verdict::Finish);
    for have in 1..4 {
        assert_eq!(judge(have, Ok(0), true), Verdict::Fail(CodecError::UnexpectedEof));
    }
    assert_eq!(judge(0, Ok(0), false), Verdict::Fail(CodecError::UnexpectedEof));
    assert_eq!(judge(2, Ok(2), true), Verdict::Continue(4));
    assert_eq!(judge(10, Ok(5), false), Verdict::Continue(15));
    assert_eq!(judge(1, Err(TransportError::WouldBlock), true), Verdict::Block);
    assert_eq!(
        judge(1, Err(TransportError::Failed(104)), false),
        Verdict::Fail(CodecError::Io(104))
    );
}

#[test]
fn counter_wraps() {
    assert_eq!(count_add(0, 0), 0);
    assert_eq!(count_add(5, 7), 12);
    assert_eq!(count_add(u64::MAX, 1), 0);
    assert_eq!(count_add(u64::MAX - 1, 5), 3);
}

#[test]
fn poll_runs_to_the_end_within_its_budget() {
    let payload = pattern(5000);
    let mut enc = copy_encode(MemorySource::new(payload.clone(), 4096), MemorySink::new(4096));
    // three frames and the close signal: a read and a write each, and the flush
    assert_eq!(enc.poll(0), Ok(Progress::Again));
    assert_eq!(enc.state(), EncodeState::ReadSource);
    assert_eq!(enc.poll(3), Ok(Progress::Again));
    assert_eq!(enc.state(), EncodeState::WriteFrame);
    assert_eq!(enc.amount(), 2048);
    assert_eq!(enc.poll(5), Ok(Progress::Again));
    assert_eq!(enc.state(), EncodeState::Eof);
    assert_eq!(enc.poll(1), Ok(Progress::Ready(5000)));
    let (_, sink) = enc.into_inner();
    let wire = sink.into_bytes();

    let mut dec = copy_decode(MemorySource::new(wire, 4096), MemorySink::new(4096));
    assert_eq!(dec.poll(usize::MAX), Ok(Progress::Ready(5000)));
    assert_eq!(dec.poll(usize::MAX), Ok(Progress::Ready(5000)));
    let (_, sink) = dec.into_inner();
    assert_eq!(sink.into_bytes(), payload);
}

#[test]
fn poll_stops_where_the_transport_blocks() {
    let wire = vec![2u8, 0, 0, 0, 5, 6, 0, 0, 0, 0];
    let src = Stalling { inner: MemorySource::new(wire, 3), stall: false };
    let mut dec = copy_decode(src, MemorySink::new(64));
    let mut blocked = 0;
    let n = loop {
        match dec.poll(100) {
            Ok(Progress::Ready(n)) => break n,
            Ok(Progress::NotReady) => blocked += 1,
            other => panic!("decoder stopped: {:?}", other),
        }
    };
    assert_eq!(n, 2);
    // five reads get through, of 3, 1, 2, 3 and 1 bytes; every other read blocks
    assert_eq!(blocked, 4);
    let (_, sink) = dec.into_inner();
    assert_eq!(sink.into_bytes(), vec![5, 6]);

    let mut dec = copy_decode(MemorySource::new(vec![9u8, 0], 64), MemorySink::new(64));
    assert_eq!(dec.poll(100), Err(CodecError::UnexpectedEof));
    assert_eq!(dec.state(), DecodeState::ReadLength);
}

#[test]
fn decoder_close_with_a_header_in_hand_reads_on() {
    let wire = vec![1u8, 0, 0, 0, 42, 0, 0, 0, 0];
    let src = Stalling { inner: MemorySource::new(wire, 3), stall: false };
    let mut dec = copy_decode(src, MemorySink::new(64));
    // three header bytes arrive, then the source would block
    assert_eq!(dec.advance(), Ok(Progress::NotReady));
    assert_eq!(dec.state(), DecodeState::ReadLength);
    let mut dec = dec.close();
    assert_eq!(dec.advance(), Ok(Progress::Again));
    assert_eq!(dec.state(), DecodeState::ReadBody);
    assert_eq!(dec.advance(), Ok(Progress::NotReady));
    assert_eq!(dec.advance(), Ok(Progress::Again));
    assert_eq!(dec.state(), DecodeState::Deliver);
    assert_eq!(dec.advance(), Ok(Progress::Again));
    // at the frame boundary the decoder ends without another read
    assert_eq!(dec.advance(), Ok(Progress::Again));
    assert_eq!(dec.state(), DecodeState::Eof);
    assert_eq!(dec.advance(), Ok(Progress::Ready(1)));
    let (_, sink) = dec.into_inner();
    assert_eq!(sink.into_bytes(), vec![42]);
}
