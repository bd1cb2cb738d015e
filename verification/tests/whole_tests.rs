use sskcp::config::{IpAddress, SocketAddress};
use sskcp::error::CodecError;
use sskcp::opt::PluginOpts;
use sskcp::whole::{decode_all, decode_in_chunks, encode_all, encode_in_chunks};

fn bytes(len: usize) -> Vec<u8> {
    (0..len).map(|i| (i * 31 + 7) as u8).collect()
}

#[test]
fn whole_round_trip() {
    for len in [0usize, 1, 5, 2047, 2048, 2049, 5000] {
        let payload = bytes(len);
        let wire = encode_all(&payload);
        let out = decode_all(&wire);
        assert_eq!(out.payload, payload);
        assert_eq!(out.result, Ok(len as u64));
    }
}

#[test]
fn encoding_nothing_is_the_close_signal() {
    assert_eq!(encode_all(&[]), vec![0, 0, 0, 0]);
}

#[test]
fn encoding_hello() {
    assert_eq!(
        encode_all(b"hello"),
        vec![5, 0, 0, 0, b'h', b'e', b'l', b'l', b'o', 0, 0, 0, 0]
    );
}

#[test]
fn encoding_fills_frames_of_2048_bytes() {
    let payload = vec![7u8; 2049];
    let wire = encode_all(&payload);
    let mut expected = vec![0x00, 0x08, 0x00, 0x00];
    expected.extend_from_slice(&[7u8; 2048]);
    expected.extend_from_slice(&[0x01, 0x00, 0x00, 0x00, 7]);
    expected.extend_from_slice(&[0, 0, 0, 0]);
    assert_eq!(wire, expected);

    let wire = encode_all(&vec![7u8; 5000]);
    assert_eq!(wire.len(), 5000 + 3 * 4 + 4);
    assert_eq!(&wire[4104..4108], &[0x88, 0x03, 0x00, 0x00]);
}

#[test]
fn decoding_the_close_signal_delivers_nothing() {
    let out = decode_all(&[0, 0, 0, 0]);
    assert!(out.payload.is_empty());
    assert_eq!(out.result, Ok(0));
    // bytes behind the close signal are not delivered
    let out = decode_all(&[0, 0, 0, 0, 1, 0, 0, 0, 0xAA]);
    assert!(out.payload.is_empty());
    assert_eq!(out.result, Ok(0));
}

#[test]
fn decoding_a_cut_off_header_fails() {
    for wire in [vec![5u8], vec![5u8, 0], vec![5u8, 0, 0]] {
        let out = decode_all(&wire);
        assert!(out.payload.is_empty());
        assert_eq!(out.result, Err(CodecError::UnexpectedEof));
    }
    // a whole frame is delivered before the violation is reported
    let out = decode_all(&[1, 0, 0, 0, 0xAA, 7, 0]);
    assert_eq!(out.payload, vec![0xAA]);
    assert_eq!(out.result, Err(CodecError::UnexpectedEof));
}

#[test]
fn decoding_a_cut_off_payload_fails() {
    let out = decode_all(&[2, 0, 0, 0, 9, 9, 3, 0, 0, 0, 1, 2]);
    assert_eq!(out.payload, vec![9, 9]);
    assert_eq!(out.result, Err(CodecError::UnexpectedEof));
}

#[test]
fn decoding_without_a_close_signal_ends_between_frames() {
    let out = decode_all(&[1, 0, 0, 0, 42]);
    assert_eq!(out.payload, vec![42]);
    assert_eq!(out.result, Ok(1));
    let out = decode_all(&[]);
    assert!(out.payload.is_empty());
    assert_eq!(out.result, Ok(0));
}

#[test]
fn header_gives_the_length_least_significant_byte_first() {
    let mut wire = vec![2u8, 1, 0, 0];
    wire.extend_from_slice(&bytes(258));
    wire.extend_from_slice(&[0, 0, 0, 0, 0xEE]);
    let out = decode_all(&wire);
    assert_eq!(out.payload, bytes(258));
    assert_eq!(out.result, Ok(258));
}

#[test]
fn result_does_not_depend_on_how_the_bytes_are_split() {
    let payload = bytes(4500);
    let wire = encode_all(&payload);
    for write_chunk in [1usize, 2, 3, 5, 2051, 2052, 2053, usize::MAX] {
        assert_eq!(encode_in_chunks(payload.clone(), write_chunk), wire);
    }
    let mut cut = wire.clone();
    cut.truncate(wire.len() - 6);
    for (rc, wc) in [(1usize, 1usize), (2, 7), (3, 2), (4, 4), (5, 4096), (2052, 1), (usize::MAX, 3)] {
        let out = decode_in_chunks(wire.clone(), rc, wc);
        assert_eq!(out.payload, payload);
        assert_eq!(out.result, Ok(4500));
        let whole = decode_all(&cut);
        let out = decode_in_chunks(cut.clone(), rc, wc);
        assert_eq!(out.payload, whole.payload);
        assert_eq!(out.result, whole.result);
        assert_eq!(out.result, Err(CodecError::UnexpectedEof));
        assert_eq!(out.payload, payload[..4096].to_vec());
    }
}

#[test]
fn outbound_sockets_bind_to_the_family_of_the_target() {
    let v4 = SocketAddress { ip: IpAddress::V4(0x0a000001), port: 8388 };
    let v6 = SocketAddress { ip: IpAddress::V6(1), port: 8388 };
    let mut opts = PluginOpts::default();
    assert_eq!(opts.outbound_bind(&v4), SocketAddress { ip: IpAddress::V4(0), port: 0 });
    assert_eq!(opts.outbound_bind(&v6), SocketAddress { ip: IpAddress::V6(0), port: 0 });
    opts.outbound_bind_addr = Some(IpAddress::V4(0xc0a80001));
    assert_eq!(
        opts.outbound_bind(&v6),
        SocketAddress { ip: IpAddress::V4(0xc0a80001), port: 0 }
    );
}
