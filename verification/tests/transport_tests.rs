use sskcp::memory::{MemorySink, MemorySource};
use sskcp::transport::{ByteSink, ByteSource, TransportError};

struct Never;

impl ByteSource for Never {
    fn read(&mut self, _buf: &mut Vec<u8>, _start: usize, _end: usize) -> Result<usize, TransportError> {
        Err(TransportError::WouldBlock)
    }
}

#[test]
fn memory_source_hands_out_chunks() {
    let mut src = MemorySource::new(vec![1, 2, 3, 4, 5], 2);
    let mut buf = vec![0u8; 8];
    assert_eq!(src.read(&mut buf, 1, 8), Ok(2));
    assert_eq!(buf, vec![0, 1, 2, 0, 0, 0, 0, 0]);
    assert_eq!(src.read(&mut buf, 0, 1), Ok(1));
    assert_eq!(src.read(&mut buf, 0, 8), Ok(2));
    assert_eq!(src.read(&mut buf, 0, 8), Ok(0));
    assert_eq!(buf, vec![4, 5, 2, 0, 0, 0, 0, 0]);
    let mut never = Never;
    assert_eq!(never.read(&mut buf, 0, 1), Err(TransportError::WouldBlock));
}

#[test]
fn memory_sink_accepts_chunks() {
    let mut sink = MemorySink::new(3);
    assert_eq!(sink.write(&[9, 8, 7, 6]), Ok(3));
    assert_eq!(sink.write(&[6]), Ok(1));
    assert_eq!(sink.flush(), Ok(()));
    assert_eq!(sink.into_bytes(), vec![9, 8, 7, 6]);
}
