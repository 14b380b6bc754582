//! Tests for the byte sources: the slice reader, the stream reader and the
//! position type.

use std::cmp;
use std::io::{ErrorKind, Read};
use ylong_json::{BytesReader, IoReader, Position, SliceReader};

struct TestIo {
    vec: Vec<u8>,
    idx: usize,
}

impl TestIo {
    fn new(vec: Vec<u8>) -> Self {
        Self { vec, idx: 0 }
    }
}

impl Read for TestIo {
    fn read(&mut self, buf: &mut [u8]) -> std::io::Result<usize> {
        if self.idx == self.vec.len() {
            return Ok(0);
        }
        let last = cmp::min(self.idx + buf.len(), self.vec.len());
        let len = last - self.idx;
        buf[..len].copy_from_slice(&self.vec[self.idx..last]);
        self.idx = last;
        Ok(len)
    }
}

struct TestWouldBlockIo {
    cnt: usize,
}

impl TestWouldBlockIo {
    fn new() -> Self {
        Self { cnt: 0 }
    }
}

impl Read for TestWouldBlockIo {
    fn read(&mut self, _buf: &mut [u8]) -> std::io::Result<usize> {
        if self.cnt < 10 {
            self.cnt += 1;
            return Err(ErrorKind::WouldBlock.into());
        }
        Ok(0)
    }
}

struct TestErrIo;

impl TestErrIo {
    fn new() -> Self {
        Self
    }
}

impl Read for TestErrIo {
    fn read(&mut self, _buf: &mut [u8]) -> std::io::Result<usize> {
        Err(ErrorKind::AddrInUse.into())
    }
}

#[test]
fn ut_position_new() {
    let position = Position::new(1, 1);
    assert_eq!(position.line(), 1);
    assert_eq!(position.column(), 1);
}

#[test]
fn ut_position_line() {
    let position = Position::new(1, 1);
    assert_eq!(position.line(), 1);
}

#[test]
fn ut_position_column() {
    let position = Position::new(1, 1);
    assert_eq!(position.column(), 1);
}

#[test]
fn ut_position_clone() {
    let position = Position::new(1, 1);
    let position = position.clone();
    assert_eq!(position.line(), 1);
    assert_eq!(position.column(), 1);
}

#[test]
fn ut_slice_reader_new() {
    let slice = "A";
    let mut slice_reader = SliceReader::new(slice.as_bytes());
    assert_eq!(slice_reader.remainder_slice(), slice.as_bytes());
    assert_eq!(slice_reader.index(), 0);
    assert!(slice_reader.cached_len().is_none());
}

#[test]
fn ut_slice_reader_next() {
    let slice = "A";
    let mut slice_reader = SliceReader::new(slice.as_bytes());
    assert_eq!(slice_reader.next().unwrap(), Some(b'A'));
    assert_eq!(slice_reader.next().unwrap(), None);
}

#[test]
fn ut_slice_reader_peek() {
    let slice = "A";
    let mut slice_reader = SliceReader::new(slice.as_bytes());
    assert_eq!(slice_reader.peek().unwrap(), Some(b'A'));
    assert_eq!(slice_reader.peek().unwrap(), Some(b'A'));
    assert_eq!(slice_reader.next().unwrap(), Some(b'A'));
    assert_eq!(slice_reader.peek().unwrap(), None);
}

#[test]
fn ut_slice_reader_discard() {
    let slice = "A";
    let mut slice_reader = SliceReader::new(slice.as_bytes());
    assert_eq!(slice_reader.index(), 0);
    slice_reader.discard();
    assert_eq!(slice_reader.index(), 1);
    slice_reader.discard();
    assert_eq!(slice_reader.index(), 1);
}

#[test]
fn ut_slice_reader_index() {
    let slice = "A";
    let slice_reader = SliceReader::new(slice.as_bytes());
    assert_eq!(slice_reader.index(), 0);
}

#[test]
fn ut_slice_reader_position() {
    let slice = "A\nB";
    let mut slice_reader = SliceReader::new(slice.as_bytes());
    let position = slice_reader.position();
    assert_eq!(position.line(), 1);
    assert_eq!(position.column(), 1);
    assert_eq!(slice_reader.next().unwrap(), Some(b'A'));

    let position = slice_reader.position();
    assert_eq!(position.line(), 1);
    assert_eq!(position.column(), 2);
    assert_eq!(slice_reader.next().unwrap(), Some(b'\n'));

    let position = slice_reader.position();
    assert_eq!(position.line(), 2);
    assert_eq!(position.column(), 1);
    assert_eq!(slice_reader.next().unwrap(), Some(b'B'));

    let position = slice_reader.position();
    assert_eq!(position.line(), 2);
    assert_eq!(position.column(), 2);

    assert_eq!(slice_reader.next().unwrap(), None);
    let position = slice_reader.position();
    assert_eq!(position.line(), 2);
    assert_eq!(position.column(), 2);
}

#[test]
fn ut_slice_reader_start_caching() {
    let slice = "A";
    let mut slice_reader = SliceReader::new(slice.as_bytes());
    assert!(slice_reader.cached_len().is_none());
    slice_reader.start_caching();
    assert_eq!(slice_reader.cached_len(), Some(0));
}

#[test]
fn ut_slice_reader_cached_len() {
    let slice = "A";
    let mut slice_reader = SliceReader::new(slice.as_bytes());
    assert_eq!(slice_reader.cached_len(), None);
    slice_reader.start_caching();
    assert_eq!(slice_reader.cached_len(), Some(0));
}

#[test]
fn ut_slice_reader_cached_slice() {
    let slice = "A";
    let mut slice_reader = SliceReader::new(slice.as_bytes());
    assert_eq!(slice_reader.cached_slice(), None);
    slice_reader.start_caching();
    assert_eq!(slice_reader.cached_slice(), Some([].as_slice()));
}

#[test]
fn ut_slice_reader_cached_data() {
    let slice = "A";
    let mut slice_reader = SliceReader::new(slice.as_bytes());
    assert_eq!(slice_reader.cached_data(), None);
    slice_reader.start_caching();
    assert_eq!(slice_reader.cached_data(), Some(Vec::new()));
}

#[test]
fn ut_slice_reader_end_caching() {
    let slice = "A";
    let mut slice_reader = SliceReader::new(slice.as_bytes());
    slice_reader.start_caching();
    assert!(slice_reader.cached_len().is_some());
    slice_reader.end_caching();
    assert!(slice_reader.cached_len().is_none());
}

#[test]
fn ut_slice_reader_take_cached_data() {
    let slice = "A";
    let mut slice_reader = SliceReader::new(slice.as_bytes());
    slice_reader.start_caching();
    assert!(slice_reader.cached_len().is_some());
    assert_eq!(slice_reader.take_cached_data(), Some(Vec::new()));
    assert!(slice_reader.cached_len().is_none());
}

#[test]
fn ut_slice_reader_remainder_len() {
    let slice = "A";
    let slice_reader = SliceReader::new(slice.as_bytes());
    assert_eq!(slice_reader.remainder_len(), 1);
}

#[test]
fn ut_slice_reader_remainder_slice() {
    let slice = "A";
    let slice_reader = SliceReader::new(slice.as_bytes());
    assert_eq!(slice_reader.remainder_slice(), slice.as_bytes());
}

#[test]
fn ut_slice_reader_remainder_data() {
    let slice = "A";
    let slice_reader = SliceReader::new(slice.as_bytes());
    assert_eq!(slice_reader.remainder_data(), slice.as_bytes().to_vec());
}

#[test]
fn ut_slice_reader_next_n() {
    let slice = "ABC";
    let mut slice_reader = SliceReader::new(slice.as_bytes());
    assert_eq!(slice_reader.next_n(2).unwrap(), Some("AB".as_bytes()));
    assert_eq!(slice_reader.next_n(2).unwrap(), None);
}

#[test]
fn ut_slice_reader_peek_n() {
    let slice = "ABC";
    let slice_reader = SliceReader::new(slice.as_bytes());
    assert_eq!(slice_reader.peek_n(2).unwrap(), Some("AB".as_bytes()));
    assert_eq!(slice_reader.peek_n(4).unwrap(), None);
}

#[test]
fn ut_slice_reader_discard_n() {
    let slice = "ABC";
    let mut slice_reader = SliceReader::new(slice.as_bytes());
    slice_reader.discard_n(2);
    assert_eq!(slice_reader.next().unwrap(), Some(b'C'));
}

#[test]
fn ut_io_reader_new() {
    let io = TestIo::new(Vec::new());
    let mut io_reader = IoReader::new(io);

    assert_eq!(io_reader.index(), 0);
    let position = io_reader.position();
    assert_eq!(position.line(), 1);
    assert_eq!(position.column(), 1);
    assert!(io_reader.cached_len().is_none());
}

#[test]
fn ut_io_reader_next() {
    // A stream one byte longer than the internal chunk size.
    let io = TestIo::new(vec![1u8; 1025]);
    let mut io_reader = IoReader::new(io);
    assert_eq!(io_reader.next().unwrap(), Some(1));
    for _ in 0..1023 {
        let _ = io_reader.next().unwrap();
    }
    assert_eq!(io_reader.next().unwrap(), Some(1));
    assert_eq!(io_reader.next().unwrap(), None);

    // A stream that blocks ten times before its end.
    let io = TestWouldBlockIo::new();
    let mut io_reader = IoReader::new(io);
    assert_eq!(io_reader.next().unwrap(), None);

    // A stream that fails.
    let io = TestErrIo::new();
    let mut io_reader = IoReader::new(io);
    assert!(io_reader.next().is_err());
}

#[test]
fn ut_io_reader_peek() {
    let io = TestIo::new(vec![1u8; 1]);
    let mut io_reader = IoReader::new(io);
    assert_eq!(io_reader.peek().unwrap(), Some(1));
    assert_eq!(io_reader.peek().unwrap(), Some(1));
    assert_eq!(io_reader.next().unwrap(), Some(1));
    assert_eq!(io_reader.peek().unwrap(), None);

    let io = TestWouldBlockIo::new();
    let mut io_reader = IoReader::new(io);
    assert_eq!(io_reader.peek().unwrap(), None);

    let io = TestErrIo::new();
    let mut io_reader = IoReader::new(io);
    assert!(io_reader.peek().is_err());
}

#[test]
fn ut_io_reader_discard() {
    let io = TestIo::new(vec![1u8; 1]);
    let mut io_reader = IoReader::new(io);
    assert_eq!(io_reader.index(), 0);
    io_reader.discard();
    assert_eq!(io_reader.index(), 1);
    io_reader.discard();
    assert_eq!(io_reader.index(), 1);
}

#[test]
fn ut_io_reader_index() {
    let io = TestIo::new(vec![1u8; 1]);
    let io_reader = IoReader::new(io);
    assert_eq!(io_reader.index(), 0);
}

#[test]
fn ut_io_reader_position() {
    let io = TestIo::new(vec![1u8, b'\n', 2, b'\n', 3]);
    let mut io_reader = IoReader::new(io);
    let position = io_reader.position();
    assert_eq!(position.line(), 1);
    assert_eq!(position.column(), 1);
    assert_eq!(io_reader.next().unwrap(), Some(1));

    let position = io_reader.position();
    assert_eq!(position.line(), 1);
    assert_eq!(position.column(), 2);
    assert_eq!(io_reader.next().unwrap(), Some(b'\n'));

    let position = io_reader.position();
    assert_eq!(position.line(), 2);
    assert_eq!(position.column(), 1);
    assert_eq!(io_reader.next().unwrap(), Some(2));

    let position = io_reader.position();
    assert_eq!(position.line(), 2);
    assert_eq!(position.column(), 2);
    assert_eq!(io_reader.peek().unwrap(), Some(b'\n'));
    io_reader.discard();

    let position = io_reader.position();
    assert_eq!(position.line(), 3);
    assert_eq!(position.column(), 1);
    assert_eq!(io_reader.peek().unwrap(), Some(3));
    io_reader.discard();

    let position = io_reader.position();
    assert_eq!(position.line(), 3);
    assert_eq!(position.column(), 2);
    assert_eq!(io_reader.peek().unwrap(), None);
}

#[test]
fn ut_io_reader_start_caching() {
    let io = TestIo::new(vec![1]);
    let mut io_reader = IoReader::new(io);
    assert!(io_reader.cached_len().is_none());
    io_reader.start_caching();
    assert!(io_reader.cached_len().is_some());
    assert_eq!(io_reader.cached_len(), Some(0));

    assert_eq!(io_reader.next().unwrap(), Some(1));
    assert_eq!(io_reader.cached_len(), Some(1));
    io_reader.start_caching();
    assert_eq!(io_reader.cached_len(), Some(0));
}

#[test]
fn ut_io_reader_cached_len() {
    let io = TestIo::new(Vec::new());
    let mut io_reader = IoReader::new(io);
    assert_eq!(io_reader.cached_len(), None);
    io_reader.start_caching();
    assert_eq!(io_reader.cached_len(), Some(0));
}

#[test]
fn ut_io_reader_cached_slice() {
    let io = TestIo::new(Vec::new());
    let mut io_reader = IoReader::new(io);
    assert_eq!(io_reader.cached_slice(), None);
    io_reader.start_caching();
    assert_eq!(io_reader.cached_slice(), Some([].as_slice()));

    // The recording must survive a buffer refill.
    let mut input = vec![0; 1024];
    input.push(1);
    let io = TestIo::new(input);
    let mut io_reader = IoReader::new(io);
    for _ in 0..1023 {
        let _ = io_reader.next();
    }
    io_reader.start_caching();
    assert_eq!(io_reader.next().unwrap(), Some(0));
    assert_eq!(io_reader.next().unwrap(), Some(1));
    assert_eq!(io_reader.cached_len(), Some(2));
}

#[test]
fn ut_io_reader_cached_data() {
    let io = TestIo::new(Vec::new());
    let mut io_reader = IoReader::new(io);
    assert_eq!(io_reader.cached_data(), None);
    io_reader.start_caching();
    assert_eq!(io_reader.cached_data(), Some(Vec::new()));
}

#[test]
fn ut_io_reader_end_caching() {
    let io = TestIo::new(Vec::new());
    let mut io_reader = IoReader::new(io);
    io_reader.start_caching();
    assert!(io_reader.cached_len().is_some());
    io_reader.end_caching();
    assert!(io_reader.cached_len().is_none());
}

#[test]
fn ut_io_reader_take_cached_data() {
    let io = TestIo::new(Vec::new());
    let mut io_reader = IoReader::new(io);
    io_reader.start_caching();
    assert!(io_reader.cached_len().is_some());
    assert_eq!(io_reader.take_cached_data(), Some(Vec::new()));
    assert!(io_reader.cached_len().is_none());
}
