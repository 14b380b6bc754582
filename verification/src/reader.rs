//! Byte sources for the parser: an in-memory slice and a buffered stream,
//! both tracking a 1-based line and column position and offering a caching
//! mode that records the exact byte range consumed since it was switched on.
//!
//! A source is specified against the whole byte sequence it delivers
//! (`input`) and how far it has consumed it (`pos`).  For a slice the input
//! is the slice itself; for a stream it is the sequence of bytes the stream
//! hands out in this run.

use crate::error::Error;
use vstd::prelude::*;

verus! {

broadcast use vstd::std_specs::vec::axiom_spec_len;

/// The 1-based line number after consuming the bytes; it grows on every
/// line feed and saturates at the machine limit.
pub open spec fn line_of(s: Seq<u8>) -> int
    decreases s.len(),
{
    if s.len() == 0 {
        1
    } else if s.last() == 10 && line_of(s.drop_last()) < usize::MAX {
        line_of(s.drop_last()) + 1
    } else {
        line_of(s.drop_last())
    }
}

/// The 1-based column number after consuming the bytes: it resets on a line
/// feed, grows on any other byte, and saturates at the machine limit.
pub open spec fn col_of(s: Seq<u8>) -> int
    decreases s.len(),
{
    if s.len() == 0 {
        1
    } else if s.last() == 10 {
        1
    } else if col_of(s.drop_last()) < usize::MAX {
        col_of(s.drop_last()) + 1
    } else {
        col_of(s.drop_last())
    }
}

/// Line and column numbers stay within machine bounds.
pub proof fn lemma_pos_bounds(s: Seq<u8>)
    ensures
        1 <= line_of(s) <= usize::MAX,
        1 <= col_of(s) <= usize::MAX,
    decreases s.len(),
{
    if s.len() > 0 {
        lemma_pos_bounds(s.drop_last());
    }
}

/// A position in the input, expressed as a 1-based line and column.
#[derive(Clone, Copy)]
pub struct Position {
    line: usize,
    column: usize,
}

impl View for Position {
    type V = (int, int);

    closed spec fn view(&self) -> (int, int) {
        (self.line as int, self.column as int)
    }
}

impl Position {
    /// Creates a position from the given line and column.
    pub fn new(line: usize, column: usize) -> (r: Position)
        ensures
            r@ == (line as int, column as int),
    {
        Position { line, column }
    }

    /// The line.
    pub fn line(&self) -> (r: usize)
        ensures
            r == self@.0,
    {
        self.line
    }

    /// The column.
    pub fn column(&self) -> (r: usize)
        ensures
            r == self@.1,
    {
        self.column
    }
}

/// The basic byte-read interface the parser consumes: look at the next byte,
/// consume it, and report how much was consumed and where that stands in
/// lines and columns.
pub trait BytesReader: Sized {
    /// The whole byte sequence this source delivers.
    spec fn input(&self) -> Seq<u8>;

    /// How many bytes were consumed so far.
    spec fn pos(&self) -> int;

    /// The source's internal state is consistent.
    spec fn wf(&self) -> bool;

    /// A consistent source has consumed a prefix of its input.
    proof fn lemma_wf(&self)
        requires
            self.wf(),
        ensures
            0 <= self.pos() <= self.input().len(),
    ;

    /// The source can report errors at all; a slice cannot.
    spec fn can_err(&self) -> bool;

    /// The next step is already decided: no outside read is needed to tell
    /// whether a byte is available.
    spec fn ready(&self) -> bool;

    /// Gets the next byte without consuming it.
    fn peek(&mut self) -> (r: Result<Option<u8>, Error>)
        requires
            old(self).wf(),
        ensures
            final(self).wf(),
            final(self).input() == old(self).input(),
            final(self).pos() == old(self).pos(),
            final(self).can_err() == old(self).can_err(),
            final(self).cache_start() == old(self).cache_start(),
            old(self).ready() ==> final(self).ready(),
            match r {
                Ok(Some(b)) => final(self).ready() && old(self).pos() < old(self).input().len()
                    && old(self).input()[old(self).pos()] == b,
                Ok(None) => final(self).ready() && old(self).pos() == old(self).input().len(),
                Err(e) => old(self).can_err() && (e is Io || e is Reader),
            },
    ;

    /// Gets the next byte and consumes it.
    fn next(&mut self) -> (r: Result<Option<u8>, Error>)
        requires
            old(self).wf(),
        ensures
            final(self).wf(),
            final(self).input() == old(self).input(),
            final(self).can_err() == old(self).can_err(),
            final(self).cache_start() == old(self).cache_start(),
            match r {
                Ok(Some(b)) => old(self).pos() < old(self).input().len() && old(self).input()[old(
                    self,
                ).pos()] == b && final(self).pos() == old(self).pos() + 1,
                Ok(None) => old(self).pos() == old(self).input().len() && final(self).pos() == old(
                    self,
                ).pos(),
                Err(e) => old(self).can_err() && (e is Io || e is Reader) && final(self).pos()
                    == old(self).pos(),
            },
    ;

    /// Consumes the byte that was peeked.
    fn discard(&mut self)
        requires
            old(self).wf(),
            old(self).ready(),
        ensures
            final(self).wf(),
            final(self).input() == old(self).input(),
            final(self).can_err() == old(self).can_err(),
            final(self).cache_start() == old(self).cache_start(),
            final(self).pos() == if old(self).pos() < old(self).input().len() {
                old(self).pos() + 1
            } else {
                old(self).pos()
            },
    ;

    /// The number of bytes consumed so far.
    fn index(&self) -> (r: usize)
        requires
            self.wf(),
        ensures
            r == self.pos(),
    ;

    /// The current position as a line and column.
    fn position(&self) -> (r: Position)
        requires
            self.wf(),
        ensures
            r@ == (
                line_of(self.input().take(self.pos())),
                col_of(self.input().take(self.pos())),
            ),
    ;

    /// Where the recording of consumed bytes started, if it is on.
    spec fn cache_start(&self) -> Option<int>;

    /// Starts recording the bytes consumed from here on.
    fn start_caching(&mut self)
        requires
            old(self).wf(),
        ensures
            final(self).wf(),
            final(self).input() == old(self).input(),
            final(self).pos() == old(self).pos(),
            final(self).can_err() == old(self).can_err(),
            final(self).ready() == old(self).ready(),
            final(self).cache_start() == Some(old(self).pos()),
    ;

    /// Ends the recording and hands the recorded bytes back.
    fn take_cached_data(&mut self) -> (r: Option<Vec<u8>>)
        requires
            old(self).wf(),
        ensures
            final(self).wf(),
            final(self).input() == old(self).input(),
            final(self).pos() == old(self).pos(),
            final(self).can_err() == old(self).can_err(),
            final(self).ready() == old(self).ready(),
            final(self).cache_start() is None,
            match r {
                Some(v) => old(self).cache_start() is Some && v@ == old(self).input().subrange(
                    old(self).cache_start().unwrap(),
                    old(self).pos(),
                ),
                None => old(self).cache_start() is None,
            },
    ;
}

/// A reader over an in-memory byte slice; caching is a remembered start
/// offset, and nothing is copied until the recorded range is taken.
pub struct SliceReader<'a> {
    slice: &'a [u8],
    index: usize,
    cache: Option<usize>,
}

impl<'a> SliceReader<'a> {
    /// Creates a reader over the given slice.
    pub fn new(slice: &'a [u8]) -> (r: SliceReader<'a>)
        ensures
            r.wf(),
            r.input() == slice@,
            r.pos() == 0,
            r.cache_start() is None,
            !r.can_err(),
            r.ready(),
    {
        SliceReader { slice, index: 0, cache: None }
    }

    /// The bytes not yet consumed.
    pub fn remainder_len(&self) -> (r: usize)
        requires
            self.wf(),
        ensures
            r == self.input().len() - self.pos(),
    {
        self.slice.len() - self.index
    }

    /// A borrowed view of the bytes not yet consumed.
    pub fn remainder_slice(&self) -> (r: &[u8])
        requires
            self.wf(),
        ensures
            r@ == self.input().skip(self.pos()),
    {
        let r = vstd::slice::slice_subrange(self.slice, self.index, self.slice.len());
        proof {
            assert(r@ =~= self.input().skip(self.pos()));
        }
        r
    }

    /// An owned copy of the bytes not yet consumed.
    pub fn remainder_data(&self) -> (r: Vec<u8>)
        requires
            self.wf(),
        ensures
            r@ == self.input().skip(self.pos()),
    {
        vstd::slice::slice_to_vec(self.remainder_slice())
    }

    /// Reads the next `n` bytes and consumes them, or does nothing when
    /// fewer remain.
    pub fn next_n(&mut self, n: usize) -> (r: Result<Option<&'a [u8]>, Error>)
        requires
            old(self).wf(),
        ensures
            final(self).wf(),
            final(self).input() == old(self).input(),
            final(self).cache_start() == old(self).cache_start(),
            final(self).can_err() == old(self).can_err(),
            final(self).ready() == old(self).ready(),
            match r {
                Ok(Some(b)) => old(self).pos() + n <= old(self).input().len() && b@ == old(
                    self,
                ).input().subrange(old(self).pos(), old(self).pos() + n) && final(self).pos()
                    == old(self).pos() + n,
                Ok(None) => old(self).pos() + n > old(self).input().len() && final(self).pos()
                    == old(self).pos(),
                Err(_) => false,
            },
    {
        if n > self.slice.len() - self.index {
            return Ok(None);
        }
        let r = vstd::slice::slice_subrange(self.slice, self.index, self.index + n);
        self.index = self.index + n;
        Ok(Some(r))
    }

    /// Gets the next `n` bytes without consuming them, or nothing when fewer
    /// remain.
    pub fn peek_n(&self, n: usize) -> (r: Result<Option<&'a [u8]>, Error>)
        requires
            self.wf(),
        ensures
            match r {
                Ok(Some(b)) => self.pos() + n <= self.input().len() && b@ == self.input().subrange(
                    self.pos(),
                    self.pos() + n,
                ),
                Ok(None) => self.pos() + n > self.input().len(),
                Err(_) => false,
            },
    {
        if n > self.slice.len() - self.index {
            return Ok(None);
        }
        Ok(Some(vstd::slice::slice_subrange(self.slice, self.index, self.index + n)))
    }

    /// Consumes the next `n` bytes, or does nothing when fewer remain.
    pub fn discard_n(&mut self, n: usize)
        requires
            old(self).wf(),
        ensures
            final(self).wf(),
            final(self).input() == old(self).input(),
            final(self).cache_start() == old(self).cache_start(),
            final(self).can_err() == old(self).can_err(),
            final(self).ready() == old(self).ready(),
            final(self).pos() == if old(self).pos() + n <= old(self).input().len() {
                old(self).pos() + n
            } else {
                old(self).pos()
            },
    {
        if n <= self.slice.len() - self.index {
            self.index = self.index + n;
        }
    }

    /// The recorded bytes so far, borrowed; `None` when caching is off.
    pub fn cached_slice(&mut self) -> (r: Option<&[u8]>)
        requires
            old(self).wf(),
        ensures
            *final(self) == *old(self),
            match r {
                Some(b) => old(self).cache_start() is Some && b@ == old(self).input().subrange(
                    old(self).cache_start().unwrap(),
                    old(self).pos(),
                ),
                None => old(self).cache_start() is None,
            },
    {
        match self.cache {
            Some(c) => Some(vstd::slice::slice_subrange(self.slice, c, self.index)),
            None => None,
        }
    }

    /// The recorded bytes so far, copied; `None` when caching is off.
    pub fn cached_data(&mut self) -> (r: Option<Vec<u8>>)
        requires
            old(self).wf(),
        ensures
            *final(self) == *old(self),
            match r {
                Some(b) => old(self).cache_start() is Some && b@ == old(self).input().subrange(
                    old(self).cache_start().unwrap(),
                    old(self).pos(),
                ),
                None => old(self).cache_start() is None,
            },
    {
        match self.cached_slice() {
            Some(s) => Some(vstd::slice::slice_to_vec(s)),
            None => None,
        }
    }

    /// The number of recorded bytes so far; `None` when caching is off.
    pub fn cached_len(&mut self) -> (r: Option<usize>)
        requires
            old(self).wf(),
        ensures
            *final(self) == *old(self),
            match r {
                Some(n) => old(self).cache_start() is Some && n == old(self).pos() - old(
                    self,
                ).cache_start().unwrap(),
                None => old(self).cache_start() is None,
            },
    {
        match self.cache {
            Some(c) => Some(self.index - c),
            None => None,
        }
    }

    /// Ends the recording and drops the recorded range.
    pub fn end_caching(&mut self)
        requires
            old(self).wf(),
        ensures
            final(self).wf(),
            final(self).input() == old(self).input(),
            final(self).pos() == old(self).pos(),
            final(self).can_err() == old(self).can_err(),
            final(self).ready() == old(self).ready(),
            final(self).cache_start() is None,
    {
        self.cache = None;
    }
}

impl<'a> BytesReader for SliceReader<'a> {
    closed spec fn input(&self) -> Seq<u8> {
        self.slice@
    }

    closed spec fn pos(&self) -> int {
        self.index as int
    }

    closed spec fn wf(&self) -> bool {
        &&& self.index <= self.slice@.len()
        &&& match self.cache {
            Some(c) => c <= self.index,
            None => true,
        }
    }

    closed spec fn can_err(&self) -> bool {
        false
    }

    closed spec fn ready(&self) -> bool {
        true
    }

    closed spec fn cache_start(&self) -> Option<int> {
        match self.cache {
            Some(c) => Some(c as int),
            None => None,
        }
    }

    proof fn lemma_wf(&self) {
    }

    fn peek(&mut self) -> (r: Result<Option<u8>, Error>) {
        if self.index >= self.slice.len() {
            return Ok(None);
        }
        Ok(Some(self.slice[self.index]))
    }

    fn next(&mut self) -> (r: Result<Option<u8>, Error>) {
        if self.index >= self.slice.len() {
            return Ok(None);
        }
        let ch = self.slice[self.index];
        self.index = self.index + 1;
        Ok(Some(ch))
    }

    fn discard(&mut self) {
        if self.index < self.slice.len() {
            self.index = self.index + 1;
        }
    }

    fn index(&self) -> (r: usize) {
        self.index
    }

    fn position(&self) -> (r: Position) {
        let end = if self.index < self.slice.len() {
            self.index
        } else {
            self.slice.len()
        };
        let mut line: usize = 1;
        let mut column: usize = 1;
        let mut i: usize = 0;
        proof {
            assert(self.input().take(0) =~= Seq::<u8>::empty());
        }
        while i < end
            invariant
                0 <= i <= end <= self.slice@.len(),
                line == line_of(self.input().take(i as int)),
                column == col_of(self.input().take(i as int)),
            decreases end - i,
        {
            proof {
                assert(self.input().take(i + 1).drop_last() =~= self.input().take(i as int));
                assert(self.input().take(i + 1).last() == self.input()[i as int]);
                lemma_pos_bounds(self.input().take(i as int));
            }
            let b = self.slice[i];
            if b == 10 {
                if line < usize::MAX {
                    line = line + 1;
                }
                column = 1;
            } else {
                if column < usize::MAX {
                    column = column + 1;
                }
            }
            i = i + 1;
        }
        proof {
            assert(self.input().take(end as int) =~= self.input().take(self.pos()));
        }
        Position { line, column }
    }

    fn start_caching(&mut self) {
        self.cache = Some(self.index);
    }

    fn take_cached_data(&mut self) -> (r: Option<Vec<u8>>) {
        let taken = match self.cache {
            Some(c) => Some(vstd::slice::slice_to_vec(
                vstd::slice::slice_subrange(self.slice, c, self.index),
            )),
            None => None,
        };
        self.cache = None;
        taken
    }
}

/// The recorded bytes a stream reader has copied aside, and how much of the
/// current buffer still belongs to the recording.
struct Cache {
    data: Vec<u8>,
    pre: usize,
}

/// The boxed byte stream an [`IoReader`] pulls from; the stream handle is
/// opaque to the verifier, which sees its bytes only through
/// [`IoReader::read_bytes`].
#[verifier::external_body]
struct StreamBox {
    io: Box<dyn std::io::Read>,
}

/// A buffered reader over a byte stream; bytes are pulled in chunks, the
/// position is tracked incrementally, and caching copies recorded bytes into
/// an owned buffer so that they survive a refill.
pub struct IoReader {
    io: StreamBox,
    buf: Vec<u8>,
    cur: usize,
    idx: usize,
    line: usize,
    column: usize,
    eof: bool,
    cache: Option<Cache>,
    input: Ghost<Seq<u8>>,
    cache_from: Ghost<int>,
}

impl IoReader {
    /// Builds a reader around a stream, with an empty buffer and the
    /// position at line one, column one.
    ///
    /// The ghost input stands for the byte sequence the stream delivers over
    /// this reader's lifetime, up to the stream's first read of zero bytes
    /// (after which the reader never asks it again) and cut off at the
    /// machine limit; it exists only as the reference point of the
    /// contracts, and [`IoReader::read_bytes`] is trusted to deliver exactly
    /// its bytes.
    #[verifier::external_body]
    pub fn new<R: std::io::Read + 'static>(io: R) -> (r: IoReader)
        ensures
            r.wf(),
            r.pos() == 0,
            r.cache_start() is None,
            r.can_err(),
    {
        let (buf, cur, idx, line, column) = (Vec::new(), 0, 0, 1, 1);
        let (input, cache_from) = (Ghost(Seq::empty()), Ghost(0));
        IoReader { io: StreamBox { io: Box::new(io) }, buf, cur, idx, line, column, eof: false, cache: None, input, cache_from }
    }

    /// Relies on `std::io::Read::read`: replaces the spent buffer with the
    /// next chunk of the stream.  A read of zero bytes marks the end: the
    /// ghost input is the bytes delivered before the first such read, and
    /// the reader never calls the stream again after one.  A "would block"
    /// read is retried; any other error is handed back.
    #[verifier::external_body]
    fn read_bytes(&mut self) -> (r: Result<bool, Error>)
        requires
            old(self).cur == old(self).buf@.len(),
            !old(self).eof,
        ensures
            final(self).idx == old(self).idx,
            final(self).line == old(self).line,
            final(self).column == old(self).column,
            final(self).cache == old(self).cache,
            final(self).cache_from == old(self).cache_from,
            final(self).input == old(self).input,
            final(self).cur == 0,
            match r {
                Ok(true) => !final(self).eof && final(self).buf@.len() > 0 && old(self).idx
                    + final(self).buf@.len() <= old(self).input@.len() && final(self).buf@ == old(
                    self,
                ).input@.subrange(
                    old(self).idx as int,
                    old(self).idx + final(self).buf@.len(),
                ),
                Ok(false) => final(self).eof && final(self).buf@.len() == 0 && old(self).idx
                    == old(self).input@.len(),
                Err(e) => !final(self).eof && final(self).buf@.len() == 0 && e is Io,
            },
    {
        self.cur = 0;
        self.buf.clear();
        loop {
            let mut chunk = vec![0u8; 1024];
            match self.io.io.read(&mut chunk) {
                Ok(0) => { self.eof = true; return Ok(false); },
                Ok(n) => { chunk.truncate(n); self.buf = chunk; return Ok(true); },
                Err(e) if e.kind() == std::io::ErrorKind::WouldBlock => continue,
                Err(e) => return Err(Error::Io(e)),
            }
        }
    }

    /// Copies the part of the buffer that belongs to the recording into the
    /// owned cache, so that a refill may drop the buffer.
    fn update_cache(&mut self)
        requires
            old(self).wf(),
        ensures
            final(self).wf(),
            final(self).input() == old(self).input(),
            final(self).pos() == old(self).pos(),
            final(self).can_err() == old(self).can_err(),
            final(self).ready() == old(self).ready(),
            final(self).cache_start() == old(self).cache_start(),
            final(self).buf == old(self).buf,
            final(self).cur == old(self).cur,
            final(self).eof == old(self).eof,
            match final(self).cache {
                Some(c) => c.pre == final(self).cur && c.data@ == final(self).input@.subrange(
                    final(self).cache_from@,
                    final(self).idx as int,
                ),
                None => true,
            },
    {
        let mut taken: Option<Cache> = None;
        core::mem::swap(&mut self.cache, &mut taken);
        match taken {
            Some(c) => {
                let Cache { data: mut data0, pre } = c;
                let mut i = pre;
                while i < self.cur
                    invariant
                        pre <= i <= self.cur,
                        self.cur <= self.buf@.len(),
                        data0@ == old(self).cache.unwrap().data@ + self.buf@.subrange(
                            pre as int,
                            i as int,
                        ),
                    decreases self.cur - i,
                {
                    let b = self.buf[i];
                    data0.push(b);
                    proof {
                        assert(data0@ =~= old(self).cache.unwrap().data@ + self.buf@.subrange(
                            pre as int,
                            i + 1,
                        ));
                    }
                    i = i + 1;
                }
                let cur = self.cur;
                self.cache = Some(Cache { data: data0, pre: cur });
                proof {
                    assert(self.cache.unwrap().data@ =~= self.input@.subrange(
                        self.cache_from@,
                        self.idx as int,
                    ));
                }
            },
            None => {},
        }
    }

    /// Flushes the recording and pulls the next chunk of the stream into the
    /// buffer.  Once the stream has reported its end, it is never asked
    /// again: the remembered end is reported directly.
    fn load(&mut self) -> (r: Result<bool, Error>)
        requires
            old(self).wf(),
            old(self).cur == old(self).buf@.len(),
        ensures
            final(self).wf(),
            final(self).input() == old(self).input(),
            final(self).pos() == old(self).pos(),
            final(self).can_err() == old(self).can_err(),
            final(self).cache_start() == old(self).cache_start(),
            match r {
                Ok(true) => final(self).pos() < final(self).input().len() && final(self).ready(),
                Ok(false) => final(self).pos() == final(self).input().len() && final(self).ready(),
                Err(e) => e is Io,
            },
    {
        if self.eof {
            return Ok(false);
        }
        self.update_cache();
        let r = self.read_bytes();
        let mut taken: Option<Cache> = None;
        core::mem::swap(&mut self.cache, &mut taken);
        match taken {
            Some(c) => {
                let Cache { data: data0, pre: _unused } = c;
                self.cache = Some(Cache { data: data0, pre: 0 });
            },
            None => {},
        }
        proof {
            if r is Ok && r.unwrap() == true {
                assert(self.buf@ =~= self.input@.subrange(
                    self.idx - self.cur,
                    self.idx - self.cur + self.buf@.len(),
                ));
            }
            if !(r is Ok && r.unwrap() == true) {
                assert(self.buf@ =~= self.input@.subrange(
                    self.idx - self.cur,
                    self.idx - self.cur + self.buf@.len(),
                ));
            }
        }
        r
    }

    /// The recorded bytes so far, borrowed; `None` when caching is off.
    pub fn cached_slice(&mut self) -> (r: Option<&[u8]>)
        requires
            old(self).wf(),
        ensures
            final(self).wf(),
            final(self).input() == old(self).input(),
            final(self).pos() == old(self).pos(),
            final(self).can_err() == old(self).can_err(),
            final(self).ready() == old(self).ready(),
            final(self).cache_start() == old(self).cache_start(),
            match r {
                Some(b) => old(self).cache_start() is Some && b@ == old(self).input().subrange(
                    old(self).cache_start().unwrap(),
                    old(self).pos(),
                ),
                None => old(self).cache_start() is None,
            },
    {
        self.update_cache();
        match &self.cache {
            Some(c) => Some(c.data.as_slice()),
            None => None,
        }
    }

    /// The recorded bytes so far, copied; `None` when caching is off.
    pub fn cached_data(&mut self) -> (r: Option<Vec<u8>>)
        requires
            old(self).wf(),
        ensures
            final(self).wf(),
            final(self).input() == old(self).input(),
            final(self).pos() == old(self).pos(),
            final(self).can_err() == old(self).can_err(),
            final(self).ready() == old(self).ready(),
            final(self).cache_start() == old(self).cache_start(),
            match r {
                Some(b) => old(self).cache_start() is Some && b@ == old(self).input().subrange(
                    old(self).cache_start().unwrap(),
                    old(self).pos(),
                ),
                None => old(self).cache_start() is None,
            },
    {
        let r = match self.cached_slice() {
            Some(s) => Some(vstd::slice::slice_to_vec(s)),
            None => None,
        };
        r
    }

    /// The number of recorded bytes so far; `None` when caching is off.
    pub fn cached_len(&mut self) -> (r: Option<usize>)
        requires
            old(self).wf(),
        ensures
            final(self).wf(),
            final(self).input() == old(self).input(),
            final(self).pos() == old(self).pos(),
            final(self).can_err() == old(self).can_err(),
            final(self).ready() == old(self).ready(),
            final(self).cache_start() == old(self).cache_start(),
            match r {
                Some(n) => old(self).cache_start() is Some && n == old(self).pos() - old(
                    self,
                ).cache_start().unwrap(),
                None => old(self).cache_start() is None,
            },
    {
        match self.cached_slice() {
            Some(s) => Some(s.len()),
            None => None,
        }
    }

    /// Ends the recording and drops the recorded range.
    pub fn end_caching(&mut self)
        requires
            old(self).wf(),
        ensures
            final(self).wf(),
            final(self).input() == old(self).input(),
            final(self).pos() == old(self).pos(),
            final(self).can_err() == old(self).can_err(),
            final(self).ready() == old(self).ready(),
            final(self).cache_start() is None,
    {
        self.cache = None;
    }

    /// Whether a recording is on.
    pub fn is_caching(&self) -> (r: bool)
        requires
            self.wf(),
        ensures
            r == (self.cache_start() is Some),
    {
        self.cache.is_some()
    }
}

impl BytesReader for IoReader {
    closed spec fn input(&self) -> Seq<u8> {
        self.input@
    }

    closed spec fn pos(&self) -> int {
        self.idx as int
    }

    closed spec fn wf(&self) -> bool {
        &&& self.input@.len() <= usize::MAX
        &&& self.cur <= self.buf@.len()
        &&& self.cur <= self.idx
        &&& self.idx - self.cur + self.buf@.len() <= self.input@.len()
        &&& (self.eof ==> self.idx - self.cur + self.buf@.len() == self.input@.len())
        &&& self.buf@ == self.input@.subrange(
            self.idx - self.cur,
            self.idx - self.cur + self.buf@.len(),
        )
        &&& self.line == line_of(self.input@.take(self.idx as int))
        &&& self.column == col_of(self.input@.take(self.idx as int))
        &&& match self.cache {
            Some(c) => {
                &&& c.pre <= self.cur
                &&& 0 <= self.cache_from@ <= self.idx - (self.cur - c.pre)
                &&& c.data@ == self.input@.subrange(
                    self.cache_from@,
                    self.idx - (self.cur - c.pre),
                )
            },
            None => true,
        }
    }

    closed spec fn can_err(&self) -> bool {
        true
    }

    closed spec fn ready(&self) -> bool {
        self.cur < self.buf@.len() || self.idx == self.input@.len()
    }

    closed spec fn cache_start(&self) -> Option<int> {
        match self.cache {
            Some(_) => Some(self.cache_from@),
            None => None,
        }
    }

    proof fn lemma_wf(&self) {
    }

    fn peek(&mut self) -> (r: Result<Option<u8>, Error>) {
        if self.cur == self.buf.len() {
            match self.load() {
                Ok(true) => {},
                Ok(false) => {
                    return Ok(None);
                },
                Err(e) => {
                    return Err(e);
                },
            }
        }
        Ok(Some(self.buf[self.cur]))
    }

    fn next(&mut self) -> (r: Result<Option<u8>, Error>) {
        if self.cur == self.buf.len() {
            match self.load() {
                Ok(true) => {},
                Ok(false) => {
                    return Ok(None);
                },
                Err(e) => {
                    return Err(e);
                },
            }
        }
        let ch = self.buf[self.cur];
        proof {
            assert(self.input@.take(self.idx + 1).drop_last() =~= self.input@.take(
                self.idx as int,
            ));
            assert(self.input@.take(self.idx + 1).last() == self.input@[self.idx as int]);
            lemma_pos_bounds(self.input@.take(self.idx as int));
        }
        self.cur = self.cur + 1;
        self.idx = self.idx + 1;
        if ch == 10 {
            if self.line < usize::MAX {
                self.line = self.line + 1;
            }
            self.column = 1;
        } else {
            if self.column < usize::MAX {
                self.column = self.column + 1;
            }
        }
        Ok(Some(ch))
    }

    fn discard(&mut self) {
        if self.cur == self.buf.len() {
            match self.load() {
                Ok(true) => {},
                Ok(false) => {
                    return ;
                },
                Err(_) => {
                    return ;
                },
            }
        }
        let ch = self.buf[self.cur];
        proof {
            assert(self.input@.take(self.idx + 1).drop_last() =~= self.input@.take(
                self.idx as int,
            ));
            assert(self.input@.take(self.idx + 1).last() == self.input@[self.idx as int]);
            lemma_pos_bounds(self.input@.take(self.idx as int));
        }
        self.cur = self.cur + 1;
        self.idx = self.idx + 1;
        if ch == 10 {
            if self.line < usize::MAX {
                self.line = self.line + 1;
            }
            self.column = 1;
        } else {
            if self.column < usize::MAX {
                self.column = self.column + 1;
            }
        }
    }

    fn index(&self) -> (r: usize) {
        self.idx
    }

    fn position(&self) -> (r: Position) {
        Position { line: self.line, column: self.column }
    }

    fn start_caching(&mut self)
    {
        let cur = self.cur;
        let mut taken: Option<Cache> = None;
        core::mem::swap(&mut self.cache, &mut taken);
        match taken {
            Some(c) => {
                let Cache { data: mut data0, pre: _unused } = c;
                data0.clear();
                self.cache = Some(Cache { data: data0, pre: cur });
            },
            None => {
                self.cache = Some(Cache { data: Vec::new(), pre: cur });
            },
        }
        proof {
            self.cache_from@ = self.idx as int;
            assert(self.cache.unwrap().data@ =~= self.input@.subrange(
                self.idx as int,
                self.idx as int,
            ));
        }
    }

    fn take_cached_data(&mut self) -> (r: Option<Vec<u8>>) {
        self.update_cache();
        let mut taken: Option<Cache> = None;
        core::mem::swap(&mut self.cache, &mut taken);
        match taken {
            Some(c) => Some(c.data),
            None => None,
        }
    }
}

} // verus!
