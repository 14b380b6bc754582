//! The deserializer: a byte source paired with the recursion-depth counter
//! the parser checks while it descends into arrays and objects.

use crate::error::Error;
use crate::reader::{BytesReader, IoReader, SliceReader};
use vstd::prelude::*;

verus! {

/// A struct that deserializes JSON from a byte source into values.
pub struct Deserializer<R> {
    /// The byte source.
    pub(crate) reader: R,
    /// How many levels of arrays and objects stand open around the value
    /// being parsed.
    pub(crate) recursion_depth: u32,
}

impl<R> Deserializer<R> {
    /// The byte source, as the contracts see it.
    pub closed spec fn spec_reader(&self) -> R {
        self.reader
    }

    /// How many nesting levels stand open, as the contracts see them.
    pub closed spec fn depth(&self) -> u32 {
        self.recursion_depth
    }

    /// The contract accessors name exactly the fields.
    pub(crate) proof fn lemma_views(&self)
        ensures
            self.spec_reader() == self.reader,
            self.depth() == self.recursion_depth,
    {
    }
}

/// The reader accessor of a deserializer names exactly its reader field.
pub(crate) broadcast proof fn lemma_deserializer_reader<R>(d: Deserializer<R>)
    ensures
        #[trigger] d.spec_reader() == d.reader,
{
}

/// The depth accessor of a deserializer names exactly its depth field.
pub(crate) broadcast proof fn lemma_deserializer_depth<R>(d: Deserializer<R>)
    ensures
        #[trigger] d.depth() == d.recursion_depth,
{
}

impl<R: BytesReader> Deserializer<R> {
    /// Creates a deserializer over a byte source.
    pub fn new(reader: R) -> (r: Deserializer<R>)
        ensures
            r.spec_reader() == reader,
            r.depth() == 0,
    {
        Deserializer { reader, recursion_depth: 0 }
    }

    /// Looks at the next byte without consuming it.
    pub fn peek_char(&mut self) -> (r: Result<Option<u8>, Error>)
        requires
            old(self).spec_reader().wf(),
        ensures
            final(self).spec_reader().wf(),
            final(self).spec_reader().input() == old(self).spec_reader().input(),
            final(self).spec_reader().pos() == old(self).spec_reader().pos(),
            final(self).depth() == old(self).depth(),
            match r {
                Ok(Some(b)) => old(self).spec_reader().pos() < old(self).spec_reader().input().len()
                    && old(self).spec_reader().input()[old(self).spec_reader().pos()] == b,
                Ok(None) => old(self).spec_reader().pos() == old(self).spec_reader().input().len(),
                Err(e) => old(self).spec_reader().can_err() && (e is Io || e is Reader),
            },
    {
        self.reader.peek()
    }

    /// Gets the next byte and consumes it.
    pub fn next_char(&mut self) -> (r: Result<Option<u8>, Error>)
        requires
            old(self).spec_reader().wf(),
        ensures
            final(self).spec_reader().wf(),
            final(self).spec_reader().input() == old(self).spec_reader().input(),
            final(self).depth() == old(self).depth(),
            match r {
                Ok(Some(b)) => old(self).spec_reader().pos() < old(self).spec_reader().input().len()
                    && old(self).spec_reader().input()[old(self).spec_reader().pos()] == b
                    && final(self).spec_reader().pos() == old(self).spec_reader().pos() + 1,
                Ok(None) => old(self).spec_reader().pos() == old(self).spec_reader().input().len()
                    && final(self).spec_reader().pos() == old(self).spec_reader().pos(),
                Err(e) => old(self).spec_reader().can_err() && (e is Io || e is Reader),
            },
    {
        self.reader.next()
    }

    /// Consumes the byte that was peeked.
    pub fn discard_char(&mut self)
        requires
            old(self).spec_reader().wf(),
            old(self).spec_reader().ready(),
        ensures
            final(self).spec_reader().wf(),
            final(self).spec_reader().input() == old(self).spec_reader().input(),
            final(self).depth() == old(self).depth(),
            final(self).spec_reader().pos() == (if old(self).spec_reader().pos()
                < old(self).spec_reader().input().len() {
                old(self).spec_reader().pos() + 1
            } else {
                old(self).spec_reader().pos()
            }),
    {
        self.reader.discard()
    }
}

impl Deserializer<IoReader> {
    /// Creates a deserializer over a byte stream.
    pub fn new_from_io<R: std::io::Read + 'static>(reader: R) -> (r: Deserializer<IoReader>)
        ensures
            r.spec_reader().wf(),
            r.spec_reader().pos() == 0,
            r.spec_reader().cache_start() is None,
            r.depth() == 0,
    {
        Deserializer::new(IoReader::new(reader))
    }
}

impl<'a> Deserializer<SliceReader<'a>> {
    /// Creates a deserializer over a byte slice.
    pub fn new_from_slice(slice: &'a [u8]) -> (r: Deserializer<SliceReader<'a>>)
        ensures
            r.spec_reader().wf(),
            r.spec_reader().pos() == 0,
            r.spec_reader().input() == slice@,
            r.spec_reader().cache_start() is None,
            !r.spec_reader().can_err(),
            r.depth() == 0,
    {
        Deserializer::new(SliceReader::new(slice))
    }
}

} // verus!
