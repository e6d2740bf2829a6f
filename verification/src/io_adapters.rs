//! In-memory streams: what a command reads from the stage before it, and
//! where it writes for the stage after it.
use vstd::prelude::*;
use vstd::utf8::encode_utf8;

verus! {

/// A stream of bytes held in memory. Its value is what is left to read.
#[derive(Debug)]
pub struct MemReader {
    rest: Vec<u8>,
}

impl View for MemReader {
    type V = Seq<u8>;

    closed spec fn view(&self) -> Seq<u8> {
        self.rest@
    }
}

impl MemReader {
    /// A reader that will yield the bytes of `buf`.
    pub fn new(buf: Vec<u8>) -> (reader: MemReader)
        ensures
            reader@ == buf@,
    {
        MemReader { rest: buf }
    }

    /// Reads everything that is left.
    pub fn read_to_end(&mut self) -> (data: Vec<u8>)
        ensures
            data@ == old(self)@,
            final(self)@ == Seq::<u8>::empty(),
    {
        let mut data: Vec<u8> = Vec::new();
        std::mem::swap(&mut self.rest, &mut data);
        data
    }
}

/// A sink of bytes held in memory. Its value is what was written to it.
#[derive(Debug)]
pub struct MemWriter {
    buf: Vec<u8>,
}

impl View for MemWriter {
    type V = Seq<u8>;

    closed spec fn view(&self) -> Seq<u8> {
        self.buf@
    }
}

impl MemWriter {
    /// An empty sink.
    pub fn new() -> (writer: MemWriter)
        ensures
            writer@ == Seq::<u8>::empty(),
    {
        MemWriter { buf: Vec::new() }
    }

    /// Appends `data`, all of it, and returns its length.
    pub fn write(&mut self, data: &[u8]) -> (written: usize)
        ensures
            final(self)@ == old(self)@ + data@,
            written == data@.len(),
    {
        self.buf.extend_from_slice(data);
        assert(self.buf@ =~= old(self).buf@ + data@);
        data.len()
    }

    /// Appends the UTF-8 encoding of `text`.
    pub fn write_str(&mut self, text: &str)
        ensures
            final(self)@ == old(self)@ + encode_utf8(text@),
    {
        self.write(text.as_bytes());
    }

    /// Does nothing: what was written is already there.
    pub fn flush(&mut self)
        ensures
            final(self)@ == old(self)@,
    {
    }

    /// The bytes that were written.
    pub fn into_inner(self) -> (data: Vec<u8>)
        ensures
            data@ == self@,
    {
        self.buf
    }
}

} // verus!
