//! The seekable byte source that an archive reads from, and an in-memory one.
use vstd::prelude::*;

verus! {

/// Largest length of a source: sources are addressed by signed 64-bit offsets.
pub const MAX_SOURCE_LEN: u64 = 0x7fff_ffff_ffff_ffff;

/// What can go wrong while reading an archive.
#[derive(Debug, Clone, PartialEq, Eq)]
pub enum Error {
    /// The underlying source failed; the text is its own description.
    Io(String),
    /// A header is truncated, fails its checksum or holds a malformed number.
    BadArchive,
    /// An entry's data has been read to its end.
    EndOfFile,
    /// A seek before the start or past the end of an entry.
    OutOfRange,
}

/// The bytes that a read of at most `n` bytes at position `pos` returns:
/// those of `content` from `pos` on, as many as there are, up to `n`.
pub open spec fn window(content: Seq<u8>, pos: nat, n: nat) -> Seq<u8> {
    if pos >= content.len() {
        Seq::empty()
    } else if pos + n <= content.len() {
        content.subrange(pos as int, (pos + n) as int)
    } else {
        content.subrange(pos as int, content.len() as int)
    }
}

/// A byte source with a read position that can be set to any absolute offset.
pub trait Source {
    /// All bytes of the source.
    spec fn content(&self) -> Seq<u8>;

    /// The current read position.
    spec fn position(&self) -> nat;

    /// Whether the source never fails: every read and seek succeeds.
    spec fn infallible(&self) -> bool;

    /// The error of the last read or seek that failed, if any did.
    spec fn last_error(&self) -> Option<Error>;

    /// Reads at most `n` bytes from the current position and advances past them.
    /// It returns fewer than `n` only at the end of the source.
    fn read(&mut self, n: usize) -> (r: Result<Vec<u8>, Error>)
        ensures
            final(self).content() == old(self).content(),
            final(self).infallible() == old(self).infallible(),
            old(self).infallible() ==> r is Ok,
            match r {
                Ok(v) => {
                    &&& v@ == window(old(self).content(), old(self).position(), n as nat)
                    &&& final(self).position() == old(self).position() + v@.len()
                    &&& final(self).last_error() is None
                },
                Err(e) => {
                    &&& e is Io
                    &&& final(self).position() == old(self).position()
                    &&& final(self).last_error() == Some(e)
                },
            },
    ;

    /// Moves the read position to the absolute offset `pos`.
    fn seek(&mut self, pos: u64) -> (r: Result<(), Error>)
        ensures
            final(self).content() == old(self).content(),
            final(self).infallible() == old(self).infallible(),
            old(self).infallible() ==> r is Ok,
            match r {
                Ok(_) => final(self).position() == pos && final(self).last_error() is None,
                Err(e) => {
                    &&& e is Io
                    &&& final(self).position() == old(self).position()
                    &&& final(self).last_error() == Some(e)
                },
            },
    ;
}

/// A source over bytes held in memory.
pub struct MemReader {
    bytes: Vec<u8>,
    pos: u64,
}

impl MemReader {
    /// A reader positioned at the start of `bytes`.
    pub fn new(bytes: Vec<u8>) -> (r: MemReader)
        requires
            bytes@.len() <= MAX_SOURCE_LEN,
        ensures
            r.content() == bytes@,
            r.position() == 0,
            r.infallible(),
    {
        MemReader { bytes, pos: 0 }
    }
}

impl Source for MemReader {
    closed spec fn content(&self) -> Seq<u8> {
        self.bytes@
    }

    closed spec fn position(&self) -> nat {
        self.pos as nat
    }

    /// Reading and seeking in memory never fail.
    closed spec fn infallible(&self) -> bool {
        true
    }

    closed spec fn last_error(&self) -> Option<Error> {
        None
    }

    fn read(&mut self, n: usize) -> (r: Result<Vec<u8>, Error>) {
        let len = self.bytes.len();
        let mut out: Vec<u8> = Vec::new();
        if self.pos as u128 >= len as u128 {
            return Ok(out);
        }
        let start = self.pos as usize;
        let end: usize = if n <= len - start { start + n } else { len };
        let mut i: usize = start;
        while i < end
            invariant
                start <= i <= end <= len == self.bytes@.len(),
                out@ == self.bytes@.subrange(start as int, i as int),
            decreases end - i,
        {
            out.push(self.bytes[i]);
            i = i + 1;
            assert(out@ =~= self.bytes@.subrange(start as int, i as int));
        }
        self.pos = end as u64;
        Ok(out)
    }

    fn seek(&mut self, pos: u64) -> (r: Result<(), Error>) {
        self.pos = pos;
        Ok(())
    }
}

} // verus!
