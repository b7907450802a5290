//! The archive handle, its entry iterator and the bounded view of one entry.
use vstd::prelude::*;
use crate::header::{
    checksum_of, field, header_cksum, header_name, header_size, header_valid, read_octal, trim,
    trim_field, trunc, truncate, CKSUM_LEN, CKSUM_START, NAME_LEN, NAME_START, SIZE_LEN,
    SIZE_START,
};
use crate::source::{window, Error, Source, MAX_SOURCE_LEN};
use vstd::slice::slice_subrange;

verus! {

/// What the iterator yields for one entry: its name, its size and where its
/// data starts in the source.
pub struct EntrySpec {
    pub name: Seq<u8>,
    pub size: nat,
    pub data_offset: nat,
}

/// The outcome of one step of the iterator from a given offset.
pub enum Step {
    /// Two all-zero blocks: the archive ends here.
    End,
    /// A truncated block or a header that does not validate.
    Bad,
    /// An entry, and the offset at which the next step starts.
    Entry(EntrySpec, nat),
}

pub open spec fn round_up(n: nat) -> nat {
    ((n + 511) / 512) * 512
}

pub open spec fn block_at(data: Seq<u8>, off: nat) -> Seq<u8> {
    data.subrange(off as int, (off + 512) as int)
}

pub open spec fn is_zero_block(b: Seq<u8>) -> bool {
    forall|i: int| 0 <= i < b.len() ==> b[i] == 0
}

/// The entry whose header block starts at `h`.
pub open spec fn entry_at(data: Seq<u8>, h: nat) -> Step {
    let b = block_at(data, h);
    if header_valid(b) {
        let size = header_size(b)->0;
        Step::Entry(
            EntrySpec { name: header_name(b), size, data_offset: h + 512 },
            h + 512 + round_up(size),
        )
    } else {
        Step::Bad
    }
}

/// One step of the iterator from offset `o`: a single all-zero block is
/// skipped, a second one ends the archive.
pub open spec fn step(data: Seq<u8>, o: nat) -> Step {
    if o + 512 > data.len() {
        Step::Bad
    } else if !is_zero_block(block_at(data, o)) {
        entry_at(data, o)
    } else if o + 1024 > data.len() {
        Step::Bad
    } else if is_zero_block(block_at(data, o + 512)) {
        Step::End
    } else {
        entry_at(data, o + 512)
    }
}

pub open spec fn scan_measure(data: Seq<u8>, o: nat) -> nat {
    if o <= data.len() {
        (data.len() + 1 - o) as nat
    } else {
        0
    }
}

/// The entries that iteration from offset `o` yields, and whether it then ends
/// cleanly (`true`) or on a malformed archive (`false`).
pub open spec fn scan(data: Seq<u8>, o: nat) -> (Seq<EntrySpec>, bool)
    decreases scan_measure(data, o),
{
    if o > data.len() {
        (Seq::empty(), false)
    } else {
        match step(data, o) {
            Step::End => (Seq::empty(), true),
            Step::Bad => (Seq::empty(), false),
            Step::Entry(e, n) => {
                if n > o {
                    let r = scan(data, n);
                    (seq![e] + r.0, r.1)
                } else {
                    (Seq::empty(), false)
                }
            },
        }
    }
}

/// One step of `scan`: what `step` yields, then the scan from where it leaves off.
pub proof fn lemma_scan_step(data: Seq<u8>, o: nat)
    ensures
        step(data, o) is End ==> scan(data, o) == (Seq::<EntrySpec>::empty(), true),
        step(data, o) is Bad ==> scan(data, o) == (Seq::<EntrySpec>::empty(), false),
        step(data, o) matches Step::Entry(e, n) ==> {
            &&& n > o
            &&& o + 512 <= data.len()
            &&& scan(data, o) == (seq![e] + scan(data, n).0, scan(data, n).1)
        },
{
}

/// All entries of an archive read from its start, and whether it is well formed.
pub open spec fn listing(data: Seq<u8>) -> (Seq<EntrySpec>, bool) {
    scan(data, 0)
}

/// A handle on an archive read from the source `R`.
pub struct Archive<R: Source> {
    obj: R,
    pos: u64,
}

impl<R: Source> Archive<R> {
    /// The bytes of the archive.
    pub closed spec fn content(&self) -> Seq<u8> {
        self.obj.content()
    }

    /// Whether the source never fails.
    pub closed spec fn infallible(&self) -> bool {
        self.obj.infallible()
    }

    /// The recorded position of the source.
    pub closed spec fn cursor(&self) -> nat {
        self.pos as nat
    }

    /// The error of the source's last failed read or seek, if any.
    pub closed spec fn source_error(&self) -> Option<Error> {
        self.obj.last_error()
    }

    /// `e` is the source's own error, passed on unchanged; only a source that
    /// can fail gives one.
    pub open spec fn io_failure(&self, e: Error) -> bool {
        &&& !self.infallible()
        &&& e is Io
        &&& self.source_error() == Some(e)
    }

    /// The position of the source is the one recorded.
    pub closed spec fn wf(&self) -> bool {
        &&& self.obj.position() == self.pos as nat
        &&& self.obj.content().len() <= MAX_SOURCE_LEN
    }

    /// An archive over `obj`, which stands at its start.
    pub fn new(obj: R) -> (r: Archive<R>)
        requires
            obj.position() == 0,
            obj.content().len() <= MAX_SOURCE_LEN,
        ensures
            r.wf(),
            r.content() == obj.content(),
            r.infallible() == obj.infallible(),
            r.cursor() == 0,
    {
        Archive { obj, pos: 0 }
    }

    /// An iterator over the entries, from the start of the archive.
    pub fn files(&mut self) -> (r: Result<Files, Error>)
        requires
            old(self).wf(),
        ensures
            final(self).wf(),
            final(self).content() == old(self).content(),
            final(self).infallible() == old(self).infallible(),
            match r {
                Ok(f) => f.offset() == 0 && !f.is_done() && f.wf() && final(self).cursor() == 0,
                Err(e) => final(self).io_failure(e) && final(self).cursor() == old(self).cursor(),
            },
    {
        match self.seek(0) {
            Ok(()) => Ok(Files { done: false, offset: 0 }),
            Err(e) => Err(e),
        }
    }

    /// Every entry of the archive, in the order in which they are stored.
    /// Fails with `BadArchive` where the archive is malformed.
    pub fn entries(&mut self) -> (r: Result<Vec<File>, Error>)
        requires
            old(self).wf(),
        ensures
            final(self).wf(),
            final(self).content() == old(self).content(),
            final(self).infallible() == old(self).infallible(),
            match r {
                Ok(v) => {
                    &&& listing(old(self).content()).1
                    &&& v@.len() == listing(old(self).content()).0.len()
                    &&& forall|i: int|
                        0 <= i < v@.len() ==> {
                            &&& (#[trigger] v@[i]).entry() == listing(old(self).content()).0[i]
                            &&& v@[i].wf()
                            &&& v@[i].position() == 0
                        }
                },
                Err(e) => final(self).io_failure(e) || (e is BadArchive && !listing(
                    old(self).content(),
                ).1),
            },
            old(self).infallible() ==> (r is Ok <==> listing(old(self).content()).1),
    {
        let ghost c = self.content();
        let mut files = match self.files() {
            Ok(f) => f,
            Err(e) => return Err(e),
        };
        let mut out: Vec<File> = Vec::new();
        let ghost mut seen: Seq<EntrySpec> = Seq::empty();
        loop
            invariant
                self.wf(),
                self.content() == c,
                c == old(self).content(),
                self.infallible() == old(self).infallible(),
                files.wf(),
                !files.is_done(),
                out@.len() == seen.len(),
                forall|i: int|
                    0 <= i < out@.len() ==> {
                        &&& (#[trigger] out@[i]).entry() == seen[i]
                        &&& out@[i].wf()
                        &&& out@[i].position() == 0
                    },
                listing(c) == (seen + scan(c, files.offset()).0, scan(c, files.offset()).1),
            decreases scan_measure(c, files.offset()),
        {
            let ghost o = files.offset();
            proof {
                lemma_scan_step(c, o);
            }
            match files.next(self) {
                None => {
                    assert(seen + Seq::<EntrySpec>::empty() =~= seen);
                    return Ok(out);
                },
                Some(Ok(f)) => {
                    proof {
                        let n = files.offset();
                        assert(seen + scan(c, o).0 =~= seen.push(f.entry()) + scan(c, n).0);
                        seen = seen.push(f.entry());
                    }
                    out.push(f);
                },
                Some(Err(e)) => {
                    return Err(e);
                },
            }
        }
    }

    /// Moves the source to `pos`, unless it stands there already.
    fn seek(&mut self, pos: u64) -> (r: Result<(), Error>)
        requires
            old(self).wf(),
        ensures
            final(self).wf(),
            final(self).content() == old(self).content(),
            final(self).infallible() == old(self).infallible(),
            old(self).pos == pos ==> r is Ok && *final(self) == *old(self),
            match r {
                Ok(_) => final(self).pos == pos,
                Err(e) => final(self).io_failure(e) && final(self).pos == old(self).pos,
            },
    {
        if self.pos == pos {
            return Ok(());
        }
        match self.obj.seek(pos) {
            Ok(()) => {
                self.pos = pos;
                Ok(())
            },
            Err(e) => Err(e),
        }
    }

    /// Reads at most `n` bytes at the current position.
    fn read(&mut self, n: usize) -> (r: Result<Vec<u8>, Error>)
        requires
            old(self).wf(),
        ensures
            final(self).wf(),
            final(self).content() == old(self).content(),
            final(self).infallible() == old(self).infallible(),
            match r {
                Ok(v) => {
                    &&& v@ == window(old(self).content(), old(self).pos as nat, n as nat)
                    &&& final(self).pos == old(self).pos + v@.len()
                },
                Err(e) => final(self).io_failure(e) && final(self).pos == old(self).pos,
            },
    {
        let r = self.obj.read(n);
        match r {
            Ok(v) => {
                proof {
                    assert(v@.len() <= self.obj.content().len());
                }
                self.pos = self.pos + v.len() as u64;
                Ok(v)
            },
            Err(e) => Err(e),
        }
    }
}

/// Offsets that the iterator can reach: past the largest source by at most one
/// entry's padded data.
pub open spec fn offset_in_range(o: nat) -> bool {
    o <= MAX_SOURCE_LEN + 68719476736
}

/// An iterator over the entries of an archive. Once it has met the end of the
/// archive or an error it yields nothing more.
pub struct Files {
    done: bool,
    offset: u64,
}

/// Whether every byte of `b` is zero.
fn all_zero(b: &Vec<u8>) -> (r: bool)
    ensures
        r == is_zero_block(b@),
{
    let mut i: usize = 0;
    while i < b.len()
        invariant
            i <= b@.len(),
            forall|j: int| 0 <= j < i ==> b@[j] == 0,
        decreases b@.len() - i,
    {
        if b[i] != 0 {
            return false;
        }
        i = i + 1;
    }
    true
}

impl Files {
    /// The offset at which the next step reads.
    pub closed spec fn offset(&self) -> nat {
        self.offset as nat
    }

    /// Whether the iterator has stopped for good.
    pub closed spec fn is_done(&self) -> bool {
        self.done
    }

    /// The offset stays within what the iterator can reach.
    pub closed spec fn wf(&self) -> bool {
        offset_in_range(self.offset as nat)
    }

    /// The next entry of `archive`. `None` once the archive has ended or an
    /// error has been reported; an error is reported once, then the iterator
    /// stops.
    pub fn next<R: Source>(&mut self, archive: &mut Archive<R>) -> (r: Option<Result<File, Error>>)
        requires
            old(archive).wf(),
            old(self).wf(),
        ensures
            final(archive).wf(),
            final(archive).content() == old(archive).content(),
            final(archive).infallible() == old(archive).infallible(),
            final(self).wf(),
            old(self).is_done() ==> {
                &&& r is None
                &&& *final(self) == *old(self)
                &&& *final(archive) == *old(archive)
            },
            !old(self).is_done() ==> match r {
                None => {
                    &&& step(old(archive).content(), old(self).offset()) is End
                    &&& final(self).is_done()
                },
                Some(Ok(f)) => {
                    &&& step(old(archive).content(), old(self).offset()) == Step::Entry(
                        f.entry(),
                        final(self).offset(),
                    )
                    &&& f.wf()
                    &&& f.position() == 0
                    &&& !final(self).is_done()
                },
                Some(Err(e)) => {
                    &&& final(self).is_done()
                    &&& (final(archive).io_failure(e) || (e is BadArchive && step(
                        old(archive).content(),
                        old(self).offset(),
                    ) is Bad))
                },
            },
    {
        if self.done {
            return None;
        }
        let ghost data = archive.content();
        let ghost o = self.offset as nat;
        if let Err(e) = archive.seek(self.offset) {
            self.done = true;
            return Some(Err(e));
        }
        let mut chunk = match archive.read(512) {
            Ok(c) => c,
            Err(e) => {
                self.done = true;
                return Some(Err(e));
            },
        };
        if chunk.len() != 512 {
            self.done = true;
            return Some(Err(Error::BadArchive));
        }
        assert(chunk@ == block_at(data, o));
        self.offset = self.offset + 512;
        if all_zero(&chunk) {
            chunk = match archive.read(512) {
                Ok(c) => c,
                Err(e) => {
                    self.done = true;
                    return Some(Err(e));
                },
            };
            if chunk.len() != 512 {
                self.done = true;
                return Some(Err(Error::BadArchive));
            }
            assert(chunk@ == block_at(data, o + 512));
            self.offset = self.offset + 512;
            if all_zero(&chunk) {
                self.done = true;
                return None;
            }
        }
        let ghost h = (self.offset - 512) as nat;
        assert(step(data, o) == entry_at(data, h));
        let sum = checksum_of(chunk.as_slice());
        let mut ret = File { header: chunk, tar_offset: self.offset, pos: 0, size: 0 };
        let cksum = match ret.cksum() {
            Ok(c) => c,
            Err(e) => {
                self.done = true;
                return Some(Err(e));
            },
        };
        if sum != cksum {
            self.done = true;
            return Some(Err(Error::BadArchive));
        }
        let size = match ret.calc_size() {
            Ok(s) => s,
            Err(e) => {
                self.done = true;
                return Some(Err(e));
            },
        };
        ret.size = size;
        proof {
            crate::header::lemma_size_field_bound(ret.header@);
        }
        let padded = (size + 511) / 512 * 512;
        self.offset = self.offset + padded;
        Some(Ok(ret))
    }
}

/// A read-only view of one entry of an archive, with its own read position.
pub struct File {
    header: Vec<u8>,
    tar_offset: u64,
    pos: u64,
    size: u64,
}

impl File {
    /// The entry this view reads.
    pub closed spec fn entry(&self) -> EntrySpec {
        EntrySpec {
            name: header_name(self.header@),
            size: self.size as nat,
            data_offset: self.tar_offset as nat,
        }
    }

    /// The read position within the entry's data.
    pub closed spec fn position(&self) -> nat {
        self.pos as nat
    }

    /// The header is a whole block that validates, the size is the one it
    /// states and the read position lies within the data.
    pub closed spec fn wf(&self) -> bool {
        &&& self.header@.len() == 512
        &&& header_valid(self.header@)
        &&& self.size as nat == header_size(self.header@)->0
        &&& self.pos <= self.size
        &&& self.tar_offset <= MAX_SOURCE_LEN
    }

    /// The size that the header's size field gives.
    fn calc_size(&self) -> (r: Result<u64, Error>)
        requires
            self.header@.len() == 512,
        ensures
            match r {
                Ok(n) => header_size(self.header@) == Some(n as nat),
                Err(e) => e is BadArchive && header_size(self.header@) is None,
            },
    {
        let field = slice_subrange(self.header.as_slice(), SIZE_START, SIZE_START + SIZE_LEN);
        match read_octal(truncate(field)) {
            Some(n) => Ok(n),
            None => Err(Error::BadArchive),
        }
    }

    /// The checksum that the header's checksum field gives.
    fn cksum(&self) -> (r: Result<u64, Error>)
        requires
            self.header@.len() == 512,
        ensures
            match r {
                Ok(n) => header_cksum(self.header@) == Some(n as nat),
                Err(e) => e is BadArchive && header_cksum(self.header@) is None,
            },
    {
        let field = slice_subrange(self.header.as_slice(), CKSUM_START, CKSUM_START + CKSUM_LEN);
        match read_octal(trim_field(truncate(field))) {
            Some(n) => Ok(n),
            None => Err(Error::BadArchive),
        }
    }

    /// The entry's name as bytes: the name field up to its first NUL.
    pub fn filename_bytes(&self) -> (r: &[u8])
        requires
            self.wf(),
        ensures
            r@ == self.entry().name,
    {
        truncate(slice_subrange(self.header.as_slice(), NAME_START, NAME_START + NAME_LEN))
    }

    /// The entry's name as text; `None` where the bytes are not valid UTF-8.
    pub fn filename(&self) -> (r: Option<&str>)
        requires
            self.wf(),
        ensures
            r is Some <==> utf8_decode(self.entry().name) is Some,
            r is Some ==> r->0@ == utf8_decode(self.entry().name)->0,
            is_ascii(self.entry().name) ==> r is Some && r->0@ == ascii_text(self.entry().name),
    {
        decode_utf8(self.filename_bytes())
    }

    /// The size of the entry's data.
    pub fn size(&self) -> (r: u64)
        ensures
            r as nat == self.entry().size,
    {
        self.size
    }

    /// The read position within the entry's data.
    pub fn tell(&self) -> (r: u64)
        ensures
            r as nat == self.position(),
    {
        self.pos
    }

    /// Moves the read position to `pos` taken from the start, from the current
    /// position or from the end. A target before the start or past the end is
    /// refused with `OutOfRange` and leaves the position as it was.
    pub fn seek(&mut self, pos: i64, style: SeekStyle) -> (r: Result<(), Error>)
        requires
            old(self).wf(),
        ensures
            final(self).wf(),
            final(self).entry() == old(self).entry(),
            seek_in_range(*old(self), pos, style) ==> {
                &&& r is Ok
                &&& final(self).position() == seek_target(
                    old(self).position() as int,
                    old(self).entry().size as int,
                    pos as int,
                    style,
                )
            },
            !seek_in_range(*old(self), pos, style) ==> {
                &&& r matches Err(Error::OutOfRange)
                &&& final(self).position() == old(self).position()
            },
    {
        let next: i128 = match style {
            SeekStyle::SeekSet => pos as i128,
            SeekStyle::SeekCur => self.pos as i128 + pos as i128,
            SeekStyle::SeekEnd => self.size as i128 + pos as i128,
        };
        if next < 0 {
            Err(Error::OutOfRange)
        } else if next > self.size as i128 {
            Err(Error::OutOfRange)
        } else {
            self.pos = next as u64;
            Ok(())
        }
    }

    /// Reads at most `n` bytes of the entry's data at the read position and
    /// advances past them; `EndOfFile` once the position is at the end.
    pub fn read<R: Source>(&mut self, archive: &mut Archive<R>, n: usize) -> (r: Result<Vec<u8>, Error>)
        requires
            old(self).wf(),
            old(archive).wf(),
        ensures
            final(self).wf(),
            final(self).entry() == old(self).entry(),
            final(archive).wf(),
            final(archive).content() == old(archive).content(),
            final(archive).infallible() == old(archive).infallible(),
            old(self).position() == old(self).entry().size <==> (r matches Err(Error::EndOfFile)),
            old(self).position() == old(self).entry().size ==> *final(archive) == *old(archive),
            match r {
                Ok(v) => {
                    &&& old(self).position() < old(self).entry().size
                    &&& v@ == window(
                        old(archive).content(),
                        old(self).entry().data_offset + old(self).position(),
                        min_nat((old(self).entry().size - old(self).position()) as nat, n as nat),
                    )
                    &&& final(self).position() == old(self).position() + v@.len()
                    &&& final(archive).cursor() == old(self).entry().data_offset
                        + old(self).position() + v@.len()
                },
                Err(e) => {
                    &&& e is EndOfFile || final(archive).io_failure(e)
                    &&& final(self).position() == old(self).position()
                    &&& (final(archive).cursor() == old(archive).cursor()
                        || final(archive).cursor() == old(self).entry().data_offset
                        + old(self).position())
                },
            },
    {
        if self.size == self.pos {
            return Err(Error::EndOfFile);
        }
        proof {
            crate::header::lemma_size_field_bound(self.header@);
        }
        if let Err(e) = archive.seek(self.tar_offset + self.pos) {
            return Err(e);
        }
        let left: u64 = self.size - self.pos;
        let amt: usize = if (left as u128) < (n as u128) { left as usize } else { n };
        let v = match archive.read(amt) {
            Ok(v) => v,
            Err(e) => return Err(e),
        };
        proof {
            assert(v@.len() <= amt);
        }
        self.pos = self.pos + v.len() as u64;
        Ok(v)
    }

    /// Reads the entry's data from the read position to its end.
    pub fn read_to_end<R: Source>(&mut self, archive: &mut Archive<R>) -> (r: Result<Vec<u8>, Error>)
        requires
            old(self).wf(),
            old(archive).wf(),
        ensures
            final(self).wf(),
            final(self).entry() == old(self).entry(),
            final(archive).wf(),
            final(archive).content() == old(archive).content(),
            final(archive).infallible() == old(archive).infallible(),
            old(self).position() == old(self).entry().size ==> (r matches Ok(v) && v@.len() == 0),
            match r {
                Ok(v) => {
                    &&& v@ == rest_of(old(archive).content(), old(self).entry(), old(self).position())
                    &&& final(self).position() == old(self).position() + v@.len()
                },
                Err(e) => final(archive).io_failure(e),
            },
    {
        let ghost c = archive.content();
        let ghost a = self.tar_offset as nat + self.pos as nat;
        let ghost p0 = self.pos as nat;
        let mut out: Vec<u8> = Vec::new();
        loop
            invariant
                self.wf(),
                archive.wf(),
                archive.content() == c,
                c == old(archive).content(),
                archive.infallible() == old(archive).infallible(),
                p0 == old(self).position(),
                a == old(self).entry().data_offset + p0,
                self.entry() == old(self).entry(),
                a == self.tar_offset + p0,
                p0 <= self.pos,
                out@.len() == self.pos - p0,
                out@ == window(c, a, (self.pos - p0) as nat),
            decreases self.size - self.pos,
        {
            let ghost before = self.pos as nat;
            match self.read(archive, 4096) {
                Ok(v) => {
                    proof {
                        lemma_window_concat(c, a, (before - p0) as nat, v@.len());
                        assert(a + (before - p0) == self.tar_offset + before);
                    }
                    if v.len() == 0 {
                        proof {
                            lemma_window_stops(
                                c,
                                a,
                                (before - p0) as nat,
                                min_nat((self.size - before) as nat, 4096),
                                (self.size - p0) as nat,
                            );
                        }
                        return Ok(out);
                    }
                    let mut v = v;
                    out.append(&mut v);
                },
                Err(Error::EndOfFile) => {
                    return Ok(out);
                },
                Err(e) => {
                    return Err(e);
                },
            }
        }
    }
}

/// The entry's data from `pos` on, as far as the source holds it.
pub open spec fn rest_of(content: Seq<u8>, e: EntrySpec, pos: nat) -> Seq<u8> {
    window(content, e.data_offset + pos, (e.size - pos) as nat)
}

/// Reading `k` bytes and then `m` more gives the bytes of one read of `k + m`,
/// as long as the first read was not cut short.
pub proof fn lemma_window_concat(c: Seq<u8>, a: nat, k: nat, m: nat)
    requires
        window(c, a, k).len() == k,
    ensures
        window(c, a, k) + window(c, a + k, m) =~= window(c, a, k + m),
{
}

/// Once a read comes back empty, longer reads from the same start add nothing.
pub proof fn lemma_window_stops(c: Seq<u8>, a: nat, k: nat, m: nat, big: nat)
    requires
        window(c, a, k).len() == k,
        m > 0,
        window(c, a + k, m).len() == 0,
        big >= k,
    ensures
        window(c, a, big) =~= window(c, a, k),
{
}

pub open spec fn min_nat(a: nat, b: nat) -> nat {
    if a <= b {
        a
    } else {
        b
    }
}

/// Where a seek points, before it is checked against the entry's bounds.
pub open spec fn seek_target(pos: int, size: int, offset: int, style: SeekStyle) -> int {
    match style {
        SeekStyle::SeekSet => offset,
        SeekStyle::SeekCur => pos + offset,
        SeekStyle::SeekEnd => size + offset,
    }
}

/// Whether a seek of `f` lands within its entry's data.
pub open spec fn seek_in_range(f: File, offset: i64, style: SeekStyle) -> bool {
    let t = seek_target(f.position() as int, f.entry().size as int, offset as int, style);
    0 <= t <= f.entry().size
}

/// What a seek's offset is counted from.
#[derive(Debug, Clone, Copy, PartialEq, Eq)]
pub enum SeekStyle {
    /// From the start of the entry's data.
    SeekSet,
    /// From the current read position.
    SeekCur,
    /// From the end of the entry's data.
    SeekEnd,
}

/// The text that bytes encode as UTF-8, or `None` where they are not valid UTF-8.
pub uninterp spec fn utf8_decode(b: Seq<u8>) -> Option<Seq<char>>;

/// Bytes below `0x80` only.
pub open spec fn is_ascii(b: Seq<u8>) -> bool {
    forall|i: int| 0 <= i < b.len() ==> b[i] < 128
}

/// ASCII bytes read as characters, one for one.
pub open spec fn ascii_text(b: Seq<u8>) -> Seq<char> {
    b.map_values(|c: u8| c as char)
}

/// Relies on `std::str::from_utf8`: it accepts exactly the valid UTF-8 byte
/// strings and returns the text they encode; in UTF-8 every ASCII byte stands
/// for the character of the same code.
#[verifier::external_body]
fn decode_utf8(b: &[u8]) -> (r: Option<&str>)
    ensures
        r is Some <==> utf8_decode(b@) is Some,
        r is Some ==> r->0@ == utf8_decode(b@)->0,
        is_ascii(b@) ==> r is Some && r->0@ == ascii_text(b@),
{
    std::str::from_utf8(b).ok()
}

pub proof fn lemma_round_up(n: nat)
    ensures
        n <= round_up(n) < n + 512,
        round_up(n) % 512 == 0,
{
    assert(n <= ((n + 511) / 512) * 512 < n + 512) by (nonlinear_arith);
    assert((((n + 511) / 512) * 512) % 512 == 0) by (nonlinear_arith);
}

proof fn lemma_scan_data_within(data: Seq<u8>, o: nat)
    requires
        scan(data, o).1,
    ensures
        forall|i: int|
            0 <= i < scan(data, o).0.len() ==> (#[trigger] scan(data, o).0[i]).data_offset
                + scan(data, o).0[i].size <= data.len(),
    decreases scan_measure(data, o),
{
    lemma_scan_step(data, o);
    if let Step::Entry(e, n) = step(data, o) {
        lemma_scan_data_within(data, n);
        lemma_round_up(e.size);
        assert(n <= data.len());
        let es = scan(data, o).0;
        assert forall|i: int| 0 <= i < es.len() implies (#[trigger] es[i]).data_offset + es[i].size
            <= data.len() by {
            if i > 0 {
                assert(es[i] == scan(data, n).0[i - 1]);
            }
        }
    }
}

/// In a well-formed archive every entry's data lies wholly within the source:
/// reading an entry from its start to its end yields exactly `size` bytes.
pub proof fn lemma_size_is_data_length(data: Seq<u8>)
    requires
        listing(data).1,
    ensures
        forall|i: int|
            0 <= i < listing(data).0.len() ==> (#[trigger] rest_of(data, listing(data).0[i], 0)).len()
                == listing(data).0[i].size,
{
    lemma_scan_data_within(data, 0);
}

/// Reading an entry to its end from the start (`first`, at position 0), then
/// rewinding the view (`later`, at whatever position the reading left it) with
/// `seek(0, SeekSet)` and reading to the end again yields the same bytes: the
/// rewind succeeds from any position, and the rest of the data from where it
/// lands is the rest of the data that the first read returned.
pub proof fn lemma_rewind(content: Seq<u8>, first: File, later: File)
    requires
        first.wf(),
        later.wf(),
        later.entry() == first.entry(),
        first.position() == 0,
    ensures
        seek_in_range(later, 0, SeekStyle::SeekSet),
        rest_of(
            content,
            later.entry(),
            seek_target(later.position() as int, later.entry().size as int, 0, SeekStyle::SeekSet)
                as nat,
        ) == rest_of(content, first.entry(), first.position()),
{
}

/// A stored entry: a header block that validates, followed by its data padded
/// to whole blocks.
pub open spec fn member_ok(m: (Seq<u8>, Seq<u8>)) -> bool {
    &&& m.0.len() == 512
    &&& header_valid(m.0)
    &&& m.1.len() == round_up(header_size(m.0)->0)
}

/// The bytes of stored entries laid one after the other.
pub open spec fn pack(ms: Seq<(Seq<u8>, Seq<u8>)>) -> Seq<u8>
    decreases ms.len(),
{
    if ms.len() == 0 {
        Seq::empty()
    } else {
        ms[0].0 + ms[0].1 + pack(ms.drop_first())
    }
}

/// The entries that stored entries laid out from offset `base` describe.
pub open spec fn described(ms: Seq<(Seq<u8>, Seq<u8>)>, base: nat) -> Seq<EntrySpec>
    decreases ms.len(),
{
    if ms.len() == 0 {
        Seq::empty()
    } else {
        seq![
            EntrySpec {
                name: header_name(ms[0].0),
                size: header_size(ms[0].0)->0,
                data_offset: base + 512,
            },
        ] + described(ms.drop_first(), base + 512 + ms[0].1.len())
    }
}

/// A header that validates is never an all-zero block.
pub proof fn lemma_valid_header_not_zero(b: Seq<u8>)
    requires
        b.len() == 512,
        header_valid(b),
    ensures
        !is_zero_block(b),
{
    if is_zero_block(b) {
        let f = field(b, CKSUM_START as int, CKSUM_LEN as int);
        assert(f[0] == 0);
        assert(trunc(f) =~= Seq::<u8>::empty());
        crate::header::lemma_trim_len(trunc(f));
        assert(trim(trunc(f)) =~= Seq::<u8>::empty());
    }
}

proof fn lemma_scan_packed(prefix: Seq<u8>, ms: Seq<(Seq<u8>, Seq<u8>)>)
    requires
        forall|i: int| 0 <= i < ms.len() ==> member_ok(#[trigger] ms[i]),
    ensures
        scan(prefix + pack(ms) + Seq::new(1024, |i: int| 0u8), prefix.len()) == (
            described(ms, prefix.len()),
            true,
        ),
    decreases ms.len(),
{
    let zeros = Seq::new(1024, |i: int| 0u8);
    let data = prefix + pack(ms) + zeros;
    let o = prefix.len();
    lemma_scan_step(data, o);
    if ms.len() == 0 {
        assert(data =~= prefix + zeros);
        assert(block_at(data, o) =~= zeros.subrange(0, 512));
        assert(block_at(data, o + 512) =~= zeros.subrange(512, 1024));
        assert(step(data, o) is End);
    } else {
        let h = ms[0].0;
        let p = ms[0].1;
        let rest = ms.drop_first();
        assert(member_ok(ms[0]));
        assert forall|i: int| 0 <= i < rest.len() implies member_ok(#[trigger] rest[i]) by {
            assert(rest[i] == ms[i + 1]);
        }
        let prefix2 = prefix + h + p;
        assert(data =~= prefix2 + pack(rest) + zeros);
        assert(block_at(data, o) =~= h);
        lemma_valid_header_not_zero(h);
        assert(step(data, o) == entry_at(data, o));
        lemma_scan_packed(prefix2, rest);
        assert(prefix2.len() == o + 512 + p.len());
        assert(described(ms, o) == seq![
            EntrySpec { name: header_name(h), size: header_size(h)->0, data_offset: o + 512 },
        ] + described(rest, prefix2.len()));
    }
}

/// An archive made of entries that validate, followed by exactly two all-zero
/// blocks, yields precisely those entries in order and then ends cleanly.
pub proof fn lemma_well_formed_listing(ms: Seq<(Seq<u8>, Seq<u8>)>)
    requires
        forall|i: int| 0 <= i < ms.len() ==> member_ok(#[trigger] ms[i]),
    ensures
        listing(pack(ms) + Seq::new(1024, |i: int| 0u8)) == (described(ms, 0), true),
{
    lemma_scan_packed(Seq::empty(), ms);
    assert(Seq::<u8>::empty() + pack(ms) =~= pack(ms));
}

/// A valid checksum field states at least `256`, which one octal digit cannot,
/// so changing one byte of it never leaves an all-zero block.
proof fn lemma_one_byte_off_valid_not_zero(blk: Seq<u8>, j: int, b: u8)
    requires
        blk.len() == 512,
        header_valid(blk),
        148 <= j < 156,
    ensures
        !is_zero_block(blk.update(j, b)),
{
    let blk2 = blk.update(j, b);
    if is_zero_block(blk2) {
        let f = field(blk, CKSUM_START as int, CKSUM_LEN as int);
        let p = |c: u8| crate::header::is_not_nul(c);
        assert forall|x: int| 0 <= x < 8 && x != j - 148 implies f[x] == 0 by {
            assert(blk2[x + 148] == 0);
        }
        if j == 148 {
            assert(f[1] == 0);
            if f[0] == 0 {
                crate::header::lemma_span_while(f, p, 0);
            } else {
                crate::header::lemma_span_while(f, p, 1);
            }
        } else {
            assert(f[0] == 0);
            crate::header::lemma_span_while(f, p, 0);
        }
        let t = trunc(f);
        assert(t.len() <= 1);
        crate::header::lemma_trim_len(t);
        let s = trim(t);
        assert(s.len() <= 1);
        if s.len() == 1 && s[0] != 43 {
            assert(s.drop_last() =~= Seq::<u8>::empty());
            assert(crate::header::octal_value(s.drop_last()) == 0);
            assert(crate::header::octal_value(s) < 8);
        }
        assert(header_cksum(blk) == crate::header::parse_octal(s));
    }
}

/// Every entry that a scan from `o` yields has its data past `o`'s block.
proof fn lemma_scan_offsets(data: Seq<u8>, o: nat)
    ensures
        forall|i: int|
            0 <= i < scan(data, o).0.len() ==> (#[trigger] scan(data, o).0[i]).data_offset >= o
                + 512,
    decreases scan_measure(data, o),
{
    lemma_scan_step(data, o);
    if o <= data.len() {
        if let Step::Entry(e, n) = step(data, o) {
            lemma_scan_offsets(data, n);
            let es = scan(data, o).0;
            assert forall|i: int| 0 <= i < es.len() implies (#[trigger] es[i]).data_offset >= o
                + 512 by {
                if i > 0 {
                    assert(es[i] == scan(data, n).0[i - 1]);
                }
            }
        }
    }
}

/// The archive with one byte of the checksum field of entry `k`'s header replaced.
pub open spec fn with_checksum_byte(data: Seq<u8>, k: int, i: int, b: u8) -> Seq<u8> {
    data.update(listing(data).0[k].data_offset - 512 + i, b)
}

proof fn lemma_corrupt_from(data: Seq<u8>, o: nat, k: int, pos: int, b: u8)
    requires
        scan(data, o).1,
        0 <= k < scan(data, o).0.len(),
        scan(data, o).0[k].data_offset - 512 + 148 <= pos < scan(data, o).0[k].data_offset - 512 + 156,
        !header_valid(block_at(data.update(pos, b), (scan(data, o).0[k].data_offset - 512) as nat)),
    ensures
        scan(data.update(pos, b), o) == (scan(data, o).0.take(k), false),
    decreases k,
{
    let data2 = data.update(pos, b);
    lemma_scan_step(data, o);
    lemma_scan_step(data2, o);
    lemma_scan_offsets(data, o);
    lemma_scan_data_within(data, o);
    let es = scan(data, o).0;
    assert(es[k].data_offset + es[k].size <= data.len());
    if let Step::Entry(e, n) = step(data, o) {
        assert(es[0] == e);
        let h0 = (e.data_offset - 512) as nat;
        assert(h0 == o || h0 == o + 512);
        assert(n == h0 + 512 + round_up(e.size));
        if k > 0 {
            lemma_scan_offsets(data, n);
            assert(es[k] == scan(data, n).0[k - 1]);
            assert(es[k].data_offset >= n + 512);
            lemma_round_up(e.size);
            assert(pos >= h0 + 512 + 148);
            assert(block_at(data2, o) =~= block_at(data, o));
            if h0 == o + 512 {
                assert(block_at(data2, o + 512) =~= block_at(data, o + 512));
            }
            assert(step(data2, o) == step(data, o));
            lemma_corrupt_from(data, n, k - 1, pos, b);
            assert(es.take(k) =~= seq![e] + scan(data, n).0.take(k - 1));
        } else {
            let blk = block_at(data, h0);
            assert(block_at(data2, h0) =~= blk.update(pos - h0, b));
            lemma_one_byte_off_valid_not_zero(blk, pos - h0, b);
            if h0 == o + 512 {
                assert(block_at(data2, o) =~= block_at(data, o));
            }
            assert(step(data2, o) is Bad);
            assert(es.take(0) =~= Seq::<EntrySpec>::empty());
        }
    }
}

/// Replacing one byte of the checksum field in the header of entry `k` of a
/// well-formed archive, so that the header no longer validates, makes
/// iteration yield the entries before it and then report a malformed archive:
/// no later entry is ever yielded.
pub proof fn lemma_corrupt_checksum(data: Seq<u8>, k: int, i: int, b: u8)
    requires
        listing(data).1,
        0 <= k < listing(data).0.len(),
        148 <= i < 156,
        !header_valid(
            block_at(with_checksum_byte(data, k, i, b), (listing(data).0[k].data_offset - 512) as nat),
        ),
    ensures
        listing(with_checksum_byte(data, k, i, b)) == (listing(data).0.take(k), false),
{
    lemma_corrupt_from(data, 0, k, listing(data).0[k].data_offset - 512 + i, b);
}

/// The offset at which the iterator stands after `i` steps from `o`.
pub open spec fn step_offset(data: Seq<u8>, o: nat, i: nat) -> nat
    decreases i,
{
    if i == 0 {
        o
    } else {
        match step(data, o) {
            Step::Entry(_, n) => step_offset(data, n, (i - 1) as nat),
            _ => o,
        }
    }
}

/// Iteration step by step: the `i`-th step (each one a call of `Files::next`)
/// yields the `i`-th entry of the scan, in stored order, and the step after the
/// last entry ends the archive cleanly where the scan ends cleanly, and reports
/// a malformed archive otherwise.
pub proof fn lemma_scan_by_steps(data: Seq<u8>, o: nat)
    ensures
        forall|i: nat|
            i < scan(data, o).0.len() ==> step(data, #[trigger] step_offset(data, o, i))
                == Step::Entry(scan(data, o).0[i as int], step_offset(data, o, i + 1)),
        scan(data, o).1 ==> step(data, step_offset(data, o, scan(data, o).0.len())) is End,
        !scan(data, o).1 ==> step(data, step_offset(data, o, scan(data, o).0.len())) is Bad,
    decreases scan_measure(data, o),
{
    lemma_scan_step(data, o);
    let es = scan(data, o).0;
    if o > data.len() {
        assert(step(data, o) is Bad);
    } else if let Step::Entry(e, n) = step(data, o) {
        lemma_scan_by_steps(data, n);
        assert forall|i: nat| i < es.len() implies step(data, #[trigger] step_offset(data, o, i))
            == Step::Entry(es[i as int], step_offset(data, o, i + 1)) by {
            if i > 0 {
                assert(step_offset(data, o, i) == step_offset(data, n, (i - 1) as nat));
                assert(step_offset(data, o, i + 1) == step_offset(data, n, i));
                assert(es[i as int] == scan(data, n).0[i - 1]);
            } else {
                assert(step_offset(data, o, 1) == step_offset(data, n, 0));
            }
        }
        assert(step_offset(data, o, es.len()) == step_offset(data, n, scan(data, n).0.len()));
    }
}

} // verus!
