//! The file seam: every byte that is read from or written to disk goes through
//! [`File`], so that another implementation can stand in for the real one.

use std::io;
use vstd::prelude::*;

verus! {

#[verifier::external_type_specification]
#[verifier::external_body]
pub struct ExIoError(std::io::Error);

/// How to open a file.
#[derive(Debug, Clone, Copy, PartialEq, Eq, Structural)]
pub struct OpenOpts {
    /// Create the file if it does not exist.
    pub create: bool,
    /// Open for reading.
    pub read: bool,
    /// Open for writing.
    pub write: bool,
    /// Truncate the file to zero length on open.
    pub truncate: bool,
}

impl Default for OpenOpts {
    fn default() -> (r: Self)
        ensures
            r == (OpenOpts { create: false, read: false, write: false, truncate: false }),
    {
        OpenOpts { create: false, read: false, write: false, truncate: false }
    }
}

impl OpenOpts {
    /// Read an existing file.
    pub fn read_only() -> (r: Self)
        ensures
            r == (OpenOpts { create: false, read: true, write: false, truncate: false }),
    {
        OpenOpts { create: false, read: true, write: false, truncate: false }
    }

    /// Read and write a file that starts out empty, created if need be.
    pub fn create_truncate() -> (r: Self)
        ensures
            r == (OpenOpts { create: true, read: true, write: true, truncate: true }),
    {
        OpenOpts { create: true, read: true, write: true, truncate: true }
    }

    /// Read and write a file as it is, created if need be.
    pub fn create_keep() -> (r: Self)
        ensures
            r == (OpenOpts { create: true, read: true, write: true, truncate: false }),
    {
        OpenOpts { create: true, read: true, write: true, truncate: false }
    }

    /// Read and write an existing file as it is.
    pub fn rw_existing() -> (r: Self)
        ensures
            r == (OpenOpts { create: false, read: true, write: true, truncate: false }),
    {
        OpenOpts { create: false, read: true, write: true, truncate: false }
    }
}

/// What follows a position in some bytes; nothing at or after the end.
pub open spec fn tail_from(bytes: Seq<u8>, offset: int) -> Seq<u8> {
    if offset >= bytes.len() {
        Seq::empty()
    } else {
        bytes.skip(offset)
    }
}

/// Some bytes with others written over them from a position on; a hole before
/// the position reads as zeros.
pub open spec fn overwritten(bytes: Seq<u8>, offset: int, data: Seq<u8>) -> Seq<u8> {
    if data.len() == 0 {
        bytes
    } else {
        resized(bytes, offset) + data + tail_from(bytes, offset + data.len())
    }
}

/// Some bytes cut off, or filled up with zeros, to a length.
pub open spec fn resized(bytes: Seq<u8>, len: int) -> Seq<u8> {
    if len <= bytes.len() {
        bytes.take(len)
    } else {
        bytes + Seq::new((len - bytes.len()) as nat, |i: int| 0u8)
    }
}

/// One open file. Reads and writes name their position, so a handle has no
/// position of its own.
pub trait File: Send {
    /// What the file holds.
    spec fn content(&self) -> Seq<u8>;

    /// Reading from `offset` on may fail with `e`.
    spec fn may_fail(&self, offset: int, e: io::Error) -> bool;

    /// Reads bytes from `offset` on, as many as fit or fewer; none only at the
    /// end of the file or when none fit.
    fn read_at(&self, offset: u64, buf: &mut [u8]) -> (r: io::Result<usize>)
        ensures
            final(buf)@.len() == old(buf)@.len(),
            r matches Ok(n) ==> {
                &&& n <= old(buf)@.len()
                &&& n > 0 ==> offset + n <= self.content().len() && offset + n <= u64::MAX
                &&& n == 0 ==> old(buf)@.len() == 0 || offset >= self.content().len()
                &&& forall|i: int|
                    0 <= i < n ==> #[trigger] final(buf)@[i] == self.content()[offset + i]
            },
            r matches Err(e) ==> self.may_fail(offset as int, e),
    ;

    /// Writes bytes from `offset` on, all of them or fewer.
    fn write_at(&mut self, offset: u64, buf: &[u8]) -> (r: io::Result<usize>)
        ensures
            r matches Ok(n) ==> {
                &&& n <= buf@.len()
                &&& final(self).content() == overwritten(
                    old(self).content(),
                    offset as int,
                    buf@.take(n as int),
                )
            },
    ;

    /// Cuts the file off, or fills it up with zeros, to a length.
    fn set_len(&mut self, len: u64) -> (r: io::Result<()>)
        ensures
            r is Ok ==> final(self).content() == resized(old(self).content(), len as int),
    ;

    /// Brings the data to durable media.
    fn sync_data(&self) -> (r: io::Result<()>);

    /// Brings the data and all metadata to durable media.
    fn sync_all(&self) -> (r: io::Result<()>);

    /// The length of the file.
    fn metadata_len(&self) -> (r: io::Result<u64>)
        ensures
            r matches Ok(n) ==> n == self.content().len(),
    ;

    /// Appends everything from `offset` to the end of the file to `out`; where a
    /// read fails, what was read before it. It fails only with the error of a
    /// read that goes on right behind what was appended.
    fn read_to_end_from(&self, offset: u64, out: &mut Vec<u8>) -> (r: io::Result<()>)
        ensures
            r is Ok ==> final(out)@ == old(out)@ + tail_from(self.content(), offset as int),
            r matches Err(e) ==> self.may_fail(
                offset + final(out)@.len() - old(out)@.len(),
                e,
            ),
            (old(out)@).is_prefix_of(final(out)@),
            final(out)@.is_prefix_of(old(out)@ + tail_from(self.content(), offset as int)),
    {
        let mut tmp: Vec<u8> = Vec::new();
        tmp.resize(65536, 0);
        let ghost all = tail_from(self.content(), offset as int);
        let mut at = offset;
        let ghost mut done: int = 0;
        assert(old(out)@ + all.take(0) =~= old(out)@);
        loop
            invariant
                all == tail_from(self.content(), offset as int),
                tmp@.len() == 65536,
                at == offset + done,
                0 <= done <= all.len(),
                out@ == old(out)@ + all.take(done),
            decreases all.len() - done,
        {
            let n = match self.read_at(at, tmp.as_mut_slice()) {
                Ok(n) => n,
                Err(e) => {
                    return Err(e);
                },
            };
            if n == 0 {
                assert(all.take(done) =~= all);
                return Ok(());
            }
            let got = vstd::slice::slice_subrange(tmp.as_slice(), 0, n);
            out.extend_from_slice(got);
            proof {
                assert(got@ =~= all.subrange(done, done + n));
                assert(all.take(done) + all.subrange(done, done + n) =~= all.take(done + n));
                done = done + n;
            }
            assert(out@ =~= old(out)@ + all.take(done));
            at = at + n as u64;
        }
    }
}

/// `io::Error::from` an error kind: the error of a file that cannot grow so
/// large.
#[verifier::external_body]
fn too_large() -> (e: io::Error) {
    io::Error::from(io::ErrorKind::OutOfMemory)
}

/// A file in memory, which nothing outlives.
#[derive(Debug)]
pub struct MemFile {
    pub bytes: Vec<u8>,
}

impl MemFile {
    /// An empty file.
    pub fn new() -> (r: Self)
        ensures
            r.bytes@.len() == 0,
    {
        MemFile { bytes: Vec::new() }
    }
}

impl File for MemFile {
    open spec fn content(&self) -> Seq<u8> {
        self.bytes@
    }

    /// Memory is always readable.
    open spec fn may_fail(&self, offset: int, e: io::Error) -> bool {
        false
    }

    /// Reads as many bytes as fit and are there, and leaves the rest of the
    /// buffer alone.
    fn read_at(&self, offset: u64, buf: &mut [u8]) -> (r: io::Result<usize>)
        ensures
            r is Ok,
            ({
                let rest = tail_from(self.bytes@, offset as int);
                let n = if rest.len() < old(buf)@.len() {
                    rest.len()
                } else {
                    old(buf)@.len()
                };
                &&& r->Ok_0 == n
                &&& final(buf)@ == rest.take(n as int) + old(buf)@.skip(n as int)
            }),
    {
        let len = self.bytes.len();
        if offset >= len as u64 {
            assert(buf@ =~= tail_from(self.bytes@, offset as int).take(0) + old(buf)@.skip(0));
            return Ok(0);
        }
        let at = offset as usize;
        let want = buf.len();
        let n = if want < len - at {
            want
        } else {
            len - at
        };
        let mut i: usize = 0;
        while i < n
            invariant
                i <= n,
                n <= want,
                want == buf@.len(),
                at + n <= self.bytes.len(),
                want == old(buf)@.len(),
                forall|j: int| 0 <= j < i ==> #[trigger] buf@[j] == self.bytes@[at + j],
                forall|j: int| i <= j < want ==> #[trigger] buf@[j] == old(buf)@[j],
            decreases n - i,
        {
            buf[i] = self.bytes[at + i];
            i += 1;
        }
        assert(buf@ =~= tail_from(self.bytes@, offset as int).take(n as int) + old(buf)@.skip(
            n as int,
        ));
        Ok(n)
    }

    /// Writes all bytes, or none where the file would outgrow the memory that
    /// can be addressed.
    fn write_at(&mut self, offset: u64, buf: &[u8]) -> (r: io::Result<usize>)
        ensures
            r is Ok,
            r->Ok_0 == if offset + buf@.len() <= usize::MAX {
                buf@.len()
            } else {
                0
            },
    {
        let n = buf.len();
        assert(overwritten(self.bytes@, offset as int, buf@.take(0)) == self.bytes@);
        if offset > (usize::MAX - n) as u64 {
            return Ok(0);
        }
        let ghost was = self.bytes@;
        assert(buf@.take(n as int) =~= buf@);
        if n == 0 {
            return Ok(0);
        }
        let at = offset as usize;
        if self.bytes.len() < at + n {
            self.bytes.resize(at + n, 0);
        }
        let ghost grown = self.bytes@;
        let mut i: usize = 0;
        while i < n
            invariant
                i <= n,
                n == buf@.len(),
                at + n <= self.bytes@.len(),
                at + n <= usize::MAX,
                self.bytes@.len() == grown.len(),
                forall|j: int|
                    0 <= j < self.bytes@.len() ==> #[trigger] self.bytes@[j] == if at <= j < at + i {
                        buf@[j - at]
                    } else {
                        grown[j]
                    },
            decreases n - i,
        {
            self.bytes.set(at + i, buf[i]);
            i += 1;
        }
        assert(self.bytes@ =~= overwritten(was, offset as int, buf@));
        Ok(n)
    }

    /// Fails, and changes nothing, exactly where the file would outgrow the
    /// memory that can be addressed.
    fn set_len(&mut self, len: u64) -> (r: io::Result<()>)
        ensures
            r is Ok <==> len <= usize::MAX,
            r is Err ==> final(self).bytes@ == old(self).bytes@,
    {
        if len > usize::MAX as u64 {
            return Err(too_large());
        }
        let ghost was = self.bytes@;
        self.bytes.resize(len as usize, 0);
        assert(self.bytes@ =~= resized(was, len as int));
        Ok(())
    }

    /// There is nothing to bring anywhere.
    fn sync_data(&self) -> (r: io::Result<()>)
        ensures
            r is Ok,
    {
        Ok(())
    }

    /// There is nothing to bring anywhere.
    fn sync_all(&self) -> (r: io::Result<()>)
        ensures
            r is Ok,
    {
        Ok(())
    }

    fn metadata_len(&self) -> (r: io::Result<u64>)
        ensures
            r is Ok,
    {
        Ok(self.bytes.len() as u64)
    }
}

/// A write reads back: from its position on the file holds the bytes written,
/// and what lay before the position and behind the bytes is as it was.
pub proof fn law_write_reads_back(bytes: Seq<u8>, offset: int, data: Seq<u8>)
    requires
        0 <= offset,
    ensures
        ({
            let after = overwritten(bytes, offset, data);
            &&& data.len() > 0 ==> after.len() >= offset + data.len()
            &&& data.len() > 0 ==> after.subrange(offset, offset + data.len()) == data
            &&& forall|i: int|
                0 <= i < bytes.len() && (i < offset || i >= offset + data.len())
                    ==> #[trigger] after[i] == bytes[i]
        }),
{
    let after = overwritten(bytes, offset, data);
    if data.len() > 0 {
        let head = resized(bytes, offset);
        assert(head.len() == offset);
        assert(after.subrange(offset, offset + data.len()) =~= data);
    }
}

/// A file that is given a length has it; what was there up to it is as it was, and
/// what is new is zeros.
pub proof fn law_resizing_keeps_and_fills(bytes: Seq<u8>, len: int)
    requires
        0 <= len,
    ensures
        resized(bytes, len).len() == len,
        forall|i: int| 0 <= i < len && i < bytes.len() ==> #[trigger] resized(bytes, len)[i] == bytes[i],
        forall|i: int| bytes.len() <= i < len ==> #[trigger] resized(bytes, len)[i] == 0,
{
}

/// A write makes the file as long as it has to be and no longer; a hole before it
/// reads as zeros; and a write of nothing changes nothing.
pub proof fn law_writes_grow_as_needed(bytes: Seq<u8>, offset: int, data: Seq<u8>)
    requires
        0 <= offset,
    ensures
        data.len() == 0 ==> overwritten(bytes, offset, data) == bytes,
        data.len() > 0 ==> {
            let after = overwritten(bytes, offset, data);
            &&& after.len() == if offset + data.len() > bytes.len() {
                offset + data.len()
            } else {
                bytes.len() as int
            }
            &&& forall|i: int| bytes.len() <= i < offset ==> #[trigger] after[i] == 0
        },
{
}

/// Reading from a position gives all that follows it, byte by byte, and nothing at or
/// past the end.
pub proof fn law_reading_on_gives_the_rest(bytes: Seq<u8>, offset: int)
    requires
        0 <= offset,
    ensures
        tail_from(bytes, offset).len() == if offset < bytes.len() {
            bytes.len() - offset
        } else {
            0
        },
        forall|i: int|
            0 <= i < tail_from(bytes, offset).len() ==> #[trigger] tail_from(bytes, offset)[i]
                == bytes[offset + i],
{
}

/// A second write over the first one replaces it.
pub proof fn law_the_last_write_counts(
    bytes: Seq<u8>,
    offset: int,
    first: Seq<u8>,
    second: Seq<u8>,
)
    requires
        0 <= offset,
        first.len() == second.len(),
    ensures
        overwritten(overwritten(bytes, offset, first), offset, second) == overwritten(
            bytes,
            offset,
            second,
        ),
{
    let once = overwritten(bytes, offset, first);
    assert(overwritten(once, offset, second) =~= overwritten(bytes, offset, second));
}

}
