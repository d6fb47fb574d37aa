//! The buffered I/O layer: a file-scoped, cursor-based read/write API
//! over one file image. The library works on the in-memory image; the
//! surrounding process loads it from disk and writes it back on flush.
//! Every read and write is specified byte-exactly against the image,
//! with integers in little-endian order.

use vstd::bytes::{
    spec_u16_to_le_bytes, spec_u32_to_le_bytes, spec_u64_to_le_bytes, u16_from_le_bytes,
    u16_to_le_bytes, u32_from_le_bytes, u32_to_le_bytes, u64_from_le_bytes, u64_to_le_bytes,
};
use vstd::prelude::*;

verus! {

/// Failure of a buffered I/O operation: a short read or a write that
/// would not fit the file's 32-bit offset space (`Io`), a poisoned lock
/// (`Locking`, never produced by this in-memory image), or a corrupt
/// record found while decoding (`InvalidData`).
#[derive(Clone, Copy, PartialEq, Eq, Structural, Debug)]
pub enum BufIoError {
    Io,
    Locking,
    InvalidData,
}

/// The content of a file image after writing `bytes` at `pos`,
/// zero-filling any gap past the old end.
pub open spec fn spec_store(file: Seq<u8>, pos: int, bytes: Seq<u8>) -> Seq<u8> {
    let flen = if pos + bytes.len() > file.len() {
        pos + bytes.len()
    } else {
        file.len() as int
    };
    Seq::new(
        flen as nat,
        |i: int|
            if pos <= i < pos + bytes.len() {
                bytes[i - pos]
            } else if i < file.len() {
                file[i]
            } else {
                0u8
            },
    )
}

/// Two writes in a row land like one write of the concatenation.
pub proof fn lemma_store_concat(file: Seq<u8>, pos: int, a: Seq<u8>, b: Seq<u8>)
    requires
        0 <= pos,
    ensures
        spec_store(spec_store(file, pos, a), pos + a.len(), b) == spec_store(file, pos, a + b),
{
    assert(spec_store(spec_store(file, pos, a), pos + a.len(), b) =~= spec_store(
        file,
        pos,
        a + b,
    ));
}

/// Reading back the stored range gives the stored bytes.
pub proof fn lemma_store_read(file: Seq<u8>, pos: int, bytes: Seq<u8>)
    requires
        0 <= pos,
    ensures
        spec_store(file, pos, bytes).subrange(pos, pos + bytes.len()) == bytes,
{
    assert(spec_store(file, pos, bytes).subrange(pos, pos + bytes.len()) =~= bytes);
}

/// A store leaves the bytes before the write position as they were.
pub proof fn lemma_store_prefix(file: Seq<u8>, pos: int, bytes: Seq<u8>)
    requires
        0 <= pos <= file.len(),
    ensures
        spec_store(file, pos, bytes).subrange(0, pos) == file.subrange(0, pos),
{
    assert(spec_store(file, pos, bytes).subrange(0, pos) =~= file.subrange(0, pos));
}

/// Storing at the end of the file is appending.
pub proof fn lemma_store_append(file: Seq<u8>, bytes: Seq<u8>)
    ensures
        spec_store(file, file.len() as int, bytes) == file + bytes,
{
    assert(spec_store(file, file.len() as int, bytes) =~= file + bytes);
}

/// One open file with its cursors. A cursor is a position independent
/// of any shared position; any number may be open at once.
pub struct BufferManager {
    pub data: Vec<u8>,
    pub cursors: Vec<u64>,
}

impl BufferManager {
    /// The image stays within the 32-bit offset space the on-disk
    /// format uses.
    pub open spec fn wf(self) -> bool {
        self.data@.len() <= u32::MAX
    }

    pub open spec fn file(self) -> Seq<u8> {
        self.data@
    }

    pub open spec fn cursor_at(self, cursor: usize) -> int {
        self.cursors@[cursor as int] as int
    }

    pub open spec fn cursor_ok(self, cursor: usize) -> bool {
        cursor < self.cursors@.len()
    }

    /// Opens a manager over a file image (empty for a new file).
    pub fn new(data: Vec<u8>) -> (r: Self)
        requires
            data@.len() <= u32::MAX,
        ensures
            r.wf(),
            r.file() == data@,
            r.cursors@.len() == 0,
    {
        BufferManager { data, cursors: Vec::new() }
    }

    pub fn open_cursor(&mut self) -> (r: Result<usize, BufIoError>)
        requires
            old(self).wf(),
        ensures
            final(self).wf(),
            final(self).file() == old(self).file(),
            r is Ok <==> old(self).cursors@.len() < usize::MAX,
            r is Ok ==> {
                &&& r.unwrap() == old(self).cursors@.len()
                &&& final(self).cursors@ == old(self).cursors@.push(0u64)
                &&& final(self).cursor_ok(r.unwrap())
                &&& final(self).cursor_at(r.unwrap()) == 0
            },
            r is Err ==> *final(self) == *old(self),
    {
        let id = self.cursors.len();
        if id == usize::MAX {
            return Err(BufIoError::Io);
        }
        self.cursors.push(0);
        Ok(id)
    }

    /// Closing is bookkeeping only: the id stays allocated.
    pub fn close_cursor(&mut self, cursor: usize) -> (r: Result<(), BufIoError>)
        requires
            old(self).wf(),
        ensures
            *final(self) == *old(self),
            r is Ok,
    {
        let _ = cursor;
        Ok(())
    }

    pub fn seek_with_cursor(&mut self, cursor: usize, offset: u64) -> (r: Result<(), BufIoError>)
        requires
            old(self).wf(),
            old(self).cursor_ok(cursor),
        ensures
            final(self).wf(),
            final(self).file() == old(self).file(),
            final(self).cursors@ == old(self).cursors@.update(cursor as int, offset),
            r is Ok,
    {
        self.cursors[cursor] = offset;
        Ok(())
    }

    pub fn cursor_position(&self, cursor: usize) -> (r: Result<u64, BufIoError>)
        requires
            self.wf(),
            self.cursor_ok(cursor),
        ensures
            r is Ok,
            r.unwrap() as int == self.cursor_at(cursor),
    {
        Ok(self.cursors[cursor])
    }

    pub fn file_size(&self) -> (r: u64)
        requires
            self.wf(),
        ensures
            r == self.file().len(),
    {
        self.data.len() as u64
    }

    /// Writing back to disk is the caller's step; the image is already
    /// current, so nothing changes here.
    pub fn flush(&mut self) -> (r: Result<(), BufIoError>)
        requires
            old(self).wf(),
        ensures
            *final(self) == *old(self),
            r is Ok,
    {
        Ok(())
    }

    /// Writes `bytes` at the cursor, zero-filling any gap, and advances
    /// the cursor past them. Fails without a change if the write would
    /// leave the 32-bit offset space.
    pub fn update_with_cursor(&mut self, cursor: usize, bytes: &[u8]) -> (r: Result<
        (),
        BufIoError,
    >)
        requires
            old(self).wf(),
            old(self).cursor_ok(cursor),
        ensures
            final(self).wf(),
            final(self).cursor_ok(cursor),
            r is Ok <==> old(self).cursor_at(cursor) + bytes@.len() <= u32::MAX,
            r is Ok ==> {
                &&& final(self).file() == spec_store(
                    old(self).file(),
                    old(self).cursor_at(cursor),
                    bytes@,
                )
                &&& final(self).cursors@ == old(self).cursors@.update(
                    cursor as int,
                    (old(self).cursor_at(cursor) + bytes@.len()) as u64,
                )
            },
            r is Err ==> *final(self) == *old(self),
    {
        let pos = self.cursors[cursor];
        if pos > u32::MAX as u64 || bytes.len() as u64 > u32::MAX as u64 - pos {
            return Err(BufIoError::Io);
        }
        let pos_usize = pos as usize;
        let end = pos_usize + bytes.len();
        let ghost old_file = self.data@;
        // grow the image with zeros until the write fits in place
        while self.data.len() < end
            invariant
                self.cursors@ == old(self).cursors@,
                end <= u32::MAX,
                old_file.len() <= self.data@.len(),
                self.data@.len() <= end || self.data@.len() == old_file.len(),
                forall|i: int| 0 <= i < old_file.len() ==> (#[trigger] self.data@[i]) == old_file[i],
                forall|i: int|
                    old_file.len() <= i < self.data@.len() ==> (#[trigger] self.data@[i]) == 0u8,
            decreases end - self.data@.len(),
        {
            self.data.push(0);
        }
        let ghost grown = self.data@;
        let mut k: usize = 0;
        while k < bytes.len()
            invariant
                self.cursors@ == old(self).cursors@,
                k <= bytes@.len(),
                end == pos_usize + bytes@.len(),
                end <= self.data@.len(),
                self.data@.len() == grown.len(),
                forall|i: int|
                    0 <= i < self.data@.len() && !(pos_usize <= i < pos_usize + k) ==> (
                    #[trigger] self.data@[i]) == grown[i],
                forall|i: int|
                    pos_usize <= i < pos_usize + k ==> (#[trigger] self.data@[i]) == bytes@[i
                        - pos_usize],
            decreases bytes@.len() - k,
        {
            self.data[pos_usize + k] = bytes[k];
            k += 1;
        }
        self.cursors[cursor] = pos + bytes.len() as u64;
        proof {
            assert(self.data@ =~= spec_store(old_file, pos_usize as int, bytes@));
        }
        Ok(())
    }

    pub fn update_u8_with_cursor(&mut self, cursor: usize, value: u8) -> (r: Result<
        (),
        BufIoError,
    >)
        requires
            old(self).wf(),
            old(self).cursor_ok(cursor),
        ensures
            final(self).wf(),
            final(self).cursor_ok(cursor),
            r is Ok <==> old(self).cursor_at(cursor) + 1 <= u32::MAX,
            r is Ok ==> {
                &&& final(self).file() == spec_store(
                    old(self).file(),
                    old(self).cursor_at(cursor),
                    seq![value],
                )
                &&& final(self).cursors@ == old(self).cursors@.update(
                    cursor as int,
                    (old(self).cursor_at(cursor) + 1) as u64,
                )
            },
            r is Err ==> *final(self) == *old(self),
    {
        let buf: [u8; 1] = [value];
        proof {
            assert(buf@ =~= seq![value]);
        }
        self.update_with_cursor(cursor, &buf)
    }

    pub fn update_u16_with_cursor(&mut self, cursor: usize, value: u16) -> (r: Result<
        (),
        BufIoError,
    >)
        requires
            old(self).wf(),
            old(self).cursor_ok(cursor),
        ensures
            final(self).wf(),
            final(self).cursor_ok(cursor),
            r is Ok <==> old(self).cursor_at(cursor) + 2 <= u32::MAX,
            r is Ok ==> {
                &&& final(self).file() == spec_store(
                    old(self).file(),
                    old(self).cursor_at(cursor),
                    spec_u16_to_le_bytes(value),
                )
                &&& final(self).cursors@ == old(self).cursors@.update(
                    cursor as int,
                    (old(self).cursor_at(cursor) + 2) as u64,
                )
            },
            r is Err ==> *final(self) == *old(self),
    {
        let buf = u16_to_le_bytes(value);
        self.update_with_cursor(cursor, buf.as_slice())
    }

    pub fn update_u32_with_cursor(&mut self, cursor: usize, value: u32) -> (r: Result<
        (),
        BufIoError,
    >)
        requires
            old(self).wf(),
            old(self).cursor_ok(cursor),
        ensures
            final(self).wf(),
            final(self).cursor_ok(cursor),
            r is Ok <==> old(self).cursor_at(cursor) + 4 <= u32::MAX,
            r is Ok ==> {
                &&& final(self).file() == spec_store(
                    old(self).file(),
                    old(self).cursor_at(cursor),
                    spec_u32_to_le_bytes(value),
                )
                &&& final(self).cursors@ == old(self).cursors@.update(
                    cursor as int,
                    (old(self).cursor_at(cursor) + 4) as u64,
                )
            },
            r is Err ==> *final(self) == *old(self),
    {
        let buf = u32_to_le_bytes(value);
        self.update_with_cursor(cursor, buf.as_slice())
    }

    pub fn update_u64_with_cursor(&mut self, cursor: usize, value: u64) -> (r: Result<
        (),
        BufIoError,
    >)
        requires
            old(self).wf(),
            old(self).cursor_ok(cursor),
        ensures
            final(self).wf(),
            final(self).cursor_ok(cursor),
            r is Ok <==> old(self).cursor_at(cursor) + 8 <= u32::MAX,
            r is Ok ==> {
                &&& final(self).file() == spec_store(
                    old(self).file(),
                    old(self).cursor_at(cursor),
                    spec_u64_to_le_bytes(value),
                )
                &&& final(self).cursors@ == old(self).cursors@.update(
                    cursor as int,
                    (old(self).cursor_at(cursor) + 8) as u64,
                )
            },
            r is Err ==> *final(self) == *old(self),
    {
        let buf = u64_to_le_bytes(value);
        self.update_with_cursor(cursor, buf.as_slice())
    }

    /// Appends at the end of the file and returns the offset the bytes
    /// landed at; the cursor is left where it was, as appends do not go
    /// through a position.
    pub fn write_to_end_of_file(&mut self, cursor: usize, bytes: &[u8]) -> (r: Result<
        u32,
        BufIoError,
    >)
        requires
            old(self).wf(),
            old(self).cursor_ok(cursor),
        ensures
            final(self).wf(),
            final(self).cursor_ok(cursor),
            r is Ok <==> old(self).file().len() + bytes@.len() <= u32::MAX,
            r is Ok ==> {
                &&& r.unwrap() == old(self).file().len()
                &&& final(self).file() == old(self).file() + bytes@
                &&& final(self).cursors@ == old(self).cursors@
            },
            r is Err ==> *final(self) == *old(self),
    {
        let _ = cursor;
        let len = self.data.len();
        if bytes.len() as u64 > u32::MAX as u64 - len as u64 {
            return Err(BufIoError::Io);
        }
        let ghost old_file = self.data@;
        let mut k: usize = 0;
        while k < bytes.len()
            invariant
                self.cursors@ == old(self).cursors@,
                k <= bytes@.len(),
                self.data@ == old_file + bytes@.take(k as int),
            decreases bytes@.len() - k,
        {
            self.data.push(bytes[k]);
            proof {
                assert(self.data@ =~= old_file + bytes@.take((k + 1) as int));
            }
            k += 1;
        }
        proof {
            assert(self.data@ =~= old_file + bytes@);
        }
        Ok(len as u32)
    }

    /// Reads `n` bytes at the cursor, advancing it. Fails without a
    /// change when fewer than `n` bytes remain.
    pub fn read_with_cursor(&mut self, cursor: usize, n: usize) -> (r: Result<Vec<u8>, BufIoError>)
        requires
            old(self).wf(),
            old(self).cursor_ok(cursor),
        ensures
            final(self).wf(),
            final(self).cursor_ok(cursor),
            final(self).file() == old(self).file(),
            r is Ok <==> old(self).cursor_at(cursor) + n <= old(self).file().len(),
            r is Ok ==> {
                &&& r.unwrap()@ == old(self).file().subrange(
                    old(self).cursor_at(cursor),
                    old(self).cursor_at(cursor) + n,
                )
                &&& final(self).cursors@ == old(self).cursors@.update(
                    cursor as int,
                    (old(self).cursor_at(cursor) + n) as u64,
                )
            },
            r is Err ==> *final(self) == *old(self),
    {
        let pos = self.cursors[cursor];
        if pos > self.data.len() as u64 || n as u64 > self.data.len() as u64 - pos {
            return Err(BufIoError::Io);
        }
        let pos_usize = pos as usize;
        let mut out: Vec<u8> = Vec::new();
        let mut k: usize = 0;
        while k < n
            invariant
                *self == *old(self),
                k <= n,
                pos_usize + n <= self.data@.len(),
                self.data@.len() <= u32::MAX,
                out@ == self.data@.subrange(pos_usize as int, pos_usize + k),
            decreases n - k,
        {
            out.push(self.data[pos_usize + k]);
            proof {
                assert(out@ =~= self.data@.subrange(pos_usize as int, pos_usize + k + 1));
            }
            k += 1;
        }
        self.cursors[cursor] = pos + n as u64;
        Ok(out)
    }

    pub fn read_u8_with_cursor(&mut self, cursor: usize) -> (r: Result<u8, BufIoError>)
        requires
            old(self).wf(),
            old(self).cursor_ok(cursor),
        ensures
            final(self).wf(),
            final(self).cursor_ok(cursor),
            final(self).file() == old(self).file(),
            r is Ok <==> old(self).cursor_at(cursor) + 1 <= old(self).file().len(),
            r is Ok ==> {
                &&& r.unwrap() == old(self).file()[old(self).cursor_at(cursor)]
                &&& final(self).cursors@ == old(self).cursors@.update(
                    cursor as int,
                    (old(self).cursor_at(cursor) + 1) as u64,
                )
            },
            r is Err ==> *final(self) == *old(self),
    {
        let bytes = self.read_with_cursor(cursor, 1)?;
        Ok(bytes[0])
    }

    pub fn read_u16_with_cursor(&mut self, cursor: usize) -> (r: Result<u16, BufIoError>)
        requires
            old(self).wf(),
            old(self).cursor_ok(cursor),
        ensures
            final(self).wf(),
            final(self).cursor_ok(cursor),
            final(self).file() == old(self).file(),
            r is Ok <==> old(self).cursor_at(cursor) + 2 <= old(self).file().len(),
            r is Ok ==> {
                &&& spec_u16_to_le_bytes(r.unwrap()) == old(self).file().subrange(
                    old(self).cursor_at(cursor),
                    old(self).cursor_at(cursor) + 2,
                )
                &&& final(self).cursors@ == old(self).cursors@.update(
                    cursor as int,
                    (old(self).cursor_at(cursor) + 2) as u64,
                )
            },
            r is Err ==> *final(self) == *old(self),
    {
        let bytes = self.read_with_cursor(cursor, 2)?;
        let v = u16_from_le_bytes(bytes.as_slice());
        proof {
            vstd::bytes::lemma_auto_spec_u16_to_from_le_bytes();
        }
        Ok(v)
    }

    pub fn read_u32_with_cursor(&mut self, cursor: usize) -> (r: Result<u32, BufIoError>)
        requires
            old(self).wf(),
            old(self).cursor_ok(cursor),
        ensures
            final(self).wf(),
            final(self).cursor_ok(cursor),
            final(self).file() == old(self).file(),
            r is Ok <==> old(self).cursor_at(cursor) + 4 <= old(self).file().len(),
            r is Ok ==> {
                &&& spec_u32_to_le_bytes(r.unwrap()) == old(self).file().subrange(
                    old(self).cursor_at(cursor),
                    old(self).cursor_at(cursor) + 4,
                )
                &&& final(self).cursors@ == old(self).cursors@.update(
                    cursor as int,
                    (old(self).cursor_at(cursor) + 4) as u64,
                )
            },
            r is Err ==> *final(self) == *old(self),
    {
        let bytes = self.read_with_cursor(cursor, 4)?;
        let v = u32_from_le_bytes(bytes.as_slice());
        proof {
            vstd::bytes::lemma_auto_spec_u32_to_from_le_bytes();
        }
        Ok(v)
    }

    pub fn read_u64_with_cursor(&mut self, cursor: usize) -> (r: Result<u64, BufIoError>)
        requires
            old(self).wf(),
            old(self).cursor_ok(cursor),
        ensures
            final(self).wf(),
            final(self).cursor_ok(cursor),
            final(self).file() == old(self).file(),
            r is Ok <==> old(self).cursor_at(cursor) + 8 <= old(self).file().len(),
            r is Ok ==> {
                &&& spec_u64_to_le_bytes(r.unwrap()) == old(self).file().subrange(
                    old(self).cursor_at(cursor),
                    old(self).cursor_at(cursor) + 8,
                )
                &&& final(self).cursors@ == old(self).cursors@.update(
                    cursor as int,
                    (old(self).cursor_at(cursor) + 8) as u64,
                )
            },
            r is Err ==> *final(self) == *old(self),
    {
        let bytes = self.read_with_cursor(cursor, 8)?;
        let v = u64_from_le_bytes(bytes.as_slice());
        proof {
            vstd::bytes::lemma_auto_spec_u64_to_from_le_bytes();
        }
        Ok(v)
    }
}

/// Maps a version tag to the buffer manager of that version's file,
/// memoizing one open manager per tag.
pub struct BufferManagerFactory {
    pub managers: Vec<(u32, BufferManager)>,
}

impl BufferManagerFactory {
    pub open spec fn wf(self) -> bool {
        &&& forall|i: int| 0 <= i < self.managers@.len() ==> (#[trigger] self.managers@[i]).1.wf()
        &&& forall|i: int, j: int|
            0 <= i < j < self.managers@.len() ==> (#[trigger] self.managers@[i]).0 != (
            #[trigger] self.managers@[j]).0
    }

    pub open spec fn has_tag(self, tag: u32) -> bool {
        exists|i: int| 0 <= i < self.managers@.len() && (#[trigger] self.managers@[i]).0 == tag
    }

    pub fn new() -> (r: Self)
        ensures
            r.wf(),
            r.managers@.len() == 0,
    {
        BufferManagerFactory { managers: Vec::new() }
    }

    /// Index of the manager for `tag`, opening a fresh empty file for a
    /// tag not seen before.
    pub fn get(&mut self, tag: u32) -> (r: usize)
        requires
            old(self).wf(),
            old(self).managers@.len() < usize::MAX,
        ensures
            final(self).wf(),
            r < final(self).managers@.len(),
            final(self).managers@[r as int].0 == tag,
            final(self).has_tag(tag),
            old(self).has_tag(tag) ==> final(self).managers@ == old(self).managers@,
            !old(self).has_tag(tag) ==> {
                &&& final(self).managers@.len() == old(self).managers@.len() + 1
                &&& final(self).managers@.take(old(self).managers@.len() as int) == old(
                    self,
                ).managers@
                &&& final(self).managers@[r as int].1.file() == Seq::<u8>::empty()
                &&& final(self).managers@[r as int].1.cursors@ == Seq::<u64>::empty()
            },
    {
        let n = self.managers.len();
        let mut i: usize = 0;
        while i < n
            invariant
                *self == *old(self),
                old(self).wf(),
                n == self.managers@.len(),
                i <= n,
                forall|j: int| 0 <= j < i ==> (#[trigger] self.managers@[j]).0 != tag,
            decreases n - i,
        {
            if self.managers[i].0 == tag {
                proof {
                    assert(self.has_tag(tag));
                    assert(self.managers@ == old(self).managers@);
                    assert forall|ii: int| 0 <= ii < self.managers@.len() implies (
                    #[trigger] self.managers@[ii]).1.wf() by {
                        assert(self.managers@[ii] == old(self).managers@[ii]);
                        assert(old(self).managers@[ii].1.wf());
                    }
                    assert forall|a: int, b: int|
                        0 <= a < b < self.managers@.len() implies (
                    #[trigger] self.managers@[a]).0 != (#[trigger] self.managers@[b]).0 by {
                        assert(old(self).managers@[a].0 != old(self).managers@[b].0);
                    }
                }
                return i;
            }
            i += 1;
        }
        proof {
            assert(!self.has_tag(tag));
        }
        self.managers.push((tag, BufferManager::new(Vec::new())));
        proof {
            assert(self.managers@[n as int].0 == tag);
            assert(self.has_tag(tag));
            assert forall|a: int, b: int|
                0 <= a < b < self.managers@.len() implies (#[trigger] self.managers@[a]).0 != (
            #[trigger] self.managers@[b]).0 by {
                if b == self.managers@.len() - 1 {
                    assert(self.managers@[a].0 != tag);
                }
            }
        }
        n
    }

    /// Flushing every manager leaves the images as they are.
    pub fn flush_all(&mut self) -> (r: Result<(), BufIoError>)
        requires
            old(self).wf(),
        ensures
            *final(self) == *old(self),
            r is Ok,
    {
        Ok(())
    }
}

} // verus!
