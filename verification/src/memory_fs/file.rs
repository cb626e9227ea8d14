//! A file handle over a byte buffer: a cursor with a read and a write mode.

use crate::error::{Error, ErrorKind};
use crate::file::{File, Metadata, OpenOptions, SeekFrom};
use crate::util::{invalid_input, not_supported};
use vstd::prelude::*;
use vstd::utf8::{decode_utf8, valid_utf8};

verus! {

/// The error of `String::from_utf8`; nothing of it is read here.
#[verifier::external_type_specification]
#[verifier::external_body]
pub struct ExFromUtf8Error(std::string::FromUtf8Error);

/// `String::from_utf8` succeeds exactly on valid UTF-8 and then holds the characters that
/// the bytes encode.
pub assume_specification[ String::from_utf8 ](vec: Vec<u8>) -> (r: Result<
    String,
    std::string::FromUtf8Error,
>)
    ensures
        r is Ok <==> valid_utf8(vec@),
        r matches Ok(s) ==> s@ == decode_utf8(vec@),
;

/// The file open mode.
#[derive(Debug, Copy, Clone, PartialEq, Eq, Structural)]
pub enum FileMode {
    /// The handle may read.
    Read,
    /// The handle may write.
    Write,
}

/// A set of file open modes.
#[derive(Debug, Copy, Clone, PartialEq, Eq, Structural)]
pub struct FileModes {
    /// Whether `FileMode::Read` is in the set.
    pub read: bool,
    /// Whether `FileMode::Write` is in the set.
    pub write: bool,
}

impl FileModes {
    /// The empty set of modes.
    pub fn empty() -> (m: FileModes)
        ensures
            m == (FileModes { read: false, write: false }),
    {
        FileModes { read: false, write: false }
    }

    /// Adds a mode to the set.
    pub fn insert(&mut self, mode: FileMode)
        ensures
            final(self).read == (old(self).read || mode == FileMode::Read),
            final(self).write == (old(self).write || mode == FileMode::Write),
    {
        match mode {
            FileMode::Read => {
                self.read = true;
            },
            FileMode::Write => {
                self.write = true;
            },
        }
    }

    /// Whether the set holds the mode.
    pub fn contains(&self, mode: FileMode) -> (b: bool)
        ensures
            b == match mode {
                FileMode::Read => self.read,
                FileMode::Write => self.write,
            },
    {
        match mode {
            FileMode::Read => self.read,
            FileMode::Write => self.write,
        }
    }
}

impl FileMode {
    /// Collects the modes that the open options ask for: reading and writing, each exactly
    /// when its option is set.
    pub fn from_options(open_options: &OpenOptions) -> (m: FileModes)
        ensures
            m == (FileModes { read: open_options.read, write: open_options.write }),
    {
        let mut mode = FileModes::empty();
        if open_options.read {
            mode.insert(FileMode::Read);
        }
        if open_options.write {
            mode.insert(FileMode::Write);
        }
        mode
    }
}

/// A handle on the bytes of one file, with a cursor.
#[derive(Debug)]
pub struct FileHandle {
    /// The bytes of the file.
    pub contents: Vec<u8>,
    /// The cursor. It may stand behind the end of the file.
    pub pos: u64,
    /// What the handle may do.
    pub mode: FileModes,
}

/// Where reading and writing begin: at the cursor, or at the end where the cursor stands
/// behind it.
pub open spec fn start_of(pos: u64, len: nat) -> nat {
    if pos <= len {
        pos as nat
    } else {
        len
    }
}

/// The bytes after `data` was written over `bytes` from `start`, the file growing where
/// `data` reaches behind its end.
pub open spec fn overwritten(bytes: Seq<u8>, start: int, data: Seq<u8>) -> Seq<u8> {
    bytes.take(start) + data + if start + data.len() < bytes.len() {
        bytes.skip(start + data.len())
    } else {
        Seq::empty()
    }
}

/// Where a seek leads, as an unbounded integer.
pub open spec fn seek_target(pos: u64, len: nat, seek: SeekFrom) -> int {
    match seek {
        SeekFrom::Start(n) => n as int,
        SeekFrom::End(n) => len + n,
        SeekFrom::Current(n) => pos + n,
    }
}

impl FileHandle {
    /// Creates a new file handle on the given contents, with the cursor at the start.
    pub fn new(contents: Vec<u8>, mode: FileModes) -> (h: FileHandle)
        ensures
            h.contents == contents,
            h.pos == 0,
            h.mode == mode,
    {
        FileHandle { contents, pos: 0, mode }
    }

    /// Clears the contents of the file. The cursor stays.
    pub fn clear(&mut self)
        ensures
            final(self).contents@ == Seq::<u8>::empty(),
            final(self).pos == old(self).pos,
            final(self).mode == old(self).mode,
    {
        self.contents.clear()
    }

    /// The bytes from the cursor to the end of the file.
    pub open spec fn remaining(&self) -> Seq<u8> {
        self.contents@.skip(start_of(self.pos, self.contents@.len()) as int)
    }

    /// Checks that the required mode is active.
    pub fn check_mode(mode: bool) -> (r: Result<(), Error>)
        ensures
            mode ==> r is Ok,
            !mode ==> r == Err::<(), Error>(Error { kind: ErrorKind::Unsupported }),
    {
        if mode {
            Ok(())
        } else {
            Err(not_supported())
        }
    }
}

impl File for FileHandle {
    /// A handle without the read mode fails with `Unsupported` and nothing changes.
    /// Otherwise as many bytes as the buffer takes and the file has left are copied from
    /// the cursor to the front of the buffer, the cursor moves behind them, and their
    /// count is returned: zero at the end of the file.
    open spec fn read_outcome(
        &self,
        buf: Seq<u8>,
        r: Result<usize, Error>,
        after: &Self,
        filled: Seq<u8>,
    ) -> bool {
        &&& after.contents == self.contents
        &&& after.mode == self.mode
        &&& if !self.mode.read {
            &&& r == Err::<usize, Error>(Error { kind: ErrorKind::Unsupported })
            &&& after.pos == self.pos
            &&& filled == buf
        } else {
            let rest = self.remaining();
            let n = if buf.len() <= rest.len() {
                buf.len()
            } else {
                rest.len()
            };
            &&& r == Ok::<usize, Error>(n as usize)
            &&& after.pos == self.pos + n
            &&& filled == rest.take(n as int) + buf.skip(n as int)
        }
    }

    /// A handle without the write mode fails with `Unsupported` and nothing changes.
    /// Otherwise the bytes are written over the file from the cursor, or from the end
    /// where the cursor stands behind it, the file growing as far as needed, and the
    /// cursor moves behind what was written. All bytes are written unless the file would
    /// outgrow the address space.
    open spec fn write_outcome(&self, buf: Seq<u8>, r: Result<usize, Error>, after: &Self) -> bool {
        &&& after.mode == self.mode
        &&& if !self.mode.write {
            &&& r == Err::<usize, Error>(Error { kind: ErrorKind::Unsupported })
            &&& after.pos == self.pos
            &&& after.contents == self.contents
        } else {
            let start = start_of(self.pos, self.contents@.len());
            let n = if start + buf.len() <= usize::MAX {
                buf.len()
            } else {
                (usize::MAX - start) as nat
            };
            &&& r == Ok::<usize, Error>(n as usize)
            &&& after.pos == start + n
            &&& after.contents@ == overwritten(self.contents@, start as int, buf.take(n as int))
        }
    }

    /// `Start(n)` sets the cursor to `n`; `Current(n)` and `End(n)` move it by `n` from the
    /// cursor and from the end of the file. A target that is negative or does not fit 64
    /// bits fails with `InvalidInput` and leaves the cursor where it was.
    open spec fn seek_outcome(&self, pos: SeekFrom, r: Result<u64, Error>, after: &Self) -> bool {
        let target = seek_target(self.pos, self.contents@.len(), pos);
        &&& after.contents == self.contents
        &&& after.mode == self.mode
        &&& if 0 <= target <= u64::MAX {
            r == Ok::<u64, Error>(target as u64) && after.pos == target
        } else {
            r == Err::<u64, Error>(Error { kind: ErrorKind::InvalidInput }) && after.pos
                == self.pos
        }
    }

    /// Nothing is buffered, so there is nothing to flush: succeeds on a handle with the
    /// write mode and fails with `Unsupported` on any other. Nothing changes.
    open spec fn flush_outcome(&self, r: Result<(), Error>, after: &Self) -> bool {
        &&& *after == *self
        &&& if self.mode.write {
            r is Ok
        } else {
            r == Err::<(), Error>(Error { kind: ErrorKind::Unsupported })
        }
    }

    /// A file of the current length.
    open spec fn metadata_outcome(&self, r: Result<Metadata, Error>) -> bool {
        r == Ok::<Metadata, Error>(Metadata::file(self.contents@.len() as u64))
    }

    /// A handle without the read mode fails with `Unsupported` and nothing changes.
    /// Otherwise the bytes from the cursor to the end of the file are returned and the
    /// cursor moves to the end of what was read.
    open spec fn read_into_vec_outcome(&self, r: Result<Seq<u8>, Error>, after: &Self) -> bool {
        &&& after.contents == self.contents
        &&& after.mode == self.mode
        &&& if !self.mode.read {
            r == Err::<Seq<u8>, Error>(Error { kind: ErrorKind::Unsupported }) && after.pos
                == self.pos
        } else {
            r == Ok::<Seq<u8>, Error>(self.remaining()) && after.pos == self.pos
                + self.remaining().len()
        }
    }

    /// As `read_into_vec`, with the bytes decoded as UTF-8. Bytes that are no valid UTF-8
    /// fail with `InvalidData`; the cursor has then moved to the end all the same.
    open spec fn read_into_string_outcome(
        &self,
        r: Result<Seq<char>, Error>,
        after: &Self,
    ) -> bool {
        &&& after.contents == self.contents
        &&& after.mode == self.mode
        &&& if !self.mode.read {
            r == Err::<Seq<char>, Error>(Error { kind: ErrorKind::Unsupported }) && after.pos
                == self.pos
        } else {
            &&& after.pos == self.pos + self.remaining().len()
            &&& if valid_utf8(self.remaining()) {
                r == Ok::<Seq<char>, Error>(decode_utf8(self.remaining()))
            } else {
                r == Err::<Seq<char>, Error>(Error { kind: ErrorKind::InvalidData })
            }
        }
    }

    fn read(&mut self, buf: &mut [u8]) -> (r: Result<usize, Error>)
    {
        if !self.mode.contains(FileMode::Read) {
            return Err(not_supported());
        }
        let len = self.contents.len();
        let start: usize = if self.pos <= len as u64 {
            self.pos as usize
        } else {
            len
        };
        let left = len - start;
        let n: usize = if buf.len() <= left {
            buf.len()
        } else {
            left
        };
        let ghost rest = self.remaining();
        let ghost before = buf@;
        let mut i: usize = 0;
        while i < n
            invariant
                i <= n,
                n <= buf@.len(),
                buf@.len() == before.len(),
                start + n <= self.contents.len(),
                rest == self.contents@.skip(start as int),
                buf@ == rest.take(i as int) + before.skip(i as int),
            decreases n - i,
        {
            buf[i] = self.contents[start + i];
            proof {
                assert(buf@ =~= rest.take(i + 1) + before.skip(i + 1));
            }
            i += 1;
        }
        self.pos = self.pos + n as u64;
        Ok(n)
    }
    fn seek(&mut self, pos: SeekFrom) -> (r: Result<u64, Error>)
    {
        let (base, offset): (u64, i64) = match pos {
            SeekFrom::Start(n) => {
                self.pos = n;
                return Ok(n);
            },
            SeekFrom::Current(n) => (self.pos, n),
            SeekFrom::End(n) => (self.contents.len() as u64, n),
        };
        if offset >= 0 {
            let forward = offset as u64;
            if base <= u64::MAX - forward {
                self.pos = base + forward;
                return Ok(base + forward);
            }
        } else {
            let back: u64 = (-(offset + 1)) as u64 + 1;
            if back <= base {
                self.pos = base - back;
                return Ok(base - back);
            }
        }
        Err(invalid_input("Invalid seek to a negative or overflowing position"))
    }
    fn write(&mut self, buf: &[u8]) -> (r: Result<usize, Error>)
    {
        if !self.mode.contains(FileMode::Write) {
            return Err(not_supported());
        }
        let len = self.contents.len();
        let start: usize = if self.pos <= len as u64 {
            self.pos as usize
        } else {
            len
        };
        let n: usize = if buf.len() <= usize::MAX - start {
            buf.len()
        } else {
            usize::MAX - start
        };
        let ghost before = self.contents@;
        let mut i: usize = 0;
        proof {
            assert(before =~= overwritten(before, start as int, buf@.take(0)));
        }
        while i < n
            invariant
                i <= n <= buf@.len(),
                start <= before.len(),
                start + n <= usize::MAX,
                self.contents@ == overwritten(before, start as int, buf@.take(i as int)),
                self.mode == old(self).mode,
                self.pos == old(self).pos,
            decreases n - i,
        {
            if start + i < self.contents.len() {
                self.contents[start + i] = buf[i];
            } else {
                self.contents.push(buf[i]);
            }
            proof {
                assert(self.contents@ =~= overwritten(before, start as int, buf@.take(i + 1)));
            }
            i += 1;
        }
        self.pos = (start + n) as u64;
        Ok(n)
    }
    fn flush(&mut self) -> (r: Result<(), Error>)
    {
        FileHandle::check_mode(self.mode.contains(FileMode::Write))
    }
    fn metadata(&self) -> (r: Result<Metadata, Error>)
    {
        Ok(Metadata::file(self.contents.len() as u64))
    }
    fn read_into_vec(&mut self) -> (r: Result<Vec<u8>, Error>)
    {
        if !self.mode.contains(FileMode::Read) {
            return Err(not_supported());
        }
        let len = self.contents.len();
        let start: usize = if self.pos <= len as u64 {
            self.pos as usize
        } else {
            len
        };
        let mut out: Vec<u8> = Vec::new();
        let mut i: usize = start;
        while i < len
            invariant
                start <= i <= len,
                len == self.contents@.len(),
                out@ == self.contents@.subrange(start as int, i as int),
            decreases len - i,
        {
            out.push(self.contents[i]);
            proof {
                assert(out@ =~= self.contents@.subrange(start as int, i + 1));
            }
            i += 1;
        }
        proof {
            assert(out@ =~= self.remaining());
        }
        self.pos = self.pos + (len - start) as u64;
        Ok(out)
    }
    fn read_into_string(&mut self) -> (r: Result<String, Error>)
    {
        let bytes = self.read_into_vec()?;
        match String::from_utf8(bytes) {
            Ok(s) => Ok(s),
            Err(_) => Err(Error::new(ErrorKind::InvalidData)),
        }
    }}

} // verus!
