//! The values every backend reports: file types, metadata, directory entries and open options.

use crate::error::Error;
use vstd::prelude::*;

verus! {

/// The type of a file.
#[derive(Debug, Copy, Clone, PartialEq, Eq, Structural)]
pub enum FileType {
    /// A directory.
    Directory,
    /// A file.
    File,
    /// The file type is unknown or unsupported.
    Unknown,
}

/// Metadata about a file.
#[derive(Debug, Copy, Clone, PartialEq, Eq, Structural)]
pub struct Metadata {
    /// Whether the entry is a directory, a file or something else.
    pub file_type: FileType,
    /// The length of the file, in bytes. Directories report zero.
    pub len: u64,
}

impl Metadata {
    /// What `directory` returns.
    pub open spec fn of_directory() -> Metadata {
        Metadata { file_type: FileType::Directory, len: 0 }
    }

    /// What `file` returns.
    pub open spec fn of_file(len: u64) -> Metadata {
        Metadata { file_type: FileType::File, len }
    }

    /// Returns metadata for a directory.
    #[verifier::when_used_as_spec(of_directory)]
    pub fn directory() -> (m: Metadata)
        ensures
            m == (Metadata { file_type: FileType::Directory, len: 0 }),
    {
        Metadata { file_type: FileType::Directory, len: 0 }
    }

    /// Returns metadata for a file of `len` bytes.
    #[verifier::when_used_as_spec(of_file)]
    pub fn file(len: u64) -> (m: Metadata)
        ensures
            m == (Metadata { file_type: FileType::File, len }),
    {
        Metadata { file_type: FileType::File, len }
    }

    /// Returns true if the entry is a directory.
    pub fn is_directory(&self) -> (b: bool)
        ensures
            b == (self.file_type == FileType::Directory),
    {
        self.file_type == FileType::Directory
    }

    /// Returns true if the entry is a file.
    pub fn is_file(&self) -> (b: bool)
        ensures
            b == (self.file_type == FileType::File),
    {
        self.file_type == FileType::File
    }

    /// Returns the length of the file, in bytes.
    pub fn len(&self) -> (n: u64)
        ensures
            n == self.len,
    {
        self.len
    }
}

/// A directory entry: the leaf name inside the listed directory, and what it names.
#[derive(Debug, Clone)]
pub struct DirEntry {
    /// The leaf name of the entry.
    pub path: String,
    /// Metadata about the entry.
    pub metadata: Metadata,
}

impl DirEntry {
    /// The entry as a pair of plain values.
    pub open spec fn view(&self) -> (Seq<char>, Metadata) {
        (self.path@, self.metadata)
    }

    /// Returns true if the entry is a directory.
    pub fn is_directory(&self) -> (b: bool)
        ensures
            b == (self.metadata.file_type == FileType::Directory),
    {
        self.metadata.is_directory()
    }

    /// Returns true if the entry is a file.
    pub fn is_file(&self) -> (b: bool)
        ensures
            b == (self.metadata.file_type == FileType::File),
    {
        self.metadata.is_file()
    }

    /// Returns the length of the file, in bytes.
    pub fn len(&self) -> (n: u64)
        ensures
            n == self.metadata.len,
    {
        self.metadata.len()
    }

    /// A copy of this entry.
    pub fn duplicate(&self) -> (e: DirEntry)
        ensures
            e@ == self@,
    {
        DirEntry { path: self.path.clone(), metadata: self.metadata }
    }
}

/// The entries of a listing as pairs of plain values.
pub open spec fn entries_view(entries: Seq<DirEntry>) -> Seq<(Seq<char>, Metadata)> {
    Seq::new(entries.len(), |i: int| entries[i]@)
}

/// Options for opening a file. The default mode is read-only.
#[derive(Debug, Clone, Copy, PartialEq, Eq, Structural)]
pub struct OpenOptions {
    /// True if writes go to the end of the file.
    pub append: bool,
    /// True if the file should be created if not present.
    pub create: bool,
    /// True if the file should be able to be read.
    pub read: bool,
    /// True if the file should be truncated.
    pub truncate: bool,
    /// True if the file should be written to.
    pub write: bool,
}

impl OpenOptions {
    /// Sets whether writes go to the end of the file. Asking for appending enables writing
    /// and takes truncation back; giving it up changes nothing else.
    pub fn append(self, append: bool) -> (o: OpenOptions)
        ensures
            o == (OpenOptions {
                append,
                truncate: self.truncate && !append,
                write: self.write || append,
                ..self
            }),
    {
        OpenOptions {
            append,
            truncate: self.truncate && !append,
            write: self.write || append,
            ..self
        }
    }

    /// Sets whether the file is created when it is absent. Asking for creation enables
    /// writing.
    pub fn create(self, create: bool) -> (o: OpenOptions)
        ensures
            o == (OpenOptions { create, write: self.write || create, ..self }),
    {
        OpenOptions { create, write: self.write || create, ..self }
    }

    /// Sets whether the file can be read.
    pub fn read(self, read: bool) -> (o: OpenOptions)
        ensures
            o == (OpenOptions { read, ..self }),
    {
        OpenOptions { read, ..self }
    }

    /// Sets whether the file is cleared when it is opened. Asking for truncation enables
    /// writing and takes appending back; giving it up changes nothing else.
    pub fn truncate(self, truncate: bool) -> (o: OpenOptions)
        ensures
            o == (OpenOptions {
                truncate,
                append: self.append && !truncate,
                write: self.write || truncate,
                ..self
            }),
    {
        OpenOptions {
            truncate,
            append: self.append && !truncate,
            write: self.write || truncate,
            ..self
        }
    }

    /// Sets whether the file can be written.
    pub fn write(self, write: bool) -> (o: OpenOptions)
        ensures
            o == (OpenOptions { write, ..self }),
    {
        OpenOptions { write, ..self }
    }
}

impl Default for OpenOptions {
    fn default() -> (o: OpenOptions)
        ensures
            o == (OpenOptions {
                append: false,
                create: false,
                read: true,
                truncate: false,
                write: false,
            }),
    {
        OpenOptions { append: false, create: false, read: true, truncate: false, write: false }
    }
}

/// Where a seek starts from, and how far it goes.
#[derive(Debug, Copy, Clone, PartialEq, Eq, Structural)]
pub enum SeekFrom {
    /// An offset from the start of the file.
    Start(u64),
    /// An offset from the end of the file.
    End(i64),
    /// An offset from the cursor.
    Current(i64),
}

/// A file that can be read, written and searched.
///
/// Each operation comes with a description of its outcomes: which results it may return,
/// and which state of the handle it may leave. A file that says nothing of itself may do
/// anything.
pub trait File: Sized {
    /// Whether `read` into a buffer that held `buf` may return `r`, leave the handle as
    /// `after` and the buffer holding `filled`.
    open spec fn read_outcome(
        &self,
        buf: Seq<u8>,
        r: Result<usize, Error>,
        after: &Self,
        filled: Seq<u8>,
    ) -> bool {
        true
    }

    /// Whether `write` of `buf` may return `r` and leave the handle as `after`.
    open spec fn write_outcome(&self, buf: Seq<u8>, r: Result<usize, Error>, after: &Self) -> bool {
        true
    }

    /// Whether `seek` may return `r` and leave the handle as `after`.
    open spec fn seek_outcome(&self, pos: SeekFrom, r: Result<u64, Error>, after: &Self) -> bool {
        true
    }

    /// Whether `flush` may return `r` and leave the handle as `after`.
    open spec fn flush_outcome(&self, r: Result<(), Error>, after: &Self) -> bool {
        true
    }

    /// Whether `metadata` may return `r`.
    open spec fn metadata_outcome(&self, r: Result<Metadata, Error>) -> bool {
        true
    }

    /// Whether `read_into_vec` may return `r`, given by its bytes, and leave the handle as
    /// `after`.
    open spec fn read_into_vec_outcome(&self, r: Result<Seq<u8>, Error>, after: &Self) -> bool {
        true
    }

    /// Whether `read_into_string` may return `r`, given by its characters, and leave the
    /// handle as `after`.
    open spec fn read_into_string_outcome(
        &self,
        r: Result<Seq<char>, Error>,
        after: &Self,
    ) -> bool {
        true
    }

    /// Reads bytes from the cursor into `buf` and returns how many were read; zero at the
    /// end of the file.
    fn read(&mut self, buf: &mut [u8]) -> (r: Result<usize, Error>)
        ensures
            old(self).read_outcome(old(buf)@, r, final(self), final(buf)@),
    ;

    /// Writes bytes of `buf` at the cursor and returns how many were written.
    fn write(&mut self, buf: &[u8]) -> (r: Result<usize, Error>)
        ensures
            old(self).write_outcome(buf@, r, final(self)),
    ;

    /// Moves the cursor and returns where it stands.
    fn seek(&mut self, pos: SeekFrom) -> (r: Result<u64, Error>)
        ensures
            old(self).seek_outcome(pos, r, final(self)),
    ;

    /// Hands what was written on to the medium.
    fn flush(&mut self) -> (r: Result<(), Error>)
        ensures
            old(self).flush_outcome(r, final(self)),
    ;

    /// Returns the metadata of the file.
    fn metadata(&self) -> (r: Result<Metadata, Error>)
        ensures
            self.metadata_outcome(r),
    ;

    /// Reads the file from the cursor to its end into a vector.
    fn read_into_vec(&mut self) -> (r: Result<Vec<u8>, Error>)
        ensures
            old(self).read_into_vec_outcome(
                match r {
                    Ok(bytes) => Ok(bytes@),
                    Err(e) => Err(e),
                },
                final(self),
            ),
    ;

    /// Reads the file from the cursor to its end into a string.
    fn read_into_string(&mut self) -> (r: Result<String, Error>)
        ensures
            old(self).read_into_string_outcome(
                match r {
                    Ok(text) => Ok(text@),
                    Err(e) => Err(e),
                },
                final(self),
            ),
    ;
}

} // verus!
