//! One type for the backends of this library, so that a union or a composite can hold
//! filesystems of different kinds.

use crate::error::Error;
use crate::file::{DirEntry, Metadata, OpenOptions};
use crate::memory_fs::file::FileHandle;
use crate::memory_fs::MemoryFS;
use crate::tar_fs::TarFS;
use crate::zip_fs::ZipFS;
use crate::FileSystem;
use vstd::prelude::*;

verus! {

/// Any of the backends that hold their files themselves. Every operation is that of the
/// backend inside.
#[derive(Debug)]
pub enum AnyFS {
    /// A memory filesystem.
    Memory(MemoryFS),
    /// A filesystem over a ZIP archive.
    Zip(ZipFS),
    /// A filesystem over a tarball.
    Tar(TarFS),
}

impl FileSystem for AnyFS {
    type File = FileHandle;

    open spec fn wf(&self) -> bool {
        match self {
            AnyFS::Memory(fs) => FileSystem::wf(fs),
            AnyFS::Zip(fs) => FileSystem::wf(fs),
            AnyFS::Tar(fs) => FileSystem::wf(fs),
        }
    }

    open spec fn metadata_outcome(&self, path: Seq<char>, r: Result<Metadata, Error>) -> bool {
        match self {
            AnyFS::Memory(fs) => fs.metadata_outcome(path, r),
            AnyFS::Zip(fs) => fs.metadata_outcome(path, r),
            AnyFS::Tar(fs) => fs.metadata_outcome(path, r),
        }
    }

    open spec fn read_dir_outcome(
        &self,
        path: Seq<char>,
        r: Result<Seq<(Seq<char>, Metadata)>, Error>,
    ) -> bool {
        match self {
            AnyFS::Memory(fs) => fs.read_dir_outcome(path, r),
            AnyFS::Zip(fs) => fs.read_dir_outcome(path, r),
            AnyFS::Tar(fs) => fs.read_dir_outcome(path, r),
        }
    }

    open spec fn create_dir_outcome(
        &self,
        path: Seq<char>,
        r: Result<(), Error>,
        after: &Self,
    ) -> bool {
        match (*self, *after) {
            (AnyFS::Memory(fs), AnyFS::Memory(next)) => fs.create_dir_outcome(path, r, &next),
            (AnyFS::Zip(fs), AnyFS::Zip(next)) => fs.create_dir_outcome(path, r, &next),
            (AnyFS::Tar(fs), AnyFS::Tar(next)) => fs.create_dir_outcome(path, r, &next),
            _ => false,
        }
    }

    open spec fn remove_dir_outcome(
        &self,
        path: Seq<char>,
        r: Result<(), Error>,
        after: &Self,
    ) -> bool {
        match (*self, *after) {
            (AnyFS::Memory(fs), AnyFS::Memory(next)) => fs.remove_dir_outcome(path, r, &next),
            (AnyFS::Zip(fs), AnyFS::Zip(next)) => fs.remove_dir_outcome(path, r, &next),
            (AnyFS::Tar(fs), AnyFS::Tar(next)) => fs.remove_dir_outcome(path, r, &next),
            _ => false,
        }
    }

    open spec fn remove_file_outcome(
        &self,
        path: Seq<char>,
        r: Result<(), Error>,
        after: &Self,
    ) -> bool {
        match (*self, *after) {
            (AnyFS::Memory(fs), AnyFS::Memory(next)) => fs.remove_file_outcome(path, r, &next),
            (AnyFS::Zip(fs), AnyFS::Zip(next)) => fs.remove_file_outcome(path, r, &next),
            (AnyFS::Tar(fs), AnyFS::Tar(next)) => fs.remove_file_outcome(path, r, &next),
            _ => false,
        }
    }

    open spec fn create_dir_all_outcome(
        &self,
        path: Seq<char>,
        r: Result<(), Error>,
        after: &Self,
    ) -> bool {
        match (*self, *after) {
            (AnyFS::Memory(fs), AnyFS::Memory(next)) => fs.create_dir_all_outcome(path, r, &next),
            (AnyFS::Zip(fs), AnyFS::Zip(next)) => fs.create_dir_all_outcome(path, r, &next),
            (AnyFS::Tar(fs), AnyFS::Tar(next)) => fs.create_dir_all_outcome(path, r, &next),
            _ => false,
        }
    }

    open spec fn open_outcome(
        &self,
        path: Seq<char>,
        options: OpenOptions,
        r: Result<FileHandle, Error>,
        after: &Self,
    ) -> bool {
        match (*self, *after) {
            (AnyFS::Memory(fs), AnyFS::Memory(next)) => fs.open_outcome(path, options, r, &next),
            (AnyFS::Zip(fs), AnyFS::Zip(next)) => fs.open_outcome(path, options, r, &next),
            (AnyFS::Tar(fs), AnyFS::Tar(next)) => fs.open_outcome(path, options, r, &next),
            _ => false,
        }
    }

    fn create_dir(&mut self, path: &str) -> (r: Result<(), Error>) {
        match self {
            AnyFS::Memory(fs) => fs.create_dir(path),
            AnyFS::Zip(fs) => fs.create_dir(path),
            AnyFS::Tar(fs) => fs.create_dir(path),
        }
    }

    fn metadata(&self, path: &str) -> (r: Result<Metadata, Error>) {
        match self {
            AnyFS::Memory(fs) => fs.metadata(path),
            AnyFS::Zip(fs) => fs.metadata(path),
            AnyFS::Tar(fs) => fs.metadata(path),
        }
    }

    fn open_file_options(&mut self, path: &str, options: &OpenOptions) -> (r: Result<
        FileHandle,
        Error,
    >) {
        match self {
            AnyFS::Memory(fs) => fs.open_file_options(path, options),
            AnyFS::Zip(fs) => fs.open_file_options(path, options),
            AnyFS::Tar(fs) => fs.open_file_options(path, options),
        }
    }

    fn read_dir(&self, path: &str) -> (r: Result<Vec<DirEntry>, Error>) {
        match self {
            AnyFS::Memory(fs) => fs.read_dir(path),
            AnyFS::Zip(fs) => fs.read_dir(path),
            AnyFS::Tar(fs) => fs.read_dir(path),
        }
    }

    fn remove_dir(&mut self, path: &str) -> (r: Result<(), Error>) {
        match self {
            AnyFS::Memory(fs) => fs.remove_dir(path),
            AnyFS::Zip(fs) => fs.remove_dir(path),
            AnyFS::Tar(fs) => fs.remove_dir(path),
        }
    }

    fn remove_file(&mut self, path: &str) -> (r: Result<(), Error>) {
        match self {
            AnyFS::Memory(fs) => fs.remove_file(path),
            AnyFS::Zip(fs) => fs.remove_file(path),
            AnyFS::Tar(fs) => fs.remove_file(path),
        }
    }

    fn create_dir_all(&mut self, path: &str) -> (r: Result<(), Error>) {
        match self {
            AnyFS::Memory(fs) => fs.create_dir_all(path),
            AnyFS::Zip(fs) => fs.create_dir_all(path),
            AnyFS::Tar(fs) => fs.create_dir_all(path),
        }
    }
}

} // verus!
