//! Virtual filesystems behind one interface: an in-memory tree, a ZIP archive, a tarball,
//! a read-only union of filesystems and a composite that mounts filesystems at paths.

use crate::error::{Error, ErrorKind};
use crate::file::{entries_view, DirEntry, File, Metadata, OpenOptions};
use vstd::prelude::*;

pub mod any_fs;
pub mod error;
pub mod file;
pub mod memory_fs;
pub mod mountable_fs;
pub mod physical_fs;
pub mod roc_fs;
pub mod tar_fs;
pub mod tree;
pub mod util;
pub mod zip_fs;

verus! {

/// The options that `create_file` opens with: created when absent, truncated, writable.
pub open spec fn options_of_create_file() -> OpenOptions {
    OpenOptions { append: false, create: true, read: true, truncate: true, write: true }
}

/// The options that `open_file` opens with: read-only.
pub open spec fn options_of_open_file() -> OpenOptions {
    OpenOptions { append: false, create: false, read: true, truncate: false, write: false }
}

/// What `path_exists` answers to the outcome of `metadata`: found, not found, or the failure
/// that kept it from telling.
pub open spec fn exists_outcome(metadata: Result<Metadata, Error>) -> Result<bool, Error> {
    match metadata {
        Ok(_) => Ok(true),
        Err(e) => if e.kind == ErrorKind::NotFound {
            Ok(false)
        } else {
            Err(e)
        },
    }
}

/// Whether `path_exists` may answer `r` for the path, as its contract says: what it makes
/// of one of the outcomes of `metadata`.
pub open spec fn exists_answer<FS: FileSystem>(
    fs: FS,
    path: Seq<char>,
    r: Result<bool, Error>,
) -> bool {
    exists|m: Result<Metadata, Error>| #[trigger]
        fs.metadata_outcome(path, m) && r == exists_outcome(m)
}

/// A path exists exactly where `metadata` succeeds on it, and does not exist exactly where
/// `metadata` fails with `NotFound`. This holds of every filesystem whose `metadata` has
/// one outcome on the path in its state; of a filesystem that says nothing of itself,
/// nothing can be said.
pub proof fn lemma_exists_iff_metadata<FS: FileSystem>(
    fs: FS,
    path: Seq<char>,
    m: Result<Metadata, Error>,
    r: Result<bool, Error>,
)
    requires
        forall|other: Result<Metadata, Error>| #[trigger]
            fs.metadata_outcome(path, other) ==> other == m,
        exists_answer(fs, path, r),
    ensures
        r == exists_outcome(m),
        r == Ok::<bool, Error>(true) <==> m is Ok,
        r == Ok::<bool, Error>(false) <==> m is Err && m->Err_0.kind == ErrorKind::NotFound,
{
}

/// What `read_dir` returned, with the entries as names and metadata.
pub open spec fn listing_view(r: Result<Vec<DirEntry>, Error>) -> Result<
    Seq<(Seq<char>, Metadata)>,
    Error,
> {
    match r {
        Ok(entries) => Ok(entries_view(entries@)),
        Err(e) => Err(e),
    }
}

/// A file system with a directory tree.
///
/// Each operation comes with a description of its outcomes: which results it may return in
/// a given state, and which state it may leave. A filesystem that says nothing of itself
/// may do anything.
pub trait FileSystem: Sized {
    /// The handles that the filesystem opens files with.
    type File: File;

    /// The invariant of the filesystem's state.
    open spec fn wf(&self) -> bool {
        true
    }

    /// Whether `metadata` may return `r` for the path.
    open spec fn metadata_outcome(&self, path: Seq<char>, r: Result<Metadata, Error>) -> bool {
        true
    }

    /// Whether `read_dir` may return `r` for the path: the entries as names and metadata.
    open spec fn read_dir_outcome(
        &self,
        path: Seq<char>,
        r: Result<Seq<(Seq<char>, Metadata)>, Error>,
    ) -> bool {
        true
    }

    /// Whether `create_dir` on the path may return `r` and leave `after`.
    open spec fn create_dir_outcome(
        &self,
        path: Seq<char>,
        r: Result<(), Error>,
        after: &Self,
    ) -> bool {
        true
    }

    /// Whether `remove_dir` on the path may return `r` and leave `after`.
    open spec fn remove_dir_outcome(
        &self,
        path: Seq<char>,
        r: Result<(), Error>,
        after: &Self,
    ) -> bool {
        true
    }

    /// Whether `remove_file` on the path may return `r` and leave `after`.
    open spec fn remove_file_outcome(
        &self,
        path: Seq<char>,
        r: Result<(), Error>,
        after: &Self,
    ) -> bool {
        true
    }

    /// Whether `create_dir_all` on the path may return `r` and leave `after`.
    open spec fn create_dir_all_outcome(
        &self,
        path: Seq<char>,
        r: Result<(), Error>,
        after: &Self,
    ) -> bool {
        true
    }

    /// Whether `open_file_options` on the path may return `r` and leave `after`.
    open spec fn open_outcome(
        &self,
        path: Seq<char>,
        options: OpenOptions,
        r: Result<Self::File, Error>,
        after: &Self,
    ) -> bool {
        true
    }

    /// Creates a directory at `path`.
    fn create_dir(&mut self, path: &str) -> (r: Result<(), Error>)
        requires
            old(self).wf(),
        ensures
            final(self).wf(),
            old(self).create_dir_outcome(path@, r, final(self)),
    ;

    /// Returns the metadata for the file or folder at `path`.
    fn metadata(&self, path: &str) -> (r: Result<Metadata, Error>)
        requires
            self.wf(),
        ensures
            self.metadata_outcome(path@, r),
    ;

    /// Opens a file at `path` with options `options`.
    fn open_file_options(&mut self, path: &str, options: &OpenOptions) -> (r: Result<
        Self::File,
        Error,
    >)
        requires
            old(self).wf(),
        ensures
            final(self).wf(),
            old(self).open_outcome(path@, *options, r, final(self)),
    ;

    /// Lists the files and folders contained in the directory denoted by `path`.
    fn read_dir(&self, path: &str) -> (r: Result<Vec<DirEntry>, Error>)
        requires
            self.wf(),
        ensures
            self.read_dir_outcome(path@, listing_view(r)),
    ;

    /// Removes the directory at `path`.
    fn remove_dir(&mut self, path: &str) -> (r: Result<(), Error>)
        requires
            old(self).wf(),
        ensures
            final(self).wf(),
            old(self).remove_dir_outcome(path@, r, final(self)),
    ;

    /// Removes a file at `path`.
    fn remove_file(&mut self, path: &str) -> (r: Result<(), Error>)
        requires
            old(self).wf(),
        ensures
            final(self).wf(),
            old(self).remove_file_outcome(path@, r, final(self)),
    ;

    /// Creates a directory `path` and all of its parents.
    fn create_dir_all(&mut self, path: &str) -> (r: Result<(), Error>)
        requires
            old(self).wf(),
        ensures
            final(self).wf(),
            old(self).create_dir_all_outcome(path@, r, final(self)),
    ;

    /// Creates a file at `path` in write mode. The file will be opened in truncate mode, so
    /// all contents will be overwritten. If this is not desirable, use `open_file_options`
    /// directly.
    fn create_file(&mut self, path: &str) -> (r: Result<Self::File, Error>)
        requires
            old(self).wf(),
        ensures
            final(self).wf(),
            old(self).open_outcome(path@, options_of_create_file(), r, final(self)),
    {
        let options = OpenOptions::default().create(true).truncate(true);
        self.open_file_options(path, &options)
    }

    /// Returns `Ok(true)` or `Ok(false)` if a file or folder at `path` does or does not
    /// exist, and the error if the presence cannot be verified: `path` exists exactly where
    /// `metadata` succeeds on it.
    fn path_exists(&self, path: &str) -> (r: Result<bool, Error>)
        requires
            self.wf(),
        ensures
            exists|m: Result<Metadata, Error>| #[trigger]
                self.metadata_outcome(path@, m) && r == exists_outcome(m),
    {
        match self.metadata(path) {
            Ok(_) => Ok(true),
            Err(err) => if err.kind() == ErrorKind::NotFound {
                Ok(false)
            } else {
                Err(err)
            },
        }
    }

    /// Opens a file at `path` for reading.
    fn open_file(&mut self, path: &str) -> (r: Result<Self::File, Error>)
        requires
            old(self).wf(),
        ensures
            final(self).wf(),
            old(self).open_outcome(path@, options_of_open_file(), r, final(self)),
    {
        let options = OpenOptions::default();
        self.open_file_options(path, &options)
    }
}

} // verus!
