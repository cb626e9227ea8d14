//! A read-only filesystem over a tarball, backed by the `tar` crate and held in memory.

use crate::error::{io_failure, Error, ErrorKind};
use crate::file::{DirEntry, File, Metadata, OpenOptions};
use crate::memory_fs::file::FileHandle;
use crate::memory_fs::{MemoryFS, Stored};
use crate::tree::is_prefix;
use crate::util::{components, not_supported};
use crate::FileSystem;
use std::io::Cursor;
use std::io::Read;
use vstd::prelude::*;

verus! {

/// What the archive holds of one entry, as far as this library reads it.
#[derive(Debug)]
pub struct TarEntry {
    /// Whether the header gives the entry the type of a regular file.
    pub regular: bool,
    /// The path of the entry, or the failure of decoding it.
    pub path: Result<String, Error>,
    /// The bytes of the entry, or the failure of reading them.
    pub contents: Result<Vec<u8>, Error>,
}

/// An entry of an archive as plain values.
pub struct TarEntryView {
    /// Whether the header gives the entry the type of a regular file.
    pub regular: bool,
    /// The path of the entry, or the failure of decoding it.
    pub path: Result<Seq<char>, Error>,
    /// The bytes of the entry, or the failure of reading them.
    pub contents: Result<Seq<u8>, Error>,
}

/// Bytes, or the failure of reading them, as plain values.
pub open spec fn bytes_view(contents: Result<Vec<u8>, Error>) -> Result<Seq<u8>, Error> {
    match contents {
        Ok(bytes) => Ok(bytes@),
        Err(e) => Err(e),
    }
}

impl TarEntry {
    /// The entry as plain values.
    pub open spec fn view(&self) -> TarEntryView {
        TarEntryView {
            regular: self.regular,
            path: match self.path {
                Ok(path) => Ok(path@),
                Err(e) => Err(e),
            },
            contents: bytes_view(self.contents),
        }
    }
}

/// The entries, and the failures among them, as plain values.
pub open spec fn tar_view(entries: Seq<Result<TarEntry, Error>>) -> Seq<
    Result<TarEntryView, Error>,
> {
    Seq::new(
        entries.len(),
        |i: int|
            match entries[i] {
                Ok(entry) => Ok(entry@),
                Err(e) => Err(e),
            },
    )
}

/// The entries that a tarball of the given bytes hands out, in the order of the archive,
/// up to the first that cannot be read, which comes as its failure.
pub uninterp spec fn tar_entries(bytes: Seq<u8>) -> Seq<Result<TarEntryView, Error>>;

/// `Archive::new` over the bytes and `Archive::entries`, walked to the end: every entry in
/// the order of the archive, with what `Entry::header`, `Entry::path` and reading the entry
/// to its end give of it. An entry that cannot be read comes as its failure and ends the
/// walk.
#[verifier::external_body]
fn read_entries(bytes: Vec<u8>) -> (r: Vec<Result<TarEntry, Error>>)
    ensures
        tar_view(r@) == tar_entries(bytes@),
{
    let mut archive = tar::Archive::new(Cursor::new(bytes));
    let entries = match archive.entries() {
        Ok(entries) => entries,
        Err(e) => return vec![Err(io_failure(e))],
    };
    entries.map(|entry| {
        let mut entry = entry.map_err(io_failure)?;
        let regular = entry.header().entry_type() == tar::EntryType::Regular;
        let path = entry.path().map(|p| p.to_string_lossy().into_owned()).map_err(io_failure);
        let mut bytes = Vec::new();
        let contents = entry.read_to_end(&mut bytes).map(|_| bytes).map_err(io_failure);
        Ok(TarEntry { regular, path, contents })
    }).collect()
}

/// Filters over filesystems.
pub trait FileSystemFilter {
    /// Whether the filter may answer `b` for the path. A filter that says nothing of
    /// itself may answer anything.
    open spec fn includes(&self, path: Seq<char>, b: bool) -> bool {
        true
    }

    /// Returns true if the path should be included in the filesystem.
    fn should_include(&self, path: &str) -> (b: bool)
        ensures
            self.includes(path@, b),
    ;
}

/// The filter that lets every path pass.
pub struct IncludeAll {}

impl FileSystemFilter for IncludeAll {
    open spec fn includes(&self, path: Seq<char>, b: bool) -> bool {
        b
    }

    fn should_include(&self, path: &str) -> (b: bool) {
        true
    }
}

/// A filesystem mounted on a tarball archive, backed by a memory filesystem. Every entry of
/// the archive is read when the filesystem is built, and a filter decides which of them
/// are kept.
#[derive(Debug)]
pub struct TarFS {
    /// The files of the archive.
    pub memory_fs: MemoryFS,
}

/// Whether adding a file of the given bytes at the path may return `r` and turn `fs` into
/// `after`. The directories that are missing above the file are created, from the root
/// downward; a file in their way fails with `NotFound` and leaves the directories created
/// before it. Bytes that could not be read fail with their failure behind that. The root,
/// and a path at which a directory stands, cannot take a file: `InvalidInput` and
/// `NotFound`. Otherwise the file holds the bytes, and nothing else has changed.
pub open spec fn add_file_outcome(
    fs: MemoryFS,
    path: Seq<char>,
    contents: Result<Seq<u8>, Error>,
    r: Result<(), Error>,
    after: MemoryFS,
) -> bool {
    let names = components(path);
    let parent = names.drop_last();
    let made = |q: Seq<Seq<char>>|
        if names.len() > 0 && is_prefix(q, parent) && fs.inner.reach(q) is Nothing {
            Some(Stored::Directory)
        } else {
            fs.lookup(q)
        };
    if names.len() > 0 && fs.inner.reach(parent) is UserData {
        r == Err::<(), Error>(Error { kind: ErrorKind::NotFound }) && forall|q: Seq<Seq<char>>|
            #[trigger] after.lookup(q) == made(q)
    } else if contents is Err {
        r == Err::<(), Error>(contents->Err_0) && forall|q: Seq<Seq<char>>| #[trigger]
            after.lookup(q) == made(q)
    } else if names.len() == 0 {
        r == Err::<(), Error>(Error { kind: ErrorKind::InvalidInput }) && forall|
            q: Seq<Seq<char>>,
        | #[trigger] after.lookup(q) == made(q)
    } else if made(names) == Some(Stored::Directory) {
        r == Err::<(), Error>(Error { kind: ErrorKind::NotFound }) && forall|q: Seq<Seq<char>>|
            #[trigger] after.lookup(q) == made(q)
    } else {
        r is Ok && forall|q: Seq<Seq<char>>| #[trigger]
            after.lookup(q) == if q == names {
                Some(Stored::File(contents->Ok_0))
            } else {
                made(q)
            }
    }
}

/// Whether building from the entries `from` on, with the filter, may return `r` and turn
/// `fs` into `after`. An entry that could not be read ends the run with its failure; one
/// that is no regular file is passed over; so is one for which the filter answers no; a path
/// that could not be decoded ends the run with its failure; and every other entry is
/// added as a file, the first failure of which ends the run.
pub open spec fn builds<F: FileSystemFilter>(
    fs: MemoryFS,
    entries: Seq<Result<TarEntryView, Error>>,
    from: int,
    filter: F,
    r: Result<(), Error>,
    after: MemoryFS,
) -> bool
    decreases entries.len() - from,
{
    if from < 0 || from >= entries.len() {
        r is Ok && after == fs
    } else {
        match entries[from] {
            Err(e) => r == Err::<(), Error>(e) && after == fs,
            Ok(entry) => if !entry.regular {
                builds(fs, entries, from + 1, filter, r, after)
            } else {
                match entry.path {
                    Err(e) => r == Err::<(), Error>(e) && after == fs,
                    Ok(path) => {
                        ||| filter.includes(path, false) && builds(
                            fs,
                            entries,
                            from + 1,
                            filter,
                            r,
                            after,
                        )
                        ||| filter.includes(path, true) && exists|
                            mid: MemoryFS,
                            step: Result<(), Error>,
                        |
                            #![trigger add_file_outcome(fs, path, entry.contents, step, mid)]
                            {
                                &&& add_file_outcome(fs, path, entry.contents, step, mid)
                                &&& mid.wf()
                                &&& if step is Ok {
                                    builds(mid, entries, from + 1, filter, r, after)
                                } else {
                                    r == step && after == mid
                                }
                            }
                    },
                }
            },
        }
    }
}

/// Whether building from the entries on an empty filesystem may return `r`: the filesystem
/// that the build leaves where it succeeds, and its failure where it fails.
pub open spec fn built_memory<F: FileSystemFilter>(
    entries: Seq<Result<TarEntryView, Error>>,
    filter: F,
    r: Result<MemoryFS, Error>,
) -> bool {
    exists|start: MemoryFS, after: MemoryFS, done: Result<(), Error>|
        #![trigger builds(start, entries, 0, filter, done, after)]
        {
            &&& start.is_empty()
            &&& builds(start, entries, 0, filter, done, after)
            &&& after.wf()
            &&& match done {
                Ok(_) => r == Ok::<MemoryFS, Error>(after),
                Err(e) => r == Err::<MemoryFS, Error>(e),
            }
        }
}

/// Whether building from the entries may give the filesystem or the failure `r`.
pub open spec fn built<F: FileSystemFilter>(
    entries: Seq<Result<TarEntryView, Error>>,
    filter: F,
    r: Result<TarFS, Error>,
) -> bool {
    match r {
        Ok(fs) => built_memory(entries, filter, Ok(fs.memory_fs)),
        Err(e) => built_memory(entries, filter, Err(e)),
    }
}

impl TarFS {
    /// Creates a new tar-backed filesystem from the bytes of the archive: what `build_fs`
    /// makes of the entries that the archive hands out, all of them kept.
    pub fn new(archive: Vec<u8>) -> (r: Result<TarFS, Error>)
        ensures
            r matches Ok(fs) ==> fs.wf(),
            built(tar_entries(archive@), IncludeAll {  }, r),
    {
        TarFS::new_filtered(archive, IncludeAll {  })
    }

    /// Creates a new tar-backed filesystem with filtered contents: what `build_fs` makes of
    /// the entries that the archive hands out, where only the entries that the filter lets
    /// pass are kept.
    pub fn new_filtered<F: FileSystemFilter>(archive: Vec<u8>, filter: F) -> (r: Result<
        TarFS,
        Error,
    >)
        ensures
            r matches Ok(fs) ==> fs.wf(),
            built(tar_entries(archive@), filter, r),
    {
        let entries = read_entries(archive);
        match TarFS::build_fs(&entries, &filter) {
            Ok(fs) => Ok(TarFS { memory_fs: fs }),
            Err(e) => Err(e),
        }
    }

    /// Adds one file to the memory filesystem: creates the directories above it, then the
    /// file, and writes the bytes.
    pub fn add_file(fs: &mut MemoryFS, path: &str, contents: &Result<Vec<u8>, Error>) -> (r:
        Result<(), Error>)
        requires
            old(fs).wf(),
        ensures
            final(fs).wf(),
            add_file_outcome(*old(fs), path@, bytes_view(*contents), r, *final(fs)),
    {
        let ghost names = components(path@);
        let ghost parent = names.drop_last();
        let ghost before = *fs;
        // create the directories above the file, as far as they are missing
        match MemoryFS::with_parent_and_child_name(path) {
            Err(_) => {},
            Ok((above, _)) => {
                let above_path = crate::tree::rest_of(&above, 0);
                proof {
                    assert(crate::util::strs(above@).skip(0) =~= crate::util::strs(above@));
                    crate::util::lemma_components_are_names(path@);
                    assert forall|i: int| 0 <= i < parent.len() implies crate::util::is_name(
                        #[trigger] parent[i],
                    ) by {
                        assert(parent[i] == names[i]);
                    }
                    crate::util::lemma_names_are_segments(parent);
                    crate::util::lemma_segments_of_join(parent);
                    crate::util::lemma_names_are_resolved(parent);
                    assert(components(above_path@) == parent);
                }
                match fs.create_dir_all(above_path.as_str()) {
                    Err(e) => {
                        return Err(e);
                    },
                    Ok(_) => {},
                }
            },
        }
        let ghost mid = *fs;
        proof {
            assert forall|q: Seq<Seq<char>>| #[trigger]
                mid.lookup(q) == if names.len() > 0 && is_prefix(q, parent) && before.inner.reach(
                    q,
                ) is Nothing {
                    Some(Stored::Directory)
                } else {
                    before.lookup(q)
                } by {}
            if names.len() > 0 {
                assert(parent.take(parent.len() as int) =~= parent);
                assert(mid.lookup(parent) == Some(Stored::Directory)) by {
                    crate::tree::lemma_reach_at(before.inner.root, parent);
                }
            }
        }
        // the bytes of the file
        let bytes = match contents {
            Ok(bytes) => bytes,
            Err(e) => {
                return Err(*e);
            },
        };
        // create the file and write all of the contents
        let mut file = match fs.create_file(path) {
            Ok(file) => file,
            Err(e) => {
                return Err(e);
            },
        };
        let ghost fresh = file;
        let count: usize = bytes.len();
        match file.write(bytes.as_slice()) {
            Ok(_) => {},
            Err(e) => {
                return Err(e);
            },
        }
        proof {
            assert(fresh.contents@.len() == 0);
            assert(fresh.pos == 0);
            assert(fresh.mode.write);
            assert(bytes@.len() == count);
            assert(bytes@.take(bytes@.len() as int) =~= bytes@);
            assert(file.contents@ =~= bytes@);
        }
        match fs.persist(path, &file) {
            Ok(_) => Ok(()),
            Err(e) => Err(e),
        }
    }

    /// Builds the memory filesystem from the entries of the archive: what adding the entries
    /// to an empty filesystem, one after the other, leaves behind.
    pub fn build_fs<F: FileSystemFilter>(entries: &Vec<Result<TarEntry, Error>>, filter: &F) -> (r:
        Result<MemoryFS, Error>)
        ensures
            r matches Ok(fs) ==> fs.wf(),
            built_memory(tar_view(entries@), *filter, r),
    {
        let mut memory_fs = MemoryFS::new();
        let ghost start = memory_fs;
        let done = TarFS::build_from(&mut memory_fs, entries, filter, 0);
        proof {
            assert(builds(start, tar_view(entries@), 0, *filter, done, memory_fs));
        }
        match done {
            Ok(_) => Ok(memory_fs),
            Err(e) => Err(e),
        }
    }

    /// Adds the entries from `from` on to the memory filesystem.
    fn build_from<F: FileSystemFilter>(
        fs: &mut MemoryFS,
        entries: &Vec<Result<TarEntry, Error>>,
        filter: &F,
        from: usize,
    ) -> (r: Result<(), Error>)
        requires
            old(fs).wf(),
            from <= entries@.len(),
        ensures
            final(fs).wf(),
            builds(*old(fs), tar_view(entries@), from as int, *filter, r, *final(fs)),
        decreases entries@.len() - from,
    {
        if from == entries.len() {
            return Ok(());
        }
        let entry = match &entries[from] {
            Ok(entry) => entry,
            Err(e) => {
                return Err(*e);
            },
        };
        // ignore anything that isn't a regular file
        if !entry.regular {
            return TarFS::build_from(fs, entries, filter, from + 1);
        }
        let entry_path = match &entry.path {
            Ok(path) => path,
            Err(e) => {
                return Err(*e);
            },
        };
        // ignore filtered files
        if !filter.should_include(entry_path.as_str()) {
            return TarFS::build_from(fs, entries, filter, from + 1);
        }
        let ghost before = *fs;
        let step = TarFS::add_file(fs, entry_path.as_str(), &entry.contents);
        let ghost mid = *fs;
        match step {
            Err(e) => {
                proof {
                    assert(add_file_outcome(before, entry_path@, entry@.contents, step, mid));
                }
                Err(e)
            },
            Ok(_) => {
                let r = TarFS::build_from(fs, entries, filter, from + 1);
                proof {
                    assert(add_file_outcome(before, entry_path@, entry@.contents, step, mid));
                }
                r
            },
        }
    }
}

impl FileSystem for TarFS {
    type File = FileHandle;

    open spec fn wf(&self) -> bool {
        self.memory_fs.wf()
    }

    /// What the memory filesystem answers.
    open spec fn metadata_outcome(&self, path: Seq<char>, r: Result<Metadata, Error>) -> bool {
        r == self.memory_fs.metadata_at(path)
    }

    /// What the memory filesystem answers.
    open spec fn read_dir_outcome(
        &self,
        path: Seq<char>,
        r: Result<Seq<(Seq<char>, Metadata)>, Error>,
    ) -> bool {
        r == self.memory_fs.read_dir_at(path)
    }

    /// Always `Unsupported`; nothing changes.
    open spec fn create_dir_outcome(
        &self,
        path: Seq<char>,
        r: Result<(), Error>,
        after: &Self,
    ) -> bool {
        r == Err::<(), Error>(Error { kind: ErrorKind::Unsupported }) && *after == *self
    }

    /// Always `Unsupported`; nothing changes.
    open spec fn remove_dir_outcome(
        &self,
        path: Seq<char>,
        r: Result<(), Error>,
        after: &Self,
    ) -> bool {
        r == Err::<(), Error>(Error { kind: ErrorKind::Unsupported }) && *after == *self
    }

    /// Always `Unsupported`; nothing changes.
    open spec fn remove_file_outcome(
        &self,
        path: Seq<char>,
        r: Result<(), Error>,
        after: &Self,
    ) -> bool {
        r == Err::<(), Error>(Error { kind: ErrorKind::Unsupported }) && *after == *self
    }

    /// Always `Unsupported`; nothing changes.
    open spec fn create_dir_all_outcome(
        &self,
        path: Seq<char>,
        r: Result<(), Error>,
        after: &Self,
    ) -> bool {
        r == Err::<(), Error>(Error { kind: ErrorKind::Unsupported }) && *after == *self
    }

    /// Options that ask for writing, appending, truncating or creating fail with
    /// `Unsupported` and change nothing. Any other options open the file as the memory
    /// filesystem does, and what is stored stays as it is.
    open spec fn open_outcome(
        &self,
        path: Seq<char>,
        options: OpenOptions,
        r: Result<FileHandle, Error>,
        after: &Self,
    ) -> bool {
        if options.write || options.append || options.truncate || options.create {
            r matches Err(e) && e.kind == ErrorKind::Unsupported && *after == *self
        } else {
            self.memory_fs.open_outcome(path, options, r, &after.memory_fs)
        }
    }

    fn create_dir(&mut self, _path: &str) -> (r: Result<(), Error>) {
        Err(not_supported())
    }

    fn metadata(&self, path: &str) -> (r: Result<Metadata, Error>) {
        self.memory_fs.metadata(path)
    }

    fn open_file_options(&mut self, path: &str, options: &OpenOptions) -> (r: Result<
        FileHandle,
        Error,
    >) {
        if options.write || options.append || options.truncate || options.create {
            return Err(not_supported());
        }
        self.memory_fs.open_file_options(path, options)
    }

    fn read_dir(&self, path: &str) -> (r: Result<Vec<DirEntry>, Error>) {
        self.memory_fs.read_dir(path)
    }

    fn remove_dir(&mut self, _path: &str) -> (r: Result<(), Error>) {
        Err(not_supported())
    }

    fn remove_file(&mut self, _path: &str) -> (r: Result<(), Error>) {
        Err(not_supported())
    }

    fn create_dir_all(&mut self, _path: &str) -> (r: Result<(), Error>) {
        Err(not_supported())
    }
}

/// Every operation treats a path as it treats the relative normal form of the path:
/// leading separators, `.` and `..` change no outcome.
pub proof fn lemma_normal_form_is_enough(
    fs: TarFS,
    path: Seq<char>,
    metadata: Result<Metadata, Error>,
    listing: Result<Seq<(Seq<char>, Metadata)>, Error>,
    options: OpenOptions,
    opened: Result<FileHandle, Error>,
    after: TarFS,
)
    ensures
        ({
            let normal = crate::util::normalized(crate::util::relative(path));
            &&& fs.metadata_outcome(path, metadata) == fs.metadata_outcome(normal, metadata)
            &&& fs.read_dir_outcome(path, listing) == fs.read_dir_outcome(normal, listing)
            &&& fs.open_outcome(path, options, opened, &after) == fs.open_outcome(
                normal,
                options,
                opened,
                &after,
            )
        }),
{
    crate::util::lemma_relative_normal_form(path);
}

/// Every operation that would write fails with `Unsupported` and changes nothing.
pub proof fn lemma_read_only(
    fs: TarFS,
    path: Seq<char>,
    options: OpenOptions,
    opened: Result<FileHandle, Error>,
    done: Result<(), Error>,
    after: TarFS,
)
    ensures
        fs.create_dir_outcome(path, done, &after) || fs.create_dir_all_outcome(path, done, &after)
            || fs.remove_dir_outcome(path, done, &after) || fs.remove_file_outcome(
            path,
            done,
            &after,
        ) ==> done == Err::<(), Error>(Error { kind: ErrorKind::Unsupported }) && after == fs,
        options.write && fs.open_outcome(path, options, opened, &after) ==> opened is Err
            && opened->Err_0.kind == ErrorKind::Unsupported && after == fs,
{
}

/// After a file was added, it exists with its bytes, and so does every directory above
/// it.
pub proof fn lemma_added_file_exists(
    fs: MemoryFS,
    path: Seq<char>,
    contents: Result<Seq<u8>, Error>,
    after: MemoryFS,
    above: Seq<Seq<char>>,
)
    requires
        fs.wf(),
        add_file_outcome(fs, path, contents, Ok(()), after),
    ensures
        contents is Ok,
        after.lookup(components(path)) == Some(Stored::File(contents->Ok_0)),
        is_prefix(above, components(path)) && above.len() < components(path).len()
            ==> after.lookup(above) == Some(Stored::Directory),
{
    let names = components(path);
    let parent = names.drop_last();
    if is_prefix(above, names) && above.len() < names.len() {
        assert(parent.take(above.len() as int) =~= names.take(above.len() as int));
        crate::tree::lemma_reach_at(fs.inner.root, above);
        if fs.inner.reach(above) is UserData {
            crate::tree::lemma_reach_leaf_extends(fs.inner.root, above, parent);
        }
    }
}

} // verus!
