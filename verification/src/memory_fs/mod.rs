//! A memory-backed filesystem: a tree of directories whose leaves are byte buffers.
//!
//! A handle holds the bytes of its file as they were when the file was opened. What is
//! written through a handle reaches the filesystem when the handle is stored with
//! `persist`.

use crate::error::{Error, ErrorKind};
use crate::file::{entries_view, DirEntry, File, Metadata, OpenOptions};
use crate::memory_fs::entry::{entry_metadata, metadata_of};
use crate::memory_fs::file::{FileHandle, FileMode, FileModes};
use crate::tree::{
    directory_mut, find, has_name, index_of, is_prefix, lemma_child_changed, lemma_reach_at, Entry,
    FilesystemTree, Node, Reached,
};
use crate::util::{
    already_exists, components, invalid_path, lemma_relative_normal_form, normalized, not_found,
    not_supported, path_components, relative, strs,
};
use crate::{exists_outcome, options_of_create_file, options_of_open_file, FileSystem};
use vstd::prelude::*;

pub mod entry;
pub mod file;

verus! {

/// What the filesystem stores at a path.
pub enum Stored {
    /// A directory.
    Directory,
    /// A file and its bytes.
    File(Seq<u8>),
}

/// A memory-backed filesystem. All files are stored within.
#[derive(Debug)]
pub struct MemoryFS {
    /// The tree of directories and files.
    pub inner: FilesystemTree<Vec<u8>>,
}

/// The listing of a directory: each child's name with its metadata, in the order in which
/// the directory holds them.
pub open spec fn listing(items: Seq<(String, Entry<Vec<u8>>)>) -> Seq<(Seq<char>, Metadata)> {
    Seq::new(items.len(), |i: int| (items[i].0@, metadata_of(items[i].1)))
}

/// The metadata that stands for what is stored: a directory, or a file of its length.
pub open spec fn metadata_for(stored: Stored) -> Metadata {
    match stored {
        Stored::Directory => Metadata::directory(),
        Stored::File(bytes) => Metadata::file(bytes.len() as u64),
    }
}

impl MemoryFS {
    /// The tree is well-formed: the root is a directory and no directory holds a name
    /// twice.
    pub open spec fn wf(&self) -> bool {
        self.inner.wf()
    }

    /// What is stored at the names, if anything. The empty sequence of names is the root.
    pub open spec fn lookup(&self, names: Seq<Seq<char>>) -> Option<Stored> {
        match self.inner.get(names) {
            Some(Node::Directory) => Some(Stored::Directory),
            Some(Node::UserData(bytes)) => Some(Stored::File(bytes@)),
            None => None,
        }
    }

    /// The metadata of what is stored at the path; `NotFound` where nothing is.
    pub open spec fn metadata_at(&self, path: Seq<char>) -> Result<Metadata, Error> {
        match self.lookup(components(path)) {
            Some(stored) => Ok(metadata_for(stored)),
            None => Err(Error { kind: ErrorKind::NotFound }),
        }
    }

    /// The children of the directory at the path, in the order in which it holds them;
    /// `NotFound` where the path leads to no directory.
    pub open spec fn read_dir_at(&self, path: Seq<char>) -> Result<
        Seq<(Seq<char>, Metadata)>,
        Error,
    > {
        match self.inner.reach(components(path)) {
            Reached::Directory(items) => Ok(listing(items@)),
            _ => Err(Error { kind: ErrorKind::NotFound }),
        }
    }

    /// Whether the names lead to a directory.
    pub open spec fn is_directory(&self, names: Seq<Seq<char>>) -> bool {
        self.lookup(names) == Some(Stored::Directory)
    }

    /// What `open_file_options` hands out and stores for a file that is opened with the
    /// given options and held `bytes` before.
    pub open spec fn opened_bytes(bytes: Seq<u8>, options: OpenOptions) -> Seq<u8> {
        if options.truncate {
            Seq::empty()
        } else {
            bytes
        }
    }

    /// Whether the filesystem holds the root directory and nothing in it.
    pub open spec fn is_empty(&self) -> bool {
        self.inner.root matches Entry::Directory(items) && items@.len() == 0
    }

    /// An empty filesystem: the root directory and nothing in it.
    pub fn new() -> (fs: MemoryFS)
        ensures
            fs.wf(),
            fs.is_empty(),
            forall|q: Seq<Seq<char>>| #[trigger]
                fs.lookup(q) == if q.len() == 0 {
                    Some(Stored::Directory)
                } else {
                    None
                },
    {
        MemoryFS { inner: FilesystemTree::new() }
    }

    /// Splits a path into the path of its parent directory and its last name. The root has
    /// neither and fails with `InvalidInput`.
    pub fn with_parent_and_child_name(path: &str) -> (r: Result<(Vec<String>, String), Error>)
        ensures
            components(path@).len() == 0 ==> r == Err::<(Vec<String>, String), Error>(
                Error { kind: ErrorKind::InvalidInput },
            ),
            components(path@).len() > 0 ==> r is Ok && strs(r->Ok_0.0@) == components(
                path@,
            ).drop_last() && r->Ok_0.1@ == components(path@).last(),
    {
        let mut names = path_components(path);
        let ghost all = strs(names@);
        match names.pop() {
            None => Err(invalid_path()),
            Some(name) => {
                proof {
                    assert(strs(names@) =~= all.drop_last());
                }
                Ok((names, name))
            },
        }
    }

    /// Finds the directory at the given names.
    fn directory_at(&self, names: &Vec<String>) -> (r: Result<
        &Vec<(String, Entry<Vec<u8>>)>,
        Error,
    >)
        requires
            self.wf(),
        ensures
            match self.inner.reach(strs(names@)) {
                Reached::Directory(items) => r == Ok::<&Vec<(String, Entry<Vec<u8>>)>, Error>(
                    &items,
                ),
                _ => r == Err::<&Vec<(String, Entry<Vec<u8>>)>, Error>(
                    Error { kind: ErrorKind::NotFound },
                ),
            },
            r is Ok <==> self.is_directory(strs(names@)),
    {
        proof {
            lemma_reach_at(self.inner.root, strs(names@));
        }
        self.inner.directory_at(names)
    }

    /// Removes the entry at `path` if it is of the wanted type: a directory where
    /// `directory` holds, a file where it does not.
    fn remove_entry(&mut self, path: &str, directory: bool) -> (r: Result<(), Error>)
        requires
            old(self).wf(),
        ensures
            final(self).wf(),
            directory ==> old(self).remove_dir_outcome(path@, r, final(self)),
            !directory ==> old(self).remove_file_outcome(path@, r, final(self)),
    {
        let (parent, name) = match MemoryFS::with_parent_and_child_name(path) {
            Ok(split) => split,
            Err(e) => {
                return Err(e);
            },
        };
        let ghost names = components(path@);
        let ghost before = self.inner.root;
        proof {
            assert(strs(parent@).push(name@) =~= names);
            self.lemma_child(strs(parent@), name@);
            assert(strs(parent@).skip(0) =~= strs(parent@));
        }
        let k: usize = match self.directory_at(&parent) {
            Err(e) => {
                return Err(e);
            },
            Ok(items) => {
                match find(items, &name) {
                    Some(k) => {
                        let is_directory = match &items[k].1 {
                            Entry::Directory(_) => true,
                            Entry::UserData(_) => false,
                        };
                        if is_directory != directory {
                            return Err(not_found());
                        }
                        k
                    },
                    None => {
                        return Err(not_found());
                    },
                }
            },
        };
        let dir = directory_mut(&mut self.inner.root, &parent, 0);
        let ghost items = *dir;
        dir.remove(k);
        let ghost after = *dir;
        proof {
            lemma_child_changed(
                before,
                self.inner.root,
                strs(parent@),
                items,
                after,
                names.last(),
                None,
            );
        }
        Ok(())
    }


    /// Whether `persist` may return `r` and leave `after`: a handle without the write mode
    /// fails with `Unsupported`, the root with `InvalidInput`, a path that leads to no file
    /// with `NotFound`; otherwise the file holds the bytes of the handle and nothing else
    /// changes.
    pub open spec fn persist_outcome(
        &self,
        path: Seq<char>,
        handle: FileHandle,
        r: Result<(), Error>,
        after: &Self,
    ) -> bool {
        let names = components(path);
        if !handle.mode.write {
            r == Err::<(), Error>(Error { kind: ErrorKind::Unsupported }) && *after == *self
        } else if names.len() == 0 {
            r == Err::<(), Error>(Error { kind: ErrorKind::InvalidInput }) && *after == *self
        } else if self.lookup(names) is Some && self.lookup(names)->0 is File {
            r is Ok && forall|q: Seq<Seq<char>>| #[trigger]
                after.lookup(q) == if q == names {
                    Some(Stored::File(handle.contents@))
                } else {
                    self.lookup(q)
                }
        } else {
            r == Err::<(), Error>(Error { kind: ErrorKind::NotFound }) && *after == *self
        }
    }

    /// Stores the bytes of a handle as the contents of the file at `path`, so that what was
    /// written through the handle is what the filesystem holds.
    pub fn persist(&mut self, path: &str, handle: &FileHandle) -> (r: Result<(), Error>)
        requires
            old(self).wf(),
        ensures
            final(self).wf(),
            old(self).persist_outcome(path@, *handle, r, final(self)),
    {
        if !handle.mode.contains(FileMode::Write) {
            return Err(not_supported());
        }
        let (parent, name) = match MemoryFS::with_parent_and_child_name(path) {
            Ok(split) => split,
            Err(e) => {
                return Err(e);
            },
        };
        let ghost names = components(path@);
        let ghost before = self.inner.root;
        proof {
            assert(strs(parent@).push(name@) =~= names);
            self.lemma_child(strs(parent@), name@);
            assert(strs(parent@).skip(0) =~= strs(parent@));
        }
        let k: usize = match self.directory_at(&parent) {
            Err(e) => {
                return Err(e);
            },
            Ok(items) => {
                match find(items, &name) {
                    Some(k) => {
                        match &items[k].1 {
                            Entry::Directory(_) => {
                                return Err(not_found());
                            },
                            Entry::UserData(_) => k,
                        }
                    },
                    None => {
                        return Err(not_found());
                    },
                }
            },
        };
        let stored = copy_bytes(&handle.contents);
        let dir = directory_mut(&mut self.inner.root, &parent, 0);
        let ghost items = *dir;
        let item = &mut dir[k];
        item.1 = Entry::UserData(stored);
        let ghost after = *dir;
        proof {
            let change = Entry::<Vec<u8>>::UserData(stored);
            assert(after@ =~= items@.update(k as int, (items@[k as int].0, change)));
            lemma_child_changed(
                before,
                self.inner.root,
                strs(parent@),
                items,
                after,
                names.last(),
                Some(change),
            );
            assert forall|q: Seq<Seq<char>>| #[trigger]
                self.lookup(q) == if q == names {
                    Some(Stored::File(handle.contents@))
                } else {
                    old(self).lookup(q)
                } by {
                if is_prefix(names, q) {
                    let rest = q.skip(names.len() as int);
                    if rest.len() == 0 {
                        assert(q.take(q.len() as int) =~= q);
                    } else {
                        crate::tree::lemma_at_concat(before, names, rest);
                        assert(names + rest =~= q);
                    }
                } else {
                    if q == names {
                        assert(q.take(q.len() as int) =~= q);
                    }
                }
            }
        }
        Ok(())
    }

    /// What stands under a name in a directory is what the directory holds under it.
    pub proof fn lemma_child(&self, parent: Seq<Seq<char>>, name: Seq<char>)
        requires
            self.wf(),
        ensures
            self.inner.reach(parent) matches Reached::Directory(items) ==> {
                &&& crate::tree::distinct_names(items@)
                &&& self.is_directory(parent)
                &&& (has_name(items@, name) ==> self.inner.root.at(parent.push(name)) == Some(
                    items@[index_of(items@, name)].1,
                ))
                &&& (!has_name(items@, name) ==> self.inner.root.at(parent.push(name)) is None)
            },
            !(self.inner.reach(parent) is Directory) ==> !self.is_directory(parent)
                && self.lookup(parent.push(name)) is None,
    {
        lemma_reach_at(self.inner.root, parent);
        crate::tree::lemma_at_wf(self.inner.root, parent);
        crate::tree::lemma_at_concat(self.inner.root, parent, seq![name]);
        assert(parent + seq![name] =~= parent.push(name));
        assert(seq![name].drop_first() =~= Seq::<Seq<char>>::empty());
        match self.inner.reach(parent) {
            Reached::Directory(items) => {
                if has_name(items@, name) {
                    let child = items@[index_of(items@, name)].1;
                    assert(child.at(seq![name].drop_first()) == Some(child));
                }
            },
            Reached::UserData(t, rest) => {
                if rest.len() == 0 {
                    assert(parent.take(parent.len() as int) =~= parent);
                }
            },
            Reached::Nothing => {},
        }
    }
}

impl Default for MemoryFS {
    /// An empty filesystem: the root directory and nothing in it.
    fn default() -> (fs: MemoryFS)
        ensures
            fs.wf(),
            fs.is_empty(),
    {
        MemoryFS::new()
    }
}

impl FileSystem for MemoryFS {
    type File = FileHandle;

    open spec fn wf(&self) -> bool {
        self.inner.wf()
    }

    /// `metadata` returns what `metadata_at` says.
    open spec fn metadata_outcome(&self, path: Seq<char>, r: Result<Metadata, Error>) -> bool {
        r == self.metadata_at(path)
    }

    /// `read_dir` returns what `read_dir_at` says.
    open spec fn read_dir_outcome(
        &self,
        path: Seq<char>,
        r: Result<Seq<(Seq<char>, Metadata)>, Error>,
    ) -> bool {
        r == self.read_dir_at(path)
    }

    /// The root has no name to create: `InvalidInput`. A parent that is no directory:
    /// `NotFound`. A name that is taken: `AlreadyExists`. Otherwise the directory is
    /// created and nothing else changes.
    open spec fn create_dir_outcome(
        &self,
        path: Seq<char>,
        r: Result<(), Error>,
        after: &Self,
    ) -> bool {
        let names = components(path);
        if names.len() == 0 {
            r == Err::<(), Error>(Error { kind: ErrorKind::InvalidInput }) && *after == *self
        } else if !self.is_directory(names.drop_last()) {
            r == Err::<(), Error>(Error { kind: ErrorKind::NotFound }) && *after == *self
        } else if self.lookup(names) is Some {
            r == Err::<(), Error>(Error { kind: ErrorKind::AlreadyExists }) && *after == *self
        } else {
            r is Ok && forall|q: Seq<Seq<char>>| #[trigger]
                after.lookup(q) == if q == names {
                    Some(Stored::Directory)
                } else {
                    self.lookup(q)
                }
        }
    }

    /// A directory at the path is removed with all that stands below it, and nothing else
    /// changes. The root fails with `InvalidInput`, anything else with `NotFound`.
    open spec fn remove_dir_outcome(
        &self,
        path: Seq<char>,
        r: Result<(), Error>,
        after: &Self,
    ) -> bool {
        let names = components(path);
        if names.len() == 0 {
            r == Err::<(), Error>(Error { kind: ErrorKind::InvalidInput }) && *after == *self
        } else if self.lookup(names) == Some(Stored::Directory) {
            r is Ok && forall|q: Seq<Seq<char>>| #[trigger]
                after.lookup(q) == if is_prefix(names, q) {
                    None
                } else {
                    self.lookup(q)
                }
        } else {
            r == Err::<(), Error>(Error { kind: ErrorKind::NotFound }) && *after == *self
        }
    }

    /// A file at the path is removed, and nothing else changes. The root fails with
    /// `InvalidInput`, anything else with `NotFound`.
    open spec fn remove_file_outcome(
        &self,
        path: Seq<char>,
        r: Result<(), Error>,
        after: &Self,
    ) -> bool {
        let names = components(path);
        if names.len() == 0 {
            r == Err::<(), Error>(Error { kind: ErrorKind::InvalidInput }) && *after == *self
        } else if self.lookup(names) is Some && self.lookup(names)->0 is File {
            r is Ok && forall|q: Seq<Seq<char>>| #[trigger]
                after.lookup(q) == if is_prefix(names, q) {
                    None
                } else {
                    self.lookup(q)
                }
        } else {
            r == Err::<(), Error>(Error { kind: ErrorKind::NotFound }) && *after == *self
        }
    }

    /// Every directory that is missing along the path is created, as far as no file stands
    /// in the way; a file on the way fails with `NotFound`, and the directories created
    /// before it stay. Nothing else changes.
    open spec fn create_dir_all_outcome(
        &self,
        path: Seq<char>,
        r: Result<(), Error>,
        after: &Self,
    ) -> bool {
        let names = components(path);
        &&& r is Ok <==> !(self.inner.reach(names) is UserData)
        &&& r matches Err(e) ==> e.kind == ErrorKind::NotFound
        &&& forall|q: Seq<Seq<char>>| #[trigger]
            after.lookup(q) == if is_prefix(q, names) && self.inner.reach(q) is Nothing {
                Some(Stored::Directory)
            } else {
                self.lookup(q)
            }
    }

    /// The root cannot be opened: `InvalidInput`. A parent that is no directory, a
    /// directory at the path, and an absent file that the options do not create:
    /// `NotFound`. Otherwise the handle holds the bytes of the file, none where the file is
    /// new or truncated, with the cursor at the start and the modes of the options; the
    /// filesystem stores those bytes at the path, and nothing else changes.
    open spec fn open_outcome(
        &self,
        path: Seq<char>,
        options: OpenOptions,
        r: Result<FileHandle, Error>,
        after: &Self,
    ) -> bool {
        let names = components(path);
        if names.len() == 0 {
            r matches Err(e) && e.kind == ErrorKind::InvalidInput && *after == *self
        } else if !self.is_directory(names.drop_last()) {
            r matches Err(e) && e.kind == ErrorKind::NotFound && *after == *self
        } else {
            match self.lookup(names) {
                Some(Stored::Directory) => r matches Err(e) && e.kind == ErrorKind::NotFound
                    && *after == *self,
                Some(Stored::File(bytes)) => {
                    &&& r matches Ok(handle)
                    &&& handle.contents@ == MemoryFS::opened_bytes(bytes, options)
                    &&& handle.pos == 0
                    &&& handle.mode == FileModes { read: options.read, write: options.write }
                    &&& forall|q: Seq<Seq<char>>| #[trigger]
                        after.lookup(q) == if q == names {
                            Some(Stored::File(MemoryFS::opened_bytes(bytes, options)))
                        } else {
                            self.lookup(q)
                        }
                },
                None => if options.create {
                    &&& r matches Ok(handle)
                    &&& handle.contents@ == Seq::<u8>::empty()
                    &&& handle.pos == 0
                    &&& handle.mode == FileModes { read: options.read, write: options.write }
                    &&& forall|q: Seq<Seq<char>>| #[trigger]
                        after.lookup(q) == if q == names {
                            Some(Stored::File(Seq::empty()))
                        } else {
                            self.lookup(q)
                        }
                } else {
                    r matches Err(e) && e.kind == ErrorKind::NotFound && *after == *self
                },
            }
        }
    }

    /// Creates a directory at `path`. The root has no name to create and fails with
    /// `InvalidInput`; a parent that is no directory fails with `NotFound`; a name that is
    /// taken fails with `AlreadyExists`. Nothing but the new directory changes.
    fn create_dir(&mut self, path: &str) -> (r: Result<(), Error>) {
        let (parent, name) = match MemoryFS::with_parent_and_child_name(path) {
            Ok(split) => split,
            Err(e) => {
                return Err(e);
            },
        };
        let ghost names = components(path@);
        let ghost before = self.inner.root;
        proof {
            assert(strs(parent@).push(name@) =~= names);
        }
        match self.directory_at(&parent) {
            Err(e) => {
                return Err(e);
            },
            Ok(items) => {
                if find(items, &name).is_some() {
                    proof {
                        old(self).lemma_child(strs(parent@), name@);
                    }
                    return Err(already_exists());
                }
                proof {
                    old(self).lemma_child(strs(parent@), name@);
                }
            },
        }
        proof {
            assert(strs(parent@).skip(0) =~= strs(parent@));
        }
        let dir = directory_mut(&mut self.inner.root, &parent, 0);
        let ghost items = *dir;
        let fresh: Entry<Vec<u8>> = Entry::Directory(Vec::new());
        dir.push((name, fresh));
        let ghost after = *dir;
        proof {
            assert(after@.drop_last() =~= items@);
            lemma_child_changed(
                before,
                self.inner.root,
                strs(parent@),
                items,
                after,
                names.last(),
                Some(fresh),
            );
            assert forall|q: Seq<Seq<char>>| #[trigger]
                self.lookup(q) == if q == names {
                    Some(Stored::Directory)
                } else {
                    old(self).lookup(q)
                } by {
                if is_prefix(names, q) {
                    let rest = q.skip(names.len() as int);
                    if rest.len() == 0 {
                        assert(q.take(q.len() as int) =~= q);
                    } else {
                        crate::tree::lemma_at_concat(before, names, rest);
                        assert(names + rest =~= q);
                    }
                } else {
                    if q == names {
                        assert(q.take(q.len() as int) =~= q);
                    }
                }
            }
        }
        Ok(())
    }

    fn metadata(&self, path: &str) -> (r: Result<Metadata, Error>) {
        let (parent, name) = match MemoryFS::with_parent_and_child_name(path) {
            Ok(split) => split,
            Err(_) => {
                // the root is a directory
                return Ok(Metadata::directory());
            },
        };
        let ghost names = components(path@);
        proof {
            assert(strs(parent@).push(name@) =~= names);
            self.lemma_child(strs(parent@), name@);
        }
        let items = match self.directory_at(&parent) {
            Ok(items) => items,
            Err(e) => {
                return Err(e);
            },
        };
        match find(items, &name) {
            Some(k) => Ok(entry_metadata(&items[k].1)),
            None => Err(not_found()),
        }
    }

    fn open_file_options(&mut self, path: &str, options: &OpenOptions) -> (r: Result<
        FileHandle,
        Error,
    >) {
        let (parent, name) = match MemoryFS::with_parent_and_child_name(path) {
            Ok(split) => split,
            Err(e) => {
                return Err(e);
            },
        };
        let ghost names = components(path@);
        let ghost before = self.inner.root;
        proof {
            assert(strs(parent@).push(name@) =~= names);
            self.lemma_child(strs(parent@), name@);
            assert(strs(parent@).skip(0) =~= strs(parent@));
        }
        let found: Option<usize> = match self.directory_at(&parent) {
            Err(e) => {
                return Err(e);
            },
            Ok(items) => {
                match find(items, &name) {
                    Some(k) => {
                        match &items[k].1 {
                            Entry::Directory(_) => {
                                return Err(not_found());
                            },
                            Entry::UserData(_) => Some(k),
                        }
                    },
                    None => {
                        if !options.create {
                            return Err(not_found());
                        }
                        None
                    },
                }
            },
        };
        let mode = FileMode::from_options(options);
        let dir = directory_mut(&mut self.inner.root, &parent, 0);
        let ghost items = *dir;
        let mut contents: Vec<u8> = Vec::new();
        match found {
            Some(k) => {
                if !options.truncate {
                    match &dir[k].1 {
                        Entry::UserData(bytes) => {
                            contents = copy_bytes(bytes);
                        },
                        Entry::Directory(_) => {},
                    }
                }
                let stored = copy_bytes(&contents);
                let item = &mut dir[k];
                item.1 = Entry::UserData(stored);
            },
            None => {
                let stored: Vec<u8> = Vec::new();
                dir.push((name, Entry::UserData(stored)));
            },
        }
        let ghost after = *dir;
        proof {
            let change = Entry::<Vec<u8>>::UserData(
                if found is Some {
                    after@[found->0 as int].1->UserData_0
                } else {
                    after@.last().1->UserData_0
                },
            );
            if found is None {
                assert(after@.drop_last() =~= items@);
            } else {
                assert(after@ =~= items@.update(
                    found->0 as int,
                    (items@[found->0 as int].0, change),
                ));
            }
            lemma_child_changed(
                before,
                self.inner.root,
                strs(parent@),
                items,
                after,
                names.last(),
                Some(change),
            );
            assert forall|q: Seq<Seq<char>>| #[trigger]
                self.lookup(q) == if q == names {
                    Some(Stored::File(contents@))
                } else {
                    old(self).lookup(q)
                } by {
                if is_prefix(names, q) {
                    let rest = q.skip(names.len() as int);
                    if rest.len() == 0 {
                        assert(q.take(q.len() as int) =~= q);
                    } else {
                        crate::tree::lemma_at_concat(before, names, rest);
                        assert(names + rest =~= q);
                    }
                } else {
                    if q == names {
                        assert(q.take(q.len() as int) =~= q);
                    }
                }
            }
        }
        Ok(FileHandle::new(contents, mode))
    }

    fn read_dir(&self, path: &str) -> (r: Result<Vec<DirEntry>, Error>) {
        let items = match self.inner.with_directory(path) {
            Ok(items) => items,
            Err(e) => {
                return Err(e);
            },
        };
        let mut out: Vec<DirEntry> = Vec::new();
        let mut i: usize = 0;
        while i < items.len()
            invariant
                i <= items.len(),
                entries_view(out@) == listing(items@).take(i as int),
            decreases items.len() - i,
        {
            let ghost held = out@;
            let entry = DirEntry {
                path: items[i].0.clone(),
                metadata: entry_metadata(&items[i].1),
            };
            out.push(entry);
            proof {
                assert(entries_view(out@) =~= entries_view(held).push(entry@));
                assert(listing(items@).take(i as int).push(entry@) =~= listing(items@).take(i + 1));
            }
            i += 1;
        }
        proof {
            assert(listing(items@).take(items@.len() as int) =~= listing(items@));
        }
        Ok(out)
    }

    fn remove_dir(&mut self, path: &str) -> (r: Result<(), Error>) {
        self.remove_entry(path, true)
    }

    fn create_dir_all(&mut self, path: &str) -> (r: Result<(), Error>) {
        let r = self.inner.create_dir_all(path);
        proof {
            let names = components(path@);
            assert forall|q: Seq<Seq<char>>| #[trigger]
                self.lookup(q) == if is_prefix(q, names) && old(self).inner.reach(q) is Nothing {
                    Some(Stored::Directory)
                } else {
                    old(self).lookup(q)
                } by {
                assert(self.inner.get(q) == old(self).inner.root.get_after_create_dir_all(
                    names,
                    q,
                ));
            }
        }
        r
    }

    fn remove_file(&mut self, path: &str) -> (r: Result<(), Error>) {
        self.remove_entry(path, false)
    }
}

/// A copy of the bytes.
pub fn copy_bytes(bytes: &Vec<u8>) -> (r: Vec<u8>)
    ensures
        r@ == bytes@,
{
    let mut out: Vec<u8> = Vec::new();
    let mut i: usize = 0;
    while i < bytes.len()
        invariant
            i <= bytes.len(),
            out@ == bytes@.take(i as int),
        decreases bytes.len() - i,
    {
        out.push(bytes[i]);
        proof {
            assert(bytes@.take(i as int).push(bytes@[i as int]) =~= bytes@.take(i + 1));
        }
        i += 1;
    }
    proof {
        assert(bytes@.take(bytes@.len() as int) =~= bytes@);
    }
    out
}

// ---------------------------------------------------------------------------------------
// Laws of the memory filesystem
// ---------------------------------------------------------------------------------------

/// Every operation treats a path as it treats the relative normal form of the path:
/// leading separators, `.` and `..` change no outcome.
pub proof fn lemma_normal_form_is_enough(
    fs: MemoryFS,
    path: Seq<char>,
    after: MemoryFS,
    done: Result<(), Error>,
    options: OpenOptions,
    opened: Result<FileHandle, Error>,
    handle: FileHandle,
)
    ensures
        ({
            let normal = normalized(relative(path));
            &&& fs.metadata_at(path) == fs.metadata_at(normal)
            &&& fs.read_dir_at(path) == fs.read_dir_at(normal)
            &&& fs.create_dir_outcome(path, done, &after) == fs.create_dir_outcome(
                normal,
                done,
                &after,
            )
            &&& fs.create_dir_all_outcome(path, done, &after) == fs.create_dir_all_outcome(
                normal,
                done,
                &after,
            )
            &&& fs.remove_dir_outcome(path, done, &after) == fs.remove_dir_outcome(
                normal,
                done,
                &after,
            )
            &&& fs.remove_file_outcome(path, done, &after) == fs.remove_file_outcome(
                normal,
                done,
                &after,
            )
            &&& fs.open_outcome(path, options, opened, &after) == fs.open_outcome(
                normal,
                options,
                opened,
                &after,
            )
            &&& fs.persist_outcome(path, handle, done, &after) == fs.persist_outcome(
                normal,
                handle,
                done,
                &after,
            )
        }),
{
    lemma_relative_normal_form(path);
}

/// What is written to a new file and stored is what a later reader reads: after a file
/// was created at a path, bytes were written through its handle and the handle was
/// stored, opening the path for reading succeeds, and reading the handle to its end gives
/// the bytes.
pub proof fn lemma_written_is_read(
    fs: MemoryFS,
    path: Seq<char>,
    bytes: Seq<u8>,
    created: FileHandle,
    with_file: MemoryFS,
    count: usize,
    written: FileHandle,
    stored: MemoryFS,
    opened: Result<FileHandle, Error>,
    last: MemoryFS,
    read: Result<Seq<u8>, Error>,
    spent: FileHandle,
)
    requires
        fs.wf(),
        bytes.len() <= usize::MAX,
        fs.open_outcome(path, options_of_create_file(), Ok(created), &with_file),
        created.write_outcome(bytes, Ok(count), &written),
        with_file.persist_outcome(path, written, Ok(()), &stored),
        stored.open_outcome(path, options_of_open_file(), opened, &last),
        opened is Ok ==> opened->Ok_0.read_into_vec_outcome(read, &spent),
    ensures
        count == bytes.len(),
        opened is Ok,
        read == Ok::<Seq<u8>, Error>(bytes),
        last.metadata_at(path) == Ok::<Metadata, Error>(Metadata::file(bytes.len() as u64)),
{
    let names = components(path);
    assert(created.contents@ =~= Seq::<u8>::empty());
    assert(bytes.take(bytes.len() as int) =~= bytes);
    assert(written.contents@ =~= bytes);
    assert(with_file.lookup(names) is Some && with_file.lookup(names)->0 is File);
    assert(stored.lookup(names) == Some(Stored::File(bytes)));
    assert(names.drop_last() != names);
    assert(stored.lookup(names.drop_last()) == fs.lookup(names.drop_last()));
    let handle = opened->Ok_0;
    assert(handle.contents@ == bytes);
    assert(handle.remaining() =~= bytes);
    assert(last.lookup(names) == Some(Stored::File(bytes)));
}

/// After `create_dir_all` succeeded on a path, a directory stands at the path and at every
/// stretch of it from the root on: each of them exists.
pub proof fn lemma_create_dir_all_creates(
    fs: MemoryFS,
    path: Seq<char>,
    after: MemoryFS,
    below: Seq<char>,
)
    requires
        fs.wf(),
        fs.create_dir_all_outcome(path, Ok(()), &after),
    ensures
        after.metadata_at(path) == Ok::<Metadata, Error>(Metadata::directory()),
        exists_outcome(after.metadata_at(path)) == Ok::<bool, Error>(true),
        is_prefix(components(below), components(path)) ==> after.metadata_at(below) == Ok::<
            Metadata,
            Error,
        >(Metadata::directory()) && exists_outcome(after.metadata_at(below)) == Ok::<
            bool,
            Error,
        >(true),
{
    let names = components(path);
    assert(names.take(names.len() as int) =~= names);
    lemma_reach_at(fs.inner.root, names);
    assert(after.lookup(names) == Some(Stored::Directory));
    let q = components(below);
    if is_prefix(q, names) {
        lemma_reach_at(fs.inner.root, q);
        if fs.inner.reach(q) is UserData {
            crate::tree::lemma_reach_leaf_extends(fs.inner.root, q, names);
        }
        assert(after.lookup(q) == Some(Stored::Directory));
    }
}

/// After `remove_dir` or `remove_file` succeeded on a path, nothing stands at the path or
/// below it: the path does not exist.
pub proof fn lemma_removed_is_gone(
    fs: MemoryFS,
    path: Seq<char>,
    after: MemoryFS,
    below: Seq<char>,
)
    requires
        fs.wf(),
        fs.remove_dir_outcome(path, Ok(()), &after) || fs.remove_file_outcome(
            path,
            Ok(()),
            &after,
        ),
    ensures
        after.metadata_at(path) == Err::<Metadata, Error>(Error { kind: ErrorKind::NotFound }),
        exists_outcome(after.metadata_at(path)) == Ok::<bool, Error>(false),
        is_prefix(components(path), components(below)) ==> after.metadata_at(below) == Err::<
            Metadata,
            Error,
        >(Error { kind: ErrorKind::NotFound }),
{
    let names = components(path);
    assert(names.take(names.len() as int) =~= names);
    assert(after.lookup(names) is None);
    if is_prefix(names, components(below)) {
        assert(after.lookup(components(below)) is None);
    }
}

/// After `create_dir` succeeded on a path, a directory stands at the path.
pub proof fn lemma_created_dir_is_directory(fs: MemoryFS, path: Seq<char>, after: MemoryFS)
    requires
        fs.wf(),
        fs.create_dir_outcome(path, Ok(()), &after),
    ensures
        after.metadata_at(path) == Ok::<Metadata, Error>(Metadata::directory()),
{
    assert(after.lookup(components(path)) == Some(Stored::Directory));
}

/// The root directory always exists.
pub proof fn lemma_root_exists(fs: MemoryFS, path: Seq<char>)
    requires
        fs.wf(),
        components(path).len() == 0,
    ensures
        fs.metadata_at(path) == Ok::<Metadata, Error>(Metadata::directory()),
        fs.read_dir_at(path) is Ok,
{
}

/// A listing succeeds only where the metadata reports a directory, and then lists the
/// children of the directory, each name once: a name is listed exactly where something
/// stands under it in the directory, with the metadata of what stands there.
pub proof fn lemma_listing(fs: MemoryFS, path: Seq<char>, name: Seq<char>)
    requires
        fs.wf(),
    ensures
        fs.read_dir_at(path) is Ok <==> fs.metadata_at(path) == Ok::<Metadata, Error>(
            Metadata::directory(),
        ),
        fs.read_dir_at(path) matches Ok(entries) ==> forall|i: int, j: int|
            0 <= i < j < entries.len() ==> (#[trigger] entries[i]).0 != (#[trigger] entries[j]).0,
        fs.read_dir_at(path) matches Ok(entries) ==> (fs.lookup(
            components(path).push(name),
        ) matches Some(stored) ==> exists|i: int|
            0 <= i < entries.len() && (#[trigger] entries[i]).0 == name && entries[i].1
                == metadata_for(stored)),
        fs.read_dir_at(path) matches Ok(entries) ==> (fs.lookup(components(path).push(name))
            is None ==> forall|i: int|
            0 <= i < entries.len() ==> (#[trigger] entries[i]).0 != name),
{
    let names = components(path);
    lemma_reach_at(fs.inner.root, names);
    fs.lemma_child(names, name);
    if fs.inner.reach(names) is Directory {
        let items = fs.inner.reach(names)->Directory_0;
        let entries = listing(items@);
        assert forall|i: int, j: int| 0 <= i < j < entries.len() implies (#[trigger] entries[i]).0
            != (#[trigger] entries[j]).0 by {
            assert(items@[i].0@ != items@[j].0@);
        }
        if has_name(items@, name) {
            let k = index_of(items@, name);
            let child = items@[k].1;
            let stored = fs.lookup(names.push(name))->0;
            assert(fs.inner.get(names.push(name)) == Some(child.node()));
            assert(metadata_of(child) == metadata_for(stored));
            assert(entries[k].0 == name && entries[k].1 == metadata_for(stored));
        } else {
            assert forall|i: int| 0 <= i < entries.len() implies (#[trigger] entries[i]).0
                != name by {
                assert(items@[i].0@ != name);
            }
        }
    }
    if fs.read_dir_at(path) is Ok && fs.lookup(names.push(name)) is Some {
        let entries = fs.read_dir_at(path)->Ok_0;
        let stored = fs.lookup(names.push(name))->0;
        let items = fs.inner.reach(names)->Directory_0;
        let k = index_of(items@, name);
        assert(entries[k].0 == name && entries[k].1 == metadata_for(stored));
    }
}

} // verus!
