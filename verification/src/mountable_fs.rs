//! A filesystem that mounts other filesystems at paths of a directory tree.

use crate::error::{Error, ErrorKind};
use crate::file::{entries_view, DirEntry, Metadata, OpenOptions};
use crate::tree::{
    directory_mut, ensure_directories, find, has_name, is_prefix, leaf_mut, lemma_child_changed,
    lemma_leaf_replaced, lemma_reach_at, rest_of, Entry, FilesystemTree, Node, Reached,
};
use crate::util::{
    already_exists, components, invalid_path, join, not_found, not_supported, path_components,
    strs,
};
use crate::FileSystem;
use vstd::prelude::*;

verus! {

/// A filesystem that supports the mounting of other filesystems at designated paths
/// (excluding the root).
#[derive(Debug)]
pub struct MountableFS<FS: FileSystem> {
    /// The directories, and the mounted filesystems as the leaves.
    pub inner: FilesystemTree<FS>,
}

/// What `read_dir` lists for a directory of the tree: every child, whether a directory or
/// a mounted filesystem, as a directory.
pub open spec fn mount_listing<FS>(items: Seq<(String, Entry<FS>)>) -> Seq<(Seq<char>, Metadata)> {
    Seq::new(items.len(), |i: int| (items[i].0@, Metadata::directory()))
}

/// If the entry is a mounted filesystem, it is well-formed.
pub open spec fn mount_wf<FS: FileSystem>(entry: Option<Entry<FS>>) -> bool {
    entry matches Some(Entry::UserData(fs)) ==> fs.wf()
}

impl<FS: FileSystem> MountableFS<FS> {
    /// Every mounted filesystem is well-formed.
    pub open spec fn mounts_wf(&self) -> bool {
        forall|q: Seq<Seq<char>>| mount_wf(#[trigger] self.inner.root.at(q))
    }

    /// Whether `mount` may return `r` and leave `after`. The root takes no mount:
    /// `InvalidInput`. Otherwise the directories that are missing above the mount point are
    /// created, as far as no mounted filesystem stands in the way. One in the way fails
    /// with `NotFound`, a mount point that is taken with `AlreadyExists`. Otherwise the
    /// filesystem is mounted and nothing else changes.
    pub open spec fn mount_outcome(
        &self,
        path: Seq<char>,
        fs: FS,
        r: Result<(), Error>,
        after: &Self,
    ) -> bool {
        let names = components(path);
        let parent = names.drop_last();
        if names.len() == 0 {
            r == Err::<(), Error>(Error { kind: ErrorKind::InvalidInput }) && *after == *self
        } else if self.inner.reach(parent) is UserData {
            r == Err::<(), Error>(Error { kind: ErrorKind::NotFound }) && forall|
                q: Seq<Seq<char>>,
            | #[trigger]
                after.inner.get(q) == self.inner.root.get_after_create_dir_all(parent, q)
        } else if self.inner.get(names) is Some {
            r == Err::<(), Error>(Error { kind: ErrorKind::AlreadyExists }) && forall|
                q: Seq<Seq<char>>,
            | #[trigger]
                after.inner.get(q) == self.inner.root.get_after_create_dir_all(parent, q)
        } else {
            r is Ok && forall|q: Seq<Seq<char>>| #[trigger]
                after.inner.get(q) == if q == names {
                    Some(Node::UserData(fs))
                } else {
                    self.inner.root.get_after_create_dir_all(parent, q)
                }
        }
    }

    /// A composite with nothing mounted: the root directory alone.
    pub fn new() -> (fs: Self)
        ensures
            fs.wf(),
            fs.inner.root matches Entry::Directory(items) && items@.len() == 0,
            forall|q: Seq<Seq<char>>| #[trigger]
                fs.inner.get(q) == if q.len() == 0 {
                    Some(Node::<FS>::Directory)
                } else {
                    None
                },
    {
        let fs = MountableFS { inner: FilesystemTree::new() };
        proof {
            assert forall|q: Seq<Seq<char>>|
                mount_wf(#[trigger] fs.inner.root.at(q)) by {
                assert(fs.inner.get(q) == if q.len() == 0 {
                    Some(Node::<FS>::Directory)
                } else {
                    None
                });
            }
        }
        fs
    }

    /// Mounts a filesystem at the given path.
    pub fn mount(&mut self, path: &str, fs: FS) -> (r: Result<(), Error>)
        requires
            old(self).wf(),
            fs.wf(),
        ensures
            final(self).wf(),
            old(self).mount_outcome(path@, fs, r, final(self)),
    {
        let mut parent = path_components(path);
        let ghost names = strs(parent@);
        let name = match parent.pop() {
            None => {
                return Err(invalid_path());
            },
            Some(name) => name,
        };
        let ghost before = self.inner.root;
        proof {
            assert(strs(parent@) =~= names.drop_last());
            assert(strs(parent@).push(name@) =~= names);
            assert(strs(parent@).skip(0) =~= strs(parent@));
            lemma_reach_at(before, strs(parent@));
            old(self).inner.lemma_child(strs(parent@), name@);
        }
        let made = ensure_directories(&mut self.inner.root, &parent, 0);
        let ghost mid = self.inner.root;
        proof {
            assert forall|q: Seq<Seq<char>>|
                mount_wf(#[trigger] mid.at(q)) by {
                assert(mid.get(q) == before.get_after_create_dir_all(strs(parent@), q));
                assert(mount_wf(before.at(q)));
            }
            assert(mid.get(strs(parent@)) == before.get_after_create_dir_all(
                strs(parent@),
                strs(parent@),
            ));
            assert(strs(parent@).take(strs(parent@).len() as int) =~= strs(parent@));
            lemma_reach_at(mid, strs(parent@));
            assert(mid.get(names) == before.get_after_create_dir_all(strs(parent@), names));
            self.inner.lemma_child(strs(parent@), name@);
        }
        match made {
            Err(e) => {
                return Err(e);
            },
            Ok(_) => {},
        }
        match self.inner.directory_at(&parent) {
            Err(e) => {
                proof {
                    assert(false);
                }
                return Err(e);
            },
            Ok(items) => {
                if find(items, &name).is_some() {
                    return Err(already_exists());
                }
            },
        }
        let dir = directory_mut(&mut self.inner.root, &parent, 0);
        let ghost items = *dir;
        dir.push((name, Entry::UserData(fs)));
        let ghost after = *dir;
        proof {
            let change = Entry::UserData(fs);
            assert(after@.drop_last() =~= items@);
            lemma_child_changed(
                mid,
                self.inner.root,
                strs(parent@),
                items,
                after,
                names.last(),
                Some(change),
            );
            assert forall|q: Seq<Seq<char>>| #[trigger]
                self.inner.get(q) == if q == names {
                    Some(Node::UserData(fs))
                } else {
                    before.get_after_create_dir_all(strs(parent@), q)
                } by {
                assert(mid.get(q) == before.get_after_create_dir_all(strs(parent@), q));
                if is_prefix(names, q) {
                    let rest = q.skip(names.len() as int);
                    if rest.len() == 0 {
                        assert(q.take(q.len() as int) =~= q);
                        assert(change.at(rest) == Some(change));
                    } else {
                        assert(change.at(rest) is None);
                        crate::tree::lemma_at_concat(mid, names, rest);
                        assert(names + rest =~= q);
                    }
                } else {
                    if q == names {
                        assert(q.take(q.len() as int) =~= q);
                    }
                }
            }
            assert forall|q: Seq<Seq<char>>|
                mount_wf(#[trigger] self.inner.root.at(q)) by {
                assert(self.inner.get(q) == if q == names {
                    Some(Node::UserData(fs))
                } else {
                    before.get_after_create_dir_all(strs(parent@), q)
                });
                assert(mount_wf(before.at(q)));
            }
        }
        Ok(())
    }
}

impl<FS: FileSystem> Default for MountableFS<FS> {
    /// A composite with nothing mounted: the root directory alone.
    fn default() -> (fs: MountableFS<FS>)
        ensures
            fs.wf(),
            fs.inner.root matches Entry::Directory(items) && items@.len() == 0,
    {
        MountableFS::new()
    }
}

impl<FS: FileSystem> FileSystem for MountableFS<FS> {
    type File = FS::File;

    open spec fn wf(&self) -> bool {
        self.inner.wf() && self.mounts_wf()
    }

    /// A directory of the tree and the root of a mounted filesystem are directories; a
    /// path that leads into a mounted filesystem has the answer of that filesystem for the
    /// rest of the path; any other path fails with `NotFound`.
    open spec fn metadata_outcome(&self, path: Seq<char>, r: Result<Metadata, Error>) -> bool {
        match self.inner.reach(components(path)) {
            Reached::Directory(_) => r == Ok::<Metadata, Error>(Metadata::directory()),
            Reached::UserData(fs, rest) => if rest.len() == 0 {
                r == Ok::<Metadata, Error>(Metadata::directory())
            } else {
                fs.metadata_outcome(join(rest), r)
            },
            Reached::Nothing => r == Err::<Metadata, Error>(Error { kind: ErrorKind::NotFound }),
        }
    }

    /// A directory of the tree lists its children, each as a directory; a path that leads
    /// to or into a mounted filesystem has the listing of that filesystem for the rest of
    /// the path; any other path fails with `NotFound`.
    open spec fn read_dir_outcome(
        &self,
        path: Seq<char>,
        r: Result<Seq<(Seq<char>, Metadata)>, Error>,
    ) -> bool {
        match self.inner.reach(components(path)) {
            Reached::Directory(items) => r == Ok::<Seq<(Seq<char>, Metadata)>, Error>(
                mount_listing(items@),
            ),
            Reached::UserData(fs, rest) => fs.read_dir_outcome(join(rest), r),
            Reached::Nothing => r == Err::<Seq<(Seq<char>, Metadata)>, Error>(
                Error { kind: ErrorKind::NotFound },
            ),
        }
    }

    /// Always `Unsupported`; nothing changes.
    open spec fn create_dir_outcome(
        &self,
        path: Seq<char>,
        r: Result<(), Error>,
        after: &Self,
    ) -> bool {
        r == Err::<(), Error>(Error { kind: ErrorKind::Unsupported }) && *after == *self
    }

    /// Always `Unsupported`; nothing changes.
    open spec fn remove_dir_outcome(
        &self,
        path: Seq<char>,
        r: Result<(), Error>,
        after: &Self,
    ) -> bool {
        r == Err::<(), Error>(Error { kind: ErrorKind::Unsupported }) && *after == *self
    }

    /// Always `Unsupported`; nothing changes.
    open spec fn remove_file_outcome(
        &self,
        path: Seq<char>,
        r: Result<(), Error>,
        after: &Self,
    ) -> bool {
        r == Err::<(), Error>(Error { kind: ErrorKind::Unsupported }) && *after == *self
    }

    /// Always `Unsupported`; nothing changes.
    open spec fn create_dir_all_outcome(
        &self,
        path: Seq<char>,
        r: Result<(), Error>,
        after: &Self,
    ) -> bool {
        r == Err::<(), Error>(Error { kind: ErrorKind::Unsupported }) && *after == *self
    }

    /// A path that leads to or into a mounted filesystem is opened there, under the rest
    /// of the path, and nothing but that filesystem changes; any other path fails with
    /// `NotFound`: a directory of the tree cannot be opened.
    open spec fn open_outcome(
        &self,
        path: Seq<char>,
        options: OpenOptions,
        r: Result<FS::File, Error>,
        after: &Self,
    ) -> bool {
        let names = components(path);
        match self.inner.reach(names) {
            Reached::UserData(fs, rest) => {
                let mount_point = names.take(names.len() - rest.len());
                &&& after.inner.root.at(mount_point) matches Some(Entry::UserData(mounted))
                &&& fs.open_outcome(join(rest), options, r, &mounted)
                &&& self.inner.root.replaced(
                    after.inner.root,
                    mount_point,
                    Entry::UserData(mounted),
                )
            },
            _ => r matches Err(e) && e.kind == ErrorKind::NotFound && *after == *self,
        }
    }

    fn create_dir(&mut self, _path: &str) -> (r: Result<(), Error>) {
        Err(not_supported())
    }

    fn metadata(&self, path: &str) -> (r: Result<Metadata, Error>) {
        proof {
            lemma_reach_at(self.inner.root, components(path@));
        }
        match self.inner.with_entry(path) {
            Ok(Ok(_)) => Ok(Metadata::directory()),
            Ok(Err((fs, remaining_path))) => {
                if remaining_path.as_str().unicode_len() == 0 {
                    proof {
                        let names = components(path@);
                        let rest = self.inner.reach(names)->UserData_1;
                        crate::util::lemma_components_are_names(path@);
                        assert forall|i: int| 0 <= i < rest.len() implies crate::util::is_name(
                            #[trigger] rest[i],
                        ) by {
                            assert(rest[i] == names[names.len() - rest.len() + i]);
                        }
                        lemma_join_empty(rest);
                    }
                    Ok(Metadata::directory())
                } else {
                    fs.metadata(remaining_path.as_str())
                }
            },
            Err(e) => Err(e),
        }
    }

    fn open_file_options(&mut self, path: &str, options: &OpenOptions) -> (r: Result<
        FS::File,
        Error,
    >) {
        let names = path_components(path);
        let ghost all = strs(names@);
        let ghost before = self.inner.root;
        proof {
            lemma_reach_at(before, all);
        }
        let depth = match self.inner.leaf_depth(&names) {
            None => {
                return Err(not_found());
            },
            Some(depth) => depth,
        };
        let rest = rest_of(&names, depth);
        let ghost mount_point = all.take(depth as int);
        proof {
            assert(all.subrange(0, depth as int) =~= mount_point);
        }
        let leaf = leaf_mut(&mut self.inner.root, &names, 0, depth);
        let ghost fs = *leaf;
        let r = leaf.open_file_options(rest.as_str(), options);
        let ghost mounted = *leaf;
        proof {
            assert forall|q: Seq<Seq<char>>|
                mount_wf(#[trigger] self.inner.root.at(q)) by {
                lemma_leaf_replaced(before, self.inner.root, mount_point, fs, mounted, q);
                assert(mount_wf(before.at(q)));
            }
            lemma_leaf_replaced(before, self.inner.root, mount_point, fs, mounted, mount_point);
        }
        r
    }

    fn read_dir(&self, path: &str) -> (r: Result<Vec<DirEntry>, Error>) {
        proof {
            lemma_reach_at(self.inner.root, components(path@));
        }
        match self.inner.with_entry(path) {
            Ok(Ok(items)) => {
                let mut out: Vec<DirEntry> = Vec::new();
                let mut i: usize = 0;
                proof {
                    assert(entries_view(out@) =~= mount_listing(items@).take(0));
                }
                while i < items.len()
                    invariant
                        i <= items.len(),
                        entries_view(out@) == mount_listing(items@).take(i as int),
                    decreases items.len() - i,
                {
                    let ghost held = out@;
                    let entry = DirEntry {
                        path: items[i].0.clone(),
                        metadata: Metadata::directory(),
                    };
                    out.push(entry);
                    proof {
                        assert(entries_view(out@) =~= entries_view(held).push(entry@));
                        assert(mount_listing(items@).take(i as int).push(entry@)
                            =~= mount_listing(items@).take(i + 1));
                    }
                    i += 1;
                }
                proof {
                    assert(mount_listing(items@).take(items@.len() as int) =~= mount_listing(
                        items@,
                    ));
                }
                Ok(out)
            },
            Ok(Err((fs, remaining_path))) => fs.read_dir(remaining_path.as_str()),
            Err(e) => Err(e),
        }
    }

    fn remove_dir(&mut self, _path: &str) -> (r: Result<(), Error>) {
        Err(not_supported())
    }

    fn remove_file(&mut self, _path: &str) -> (r: Result<(), Error>) {
        Err(not_supported())
    }

    fn create_dir_all(&mut self, _path: &str) -> (r: Result<(), Error>) {
        Err(not_supported())
    }
}

/// Names join to the empty path only where there are none.
pub proof fn lemma_join_empty(names: Seq<Seq<char>>)
    requires
        crate::util::all_names(names),
    ensures
        join(names).len() == 0 <==> names.len() == 0,
    decreases names.len(),
{
    if names.len() == 1 {
        assert(crate::util::is_name(names[0]));
    } else if names.len() > 1 {
    }
}

/// Every operation treats a path as it treats the relative normal form of the path:
/// leading separators, `.` and `..` change no outcome.
pub proof fn lemma_normal_form_is_enough<FS: FileSystem>(
    fs: MountableFS<FS>,
    path: Seq<char>,
    metadata: Result<Metadata, Error>,
    listing: Result<Seq<(Seq<char>, Metadata)>, Error>,
    options: OpenOptions,
    opened: Result<FS::File, Error>,
    mounted: FS,
    done: Result<(), Error>,
    after: MountableFS<FS>,
)
    ensures
        ({
            let normal = crate::util::normalized(crate::util::relative(path));
            &&& fs.metadata_outcome(path, metadata) == fs.metadata_outcome(normal, metadata)
            &&& fs.read_dir_outcome(path, listing) == fs.read_dir_outcome(normal, listing)
            &&& fs.open_outcome(path, options, opened, &after) == fs.open_outcome(
                normal,
                options,
                opened,
                &after,
            )
            &&& fs.mount_outcome(path, mounted, done, &after) == fs.mount_outcome(
                normal,
                mounted,
                done,
                &after,
            )
        }),
{
    crate::util::lemma_relative_normal_form(path);
}

/// A mounted filesystem stands as a directory at its mount point, and a path below the
/// mount point has the metadata that the mounted filesystem reports for the rest of the
/// path.
pub proof fn lemma_mounted<FS: FileSystem>(
    fs: MountableFS<FS>,
    path: Seq<char>,
    mounted: FS,
    after: MountableFS<FS>,
    below: Seq<char>,
    metadata: Result<Metadata, Error>,
)
    requires
        fs.wf(),
        fs.mount_outcome(path, mounted, Ok(()), &after),
        after.inner.wf(),
    ensures
        after.metadata_outcome(path, Ok(Metadata::directory())),
        is_prefix(components(path), components(below)) && components(below).len() > components(
            path,
        ).len() ==> (after.metadata_outcome(below, metadata) <==> mounted.metadata_outcome(
            join(components(below).skip(components(path).len() as int)),
            metadata,
        )),
{
    let names = components(path);
    let q = components(below);
    assert(after.inner.get(names) == Some(Node::UserData(mounted)));
    lemma_reach_at(after.inner.root, names);
    assert(names.take(names.len() as int) =~= names);
    match after.inner.reach(names) {
        Reached::UserData(t, rest) => {
            if rest.len() > 0 {
                assert(after.inner.root.at(names) is None);
            }
            assert(rest.len() == 0);
            assert(names.take(names.len() - rest.len()) =~= names);
            assert(t == mounted);
        },
        _ => {},
    }
    if is_prefix(names, q) {
        lemma_reach_leaf_depth(after.inner.root, names, q);
    }
}

/// A walk that ends at a leaf exactly at the end of a path meets that leaf along every
/// longer path, with the rest of the longer path left over.
pub proof fn lemma_reach_leaf_depth<T>(e: Entry<T>, p: Seq<Seq<char>>, q: Seq<Seq<char>>)
    requires
        is_prefix(p, q),
        e.reach(p) is UserData,
        e.reach(p)->UserData_1.len() == 0,
    ensures
        e.reach(q) == Reached::UserData(e.reach(p)->UserData_0, q.skip(p.len() as int)),
    decreases p.len(),
{
    match e {
        Entry::UserData(_) => {
            assert(q.skip(0) =~= q);
        },
        Entry::Directory(items) => {
            if p.len() > 0 {
                assert(q[0] == q.take(p.len() as int)[0]);
                if has_name(items@, p[0]) {
                    assert(q.drop_first().take(p.len() - 1) =~= q.take(
                        p.len() as int,
                    ).drop_first());
                    lemma_reach_leaf_depth(
                        items@[crate::tree::index_of(items@, p[0])].1,
                        p.drop_first(),
                        q.drop_first(),
                    );
                    assert(q.drop_first().skip(p.len() - 1) =~= q.skip(p.len() as int));
                }
            }
        },
    }
}

} // verus!
