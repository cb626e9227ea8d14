//! The physical filesystem, backed by a root on the drive. What reaches the host is not
//! done here: this module resolves paths and shapes what the host answers.

use crate::error::{Error, ErrorKind};
use crate::file::{DirEntry, FileType, Metadata};
use crate::physical_fs::path_resolver::{
    joined, starts_with, PathResolver, SandboxedPathResolver, UnrestrictedPathResolver,
};
use crate::util::{
    invalid_path, is_rooted, join, join_names, normalize_path, normalized, parts, relative,
    same_word, segments, split_parts, starts_at_root, words,
};
use core::marker::PhantomData;
use vstd::prelude::*;

pub mod path_resolver;

verus! {

/// The physical filesystem, backed by a root on the drive.
pub struct PhysicalFSImpl<R: PathResolver> {
    /// The root on the host, in normal form.
    pub root: String,
    /// The resolver that the filesystem resolves paths with.
    pub _marker: PhantomData<R>,
}

/// The physical filesystem, backed by a root on the drive. This filesystem will not protect
/// against directory traversal and very simply appends the target path to the root.
pub type PhysicalFS = PhysicalFSImpl<UnrestrictedPathResolver>;

/// The physical filesystem, backed by a root on the drive. This filesystem refuses every
/// path that leaves the root, by backtracking or through a symbolic link.
pub type SandboxedPhysicalFS = PhysicalFSImpl<SandboxedPathResolver>;

/// What is left of `path` behind `root`: the parts of `path` that follow those of `root`,
/// joined by slashes. There is nothing to strip where `path` does not lie at or below
/// `root`.
pub open spec fn stripped(path: Seq<char>, root: Seq<char>) -> Option<Seq<char>> {
    if starts_with(path, root) {
        Some(
            join(
                parts(segments(path), is_rooted(path)).skip(
                    parts(segments(root), is_rooted(root)).len() as int,
                ),
            ),
        )
    } else {
        None
    }
}

/// The file type that the host reports, by its two flags.
pub open spec fn file_type_of(is_dir: bool, is_file: bool) -> FileType {
    if is_dir {
        FileType::Directory
    } else if is_file {
        FileType::File
    } else {
        FileType::Unknown
    }
}

/// The file type for what the host reports: a directory, a regular file, or unknown for
/// anything else.
pub fn file_type_from(is_dir: bool, is_file: bool) -> (t: FileType)
    ensures
        t == file_type_of(is_dir, is_file),
{
    if is_dir {
        FileType::Directory
    } else if is_file {
        FileType::File
    } else {
        FileType::Unknown
    }
}

/// The metadata for what the host reports.
pub fn metadata_from(is_dir: bool, is_file: bool, len: u64) -> (m: Metadata)
    ensures
        m == (Metadata { file_type: file_type_of(is_dir, is_file), len }),
{
    Metadata { file_type: file_type_from(is_dir, is_file), len }
}

/// Strips `root` from the front of `path`, by whole parts.
pub fn strip_prefix(path: &str, root: &str) -> (r: Option<String>)
    ensures
        match stripped(path@, root@) {
            Some(rest) => r is Some && r->0@ == rest,
            None => r is None,
        },
{
    if starts_at_root(path) != starts_at_root(root) {
        return None;
    }
    let outer = split_parts(root);
    let inner = split_parts(path);
    if outer.len() > inner.len() {
        return None;
    }
    let ghost p = words(outer@);
    let ghost q = words(inner@);
    let mut i: usize = 0;
    while i < outer.len()
        invariant
            i <= outer.len() <= inner.len(),
            p == words(outer@),
            q == words(inner@),
            p == parts(segments(root@), is_rooted(root@)),
            q == parts(segments(path@), is_rooted(path@)),
            is_rooted(path@) == is_rooted(root@),
            q.take(i as int) == p.take(i as int),
        decreases outer.len() - i,
    {
        if !same_word(&outer[i], &inner[i]) {
            proof {
                assert(p[i as int] == outer@[i as int]@);
                assert(q[i as int] == inner@[i as int]@);
                assert(q.take(p.len() as int)[i as int] == q[i as int]);
            }
            return None;
        }
        proof {
            assert(q.take(i + 1) =~= q.take(i as int).push(q[i as int]));
            assert(p.take(i + 1) =~= p.take(i as int).push(p[i as int]));
        }
        i += 1;
    }
    proof {
        assert(p.take(p.len() as int) =~= p);
    }
    let mut rest: Vec<Vec<char>> = Vec::new();
    let mut k: usize = outer.len();
    while k < inner.len()
        invariant
            outer.len() <= k <= inner.len(),
            q == words(inner@),
            words(rest@) == q.subrange(outer.len() as int, k as int),
        decreases inner.len() - k,
    {
        let ghost held = rest@;
        let w = copy_word(&inner[k]);
        rest.push(w);
        proof {
            assert(words(rest@) =~= words(held).push(w@));
            assert(q.subrange(outer.len() as int, k as int).push(q[k as int]) =~= q.subrange(
                outer.len() as int,
                k + 1,
            ));
        }
        k += 1;
    }
    proof {
        assert(q.subrange(outer.len() as int, q.len() as int) =~= q.skip(outer.len() as int));
        assert(words(rest@).take(rest@.len() as int) =~= words(rest@));
    }
    Some(join_names(false, &rest, rest.len()))
}

/// A copy of the word.
pub fn copy_word(w: &Vec<char>) -> (r: Vec<char>)
    ensures
        r@ == w@,
{
    let mut out: Vec<char> = Vec::new();
    let mut i: usize = 0;
    while i < w.len()
        invariant
            i <= w.len(),
            out@ == w@.take(i as int),
        decreases w.len() - i,
    {
        out.push(w[i]);
        proof {
            assert(w@.take(i as int).push(w@[i as int]) =~= w@.take(i + 1));
        }
        i += 1;
    }
    proof {
        assert(w@.take(w@.len() as int) =~= w@);
    }
    out
}

impl<R: PathResolver> PhysicalFSImpl<R> {
    /// Creates a new physical file system at the given root. The root is kept in normal
    /// form.
    pub fn new(root: &str) -> (fs: Self)
        ensures
            fs.root@ == normalized(root@),
    {
        PhysicalFSImpl { root: normalize_path(root), _marker: PhantomData }
    }

    /// The host path that `path` names under `root`, where `root` is the root of this
    /// filesystem, made canonical by the host where the resolver asks for that.
    pub fn resolve_path(root: &str, path: &str) -> (r: String)
        ensures
            r@ == joined(root@, relative(path@)),
    {
        R::resolve_path(root, path)
    }

    /// Judges the host path that a path resolved to, made canonical by the host where the
    /// resolver asks for that: hands it back, or fails with `PermissionDenied` where the
    /// resolver refuses it.
    pub fn permit(root: &str, host_path: String) -> (r: Result<String, Error>)
        ensures
            R::permits(root@, host_path@) ==> r == Ok::<String, Error>(host_path),
            !R::permits(root@, host_path@) ==> r == Err::<String, Error>(
                Error { kind: ErrorKind::PermissionDenied },
            ),
    {
        R::permit(root, host_path)
    }

    /// Shapes what the host lists in a directory: each entry that the host could read comes
    /// with its path relative to the root of the filesystem and its metadata. An entry that
    /// the host could not read keeps its error, and so does one whose metadata could not
    /// be read; a path that does not lie below the root fails with `InvalidInput`.
    pub fn read_dir(
        &self,
        listed: Vec<Result<(String, Result<Metadata, Error>), Error>>,
    ) -> (r: Vec<Result<DirEntry, Error>>)
        ensures
            r@.len() == listed@.len(),
            forall|i: int|
                0 <= i < listed@.len() ==> entry_outcome(self.root@, listed@[i], #[trigger] r@[i]),
    {
        let mut out: Vec<Result<DirEntry, Error>> = Vec::new();
        let mut i: usize = 0;
        while i < listed.len()
            invariant
                i <= listed.len(),
                out@.len() == i,
                forall|j: int|
                    0 <= j < i ==> entry_outcome(self.root@, listed@[j], #[trigger] out@[j]),
            decreases listed.len() - i,
        {
            let entry = match &listed[i] {
                Err(e) => Err(*e),
                Ok((path, metadata)) => {
                    match strip_prefix(path.as_str(), self.root.as_str()) {
                        None => Err(invalid_path()),
                        Some(rest) => {
                            match metadata {
                                Err(e) => Err(*e),
                                Ok(m) => Ok(DirEntry { path: rest, metadata: *m }),
                            }
                        },
                    }
                },
            };
            out.push(entry);
            i += 1;
        }
        out
    }
}

/// Whether `out` is what `read_dir` makes of one entry that the host listed.
pub open spec fn entry_outcome(
    root: Seq<char>,
    listed: Result<(String, Result<Metadata, Error>), Error>,
    out: Result<DirEntry, Error>,
) -> bool {
    match listed {
        Err(e) => out == Err::<DirEntry, Error>(e),
        Ok((path, metadata)) => match stripped(path@, root) {
            None => out == Err::<DirEntry, Error>(Error { kind: ErrorKind::InvalidInput }),
            Some(rest) => match metadata {
                Err(e) => out == Err::<DirEntry, Error>(e),
                Ok(m) => out is Ok && out->Ok_0@ == (rest, m),
            },
        },
    }
}

} // verus!
