//! How a path of the filesystem becomes a path of the host, with or without a sandbox.
//!
//! The host's own work, making a path canonical, is not done here: a resolver says which
//! path the host is asked about and judges what the host answers.

use crate::error::{Error, ErrorKind};
use crate::tree::is_prefix;
use crate::util::{
    is_rooted, is_separator, make_relative, parts, relative, same_word, segments, split_parts,
    starts_at_root, words,
};
use vstd::prelude::*;

verus! {

/// `rest` appended to the directory `root`: behind a slash, unless `root` is empty or ends
/// with a separator of its own.
pub open spec fn joined(root: Seq<char>, rest: Seq<char>) -> Seq<char> {
    if root.len() == 0 || is_separator(root.last()) {
        root + rest
    } else {
        root + seq!['/'] + rest
    }
}

/// Whether `path` lies at or below `root`: both are rooted or both are not, and the parts
/// of `root` open the parts of `path`. Only whole parts count.
pub open spec fn starts_with(path: Seq<char>, root: Seq<char>) -> bool {
    is_rooted(path) == is_rooted(root) && is_prefix(
        parts(segments(root), is_rooted(root)),
        parts(segments(path), is_rooted(path)),
    )
}

/// Appends a relative path to a directory.
pub fn join_paths(root: &str, rest: &str) -> (r: String)
    ensures
        r@ == joined(root@, rest@),
{
    let mut out = String::from_str(root);
    let n = root.unicode_len();
    if n > 0 {
        let last = root.get_char(n - 1);
        if !(last == '/' || last == '\\') {
            out.push('/');
        }
    }
    out.append(rest);
    out
}

/// Whether `path` lies at or below `root`, by whole parts.
pub fn path_starts_with(path: &str, root: &str) -> (b: bool)
    ensures
        b == starts_with(path@, root@),
{
    if starts_at_root(path) != starts_at_root(root) {
        return false;
    }
    let outer = split_parts(root);
    let inner = split_parts(path);
    if outer.len() > inner.len() {
        return false;
    }
    let ghost p = words(outer@);
    let ghost q = words(inner@);
    let mut i: usize = 0;
    while i < outer.len()
        invariant
            i <= outer.len() <= inner.len(),
            p == words(outer@),
            q == words(inner@),
            p == parts(segments(root@), is_rooted(root@)),
            q == parts(segments(path@), is_rooted(path@)),
            is_rooted(path@) == is_rooted(root@),
            q.take(i as int) == p.take(i as int),
        decreases outer.len() - i,
    {
        if !same_word(&outer[i], &inner[i]) {
            proof {
                assert(p[i as int] == outer@[i as int]@);
                assert(q[i as int] == inner@[i as int]@);
                assert(q.take(p.len() as int)[i as int] == q[i as int]);
            }
            return false;
        }
        proof {
            assert(q.take(i + 1) =~= q.take(i as int).push(q[i as int]));
            assert(p.take(i + 1) =~= p.take(i as int).push(p[i as int]));
        }
        i += 1;
    }
    proof {
        assert(p.take(p.len() as int) =~= p);
    }
    true
}

/// Resolves paths to their respective host paths.
pub trait PathResolver {
    /// Whether the host is asked for the canonical form of the root and of the resolved
    /// path before the resolved path is judged.
    spec fn canonical() -> bool;

    /// Whether `permit` lets a host path under a root pass.
    spec fn permits(root: Seq<char>, host_path: Seq<char>) -> bool;

    /// Whether the host is asked for canonical forms.
    fn asks_host() -> (b: bool)
        ensures
            b == Self::canonical(),
    ;

    /// The host path that `path` names under `root`: the root, and the path behind it
    /// without its leading separators.
    fn resolve_path(root: &str, path: &str) -> (r: String)
        ensures
            r@ == joined(root@, relative(path@)),
    ;

    /// Judges a host path: hands it back where it may be used under the root, and fails
    /// with `PermissionDenied` where it may not.
    fn permit(root: &str, host_path: String) -> (r: Result<String, Error>)
        ensures
            Self::permits(root@, host_path@) ==> r == Ok::<String, Error>(host_path),
            !Self::permits(root@, host_path@) ==> r == Err::<String, Error>(
                Error { kind: ErrorKind::PermissionDenied },
            ),
    ;
}

/// A resolver that ensures that paths have not been traversed, either through backtracking
/// or symbolic links: both the root and the resolved path are made canonical by the host,
/// and the resolved path must then lie at or below the root.
pub struct SandboxedPathResolver {}

impl PathResolver for SandboxedPathResolver {
    open spec fn canonical() -> bool {
        true
    }

    open spec fn permits(root: Seq<char>, host_path: Seq<char>) -> bool {
        starts_with(host_path, root)
    }

    fn asks_host() -> (b: bool) {
        true
    }

    fn resolve_path(root: &str, path: &str) -> (r: String) {
        let rest = make_relative(path);
        join_paths(root, rest.as_str())
    }

    fn permit(root: &str, host_path: String) -> (r: Result<String, Error>) {
        if !path_starts_with(host_path.as_str(), root) {
            return Err(Error::new(ErrorKind::PermissionDenied));
        }
        Ok(host_path)
    }
}

/// An unrestricted path resolver that simply appends the desired path to the root without
/// checking for bounds. `..` in the path survives and may lead out of the root.
pub struct UnrestrictedPathResolver {}

impl PathResolver for UnrestrictedPathResolver {
    open spec fn canonical() -> bool {
        false
    }

    open spec fn permits(root: Seq<char>, host_path: Seq<char>) -> bool {
        true
    }

    fn asks_host() -> (b: bool) {
        false
    }

    fn resolve_path(root: &str, path: &str) -> (r: String) {
        let rest = make_relative(path);
        join_paths(root, rest.as_str())
    }

    fn permit(root: &str, host_path: String) -> (r: Result<String, Error>) {
        Ok(host_path)
    }
}

/// The unrestricted resolver never fails with `PermissionDenied`; the sandboxed resolver
/// fails with it on every canonical path that does not lie at or below the canonical root.
pub proof fn lemma_sandbox(root: Seq<char>, host_path: Seq<char>)
    ensures
        UnrestrictedPathResolver::permits(root, host_path),
        SandboxedPathResolver::permits(root, host_path) <==> starts_with(host_path, root),
{
}

} // verus!
