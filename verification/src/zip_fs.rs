//! A read-only filesystem over a ZIP archive, backed by the `zip` crate.

use crate::error::{io_failure, Error, ErrorKind};
use crate::file::{entries_view, DirEntry, FileType, Metadata, OpenOptions};
use crate::memory_fs::file::{FileHandle, FileModes};
use crate::tree::is_prefix;
use crate::util::{
    chars_of, components, join, lemma_relative_normal_form, make_relative, normalize_path,
    normalized, not_found, not_supported, parent_iter, parents, path_components, relative, strs,
};
use crate::FileSystem;
use std::io::Cursor;
use std::io::Read;
use std::sync::Arc;
use vstd::prelude::*;
use zip::result::ZipError;
use zip::ZipArchive;

verus! {

/// The archive reader of the `zip` crate. Nothing inside it is read here.
#[verifier::external_type_specification]
#[verifier::external_body]
#[verifier::reject_recursive_types(R)]
pub struct ExZipArchive<R>(ZipArchive<R>);

/// The in-memory reader of the standard library that the archive reads from.
#[verifier::external_type_specification]
#[verifier::external_body]
#[verifier::reject_recursive_types(T)]
pub struct ExCursor<T>(Cursor<T>);

/// The error of the `zip` crate.
#[verifier::external_type_specification]
#[verifier::external_body]
pub struct ExZipError(ZipError);

/// How the archive failed.
#[derive(Debug, Clone, Copy, PartialEq, Eq, Structural)]
pub enum ZipFailure {
    /// The archive holds no entry of the name.
    FileNotFound,
    /// Reading failed, with the class of the failure.
    Io(ErrorKind),
    /// The bytes are no valid archive.
    InvalidArchive,
    /// The archive uses a feature that is not supported, or the entry needs a password.
    UnsupportedArchive,
}

/// For every name of an entry in the archive: the size of the entry when uncompressed, or
/// how opening the entry fails.
pub uninterp spec fn zip_sizes(archive: ZipArchive<Cursor<Arc<[u8]>>>) -> Map<
    Seq<char>,
    Result<u64, ZipFailure>,
>;

/// For every name of an entry in the archive: the bytes of the entry when uncompressed, or
/// how opening or reading the entry fails.
pub uninterp spec fn zip_data(archive: ZipArchive<Cursor<Arc<[u8]>>>) -> Map<
    Seq<char>,
    Result<Seq<u8>, ZipFailure>,
>;

/// Tells the variants of `zip::result::ZipError` apart.
#[verifier::external_body]
fn zip_failure(e: ZipError) -> ZipFailure {
    match e {
        ZipError::FileNotFound => ZipFailure::FileNotFound,
        ZipError::Io(io) => ZipFailure::Io(io_failure(io).kind),
        ZipError::InvalidArchive(_) => ZipFailure::InvalidArchive,
        ZipError::UnsupportedArchive(_) => ZipFailure::UnsupportedArchive,
    }
}

/// Whether the bytes open as an archive, and how they fail where they do not.
pub uninterp spec fn zip_opening(bytes: Seq<u8>) -> Result<(), ZipFailure>;

/// The bytes that the archive was opened on.
pub uninterp spec fn archive_bytes(archive: ZipArchive<Cursor<Arc<[u8]>>>) -> Seq<u8>;

/// `ZipArchive::new` on the bytes: the archive of the bytes, or the failure of reading
/// its central directory.
#[verifier::external_body]
fn archive_open(bytes: Vec<u8>) -> (r: Result<ZipArchive<Cursor<Arc<[u8]>>>, ZipFailure>)
    ensures
        r is Ok ==> zip_opening(bytes@) is Ok && archive_bytes(r->Ok_0) == bytes@,
        r is Err ==> zip_opening(bytes@) is Err && zip_opening(bytes@)->Err_0 == r->Err_0,
{
    match ZipArchive::new(Cursor::new(Arc::from(bytes))) {
        Ok(archive) => Ok(archive),
        Err(e) => Err(zip_failure(e)),
    }
}

/// `ZipArchive::file_names`, collected: every name of an entry once, in no stated order.
#[verifier::external_body]
fn archive_names(archive: &ZipArchive<Cursor<Arc<[u8]>>>) -> (r: Vec<String>)
    ensures
        forall|i: int, j: int| 0 <= i < j < r@.len() ==> (#[trigger] r@[i])@ != (#[trigger] r@[j])@,
        forall|i: int|
            0 <= i < r@.len() ==> zip_sizes(*archive).dom().contains((#[trigger] r@[i])@),
        forall|name: Seq<char>| #[trigger]
            zip_sizes(*archive).dom().contains(name) ==> exists|i: int|
                0 <= i < r@.len() && (#[trigger] r@[i])@ == name,
{
    archive.file_names().map(|name| name.to_owned()).collect()
}

/// The names of the entries that the archive does not open for want of a password: an
/// entry that is encrypted under a password that the empty one does not pass for, and an
/// entry that carries the data of an encryption without being marked as encrypted.
pub uninterp spec fn zip_locked(archive: ZipArchive<Cursor<Arc<[u8]>>>) -> Set<Seq<char>>;

/// `ZipArchive::by_name_decrypt` on a copy of the reader, with the empty password: whether
/// the archive finds the entry of the name and refuses the password for it.
#[verifier::external_body]
fn entry_locked(archive: &ZipArchive<Cursor<Arc<[u8]>>>, name: &str, password: &[u8]) -> (b: bool)
    requires
        password@.len() == 0,
    ensures
        b == zip_locked(*archive).contains(name@),
{
    match archive.clone().by_name_decrypt(name, password) {
        Ok(Err(_)) => true,
        _ => false,
    }
}

/// `ZipArchive::by_name` on a copy of the reader, and `ZipFile::size` of the entry: the
/// size that the archive records for the entry when uncompressed. A name that the archive
/// does not hold fails with `FileNotFound`. `by_name` unwraps what `by_name_decrypt` hands
/// back without a password, and does not return where that refuses the entry for want of
/// one: an entry that the empty password does not open is left out.
#[verifier::external_body]
fn entry_size(archive: &ZipArchive<Cursor<Arc<[u8]>>>, name: &str) -> (r: Result<u64, ZipFailure>)
    requires
        !zip_locked(*archive).contains(name@),
    ensures
        zip_sizes(*archive).dom().contains(name@) ==> r == zip_sizes(*archive)[name@],
        !zip_sizes(*archive).dom().contains(name@) ==> r is Err && r->Err_0
            == ZipFailure::FileNotFound,
{
    match archive.clone().by_name(name) {
        Ok(file) => Ok(file.size()),
        Err(e) => Err(zip_failure(e)),
    }
}

/// `ZipArchive::by_name` on a copy of the reader, and the entry read to its end: the bytes
/// of the entry when uncompressed. A name that the archive does not hold fails with
/// `FileNotFound`. As for `entry_size`, an entry that the empty password does not open is
/// left out.
#[verifier::external_body]
fn entry_bytes(archive: &ZipArchive<Cursor<Arc<[u8]>>>, name: &str) -> (r: Result<
    Vec<u8>,
    ZipFailure,
>)
    requires
        !zip_locked(*archive).contains(name@),
    ensures
        zip_sizes(*archive).dom().contains(name@) && r is Ok ==> zip_data(*archive).dom().contains(
            name@,
        ) && zip_data(*archive)[name@] is Ok && zip_data(*archive)[name@]->Ok_0 == r->Ok_0@,
        zip_sizes(*archive).dom().contains(name@) && r is Err ==> zip_data(
            *archive,
        ).dom().contains(name@) && zip_data(*archive)[name@] is Err && zip_data(
            *archive,
        )[name@]->Err_0 == r->Err_0,
        !zip_sizes(*archive).dom().contains(name@) ==> r is Err && r->Err_0
            == ZipFailure::FileNotFound,
{
    let mut contents = Vec::new();
    match archive.clone().by_name(name) {
        Ok(mut file) => match file.read_to_end(&mut contents) {
            Ok(_) => Ok(contents),
            Err(e) => Err(ZipFailure::Io(io_failure(e).kind)),
        },
        Err(e) => Err(zip_failure(e)),
    }
}

/// The class of each failure of the archive: a missing entry is `NotFound`, an invalid
/// archive `InvalidData`, an unsupported feature `Unsupported`, and a failed read keeps its
/// class.
pub open spec fn converted(failure: ZipFailure) -> Error {
    match failure {
        ZipFailure::FileNotFound => Error { kind: ErrorKind::NotFound },
        ZipFailure::Io(kind) => Error { kind },
        ZipFailure::InvalidArchive => Error { kind: ErrorKind::InvalidData },
        ZipFailure::UnsupportedArchive => Error { kind: ErrorKind::Unsupported },
    }
}

/// The normal form of a path inside the archive: normalized, then without a leading
/// separator. It is the names of the path joined by slashes.
pub open spec fn zip_normal(path: Seq<char>) -> Seq<char> {
    relative(normalized(path))
}

/// Whether the names of the entries imply a directory at the path, given in normal form:
/// the root, and every parent of the normal form of a name.
pub open spec fn is_implied_directory(names: Seq<Seq<char>>, p: Seq<char>) -> bool {
    implied_before(names, names.len() as int, 0, p)
}

/// Whether the path is the root, or a parent of the normal form of one of the first `i`
/// names, or one of the first `k` parents of the name `i`.
pub open spec fn implied_before(names: Seq<Seq<char>>, i: int, k: int, p: Seq<char>) -> bool {
    p.len() == 0 || exists|n: int, m: int|
        0 <= n < names.len() && (n < i || (n == i && m < k)) && 0 <= m < parents(
            zip_normal(names[n]),
        ).len() && #[trigger] parents(zip_normal(names[n]))[m] == p
}

/// Whether a string of the given characters is among the strings.
pub open spec fn holds(v: Seq<String>, p: Seq<char>) -> bool {
    exists|j: int| 0 <= j < v.len() && (#[trigger] v[j])@ == p
}

/// The lower-case form of an ASCII letter; any other character is itself.
pub open spec fn lower(c: char) -> char {
    if 'A' <= c && c <= 'Z' {
        ((c as u8) + 32) as u8 as char
    } else {
        c
    }
}

/// Whether two strings are equal but for the case of their ASCII letters.
pub open spec fn same_ignoring_case(a: Seq<char>, b: Seq<char>) -> bool {
    a.len() == b.len() && forall|i: int| 0 <= i < a.len() ==> lower(#[trigger] a[i]) == lower(b[i])
}

/// The position of the first name from `from` on whose normal form is the path but for
/// the case of ASCII letters.
pub open spec fn first_match(names: Seq<Seq<char>>, p: Seq<char>, from: int) -> Option<int>
    decreases names.len() - from,
{
    if from < 0 || from >= names.len() {
        None
    } else if same_ignoring_case(p, zip_normal(names[from])) {
        Some(from)
    } else {
        first_match(names, p, from + 1)
    }
}

/// The position of the last entry of the given name in the listing, or -1 where no entry
/// has the name.
pub open spec fn last_index(list: Seq<(Seq<char>, Metadata)>, name: Seq<char>) -> int
    decreases list.len(),
{
    if list.len() == 0 {
        -1
    } else if list.last().0 == name {
        list.len() - 1
    } else {
        last_index(list.drop_last(), name)
    }
}

/// The listing with the entry of the given name set to the metadata: the last entry of
/// that name is replaced, and where there is none the entry is added at the end. A
/// directory stays a directory: a name that is listed as a directory is not listed as a
/// file again.
pub open spec fn upsert(
    list: Seq<(Seq<char>, Metadata)>,
    name: Seq<char>,
    metadata: Metadata,
) -> Seq<(Seq<char>, Metadata)> {
    let k = last_index(list, name);
    if k < 0 {
        list.push((name, metadata))
    } else if list[k].1.file_type == FileType::Directory && metadata.file_type
        != FileType::Directory {
        list
    } else {
        list.update(k, (name, metadata))
    }
}

/// The last entry of a name is the one that has the name and none of the name behind it.
pub proof fn lemma_last_index(list: Seq<(Seq<char>, Metadata)>, name: Seq<char>, j: int)
    requires
        -1 <= j < list.len(),
        forall|t: int| j < t < list.len() ==> (#[trigger] list[t]).0 != name,
        j >= 0 ==> list[j].0 == name,
    ensures
        last_index(list, name) == j,
    decreases list.len(),
{
    if list.len() > 0 && j < list.len() - 1 {
        assert(list[list.len() - 1].0 != name);
        lemma_last_index(list.drop_last(), name, j);
    }
}

/// An entry of the name is in the listing exactly where the last index of the name is
/// one.
pub proof fn lemma_last_index_found(list: Seq<(Seq<char>, Metadata)>, name: Seq<char>)
    ensures
        -1 <= last_index(list, name) < list.len(),
        last_index(list, name) >= 0 ==> list[last_index(list, name)].0 == name,
        last_index(list, name) < 0 ==> forall|t: int|
            0 <= t < list.len() ==> (#[trigger] list[t]).0 != name,
    decreases list.len(),
{
    if list.len() > 0 && list.last().0 != name {
        lemma_last_index_found(list.drop_last(), name);
        if last_index(list, name) < 0 {
            assert forall|t: int| 0 <= t < list.len() implies (#[trigger] list[t]).0 != name by {
                if t < list.len() - 1 {
                    assert(list.drop_last()[t].0 != name);
                }
            }
        }
    }
}

/// A virtual filesystem backed by a ZIP file. Only supports read operations.
#[derive(Debug)]
pub struct ZipFS {
    /// The archive.
    pub zip_file: ZipArchive<Cursor<Arc<[u8]>>>,
    /// The names of the entries, as the archive listed them when it was opened.
    pub names: Vec<String>,
    /// The directories that the names of the entries imply, in normal form.
    pub directories: Vec<String>,
    /// Whether a path that names no entry is looked up again without regard to case.
    pub fallback_search: bool,
}

impl ZipFS {
    /// Maps a failure of the archive to an error of this library.
    pub fn convert_error<T>(maybe_error: Result<T, ZipFailure>) -> (r: Result<T, Error>)
        ensures
            match maybe_error {
                Ok(v) => r == Ok::<T, Error>(v),
                Err(e) => r == Err::<T, Error>(converted(e)),
            },
    {
        match maybe_error {
            Ok(v) => Ok(v),
            Err(e) => Err(
                match e {
                    ZipFailure::FileNotFound => Error::new(ErrorKind::NotFound),
                    ZipFailure::Io(kind) => Error::new(kind),
                    ZipFailure::InvalidArchive => Error::new(ErrorKind::InvalidData),
                    ZipFailure::UnsupportedArchive => Error::new(ErrorKind::Unsupported),
                },
            ),
        }
    }
}

impl ZipFS {
    /// What opening the entry of the name gives: its size, `FileNotFound` where the archive
    /// holds no entry of the name, `UnsupportedArchive` where the entry does not open for
    /// want of a password, or the failure of the archive.
    pub open spec fn probe(&self, name: Seq<char>) -> Result<u64, ZipFailure> {
        if zip_locked(self.zip_file).contains(name) {
            Err(ZipFailure::UnsupportedArchive)
        } else if zip_sizes(self.zip_file).dom().contains(name) {
            zip_sizes(self.zip_file)[name]
        } else {
            Err(ZipFailure::FileNotFound)
        }
    }

    /// What reading the entry of the name gives: its bytes, `FileNotFound` where the
    /// archive holds no entry of the name, `UnsupportedArchive` where the entry does not
    /// open for want of a password, or the failure of the archive.
    pub open spec fn data(&self, name: Seq<char>) -> Result<Seq<u8>, ZipFailure> {
        if zip_locked(self.zip_file).contains(name) {
            Err(ZipFailure::UnsupportedArchive)
        } else if zip_sizes(self.zip_file).dom().contains(name) {
            zip_data(self.zip_file)[name]
        } else {
            Err(ZipFailure::FileNotFound)
        }
    }

    /// The name of the entry that a path in normal form stands for: the path itself where
    /// the archive opens an entry of that name; where it holds none, and the fallback is
    /// enabled, the first listed name whose normal form is the path but for the case of
    /// ASCII letters.
    pub open spec fn resolved(&self, p: Seq<char>) -> Result<Seq<char>, Error> {
        match self.probe(p) {
            Ok(_) => Ok(p),
            Err(ZipFailure::FileNotFound) => if self.fallback_search {
                match first_match(strs(self.names@), p, 0) {
                    Some(i) => Ok(self.names@[i]@),
                    None => Err(Error { kind: ErrorKind::NotFound }),
                }
            } else {
                Err(Error { kind: ErrorKind::NotFound })
            },
            Err(e) => Err(converted(e)),
        }
    }

    /// What the first `upto` listed names make of the listing of the directory at the
    /// names `d`: every entry below the directory lists the name by which the way to it
    /// leaves the directory, as a file of its size where the entry stands in the directory
    /// itself and as a directory where it stands deeper. An entry that the archive fails
    /// to open ends the listing with its failure.
    pub open spec fn listed(&self, d: Seq<Seq<char>>, upto: int) -> Result<
        Seq<(Seq<char>, Metadata)>,
        Error,
    >
        decreases upto,
    {
        if upto <= 0 || upto > self.names@.len() {
            Ok(Seq::empty())
        } else {
            match self.listed(d, upto - 1) {
                Err(e) => Err(e),
                Ok(before) => match self.probe(self.names@[upto - 1]@) {
                    Err(f) => Err(converted(f)),
                    Ok(size) => {
                        let c = components(self.names@[upto - 1]@);
                        if is_prefix(d, c) && c.len() > d.len() {
                            Ok(
                                upsert(
                                    before,
                                    c[d.len() as int],
                                    if c.len() == d.len() + 1 {
                                        Metadata::file(size)
                                    } else {
                                        Metadata::directory()
                                    },
                                ),
                            )
                        } else {
                            Ok(before)
                        }
                    },
                },
            }
        }
    }

    /// A directory that the names of the entries imply is a directory. Any other path has
    /// the size of the entry that it stands for, or the failure of finding or opening that
    /// entry.
    pub open spec fn metadata_at(&self, path: Seq<char>) -> Result<Metadata, Error> {
        let p = zip_normal(path);
        if is_implied_directory(strs(self.names@), p) {
            Ok(Metadata::directory())
        } else {
            match self.resolved(p) {
                Err(e) => Err(e),
                Ok(name) => match self.probe(name) {
                    Ok(size) => Ok(Metadata::file(size)),
                    Err(f) => Err(converted(f)),
                },
            }
        }
    }

    /// A path that is no implied directory fails with `NotFound`. A directory lists what
    /// the entries of the archive, in the order of their names, make of it.
    pub open spec fn read_dir_at(&self, path: Seq<char>) -> Result<
        Seq<(Seq<char>, Metadata)>,
        Error,
    > {
        if is_implied_directory(strs(self.names@), zip_normal(path)) {
            self.listed(components(path), self.names@.len() as int)
        } else {
            Err(Error { kind: ErrorKind::NotFound })
        }
    }

    /// Mounts a ZIP archive given by its bytes. A path must name an entry exactly. Bytes
    /// that do not open as an archive fail as the archive fails.
    pub fn new(zip_file: Vec<u8>) -> (r: Result<ZipFS, Error>)
        ensures
            match zip_opening(zip_file@) {
                Ok(_) => r is Ok,
                Err(f) => r is Err && r->Err_0 == converted(f),
            },
            r matches Ok(fs) ==> fs.wf() && !fs.fallback_search && archive_bytes(fs.zip_file)
                == zip_file@,
    {
        ZipFS::with_fallback_search(zip_file, false)
    }

    /// Mounts a ZIP archive given by its bytes. With `fallback_search`, a path that names
    /// no entry is looked up again without regard to the case of ASCII letters. Bytes that
    /// do not open as an archive fail as the archive fails.
    pub fn with_fallback_search(zip_file: Vec<u8>, fallback_search: bool) -> (r: Result<
        ZipFS,
        Error,
    >)
        ensures
            match zip_opening(zip_file@) {
                Ok(_) => r is Ok,
                Err(f) => r is Err && r->Err_0 == converted(f),
            },
            r matches Ok(fs) ==> fs.wf() && fs.fallback_search == fallback_search
                && archive_bytes(fs.zip_file) == zip_file@,
    {
        match ZipFS::convert_error(archive_open(zip_file)) {
            Ok(archive) => Ok(ZipFS::from_archive(archive, fallback_search)),
            Err(e) => Err(e),
        }
    }

    /// Mounts an archive: lists the names of its entries and collects the directories that
    /// the names imply.
    pub fn from_archive(archive: ZipArchive<Cursor<Arc<[u8]>>>, fallback_search: bool) -> (fs:
        ZipFS)
        ensures
            fs.wf(),
            fs.zip_file == archive,
            fs.fallback_search == fallback_search,
    {
        let names = archive_names(&archive);
        let ghost all = strs(names@);
        let mut directories: Vec<String> = Vec::new();
        directories.push(String::new());
        let mut i: usize = 0;
        proof {
            assert(directories@[0]@ =~= Seq::<char>::empty());
            assert forall|p: Seq<char>| holds(directories@, p) <==> implied_before(
                all,
                0,
                0,
                p,
            ) by {
                if p.len() == 0 {
                    assert(directories@[0]@ == p);
                }
            }
        }
        while i < names.len()
            invariant
                i <= names.len(),
                all == strs(names@),
                forall|p: Seq<char>|
                    holds(directories@, p) <==> implied_before(all, i as int, 0, p),
            decreases names.len() - i,
        {
            let normal = ZipFS::normalize_path(names[i].as_str());
            let above = parent_iter(normal.as_str());
            let ghost ps = parents(zip_normal(all[i as int]));
            proof {
                assert(all[i as int] == names@[i as int]@);
                assert(strs(above@) == ps);
            }
            let mut k: usize = 0;
            while k < above.len()
                invariant
                    k <= above.len(),
                    i < names.len(),
                    all == strs(names@),
                    ps == parents(zip_normal(all[i as int])),
                    strs(above@) == ps,
                    forall|p: Seq<char>|
                        holds(directories@, p) <==> implied_before(all, i as int, k as int, p),
                decreases above.len() - k,
            {
                let ghost held = directories@;
                let ghost added = above@[k as int]@;
                proof {
                    assert(ps[k as int] == added);
                }
                if !contains_string(&directories, &above[k]) {
                    directories.push(above[k].clone());
                }
                proof {
                    assert forall|p: Seq<char>| holds(directories@, p) <==> implied_before(
                        all,
                        i as int,
                        k + 1,
                        p,
                    ) by {
                        assert(implied_before(all, i as int, k as int, p) <==> holds(held, p));
                        if holds(directories@, p) {
                            let j = choose|j: int|
                                0 <= j < directories@.len() && (#[trigger] directories@[j])@ == p;
                            if j < held.len() {
                                assert(held[j]@ == p);
                                assert(holds(held, p));
                            } else {
                                assert(p == added);
                                assert(parents(zip_normal(all[i as int]))[k as int] == p);
                            }
                        }
                        if implied_before(all, i as int, k + 1, p) {
                            if implied_before(all, i as int, k as int, p) {
                                let j = choose|j: int|
                                    0 <= j < held.len() && (#[trigger] held[j])@ == p;
                                assert(directories@[j]@ == p);
                            } else {
                                assert(p == added);
                                if holds(held, added) {
                                    let j = choose|j: int|
                                        0 <= j < held.len() && (#[trigger] held[j])@ == added;
                                    assert(directories@[j]@ == p);
                                } else {
                                    assert(directories@[held.len() as int]@ == p);
                                }
                            }
                        }
                    }
                }
                k += 1;
            }
            proof {
                assert forall|p: Seq<char>| holds(directories@, p) <==> implied_before(
                    all,
                    i + 1,
                    0,
                    p,
                ) by {
                    assert(holds(directories@, p) <==> implied_before(
                        all,
                        i as int,
                        above@.len() as int,
                        p,
                    ));
                }
            }
            i += 1;
        }
        ZipFS { zip_file: archive, names, directories, fallback_search }
    }

    /// The names are those of the archive, each once, and the directories are those that
    /// the names imply.
    pub open spec fn wf(&self) -> bool {
        &&& forall|i: int, j: int|
            0 <= i < j < self.names@.len() ==> (#[trigger] self.names@[i])@ != (
            #[trigger] self.names@[j])@
        &&& forall|i: int|
            0 <= i < self.names@.len() ==> zip_sizes(self.zip_file).dom().contains(
                (#[trigger] self.names@[i])@,
            )
        &&& forall|name: Seq<char>| #[trigger]
            zip_sizes(self.zip_file).dom().contains(name) ==> holds(self.names@, name)
        &&& forall|p: Seq<char>|
            holds(self.directories@, p) <==> is_implied_directory(strs(self.names@), p)
    }

    /// The normal form of a path inside the archive.
    pub fn normalize_path(path: &str) -> (r: String)
        ensures
            r@ == zip_normal(path@),
            r@ == join(components(path@)),
    {
        // as far as can be told, the names of an archive are relative to its root
        let normal = normalize_path(path);
        proof {
            lemma_relative_normal_form(path@);
        }
        make_relative(normal.as_str())
    }

    /// Opens the entry of the name for its size, unless it does not open for want of a
    /// password.
    pub fn entry_size_of(&self, name: &str) -> (r: Result<u64, ZipFailure>)
        ensures
            r == self.probe(name@),
    {
        let password: Vec<u8> = Vec::new();
        if entry_locked(&self.zip_file, name, password.as_slice()) {
            Err(ZipFailure::UnsupportedArchive)
        } else {
            entry_size(&self.zip_file, name)
        }
    }

    /// Reads the entry of the name to its end, unless it does not open for want of a
    /// password.
    pub fn entry_bytes_of(&self, name: &str) -> (r: Result<Vec<u8>, ZipFailure>)
        ensures
            match self.data(name@) {
                Ok(bytes) => r is Ok && r->Ok_0@ == bytes,
                Err(e) => r is Err && r->Err_0 == e,
            },
    {
        let password: Vec<u8> = Vec::new();
        if entry_locked(&self.zip_file, name, password.as_slice()) {
            Err(ZipFailure::UnsupportedArchive)
        } else {
            entry_bytes(&self.zip_file, name)
        }
    }

    /// Finds the entry that a path in normal form stands for, as `resolved` says.
    pub fn with_file(&self, normalized_path: &str) -> (r: Result<String, Error>)
        requires
            self.wf(),
        ensures
            match self.resolved(normalized_path@) {
                Ok(name) => r is Ok && r->Ok_0@ == name,
                Err(e) => r == Err::<String, Error>(e),
            },
    {
        match self.entry_size_of(normalized_path) {
            Ok(_) => {
                return Ok(String::from_str(normalized_path));
            },
            Err(ZipFailure::FileNotFound) => {},
            Err(e) => {
                return Err(converted_error(e));
            },
        }
        if !self.fallback_search {
            return Err(not_found());
        }
        // as a fallback, search for it in linear time, case-insensitive
        let wanted = chars_of(normalized_path);
        let ghost all = strs(self.names@);
        let mut i: usize = 0;
        while i < self.names.len()
            invariant
                i <= self.names.len(),
                all == strs(self.names@),
                wanted@ == normalized_path@,
                self.resolved(normalized_path@) == match first_match(all, normalized_path@, 0) {
                    Some(i) => Ok::<Seq<char>, Error>(self.names@[i]@),
                    None => Err::<Seq<char>, Error>(Error { kind: ErrorKind::NotFound }),
                },
                first_match(all, normalized_path@, 0) == first_match(
                    all,
                    normalized_path@,
                    i as int,
                ),
            decreases self.names.len() - i,
        {
            let normal = ZipFS::normalize_path(self.names[i].as_str());
            let found = chars_of(normal.as_str());
            proof {
                assert(all[i as int] == self.names@[i as int]@);
            }
            if eq_ignore_ascii_case(&wanted, &found) {
                return Ok(self.names[i].clone());
            }
            i += 1;
        }
        Err(not_found())
    }
}

/// Maps a failure of the archive to an error of this library.
pub fn converted_error(e: ZipFailure) -> (r: Error)
    ensures
        r == converted(e),
{
    match e {
        ZipFailure::FileNotFound => Error::new(ErrorKind::NotFound),
        ZipFailure::Io(kind) => Error::new(kind),
        ZipFailure::InvalidArchive => Error::new(ErrorKind::InvalidData),
        ZipFailure::UnsupportedArchive => Error::new(ErrorKind::Unsupported),
    }
}

/// Whether a string of the same characters is among the strings.
pub fn contains_string(v: &Vec<String>, s: &String) -> (b: bool)
    ensures
        b == holds(v@, s@),
{
    let mut j: usize = 0;
    while j < v.len()
        invariant
            j <= v.len(),
            forall|t: int| 0 <= t < j ==> (#[trigger] v@[t])@ != s@,
        decreases v.len() - j,
    {
        if v[j] == *s {
            return true;
        }
        j += 1;
    }
    false
}

/// The lower-case form of an ASCII letter; any other character is itself.
pub fn to_ascii_lowercase(c: char) -> (r: char)
    ensures
        r == lower(c),
{
    if 'A' <= c && c <= 'Z' {
        ((c as u8) + 32) as char
    } else {
        c
    }
}

/// Whether two words are equal but for the case of their ASCII letters.
pub fn eq_ignore_ascii_case(a: &Vec<char>, b: &Vec<char>) -> (r: bool)
    ensures
        r == same_ignoring_case(a@, b@),
{
    if a.len() != b.len() {
        return false;
    }
    let mut i: usize = 0;
    while i < a.len()
        invariant
            i <= a.len(),
            a.len() == b.len(),
            forall|t: int| 0 <= t < i ==> lower(#[trigger] a@[t]) == lower(b@[t]),
        decreases a.len() - i,
    {
        if to_ascii_lowercase(a[i]) != to_ascii_lowercase(b[i]) {
            return false;
        }
        i += 1;
    }
    true
}

impl FileSystem for ZipFS {
    type File = FileHandle;

    open spec fn wf(&self) -> bool {
        ZipFS::wf(self)
    }

    /// `metadata` returns what `metadata_at` says.
    open spec fn metadata_outcome(&self, path: Seq<char>, r: Result<Metadata, Error>) -> bool {
        r == self.metadata_at(path)
    }

    /// `read_dir` returns what `read_dir_at` says.
    open spec fn read_dir_outcome(
        &self,
        path: Seq<char>,
        r: Result<Seq<(Seq<char>, Metadata)>, Error>,
    ) -> bool {
        r == self.read_dir_at(path)
    }

    /// Always `Unsupported`; nothing changes.
    open spec fn create_dir_outcome(
        &self,
        path: Seq<char>,
        r: Result<(), Error>,
        after: &Self,
    ) -> bool {
        r == Err::<(), Error>(Error { kind: ErrorKind::Unsupported }) && *after == *self
    }

    /// Always `Unsupported`; nothing changes.
    open spec fn remove_dir_outcome(
        &self,
        path: Seq<char>,
        r: Result<(), Error>,
        after: &Self,
    ) -> bool {
        r == Err::<(), Error>(Error { kind: ErrorKind::Unsupported }) && *after == *self
    }

    /// Always `Unsupported`; nothing changes.
    open spec fn remove_file_outcome(
        &self,
        path: Seq<char>,
        r: Result<(), Error>,
        after: &Self,
    ) -> bool {
        r == Err::<(), Error>(Error { kind: ErrorKind::Unsupported }) && *after == *self
    }

    /// Always `Unsupported`; nothing changes.
    open spec fn create_dir_all_outcome(
        &self,
        path: Seq<char>,
        r: Result<(), Error>,
        after: &Self,
    ) -> bool {
        r == Err::<(), Error>(Error { kind: ErrorKind::Unsupported }) && *after == *self
    }

    /// Options that ask for writing, or not for reading, fail with `Unsupported`.
    /// Otherwise the handle holds the bytes of the entry that the path stands for, with
    /// the cursor at the start and the read mode alone; finding, opening and reading the
    /// entry fail as the archive fails. Nothing changes.
    open spec fn open_outcome(
        &self,
        path: Seq<char>,
        options: OpenOptions,
        r: Result<FileHandle, Error>,
        after: &Self,
    ) -> bool {
        &&& *after == *self
        &&& if !options.read || options.write {
            r matches Err(e) && e.kind == ErrorKind::Unsupported
        } else {
            match self.resolved(zip_normal(path)) {
                Err(e) => r matches Err(f) && f == e,
                Ok(name) => match self.data(name) {
                    Ok(bytes) => {
                        &&& r matches Ok(handle)
                        &&& handle.contents@ == bytes
                        &&& handle.pos == 0
                        &&& handle.mode == FileModes { read: true, write: false }
                    },
                    Err(failure) => r matches Err(f) && f == converted(failure),
                },
            }
        }
    }

    fn create_dir(&mut self, _path: &str) -> (r: Result<(), Error>) {
        Err(not_supported())
    }

    fn metadata(&self, path: &str) -> (r: Result<Metadata, Error>) {
        let normalized_path = ZipFS::normalize_path(path);
        // try directories first
        if contains_string(&self.directories, &normalized_path) {
            return Ok(Metadata::directory());
        }
        // now files
        let name = match self.with_file(normalized_path.as_str()) {
            Ok(name) => name,
            Err(e) => {
                return Err(e);
            },
        };
        match self.entry_size_of(name.as_str()) {
            Ok(size) => Ok(Metadata::file(size)),
            Err(e) => Err(converted_error(e)),
        }
    }

    fn open_file_options(&mut self, path: &str, options: &OpenOptions) -> (r: Result<
        FileHandle,
        Error,
    >) {
        // ensure we only want to read
        if !options.read || options.write {
            return Err(not_supported());
        }
        let normalized_path = ZipFS::normalize_path(path);
        let name = match self.with_file(normalized_path.as_str()) {
            Ok(name) => name,
            Err(e) => {
                return Err(e);
            },
        };
        // read the whole entry into a readable buffer
        match self.entry_bytes_of(name.as_str()) {
            Ok(contents) => Ok(FileHandle::new(contents, FileModes { read: true, write: false })),
            Err(e) => Err(converted_error(e)),
        }
    }

    fn read_dir(&self, path: &str) -> (r: Result<Vec<DirEntry>, Error>) {
        let directory = ZipFS::normalize_path(path);
        // if there are no folders with this path, error out
        if !contains_string(&self.directories, &directory) {
            return Err(not_found());
        }
        let wanted = path_components(path);
        let ghost d = components(path@);
        let mut files: Vec<DirEntry> = Vec::new();
        let mut i: usize = 0;
        proof {
            assert(entries_view(files@) =~= Seq::empty());
        }
        while i < self.names.len()
            invariant
                i <= self.names.len(),
                d == strs(wanted@),
                d == components(path@),
                self.wf(),
                is_implied_directory(strs(self.names@), zip_normal(path@)),
                self.listed(d, i as int) == Ok::<Seq<(Seq<char>, Metadata)>, Error>(
                    entries_view(files@),
                ),
            decreases self.names.len() - i,
        {
            let size = match self.entry_size_of(self.names[i].as_str()) {
                Ok(size) => size,
                Err(e) => {
                    proof {
                        assert(self.probe(self.names@[i as int]@) == Err::<u64, ZipFailure>(e));
                        assert(self.listed(d, i + 1) == Err::<Seq<(Seq<char>, Metadata)>, Error>(
                            converted(e),
                        ));
                        self.lemma_listed_failure(d, i + 1, self.names@.len() as int);
                    }
                    return Err(converted_error(e));
                },
            };
            let inside = path_components(self.names[i].as_str());
            let ghost c = strs(inside@);
            if inside.len() > wanted.len() && starts_with_names(&inside, &wanted) {
                let metadata = if inside.len() == wanted.len() + 1 {
                    Metadata::file(size)
                } else {
                    Metadata::directory()
                };
                proof {
                    assert(c[d.len() as int] == inside@[wanted@.len() as int]@);
                }
                set_entry(&mut files, &inside[wanted.len()], metadata);
            }
            i += 1;
        }
        Ok(files)
    }

    fn remove_dir(&mut self, _path: &str) -> (r: Result<(), Error>) {
        Err(not_supported())
    }

    fn remove_file(&mut self, _path: &str) -> (r: Result<(), Error>) {
        Err(not_supported())
    }

    fn create_dir_all(&mut self, _path: &str) -> (r: Result<(), Error>) {
        Err(not_supported())
    }
}

impl ZipFS {
    /// A failure among the first names is the failure of every longer run of names.
    pub proof fn lemma_listed_failure(&self, d: Seq<Seq<char>>, upto: int, all: int)
        requires
            0 <= upto <= all <= self.names@.len(),
            self.listed(d, upto) is Err,
        ensures
            self.listed(d, all) == self.listed(d, upto),
        decreases all - upto,
    {
        if upto < all {
            self.lemma_listed_failure(d, upto, all - 1);
        }
    }
}

/// Whether the names begin with the names of `front`.
pub fn starts_with_names(names: &Vec<String>, front: &Vec<String>) -> (b: bool)
    ensures
        b == is_prefix(strs(front@), strs(names@)),
{
    if front.len() > names.len() {
        return false;
    }
    let ghost p = strs(front@);
    let ghost q = strs(names@);
    let mut i: usize = 0;
    while i < front.len()
        invariant
            i <= front.len() <= names.len(),
            p == strs(front@),
            q == strs(names@),
            q.take(i as int) == p.take(i as int),
        decreases front.len() - i,
    {
        if front[i] != names[i] {
            proof {
                assert(p[i as int] == front@[i as int]@);
                assert(q[i as int] == names@[i as int]@);
                assert(q.take(p.len() as int)[i as int] == q[i as int]);
            }
            return false;
        }
        proof {
            assert(p[i as int] == front@[i as int]@);
            assert(q[i as int] == names@[i as int]@);
            assert(q.take(i + 1) =~= q.take(i as int).push(q[i as int]));
            assert(p.take(i + 1) =~= p.take(i as int).push(p[i as int]));
        }
        i += 1;
    }
    proof {
        assert(p.take(p.len() as int) =~= p);
    }
    true
}

/// Sets the entry of the given name in the listing: replaces the last entry of that name,
/// or adds the entry at the end where there is none. A directory stays a directory.
pub fn set_entry(files: &mut Vec<DirEntry>, name: &String, metadata: Metadata)
    ensures
        entries_view(final(files)@) == upsert(entries_view(old(files)@), name@, metadata),
{
    let ghost list = entries_view(files@);
    let mut j: usize = files.len();
    while j > 0
        invariant
            j <= files.len(),
            list == entries_view(files@),
            files@ == old(files)@,
            forall|t: int| j <= t < files@.len() ==> (#[trigger] list[t]).0 != name@,
        decreases j,
    {
        j -= 1;
        if files[j].path == *name {
            proof {
                assert(list[j as int].0 == name@);
                assert(list[j as int].1 == files@[j as int].metadata);
                lemma_last_index(list, name@, j as int);
            }
            if files[j].metadata.is_directory() && !metadata.is_directory() {
                return;
            }
            let entry = DirEntry { path: name.clone(), metadata };
            files[j] = entry;
            proof {
                assert(entries_view(files@) =~= list.update(j as int, (name@, metadata)));
            }
            return;
        }
        proof {
            assert(list[j as int].0 == files@[j as int].path@);
        }
    }
    proof {
        lemma_last_index(list, name@, -1);
    }
    let entry = DirEntry { path: name.clone(), metadata };
    files.push(entry);
    proof {
        assert(entries_view(files@) =~= list.push((name@, metadata)));
    }
}

// ---------------------------------------------------------------------------------------
// Laws of the ZIP filesystem
// ---------------------------------------------------------------------------------------

/// The name by which the way from the directory at the names `d` to the entry at the
/// names `c` leaves the directory, where the entry lies below the directory.
pub open spec fn child_toward(d: Seq<Seq<char>>, c: Seq<Seq<char>>) -> Option<Seq<char>> {
    if is_prefix(d, c) && c.len() > d.len() {
        Some(c[d.len() as int])
    } else {
        None
    }
}

/// Whether the listing holds an entry of the name.
pub open spec fn lists(list: Seq<(Seq<char>, Metadata)>, name: Seq<char>) -> bool {
    exists|j: int| 0 <= j < list.len() && (#[trigger] list[j]).0 == name
}

/// Whether no name occurs twice in the listing.
pub open spec fn lists_once(list: Seq<(Seq<char>, Metadata)>) -> bool {
    forall|i: int, j: int|
        0 <= i < j < list.len() ==> (#[trigger] list[i]).0 != (#[trigger] list[j]).0
}

/// Setting an entry adds its name to the names of the listing and keeps each name once.
pub proof fn lemma_upsert_names(
    list: Seq<(Seq<char>, Metadata)>,
    name: Seq<char>,
    metadata: Metadata,
    other: Seq<char>,
)
    requires
        lists_once(list),
    ensures
        lists_once(upsert(list, name, metadata)),
        lists(upsert(list, name, metadata), other) <==> other == name || lists(list, other),
{
    lemma_last_index_found(list, name);
    let k = last_index(list, name);
    let after = upsert(list, name, metadata);
    if k >= 0 {
        assert forall|i: int, j: int| 0 <= i < j < after.len() implies (#[trigger] after[i]).0 != (
        #[trigger] after[j]).0 by {
            assert(list[i].0 != list[j].0);
        }
        assert(after[k].0 == name);
        if lists(list, other) {
            let j = choose|j: int| 0 <= j < list.len() && (#[trigger] list[j]).0 == other;
            assert(after[j].0 == other);
        }
        if lists(after, other) {
            let j = choose|j: int| 0 <= j < after.len() && (#[trigger] after[j]).0 == other;
            if j != k {
                assert(list[j].0 == other);
            }
        }
    } else {
        assert forall|i: int, j: int| 0 <= i < j < after.len() implies (#[trigger] after[i]).0 != (
        #[trigger] after[j]).0 by {
            if j == list.len() {
                assert(list[i].0 != name);
            } else {
                assert(list[i].0 != list[j].0);
            }
        }
        assert(after[list.len() as int].0 == name);
        if lists(list, other) {
            let j = choose|j: int| 0 <= j < list.len() && (#[trigger] list[j]).0 == other;
            assert(after[j].0 == other);
        }
        if lists(after, other) {
            let j = choose|j: int| 0 <= j < after.len() && (#[trigger] after[j]).0 == other;
            if j < list.len() {
                assert(list[j].0 == other);
            }
        }
    }
}

impl ZipFS {
    /// Whether one of the first `upto` entries lies below the directory at the names `d` on
    /// a way that leaves the directory by the name.
    pub open spec fn implies_child(&self, d: Seq<Seq<char>>, upto: int, name: Seq<char>) -> bool {
        exists|k: int|
            0 <= k < upto && k < self.names@.len() && child_toward(
                d,
                components((#[trigger] self.names@[k])@),
            ) == Some(name)
    }

    /// A listing holds each name once, and holds a name exactly where an entry of the
    /// archive lies below the directory on a way that leaves the directory by that name:
    /// the names listed are the names that the entries imply immediately under the
    /// directory.
    pub proof fn lemma_listed_names(&self, d: Seq<Seq<char>>, upto: int, name: Seq<char>)
        requires
            0 <= upto <= self.names@.len(),
            self.listed(d, upto) is Ok,
        ensures
            lists_once(self.listed(d, upto)->Ok_0),
            lists(self.listed(d, upto)->Ok_0, name) <==> self.implies_child(d, upto, name),
        decreases upto,
    {
        if upto > 0 {
            let before = self.listed(d, upto - 1)->Ok_0;
            self.lemma_listed_names(d, upto - 1, name);
            let c = components(self.names@[upto - 1]@);
            let size = self.probe(self.names@[upto - 1]@)->Ok_0;
            if self.implies_child(d, upto - 1, name) {
                let k = choose|k: int|
                    0 <= k < upto - 1 && k < self.names@.len() && child_toward(
                        d,
                        components((#[trigger] self.names@[k])@),
                    ) == Some(name);
                assert(child_toward(d, components(self.names@[k]@)) == Some(name));
            }
            if self.implies_child(d, upto, name) {
                let k = choose|k: int|
                    0 <= k < upto && k < self.names@.len() && child_toward(
                        d,
                        components((#[trigger] self.names@[k])@),
                    ) == Some(name);
                if k < upto - 1 {
                    assert(child_toward(d, components(self.names@[k]@)) == Some(name));
                    assert(self.implies_child(d, upto - 1, name));
                }
            }
            if child_toward(d, c) is Some {
                let metadata = if c.len() == d.len() + 1 {
                    Metadata::file(size)
                } else {
                    Metadata::directory()
                };
                lemma_upsert_names(before, c[d.len() as int], metadata, name);
                if name == c[d.len() as int] {
                    assert(child_toward(d, components(self.names@[upto - 1]@)) == Some(name));
                }
            }
        } else {
            assert(self.listed(d, upto)->Ok_0 =~= Seq::empty());
        }
    }

    /// Whether one of the first `upto` entries lies deeper than in the directory at the
    /// names `d`, on a way that leaves the directory by the name.
    pub open spec fn lies_deeper(&self, d: Seq<Seq<char>>, upto: int, name: Seq<char>) -> bool {
        exists|k: int|
            0 <= k < upto && k < self.names@.len() && child_toward(
                d,
                components((#[trigger] self.names@[k])@),
            ) == Some(name) && components(self.names@[k]@).len() > d.len() + 1
    }

    /// Whether one of the first `upto` entries stands in the directory at the names `d`
    /// under the name, and opens with the size.
    pub open spec fn stands_in(
        &self,
        d: Seq<Seq<char>>,
        upto: int,
        name: Seq<char>,
        size: u64,
    ) -> bool {
        exists|k: int|
            0 <= k < upto && k < self.names@.len() && child_toward(
                d,
                components((#[trigger] self.names@[k])@),
            ) == Some(name) && components(self.names@[k]@).len() == d.len() + 1 && self.probe(
                self.names@[k]@,
            ) == Ok::<u64, ZipFailure>(size)
    }

    /// Whether the entry is listed as the first `upto` entries ask: as a directory where an
    /// entry lies deeper under its name, and else as a file with the size of an entry that
    /// stands in the directory under its name.
    pub open spec fn listed_as_implied(
        &self,
        d: Seq<Seq<char>>,
        upto: int,
        entry: (Seq<char>, Metadata),
    ) -> bool {
        if self.lies_deeper(d, upto, entry.0) {
            entry.1 == Metadata::directory()
        } else {
            entry.1.file_type == FileType::File && self.stands_in(d, upto, entry.0, entry.1.len)
        }
    }

    /// Every name of a listing is listed as a directory where an entry of the archive lies
    /// deeper under it, and else as a file with the size of an entry of that name.
    pub proof fn lemma_listed_kinds(&self, d: Seq<Seq<char>>, upto: int, j: int)
        requires
            0 <= upto <= self.names@.len(),
            self.listed(d, upto) is Ok,
            0 <= j < self.listed(d, upto)->Ok_0.len(),
        ensures
            self.listed_as_implied(d, upto, self.listed(d, upto)->Ok_0[j]),
        decreases upto,
    {
        if upto > 0 {
            let last = upto - 1;
            let before = self.listed(d, last)->Ok_0;
            let now = self.listed(d, upto)->Ok_0;
            let c = components(self.names@[last]@);
            let size = self.probe(self.names@[last]@)->Ok_0;
            let entry = now[j];
            let name = entry.0;
            self.lemma_listed_names(d, last, name);
            lemma_last_index_found(before, name);
            // what the entries before the last one ask of the name still holds
            if self.lies_deeper(d, last, name) {
                let k = choose|k: int|
                    0 <= k < last && k < self.names@.len() && child_toward(
                        d,
                        components((#[trigger] self.names@[k])@),
                    ) == Some(name) && components(self.names@[k]@).len() > d.len() + 1;
                assert(child_toward(d, components(self.names@[k]@)) == Some(name));
                assert(self.lies_deeper(d, upto, name));
            }
            if self.lies_deeper(d, upto, name) && !self.lies_deeper(d, last, name) {
                let k = choose|k: int|
                    0 <= k < upto && k < self.names@.len() && child_toward(
                        d,
                        components((#[trigger] self.names@[k])@),
                    ) == Some(name) && components(self.names@[k]@).len() > d.len() + 1;
                if k < last {
                    assert(child_toward(d, components(self.names@[k]@)) == Some(name));
                    assert(self.lies_deeper(d, last, name));
                }
                assert(k == last);
            }
            if child_toward(d, c) == Some(name) {
                let metadata = if c.len() == d.len() + 1 {
                    Metadata::file(size)
                } else {
                    Metadata::directory()
                };
                let at = last_index(before, name);
                if at < 0 {
                    assert(j == before.len());
                    assert(entry == (name, metadata));
                    if self.lies_deeper(d, last, name) {
                        let k = choose|k: int|
                            0 <= k < last && k < self.names@.len() && child_toward(
                                d,
                                components((#[trigger] self.names@[k])@),
                            ) == Some(name) && components(self.names@[k]@).len() > d.len() + 1;
                        assert(child_toward(d, components(self.names@[k]@)) == Some(name));
                        assert(self.implies_child(d, last, name));
                    }
                } else {
                    if j != at {
                        assert(before[j].0 == name);
                        if j < at {
                            assert(before[j].0 != before[at].0);
                        } else {
                            assert(before[at].0 != before[j].0);
                        }
                    }
                    self.lemma_listed_kinds(d, last, at);
                    if self.stands_in(d, last, name, before[at].1.len) {
                        let k = choose|k: int|
                            0 <= k < last && k < self.names@.len() && child_toward(
                                d,
                                components((#[trigger] self.names@[k])@),
                            ) == Some(name) && components(self.names@[k]@).len() == d.len() + 1
                                && self.probe(self.names@[k]@) == Ok::<u64, ZipFailure>(
                                before[at].1.len,
                            );
                        assert(child_toward(d, components(self.names@[k]@)) == Some(name));
                    }
                }
                if c.len() == d.len() + 1 {
                    assert(child_toward(d, components(self.names@[last]@)) == Some(name));
                    assert(self.stands_in(d, upto, name, size));
                } else {
                    assert(child_toward(d, components(self.names@[last]@)) == Some(name));
                    assert(self.lies_deeper(d, upto, name));
                }
            } else {
                // the last entry says nothing of the name
                if child_toward(d, c) is Some {
                    let metadata = if c.len() == d.len() + 1 {
                        Metadata::file(size)
                    } else {
                        Metadata::directory()
                    };
                    lemma_last_index_found(before, c[d.len() as int]);
                    assert(j < before.len() && before[j] == entry);
                } else {
                    assert(before == now);
                }
                self.lemma_listed_kinds(d, last, j);
                if self.stands_in(d, last, name, entry.1.len) {
                    let k = choose|k: int|
                        0 <= k < last && k < self.names@.len() && child_toward(
                            d,
                            components((#[trigger] self.names@[k])@),
                        ) == Some(name) && components(self.names@[k]@).len() == d.len() + 1
                            && self.probe(self.names@[k]@) == Ok::<u64, ZipFailure>(entry.1.len);
                    assert(child_toward(d, components(self.names@[k]@)) == Some(name));
                    assert(self.stands_in(d, upto, name, entry.1.len));
                }
            }
        } else {
            assert(self.listed(d, upto)->Ok_0 =~= Seq::empty());
        }
    }

    /// The metadata of an entry reports the size that the archive records for it. This
    /// holds of every entry whose name is in normal form and is no implied directory.
    pub proof fn lemma_entry_metadata(&self, name: Seq<char>, size: u64)
        requires
            self.wf(),
            zip_sizes(self.zip_file).dom().contains(name),
            !zip_locked(self.zip_file).contains(name),
            zip_sizes(self.zip_file)[name] == Ok::<u64, ZipFailure>(size),
            zip_normal(name) == name,
            !is_implied_directory(strs(self.names@), name),
        ensures
            self.metadata_at(name) == Ok::<Metadata, Error>(Metadata::file(size)),
            self.metadata_at(name) matches Ok(m) && m.len == size,
    {
    }

    /// The root always exists, and a listing succeeds only where the metadata reports a
    /// directory.
    pub proof fn lemma_directories(&self, path: Seq<char>)
        ensures
            components(path).len() == 0 ==> self.metadata_at(path) == Ok::<Metadata, Error>(
                Metadata::directory(),
            ),
            self.read_dir_at(path) is Ok ==> self.metadata_at(path) == Ok::<Metadata, Error>(
                Metadata::directory(),
            ),
    {
        lemma_relative_normal_form(path);
    }

    /// Every operation treats a path as it treats the relative normal form of the path:
    /// leading separators, `.` and `..` change no outcome.
    pub proof fn lemma_normal_form_is_enough(
        &self,
        path: Seq<char>,
        options: OpenOptions,
        opened: Result<FileHandle, Error>,
        after: ZipFS,
    )
        ensures
            ({
                let normal = normalized(relative(path));
                &&& self.metadata_at(path) == self.metadata_at(normal)
                &&& self.read_dir_at(path) == self.read_dir_at(normal)
                &&& self.open_outcome(path, options, opened, &after) == self.open_outcome(
                    normal,
                    options,
                    opened,
                    &after,
                )
            }),
    {
        lemma_relative_normal_form(path);
        lemma_relative_normal_form(normalized(relative(path)));
    }
}

} // verus!
