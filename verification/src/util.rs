//! Path syntax shared by every backend: segments, normalization, components and parents.
//!
//! A path is a string whose segments are separated by `/` or `\`. All functions here are
//! pure: they never touch a filesystem.

use crate::error::{Error, ErrorKind};
use crate::FileSystem;
use vstd::prelude::*;

verus! {

/// `String::push` appends one character to the string.
pub assume_specification[ String::push ](s: &mut String, c: char)
    ensures
        final(s)@ == old(s)@.push(c),
;

/// Both the slash and the backslash separate segments.
pub open spec fn is_separator(c: char) -> bool {
    c == '/' || c == '\\'
}

/// The segment `.`, which names the directory it stands in.
pub open spec fn dot() -> Seq<char> {
    seq!['.']
}

/// The segment `..`, which names the parent directory.
pub open spec fn dot_dot() -> Seq<char> {
    seq!['.', '.']
}

/// No character of `w` is a separator.
pub open spec fn separator_free(w: Seq<char>) -> bool {
    forall|i: int| 0 <= i < w.len() ==> !is_separator(#[trigger] w[i])
}

/// A segment is a non-empty run of characters without a separator.
pub open spec fn is_segment(w: Seq<char>) -> bool {
    w.len() > 0 && separator_free(w)
}

/// A name is a segment other than `.` and `..`.
pub open spec fn is_name(w: Seq<char>) -> bool {
    is_segment(w) && w != dot() && w != dot_dot()
}

/// Every element of `ws` is a segment.
pub open spec fn all_segments(ws: Seq<Seq<char>>) -> bool {
    forall|i: int| 0 <= i < ws.len() ==> is_segment(#[trigger] ws[i])
}

/// Every element of `ws` is a name.
pub open spec fn all_names(ws: Seq<Seq<char>>) -> bool {
    forall|i: int| 0 <= i < ws.len() ==> is_name(#[trigger] ws[i])
}

/// Reading `s` from the left: the segments that a separator has closed, and the characters
/// of the segment that is still open at the end of `s`.
pub open spec fn scan(s: Seq<char>) -> (Seq<Seq<char>>, Seq<char>)
    decreases s.len(),
{
    if s.len() == 0 {
        (Seq::empty(), Seq::empty())
    } else {
        let (closed, open) = scan(s.drop_last());
        if is_separator(s.last()) {
            (
                if open.len() > 0 {
                    closed.push(open)
                } else {
                    closed
                },
                Seq::empty(),
            )
        } else {
            (closed, open.push(s.last()))
        }
    }
}

/// The segments of `s`: its maximal separator-free runs, left to right.
pub open spec fn segments(s: Seq<char>) -> Seq<Seq<char>> {
    let (closed, open) = scan(s);
    if open.len() > 0 {
        closed.push(open)
    } else {
        closed
    }
}

/// Resolves `.` and `..` among `segs`: `.` is dropped, `..` cancels the name before it and
/// is dropped where no name is left to cancel.
pub open spec fn resolve(segs: Seq<Seq<char>>) -> Seq<Seq<char>>
    decreases segs.len(),
{
    if segs.len() == 0 {
        Seq::empty()
    } else {
        let before = resolve(segs.drop_last());
        if segs.last() == dot() {
            before
        } else if segs.last() == dot_dot() {
            if before.len() > 0 {
                before.drop_last()
            } else {
                before
            }
        } else {
            before.push(segs.last())
        }
    }
}

/// The segments of `segs` that are names, in order; `.` and `..` are skipped, not resolved.
pub open spec fn only_names(segs: Seq<Seq<char>>) -> Seq<Seq<char>>
    decreases segs.len(),
{
    if segs.len() == 0 {
        Seq::empty()
    } else {
        let before = only_names(segs.drop_last());
        if segs.last() == dot() || segs.last() == dot_dot() {
            before
        } else {
            before.push(segs.last())
        }
    }
}

/// The segments of a path as its parents see them: every `.` is dropped, except one that
/// opens a path without a root.
pub open spec fn parts(segs: Seq<Seq<char>>, rooted: bool) -> Seq<Seq<char>>
    decreases segs.len(),
{
    if segs.len() == 0 {
        Seq::empty()
    } else {
        let before = parts(segs.drop_last(), rooted);
        if segs.last() == dot() && (rooted || segs.len() > 1) {
            before
        } else {
            before.push(segs.last())
        }
    }
}

/// The names joined by single slashes.
pub open spec fn join(names: Seq<Seq<char>>) -> Seq<char>
    decreases names.len(),
{
    if names.len() == 0 {
        Seq::empty()
    } else if names.len() == 1 {
        names[0]
    } else {
        join(names.drop_last()) + seq!['/'] + names.last()
    }
}

/// A path is rooted when it begins with a separator.
pub open spec fn is_rooted(s: Seq<char>) -> bool {
    s.len() > 0 && is_separator(s[0])
}

/// The joined names, behind a slash where the path is rooted.
pub open spec fn anchored(rooted: bool, names: Seq<Seq<char>>) -> Seq<char> {
    if rooted {
        seq!['/'] + join(names)
    } else {
        join(names)
    }
}

/// The names that a path leads through once `.` and `..` are resolved. The empty sequence
/// is the root.
pub open spec fn components(s: Seq<char>) -> Seq<Seq<char>> {
    resolve(segments(s))
}

/// The normal form of a path: its resolved names joined by slashes, behind one slash where
/// the path is rooted.
pub open spec fn normalized(s: Seq<char>) -> Seq<char> {
    anchored(is_rooted(s), components(s))
}

/// The path without its leading separators.
pub open spec fn relative(s: Seq<char>) -> Seq<char>
    decreases s.len(),
{
    if s.len() > 0 && is_separator(s[0]) {
        relative(s.drop_first())
    } else {
        s
    }
}

/// The names of a path as `component_iter` yields them.
pub open spec fn normal_components(s: Seq<char>) -> Seq<Seq<char>> {
    only_names(segments(s))
}

/// The parents of a path from the nearest to the farthest, the path itself and the empty
/// path left out.
pub open spec fn parents(s: Seq<char>) -> Seq<Seq<char>> {
    let ps = parts(segments(s), is_rooted(s));
    let count = if ps.len() == 0 {
        0
    } else if is_rooted(s) {
        ps.len() as int
    } else {
        ps.len() - 1
    };
    Seq::new(count as nat, |k: int| anchored(is_rooted(s), ps.take(ps.len() - 1 - k)))
}

/// The character sequences of a vector of words.
pub open spec fn words(v: Seq<Vec<char>>) -> Seq<Seq<char>> {
    Seq::new(v.len(), |i: int| v[i]@)
}

/// The character sequences of a vector of strings.
pub open spec fn strs(v: Seq<String>) -> Seq<Seq<char>> {
    Seq::new(v.len(), |i: int| v[i]@)
}

// ---------------------------------------------------------------------------------------
// Laws of the path syntax
// ---------------------------------------------------------------------------------------

/// Appending a separator-free word to a string only extends the open segment.
pub proof fn lemma_scan_word(x: Seq<char>, w: Seq<char>)
    requires
        separator_free(w),
    ensures
        scan(x + w) == (scan(x).0, scan(x).1 + w),
    decreases w.len(),
{
    if w.len() == 0 {
        assert(x + w =~= x);
        assert(scan(x).1 + w =~= scan(x).1);
    } else {
        let v = w.drop_last();
        lemma_scan_word(x, v);
        assert((x + w).drop_last() =~= x + v);
        assert((x + w).last() == w.last());
        assert(!is_separator(w[w.len() - 1]));
        assert((scan(x).1 + v).push(w.last()) =~= scan(x).1 + w);
    }
}

/// Two strings that scan alike still scan alike after the same continuation.
pub proof fn lemma_scan_extend(a: Seq<char>, b: Seq<char>, c: Seq<char>)
    requires
        scan(a) == scan(b),
    ensures
        scan(a + c) == scan(b + c),
    decreases c.len(),
{
    if c.len() == 0 {
        assert(a + c =~= a);
        assert(b + c =~= b);
    } else {
        lemma_scan_extend(a, b, c.drop_last());
        assert((a + c).drop_last() =~= a + c.drop_last());
        assert((b + c).drop_last() =~= b + c.drop_last());
    }
}

/// Every closed segment of a scan is a segment, and the open one holds no separator.
pub proof fn lemma_scan_clean(s: Seq<char>)
    ensures
        all_segments(scan(s).0),
        separator_free(scan(s).1),
    decreases s.len(),
{
    if s.len() > 0 {
        lemma_scan_clean(s.drop_last());
    }
}

/// The segments of any string are segments: non-empty and free of separators.
pub proof fn lemma_segments_clean(s: Seq<char>)
    ensures
        all_segments(segments(s)),
{
    lemma_scan_clean(s);
}

/// Resolving segments leaves names only.
pub proof fn lemma_resolve_names(segs: Seq<Seq<char>>)
    requires
        all_segments(segs),
    ensures
        all_names(resolve(segs)),
    decreases segs.len(),
{
    if segs.len() > 0 {
        assert forall|i: int| 0 <= i < segs.drop_last().len() implies is_segment(
            #[trigger] segs.drop_last()[i],
        ) by {
            assert(segs.drop_last()[i] == segs[i]);
        }
        lemma_resolve_names(segs.drop_last());
        assert(is_segment(segs[segs.len() - 1]));
    }
}

/// The components of any path are names.
pub proof fn lemma_components_are_names(s: Seq<char>)
    ensures
        all_names(components(s)),
{
    lemma_segments_clean(s);
    lemma_resolve_names(segments(s));
}

/// Names resolve to themselves, and all of them are kept as names.
pub proof fn lemma_names_are_resolved(names: Seq<Seq<char>>)
    requires
        all_names(names),
    ensures
        resolve(names) == names,
        only_names(names) == names,
        parts(names, true) == names,
        parts(names, false) == names,
    decreases names.len(),
{
    if names.len() > 0 {
        assert forall|i: int| 0 <= i < names.drop_last().len() implies is_name(
            #[trigger] names.drop_last()[i],
        ) by {
            assert(names.drop_last()[i] == names[i]);
        }
        lemma_names_are_resolved(names.drop_last());
        assert(is_name(names[names.len() - 1]));
        assert(names.drop_last().push(names.last()) =~= names);
    } else {
        assert(names =~= Seq::empty());
    }
}

/// Joined segments split into the same segments again.
pub proof fn lemma_segments_of_join(names: Seq<Seq<char>>)
    requires
        all_segments(names),
    ensures
        segments(join(names)) == names,
        scan(join(names)).1.len() > 0 <==> names.len() > 0,
    decreases names.len(),
{
    let empty = Seq::<char>::empty();
    if names.len() == 0 {
        assert(names =~= Seq::empty());
    } else if names.len() == 1 {
        let w = names[0];
        assert(is_segment(w));
        lemma_scan_word(empty, w);
        assert(empty + w =~= w);
        assert(scan(empty).1 + w =~= w);
        assert(Seq::<Seq<char>>::empty().push(w) =~= names);
    } else {
        let front = names.drop_last();
        let w = names.last();
        assert forall|i: int| 0 <= i < front.len() implies is_segment(#[trigger] front[i]) by {
            assert(front[i] == names[i]);
        }
        assert(is_segment(names[names.len() - 1]));
        lemma_segments_of_join(front);
        let j = join(front);
        let js = j + seq!['/'];
        assert(js.drop_last() =~= j);
        assert(js.last() == '/');
        assert(scan(js) == (segments(j), empty));
        lemma_scan_word(js, w);
        assert(scan(js).1 + w =~= w);
        assert(front.push(w) =~= names);
    }
}

/// A separator in front of a string adds no segment.
pub proof fn lemma_segments_behind_separator(c: char, s: Seq<char>)
    requires
        is_separator(c),
    ensures
        segments(seq![c] + s) == segments(s),
{
    let empty = Seq::<char>::empty();
    assert(seq![c].drop_last() =~= empty);
    assert(scan(seq![c]) == scan(empty));
    lemma_scan_extend(seq![c], empty, s);
    assert(empty + s =~= s);
}

/// Leading separators add no segment: a path and its relative form have the same segments.
pub proof fn lemma_segments_of_relative(s: Seq<char>)
    ensures
        segments(relative(s)) == segments(s),
        !is_rooted(relative(s)),
    decreases s.len(),
{
    if s.len() > 0 && is_separator(s[0]) {
        lemma_segments_of_relative(s.drop_first());
        lemma_segments_behind_separator(s[0], s.drop_first());
        assert(seq![s[0]] + s.drop_first() =~= s);
    }
}

/// A join of segments is rooted by no separator of its own.
pub proof fn lemma_join_not_rooted(names: Seq<Seq<char>>)
    requires
        all_segments(names),
    ensures
        !is_rooted(join(names)),
    decreases names.len(),
{
    if names.len() == 1 {
        assert(is_segment(names[0]));
        assert(!is_separator(names[0][0]));
    } else if names.len() > 1 {
        let front = names.drop_last();
        assert forall|i: int| 0 <= i < front.len() implies is_segment(#[trigger] front[i]) by {
            assert(front[i] == names[i]);
        }
        lemma_join_not_rooted(front);
        if front.len() == 1 {
            assert(is_segment(front[0]));
        } else {
            assert(front.len() > 1);
            assert(join(front) == join(front.drop_last()) + seq!['/'] + front.last());
        }
        assert(join(front).len() > 0);
        assert(join(names)[0] == join(front)[0]);
    }
}

/// Names are segments.
pub proof fn lemma_names_are_segments(names: Seq<Seq<char>>)
    requires
        all_names(names),
    ensures
        all_segments(names),
{
    assert forall|i: int| 0 <= i < names.len() implies is_segment(#[trigger] names[i]) by {
        assert(is_name(names[i]));
    }
}

/// A path in normal form leads through the same names as the path it came from, and is
/// rooted exactly when that path is.
pub proof fn lemma_components_of_normalized(s: Seq<char>)
    ensures
        components(normalized(s)) == components(s),
        is_rooted(normalized(s)) == is_rooted(s),
{
    let names = components(s);
    lemma_components_are_names(s);
    lemma_names_are_segments(names);
    lemma_segments_of_join(names);
    lemma_join_not_rooted(names);
    lemma_names_are_resolved(names);
    if is_rooted(s) {
        lemma_segments_behind_separator('/', join(names));
    }
}

/// Normalization is idempotent: a normal form is its own normal form.
pub proof fn lemma_normalize_idempotent(s: Seq<char>)
    ensures
        normalized(normalized(s)) == normalized(s),
{
    lemma_components_of_normalized(s);
}

/// Leading separators, `.` and resolved `..` change nothing: the relative normal form of a
/// path leads through the names of the path, is its own relative normal form, and is the
/// same whether the leading separators are removed before or after normalizing.
pub proof fn lemma_relative_normal_form(s: Seq<char>)
    ensures
        components(relative(s)) == components(s),
        normalized(relative(s)) == join(components(s)),
        relative(normalized(s)) == join(components(s)),
        components(join(components(s))) == components(s),
        normalized(relative(join(components(s)))) == join(components(s)),
{
    let names = components(s);
    let j = join(names);
    lemma_segments_of_relative(s);
    lemma_components_are_names(s);
    lemma_names_are_segments(names);
    lemma_join_not_rooted(names);
    lemma_segments_of_join(names);
    lemma_names_are_resolved(names);
    if is_rooted(s) {
        let n = seq!['/'] + j;
        assert(n.drop_first() =~= j);
        assert(relative(n) == relative(j));
    }
    assert(relative(j) == j);
}

/// The paths on which `create_dir_all` calls `create_dir`, in order: every stretch of the
/// normal form from its first name on, the shortest first. For the root it is the empty
/// path alone.
pub open spec fn creation_order(path: Seq<char>) -> Seq<Seq<char>> {
    let names = components(path);
    if names.len() == 0 {
        seq![Seq::<char>::empty()]
    } else {
        Seq::new(names.len(), |k: int| join(names.take(k + 1)))
    }
}

/// Whether calling `create_dir` on `paths[from..]` in order, from the state `fs` on, may
/// return `r` and leave `after`: a call that fails with anything but `AlreadyExists` ends
/// the run with its error.
pub open spec fn creates_all<FS: FileSystem>(
    fs: FS,
    paths: Seq<Seq<char>>,
    from: int,
    r: Result<(), Error>,
    after: FS,
) -> bool
    decreases paths.len() - from,
{
    if from >= paths.len() {
        r is Ok && after == fs
    } else {
        exists|mid: FS, step: Result<(), Error>|
            #![trigger fs.create_dir_outcome(paths[from], step, &mid)]
            {
                &&& fs.create_dir_outcome(paths[from], step, &mid)
                &&& mid.wf()
                &&& if step is Ok || step->Err_0.kind == ErrorKind::AlreadyExists {
                    creates_all(mid, paths, from + 1, r, after)
                } else {
                    r == step && after == mid
                }
            }
    }
}

/// The parents of a relative path in normal form are its shorter stretches, the longest
/// first.
pub proof fn lemma_parents_of_normal_form(names: Seq<Seq<char>>)
    requires
        all_names(names),
    ensures
        parents(join(names)) == Seq::new(
            if names.len() == 0 {
                0
            } else {
                (names.len() - 1) as nat
            },
            |k: int| join(names.take(names.len() - 1 - k)),
        ),
{
    lemma_names_are_segments(names);
    lemma_segments_of_join(names);
    lemma_join_not_rooted(names);
    lemma_names_are_resolved(names);
    assert(parents(join(names)) =~= Seq::new(
        if names.len() == 0 {
            0
        } else {
            (names.len() - 1) as nat
        },
        |k: int| join(names.take(names.len() - 1 - k)),
    ));
}

// ---------------------------------------------------------------------------------------
// Executable code
// ---------------------------------------------------------------------------------------

/// Returns an error indicating that the path already exists.
pub fn already_exists() -> (e: Error)
    ensures
        e.kind == ErrorKind::AlreadyExists,
{
    Error::new(ErrorKind::AlreadyExists)
}

/// Returns an error indicating that an argument is malformed. The message is not kept.
pub fn invalid_input(error: &str) -> (e: Error)
    ensures
        e.kind == ErrorKind::InvalidInput,
{
    let _ = error;
    Error::new(ErrorKind::InvalidInput)
}

/// Returns an error indicating that the path is malformed.
pub fn invalid_path() -> (e: Error)
    ensures
        e.kind == ErrorKind::InvalidInput,
{
    Error::new(ErrorKind::InvalidInput)
}

/// Returns an error indicating that the file was not found.
pub fn not_found() -> (e: Error)
    ensures
        e.kind == ErrorKind::NotFound,
{
    Error::new(ErrorKind::NotFound)
}

/// Returns an error indicating that the operation is not supported.
pub fn not_supported() -> (e: Error)
    ensures
        e.kind == ErrorKind::Unsupported,
{
    Error::new(ErrorKind::Unsupported)
}

/// The characters of a string.
pub fn chars_of(s: &str) -> (r: Vec<char>)
    ensures
        r@ == s@,
{
    let mut out: Vec<char> = Vec::new();
    for c in it: s.chars()
        invariant
            it.seq() == s@,
            out@ == s@.take(it.index() as int),
    {
        out.push(c);
        proof {
            let i = it.index() as int;
            assert(s@.take(i).push(c) =~= s@.take(i + 1));
        }
    }
    proof {
        assert(s@.take(s@.len() as int) =~= s@);
    }
    out
}

/// The characters of a word as a string.
pub fn word_to_string(w: &Vec<char>) -> (r: String)
    ensures
        r@ == w@,
{
    let mut out = String::new();
    let mut i: usize = 0;
    while i < w.len()
        invariant
            i <= w.len(),
            out@ == w@.take(i as int),
        decreases w.len() - i,
    {
        out.push(w[i]);
        proof {
            assert(w@.take(i as int).push(w@[i as int]) =~= w@.take(i + 1));
        }
        i += 1;
    }
    proof {
        assert(w@.take(w@.len() as int) =~= w@);
    }
    out
}

/// The words as strings.
pub fn words_to_strings(ws: &Vec<Vec<char>>) -> (r: Vec<String>)
    ensures
        strs(r@) == words(ws@),
{
    let mut out: Vec<String> = Vec::new();
    let mut i: usize = 0;
    while i < ws.len()
        invariant
            i <= ws.len(),
            strs(out@) == words(ws@).take(i as int),
        decreases ws.len() - i,
    {
        let ghost before = out@;
        let s = word_to_string(&ws[i]);
        out.push(s);
        proof {
            assert(strs(out@) =~= strs(before).push(s@));
            assert(words(ws@).take(i as int).push(ws@[i as int]@) =~= words(ws@).take(i + 1));
        }
        i += 1;
    }
    proof {
        assert(words(ws@).take(ws@.len() as int) =~= words(ws@));
    }
    out
}

/// Whether the path begins with a separator.
pub fn starts_at_root(path: &str) -> (b: bool)
    ensures
        b == is_rooted(path@),
{
    if path.unicode_len() == 0 {
        false
    } else {
        let c = path.get_char(0);
        c == '/' || c == '\\'
    }
}

/// Splits a path into its segments.
pub fn split_segments(path: &str) -> (r: Vec<Vec<char>>)
    ensures
        words(r@) == segments(path@),
{
    let mut closed: Vec<Vec<char>> = Vec::new();
    let mut open: Vec<char> = Vec::new();
    for c in it: path.chars()
        invariant
            it.seq() == path@,
            scan(path@.take(it.index() as int)) == (words(closed@), open@),
    {
        proof {
            let i = it.index() as int;
            assert(path@.take(i + 1).drop_last() =~= path@.take(i));
            assert(path@.take(i + 1).last() == c);
        }
        if c == '/' || c == '\\' {
            if open.len() > 0 {
                let ghost before = closed@;
                closed.push(open);
                proof {
                    assert(words(closed@) =~= words(before).push(open@));
                }
                open = Vec::new();
            }
            proof {
                assert(open@ =~= Seq::<char>::empty());
            }
        } else {
            open.push(c);
        }
    }
    proof {
        assert(path@.take(path@.len() as int) =~= path@);
    }
    if open.len() > 0 {
        let ghost before = closed@;
        closed.push(open);
        proof {
            assert(words(closed@) =~= words(before).push(open@));
        }
    }
    closed
}

/// Whether the word is `.`.
pub fn is_dot(w: &Vec<char>) -> (b: bool)
    ensures
        b == (w@ == dot()),
{
    let b = w.len() == 1 && w[0] == '.';
    proof {
        if b {
            assert(w@ =~= dot());
        }
    }
    b
}

/// Whether the word is `..`.
pub fn is_dot_dot(w: &Vec<char>) -> (b: bool)
    ensures
        b == (w@ == dot_dot()),
{
    let b = w.len() == 2 && w[0] == '.' && w[1] == '.';
    proof {
        if b {
            assert(w@ =~= dot_dot());
        }
    }
    b
}

/// Resolves `.` and `..` among the segments.
pub fn resolve_segments(segs: Vec<Vec<char>>) -> (r: Vec<Vec<char>>)
    ensures
        words(r@) == resolve(words(segs@)),
{
    let mut stack: Vec<Vec<char>> = Vec::new();
    let ghost all = words(segs@);
    for w in it: segs
        invariant
            it.seq() == segs@,
            all == words(segs@),
            words(stack@) == resolve(all.take(it.index() as int)),
    {
        proof {
            let i = it.index() as int;
            assert(all.take(i + 1).drop_last() =~= all.take(i));
            assert(all.take(i + 1).last() == w@);
        }
        let ghost before = stack@;
        if is_dot(&w) {
        } else if is_dot_dot(&w) {
            if stack.len() > 0 {
                stack.pop();
                proof {
                    assert(words(stack@) =~= words(before).drop_last());
                }
            }
        } else {
            stack.push(w);
            proof {
                assert(words(stack@) =~= words(before).push(w@));
            }
        }
    }
    proof {
        assert(all.take(all.len() as int) =~= all);
    }
    stack
}

/// Joins the first `count` names by slashes, behind a slash where `rooted` holds.
pub fn join_names(rooted: bool, names: &Vec<Vec<char>>, count: usize) -> (r: String)
    requires
        count <= names.len(),
    ensures
        r@ == anchored(rooted, words(names@).take(count as int)),
{
    let mut out = String::new();
    if rooted {
        out.push('/');
    }
    let ghost head: Seq<char> = if rooted {
        seq!['/']
    } else {
        Seq::empty()
    };
    let ghost all = words(names@);
    let mut i: usize = 0;
    proof {
        assert(out@ =~= head + join(all.take(0)));
    }
    while i < count
        invariant
            i <= count <= names.len(),
            all == words(names@),
            head == if rooted {
                seq!['/']
            } else {
                Seq::<char>::empty()
            },
            out@ == head + join(all.take(i as int)),
        decreases count - i,
    {
        if i > 0 {
            out.push('/');
        }
        let ghost start = out@;
        let w = &names[i];
        let mut k: usize = 0;
        while k < w.len()
            invariant
                k <= w.len(),
                out@ == start + w@.take(k as int),
            decreases w.len() - k,
        {
            out.push(w[k]);
            proof {
                assert(w@.take(k as int).push(w@[k as int]) =~= w@.take(k + 1));
            }
            k += 1;
        }
        proof {
            assert(w@.take(w@.len() as int) =~= w@);
            let next = all.take(i + 1);
            assert(next.drop_last() =~= all.take(i as int));
            assert(next.last() == w@);
            if i == 0 {
                assert(next.len() == 1);
                assert(join(all.take(0)) =~= Seq::<char>::empty());
                assert(out@ =~= head + join(next));
            } else {
                assert(out@ =~= head + join(next));
            }
        }
        i += 1;
    }
    proof {
        assert(head + join(all.take(count as int)) =~= anchored(rooted, all.take(count as int)));
    }
    out
}

/// Trims the `/` and `\` roots off of the beginning of the path, making it relative.
pub fn make_relative(path: &str) -> (r: String)
    ensures
        r@ == relative(path@),
{
    let mut out = String::new();
    let mut started = false;
    let ghost mut first: int = 0;
    proof {
        assert(path@.skip(0) =~= path@);
    }
    for c in it: path.chars()
        invariant
            it.seq() == path@,
            !started ==> out@.len() == 0 && relative(path@.skip(it.index() as int)) == relative(
                path@,
            ),
            started ==> 0 <= first <= it.index() && relative(path@) == path@.skip(first) && out@
                == path@.subrange(first, it.index() as int),
    {
        let ghost i = it.index() as int;
        if !started && (c == '/' || c == '\\') {
            proof {
                assert(path@.skip(i).drop_first() =~= path@.skip(i + 1));
            }
        } else {
            proof {
                if !started {
                    first = i;
                    assert(path@.skip(i)[0] == c);
                    assert(out@ =~= path@.subrange(first, i));
                }
                assert(path@.subrange(first, i).push(c) =~= path@.subrange(first, i + 1));
            }
            started = true;
            out.push(c);
        }
    }
    proof {
        let n = path@.len() as int;
        if started {
            assert(path@.subrange(first, n) =~= path@.skip(first));
        } else {
            assert(path@.skip(n) =~= Seq::<char>::empty());
            assert(out@ =~= Seq::<char>::empty());
        }
    }
    out
}

/// Normalizes a path by resolving `.` and `..`, collapsing runs of separators and using
/// forward slashes. A rooted path stays rooted.
pub fn normalize_path(path: &str) -> (r: String)
    ensures
        r@ == normalized(path@),
{
    let rooted = starts_at_root(path);
    let names = resolve_segments(split_segments(path));
    let out = join_names(rooted, &names, names.len());
    proof {
        assert(words(names@).take(names@.len() as int) =~= words(names@));
    }
    out
}

/// The names that the path leads through, `.` and `..` resolved.
pub fn path_components(path: &str) -> (r: Vec<String>)
    ensures
        strs(r@) == components(path@),
{
    let names = resolve_segments(split_segments(path));
    words_to_strings(&names)
}

/// Iterates over the names of a path, skipping roots, `.` and `..`. The result is a
/// vector, so it can be walked from either end.
pub fn component_iter(path: &str) -> (r: Vec<String>)
    ensures
        strs(r@) == normal_components(path@),
{
    let segs = split_segments(path);
    let mut out: Vec<String> = Vec::new();
    let ghost all = words(segs@);
    let mut i: usize = 0;
    while i < segs.len()
        invariant
            i <= segs.len(),
            all == words(segs@),
            strs(out@) == only_names(all.take(i as int)),
        decreases segs.len() - i,
    {
        proof {
            assert(all.take(i + 1).drop_last() =~= all.take(i as int));
            assert(all.take(i + 1).last() == segs@[i as int]@);
        }
        let w = &segs[i];
        if !is_dot(w) && !is_dot_dot(w) {
            let ghost before = out@;
            let s = word_to_string(w);
            out.push(s);
            proof {
                assert(strs(out@) =~= strs(before).push(s@));
            }
        }
        i += 1;
    }
    proof {
        assert(all.take(all.len() as int) =~= all);
    }
    out
}

/// Whether two words hold the same characters.
pub fn same_word(a: &Vec<char>, b: &Vec<char>) -> (r: bool)
    ensures
        r == (a@ == b@),
{
    if a.len() != b.len() {
        return false;
    }
    let mut i: usize = 0;
    while i < a.len()
        invariant
            i <= a.len(),
            a.len() == b.len(),
            a@.take(i as int) == b@.take(i as int),
        decreases a.len() - i,
    {
        if a[i] != b[i] {
            return false;
        }
        proof {
            assert(a@.take(i + 1) =~= a@.take(i as int).push(a@[i as int]));
            assert(b@.take(i + 1) =~= b@.take(i as int).push(b@[i as int]));
        }
        i += 1;
    }
    proof {
        assert(a@.take(a@.len() as int) =~= a@);
        assert(b@.take(b@.len() as int) =~= b@);
    }
    true
}

/// Splits a path into its parts: its segments without any `.`, except one that opens a
/// path without a root.
pub fn split_parts(path: &str) -> (r: Vec<Vec<char>>)
    ensures
        words(r@) == parts(segments(path@), is_rooted(path@)),
{
    let rooted = starts_at_root(path);
    let segs = split_segments(path);
    let ghost all = words(segs@);
    let mut kept: Vec<Vec<char>> = Vec::new();
    let mut first = true;
    for w in it: segs
        invariant
            it.seq() == segs@,
            all == words(segs@),
            first == (it.index() == 0),
            words(kept@) == parts(all.take(it.index() as int), rooted),
    {
        proof {
            let i = it.index() as int;
            assert(all.take(i + 1).drop_last() =~= all.take(i));
            assert(all.take(i + 1).last() == w@);
        }
        if is_dot(&w) && (rooted || !first) {
        } else {
            let ghost before = kept@;
            kept.push(w);
            proof {
                assert(words(kept@) =~= words(before).push(w@));
            }
        }
        first = false;
    }
    proof {
        assert(all.take(all.len() as int) =~= all);
    }
    kept
}

/// Produces all parent paths, nearest first, exclusive of `path` and of the empty path.
/// The result is a vector, so it can be walked from either end.
pub fn parent_iter(path: &str) -> (r: Vec<String>)
    ensures
        strs(r@) == parents(path@),
{
    let rooted = starts_at_root(path);
    let kept = split_parts(path);
    let ghost ps = words(kept@);
    let mut out: Vec<String> = Vec::new();
    let count: usize = if kept.len() == 0 {
        0
    } else if rooted {
        kept.len()
    } else {
        kept.len() - 1
    };
    let mut j: usize = 0;
    while j < count
        invariant
            j <= count <= kept.len(),
            count > 0 ==> kept.len() > 0,
            ps == words(kept@),
            out@.len() == j,
            forall|n: int|
                0 <= n < out@.len() ==> (#[trigger] out@[n])@ == anchored(
                    rooted,
                    ps.take(ps.len() - 1 - n),
                ),
        decreases count - j,
    {
        let s = join_names(rooted, &kept, kept.len() - 1 - j);
        out.push(s);
        j += 1;
    }
    proof {
        assert(strs(out@) =~= parents(path@));
    }
    out
}

/// Calls `create_dir` on each of the paths from `from` on.
fn create_each<FS: FileSystem>(fs: &mut FS, paths: &Vec<String>, from: usize) -> (r: Result<
    (),
    Error,
>)
    requires
        old(fs).wf(),
        from <= paths@.len(),
    ensures
        final(fs).wf(),
        creates_all(*old(fs), strs(paths@), from as int, r, *final(fs)),
    decreases paths@.len() - from,
{
    if from == paths.len() {
        return Ok(());
    }
    let ghost before = *fs;
    let step = fs.create_dir(paths[from].as_str());
    let ghost mid = *fs;
    let swallowed = match step {
        Ok(_) => true,
        Err(e) => e.kind() == ErrorKind::AlreadyExists,
    };
    if swallowed {
        let r = create_each(fs, paths, from + 1);
        proof {
            assert(before.create_dir_outcome(strs(paths@)[from as int], step, &mid));
        }
        r
    } else {
        proof {
            assert(before.create_dir_outcome(strs(paths@)[from as int], step, &mid));
        }
        step
    }
}

/// Creates all directories by creating the parent directories from the root downward and
/// then the directory itself. A call of `create_dir` that fails with `AlreadyExists` is
/// passed over; any other failure ends the run with its error.
pub fn create_dir_all<FS: FileSystem>(fs: &mut FS, path: &str) -> (r: Result<(), Error>)
    requires
        old(fs).wf(),
    ensures
        final(fs).wf(),
        creates_all(*old(fs), creation_order(path@), 0, r, *final(fs)),
{
    let rel = make_relative(path);
    let normal = normalize_path(rel.as_str());
    let ghost names = components(path@);
    proof {
        lemma_relative_normal_form(path@);
        lemma_components_are_names(path@);
        lemma_parents_of_normal_form(names);
    }
    let above = parent_iter(normal.as_str());
    let mut order: Vec<String> = Vec::new();
    let mut k: usize = above.len();
    while k > 0
        invariant
            k <= above.len(),
            order@.len() == above.len() - k,
            forall|j: int|
                0 <= j < order@.len() ==> (#[trigger] order@[j])@ == above@[above.len() - 1 - j]@,
        decreases k,
    {
        k -= 1;
        order.push(above[k].clone());
    }
    let ghost order_above = order@;
    order.push(normal);
    proof {
        let want = creation_order(path@);
        let n = names.len() as int;
        let ps = parents(normal@);
        assert(normal@ == join(names));
        assert(strs(above@) == ps);
        assert(strs(above@).len() == above@.len());
        assert(order@.len() == above@.len() + 1);
        assert forall|j: int| 0 <= j < order@.len() implies order@[j]@ == want[j] by {
            if j < above@.len() {
                assert(order@[j] == order_above[j]);
                assert(order_above[j]@ == above@[above@.len() - 1 - j]@);
                assert(strs(above@)[above@.len() - 1 - j] == above@[above@.len() - 1 - j]@);
                assert(ps[n - 2 - j] == join(names.take(n - 1 - (n - 2 - j))));
            } else {
                if n > 0 {
                    assert(names.take(n) =~= names);
                }
            }
        }
        assert(strs(order@) =~= want);
    }
    create_each(fs, &order, 0)
}

} // verus!
