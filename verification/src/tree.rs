//! The tree of directories and leaves behind the in-memory and the mountable filesystem.
//!
//! A directory lists its children by name, each name once. A leaf holds a payload of the
//! caller's choice. Paths into the tree are sequences of names.

use crate::error::{Error, ErrorKind};
use crate::util::{
    components, join, lemma_relative_normal_form, make_relative, normalize_path, normalized,
    not_found, path_components, relative, strs,
};
use vstd::pervasive::unreached;
use vstd::prelude::*;

verus! {

/// A directory in a tree-based filesystem: its children under their names.
pub type Directory<T> = Vec<(String, Entry<T>)>;

/// A node of the tree.
#[derive(Debug)]
pub enum Entry<T> {
    /// A directory and its children.
    Directory(Vec<(String, Entry<T>)>),
    /// A leaf and its payload.
    UserData(T),
}

/// What stands at a path, without what stands below it.
pub enum Node<T> {
    /// A directory.
    Directory,
    /// A leaf and its payload.
    UserData(T),
}

/// Where a walk along a path ends.
pub enum Reached<T> {
    /// The whole path was walked and ends at a directory with these children.
    Directory(Vec<(String, Entry<T>)>),
    /// The walk met a leaf; the names behind it were not walked.
    UserData(T, Seq<Seq<char>>),
    /// A directory on the way has no child of the next name.
    Nothing,
}

/// No name occurs twice among the children.
pub open spec fn distinct_names<T>(items: Seq<(String, Entry<T>)>) -> bool {
    forall|i: int, j: int|
        0 <= i < j < items.len() ==> (#[trigger] items[i]).0@ != (#[trigger] items[j]).0@
}

/// Whether a child of that name is among the children.
pub open spec fn has_name<T>(items: Seq<(String, Entry<T>)>, name: Seq<char>) -> bool {
    exists|i: int| 0 <= i < items.len() && (#[trigger] items[i]).0@ == name
}

/// The position of the child of that name.
pub open spec fn index_of<T>(items: Seq<(String, Entry<T>)>, name: Seq<char>) -> int {
    choose|i: int| 0 <= i < items.len() && (#[trigger] items[i]).0@ == name
}

/// `q` begins with `p`.
pub open spec fn is_prefix(p: Seq<Seq<char>>, q: Seq<Seq<char>>) -> bool {
    p.len() <= q.len() && q.take(p.len() as int) == p
}

impl<T> Entry<T> {
    /// Names are unique in every directory of the tree.
    pub open spec fn wf(self) -> bool
        decreases self,
    {
        match self {
            Entry::Directory(items) => distinct_names(items@) && forall|i: int|
                0 <= i < items@.len() ==> (#[trigger] items@[i]).1.wf(),
            Entry::UserData(_) => true,
        }
    }

    /// The entry that the path leads to.
    pub open spec fn at(self, path: Seq<Seq<char>>) -> Option<Entry<T>>
        decreases path.len(),
    {
        if path.len() == 0 {
            Some(self)
        } else {
            match self {
                Entry::Directory(items) => if has_name(items@, path[0]) {
                    items@[index_of(items@, path[0])].1.at(path.drop_first())
                } else {
                    None
                },
                Entry::UserData(_) => None,
            }
        }
    }

    /// This entry without what stands below it.
    pub open spec fn node(self) -> Node<T> {
        match self {
            Entry::Directory(_) => Node::Directory,
            Entry::UserData(t) => Node::UserData(t),
        }
    }

    /// What stands at the path, if anything.
    pub open spec fn get(self, path: Seq<Seq<char>>) -> Option<Node<T>> {
        match self.at(path) {
            Some(e) => Some(e.node()),
            None => None,
        }
    }

    /// Where a walk along the path ends: at the directory that the path names, at the first
    /// leaf on the way with the names left over, or nowhere.
    pub open spec fn reach(self, path: Seq<Seq<char>>) -> Reached<T>
        decreases path.len(),
    {
        match self {
            Entry::UserData(t) => Reached::UserData(t, path),
            Entry::Directory(items) => if path.len() == 0 {
                Reached::Directory(items)
            } else if has_name(items@, path[0]) {
                items@[index_of(items@, path[0])].1.reach(path.drop_first())
            } else {
                Reached::Nothing
            },
        }
    }

    /// `now` is this tree with the entry at `path` replaced by `sub`, and nothing else
    /// changed.
    pub open spec fn replaced(self, now: Entry<T>, path: Seq<Seq<char>>, sub: Entry<T>) -> bool
        decreases path.len(),
    {
        if path.len() == 0 {
            now == sub
        } else {
            &&& self matches Entry::Directory(a)
            &&& now matches Entry::Directory(b)
            &&& has_name(a@, path[0])
            &&& b@.len() == a@.len()
            &&& forall|j: int|
                0 <= j < a@.len() && j != index_of(a@, path[0]) ==> #[trigger] b@[j] == a@[j]
            &&& b@[index_of(a@, path[0])].0 == a@[index_of(a@, path[0])].0
            &&& a@[index_of(a@, path[0])].1.replaced(
                b@[index_of(a@, path[0])].1,
                path.drop_first(),
                sub,
            )
        }
    }

    /// What stands at `q` after every missing directory along `path` was created: a new
    /// directory where `q` is a stretch of `path` that led nowhere, and what stood there
    /// before anywhere else.
    pub open spec fn get_after_create_dir_all(
        self,
        path: Seq<Seq<char>>,
        q: Seq<Seq<char>>,
    ) -> Option<Node<T>> {
        if is_prefix(q, path) && self.reach(q) is Nothing {
            Some(Node::Directory)
        } else {
            self.get(q)
        }
    }
}

// ---------------------------------------------------------------------------------------
// Laws of the tree
// ---------------------------------------------------------------------------------------

/// Among distinct names, a child of a given name stands at one position only.
pub proof fn lemma_index_of<T>(items: Seq<(String, Entry<T>)>, i: int)
    requires
        distinct_names(items),
        0 <= i < items.len(),
    ensures
        has_name(items, items[i].0@),
        index_of(items, items[i].0@) == i,
{
    let k = index_of(items, items[i].0@);
    assert(0 <= k < items.len() && items[k].0@ == items[i].0@);
    if k < i {
        assert(items[k].0@ != items[i].0@);
    } else if i < k {
        assert(items[i].0@ != items[k].0@);
    }
}

/// Two paths that begin with the same name, the rest of one beginning with the rest of
/// the other: then the one begins with the other.
pub proof fn lemma_prefix_grows(p: Seq<Seq<char>>, q: Seq<Seq<char>>)
    requires
        p.len() > 0,
        q.len() > 0,
        p[0] == q[0],
        is_prefix(p.drop_first(), q.drop_first()),
    ensures
        is_prefix(p, q),
{
    let cut = q.take(p.len() as int);
    assert forall|j: int| 0 <= j < p.len() implies cut[j] == p[j] by {
        if j > 0 {
            assert(q.drop_first().take(p.len() - 1)[j - 1] == p.drop_first()[j - 1]);
        }
    }
    assert(cut =~= p);
}

/// A walk along `p` and then along `q` is a walk along both.
pub proof fn lemma_at_concat<T>(e: Entry<T>, p: Seq<Seq<char>>, q: Seq<Seq<char>>)
    ensures
        e.at(p + q) == match e.at(p) {
            Some(s) => s.at(q),
            None => None,
        },
    decreases p.len(),
{
    if p.len() == 0 {
        assert(p + q =~= q);
    } else {
        assert((p + q)[0] == p[0]);
        assert((p + q).drop_first() =~= p.drop_first() + q);
        match e {
            Entry::Directory(items) => {
                if has_name(items@, p[0]) {
                    lemma_at_concat(items@[index_of(items@, p[0])].1, p.drop_first(), q);
                }
            },
            Entry::UserData(_) => {},
        }
    }
}

/// A walk ends at a directory exactly where the path leads to that directory, and ends
/// nowhere or at a leaf on the way exactly where the path leads to no directory.
pub proof fn lemma_reach_at<T>(e: Entry<T>, path: Seq<Seq<char>>)
    ensures
        e.reach(path) matches Reached::Directory(items) ==> e.at(path) == Some(
            Entry::<T>::Directory(items),
        ),
        e.at(path) matches Some(Entry::Directory(items)) ==> e.reach(path) == Reached::<
            T,
        >::Directory(items),
        e.reach(path) is Nothing ==> e.at(path) is None,
        e.reach(path) matches Reached::UserData(t, rest) ==> {
            &&& rest.len() <= path.len()
            &&& rest == path.skip(path.len() - rest.len())
            &&& e.at(path.take(path.len() - rest.len())) == Some(Entry::<T>::UserData(t))
            &&& (rest.len() > 0 ==> e.at(path) is None)
        },
    decreases path.len(),
{
    match e {
        Entry::UserData(t) => {
            assert(path.skip(0) =~= path);
            assert(path.take(0) =~= Seq::<Seq<char>>::empty());
        },
        Entry::Directory(items) => {
            if path.len() > 0 && has_name(items@, path[0]) {
                let child = items@[index_of(items@, path[0])].1;
                let tail = path.drop_first();
                lemma_reach_at(child, tail);
                match child.reach(tail) {
                    Reached::UserData(t, rest) => {
                        let cut = tail.len() - rest.len();
                        assert(path.skip(cut + 1) =~= tail.skip(cut));
                        assert(path.take(cut + 1).drop_first() =~= tail.take(cut));
                        assert(path.take(cut + 1)[0] == path[0]);
                    },
                    _ => {},
                }
            }
        },
    }
}

/// A walk that meets a leaf along a path meets the same leaf along every longer path.
pub proof fn lemma_reach_leaf_extends<T>(e: Entry<T>, p: Seq<Seq<char>>, q: Seq<Seq<char>>)
    requires
        is_prefix(p, q),
        e.reach(p) is UserData,
    ensures
        e.reach(q) is UserData,
        e.reach(q)->UserData_0 == e.reach(p)->UserData_0,
    decreases p.len(),
{
    match e {
        Entry::UserData(_) => {},
        Entry::Directory(items) => {
            if p.len() > 0 {
                assert(q[0] == q.take(p.len() as int)[0]);
                if has_name(items@, p[0]) {
                    assert(q.drop_first().take(p.len() - 1) =~= q.take(
                        p.len() as int,
                    ).drop_first());
                    lemma_reach_leaf_extends(
                        items@[index_of(items@, p[0])].1,
                        p.drop_first(),
                        q.drop_first(),
                    );
                }
            }
        },
    }
}

/// Replacing the entry at a path changes what stands at and below that path, and nothing
/// else, as long as a directory is replaced by a directory or a leaf by a leaf.
pub proof fn lemma_replaced_get<T>(
    old: Entry<T>,
    now: Entry<T>,
    path: Seq<Seq<char>>,
    sub: Entry<T>,
    q: Seq<Seq<char>>,
)
    requires
        old.wf(),
        old.replaced(now, path, sub),
    ensures
        old.at(path) is Some,
        is_prefix(path, q) ==> now.at(q) == sub.at(q.skip(path.len() as int)),
        !is_prefix(path, q) && !is_prefix(q, path) ==> now.at(q) == old.at(q),
        is_prefix(q, path) && q.len() < path.len() ==> now.at(q) is Some && old.at(q) is Some
            && now.at(q)->0.node() == old.at(q)->0.node(),
    decreases path.len(),
{
    if path.len() == 0 {
        assert(q.skip(0) =~= q);
        assert(q.take(0) =~= path);
    } else {
        let a = old->Directory_0@;
        let b = now->Directory_0@;
        let k = index_of(a, path[0]);
        assert forall|j: int| 0 <= j < a.len() implies (#[trigger] b[j]).0@ == a[j].0@ by {
            if j != k {
                assert(b[j] == a[j]);
            }
        }
        assert(distinct_names(b)) by {
            assert forall|i: int, j: int| 0 <= i < j < b.len() implies (#[trigger] b[i]).0@ != (
            #[trigger] b[j]).0@ by {
                assert(a[i].0@ != a[j].0@);
            }
        }
        if q.len() > 0 {
            if has_name(a, q[0]) {
                let i = index_of(a, q[0]);
                assert(b[i].0@ == q[0]);
                lemma_index_of(b, i);
                if i == k {
                    assert(q[0] == path[0]);
                    lemma_replaced_get(a[k].1, b[k].1, path.drop_first(), sub, q.drop_first());
                    if q.len() >= path.len() {
                        assert(q.drop_first().skip(path.len() - 1) =~= q.skip(path.len() as int));
                        assert(q.drop_first().take(path.len() - 1) =~= q.take(
                            path.len() as int,
                        ).drop_first());
                        assert(q.take(path.len() as int)[0] == q[0]);
                        if is_prefix(path.drop_first(), q.drop_first()) {
                            lemma_prefix_grows(path, q);
                        }
                    }
                    if q.len() <= path.len() {
                        assert(path.drop_first().take(q.len() - 1) =~= path.take(
                            q.len() as int,
                        ).drop_first());
                        assert(path.take(q.len() as int)[0] == path[0]);
                        if is_prefix(q.drop_first(), path.drop_first()) {
                            lemma_prefix_grows(q, path);
                        }
                    }
                } else {
                    assert(b[i] == a[i]);
                    assert(q[0] != path[0]);
                    if q.len() >= path.len() {
                        assert(q.take(path.len() as int)[0] == q[0]);
                    }
                    if q.len() <= path.len() {
                        assert(path.take(q.len() as int)[0] == path[0]);
                    }
                }
            } else {
                if has_name(b, q[0]) {
                    let i = index_of(b, q[0]);
                    assert(a[i].0@ == q[0]);
                }
                assert(q[0] != path[0]);
                if q.len() >= path.len() {
                    assert(q.take(path.len() as int)[0] == q[0]);
                }
                if q.len() <= path.len() {
                    assert(path.take(q.len() as int)[0] == path[0]);
                }
            }
        } else {
            assert(path.take(0) =~= q);
        }
        lemma_replaced_get(a[k].1, b[k].1, path.drop_first(), sub, path.drop_first());
    }
}

/// Replacing an entry by a well-formed one keeps the tree well-formed.
pub proof fn lemma_replaced_wf<T>(old: Entry<T>, now: Entry<T>, path: Seq<Seq<char>>, sub: Entry<T>)
    requires
        old.wf(),
        sub.wf(),
        old.replaced(now, path, sub),
    ensures
        now.wf(),
    decreases path.len(),
{
    if path.len() > 0 {
        let a = old->Directory_0@;
        let b = now->Directory_0@;
        let k = index_of(a, path[0]);
        lemma_replaced_wf(a[k].1, b[k].1, path.drop_first(), sub);
        assert forall|i: int, j: int| 0 <= i < j < b.len() implies (#[trigger] b[i]).0@ != (
        #[trigger] b[j]).0@ by {
            assert(a[i].0@ != a[j].0@);
            if i != k {
                assert(b[i] == a[i]);
            }
            if j != k {
                assert(b[j] == a[j]);
            }
        }
        assert forall|i: int| 0 <= i < b.len() implies (#[trigger] b[i]).1.wf() by {
            if i != k {
                assert(b[i] == a[i]);
                assert(a[i].1.wf());
            }
        }
    }
}

/// `after` holds the children `items`, but for the child `name`: that child is `change`
/// where `change` is an entry, and is gone where it is none.
pub open spec fn child_set<T>(
    items: Seq<(String, Entry<T>)>,
    after: Seq<(String, Entry<T>)>,
    name: Seq<char>,
    change: Option<Entry<T>>,
) -> bool {
    match change {
        Some(e) => if has_name(items, name) {
            after == items.update(index_of(items, name), (items[index_of(items, name)].0, e))
        } else {
            after.len() == items.len() + 1 && after.drop_last() == items && after.last().0@ == name
                && after.last().1 == e
        },
        None => has_name(items, name) && after == items.remove(index_of(items, name)),
    }
}

/// Setting one child of a directory changes what stands at and below that child's name,
/// and nothing else.
pub proof fn lemma_child_set_at<T>(
    items: Vec<(String, Entry<T>)>,
    after: Vec<(String, Entry<T>)>,
    name: Seq<char>,
    change: Option<Entry<T>>,
    q: Seq<Seq<char>>,
)
    requires
        distinct_names(items@),
        child_set(items@, after@, name, change),
    ensures
        distinct_names(after@),
        has_name(after@, name) <==> change is Some,
        q.len() > 0 && q[0] == name ==> Entry::Directory(after).at(q) == match change {
            Some(e) => e.at(q.drop_first()),
            None => None,
        },
        q.len() > 0 && q[0] != name ==> Entry::Directory(after).at(q) == Entry::Directory(
            items,
        ).at(q),
        change matches Some(e) ==> has_name(after@, name) && after@[index_of(after@, name)].1 == e,
        forall|i: int|
            0 <= i < after@.len() && (#[trigger] after@[i]).0@ != name ==> has_name(
                items@,
                after@[i].0@,
            ) && items@[index_of(items@, after@[i].0@)] == after@[i],
{
    let a = items@;
    let b = after@;
    match change {
        Some(e) => {
            if has_name(a, name) {
                let k = index_of(a, name);
                assert forall|i: int, j: int| 0 <= i < j < b.len() implies (#[trigger] b[i]).0@ != (
                #[trigger] b[j]).0@ by {
                    assert(a[i].0@ != a[j].0@);
                }
                assert(b[k].0@ == name);
                lemma_index_of(b, k);
                assert forall|i: int|
                    0 <= i < b.len() && (#[trigger] b[i]).0@ != name implies has_name(a, b[i].0@)
                    && a[index_of(a, b[i].0@)] == b[i] by {
                    assert(i != k);
                    assert(a[i] == b[i]);
                    lemma_index_of(a, i);
                }
                if q.len() > 0 && q[0] != name {
                    if has_name(a, q[0]) {
                        let i = index_of(a, q[0]);
                        assert(b[i] == a[i]);
                        lemma_index_of(b, i);
                    } else if has_name(b, q[0]) {
                        let i = index_of(b, q[0]);
                        assert(a[i].0@ == q[0]);
                    }
                }
            } else {
                let k = a.len() as int;
                assert forall|i: int| 0 <= i < a.len() implies (#[trigger] b[i]) == a[i] by {
                    assert(b.drop_last()[i] == a[i]);
                }
                assert forall|i: int, j: int| 0 <= i < j < b.len() implies (#[trigger] b[i]).0@ != (
                #[trigger] b[j]).0@ by {
                    if j == k {
                        assert(a[i].0@ != name);
                    } else {
                        assert(a[i].0@ != a[j].0@);
                    }
                }
                assert(b[k].0@ == name);
                lemma_index_of(b, k);
                assert forall|i: int|
                    0 <= i < b.len() && (#[trigger] b[i]).0@ != name implies has_name(a, b[i].0@)
                    && a[index_of(a, b[i].0@)] == b[i] by {
                    assert(i != k);
                    assert(a[i] == b[i]);
                    lemma_index_of(a, i);
                }
                if q.len() > 0 && q[0] != name {
                    if has_name(a, q[0]) {
                        let i = index_of(a, q[0]);
                        assert(b[i] == a[i]);
                        lemma_index_of(b, i);
                    } else if has_name(b, q[0]) {
                        let i = index_of(b, q[0]);
                        assert(i != k);
                        assert(a[i].0@ == q[0]);
                    }
                }
            }
        },
        None => {
            let k = index_of(a, name);
            assert forall|i: int| 0 <= i < b.len() implies (#[trigger] b[i]) == a[if i < k {
                i
            } else {
                i + 1
            }] by {}
            assert forall|i: int, j: int| 0 <= i < j < b.len() implies (#[trigger] b[i]).0@ != (
            #[trigger] b[j]).0@ by {
                let i2 = if i < k {
                    i
                } else {
                    i + 1
                };
                let j2 = if j < k {
                    j
                } else {
                    j + 1
                };
                assert(a[i2].0@ != a[j2].0@);
            }
            if has_name(b, name) {
                let i = index_of(b, name);
                let i2 = if i < k {
                    i
                } else {
                    i + 1
                };
                assert(a[i2].0@ == name);
                lemma_index_of(a, i2);
            }
            assert forall|i: int| 0 <= i < b.len() && (#[trigger] b[i]).0@ != name implies has_name(
                a,
                b[i].0@,
            ) && a[index_of(a, b[i].0@)] == b[i] by {
                let i2 = if i < k {
                    i
                } else {
                    i + 1
                };
                assert(a[i2] == b[i]);
                lemma_index_of(a, i2);
            }
            if q.len() > 0 && q[0] != name {
                if has_name(a, q[0]) {
                    let i = index_of(a, q[0]);
                    assert(i != k);
                    let i2 = if i < k {
                        i
                    } else {
                        i - 1
                    };
                    assert(b[i2] == a[i]);
                    lemma_index_of(b, i2);
                } else if has_name(b, q[0]) {
                    let i = index_of(b, q[0]);
                    let i2 = if i < k {
                        i
                    } else {
                        i + 1
                    };
                    assert(a[i2].0@ == q[0]);
                }
            }
        },
    }
}

/// Setting one child of the directory at `parent` changes what stands at and below that
/// child's path, and nothing else; the tree stays well-formed.
pub proof fn lemma_child_changed<T>(
    old: Entry<T>,
    now: Entry<T>,
    parent: Seq<Seq<char>>,
    items: Vec<(String, Entry<T>)>,
    after: Vec<(String, Entry<T>)>,
    name: Seq<char>,
    change: Option<Entry<T>>,
)
    requires
        old.wf(),
        old.reach(parent) == Reached::<T>::Directory(items),
        old.replaced(now, parent, Entry::Directory(after)),
        child_set(items@, after@, name, change),
        change matches Some(e) ==> e.wf(),
    ensures
        now.wf(),
        now.node() == old.node(),
        forall|q: Seq<Seq<char>>| #[trigger]
            now.get(q) == if is_prefix(parent.push(name), q) {
                match change {
                    Some(e) => e.get(q.skip(parent.len() as int + 1)),
                    None => None,
                }
            } else {
                old.get(q)
            },
{
    lemma_reach_at(old, parent);
    let dir_old = Entry::Directory(items);
    let dir_now = Entry::Directory(after);
    assert(old.at(parent) == Some(dir_old));
    lemma_at_wf(old, parent);
    lemma_child_set_at(items, after, name, change, Seq::empty());
    assert(dir_now.wf()) by {
        assert forall|i: int| 0 <= i < after@.len() implies (#[trigger] after@[i]).1.wf() by {
            if after@[i].0@ != name {
                let k = index_of(items@, after@[i].0@);
                assert(items@[k].1.wf());
            } else {
                lemma_index_of(after@, i);
            }
        }
    }
    lemma_replaced_wf(old, now, parent, dir_now);
    lemma_replaced_get(old, now, parent, dir_now, Seq::empty());
    if parent.len() > 0 {
        assert(Seq::<Seq<char>>::empty().len() < parent.len());
        assert(parent.take(0) =~= Seq::<Seq<char>>::empty());
    }
    let target = parent.push(name);
    assert forall|q: Seq<Seq<char>>| #[trigger]
        now.get(q) == if is_prefix(target, q) {
            match change {
                Some(e) => e.get(q.skip(parent.len() as int + 1)),
                None => None,
            }
        } else {
            old.get(q)
        } by {
        lemma_replaced_get(old, now, parent, dir_now, q);
        if is_prefix(parent, q) {
            let rest = q.skip(parent.len() as int);
            assert(parent + rest =~= q);
            lemma_at_concat(old, parent, rest);
            lemma_child_set_at(items, after, name, change, rest);
            if is_prefix(target, q) {
                assert(q.take(target.len() as int)[parent.len() as int] == name);
                assert(rest[0] == name);
                assert(rest.drop_first() =~= q.skip(parent.len() as int + 1));
            } else if rest.len() > 0 {
                if rest[0] == name {
                    assert(q.take(target.len() as int) =~= target) by {
                        assert forall|j: int| 0 <= j < target.len() implies q.take(
                            target.len() as int,
                        )[j] == target[j] by {
                            if j < parent.len() {
                                assert(q.take(parent.len() as int)[j] == parent[j]);
                            }
                        }
                    }
                }
            }
        } else {
            if is_prefix(target, q) {
                assert(q.take(parent.len() as int) =~= q.take(target.len() as int).take(
                    parent.len() as int,
                ));
                assert(target.take(parent.len() as int) =~= parent);
            }
            if is_prefix(q, parent) && q.len() == parent.len() {
                assert(parent.take(parent.len() as int) =~= parent);
                assert(q.take(q.len() as int) =~= q);
            }
        }
    }
}

/// Every entry of a well-formed tree is well-formed.
pub proof fn lemma_at_wf<T>(e: Entry<T>, path: Seq<Seq<char>>)
    requires
        e.wf(),
    ensures
        e.at(path) matches Some(s) ==> s.wf(),
    decreases path.len(),
{
    if path.len() > 0 {
        match e {
            Entry::Directory(items) => {
                if has_name(items@, path[0]) {
                    let k = index_of(items@, path[0]);
                    assert(items@[k].1.wf());
                    lemma_at_wf(items@[k].1, path.drop_first());
                }
            },
            Entry::UserData(_) => {},
        }
    }
}

// ---------------------------------------------------------------------------------------
// Executable code
// ---------------------------------------------------------------------------------------

/// Normalizes a path by making it relative and resolving any backtracking.
pub fn normalize_and_relativize(p: &str) -> (r: String)
    ensures
        r@ == normalized(relative(p@)),
        r@ == join(components(p@)),
{
    let rel = make_relative(p);
    proof {
        lemma_relative_normal_form(p@);
    }
    normalize_path(rel.as_str())
}

/// Looks for the child of the given name.
pub fn find<T>(items: &Vec<(String, Entry<T>)>, name: &String) -> (r: Option<usize>)
    ensures
        r matches Some(i) ==> i < items@.len() && items@[i as int].0@ == name@,
        r is Some <==> has_name(items@, name@),
        distinct_names(items@) && r is Some ==> r->0 == index_of(items@, name@),
{
    let mut i: usize = 0;
    while i < items.len()
        invariant
            i <= items.len(),
            forall|j: int| 0 <= j < i ==> (#[trigger] items@[j]).0@ != name@,
        decreases items.len() - i,
    {
        if items[i].0 == *name {
            proof {
                if distinct_names(items@) {
                    lemma_index_of(items@, i as int);
                }
            }
            return Some(i);
        }
        i += 1;
    }
    None
}

/// Creates the directories that are missing along the names from `from` on.
pub fn ensure_directories<T>(entry: &mut Entry<T>, names: &Vec<String>, from: usize) -> (r: Result<
    (),
    Error,
>)
    requires
        old(entry).wf(),
        from <= names@.len(),
    ensures
        final(entry).wf(),
        final(entry).node() == old(entry).node(),
        r is Ok <==> !(old(entry).reach(strs(names@).skip(from as int)) is UserData),
        r matches Err(e) ==> e.kind == ErrorKind::NotFound,
        forall|q: Seq<Seq<char>>| #[trigger]
            final(entry).get(q) == old(entry).get_after_create_dir_all(
                strs(names@).skip(from as int),
                q,
            ),
    decreases names@.len() - from,
{
    let ghost path = strs(names@).skip(from as int);
    let ghost before = *entry;
    match entry {
        Entry::UserData(_) => {
            proof {
                assert forall|q: Seq<Seq<char>>| #[trigger]
                    before.get(q) == before.get_after_create_dir_all(path, q) by {}
            }
            Err(not_found())
        },
        Entry::Directory(items) => {
            if from == names.len() {
                proof {
                    assert forall|q: Seq<Seq<char>>| #[trigger]
                        before.get(q) == before.get_after_create_dir_all(path, q) by {
                        if is_prefix(q, path) {
                            assert(q.len() == 0);
                        }
                    }
                }
                return Ok(());
            }
            let ghost a = items@;
            let ghost name = names@[from as int]@;
            let ghost tail = strs(names@).skip(from + 1);
            proof {
                assert(path[0] == name);
                assert(path.drop_first() =~= tail);
            }
            let found = find(items, &names[from]);
            let k: usize = match found {
                Some(k) => k,
                None => {
                    items.push((names[from].clone(), Entry::Directory(Vec::new())));
                    items.len() - 1
                },
            };
            let ghost mid = items@;
            proof {
                if found is None {
                    assert(mid[k as int].0@ == name);
                    assert forall|i: int, j: int| 0 <= i < j < mid.len() implies (
                    #[trigger] mid[i]).0@ != (#[trigger] mid[j]).0@ by {
                        if j == a.len() {
                            assert(a[i].0@ != name);
                        } else {
                            assert(a[i].0@ != a[j].0@);
                        }
                    }
                    assert forall|i: int| 0 <= i < mid.len() implies (#[trigger] mid[i]).1.wf() by {
                        if i < a.len() {
                            assert(a[i].1.wf());
                        }
                    }
                }
                lemma_index_of(mid, k as int);
            }
            let ghost child = mid[k as int].1;
            let item = &mut items[k];
            let r = ensure_directories(&mut item.1, names, from + 1);
            proof {
                let b = items@;
                let grown = b[k as int].1;
                assert(b.len() == mid.len());
                assert forall|j: int| 0 <= j < b.len() implies (#[trigger] b[j]).0@
                    == mid[j].0@ by {}
                assert forall|i: int, j: int| 0 <= i < j < b.len() implies (#[trigger] b[i]).0@ != (
                #[trigger] b[j]).0@ by {
                    assert(mid[i].0@ != mid[j].0@);
                }
                assert forall|i: int| 0 <= i < b.len() implies (#[trigger] b[i]).1.wf() by {
                    if i != k {
                        assert(b[i] == mid[i]);
                        assert(mid[i].1.wf());
                    }
                }
                lemma_index_of(b, k as int);
                if found is Some {
                    assert(before.reach(path) == child.reach(tail));
                } else {
                    assert(child.reach(tail) is Directory || child.reach(tail) is Nothing);
                    assert(!has_name(a, name));
                    assert(!(before.reach(path) is UserData));
                }
                assert forall|q: Seq<Seq<char>>| #[trigger]
                    entry.get(q) == before.get_after_create_dir_all(path, q) by {
                    if q.len() == 0 {
                        assert(q.take(0) =~= q);
                    } else {
                        let rest = q.drop_first();
                        if q.len() <= path.len() {
                            assert(path.take(q.len() as int)[0] == path[0]);
                            assert(path.take(q.len() as int).drop_first() =~= tail.take(
                                q.len() - 1,
                            ));
                            if is_prefix(rest, tail) {
                                if q[0] == name {
                                    lemma_prefix_grows(q, path);
                                }
                            }
                        }
                        if q[0] == name {
                            assert(has_name(b, q[0]));
                            assert(entry.get(q) == grown.get(rest));
                            assert(grown.get(rest) == child.get_after_create_dir_all(tail, rest));
                            if found is Some {
                                assert(has_name(a, q[0]));
                                assert(before.get(q) == child.get(rest));
                                assert(before.reach(q) == child.reach(rest));
                            } else {
                                assert(before.get(q) is None);
                                assert(before.reach(q) is Nothing);
                                assert(child.at(rest) is Some ==> rest.len() == 0);
                                if rest.len() == 0 {
                                    assert(q.take(1) =~= q);
                                    assert(path.take(1) =~= seq![name]);
                                    assert(q =~= seq![name]);
                                    assert(path.take(q.len() as int) =~= q);
                                } else {
                                    assert(child.reach(rest) is Nothing);
                                }
                            }
                        } else {
                            if has_name(b, q[0]) {
                                let i = index_of(b, q[0]);
                                assert(i != k);
                                assert(b[i] == mid[i]);
                                if found is None {
                                    assert(i < a.len());
                                }
                                assert(a[i].0@ == q[0]);
                                lemma_index_of(a, i);
                            } else {
                                if has_name(a, q[0]) {
                                    let i = index_of(a, q[0]);
                                    assert(mid[i] == a[i]);
                                    assert(b[i].0@ == q[0]);
                                }
                            }
                        }
                    }
                }
            }
            r
        },
    }
}

/// Walks to the directory at the given names and hands it out for changes.
pub fn directory_mut<'a, T>(entry: &'a mut Entry<T>, names: &Vec<String>, from: usize) -> (r:
    &'a mut Vec<(String, Entry<T>)>)
    requires
        old(entry).wf(),
        from <= names@.len(),
        old(entry).reach(strs(names@).skip(from as int)) is Directory,
    ensures
        old(entry).reach(strs(names@).skip(from as int)) == Reached::<T>::Directory(*r),
        old(entry).replaced(
            *final(entry),
            strs(names@).skip(from as int),
            Entry::Directory(*final(r)),
        ),
    decreases names@.len() - from,
{
    let ghost path = strs(names@).skip(from as int);
    match entry {
        Entry::UserData(_) => {
            proof {
                assert(false);
            }
            unreached()
        },
        Entry::Directory(items) => {
            if from == names.len() {
                return items;
            }
            proof {
                assert(path[0] == names@[from as int]@);
                assert(path.drop_first() =~= strs(names@).skip(from + 1));
            }
            let found = find(items, &names[from]);
            let k: usize = match found {
                Some(k) => k,
                None => {
                    proof {
                        assert(false);
                    }
                    unreached()
                },
            };
            let item = &mut items[k];
            directory_mut(&mut item.1, names, from + 1)
        },
    }
}

/// Walks along the names from `from` up to `upto` to a leaf and hands its payload out for
/// changes.
pub fn leaf_mut<'a, T>(
    entry: &'a mut Entry<T>,
    names: &Vec<String>,
    from: usize,
    upto: usize,
) -> (r: &'a mut T)
    requires
        old(entry).wf(),
        from <= upto <= names@.len(),
        old(entry).at(strs(names@).subrange(from as int, upto as int)) matches Some(
            Entry::UserData(_),
        ),
    ensures
        old(entry).at(strs(names@).subrange(from as int, upto as int)) == Some(
            Entry::<T>::UserData(*r),
        ),
        old(entry).replaced(
            *final(entry),
            strs(names@).subrange(from as int, upto as int),
            Entry::UserData(*final(r)),
        ),
    decreases upto - from,
{
    let ghost path = strs(names@).subrange(from as int, upto as int);
    match entry {
        Entry::UserData(t) => {
            proof {
                assert(path.len() == 0);
            }
            t
        },
        Entry::Directory(items) => {
            proof {
                assert(path.len() > 0);
                assert(path[0] == names@[from as int]@);
                assert(path.drop_first() =~= strs(names@).subrange(from + 1, upto as int));
            }
            let found = find(items, &names[from]);
            let k: usize = match found {
                Some(k) => k,
                None => {
                    proof {
                        assert(false);
                    }
                    unreached()
                },
            };
            let item = &mut items[k];
            leaf_mut(&mut item.1, names, from + 1, upto)
        },
    }
}

/// Replacing a leaf by a leaf changes what stands at the path of that leaf, and nothing
/// else.
pub proof fn lemma_leaf_replaced<T>(
    old: Entry<T>,
    now: Entry<T>,
    path: Seq<Seq<char>>,
    before: T,
    after: T,
    q: Seq<Seq<char>>,
)
    requires
        old.wf(),
        old.at(path) == Some(Entry::<T>::UserData(before)),
        old.replaced(now, path, Entry::UserData(after)),
    ensures
        now.wf(),
        now.node() is Directory <==> old.node() is Directory,
        now.get(q) == if q == path {
            Some(Node::UserData(after))
        } else {
            old.get(q)
        },
{
    let sub = Entry::UserData(after);
    lemma_replaced_wf(old, now, path, sub);
    lemma_replaced_get(old, now, path, sub, q);
    lemma_replaced_get(old, now, path, sub, Seq::empty());
    if path.len() > 0 {
        assert(path.take(0) =~= Seq::<Seq<char>>::empty());
    }
    if is_prefix(path, q) {
        let rest = q.skip(path.len() as int);
        assert(path + rest =~= q);
        lemma_at_concat(old, path, rest);
        if rest.len() == 0 {
            assert(q.take(q.len() as int) =~= q);
            assert(sub.at(rest) == Some(sub));
        } else {
            assert(sub.at(rest) is None);
            assert(Entry::UserData(before).at(rest) is None);
        }
    } else {
        if q.len() == path.len() {
            assert(q.take(q.len() as int) =~= q);
            assert(path.take(path.len() as int) =~= path);
        }
    }
}

impl<T> Default for Entry<T> {
    /// An empty directory.
    fn default() -> (e: Entry<T>)
        ensures
            e matches Entry::Directory(items) && items@.len() == 0,
    {
        Entry::Directory(Vec::new())
    }
}

/// A tree-based filesystem with directories and other data.
#[derive(Debug)]
pub struct FilesystemTree<T> {
    /// The root of the tree, always a directory.
    pub root: Entry<T>,
}

impl<T> FilesystemTree<T> {
    /// The root is a directory and names are unique in every directory.
    pub open spec fn wf(&self) -> bool {
        self.root is Directory && self.root.wf()
    }

    /// What stands at the path, if anything.
    pub open spec fn get(&self, path: Seq<Seq<char>>) -> Option<Node<T>> {
        self.root.get(path)
    }

    /// Where a walk from the root along the path ends.
    pub open spec fn reach(&self, path: Seq<Seq<char>>) -> Reached<T> {
        self.root.reach(path)
    }

    /// A tree that holds the root directory and nothing else.
    pub fn new() -> (t: FilesystemTree<T>)
        ensures
            t.wf(),
            t.root matches Entry::Directory(items) && items@.len() == 0,
            forall|q: Seq<Seq<char>>| #[trigger]
                t.get(q) == if q.len() == 0 {
                    Some(Node::<T>::Directory)
                } else {
                    None
                },
    {
        let t = FilesystemTree { root: Entry::Directory(Vec::new()) };
        t
    }

    /// Finds the directory at the given names. Names that lead to a leaf or nowhere fail
    /// with `NotFound`.
    pub fn directory_at(&self, names: &Vec<String>) -> (r: Result<&Vec<(String, Entry<T>)>, Error>)
        requires
            self.wf(),
        ensures
            match self.reach(strs(names@)) {
                Reached::Directory(items) => r == Ok::<&Vec<(String, Entry<T>)>, Error>(&items),
                _ => r == Err::<&Vec<(String, Entry<T>)>, Error>(
                    Error { kind: ErrorKind::NotFound },
                ),
            },
    {
        let ghost all = strs(names@);
        let mut entry: &Entry<T> = &self.root;
        let mut i: usize = 0;
        proof {
            assert(all.skip(0) =~= all);
        }
        while i < names.len()
            invariant
                i <= names.len(),
                all == strs(names@),
                entry.wf(),
                self.root.reach(all) == entry.reach(all.skip(i as int)),
            decreases names.len() - i,
        {
            proof {
                assert(all.skip(i as int)[0] == names@[i as int]@);
                assert(all.skip(i as int).drop_first() =~= all.skip(i + 1));
            }
            match entry {
                Entry::Directory(items) => {
                    match find(items, &names[i]) {
                        Some(k) => {
                            entry = &items[k].1;
                        },
                        None => {
                            return Err(not_found());
                        },
                    }
                },
                Entry::UserData(_) => {
                    return Err(not_found());
                },
            }
            i += 1;
        }
        match entry {
            Entry::Directory(items) => Ok(items),
            Entry::UserData(_) => Err(not_found()),
        }
    }

    /// How many names lead to the first leaf on the way along the names, if there is one.
    pub fn leaf_depth(&self, names: &Vec<String>) -> (r: Option<usize>)
        requires
            self.wf(),
        ensures
            match self.reach(strs(names@)) {
                Reached::UserData(t, rest) => r == Some((names@.len() - rest.len()) as usize)
                    && rest.len() <= names@.len(),
                _ => r is None,
            },
    {
        let ghost all = strs(names@);
        let mut entry: &Entry<T> = &self.root;
        let mut i: usize = 0;
        proof {
            assert(all.skip(0) =~= all);
        }
        while i < names.len()
            invariant
                i <= names.len(),
                all == strs(names@),
                entry.wf(),
                self.root.reach(all) == entry.reach(all.skip(i as int)),
            decreases names.len() - i,
        {
            proof {
                assert(all.skip(i as int)[0] == names@[i as int]@);
                assert(all.skip(i as int).drop_first() =~= all.skip(i + 1));
            }
            match entry {
                Entry::Directory(items) => {
                    match find(items, &names[i]) {
                        Some(k) => {
                            entry = &items[k].1;
                        },
                        None => {
                            return None;
                        },
                    }
                },
                Entry::UserData(_) => {
                    return Some(i);
                },
            }
            i += 1;
        }
        match entry {
            Entry::Directory(_) => None,
            Entry::UserData(_) => Some(i),
        }
    }

    /// What stands under a name in a directory is what the directory holds under it.
    pub proof fn lemma_child(&self, parent: Seq<Seq<char>>, name: Seq<char>)
        requires
            self.wf(),
        ensures
            self.reach(parent) matches Reached::Directory(items) ==> {
                &&& distinct_names(items@)
                &&& self.root.at(parent) == Some(Entry::<T>::Directory(items))
                &&& (has_name(items@, name) ==> self.root.at(parent.push(name)) == Some(
                    items@[index_of(items@, name)].1,
                ))
                &&& (!has_name(items@, name) ==> self.root.at(parent.push(name)) is None)
            },
            !(self.reach(parent) is Directory) ==> !(self.root.at(parent) matches Some(
                Entry::Directory(_),
            )) && self.root.at(parent.push(name)) is None,
    {
        lemma_reach_at(self.root, parent);
        lemma_at_wf(self.root, parent);
        lemma_at_concat(self.root, parent, seq![name]);
        assert(parent + seq![name] =~= parent.push(name));
        assert(seq![name].drop_first() =~= Seq::<Seq<char>>::empty());
        match self.reach(parent) {
            Reached::Directory(items) => {
                if has_name(items@, name) {
                    let child = items@[index_of(items@, name)].1;
                    assert(child.at(seq![name].drop_first()) == Some(child));
                }
            },
            Reached::UserData(t, rest) => {
                if rest.len() == 0 {
                    assert(parent.take(parent.len() as int) =~= parent);
                }
            },
            Reached::Nothing => {},
        }
    }

    /// Creates all directories specified in `path`, including the last one. A leaf on
    /// the way stops the walk with `NotFound`; the directories created before it stay.
    pub fn create_dir_all(&mut self, path: &str) -> (r: Result<(), Error>)
        requires
            old(self).wf(),
        ensures
            final(self).wf(),
            r is Ok <==> !(old(self).reach(components(path@)) is UserData),
            r matches Err(e) ==> e.kind == ErrorKind::NotFound,
            forall|q: Seq<Seq<char>>| #[trigger]
                final(self).get(q) == old(self).root.get_after_create_dir_all(
                    components(path@),
                    q,
                ),
    {
        let names = path_components(path);
        proof {
            assert(strs(names@).skip(0) =~= strs(names@));
        }
        ensure_directories(&mut self.root, &names, 0)
    }

    /// Finds the directory at the path. A path that leads to a leaf or nowhere fails with
    /// `NotFound`.
    pub fn with_directory(&self, path: &str) -> (r: Result<&Vec<(String, Entry<T>)>, Error>)
        requires
            self.wf(),
        ensures
            match self.reach(components(path@)) {
                Reached::Directory(items) => r == Ok::<&Vec<(String, Entry<T>)>, Error>(&items),
                _ => r == Err::<&Vec<(String, Entry<T>)>, Error>(
                    Error { kind: ErrorKind::NotFound },
                ),
            },
    {
        match self.with_entry(path) {
            Ok(Ok(items)) => Ok(items),
            Ok(Err(_)) => Err(not_found()),
            Err(e) => Err(e),
        }
    }

    /// Walks the path: finds the directory that it names, or the first leaf on the way
    /// together with the rest of the path, joined by slashes. A directory without a child
    /// of the next name fails with `NotFound`.
    pub fn with_entry(&self, path: &str) -> (r: Result<
        Result<&Vec<(String, Entry<T>)>, (&T, String)>,
        Error,
    >)
        requires
            self.wf(),
        ensures
            match self.reach(components(path@)) {
                Reached::Directory(items) => r == Ok::<
                    Result<&Vec<(String, Entry<T>)>, (&T, String)>,
                    Error,
                >(Ok(&items)),
                Reached::UserData(t, rest) => r matches Ok(Err(found)) && *found.0 == t
                    && found.1@ == join(rest),
                Reached::Nothing => r == Err::<
                    Result<&Vec<(String, Entry<T>)>, (&T, String)>,
                    Error,
                >(Error { kind: ErrorKind::NotFound }),
            },
    {
        let names = path_components(path);
        let ghost all = strs(names@);
        let mut entry: &Entry<T> = &self.root;
        let mut i: usize = 0;
        proof {
            assert(all.skip(0) =~= all);
        }
        while i < names.len()
            invariant
                i <= names.len(),
                all == strs(names@),
                all == components(path@),
                entry.wf(),
                self.root.reach(all) == entry.reach(all.skip(i as int)),
            decreases names.len() - i,
        {
            proof {
                assert(all.skip(i as int)[0] == names@[i as int]@);
                assert(all.skip(i as int).drop_first() =~= all.skip(i + 1));
            }
            match entry {
                Entry::Directory(items) => {
                    match find(items, &names[i]) {
                        Some(k) => {
                            entry = &items[k].1;
                        },
                        None => {
                            return Err(not_found());
                        },
                    }
                },
                Entry::UserData(t) => {
                    let rest = rest_of(&names, i);
                    return Ok(Err((t, rest)));
                },
            }
            i += 1;
        }
        match entry {
            Entry::Directory(items) => Ok(Ok(items)),
            Entry::UserData(t) => {
                let rest = rest_of(&names, i);
                Ok(Err((t, rest)))
            },
        }
    }
}

impl<T> Default for FilesystemTree<T> {
    /// A tree that holds the root directory and nothing else.
    fn default() -> (t: FilesystemTree<T>)
        ensures
            t.wf(),
            t.root matches Entry::Directory(items) && items@.len() == 0,
    {
        FilesystemTree::new()
    }
}

/// The names from `from` on, joined by slashes.
pub fn rest_of(names: &Vec<String>, from: usize) -> (r: String)
    requires
        from <= names@.len(),
    ensures
        r@ == join(strs(names@).skip(from as int)),
{
    let mut out = String::new();
    let ghost all = strs(names@).skip(from as int);
    let mut i: usize = from;
    proof {
        assert(all.take(0) =~= Seq::<Seq<char>>::empty());
    }
    while i < names.len()
        invariant
            from <= i <= names.len(),
            all == strs(names@).skip(from as int),
            out@ == join(all.take(i - from)),
        decreases names.len() - i,
    {
        let ghost held = out@;
        if i > from {
            out.push('/');
        }
        out.append(names[i].as_str());
        proof {
            let next = all.take(i + 1 - from);
            assert(next.drop_last() =~= all.take(i - from));
            assert(next.last() == names@[i as int]@);
            if i == from {
                assert(held =~= Seq::<char>::empty());
                assert(out@ =~= join(next));
            } else {
                assert(out@ =~= join(next));
            }
        }
        i += 1;
    }
    proof {
        assert(all.take(all.len() as int) =~= all);
    }
    out
}

} // verus!
