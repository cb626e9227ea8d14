//! A read-only collection of filesystems: layers that are searched in order.

use crate::error::{Error, ErrorKind};
use crate::file::{entries_view, DirEntry, Metadata, OpenOptions};
use crate::util::{not_found, not_supported};
use crate::{listing_view, FileSystem};
use vstd::prelude::*;

verus! {

/// "Read-only collection" filesystem. Does not support writing, but supports reading from
/// any of the layers. The first layer that knows a path answers for it.
#[derive(Debug)]
pub struct RocFS<FS: FileSystem> {
    /// The layers, in the order in which they are searched.
    pub layers: Vec<FS>,
}

/// The failure of a layer that does not know a path.
pub open spec fn missing<T>() -> Result<T, Error> {
    Err(Error { kind: ErrorKind::NotFound })
}

/// Whether the layers may answer `r` to `metadata`: the answer of the first layer that does
/// not fail with `NotFound`, and `NotFound` where every layer does.
pub open spec fn first_metadata<FS: FileSystem>(
    layers: Seq<FS>,
    path: Seq<char>,
    r: Result<Metadata, Error>,
) -> bool {
    ||| r == missing::<Metadata>() && all_missing(layers, path, layers.len() as int)
    ||| r != missing::<Metadata>() && exists|k: int|
        0 <= k < layers.len() && all_missing(layers, path, k)
            && #[trigger] layers[k].metadata_outcome(path, r)
}

/// Whether each of the first `k` layers may fail with `NotFound` on the path.
pub open spec fn all_missing<FS: FileSystem>(layers: Seq<FS>, path: Seq<char>, k: int) -> bool {
    forall|j: int| 0 <= j < k ==> (#[trigger] layers[j]).metadata_outcome(path, missing())
}

/// How a listing goes on with the answer of the next layer: a layer that fails with
/// `NotFound` adds nothing, and any other failure is the answer.
pub open spec fn merged(
    before: Seq<(Seq<char>, Metadata)>,
    step: Result<Seq<(Seq<char>, Metadata)>, Error>,
) -> Result<Seq<(Seq<char>, Metadata)>, Error> {
    match step {
        Ok(listing) => Ok(before + listing),
        Err(e) => if e.kind == ErrorKind::NotFound {
            Ok(before)
        } else {
            Err(e)
        },
    }
}

/// Whether a listing that went as `before` so far may go on to `r` with the answer of the
/// layer: a failure so far stays, and a listing goes on with one of the answers of the
/// layer.
pub open spec fn listing_step<FS: FileSystem>(
    layer: FS,
    path: Seq<char>,
    before: Result<Seq<(Seq<char>, Metadata)>, Error>,
    r: Result<Seq<(Seq<char>, Metadata)>, Error>,
) -> bool {
    match before {
        Err(e) => r == before,
        Ok(entries) => exists|step: Result<Seq<(Seq<char>, Metadata)>, Error>|
            #[trigger] layer.read_dir_outcome(path, step) && r == merged(entries, step),
    }
}

/// Whether the first `upto` layers may list `r` for the path, one layer after the other:
/// a layer that fails with `NotFound` lists nothing, and the first other failure is the
/// answer.
pub open spec fn merged_listing<FS: FileSystem>(
    layers: Seq<FS>,
    path: Seq<char>,
    upto: nat,
    r: Result<Seq<(Seq<char>, Metadata)>, Error>,
) -> bool
    decreases upto,
{
    if upto == 0 || upto > layers.len() {
        r == Ok::<Seq<(Seq<char>, Metadata)>, Error>(Seq::empty())
    } else {
        exists|before: Result<Seq<(Seq<char>, Metadata)>, Error>|
            #![trigger listing_step(layers[upto - 1], path, before, r)]
            merged_listing(layers, path, (upto - 1) as nat, before) && listing_step(
                layers[upto - 1],
                path,
                before,
                r,
            )
    }
}

/// Whether opening the path in the layers from `from` on, one after the other, may return
/// `r` and turn the layers `before` into `after`: the first layer that does not fail with
/// `NotFound` gives the answer, and no layer behind it is touched.
pub open spec fn opens_first<FS: FileSystem>(
    before: Seq<FS>,
    after: Seq<FS>,
    path: Seq<char>,
    options: OpenOptions,
    from: int,
    r: Result<FS::File, Error>,
) -> bool
    decreases before.len() - from,
{
    if from < 0 || from >= before.len() {
        r matches Err(e) && e.kind == ErrorKind::NotFound
    } else {
        exists|step: Result<FS::File, Error>|
            #![trigger before[from].open_outcome(path, options, step, &after[from])]
            {
                &&& before[from].open_outcome(path, options, step, &after[from])
                &&& if step matches Err(e) && e.kind == ErrorKind::NotFound {
                    opens_first(before, after, path, options, from + 1, r)
                } else {
                    r == step && forall|j: int| from < j < before.len() ==> after[j] == before[j]
                }
            }
    }
}

/// Every layer is well-formed.
pub open spec fn layers_wf<FS: FileSystem>(layers: Seq<FS>) -> bool {
    forall|i: int| 0 <= i < layers.len() ==> (#[trigger] layers[i]).wf()
}

/// Opens the path in the first layer from `from` on that does not fail with `NotFound`.
fn open_first<FS: FileSystem>(
    layers: &mut Vec<FS>,
    path: &str,
    options: &OpenOptions,
    from: usize,
) -> (r: Result<FS::File, Error>)
    requires
        layers_wf(old(layers)@),
        from <= old(layers)@.len(),
    ensures
        layers_wf(final(layers)@),
        final(layers)@.len() == old(layers)@.len(),
        forall|j: int| 0 <= j < from ==> final(layers)@[j] == old(layers)@[j],
        opens_first(old(layers)@, final(layers)@, path@, *options, from as int, r),
    decreases old(layers)@.len() - from,
{
    if from == layers.len() {
        return Err(not_found());
    }
    let ghost before = layers@;
    let layer = &mut layers[from];
    let step = layer.open_file_options(path, options);
    let ghost mid = layers@;
    let skip = match &step {
        Ok(_) => false,
        Err(e) => e.kind() == ErrorKind::NotFound,
    };
    if skip {
        let r = open_first(layers, path, options, from + 1);
        proof {
            assert(layers@[from as int] == mid[from as int]);
            assert(before[from as int].open_outcome(path@, *options, step, &layers@[from as int]));
            assert forall|j: int| 0 <= j < before.len() && j != from implies mid[j]
                == before[j] by {}
            assert(opens_first(mid, layers@, path@, *options, from + 1, r));
            lemma_opens_first_same(mid, before, layers@, path@, *options, from + 1, r);
        }
        r
    } else {
        proof {
            assert(before[from as int].open_outcome(path@, *options, step, &layers@[from as int]));
        }
        step
    }
}

/// Opening from a layer on depends on the layers from there on only.
pub proof fn lemma_opens_first_same<FS: FileSystem>(
    a: Seq<FS>,
    b: Seq<FS>,
    after: Seq<FS>,
    path: Seq<char>,
    options: OpenOptions,
    from: int,
    r: Result<FS::File, Error>,
)
    requires
        a.len() == b.len(),
        0 <= from,
        forall|j: int| from <= j < a.len() ==> a[j] == b[j],
        opens_first(a, after, path, options, from, r),
    ensures
        opens_first(b, after, path, options, from, r),
    decreases a.len() - from,
{
    if from < a.len() {
        let step = choose|step: Result<FS::File, Error>|
            #![trigger a[from].open_outcome(path, options, step, &after[from])]
            {
                &&& a[from].open_outcome(path, options, step, &after[from])
                &&& if step matches Err(e) && e.kind == ErrorKind::NotFound {
                    opens_first(a, after, path, options, from + 1, r)
                } else {
                    r == step && forall|j: int| from < j < a.len() ==> after[j] == a[j]
                }
            };
        assert(a[from] == b[from]);
        if step matches Err(e) && e.kind == ErrorKind::NotFound {
            lemma_opens_first_same(a, b, after, path, options, from + 1, r);
        }
        assert(b[from].open_outcome(path, options, step, &after[from]));
    }
}

impl<FS: FileSystem> RocFS<FS> {
    /// Creates a new read-only collection filesystem from layers. Layers will be traversed
    /// in order of their appearance in the vector.
    pub fn new(layers: Vec<FS>) -> (fs: Self)
        ensures
            fs.layers == layers,
    {
        RocFS { layers }
    }
}

impl<FS: FileSystem> FileSystem for RocFS<FS> {
    type File = FS::File;

    open spec fn wf(&self) -> bool {
        layers_wf(self.layers@)
    }

    /// The answer of the first layer that does not fail with `NotFound`.
    open spec fn metadata_outcome(&self, path: Seq<char>, r: Result<Metadata, Error>) -> bool {
        first_metadata(self.layers@, path, r)
    }

    /// The listings of all layers, one after the other; a name that several layers hold
    /// is listed once for each of them.
    open spec fn read_dir_outcome(
        &self,
        path: Seq<char>,
        r: Result<Seq<(Seq<char>, Metadata)>, Error>,
    ) -> bool {
        merged_listing(self.layers@, path, self.layers@.len(), r)
    }

    /// Always `Unsupported`; nothing changes.
    open spec fn create_dir_outcome(
        &self,
        path: Seq<char>,
        r: Result<(), Error>,
        after: &Self,
    ) -> bool {
        r == Err::<(), Error>(Error { kind: ErrorKind::Unsupported }) && *after == *self
    }

    /// Always `Unsupported`; nothing changes.
    open spec fn remove_dir_outcome(
        &self,
        path: Seq<char>,
        r: Result<(), Error>,
        after: &Self,
    ) -> bool {
        r == Err::<(), Error>(Error { kind: ErrorKind::Unsupported }) && *after == *self
    }

    /// Always `Unsupported`; nothing changes.
    open spec fn remove_file_outcome(
        &self,
        path: Seq<char>,
        r: Result<(), Error>,
        after: &Self,
    ) -> bool {
        r == Err::<(), Error>(Error { kind: ErrorKind::Unsupported }) && *after == *self
    }

    /// Always `Unsupported`; nothing changes.
    open spec fn create_dir_all_outcome(
        &self,
        path: Seq<char>,
        r: Result<(), Error>,
        after: &Self,
    ) -> bool {
        r == Err::<(), Error>(Error { kind: ErrorKind::Unsupported }) && *after == *self
    }

    /// The answer of the first layer that does not fail with `NotFound`; the layers behind
    /// it are not touched.
    open spec fn open_outcome(
        &self,
        path: Seq<char>,
        options: OpenOptions,
        r: Result<FS::File, Error>,
        after: &Self,
    ) -> bool {
        after.layers@.len() == self.layers@.len() && opens_first(
            self.layers@,
            after.layers@,
            path,
            options,
            0,
            r,
        )
    }

    fn create_dir(&mut self, _path: &str) -> (r: Result<(), Error>) {
        Err(not_supported())
    }

    fn metadata(&self, path: &str) -> (r: Result<Metadata, Error>) {
        let mut i: usize = 0;
        while i < self.layers.len()
            invariant
                i <= self.layers.len(),
                layers_wf(self.layers@),
                all_missing(self.layers@, path@, i as int),
            decreases self.layers.len() - i,
        {
            match self.layers[i].metadata(path) {
                Ok(m) => {
                    proof {
                        assert(self.layers@[i as int].metadata_outcome(
                            path@,
                            Ok::<Metadata, Error>(m),
                        ));
                    }
                    return Ok(m);
                },
                Err(e) => {
                    if e.kind() != ErrorKind::NotFound {
                        proof {
                            assert(self.layers@[i as int].metadata_outcome(
                                path@,
                                Err::<Metadata, Error>(e),
                            ));
                        }
                        return Err(e);
                    }
                },
            }
            i += 1;
        }
        Err(not_found())
    }

    fn open_file_options(&mut self, path: &str, options: &OpenOptions) -> (r: Result<
        FS::File,
        Error,
    >) {
        open_first(&mut self.layers, path, options, 0)
    }

    fn read_dir(&self, path: &str) -> (r: Result<Vec<DirEntry>, Error>) {
        let mut out: Vec<DirEntry> = Vec::new();
        let mut i: usize = 0;
        proof {
            assert(entries_view(out@) =~= Seq::empty());
        }
        while i < self.layers.len()
            invariant
                i <= self.layers.len(),
                layers_wf(self.layers@),
                merged_listing(
                    self.layers@,
                    path@,
                    i as nat,
                    Ok::<Seq<(Seq<char>, Metadata)>, Error>(entries_view(out@)),
                ),
            decreases self.layers.len() - i,
        {
            let ghost held = entries_view(out@);
            let ghost so_far = Ok::<Seq<(Seq<char>, Metadata)>, Error>(held);
            let step = self.layers[i].read_dir(path);
            let ghost answer = listing_view(step);
            proof {
                let next = (i + 1) as nat;
                assert(self.layers@[i as int].read_dir_outcome(path@, answer));
                assert(listing_step(self.layers@[next - 1], path@, so_far, merged(held, answer)));
                assert(merged_listing(self.layers@, path@, (next - 1) as nat, so_far));
                assert(merged_listing(self.layers@, path@, next, merged(held, answer)));
            }
            match step {
                Ok(mut listing) => {
                    let ghost added = listing@;
                    out.append(&mut listing);
                    proof {
                        assert(entries_view(out@) =~= held + entries_view(added));
                    }
                },
                Err(e) => {
                    if e.kind() != ErrorKind::NotFound {
                        proof {
                            lemma_merged_failure(
                                self.layers@,
                                path@,
                                (i + 1) as nat,
                                self.layers@.len(),
                                Err::<Seq<(Seq<char>, Metadata)>, Error>(e),
                            );
                        }
                        return Err(e);
                    }
                },
            }
            i += 1;
        }
        Ok(out)
    }

    fn remove_dir(&mut self, _path: &str) -> (r: Result<(), Error>) {
        Err(not_supported())
    }

    fn remove_file(&mut self, _path: &str) -> (r: Result<(), Error>) {
        Err(not_supported())
    }

    fn create_dir_all(&mut self, _path: &str) -> (r: Result<(), Error>) {
        Err(not_supported())
    }
}

/// A failure among the first layers is the failure of every longer run of layers.
pub proof fn lemma_merged_failure<FS: FileSystem>(
    layers: Seq<FS>,
    path: Seq<char>,
    upto: nat,
    all: nat,
    r: Result<Seq<(Seq<char>, Metadata)>, Error>,
)
    requires
        upto <= all <= layers.len(),
        r is Err,
        merged_listing(layers, path, upto, r),
    ensures
        merged_listing(layers, path, all, r),
    decreases all - upto,
{
    if upto < all {
        lemma_merged_failure(layers, path, upto, (all - 1) as nat, r);
        assert(listing_step(layers[all - 1], path, r, r));
    }
}

} // verus!
