//! Buckets indexed by a code, behind one interface for two storage back ends.
//!
//! A dense store preallocates one slot per code; a sparse store keeps only the buckets that were
//! asked for. Which one is used depends on the capacity alone. Seen through [`BucketStore::view`]
//! the two behave alike, as long as the owner removes a bucket that it has emptied.

use rustc_hash::FxHashMap;
use vstd::prelude::*;

use crate::fx::{fx_get, fx_get_mut, fx_keys, fx_len, fx_or_default, fx_remove};

verus! {

/// The largest capacity that still gets the dense back end.
pub const SPARSE_THRESHOLD: usize = 2_097_152;

/// The storage back end of a [`BucketStore`].
#[derive(Clone, Copy, Debug, PartialEq, Eq, Structural)]
pub enum BackendKind {
    Dense,
    Sparse,
}

/// The back end for a store of `capacity` codes, given the largest dense capacity.
pub open spec fn backend_for(capacity: usize, threshold: usize) -> BackendKind {
    if capacity <= threshold {
        BackendKind::Dense
    } else {
        BackendKind::Sparse
    }
}

/// Chooses the back end for a store of `capacity` codes: dense up to and including `threshold`.
pub fn choose_backend_with_threshold(capacity: usize, threshold: usize) -> (kind: BackendKind)
    ensures
        kind == backend_for(capacity, threshold),
{
    if capacity <= threshold {
        BackendKind::Dense
    } else {
        BackendKind::Sparse
    }
}

/// Chooses the back end for a store of `capacity` codes with the default threshold.
pub fn choose_backend(capacity: usize) -> (kind: BackendKind)
    ensures
        kind == backend_for(capacity, SPARSE_THRESHOLD),
{
    choose_backend_with_threshold(capacity, SPARSE_THRESHOLD)
}

/// What a store needs to know of its elements: which of them are empty.
pub trait Bucket: Default + Clone {
    /// Whether the bucket has no members.
    spec fn spec_is_empty(&self) -> bool;

    /// Whether the bucket has no members.
    fn is_empty(&self) -> (r: bool)
        ensures
            r == self.spec_is_empty(),
    ;

    /// A default bucket is empty.
    proof fn default_is_empty(b: Self)
        requires
            call_ensures(Self::default, (), b),
        ensures
            b.spec_is_empty(),
    ;
}

enum Backend<B: Bucket> {
    /// One slot per code.
    Dense(Vec<B>),
    /// The buckets that exist; a missing code is an empty bucket.
    Sparse(FxHashMap<u32, B>),
}

/// Buckets indexed by codes below a capacity.
pub struct BucketStore<B: Bucket> {
    backend: Backend<B>,
    capacity: usize,
    kind: BackendKind,
}

/// The non-empty slots of a dense store, by code.
spec fn dense_view<B: Bucket>(slots: Seq<B>) -> Map<u32, B> {
    Map::new(
        |code: u32| code < slots.len() && !slots[code as int].spec_is_empty(),
        |code: u32| slots[code as int],
    )
}

impl<B: Bucket> View for BucketStore<B> {
    type V = Map<u32, B>;

    /// The buckets that [`BucketStore::get`] finds.
    closed spec fn view(&self) -> Map<u32, B> {
        match self.backend {
            Backend::Dense(slots) => dense_view(slots@),
            Backend::Sparse(m) => m@,
        }
    }
}

impl<B: Bucket> BucketStore<B> {
    /// The back end in use.
    pub closed spec fn spec_kind(&self) -> BackendKind {
        self.kind
    }

    /// The number of codes the store was made for.
    pub closed spec fn spec_capacity(&self) -> usize {
        self.capacity
    }

    /// The back end is the one recorded. A dense store has one slot per code, and every slot
    /// that no `u32` reaches is empty.
    pub closed spec fn wf(&self) -> bool {
        match self.backend {
            Backend::Dense(slots) => {
                &&& self.kind == BackendKind::Dense
                &&& slots@.len() == self.capacity
                &&& forall|i: int| u32::MAX < i < slots@.len() ==> (#[trigger] slots@[i]).spec_is_empty()
            },
            Backend::Sparse(_) => self.kind == BackendKind::Sparse,
        }
    }

    /// Every slot without a bucket, but for that of `code`, holds a default bucket.
    pub closed spec fn pristine_elsewhere(&self, code: u32) -> bool {
        match self.backend {
            Backend::Dense(slots) => forall|i: int|
                0 <= i < slots@.len() && i != code && (#[trigger] slots@[i]).spec_is_empty()
                    ==> call_ensures(B::default, (), slots@[i]),
            Backend::Sparse(_) => true,
        }
    }

    /// Every slot without a bucket holds a default bucket. A store loses this where its owner
    /// empties a bucket, and gets it back where the owner removes it.
    pub closed spec fn pristine(&self) -> bool {
        match self.backend {
            Backend::Dense(slots) => forall|i: int|
                0 <= i < slots@.len() && (#[trigger] slots@[i]).spec_is_empty() ==> call_ensures(
                    B::default,
                    (),
                    slots@[i],
                ),
            Backend::Sparse(_) => true,
        }
    }

    /// Whether `code` may be asked for: a dense store has slots for the codes below its capacity
    /// only.
    pub open spec fn addresses(&self, code: u32) -> bool {
        self.spec_kind() == BackendKind::Dense ==> code < self.spec_capacity()
    }

    /// A store is made empty, with the back end that its capacity asks for.
    pub fn new_with_threshold(capacity: usize, threshold: usize) -> (store: Self)
        ensures
            store.wf(),
            store.pristine(),
            store@ == Map::<u32, B>::empty(),
            store.spec_capacity() == capacity,
            store.spec_kind() == backend_for(capacity, threshold),
    {
        let kind = choose_backend_with_threshold(capacity, threshold);
        let backend = match kind {
            BackendKind::Dense => {
                let mut slots: Vec<B> = Vec::with_capacity(capacity);
                while slots.len() < capacity
                    invariant
                        slots@.len() <= capacity,
                        forall|i: int|
                            0 <= i < slots@.len() ==> (#[trigger] slots@[i]).spec_is_empty()
                                && call_ensures(B::default, (), slots@[i]),
                    decreases capacity - slots@.len(),
                {
                    let b = B::default();
                    proof {
                        B::default_is_empty(b);
                    }
                    slots.push(b);
                }
                Backend::Dense(slots)
            },
            BackendKind::Sparse => Backend::Sparse(FxHashMap::default()),
        };
        let store = BucketStore { backend, capacity, kind };
        assert(store@ =~= Map::<u32, B>::empty());
        store
    }

    /// A store is made empty, with the back end that its capacity asks for at the default
    /// threshold.
    pub fn new(capacity: usize) -> (store: Self)
        ensures
            store.wf(),
            store.pristine(),
            store@ == Map::<u32, B>::empty(),
            store.spec_capacity() == capacity,
            store.spec_kind() == backend_for(capacity, SPARSE_THRESHOLD),
    {
        Self::new_with_threshold(capacity, SPARSE_THRESHOLD)
    }

    /// The back end in use.
    pub fn backend_kind(&self) -> (kind: BackendKind)
        ensures
            kind == self.spec_kind(),
    {
        self.kind
    }

    /// The number of codes the store was made for.
    pub fn capacity(&self) -> (capacity: usize)
        ensures
            capacity == self.spec_capacity(),
    {
        self.capacity
    }

    /// The bucket under `code`, or `None` where there is none.
    pub fn get(&self, code: u32) -> (r: Option<&B>)
        requires
            self.wf(),
            self.addresses(code),
        ensures
            match r {
                Some(b) => self@.contains_key(code) && *b == self@[code],
                None => !self@.contains_key(code),
            },
    {
        match &self.backend {
            Backend::Dense(slots) => {
                let b = &slots[code as usize];
                if b.is_empty() {
                    None
                } else {
                    Some(b)
                }
            },
            Backend::Sparse(m) => fx_get(m, code),
        }
    }

    /// The bucket under `code` for changing, or `None` where there is none. A bucket that the
    /// caller empties stays in a sparse store until it is removed, and leaves a dense one.
    pub fn get_mut(&mut self, code: u32) -> (r: Option<&mut B>)
        requires
            old(self).wf(),
            old(self).addresses(code),
        ensures
            final(self).wf(),
            final(self).spec_capacity() == old(self).spec_capacity(),
            final(self).spec_kind() == old(self).spec_kind(),
            match r {
                Some(b) => {
                    &&& old(self)@.contains_key(code)
                    &&& *b == old(self)@[code]
                    &&& final(self)@ == updated(old(self)@, old(self).spec_kind(), code, *final(b))
                    &&& old(self).pristine() ==> final(self).pristine_elsewhere(code)
                    &&& old(self).pristine() && !final(b).spec_is_empty() ==> final(self).pristine()
                },
                None => {
                    &&& !old(self)@.contains_key(code)
                    &&& final(self)@ == old(self)@
                    &&& old(self).pristine() ==> final(self).pristine()
                },
            },
    {
        match &mut self.backend {
            Backend::Dense(slots) => {
                let ghost before = slots@;
                if slots[code as usize].is_empty() {
                    None
                } else {
                    proof {
                        assert forall|b: B|
                            #[trigger] dense_view(before.update(code as int, b)) == updated(
                                dense_view(before),
                                BackendKind::Dense,
                                code,
                                b,
                            ) by {
                            dense_view_update(before, code, b);
                        }
                    }
                    Some(&mut slots[code as usize])
                }
            },
            Backend::Sparse(m) => fx_get_mut(m, code),
        }
    }

    /// The bucket under `code` for changing, made as a default bucket where there is none. A
    /// caller that leaves it empty has to [`BucketStore::remove`] it.
    pub fn get_mut_or_insert(&mut self, code: u32) -> (r: &mut B)
        requires
            old(self).wf(),
            old(self).addresses(code),
        ensures
            final(self).wf(),
            final(self).spec_capacity() == old(self).spec_capacity(),
            final(self).spec_kind() == old(self).spec_kind(),
            old(self)@.contains_key(code) ==> *r == old(self)@[code],
            !old(self)@.contains_key(code) ==> r.spec_is_empty(),
            !old(self)@.contains_key(code) && old(self).pristine() ==> call_ensures(
                B::default,
                (),
                *r,
            ),
            final(self)@ == updated(old(self)@, old(self).spec_kind(), code, *final(r)),
            old(self).pristine() ==> final(self).pristine_elsewhere(code),
            old(self).pristine() && !final(r).spec_is_empty() ==> final(self).pristine(),
    {
        match &mut self.backend {
            Backend::Dense(slots) => {
                proof {
                    let before = slots@;
                    assert forall|b: B|
                        #[trigger] dense_view(before.update(code as int, b)) == updated(
                            dense_view(before),
                            BackendKind::Dense,
                            code,
                            b,
                        ) by {
                        dense_view_update(before, code, b);
                    }
                }
                &mut slots[code as usize]
            },
            Backend::Sparse(m) => {
                let r = fx_or_default(m, code);
                proof {
                    if !old(self)@.contains_key(code) {
                        B::default_is_empty(*r);
                    }
                }
                r
            },
        }
    }

    /// Removes the bucket under `code`.
    pub fn remove(&mut self, code: u32)
        requires
            old(self).wf(),
            old(self).addresses(code),
        ensures
            final(self).wf(),
            final(self).spec_capacity() == old(self).spec_capacity(),
            final(self).spec_kind() == old(self).spec_kind(),
            final(self)@ == old(self)@.remove(code),
            old(self).pristine_elsewhere(code) ==> final(self).pristine(),
            old(self).pristine() ==> final(self).pristine(),
    {
        match &mut self.backend {
            Backend::Dense(slots) => {
                let b = B::default();
                proof {
                    B::default_is_empty(b);
                    dense_view_update(slots@, code, b);
                }
                slots.set(code as usize, b);
            },
            Backend::Sparse(m) => fx_remove(m, code),
        }
    }

    /// Every code that has a bucket, once.
    pub fn nonempty_codes(&self) -> (codes: Vec<u32>)
        requires
            self.wf(),
        ensures
            codes@.no_duplicates(),
            codes@.to_set() == self@.dom(),
    {
        match &self.backend {
            Backend::Dense(slots) => {
                let mut codes: Vec<u32> = Vec::new();
                let mut i: usize = 0;
                while i < slots.len()
                    invariant
                        i <= slots@.len(),
                        forall|j: int|
                            u32::MAX < j < slots@.len() ==> (#[trigger] slots@[j]).spec_is_empty(),
                        codes@.no_duplicates(),
                        forall|code: u32|
                            #[trigger] codes@.contains(code) <==> code < i
                                && dense_view(slots@).contains_key(code),
                    decreases slots@.len() - i,
                {
                    let ghost before = codes@;
                    if !slots[i].is_empty() {
                        codes.push(i as u32);
                        proof {
                            assert(codes@.last() == i as u32);
                            assert forall|a: int, b: int| 0 <= a < b < codes@.len() implies codes@[a]
                                != codes@[b] by {
                                assert(before.contains(codes@[a]));
                            }
                            assert forall|code: u32| #[trigger]
                                codes@.contains(code) <==> before.contains(code) || code == i by {
                                if before.contains(code) {
                                    let k = before.index_of(code);
                                    assert(codes@[k] == code);
                                }
                            }
                        }
                    }
                    i = i + 1;
                }
                assert(codes@.to_set() =~= self@.dom());
                codes
            },
            Backend::Sparse(m) => fx_keys(m),
        }
    }

    /// Every bucket of the store with its code, each once.
    pub fn iter_nonempty(&self) -> (items: Vec<(u32, &B)>)
        requires
            self.wf(),
        ensures
            items@.len() == self@.len(),
            items@.map_values(|item: (u32, &B)| item.0).no_duplicates(),
            items@.map_values(|item: (u32, &B)| item.0).to_set() == self@.dom(),
            forall|i: int|
                0 <= i < items@.len() ==> *(#[trigger] items@[i]).1 == self@[items@[i].0],
    {
        let codes = self.nonempty_codes();
        let mut items: Vec<(u32, &B)> = Vec::new();
        let mut i: usize = 0;
        while i < codes.len()
            invariant
                i <= codes@.len(),
                self.wf(),
                codes@.to_set() == self@.dom(),
                items@.len() == i,
                forall|j: int| 0 <= j < i ==> (#[trigger] items@[j]).0 == codes@[j],
                forall|j: int|
                    0 <= j < items@.len() ==> *(#[trigger] items@[j]).1 == self@[items@[j].0],
            decreases codes@.len() - i,
        {
            let code = codes[i];
            assert(codes@.to_set().contains(code));
            assert(self@.contains_key(code));
            proof { self.contained_is_addressed(code); }
            match self.get(code) {
                Some(b) => {
                    items.push((code, b));
                },
                None => {},
            }
            i = i + 1;
        }
        assert(items@.map_values(|item: (u32, &B)| item.0) =~= codes@);
        proof {
            codes@.unique_seq_to_set();
        }
        items
    }

    /// Calls a function for every bucket of the store with its code, and for nothing else. It goes
    /// once over what `iter_nonempty` lists, so each bucket gets one call; the number of calls of an
    /// `Fn` is nothing that a contract can speak of.
    pub fn for_each_nonempty<F: Fn(u32, &B)>(&self, f: F)
        requires
            self.wf(),
            forall|code: u32| #[trigger]
                self@.contains_key(code) ==> call_requires(f, (code, &self@[code])),
        ensures
            forall|code: u32| #[trigger]
                self@.contains_key(code) ==> call_ensures(f, (code, &self@[code]), ()),
    {
        let items = self.iter_nonempty();
        let ghost codes = items@.map_values(|item: (u32, &B)| item.0);
        let mut i: usize = 0;
        while i < items.len()
            invariant
                i <= items@.len(),
                forall|code: u32| #[trigger]
                    self@.contains_key(code) ==> call_requires(f, (code, &self@[code])),
                codes == items@.map_values(|item: (u32, &B)| item.0),
                codes.to_set() == self@.dom(),
                forall|j: int|
                    0 <= j < items@.len() ==> *(#[trigger] items@[j]).1 == self@[items@[j].0],
                forall|j: int|
                    0 <= j < i ==> call_ensures(f, ((#[trigger] items@[j]).0, items@[j].1), ()),
            decreases items@.len() - i,
        {
            proof {
                assert(codes[i as int] == items@[i as int].0);
                assert(codes.to_set().contains(items@[i as int].0));
                assert(self@.contains_key(items@[i as int].0));
            }
            f(items[i].0, items[i].1);
            i = i + 1;
        }
        proof {
            assert forall|code: u32| #[trigger] self@.contains_key(code) implies call_ensures(
                f,
                (code, &self@[code]),
                (),
            ) by {
                assert(codes.to_set().contains(code));
                let j = codes.index_of(code);
                assert(codes[j] == code);
                assert(items@[j].0 == code);
            }
        }
    }

    /// A code that has a bucket may be asked for.
    pub proof fn contained_is_addressed(&self, code: u32)
        requires
            self.wf(),
            self@.contains_key(code),
        ensures
            self.addresses(code),
    {
    }

    /// The number of buckets.
    pub fn nonempty_count(&self) -> (n: usize)
        requires
            self.wf(),
        ensures
            n == self@.len(),
    {
        match &self.backend {
            Backend::Dense(_) => {
                let codes = self.nonempty_codes();
                proof {
                    codes@.unique_seq_to_set();
                }
                codes.len()
            },
            Backend::Sparse(m) => fx_len(m),
        }
    }
}

/// The store's view after the bucket under `code` has become `b`: an empty bucket vanishes from a
/// dense store and stays in a sparse one.
pub open spec fn updated<B: Bucket>(
    view: Map<u32, B>,
    kind: BackendKind,
    code: u32,
    b: B,
) -> Map<u32, B> {
    if kind == BackendKind::Dense && b.spec_is_empty() {
        view.remove(code)
    } else {
        view.insert(code, b)
    }
}

/// Whichever way a store keeps its buckets, it holds the same after a bucket was changed, as long as
/// a bucket that the change left empty is removed.
pub proof fn kinds_agree<B: Bucket>(view: Map<u32, B>, code: u32, b: B)
    ensures
        !b.spec_is_empty() ==> updated(view, BackendKind::Dense, code, b) == updated(
            view,
            BackendKind::Sparse,
            code,
            b,
        ),
        updated(view, BackendKind::Dense, code, b).remove(code) == updated(
            view,
            BackendKind::Sparse,
            code,
            b,
        ).remove(code),
{
    assert(view.remove(code).remove(code) =~= view.remove(code));
    assert(view.insert(code, b).remove(code) =~= view.remove(code));
}

proof fn dense_view_update<B: Bucket>(slots: Seq<B>, code: u32, b: B)
    requires
        code < slots.len(),
    ensures
        dense_view(slots.update(code as int, b)) == updated(
            dense_view(slots),
            BackendKind::Dense,
            code,
            b,
        ),
{
    assert(dense_view(slots.update(code as int, b)) =~= updated(
        dense_view(slots),
        BackendKind::Dense,
        code,
        b,
    ));
}

/// The state of one full-code bucket.
#[derive(Clone)]
pub struct FullBucket {
    /// The members, by character index.
    pub members: Vec<u32>,
    /// The sum of the members' frequencies.
    pub freq_sum: u64,
    /// The largest of the members' frequencies.
    pub max_freq: u64,
    /// The member that is shown first; `u32::MAX` in an empty bucket.
    pub first: u32,
}

impl Default for FullBucket {
    fn default() -> (b: Self)
        ensures
            b.members@ == Seq::<u32>::empty(),
            b.freq_sum == 0,
            b.max_freq == 0,
            b.first == u32::MAX,
    {
        FullBucket { members: Vec::new(), freq_sum: 0, max_freq: 0, first: u32::MAX }
    }
}

impl Bucket for FullBucket {
    open spec fn spec_is_empty(&self) -> bool {
        self.members@.len() == 0
    }

    fn is_empty(&self) -> (r: bool) {
        self.members.len() == 0
    }

    proof fn default_is_empty(b: Self) {
    }
}

} // verus!
