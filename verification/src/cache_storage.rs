use vstd::prelude::*;

use crate::Id;
use crate::id_cache::AllocModel;
use crate::id_cache::IdCache;
use crate::id_cache::ids_view;
use crate::id_cache::lemma_acquire_gives_unheld_id;
use crate::id_cache::lemma_acquire_stack_order;

verus! {

/// Abstract state of a dense storage: the backing sequence of values and
/// the state of its id allocator.
///
/// The backing sequence never shrinks: a removed entry only returns its id
/// to the allocator, the slot stays physically present (stale) until a
/// future insert reuses the id.
#[verifier::ext_equal]
pub struct StoreModel<T> {
    pub data: Seq<T>,
    pub alloc: AllocModel,
}

impl<T> StoreModel<T> {
    /// How many issued ids have no backing slot yet. Positive only for a
    /// pre-seeded storage whose slots have not all been filled.
    pub open spec fn spare(self) -> int {
        self.alloc.top - self.data.len()
    }

    /// The dense-storage invariant. The allocator is well formed, and the
    /// free stack splits in two: the ids without a backing slot (those in
    /// `[data.len(), top)`) sit at the bottom in descending order, so they
    /// are reused smallest first, exactly when appending is correct; every
    /// free id above them points at an existing slot.
    pub open spec fn wf(self) -> bool {
        &&& self.alloc.wf()
        &&& 0 <= self.spare() <= self.alloc.free.len()
        &&& forall|i: int|
            0 <= i < self.spare() ==> #[trigger] self.alloc.free[i] == self.alloc.top - 1 - i
        &&& forall|i: int|
            self.spare() <= i < self.alloc.free.len() ==> 0 <= #[trigger] self.alloc.free[i]
                < self.data.len()
    }

    /// An id is live when its slot exists and the id has not been released:
    /// exactly the ids whose value a caller may still read.
    pub open spec fn live(self, id: int) -> bool {
        0 <= id < self.data.len() && !self.alloc.free.contains(id)
    }

    /// Writing `v` at `id`: appends when `id` equals the current length,
    /// overwrites the existing slot otherwise. The allocator is untouched.
    pub open spec fn placed(self, id: int, v: T) -> StoreModel<T> {
        if id == self.data.len() {
            StoreModel { data: self.data.push(v), alloc: self.alloc }
        } else {
            StoreModel { data: self.data.update(id, v), alloc: self.alloc }
        }
    }

    /// One insert step: acquire an id, then write the value at it.
    pub open spec fn inserted(self, v: T) -> (StoreModel<T>, int) {
        let (a, id) = self.alloc.acquired();
        let mid = StoreModel { data: self.data, alloc: a };
        (mid.placed(id, v), id)
    }

    /// One remove step: the id goes back to the allocator, the slot keeps
    /// its (now stale) value.
    pub open spec fn removed(self, id: int) -> StoreModel<T> {
        StoreModel { data: self.data, alloc: self.alloc.released(id) }
    }

    /// The state after inserting every value of `vals` in order, with the
    /// ids issued for them.
    pub open spec fn extended(self, vals: Seq<T>) -> (StoreModel<T>, Seq<int>)
        decreases vals.len(),
    {
        if vals.len() == 0 {
            (self, Seq::empty())
        } else {
            let (s1, ids) = self.extended(vals.drop_last());
            let (s2, id) = s1.inserted(vals.last());
            (s2, ids.push(id))
        }
    }
}

/// One insert step on a well-formed storage stays inside the invariant:
/// the issued id is at most the current length (so placement never gaps),
/// the slot at the id reads back the inserted value, the id was not live
/// before and is live after, and every other slot and live id is untouched.
pub proof fn lemma_insert_keeps_wf<T>(s: StoreModel<T>, v: T)
    requires
        s.wf(),
    ensures
        ({
            let (s2, id) = s.inserted(v);
            &&& 0 <= id <= s.data.len()
            &&& id < s.data.len() ==> s2.data.len() == s.data.len()
            &&& id == s.data.len() ==> s2.data.len() == s.data.len() + 1
            &&& s2.wf()
            &&& s2.data[id] == v
            &&& !s.live(id)
            &&& s2.live(id)
            &&& forall|j: int| 0 <= j < s.data.len() && j != id ==> s2.data[j] == s.data[j]
            &&& forall|j: int| s.live(j) ==> j != id && s2.live(j)
            &&& forall|j: int| s2.live(j) ==> s.live(j) || j == id
        }),
{
    lemma_acquire_gives_unheld_id(s.alloc);
    let (a, id) = s.alloc.acquired();
    let (s2, id2) = s.inserted(v);
    let sp = s.spare();
    let fl = s.alloc.free.len() as int;
    let len = s.data.len() as int;
    if fl > 0 {
        assert(id == s.alloc.free[fl - 1]);
        assert(a.free == s.alloc.free.drop_last());
        if fl == sp {
            // popped from the descending prefix: the id is exactly the
            // current length, so the value is appended
            assert(id == s.alloc.top - 1 - (fl - 1));
            assert(id == len);
            assert(s2.spare() == sp - 1);
            assert forall|i: int|
                0 <= i < s2.spare() implies #[trigger] s2.alloc.free[i] == s2.alloc.top - 1
                - i by {
                assert(s2.alloc.free[i] == s.alloc.free[i]);
            }
            assert(s2.wf());
        } else {
            // popped from above the prefix: an existing slot is overwritten
            assert(fl - 1 >= sp);
            assert(0 <= id < len);
            assert(s2.spare() == sp);
            assert forall|i: int|
                0 <= i < s2.spare() implies #[trigger] s2.alloc.free[i] == s2.alloc.top - 1
                - i by {
                assert(s2.alloc.free[i] == s.alloc.free[i]);
            }
            assert forall|i: int|
                s2.spare() <= i < s2.alloc.free.len() implies 0 <= #[trigger] s2.alloc.free[i]
                < s2.data.len() by {
                assert(s2.alloc.free[i] == s.alloc.free[i]);
            }
            assert(s2.wf());
        }
    } else {
        // free stack empty: the invariant forces top == len, a fresh id is
        // issued and the value appended
        assert(sp == 0);
        assert(id == len);
        assert(s2.spare() == 0);
        assert(s2.wf());
    }
    // liveness bookkeeping follows from the allocator law: for a
    // well-formed storage, live ids and outstanding ids coincide
    assert forall|j: int| s.live(j) implies j != id && s2.live(j) by {
        assert(s.alloc.outstanding(j));
        assert(s2.alloc.outstanding(j));
        assert(j < s2.data.len());
    }
    assert forall|j: int| s2.live(j) implies s.live(j) || j == id by {
        assert(s2.alloc.outstanding(j));
        if j != id {
            assert(s.alloc.outstanding(j));
            assert(j < s.data.len());
        }
    }
}

/// Writing at an id no greater than the length preserves the invariant, as
/// long as an append only happens while the allocator still has spare ids
/// (which is exactly how a well-formed insert reaches it).
pub proof fn lemma_placed_keeps_wf<T>(s: StoreModel<T>, id: int, v: T)
    requires
        s.wf(),
        0 <= id <= s.data.len(),
        id == s.data.len() ==> s.spare() > 0,
    ensures
        s.placed(id, v).wf(),
{
    let s2 = s.placed(id, v);
    if id == s.data.len() {
        assert(s2.spare() == s.spare() - 1);
        assert forall|i: int|
            s2.spare() <= i < s2.alloc.free.len() implies 0 <= #[trigger] s2.alloc.free[i]
            < s2.data.len() by {
            if i == s.spare() - 1 {
                assert(s.alloc.free[i] == s.alloc.top - 1 - i);
            }
        }
    }
}

/// Removing a live id preserves the invariant; the data is untouched and
/// exactly that id stops being live.
pub proof fn lemma_removed_keeps_wf<T>(s: StoreModel<T>, id: int)
    requires
        s.wf(),
        s.live(id),
    ensures
        ({
            let s2 = s.removed(id);
            &&& s2.wf()
            &&& s2.data == s.data
            &&& !s2.live(id)
            &&& forall|j: int| s2.live(j) <==> s.live(j) && j != id
        }),
{
    crate::id_cache::lemma_release_keeps_wf(s.alloc, id);
    let s2 = s.removed(id);
    let fl = s.alloc.free.len() as int;
    assert forall|i: int|
        0 <= i < s2.spare() implies #[trigger] s2.alloc.free[i] == s2.alloc.top - 1 - i by {
        assert(s2.alloc.free[i] == s.alloc.free[i]);
    }
    assert forall|i: int|
        s2.spare() <= i < s2.alloc.free.len() implies 0 <= #[trigger] s2.alloc.free[i]
        < s2.data.len() by {
        if i < fl {
            assert(s2.alloc.free[i] == s.alloc.free[i]);
        } else {
            assert(s2.alloc.free[i] == id);
        }
    }
    assert(s2.alloc.free.last() == id);
    assert(s2.alloc.free.contains(id));
    assert forall|j: int| s2.live(j) implies s.live(j) && j != id by {
        if s.alloc.free.contains(j) {
            let i = choose|i: int| 0 <= i < fl && s.alloc.free[i] == j;
            assert(s2.alloc.free[i] == j);
        }
    }
    assert forall|j: int| s.live(j) && j != id implies s2.live(j) by {
        if s2.alloc.free.contains(j) {
            let i = choose|i: int| 0 <= i < fl + 1 && s2.alloc.free[i] == j;
            if i < fl {
                assert(s.alloc.free[i] == j);
            }
        }
    }
}

/// Law: bulk extension is repeated single insertion in iteration order.
/// Extending by `vals` and then inserting one more value `v` reaches the
/// same state, and issues the same ids, as extending by `vals.push(v)`.
pub proof fn lemma_extend_is_repeated_insert<T>(s: StoreModel<T>, vals: Seq<T>, v: T)
    ensures
        ({
            let (s1, ids) = s.extended(vals);
            let (s2, id) = s1.inserted(v);
            s.extended(vals.push(v)) == (s2, ids.push(id))
        }),
{
    assert(vals.push(v).drop_last() =~= vals);
    assert(vals.push(v).last() == v);
}

/// Law: the insert/get/remove round trip. Inserting `v` yields an id whose
/// slot reads back `v`. After removing that id, it is immediately eligible
/// for reuse: the very next insert returns the same id and overwrites the
/// old value, leaving every other slot as it was.
pub proof fn lemma_insert_remove_reinsert<T>(s: StoreModel<T>, v: T, w: T)
    requires
        s.wf(),
    ensures
        ({
            let (s1, id) = s.inserted(v);
            let s2 = s1.removed(id);
            let (s3, id2) = s2.inserted(w);
            &&& s1.data[id] == v
            &&& id2 == id
            &&& s3.data[id] == w
            &&& s3.data.len() == s1.data.len()
            &&& forall|j: int| 0 <= j < s1.data.len() && j != id ==> s3.data[j] == s1.data[j]
            &&& s3.wf()
        }),
{
    lemma_insert_keeps_wf(s, v);
    let (s1, id) = s.inserted(v);
    assert(s1.alloc.outstanding(id));
    lemma_acquire_stack_order(s1.alloc, id);
    let s2 = s1.removed(id);
    lemma_removed_keeps_wf(s1, id);
    lemma_insert_keeps_wf(s2, w);
    let (s3, id2) = s2.inserted(w);
    assert(s2.alloc.free.last() == id);
    assert(id2 == id);
}

/// Dense storage: a growable backing vector of values paired with an
/// [`IdCache`], so that an id is always the index of its slot.
pub struct CacheStorage<T> {
    data: Vec<T>,
    id_cache: IdCache,
}

impl<T> View for CacheStorage<T> {
    type V = StoreModel<T>;

    closed spec fn view(&self) -> StoreModel<T> {
        StoreModel { data: self.data@, alloc: self.id_cache@ }
    }
}

impl<T> CacheStorage<T> {
    /// The dense-storage invariant, stated over the abstract state.
    pub open spec fn wf(&self) -> bool {
        self@.wf()
    }

    /// Creates an empty storage.
    pub fn new() -> (r: Self)
        ensures
            r@.data == Seq::<T>::empty(),
            r@.alloc == AllocModel::empty(),
            r.wf(),
    {
        CacheStorage { data: Vec::new(), id_cache: IdCache::new() }
    }

    /// Creates a storage pre-seeded for `capacity` entries: the allocator
    /// already holds the ids `0, ..., capacity - 1`, so the first
    /// `capacity` inserts fill the slots in order without growing the
    /// watermark.
    pub fn with_capacity(capacity: usize) -> (r: Self)
        ensures
            r@.data == Seq::<T>::empty(),
            r@.alloc == AllocModel::seeded(capacity as int),
            r.wf(),
    {
        let r = CacheStorage {
            data: Vec::with_capacity(capacity),
            id_cache: IdCache::with_capacity(capacity),
        };
        proof {
            assert(r@.wf());
        }
        r
    }

    /// Acquires an id from the allocator and writes the value at it:
    /// appends for a fresh id, overwrites the dead slot for a recycled one.
    pub fn insert(&mut self, new_data: T) -> (id: Id)
        requires
            old(self).wf(),
            old(self)@.alloc.top < usize::MAX as int,
        ensures
            final(self).wf(),
            (final(self)@, id as int) == old(self)@.inserted(new_data),
            final(self)@.data[id as int] == new_data,
            !old(self)@.live(id as int),
            final(self)@.live(id as int),
            forall|j: int|
                0 <= j < old(self)@.data.len() && j != id as int ==> final(self)@.data[j] == old(
                    self,
                )@.data[j],
            forall|j: int| old(self)@.live(j) ==> j != id as int && final(self)@.live(j),
            forall|j: int| final(self)@.live(j) ==> old(self)@.live(j) || j == id as int,
    {
        proof {
            lemma_insert_keeps_wf(old(self)@, new_data);
        }
        let id = self.id_cache.acquire_id();
        self.insert_with_id(id, new_data);
        id
    }

    /// As `insert`, but only succeeds when a recycled id is available:
    /// with an empty free pool it returns `None` and changes nothing,
    /// instead of growing. For fixed-capacity pools.
    pub fn try_insert(&mut self, new_data: T) -> (r: Option<Id>)
        requires
            old(self).wf(),
        ensures
            final(self).wf(),
            old(self)@.alloc.free.len() == 0 ==> r is None && final(self)@ == old(self)@,
            old(self)@.alloc.free.len() > 0 ==> {
                &&& r == Some(old(self)@.alloc.free.last() as usize)
                &&& final(self)@ == old(self)@.inserted(new_data).0
                &&& final(self)@.data[old(self)@.alloc.free.last()] == new_data
                &&& final(self)@.live(old(self)@.alloc.free.last())
            },
    {
        proof {
            lemma_insert_keeps_wf(old(self)@, new_data);
        }
        match self.id_cache.try_acquire_id() {
            Some(id) => {
                proof {
                    old(self).id_cache.lemma_model_bounds();
                    assert(id as int == old(self)@.alloc.free.last());
                    assert(self@ == StoreModel {
                        data: old(self)@.data,
                        alloc: old(self)@.alloc.acquired().0,
                    });
                }
                self.insert_with_id(id, new_data);
                Some(id)
            },
            None => None,
        }
    }

    /// Direct slot write bypassing the allocator: appends at `id == len`,
    /// overwrites the existing slot at `id < len`. Exposed for bulk-loading
    /// scenarios where ids are externally known to be sequential; the
    /// allocator is not consulted, so the caller is responsible for keeping
    /// the two consistent.
    pub fn insert_with_id(&mut self, id: Id, new_data: T)
        requires
            id as int <= old(self)@.data.len(),
        ensures
            final(self)@ == old(self)@.placed(id as int, new_data),
            final(self)@.data[id as int] == new_data,
            old(self).wf() && (id as int == old(self)@.data.len() ==> old(self)@.spare() > 0)
                ==> final(self).wf(),
    {
        proof {
            if old(self).wf() && (id as int == old(self)@.data.len() ==> old(self)@.spare() > 0) {
                lemma_placed_keeps_wf(old(self)@, id as int, new_data);
            }
        }
        let len = self.data.len();
        if id == len {
            self.data.push(new_data);
        } else {
            let slot = &mut self.data[id];
            *slot = new_data;
        }
    }

    /// The value at `id`. The id must be in range; reading through an id
    /// that was removed and not yet reused returns the stale value.
    pub fn get(&self, id: Id) -> (r: &T)
        requires
            (id as int) < self@.data.len(),
        ensures
            *r == self@.data[id as int],
    {
        &self.data[id]
    }

    /// A mutable borrow of the value at `id`.
    pub fn get_mut(&mut self, id: Id) -> (r: &mut T)
        requires
            (id as int) < old(self)@.data.len(),
        ensures
            *r == old(self)@.data[id as int],
            final(self)@.data == old(self)@.data.update(id as int, *final(r)),
            final(self)@.alloc == old(self)@.alloc,
            old(self).wf() ==> final(self).wf(),
    {
        &mut self.data[id]
    }

    /// Releases the id back to the allocator. The slot is not cleared: its
    /// value stays physically present (stale) until a future insert reuses
    /// the id, so callers must not read through a removed id. The id must
    /// be live: in range and not already removed.
    pub fn remove(&mut self, id: Id)
        requires
            old(self).wf(),
            old(self)@.live(id as int),
        ensures
            final(self).wf(),
            final(self)@ == old(self)@.removed(id as int),
            final(self)@.data == old(self)@.data,
            !final(self)@.live(id as int),
            forall|j: int| final(self)@.live(j) <==> old(self)@.live(j) && j != id as int,
    {
        proof {
            lemma_removed_keeps_wf(old(self)@, id as int);
        }
        self.id_cache.release_id(id);
    }

    /// Batch removal: releases every id of `ids` back to the allocator.
    /// The ids must be pairwise distinct and each live.
    pub fn remove_chunk(&mut self, ids: Vec<Id>)
        requires
            old(self).wf(),
            forall|i: int| 0 <= i < ids@.len() ==> old(self)@.live(#[trigger] ids@[i] as int),
            forall|i: int, j: int| 0 <= i < j < ids@.len() ==> ids@[i] != ids@[j],
        ensures
            final(self).wf(),
            final(self)@.data == old(self)@.data,
            final(self)@.alloc.top == old(self)@.alloc.top,
            final(self)@.alloc.free == old(self)@.alloc.free + ids_view(ids@),
    {
        proof {
            assert forall|i: int|
                0 <= i < ids@.len() implies old(self)@.alloc.outstanding(
                #[trigger] ids@[i] as int,
            ) by {
                assert(old(self)@.live(ids@[i] as int));
            }
        }
        self.id_cache.release_ids(ids);
        proof {
            let s = old(self)@;
            let f2 = self@.alloc.free;
            let fl = s.alloc.free.len() as int;
            assert forall|i: int|
                0 <= i < self@.spare() implies #[trigger] f2[i] == self@.alloc.top - 1 - i by {
                assert(f2[i] == s.alloc.free[i]);
            }
            assert forall|i: int|
                self@.spare() <= i < f2.len() implies 0 <= #[trigger] f2[i]
                < self@.data.len() by {
                if i < fl {
                    assert(f2[i] == s.alloc.free[i]);
                } else {
                    assert(f2[i] == ids@[i - fl] as int);
                    assert(s.live(ids@[i - fl] as int));
                }
            }
        }
    }

    /// Every physical slot as an `(id, value)` pair in id order — including
    /// slots whose id has been released but whose stale value has not yet
    /// been overwritten. Callers that want live entries only must filter
    /// against the allocator's live set; this leak of dead slots is a
    /// documented trade for iteration speed.
    pub fn iter(&self) -> (r: Vec<(Id, &T)>)
        ensures
            r@.len() == self@.data.len(),
            forall|i: int|
                0 <= i < r@.len() ==> #[trigger] r@[i].0 == i && *r@[i].1 == self@.data[i],
    {
        let mut r: Vec<(Id, &T)> = Vec::new();
        let mut i: usize = 0;
        while i < self.data.len()
            invariant
                i as int <= self@.data.len(),
                r@.len() == i as int,
                forall|j: int|
                    0 <= j < i as int ==> #[trigger] r@[j].0 == j && *r@[j].1 == self@.data[j],
            decreases self@.data.len() - i as int,
        {
            r.push((i, &self.data[i]));
            i = i + 1;
        }
        r
    }

    /// Consumes the storage, yielding the raw backing vector. Slots whose
    /// id was released may still hold stale values.
    pub fn into_vec(self) -> (r: Vec<T>)
        ensures
            r@ == self@.data,
    {
        self.data
    }

    /// Inserts every value of `values` in order, exactly as repeated single
    /// inserts would: each value gets a recycled id when one is free and a
    /// fresh one otherwise.
    pub fn extend(&mut self, values: Vec<T>)
        requires
            old(self).wf(),
            old(self)@.alloc.top + values@.len() <= usize::MAX as int,
        ensures
            final(self).wf(),
            final(self)@ == old(self)@.extended(values@).0,
    {
        let ghost all_vals = values@;
        let mut vals = values;
        while vals.len() > 0
            invariant
                vals@.len() <= all_vals.len(),
                vals@ == all_vals.skip(all_vals.len() - vals@.len()),
                self@ == old(self)@.extended(all_vals.take(all_vals.len() - vals@.len())).0,
                self.wf(),
                self@.alloc.top <= old(self)@.alloc.top + (all_vals.len() - vals@.len()),
                old(self)@.alloc.top + all_vals.len() <= usize::MAX as int,
            decreases vals@.len(),
        {
            let ghost k = all_vals.len() - vals@.len();
            let v = vals.remove(0);
            proof {
                assert(v == all_vals[k]);
                lemma_insert_keeps_wf(self@, v);
            }
            self.insert(v);
            proof {
                assert(all_vals.take(k + 1).drop_last() =~= all_vals.take(k));
                assert(all_vals.take(k + 1).last() == all_vals[k]);
                assert(self@ == old(self)@.extended(all_vals.take(k + 1)).0);
                assert(vals@ =~= all_vals.skip(all_vals.len() - vals@.len()));
            }
        }
        proof {
            assert(all_vals.take(all_vals.len() as int) =~= all_vals);
        }
    }

    /// The number of physical slots; always equal to the number of ids the
    /// allocator has issued that are backed by a slot.
    pub fn len(&self) -> (r: usize)
        ensures
            r as int == self@.data.len(),
    {
        self.data.len()
    }

    /// The allocator's free stack, bottom first, for occupancy
    /// introspection.
    pub fn free_ids(&self) -> (r: &Vec<Id>)
        ensures
            ids_view(r@) == self@.alloc.free,
    {
        self.id_cache.free_ids()
    }
}

} // verus!
