use vstd::prelude::*;

use crate::Id;
use crate::id_cache::ids_view;

verus! {

/// Removing the element at position `i` by moving the last element into
/// its place and shortening by one: the swap-removal discipline.
pub open spec fn seq_swap_remove<A>(s: Seq<A>, i: int) -> Seq<A> {
    s.update(i, s.last()).drop_last()
}

/// The sequence left after swap-removing the positions of `free`, highest
/// position first. This is the compaction policy: with `free` ascending,
/// its last element names the highest freed slot, which is removed first.
pub open spec fn shrunk_seq<A>(s: Seq<A>, free: Seq<int>) -> Seq<A>
    decreases free.len(),
{
    if free.len() == 0 {
        s
    } else {
        shrunk_seq(seq_swap_remove(s, free.last()), free.drop_last())
    }
}

/// Which original positions survive compaction of a sequence of length
/// `len`, in the order the surviving values end up in.
pub open spec fn survivor_ids(len: int, free: Seq<int>) -> Seq<int> {
    shrunk_seq(Seq::new(len as nat, |i: int| i), free)
}

/// A sequence of integers in strictly increasing order (hence without
/// duplicates).
pub open spec fn strictly_ascending(s: Seq<int>) -> bool {
    forall|i: int, j: int| 0 <= i < j < s.len() ==> s[i] < s[j]
}

/// Abstract state of a compacting storage: the backing sequence of values
/// and the set of ids marked free, kept as a strictly ascending sequence.
#[verifier::ext_equal]
pub struct ShrinkModel<T> {
    pub data: Seq<T>,
    pub free: Seq<int>,
}

impl<T> ShrinkModel<T> {
    /// The invariant: the free ids are strictly ascending (a set) and each
    /// names an existing slot.
    pub open spec fn wf(self) -> bool {
        &&& strictly_ascending(self.free)
        &&& forall|i: int|
            0 <= i < self.free.len() ==> 0 <= #[trigger] self.free[i] < self.data.len()
    }

    /// Whether `id` is marked free.
    pub open spec fn is_free(self, id: int) -> bool {
        self.free.contains(id)
    }
}

/// In a strictly ascending sequence, positions that are `d` apart hold
/// values at least `d` apart.
proof fn lemma_ascending_gap(s: Seq<int>, a: int, b: int)
    requires
        strictly_ascending(s),
        0 <= a <= b < s.len(),
    ensures
        s[b] - s[a] >= b - a,
    decreases b - a,
{
    if a < b {
        lemma_ascending_gap(s, a, b - 1);
    }
}

/// Pushing onto a sequence adds exactly one member.
proof fn lemma_push_contains(s: Seq<int>, x: int, y: int)
    ensures
        s.push(x).contains(y) <==> s.contains(y) || y == x,
{
    if s.contains(y) {
        let i = choose|i: int| 0 <= i < s.len() && s[i] == y;
        assert(s.push(x)[i] == y);
    }
    assert(s.push(x)[s.len() as int] == x);
    if s.push(x).contains(y) && y != x {
        let i = choose|i: int| 0 <= i < s.push(x).len() && s.push(x)[i] == y;
        assert(s[i] == y);
    }
}

/// Swap-removing the freed positions, highest first, drops exactly one
/// element per freed position.
proof fn lemma_shrunk_len<A>(s: Seq<A>, free: Seq<int>)
    requires
        strictly_ascending(free),
        forall|i: int| 0 <= i < free.len() ==> 0 <= #[trigger] free[i] < s.len(),
    ensures
        shrunk_seq(s, free).len() == s.len() - free.len(),
    decreases free.len(),
{
    if free.len() > 0 {
        let f = free.last();
        let s1 = seq_swap_remove(s, f);
        let free1 = free.drop_last();
        assert forall|i: int| 0 <= i < free1.len() implies 0 <= #[trigger] free1[i]
            < s1.len() by {
            assert(free[i] < f);
        }
        lemma_shrunk_len(s1, free1);
    }
}

/// Prepending one more (lowest) position to the free sequence is the same
/// as swap-removing it last, after all higher positions are gone.
proof fn lemma_shrunk_cons<A>(s: Seq<A>, f: int, free: Seq<int>)
    ensures
        shrunk_seq(s, seq![f] + free) == seq_swap_remove(shrunk_seq(s, free), f),
    decreases free.len(),
{
    let c = seq![f] + free;
    if free.len() == 0 {
        assert(c.last() == f);
        assert(c.drop_last() =~= Seq::<int>::empty());
        assert(shrunk_seq(s, c) == shrunk_seq(seq_swap_remove(s, f), c.drop_last()));
        assert(shrunk_seq(seq_swap_remove(s, f), c.drop_last()) == seq_swap_remove(s, f));
        assert(shrunk_seq(s, free) == s);
    } else {
        let s1 = seq_swap_remove(s, free.last());
        assert(c.last() == free.last());
        assert(c.drop_last() =~= seq![f] + free.drop_last());
        assert(shrunk_seq(s, c) == shrunk_seq(s1, seq![f] + free.drop_last()));
        lemma_shrunk_cons(s1, f, free.drop_last());
        assert(shrunk_seq(s, free) == shrunk_seq(s1, free.drop_last()));
    }
}

/// The heart of the compaction law, stated for an arbitrary sequence `u`
/// of pairwise distinct markers: swap-removing the freed positions keeps
/// exactly the markers of the non-freed positions, each once.
proof fn lemma_shrunk_members(u: Seq<int>, free: Seq<int>)
    requires
        strictly_ascending(free),
        forall|i: int| 0 <= i < free.len() ==> 0 <= #[trigger] free[i] < u.len(),
        forall|i: int, j: int| 0 <= i < j < u.len() ==> u[i] != u[j],
    ensures
        ({
            let r = shrunk_seq(u, free);
            &&& r.len() == u.len() - free.len()
            &&& forall|i: int, j: int| 0 <= i < j < r.len() ==> r[i] != r[j]
            &&& forall|v: int|
                r.contains(v) <==> exists|j: int|
                    0 <= j < u.len() && u[j] == v && !free.contains(j)
        }),
    decreases free.len(),
{
    lemma_shrunk_len(u, free);
    let r = shrunk_seq(u, free);
    if free.len() == 0 {
        assert forall|v: int| r.contains(v) implies exists|j: int|
            0 <= j < u.len() && u[j] == v && !free.contains(j) by {
            let i = choose|i: int| 0 <= i < r.len() && r[i] == v;
            assert(u[i] == v && !free.contains(i));
        }
    } else {
        let n = u.len() as int;
        let f = free.last();
        let u1 = seq_swap_remove(u, f);
        let free1 = free.drop_last();
        assert forall|i: int| 0 <= i < free1.len() implies 0 <= #[trigger] free1[i]
            < u1.len() by {
            assert(free[i] < f);
        }
        assert forall|i: int, j: int| 0 <= i < j < u1.len() implies u1[i] != u1[j] by {
            assert(u1.len() == n - 1);
            if j == f {
                assert(u1[j] == u[n - 1]);
                assert(u1[i] == u[i]);
            } else if i == f {
                assert(u1[i] == u[n - 1]);
                assert(u1[j] == u[j]);
            } else {
                assert(u1[i] == u[i] && u1[j] == u[j]);
            }
        }
        lemma_shrunk_members(u1, free1);
        assert(r == shrunk_seq(u1, free1));
        // a position of `u` is freed iff it is `f` or freed among the rest
        assert forall|j: int| free.contains(j) implies free1.contains(j) || j == f by {
            let i = choose|i: int| 0 <= i < free.len() && free[i] == j;
            if i < free.len() - 1 {
                assert(free1[i] == j);
            }
        }
        assert forall|j: int| free1.contains(j) implies free.contains(j) && j < f by {
            let i = choose|i: int| 0 <= i < free1.len() && free1[i] == j;
            assert(free[i] == j);
            assert(free[i] < free[free.len() - 1]);
        }
        assert(free.contains(f)) by {
            assert(free[free.len() - 1] == f);
        }
        // membership carries over between `u` and `u1`
        assert forall|v: int| r.contains(v) implies exists|j: int|
            0 <= j < n && u[j] == v && !free.contains(j) by {
            let j1 = choose|j1: int| 0 <= j1 < u1.len() && u1[j1] == v && !free1.contains(j1);
            if j1 == f {
                // the marker moved here from the dropped tail position
                assert(u[n - 1] == v);
                assert(!free.contains(n - 1)) by {
                    if free.contains(n - 1) {
                        assert(free1.contains(n - 1) || n - 1 == f);
                        if free1.contains(n - 1) {
                            let i = choose|i: int|
                                0 <= i < free1.len() && free1[i] == n - 1;
                            assert(free1[i] < u1.len());
                        }
                    }
                }
            } else {
                assert(u[j1] == v);
                assert(!free.contains(j1)) by {
                    if free.contains(j1) {
                        assert(free1.contains(j1) || j1 == f);
                    }
                }
            }
        }
        assert forall|v: int, j: int|
            0 <= j < n && u[j] == v && !free.contains(j) implies r.contains(v) by {
            if j == n - 1 {
                if f == n - 1 {
                    assert(free.contains(f));
                    assert(false);
                } else {
                    assert(u1[f] == v);
                    assert(!free1.contains(f)) by {
                        if free1.contains(f) {
                            assert(free.contains(f) && f < f);
                        }
                    }
                    assert(exists|j1: int|
                        0 <= j1 < u1.len() && u1[j1] == v && !free1.contains(j1));
                }
            } else if j == f {
                assert(false);
            } else {
                assert(u1[j] == v);
                assert(!free1.contains(j));
                assert(exists|j1: int|
                    0 <= j1 < u1.len() && u1[j1] == v && !free1.contains(j1));
            }
        }
    }
}

/// Law: compaction keeps exactly the surviving slots. For a backing length
/// `len` and a well-formed free set, the surviving positions are as many
/// as the non-freed slots, pairwise distinct, each an in-range non-freed
/// position, and every non-freed position occurs among them: compaction
/// yields exactly the non-freed values, renumbered densely from 0, in the
/// swap-removal order.
pub proof fn lemma_survivors_exact(len: int, free: Seq<int>)
    requires
        0 <= len,
        strictly_ascending(free),
        forall|i: int| 0 <= i < free.len() ==> 0 <= #[trigger] free[i] < len,
    ensures
        ({
            let ids = survivor_ids(len, free);
            &&& ids.len() == len - free.len()
            &&& forall|k1: int, k2: int| 0 <= k1 < k2 < ids.len() ==> ids[k1] != ids[k2]
            &&& forall|k: int|
                0 <= k < ids.len() ==> 0 <= #[trigger] ids[k] < len && !free.contains(ids[k])
            &&& forall|id: int| 0 <= id < len && !free.contains(id) ==> ids.contains(id)
        }),
{
    let u = Seq::new(len as nat, |i: int| i);
    lemma_shrunk_members(u, free);
    let ids = survivor_ids(len, free);
    assert forall|k: int| 0 <= k < ids.len() implies 0 <= #[trigger] ids[k] < len
        && !free.contains(ids[k]) by {
        assert(ids.contains(ids[k]));
        let j = choose|j: int| 0 <= j < len && u[j] == ids[k] && !free.contains(j);
    }
    assert forall|id: int| 0 <= id < len && !free.contains(id) implies ids.contains(id) by {
        assert(u[id] == id);
    }
}

/// Compacting storage: a growable backing vector whose removal is logical.
/// Ids are marked free out of order and stay addressable (the value is not
/// erased) until an explicit compaction pass — `shrink` — produces a new,
/// denser storage with renumbered ids.
#[derive(Debug, Clone)]
pub struct ShrinkableStorage<T> {
    data: Vec<T>,
    free_ids: Vec<Id>,
}

impl<T> View for ShrinkableStorage<T> {
    type V = ShrinkModel<T>;

    closed spec fn view(&self) -> ShrinkModel<T> {
        ShrinkModel { data: self.data@, free: ids_view(self.free_ids@) }
    }
}

impl<T> ShrinkableStorage<T> {
    /// The storage's invariant, stated over its abstract state.
    pub open spec fn wf(&self) -> bool {
        self@.wf()
    }

    /// Creates an empty storage.
    pub fn new() -> (r: Self)
        ensures
            r@.data == Seq::<T>::empty(),
            r@.free == Seq::<int>::empty(),
            r.wf(),
    {
        let r = ShrinkableStorage { data: Vec::new(), free_ids: Vec::new() };
        proof {
            assert(r@.free =~= Seq::<int>::empty());
        }
        r
    }

    /// Creates an empty storage with room reserved for `capacity` values.
    pub fn with_capacity(capacity: usize) -> (r: Self)
        ensures
            r@.data == Seq::<T>::empty(),
            r@.free == Seq::<int>::empty(),
            r.wf(),
    {
        let r = ShrinkableStorage { data: Vec::with_capacity(capacity), free_ids: Vec::new() };
        proof {
            assert(r@.free =~= Seq::<int>::empty());
        }
        r
    }

    /// The number of physical slots, freed ones included.
    pub fn volume(&self) -> (r: usize)
        ensures
            r as int == self@.data.len(),
    {
        self.data.len()
    }

    /// Whether the storage holds no physical slot at all. Freed but not yet
    /// compacted slots still count as occupied.
    pub fn is_empty(&self) -> (r: bool)
        ensures
            r <==> self@.data.len() == 0,
    {
        self.data.is_empty()
    }

    /// Appends the value; the id is simply the new tail index. Ids are
    /// never reused at insert time — reuse happens only through compaction.
    pub fn insert(&mut self, obj: T) -> (id: Id)
        ensures
            id as int == old(self)@.data.len(),
            final(self)@.data == old(self)@.data.push(obj),
            final(self)@.free == old(self)@.free,
            old(self).wf() ==> final(self).wf(),
    {
        let id = self.data.len();
        self.data.push(obj);
        id
    }

    /// The value at `id`. The id must be in range; a freed id still reads
    /// its (stale) value until compaction.
    pub fn get(&self, id: Id) -> (r: &T)
        requires
            (id as int) < self@.data.len(),
        ensures
            *r == self@.data[id as int],
    {
        &self.data[id]
    }

    /// A mutable borrow of the value at `id`.
    pub fn get_mut(&mut self, id: Id) -> (r: &mut T)
        requires
            (id as int) < old(self)@.data.len(),
        ensures
            *r == old(self)@.data[id as int],
            final(self)@.data == old(self)@.data.update(id as int, *final(r)),
            final(self)@.free == old(self)@.free,
            old(self).wf() ==> final(self).wf(),
    {
        &mut self.data[id]
    }

    /// Marks `id` as free. The backing vector is untouched: the value stays
    /// physically present until `shrink`. The id must name an existing
    /// slot. The free set is duplicate-tolerant: marking an id that is
    /// already free changes nothing.
    #[verifier::rlimit(50)]
    pub fn free_id(&mut self, id: Id)
        requires
            old(self).wf(),
            (id as int) < old(self)@.data.len(),
        ensures
            final(self).wf(),
            final(self)@.data == old(self)@.data,
            forall|j: int| final(self)@.is_free(j) <==> old(self)@.is_free(j) || j == id as int,
    {
        let ghost f = old(self)@.free;
        let mut k: usize = 0;
        while k < self.free_ids.len() && self.free_ids[k] < id
            invariant
                self == old(self),
                k as int <= self.free_ids@.len(),
                forall|j: int| 0 <= j < k as int ==> #[trigger] self.free_ids@[j] < id,
            decreases self.free_ids@.len() - k as int,
        {
            k = k + 1;
        }
        proof {
            assert(f.len() == self.free_ids@.len());
            assert forall|j: int| 0 <= j < k as int implies #[trigger] f[j] < id as int by {
                assert(f[j] == self.free_ids@[j] as int);
            }
        }
        if k < self.free_ids.len() && self.free_ids[k] == id {
            // already marked: the set is unchanged
            proof {
                assert(f[k as int] == id as int);
                assert(old(self)@.is_free(id as int));
            }
            return ;
        }
        proof {
            assert(k as int == f.len() || f[k as int] > id as int);
        }
        self.free_ids.insert(k, id);
        proof {
            let nf = self@.free;
            assert(nf =~= f.insert(k as int, id as int)) by {
                assert(nf.len() == f.len() + 1);
                f.insert_ensures(k as int, id as int);
                assert forall|j: int| 0 <= j < nf.len() implies nf[j] == f.insert(
                    k as int,
                    id as int,
                )[j] by {
                    if j < k as int {
                        assert(self.free_ids@[j] == old(self).free_ids@[j]);
                    } else if j == k as int {
                        assert(self.free_ids@[j] == id);
                    } else {
                        assert(self.free_ids@[j] == old(self).free_ids@[j - 1]);
                    }
                }
            }
            f.insert_ensures(k as int, id as int);
            // sortedness: everything below the insertion point is smaller,
            // everything at or above it is larger
            assert forall|a: int, b: int| 0 <= a < b < nf.len() implies nf[a] < nf[b] by {
                if b < k as int {
                    assert(nf[a] == f[a] && nf[b] == f[b]);
                } else if b == k as int {
                    assert(nf[a] == f[a] && nf[b] == id as int);
                } else if a < k as int {
                    assert(nf[a] == f[a] && nf[b] == f[b - 1]);
                    if b - 1 > k as int {
                        assert(f[k as int] < f[b - 1]);
                    }
                } else if a == k as int {
                    assert(nf[a] == id as int && nf[b] == f[b - 1]);
                    if b - 1 > k as int {
                        assert(f[k as int] < f[b - 1]);
                    }
                } else {
                    assert(nf[a] == f[a - 1] && nf[b] == f[b - 1]);
                }
            }
            // membership: exactly `id` was added
            assert forall|j: int| self@.is_free(j) implies old(self)@.is_free(j) || j
                == id as int by {
                let i = choose|i: int| 0 <= i < nf.len() && nf[i] == j;
                if i < k as int {
                    assert(f[i] == j);
                } else if i > k as int {
                    assert(f[i - 1] == j);
                }
            }
            assert forall|j: int| old(self)@.is_free(j) implies self@.is_free(j) by {
                let i = choose|i: int| 0 <= i < f.len() && f[i] == j;
                if i < k as int {
                    assert(nf[i] == j);
                } else {
                    assert(nf[i + 1] == j);
                }
            }
        }
    }

    /// Batch marking: adds every id of `ids` to the free set. Each id must
    /// name an existing slot; duplicates, within the batch or against ids
    /// already free, are tolerated.
    pub fn free_ids(&mut self, ids: Vec<Id>)
        requires
            old(self).wf(),
            forall|i: int| 0 <= i < ids@.len() ==> (#[trigger] ids@[i] as int) < old(
                self,
            )@.data.len(),
        ensures
            final(self).wf(),
            final(self)@.data == old(self)@.data,
            forall|j: int|
                final(self)@.is_free(j) <==> old(self)@.is_free(j) || ids_view(ids@).contains(j),
    {
        let mut k: usize = 0;
        while k < ids.len()
            invariant
                k as int <= ids@.len(),
                self.wf(),
                self@.data == old(self)@.data,
                forall|i: int| 0 <= i < ids@.len() ==> (#[trigger] ids@[i] as int) < old(
                    self,
                )@.data.len(),
                forall|j: int|
                    self@.is_free(j) <==> old(self)@.is_free(j) || ids_view(
                        ids@.take(k as int),
                    ).contains(j),
            decreases ids@.len() - k as int,
        {
            let ghost prev = self@;
            self.free_id(ids[k]);
            proof {
                assert(ids_view(ids@.take(k as int + 1)) =~= ids_view(ids@.take(k as int)).push(
                    ids@[k as int] as int,
                ));
                assert forall|j: int| self@.is_free(j) <==> old(self)@.is_free(j) || ids_view(
                    ids@.take(k as int + 1),
                ).contains(j) by {
                    lemma_push_contains(
                        ids_view(ids@.take(k as int)),
                        ids@[k as int] as int,
                        j,
                    );
                }
            }
            k = k + 1;
        }
        proof {
            assert(ids@.take(ids@.len() as int) =~= ids@);
        }
    }

    /// Whether `id` is currently marked free.
    pub fn is_id_free(&mut self, id: &Id) -> (r: bool)
        ensures
            final(self)@ == old(self)@,
            r <==> old(self)@.is_free(*id as int),
    {
        let mut k: usize = 0;
        while k < self.free_ids.len()
            invariant
                self == old(self),
                k as int <= self@.free.len(),
                forall|j: int| 0 <= j < k as int ==> #[trigger] self@.free[j] != *id as int,
            decreases self@.free.len() - k as int,
        {
            if self.free_ids[k] == *id {
                proof {
                    assert(self@.free[k as int] == *id as int);
                }
                return true;
            }
            k = k + 1;
        }
        proof {
            assert(!self@.free.contains(*id as int));
        }
        false
    }

    /// Clears the free set without touching the backing vector: every id
    /// becomes live again.
    pub fn restore_freed(&mut self)
        ensures
            final(self)@.data == old(self)@.data,
            final(self)@.free == Seq::<int>::empty(),
            final(self).wf(),
    {
        self.free_ids.clear();
        proof {
            assert(self@.free =~= Seq::<int>::empty());
        }
    }

    /// Every physical slot as an `(id, value)` pair in id order, freed
    /// slots included: callers that want live entries only must filter
    /// with `is_id_free`.
    pub fn iter(&self) -> (r: Vec<(Id, &T)>)
        ensures
            r@.len() == self@.data.len(),
            forall|i: int|
                0 <= i < r@.len() ==> #[trigger] r@[i].0 == i && *r@[i].1 == self@.data[i],
    {
        let mut r: Vec<(Id, &T)> = Vec::new();
        let mut i: usize = 0;
        while i < self.data.len()
            invariant
                i as int <= self@.data.len(),
                r@.len() == i as int,
                forall|j: int|
                    0 <= j < i as int ==> #[trigger] r@[j].0 == j && *r@[j].1 == self@.data[j],
            decreases self@.data.len() - i as int,
        {
            r.push((i, &self.data[i]));
            i = i + 1;
        }
        r
    }

    /// Every physical id, `0, 1, ..., volume - 1`, freed ones included.
    pub fn iter_ids(&self) -> (r: Vec<Id>)
        ensures
            r@.len() == self@.data.len(),
            forall|i: int| 0 <= i < r@.len() ==> #[trigger] r@[i] == i,
    {
        let mut r: Vec<Id> = Vec::new();
        let mut i: usize = 0;
        while i < self.data.len()
            invariant
                i as int <= self@.data.len(),
                r@.len() == i as int,
                forall|j: int| 0 <= j < i as int ==> #[trigger] r@[j] == j,
            decreases self@.data.len() - i as int,
        {
            r.push(i);
            i = i + 1;
        }
        r
    }

    /// Appends every value of `values` in order; their ids are the tail
    /// indices, exactly as repeated single inserts would assign.
    pub fn extend(&mut self, values: Vec<T>)
        ensures
            final(self)@.data == old(self)@.data + values@,
            final(self)@.free == old(self)@.free,
            old(self).wf() ==> final(self).wf(),
    {
        let mut values = values;
        self.data.append(&mut values);
    }

    /// Keeps only the values the predicate accepts, preserving their
    /// order: afterwards the backing vector holds, in order, exactly the
    /// values at some ascending selection of old positions, each accepted
    /// by the predicate, and every dropped position was rejected. The free
    /// set is left exactly as it was — it is not re-pointed — so freed ids
    /// may afterwards name different slots, or none: the caller is
    /// expected to clear or rebuild it.
    pub fn retain<P: Fn(&T) -> bool>(&mut self, predicate: P)
        requires
            forall|i: int|
                0 <= i < old(self)@.data.len() ==> call_requires(
                    predicate,
                    (&old(self)@.data[i],),
                ),
        ensures
            final(self)@.free == old(self)@.free,
            exists|keep: Seq<int>|
                {
                    &&& strictly_ascending(keep)
                    &&& forall|k: int|
                        0 <= k < keep.len() ==> 0 <= #[trigger] keep[k] < old(self)@.data.len()
                    &&& final(self)@.data.len() == keep.len()
                    &&& forall|k: int|
                        0 <= k < keep.len() ==> final(self)@.data[k] == old(self)@.data[(
                        #[trigger] keep[k]
                        )]
                    &&& forall|k: int|
                        0 <= k < keep.len() ==> call_ensures(
                            predicate,
                            (&old(self)@.data[(#[trigger] keep[k])],),
                            true,
                        )
                    &&& forall|j: int|
                        0 <= j < old(self)@.data.len() && !keep.contains(j) ==> call_ensures(
                            predicate,
                            (&old(self)@.data[j],),
                            false,
                        )
                },
    {
        let ghost orig = old(self)@.data;
        let ghost mut keep: Seq<int> = Seq::empty();
        let ghost mut g: int = 0;
        let mut i: usize = 0;
        while i < self.data.len()
            invariant
                self@.free == old(self)@.free,
                i as int == keep.len(),
                keep.len() <= g <= orig.len(),
                self@.data.len() == keep.len() + (orig.len() - g),
                strictly_ascending(keep),
                forall|k: int| 0 <= k < keep.len() ==> 0 <= #[trigger] keep[k] < g,
                forall|k: int|
                    0 <= k < keep.len() ==> self@.data[k] == orig[(#[trigger] keep[k])],
                forall|t: int|
                    keep.len() <= t < self@.data.len() ==> #[trigger] self@.data[t] == orig[t
                        - keep.len() + g],
                forall|k: int|
                    0 <= k < keep.len() ==> call_ensures(
                        predicate,
                        (&orig[(#[trigger] keep[k])],),
                        true,
                    ),
                forall|j: int|
                    0 <= j < g && !keep.contains(j) ==> call_ensures(
                        predicate,
                        (&orig[j],),
                        false,
                    ),
                forall|i2: int| 0 <= i2 < orig.len() ==> call_requires(predicate, (&orig[i2],)),
            decreases orig.len() - g,
        {
            proof {
                assert(self@.data[i as int] == orig[g]);
            }
            let verdict = predicate(&self.data[i]);
            proof {
                assert(call_ensures(predicate, (&orig[g],), verdict));
            }
            if verdict {
                proof {
                    let keep2 = keep.push(g);
                    assert forall|a: int, b: int| 0 <= a < b < keep2.len() implies keep2[a]
                        < keep2[b] by {
                        if b < keep2.len() - 1 {
                            assert(keep2[a] == keep[a] && keep2[b] == keep[b]);
                        } else {
                            assert(keep2[b] == g);
                        }
                    }
                    assert(keep2[keep.len() as int] == g);
                    assert(keep2.contains(g));
                    assert forall|j: int| 0 <= j < g + 1 && !keep2.contains(j)
                        implies call_ensures(predicate, (&orig[j],), false) by {
                        if j < g {
                            assert forall|m: int|
                                0 <= m < keep.len() implies keep2[m] == #[trigger] keep[m] by {}
                            assert(!keep.contains(j));
                        }
                    }
                    keep = keep2;
                    g = g + 1;
                }
                i = i + 1;
            } else {
                let ghost pre = self@.data;
                self.data.remove(i);
                proof {
                    pre.remove_ensures(i as int);
                    // the dropped position `g` was rejected, and no kept
                    // index equals it
                    assert forall|j: int| 0 <= j < g + 1 && !keep.contains(j)
                        implies call_ensures(predicate, (&orig[j],), false) by {
                        if j == g {
                            assert(call_ensures(predicate, (&orig[g],), false));
                        }
                    }
                    g = g + 1;
                }
            }
        }
        proof {
            assert(g == orig.len());
            let keepw = keep;
            assert(exists|k: Seq<int>|
                {
                    &&& strictly_ascending(k)
                    &&& forall|m: int| 0 <= m < k.len() ==> 0 <= #[trigger] k[m] < orig.len()
                    &&& self@.data.len() == k.len()
                    &&& forall|m: int| 0 <= m < k.len() ==> self@.data[m] == orig[(#[trigger] k[m])]
                    &&& forall|m: int|
                        0 <= m < k.len() ==> call_ensures(
                            predicate,
                            (&orig[(#[trigger] k[m])],),
                            true,
                        )
                    &&& forall|j: int|
                        0 <= j < orig.len() && !k.contains(j) ==> call_ensures(
                            predicate,
                            (&orig[j],),
                            false,
                        )
                }) by {
                assert(strictly_ascending(keepw));
                assert(self@.data.len() == keepw.len());
            }
        }
    }

    /// The number of ids currently marked free.
    pub fn free_ids_num(&self) -> (r: usize)
        ensures
            r as int == self@.free.len(),
    {
        self.free_ids.len()
    }
}

impl<T: Clone> ShrinkableStorage<T> {
    /// Returns a new storage holding only the non-freed values, with ids
    /// renumbered densely from 0 and an empty free set; the original
    /// storage is left untouched. The freed slots are removed from the
    /// highest id down with swap-removal, so the survivors' order follows
    /// that policy, not insertion order: slot `k` of the result is a clone
    /// of slot `survivor_ids(...)[k]` of the source.
    pub fn shrink(&self) -> (r: Self)
        requires
            self.wf(),
        ensures
            r.wf(),
            r@.free == Seq::<int>::empty(),
            r@.data.len() == self@.data.len() - self@.free.len(),
            r@.data.len() == survivor_ids(self@.data.len() as int, self@.free).len(),
            forall|k: int|
                0 <= k < r@.data.len() ==> cloned::<T>(
                    self@.data[survivor_ids(self@.data.len() as int, self@.free)[k]],
                    #[trigger] r@.data[k],
                ),
    {
        let ghost orig = self@.data;
        let ghost free = self@.free;
        let ghost n = orig.len() as int;
        let ghost idseq = Seq::new(n as nat, |i: int| i);
        let ghost m = free.len() as int;

        let mut new_data = self.data.clone();
        let mut j: usize = self.free_ids.len();
        proof {
            assert(free.skip(m) =~= Seq::<int>::empty());
            assert forall|t: int| 0 <= t < n implies 0 <= idseq[t] < n && cloned::<T>(
                orig[idseq[t]],
                #[trigger] new_data@[t],
            ) by {
            }
        }
        while j > 0
            invariant
                j as int <= m,
                m == free.len(),
                n == orig.len(),
                idseq == Seq::new(n as nat, |i: int| i),
                self.wf(),
                orig == self@.data,
                free == self@.free,
                new_data@.len() == shrunk_seq(idseq, free.skip(j as int)).len(),
                new_data@.len() == n - (m - j as int),
                forall|t: int|
                    0 <= t < new_data@.len() ==> 0 <= #[trigger] shrunk_seq(
                        idseq,
                        free.skip(j as int),
                    )[t] < n,
                forall|t: int|
                    0 <= t < new_data@.len() ==> cloned::<T>(
                        orig[shrunk_seq(idseq, free.skip(j as int))[t]],
                        #[trigger] new_data@[t],
                    ),
            decreases j,
        {
            let ghost cur = shrunk_seq(idseq, free.skip(j as int));
            let f = self.free_ids[j - 1];
            proof {
                assert(free[j as int - 1] == f as int);
                if j as int - 1 < m - 1 {
                    lemma_ascending_gap(free, j as int - 1, m - 1);
                }
                assert(f as int <= free[m - 1] - (m - j as int));
                assert((f as int) < new_data@.len());
            }
            let ghost prev = new_data@;
            new_data.swap_remove(f);
            j = j - 1;
            proof {
                assert(new_data@ == seq_swap_remove(prev, f as int));
                assert(free.skip(j as int) =~= seq![free[j as int]] + free.skip(j as int + 1));
                lemma_shrunk_cons(idseq, free[j as int], free.skip(j as int + 1));
                let cur2 = shrunk_seq(idseq, free.skip(j as int));
                assert(cur2 == seq_swap_remove(cur, f as int));
                assert forall|t: int| 0 <= t < new_data@.len() implies 0 <= cur2[t] < n
                    && cloned::<T>(orig[cur2[t]], #[trigger] new_data@[t]) by {
                    if t == f as int {
                        assert(cur2[t] == cur[cur.len() - 1]);
                        assert(new_data@[t] == prev[prev.len() - 1]);
                        assert(cloned::<T>(orig[cur[cur.len() - 1]], prev[prev.len() - 1]));
                    } else {
                        assert(cur2[t] == cur[t]);
                        assert(new_data@[t] == prev[t]);
                    }
                }
            }
        }
        proof {
            assert(free.skip(0) =~= free);
        }
        let r = ShrinkableStorage { data: new_data, free_ids: Vec::new() };
        proof {
            assert(r@.free =~= Seq::<int>::empty());
            lemma_shrunk_len(idseq, free);
        }
        r
    }
}

} // verus!
