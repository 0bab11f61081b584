use vstd::prelude::*;

use crate::Id;

verus! {

/// The free stack of a concrete allocator, as mathematical integers.
pub open spec fn ids_view(s: Seq<usize>) -> Seq<int> {
    s.map_values(|id: usize| id as int)
}

/// Abstract state of an id allocator: the watermark `top` (the smallest id
/// never yet issued) and the stack `free` of released ids available for
/// reuse. The most recently released id sits at the end of the sequence.
#[verifier::ext_equal]
pub struct AllocModel {
    pub top: int,
    pub free: Seq<int>,
}

impl AllocModel {
    /// The allocator's invariant: every free id was issued (it lies below
    /// the watermark) and no id sits in the free stack twice.
    pub open spec fn wf(self) -> bool {
        &&& 0 <= self.top
        &&& forall|i: int| 0 <= i < self.free.len() ==> 0 <= #[trigger] self.free[i] < self.top
        &&& forall|i: int, j: int|
            0 <= i < j < self.free.len() ==> self.free[i] != self.free[j]
    }

    /// An id is outstanding when it has been issued and not released since:
    /// exactly the ids some caller currently holds.
    pub open spec fn outstanding(self, id: int) -> bool {
        0 <= id < self.top && !self.free.contains(id)
    }

    /// The state of a freshly created allocator.
    pub open spec fn empty() -> AllocModel {
        AllocModel { top: 0, free: Seq::empty() }
    }

    /// The state of an allocator pre-seeded for `n` slots: the watermark is
    /// already `n` and the free stack holds `n - 1, ..., 1, 0`, the smallest
    /// id on top of the stack.
    pub open spec fn seeded(n: int) -> AllocModel {
        AllocModel { top: n, free: Seq::new(n as nat, |i: int| n - 1 - i) }
    }

    /// One acquire step: pop the most recently released id if any exists,
    /// otherwise issue the watermark and raise it. Returns the state after
    /// the step and the issued id.
    pub open spec fn acquired(self) -> (AllocModel, int) {
        if self.free.len() > 0 {
            (AllocModel { top: self.top, free: self.free.drop_last() }, self.free.last())
        } else {
            (AllocModel { top: self.top + 1, free: self.free }, self.top)
        }
    }

    /// One release step: push the id onto the free stack.
    pub open spec fn released(self, id: int) -> AllocModel {
        AllocModel { top: self.top, free: self.free.push(id) }
    }
}

/// The state after `n` successive acquire steps from `s`, together with the
/// sequence of ids they issued, in order.
pub open spec fn acquired_many(s: AllocModel, n: nat) -> (AllocModel, Seq<int>)
    decreases n,
{
    if n == 0 {
        (s, Seq::empty())
    } else {
        let (s1, ids) = acquired_many(s, (n - 1) as nat);
        let (s2, id) = s1.acquired();
        (s2, ids.push(id))
    }
}

/// An id allocator: hands out and recycles small non-negative integers.
///
/// Ids are issued from a free stack of previously released ids when one is
/// available, and from a monotonically growing watermark otherwise.
#[derive(Debug)]
pub struct IdCache {
    top_id: usize,
    free_ids: Vec<Id>,
}

impl View for IdCache {
    type V = AllocModel;

    closed spec fn view(&self) -> AllocModel {
        AllocModel { top: self.top_id as int, free: ids_view(self.free_ids@) }
    }
}

impl IdCache {
    /// The allocator's invariant, stated over its abstract state.
    pub open spec fn wf(&self) -> bool {
        self@.wf()
    }

    /// Creates an empty allocator: watermark 0, no free ids.
    pub fn new() -> (r: Self)
        ensures
            r@ == AllocModel::empty(),
            r.wf(),
    {
        let r = IdCache { top_id: 0, free_ids: Vec::new() };
        proof {
            assert(r@ =~= AllocModel::empty());
        }
        r
    }

    /// Creates an allocator pre-seeded for `capacity` slots: the watermark
    /// is already `capacity` and every id below it sits in the free stack,
    /// the smallest on top, so the first `capacity` acquires return
    /// `0, 1, ...` in order without growing the watermark.
    pub fn with_capacity(capacity: usize) -> (r: Self)
        ensures
            r@ == AllocModel::seeded(capacity as int),
            r.wf(),
    {
        let mut free_ids: Vec<usize> = Vec::new();
        let mut k: usize = 0;
        while k < capacity
            invariant
                k <= capacity,
                free_ids@.len() == k as int,
                forall|j: int| 0 <= j < k as int ==> free_ids@[j] == capacity - 1 - j,
            decreases capacity - k,
        {
            free_ids.push(capacity - 1 - k);
            k = k + 1;
        }
        let r = IdCache { top_id: capacity, free_ids };
        proof {
            assert(r@ =~= AllocModel::seeded(capacity as int));
        }
        r
    }

    /// Returns a free-pool id if one exists — the most recently released
    /// one, stack order — and otherwise issues the watermark and raises it.
    pub fn acquire_id(&mut self) -> (id: Id)
        requires
            old(self).wf(),
            old(self)@.top < usize::MAX as int,
        ensures
            final(self).wf(),
            (final(self)@, id as int) == old(self)@.acquired(),
            !old(self)@.outstanding(id as int),
            final(self)@.outstanding(id as int),
    {
        let id = match self.try_acquire_id() {
            Some(id) => id,
            None => {
                let old_top_id = self.top_id;
                self.top_id = self.top_id + 1;
                old_top_id
            },
        };
        proof {
            lemma_acquire_gives_unheld_id(old(self)@);
        }
        id
    }

    /// Pops the most recently released id, if any. Never raises the
    /// watermark: with an empty free stack it returns `None` and leaves the
    /// allocator unchanged, so allocation can fail instead of growing.
    pub fn try_acquire_id(&mut self) -> (r: Option<Id>)
        requires
            old(self).wf(),
        ensures
            final(self).wf(),
            old(self)@.free.len() == 0 ==> r is None && final(self)@ == old(self)@,
            old(self)@.free.len() > 0 ==> {
                &&& r == Some(old(self)@.free.last() as usize)
                &&& final(self)@ == old(self)@.acquired().0
                &&& final(self)@.free == old(self)@.free.drop_last()
            },
    {
        let r = self.free_ids.pop();
        proof {
            if old(self).free_ids@.len() > 0 {
                assert(self.free_ids@ =~= old(self).free_ids@.drop_last());
                assert(self@.free =~= old(self)@.free.drop_last());
                assert(self@ =~= old(self)@.acquired().0);
            } else {
                assert(self@ =~= old(self)@);
            }
        }
        r
    }

    /// Returns `id` to the free pool. The id must be outstanding: issued
    /// (below the watermark) and not already free. Releasing an id twice
    /// without reacquiring it in between is a caller error that this
    /// contract excludes.
    pub fn release_id(&mut self, id: Id)
        requires
            old(self).wf(),
            old(self)@.outstanding(id as int),
        ensures
            final(self).wf(),
            final(self)@ == old(self)@.released(id as int),
    {
        self.free_ids.push(id);
        proof {
            assert(self@.free =~= old(self)@.free.push(id as int));
            assert(self@ =~= old(self)@.released(id as int));
            lemma_release_keeps_wf(old(self)@, id as int);
        }
    }

    /// Batch release: pushes every id of `ids` onto the free stack, in
    /// order. The ids must be pairwise distinct and each outstanding.
    pub fn release_ids(&mut self, ids: Vec<Id>)
        requires
            old(self).wf(),
            forall|i: int|
                0 <= i < ids@.len() ==> old(self)@.outstanding(#[trigger] ids@[i] as int),
            forall|i: int, j: int| 0 <= i < j < ids@.len() ==> ids@[i] != ids@[j],
        ensures
            final(self).wf(),
            final(self)@.top == old(self)@.top,
            final(self)@.free == old(self)@.free + ids_view(ids@),
    {
        let mut k: usize = 0;
        while k < ids.len()
            invariant
                k <= ids@.len(),
                self@.top == old(self)@.top,
                self@.free =~= old(self)@.free + ids_view(ids@.take(k as int)),
                old(self).wf(),
                forall|i: int|
                    0 <= i < ids@.len() ==> old(self)@.outstanding(#[trigger] ids@[i] as int),
                forall|i: int, j: int| 0 <= i < j < ids@.len() ==> ids@[i] != ids@[j],
            decreases ids@.len() - k,
        {
            let id = ids[k];
            self.free_ids.push(id);
            proof {
                assert(self@.free =~= old(self)@.free + ids_view(ids@.take(k as int)) + seq![
                    id as int,
                ]);
                assert(ids@.take(k + 1) =~= ids@.take(k as int).push(id));
                assert(self@.free =~= old(self)@.free + ids_view(ids@.take(k + 1)));
            }
            k = k + 1;
        }
        proof {
            assert(ids@.take(ids@.len() as int) =~= ids@);
            lemma_release_many_keeps_wf(old(self)@, ids@);
        }
    }

    /// Forgets everything: watermark back to 0 and the free stack cleared.
    /// Every previously issued id is invalidated; the caller must guarantee
    /// that no stale id is used afterwards.
    pub fn reset(&mut self)
        ensures
            final(self)@ == AllocModel::empty(),
            final(self).wf(),
    {
        self.top_id = 0;
        self.free_ids.clear();
        proof {
            assert(self@ =~= AllocModel::empty());
        }
    }

    /// The concrete watermark is a machine word: lets callers relate ids
    /// as mathematical integers to ids as `usize`.
    pub proof fn lemma_model_bounds(&self)
        ensures
            0 <= self@.top <= usize::MAX as int,
    {
    }

    /// The number of ids currently in the free pool.
    pub fn free_ids_num(&self) -> (r: usize)
        ensures
            r as int == self@.free.len(),
    {
        self.free_ids.len()
    }

    /// The watermark: the smallest id never yet issued.
    pub fn top_id(&self) -> (r: usize)
        ensures
            r as int == self@.top,
    {
        self.top_id
    }

    /// The free stack itself, bottom of the stack first: the last element is
    /// the id that the next `acquire_id` will reuse.
    pub fn free_ids(&self) -> (r: &Vec<Id>)
        ensures
            ids_view(r@) == self@.free,
    {
        &self.free_ids
    }
}

/// Releasing an outstanding id preserves the allocator's invariant.
pub(crate) proof fn lemma_release_keeps_wf(s: AllocModel, id: int)
    requires
        s.wf(),
        s.outstanding(id),
    ensures
        s.released(id).wf(),
{
    let f = s.released(id).free;
    assert forall|i: int, j: int| 0 <= i < j < f.len() implies f[i] != f[j] by {
        if j == f.len() - 1 {
            assert(s.free[i] == f[i]);
            assert(!s.free.contains(id));
        }
    }
}

/// Releasing a batch of pairwise distinct outstanding ids preserves the
/// allocator's invariant.
pub(crate) proof fn lemma_release_many_keeps_wf(s: AllocModel, ids: Seq<usize>)
    requires
        s.wf(),
        forall|i: int| 0 <= i < ids.len() ==> s.outstanding(#[trigger] ids[i] as int),
        forall|i: int, j: int| 0 <= i < j < ids.len() ==> ids[i] != ids[j],
    ensures
        (AllocModel { top: s.top, free: s.free + ids_view(ids) }).wf(),
{
    let f = s.free + ids_view(ids);
    let n = s.free.len() as int;
    assert forall|i: int| 0 <= i < f.len() implies 0 <= #[trigger] f[i] < s.top by {
        if i >= n {
            assert(f[i] == ids[i - n] as int);
        }
    }
    assert forall|i: int, j: int| 0 <= i < j < f.len() implies f[i] != f[j] by {
        if i < n && j >= n {
            assert(f[j] == ids[j - n] as int);
            assert(s.free.contains(f[i]));
        } else if i >= n {
            assert(f[i] == ids[i - n] as int);
            assert(f[j] == ids[j - n] as int);
        }
    }
}

/// Law: the allocator never issues an id that is already held. One acquire
/// step returns an id that no caller holds, makes it outstanding, keeps
/// every previously outstanding id outstanding, and makes no other id
/// outstanding. Hence no two live holders ever share an id.
pub proof fn lemma_acquire_gives_unheld_id(s: AllocModel)
    requires
        s.wf(),
    ensures
        ({
            let (s2, id) = s.acquired();
            &&& !s.outstanding(id)
            &&& s2.wf()
            &&& s2.outstanding(id)
            &&& forall|j: int| s.outstanding(j) ==> s2.outstanding(j)
            &&& forall|j: int| s2.outstanding(j) ==> s.outstanding(j) || j == id
        }),
{
    let (s2, id) = s.acquired();
    if s.free.len() > 0 {
        assert(s.free.contains(id));
        assert forall|i: int| 0 <= i < s2.free.len() implies s2.free[i] != id by {
            assert(s2.free[i] == s.free[i]);
        }
        assert(!s2.free.contains(id));
        assert forall|j: int| s.outstanding(j) implies s2.outstanding(j) by {
            if s2.free.contains(j) {
                let i = choose|i: int| 0 <= i < s2.free.len() && s2.free[i] == j;
                assert(s.free[i] == j);
                assert(s.free.contains(j));
            }
        }
        assert forall|j: int| s2.outstanding(j) && j != id implies s.outstanding(j) by {
            if s.free.contains(j) {
                let i = choose|i: int| 0 <= i < s.free.len() && s.free[i] == j;
                assert(i < s.free.len() - 1);
                assert(s2.free[i] == j);
            }
        }
    } else {
        assert forall|j: int| s.outstanding(j) implies s2.outstanding(j) by {}
    }
}

/// Law: two successive acquire steps issue distinct ids, and both ids are
/// outstanding afterwards.
pub proof fn lemma_two_acquires_distinct(s: AllocModel)
    requires
        s.wf(),
    ensures
        ({
            let (s1, id1) = s.acquired();
            let (s2, id2) = s1.acquired();
            &&& id1 != id2
            &&& s2.outstanding(id1)
            &&& s2.outstanding(id2)
        }),
{
    lemma_acquire_gives_unheld_id(s);
    lemma_acquire_gives_unheld_id(s.acquired().0);
}

/// Law: reuse is stack ordered. Releasing an outstanding id and then
/// acquiring returns exactly that id — the most recently released one — and
/// restores the allocator's state.
pub proof fn lemma_acquire_stack_order(s: AllocModel, id: int)
    requires
        s.wf(),
        s.outstanding(id),
    ensures
        s.released(id).acquired().1 == id,
        s.released(id).acquired().0 == s,
{
    assert(s.released(id).free.drop_last() =~= s.free);
    assert(s.released(id).acquired().0 =~= s);
}

/// Law: an allocator seeded for `n` slots hands out exactly the ids
/// `0, 1, ..., n - 1` over its first `n` acquires — so the issued set is
/// `{0, ..., n - 1}` — and the acquire after that issues `n`.
pub proof fn lemma_seeded_acquire_all(n: nat)
    ensures
        ({
            let (s, ids) = acquired_many(AllocModel::seeded(n as int), n);
            &&& ids == Seq::new(n, |i: int| i)
            &&& forall|j: int| ids.contains(j) <==> 0 <= j < n
            &&& s.acquired().1 == n as int
        }),
{
    lemma_seeded_acquire_prefix(n, n);
    let (s, ids) = acquired_many(AllocModel::seeded(n as int), n);
    assert(ids =~= Seq::new(n, |i: int| i));
    assert forall|j: int| 0 <= j < n implies ids.contains(j) by {
        assert(ids[j] == j);
    }
}

/// After `k <= n` acquires from an allocator seeded for `n` slots, the ids
/// issued so far are `0, ..., k - 1` in order and the free stack still holds
/// `n - 1, ..., k`, the smallest on top.
proof fn lemma_seeded_acquire_prefix(n: nat, k: nat)
    requires
        k <= n,
    ensures
        ({
            let (s, ids) = acquired_many(AllocModel::seeded(n as int), k);
            &&& s.top == n as int
            &&& s.free =~= Seq::new((n - k) as nat, |i: int| n - 1 - i)
            &&& ids =~= Seq::new(k, |i: int| i)
        }),
    decreases k,
{
    if k > 0 {
        lemma_seeded_acquire_prefix(n, (k - 1) as nat);
        let (s1, ids1) = acquired_many(AllocModel::seeded(n as int), (k - 1) as nat);
        assert(s1.free.len() == n - k + 1);
        assert(s1.free.last() == n - 1 - (n - (k - 1) - 1));
        let (s, ids) = acquired_many(AllocModel::seeded(n as int), k);
        assert(s.free =~= Seq::new((n - k) as nat, |i: int| n - 1 - i));
        assert(ids =~= Seq::new(k, |i: int| i));
    } else {
        assert(acquired_many(AllocModel::seeded(n as int), 0).0 == AllocModel::seeded(n as int));
    }
}

} // verus!
