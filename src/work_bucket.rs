use vstd::prelude::*;

verus! {

/// Priority given to work added without an explicit one.
pub const DEFAULT_PRIORITY: usize = 1000;

/// A work item together with the priority it was queued under.
pub struct PrioritizedWork<W> {
    pub priority: usize,
    pub work: W,
}

/// Index of the item that a poll hands out: the first one of greatest priority.
pub open spec fn is_poll_choice<W>(q: Seq<PrioritizedWork<W>>, i: int) -> bool {
    &&& 0 <= i < q.len()
    &&& forall|j: int| 0 <= j < q.len() ==> #[trigger] q[j].priority <= q[i].priority
    &&& forall|j: int| 0 <= j < i ==> #[trigger] q[j].priority < q[i].priority
}

/// A polled item leaves its bucket: the bucket's contents lose exactly one copy of it, so
/// each queued item is handed out once.
pub proof fn lemma_poll_hands_out_once<W>(q: Seq<PrioritizedWork<W>>, i: int)
    requires
        is_poll_choice(q, i),
    ensures
        q.remove(i).to_multiset() == q.to_multiset().remove(q[i]),
        q.remove(i).len() + 1 == q.len(),
        q.to_multiset().count(q[i]) == q.remove(i).to_multiset().count(q[i]) + 1,
{
    vstd::seq_lib::to_multiset_remove(q, i);
    vstd::seq_lib::to_multiset_contains(q, q[i]);
    assert(q.contains(q[i]));
}

/// A gated queue of collection work. Items are handed out greatest priority first,
/// and only while the bucket is active.
pub struct WorkBucket<W> {
    active: bool,
    queue: Vec<PrioritizedWork<W>>,
    active_priority: usize,
    open_condition: Option<Vec<usize>>,
}

impl<W> WorkBucket<W> {
    pub closed spec fn spec_active(&self) -> bool {
        self.active
    }

    pub closed spec fn spec_active_priority(&self) -> usize {
        self.active_priority
    }

    pub closed spec fn spec_queue(&self) -> Seq<PrioritizedWork<W>> {
        self.queue@
    }

    /// The buckets that must be drained before this one opens, if it opens by itself.
    pub closed spec fn spec_open_condition(&self) -> Option<Seq<usize>> {
        match self.open_condition {
            Some(v) => Some(v@),
            None => None,
        }
    }

    pub fn new(active: bool) -> (r: Self)
        ensures
            r.spec_active() == active,
            r.spec_queue() == Seq::<PrioritizedWork<W>>::empty(),
            r.spec_active_priority() == usize::MAX,
            r.spec_open_condition() is None,
    {
        WorkBucket { active, queue: Vec::new(), active_priority: usize::MAX, open_condition: None }
    }

    pub fn is_activated(&self) -> (r: bool)
        ensures
            r == self.spec_active(),
    {
        self.active
    }

    pub fn active_priority(&self) -> (r: usize)
        ensures
            r == self.spec_active_priority(),
    {
        self.active_priority
    }

    /// Enable the bucket.
    pub fn activate(&mut self)
        ensures
            final(self).spec_active(),
            final(self).spec_queue() == old(self).spec_queue(),
            final(self).spec_active_priority() == old(self).spec_active_priority(),
            final(self).spec_open_condition() == old(self).spec_open_condition(),
    {
        self.active = true;
    }

    /// Test whether the bucket holds no work.
    pub fn is_empty(&self) -> (r: bool)
        ensures
            r == (self.spec_queue().len() == 0),
    {
        self.queue.len() == 0
    }

    pub fn is_drained(&self) -> (r: bool)
        ensures
            r == (self.spec_active() && self.spec_queue().len() == 0),
    {
        self.is_activated() && self.is_empty()
    }

    /// Disable the bucket. Only a drained bucket may be closed.
    pub fn deactivate(&mut self)
        requires
            old(self).spec_queue().len() == 0,
        ensures
            !final(self).spec_active(),
            final(self).spec_queue().len() == 0,
            final(self).spec_active_priority() == usize::MAX,
            final(self).spec_open_condition() == old(self).spec_open_condition(),
    {
        self.active = false;
        self.active_priority = usize::MAX;
    }

    /// Add a work item with the given priority.
    pub fn add_with_priority(&mut self, priority: usize, work: W)
        ensures
            final(self).spec_queue() == old(self).spec_queue().push(
                (PrioritizedWork { priority, work }),
            ),
            final(self).spec_active() == old(self).spec_active(),
            final(self).spec_active_priority() == old(self).spec_active_priority(),
            final(self).spec_open_condition() == old(self).spec_open_condition(),
    {
        self.queue.push(PrioritizedWork { priority, work });
    }

    /// Add a work item with the default priority.
    pub fn add(&mut self, work: W)
        ensures
            final(self).spec_queue() == old(self).spec_queue().push(
                (PrioritizedWork { priority: DEFAULT_PRIORITY, work }),
            ),
            final(self).spec_active() == old(self).spec_active(),
            final(self).spec_active_priority() == old(self).spec_active_priority(),
            final(self).spec_open_condition() == old(self).spec_open_condition(),
    {
        self.add_with_priority(DEFAULT_PRIORITY, work);
    }

    /// Take the work item of greatest priority, if the bucket is active and not empty.
    /// The item leaves the queue, so it is handed out once.
    pub fn poll(&mut self) -> (r: Option<W>)
        ensures
            final(self).spec_active() == old(self).spec_active(),
            final(self).spec_active_priority() == old(self).spec_active_priority(),
            final(self).spec_open_condition() == old(self).spec_open_condition(),
            (r is None) == (!old(self).spec_active() || old(self).spec_queue().len() == 0),
            r is None ==> final(self).spec_queue() == old(self).spec_queue(),
            r is Some ==> exists|i: int|
                is_poll_choice(old(self).spec_queue(), i) && r == Some(
                    old(self).spec_queue()[i].work,
                ) && final(self).spec_queue() == old(self).spec_queue().remove(i),
    {
        if !self.active || self.queue.len() == 0 {
            return None;
        }
        let mut best: usize = 0;
        let mut k: usize = 1;
        while k < self.queue.len()
            invariant
                1 <= k <= self.queue.len(),
                *self == *old(self),
                best < k,
                is_poll_choice(self.queue@.subrange(0, k as int), best as int),
            decreases self.queue.len() - k,
        {
            let ghost ob = best;
            if self.queue[k].priority > self.queue[best].priority {
                best = k;
            }
            assert(is_poll_choice(self.queue@.subrange(0, k + 1), best as int)) by {
                let s = self.queue@.subrange(0, k + 1);
                let t = self.queue@.subrange(0, k as int);
                assert forall|j: int| 0 <= j < s.len() implies #[trigger] s[j].priority
                    <= s[best as int].priority by {
                    if j < k {
                        assert(s[j] == t[j]);
                    }
                }
                assert forall|j: int| 0 <= j < best implies #[trigger] s[j].priority
                    < s[best as int].priority by {
                    if best < k {
                        assert(s[j] == t[j]);
                    } else {
                        assert(s[j] == t[j]);
                        assert(t[j].priority <= t[ob as int].priority);
                    }
                }
            }
            k = k + 1;
        }
        assert(self.queue@.subrange(0, self.queue.len() as int) == self.queue@);
        let ghost q0 = self.queue@;
        let item = self.queue.remove(best);
        let r = Some(item.work);
        assert(is_poll_choice(q0, best as int) && r == Some(q0[best as int].work) && self.queue@
            == q0.remove(best as int));
        assert(q0 == old(self).spec_queue());
        assert(self.spec_queue() == old(self).spec_queue().remove(best as int));
        assert(exists|i: int|
            is_poll_choice(old(self).spec_queue(), i) && r == Some(old(self).spec_queue()[i].work)
                && self.spec_queue() == old(self).spec_queue().remove(i));
        r
    }

    /// Make the bucket open by itself once every bucket listed in `after_drained` is drained.
    pub fn set_open_condition(&mut self, after_drained: Vec<usize>)
        ensures
            final(self).spec_open_condition() == Some(after_drained@),
            final(self).spec_active() == old(self).spec_active(),
            final(self).spec_queue() == old(self).spec_queue(),
            final(self).spec_active_priority() == old(self).spec_active_priority(),
    {
        self.open_condition = Some(after_drained);
    }

    /// Open the bucket when it has an open condition, is closed, and the condition holds
    /// (`can_open`). Returns whether it opened.
    pub fn update(&mut self, can_open: bool) -> (r: bool)
        ensures
            r == (old(self).spec_open_condition() is Some && !old(self).spec_active() && can_open),
            final(self).spec_active() == (old(self).spec_active() || r),
            final(self).spec_queue() == old(self).spec_queue(),
            final(self).spec_active_priority() == old(self).spec_active_priority(),
            final(self).spec_open_condition() == old(self).spec_open_condition(),
    {
        if self.open_condition.is_some() {
            if !self.is_activated() && can_open {
                self.activate();
                return true;
            }
        }
        false
    }

    /// The buckets this one waits on, or none when it does not open by itself.
    pub fn open_condition(&self) -> (r: Option<&Vec<usize>>)
        ensures
            match r {
                Some(v) => self.spec_open_condition() == Some(v@),
                None => self.spec_open_condition() is None,
            },
    {
        match &self.open_condition {
            Some(v) => Some(v),
            None => None,
        }
    }
}

/// Whether every bucket listed in `after` exists and is drained.
pub open spec fn all_drained<W>(buckets: Seq<WorkBucket<W>>, after: Seq<usize>) -> bool {
    forall|k: int|
        0 <= k < after.len() ==> #[trigger] after[k] < buckets.len() && buckets[after[k] as int].spec_active()
            && buckets[after[k] as int].spec_queue().len() == 0
}

/// Index of the first active bucket with work, if any.
pub open spec fn first_pollable<W>(buckets: Seq<WorkBucket<W>>, k: int) -> bool {
    &&& 0 <= k < buckets.len()
    &&& buckets[k].spec_active() && buckets[k].spec_queue().len() > 0
    &&& forall|j: int|
        0 <= j < k ==> !(#[trigger] buckets[j].spec_active() && buckets[j].spec_queue().len() > 0)
}

/// The stages of a collection, as ordered buckets of work.
pub struct WorkScheduler<W> {
    buckets: Vec<WorkBucket<W>>,
    finalizer: Option<W>,
}

impl<W> WorkScheduler<W> {
    pub closed spec fn spec_buckets(&self) -> Seq<WorkBucket<W>> {
        self.buckets@
    }

    pub closed spec fn spec_finalizer(&self) -> Option<W> {
        self.finalizer
    }

    /// A scheduler with `n` closed, empty stages without open conditions.
    pub fn new(n: usize) -> (r: Self)
        ensures
            r.spec_buckets().len() == n,
            forall|k: int|
                0 <= k < n ==> !(#[trigger] r.spec_buckets()[k]).spec_active()
                    && r.spec_buckets()[k].spec_queue().len() == 0
                    && r.spec_buckets()[k].spec_open_condition() is None,
            r.spec_finalizer() is None,
    {
        let mut buckets: Vec<WorkBucket<W>> = Vec::new();
        let mut k: usize = 0;
        while k < n
            invariant
                k <= n,
                buckets@.len() == k,
                forall|j: int|
                    0 <= j < k ==> !(#[trigger] buckets@[j]).spec_active()
                        && buckets@[j].spec_queue().len() == 0
                        && buckets@[j].spec_open_condition() is None,
            decreases n - k,
        {
            buckets.push(WorkBucket::new(false));
            k = k + 1;
        }
        WorkScheduler { buckets, finalizer: None }
    }

    pub fn num_buckets(&self) -> (r: usize)
        ensures
            r == self.spec_buckets().len(),
    {
        self.buckets.len()
    }

    pub fn bucket(&self, k: usize) -> (r: &WorkBucket<W>)
        requires
            k < self.spec_buckets().len(),
        ensures
            *r == self.spec_buckets()[k as int],
    {
        &self.buckets[k]
    }

    /// Give mutable access to bucket `k`.
    pub fn bucket_mut(&mut self, k: usize) -> (r: &mut WorkBucket<W>)
        requires
            k < old(self).spec_buckets().len(),
        ensures
            *r == old(self).spec_buckets()[k as int],
            final(self).spec_buckets() == old(self).spec_buckets().update(k as int, *final(r)),
            final(self).spec_finalizer() == old(self).spec_finalizer(),
    {
        &mut self.buckets[k]
    }

    /// Work to run once every stage is done.
    pub fn set_finalizer(&mut self, work: Option<W>)
        ensures
            final(self).spec_finalizer() == work,
            final(self).spec_buckets() == old(self).spec_buckets(),
    {
        self.finalizer = work;
    }

    /// Whether every bucket in `after` is drained.
    pub fn are_drained(&self, after: &Vec<usize>) -> (r: bool)
        ensures
            r == all_drained(self.spec_buckets(), after@),
    {
        let mut i: usize = 0;
        while i < after.len()
            invariant
                i <= after.len(),
                all_drained(self.spec_buckets(), after@.subrange(0, i as int)),
            decreases after.len() - i,
        {
            let k = after[i];
            if k >= self.buckets.len() || !self.buckets[k].is_drained() {
                assert(!(after@[i as int] < self.spec_buckets().len() && self.spec_buckets()[after@[i as int] as int].spec_active()
                    && self.spec_buckets()[after@[i as int] as int].spec_queue().len() == 0));
                return false;
            }
            i = i + 1;
            assert(forall|j: int| 0 <= j < i ==> after@.subrange(0, i as int)[j] == after@[j]);
            assert(forall|j: int| 0 <= j < i - 1 ==> after@.subrange(0, i - 1)[j] == after@[j]);
        }
        assert(after@.subrange(0, after.len() as int) =~= after@);
        true
    }

    /// Open each closed bucket whose open condition holds, going through the stages in
    /// order; a stage opened in this pass counts as drained for later ones when it is
    /// empty. Returns whether any bucket opened.
    pub fn update_buckets(&mut self) -> (r: bool)
        ensures
            final(self).spec_buckets().len() == old(self).spec_buckets().len(),
            final(self).spec_finalizer() == old(self).spec_finalizer(),
            forall|k: int|
                0 <= k < old(self).spec_buckets().len() ==> (#[trigger] final(self).spec_buckets()[k]).spec_queue()
                    == old(self).spec_buckets()[k].spec_queue()
                    && final(self).spec_buckets()[k].spec_open_condition()
                    == old(self).spec_buckets()[k].spec_open_condition()
                    && (old(self).spec_buckets()[k].spec_active()
                    ==> final(self).spec_buckets()[k].spec_active())
                    && (final(self).spec_buckets()[k].spec_active() && !old(self).spec_buckets()[k].spec_active()
                    ==> old(self).spec_buckets()[k].spec_open_condition() is Some),
            forall|k: int|
                0 <= k < old(self).spec_buckets().len() && !old(self).spec_buckets()[k].spec_active()
                    && old(self).spec_buckets()[k].spec_open_condition() is Some && all_drained(
                    old(self).spec_buckets(),
                    old(self).spec_buckets()[k].spec_open_condition()->Some_0,
                ) ==> (#[trigger] final(self).spec_buckets()[k]).spec_active(),
            r == exists|k: int|
                0 <= k < old(self).spec_buckets().len() && (#[trigger] final(self).spec_buckets()[k]).spec_active()
                    && !old(self).spec_buckets()[k].spec_active(),
            !r ==> final(self).spec_buckets() == old(self).spec_buckets(),
    {
        let ghost b0 = self.buckets@;
        let mut opened = false;
        let mut k: usize = 0;
        while k < self.buckets.len()
            invariant
                k <= self.buckets.len(),
                b0 == old(self).buckets@,
                self.buckets@.len() == b0.len(),
                self.finalizer == old(self).finalizer,
                forall|j: int|
                    0 <= j < self.buckets@.len() ==> (#[trigger] self.buckets@[j]).spec_queue()
                        == b0[j].spec_queue()
                        && self.buckets@[j].spec_open_condition()
                        == b0[j].spec_open_condition()
                        && (b0[j].spec_active() ==> self.buckets@[j].spec_active())
                        && (self.buckets@[j].spec_active() && !b0[j].spec_active()
                        ==> b0[j].spec_open_condition() is Some),
                forall|j: int| k <= j < b0.len() ==> #[trigger] self.buckets@[j] == b0[j],
                forall|j: int|
                    0 <= j < k && !b0[j].spec_active() && b0[j].spec_open_condition() is Some
                        && all_drained(b0, b0[j].spec_open_condition()->Some_0)
                        ==> (#[trigger] self.buckets@[j]).spec_active(),
                opened == exists|j: int|
                    0 <= j < k && (#[trigger] self.buckets@[j]).spec_active() && !b0[j].spec_active(),
                !opened ==> self.buckets@ == b0,
            decreases self.buckets.len() - k,
        {
            let ghost cur = self.buckets@;
            let can_open = match self.buckets[k].open_condition() {
                Some(after) => {
                    let r = self.are_drained(after);
                    proof {
                        if all_drained(b0, after@) {
                            assert forall|m: int| 0 <= m < after@.len() implies #[trigger] after@[m]
                                < cur.len() && cur[after@[m] as int].spec_active()
                                && cur[after@[m] as int].spec_queue().len() == 0 by {
                                assert(after@[m] < b0.len());
                                assert(cur[after@[m] as int].spec_queue() == b0[after@[m] as int].spec_queue());
                            }
                        }
                    }
                    r
                },
                None => false,
            };
            if can_open && !self.buckets[k].is_activated() {
                let b = self.bucket_mut(k);
                b.update(can_open);
                opened = true;
                assert(self.buckets@[k as int].spec_active() && !b0[k as int].spec_active());
            }
            proof {
                if !opened {
                    assert(self.buckets@ =~= b0);
                }
            }
            k = k + 1;
        }
        proof {
            if opened {
                let j = choose|j: int| 0 <= j < k && (#[trigger] self.buckets@[j]).spec_active() && !b0[j].spec_active();
                assert(0 <= j < old(self).spec_buckets().len() && self.spec_buckets()[j].spec_active() && !old(self).spec_buckets()[j].spec_active());
            }
        }
        opened
    }

    /// Whether every stage is open and holds no work: the collection is over.
    pub fn all_stages_drained(&self) -> (r: bool)
        ensures
            r == forall|k: int|
                0 <= k < self.spec_buckets().len() ==> (#[trigger] self.spec_buckets()[k]).spec_active()
                    && self.spec_buckets()[k].spec_queue().len() == 0,
    {
        let mut k: usize = 0;
        while k < self.buckets.len()
            invariant
                k <= self.buckets.len(),
                forall|j: int|
                    0 <= j < k ==> (#[trigger] self.buckets@[j]).spec_active()
                        && self.buckets@[j].spec_queue().len() == 0,
            decreases self.buckets.len() - k,
        {
            if !self.buckets[k].is_drained() {
                assert(!(self.spec_buckets()[k as int].spec_active()
                    && self.spec_buckets()[k as int].spec_queue().len() == 0));
                return false;
            }
            k = k + 1;
        }
        true
    }

    /// Add `work` to bucket `k` with the given priority.
    pub fn add_with_priority(&mut self, k: usize, priority: usize, work: W)
        requires
            k < old(self).spec_buckets().len(),
        ensures
            final(self).spec_buckets().len() == old(self).spec_buckets().len(),
            final(self).spec_finalizer() == old(self).spec_finalizer(),
            final(self).spec_buckets()[k as int].spec_queue() == old(self).spec_buckets()[k as int].spec_queue().push(
                (PrioritizedWork { priority, work }),
            ),
            final(self).spec_buckets()[k as int].spec_active() == old(self).spec_buckets()[k as int].spec_active(),
            final(self).spec_buckets()[k as int].spec_open_condition() == old(self).spec_buckets()[k as int].spec_open_condition(),
            forall|j: int|
                0 <= j < old(self).spec_buckets().len() && j != k ==> #[trigger] final(self).spec_buckets()[j]
                    == old(self).spec_buckets()[j],
    {
        let b = self.bucket_mut(k);
        b.add_with_priority(priority, work);
    }

    /// Take a work item from the first active bucket that has one.
    pub fn poll(&mut self) -> (r: Option<W>)
        ensures
            final(self).spec_buckets().len() == old(self).spec_buckets().len(),
            final(self).spec_finalizer() == old(self).spec_finalizer(),
            (r is None) <==> (forall|k: int|
                0 <= k < old(self).spec_buckets().len() ==> !((#[trigger] old(self).spec_buckets()[k]).spec_active()
                    && old(self).spec_buckets()[k].spec_queue().len() > 0)),
            r is None ==> final(self).spec_buckets() == old(self).spec_buckets(),
            r is Some ==> exists|k: int, i: int|
                first_pollable(old(self).spec_buckets(), k) && is_poll_choice(
                    old(self).spec_buckets()[k].spec_queue(),
                    i,
                ) && r == Some(old(self).spec_buckets()[k].spec_queue()[i].work)
                    && final(self).spec_buckets()[k].spec_queue() == old(self).spec_buckets()[k].spec_queue().remove(i)
                    && final(self).spec_buckets()[k].spec_active()
                    && (forall|j: int|
                    0 <= j < old(self).spec_buckets().len() && j != k ==> #[trigger] final(self).spec_buckets()[j]
                        == old(self).spec_buckets()[j]),
    {
        let mut k: usize = 0;
        while k < self.buckets.len()
            invariant
                k <= self.buckets.len(),
                *self == *old(self),
                forall|j: int|
                    0 <= j < k ==> !((#[trigger] self.buckets@[j]).spec_active()
                        && self.buckets@[j].spec_queue().len() > 0),
            decreases self.buckets.len() - k,
        {
            if self.buckets[k].is_activated() && !self.buckets[k].is_empty() {
                let ghost old_buckets = self.buckets@;
                assert(first_pollable(old_buckets, k as int));
                let b = self.bucket_mut(k);
                let r = b.poll();
                proof {
                    let kk = k as int;
                    let i = choose|i: int|
                        is_poll_choice(old_buckets[kk].spec_queue(), i) && r == Some(
                            old_buckets[kk].spec_queue()[i].work,
                        ) && self.buckets@[kk].spec_queue() == old_buckets[kk].spec_queue().remove(i);
                    assert(first_pollable(old_buckets, kk) && is_poll_choice(old_buckets[kk].spec_queue(), i)
                        && r == Some(old_buckets[kk].spec_queue()[i].work)
                        && self.buckets@[kk].spec_queue() == old_buckets[kk].spec_queue().remove(i)
                        && self.buckets@[kk].spec_active()
                        && (forall|j: int| 0 <= j < old_buckets.len() && j != kk ==> #[trigger] self.buckets@[j] == old_buckets[j]));
                }
                return r;
            }
            k = k + 1;
        }
        None
    }
}

} // verus!
