use vstd::prelude::*;
use crate::copyspace::{CopySpace, VMRequest};
use crate::mutator::{
    allocator_mapping, create_nogc_mutator, AllocationSemantics, AllocatorSelector, Mutator,
};
use crate::work_bucket::WorkScheduler;

verus! {

/// Stage of work that may run before the world is stopped.
pub const UNCONSTRAINED: usize = 0;

/// Stage that prepares the spaces for a collection.
pub const PREPARE_STAGE: usize = 1;

/// Stage that traces to a fixpoint.
pub const CLOSURE_STAGE: usize = 2;

/// Stage that releases condemned memory.
pub const RELEASE_STAGE: usize = 3;

/// Last stage of a collection.
pub const FINAL_STAGE: usize = 4;

/// Number of stages of a collection.
pub const NUM_STAGES: usize = 5;

/// The work a semispace collection schedules.
#[derive(Clone, Copy, PartialEq, Eq, Structural, Debug)]
pub enum GcWork {
    StopMutators,
    Prepare,
    Release,
    EndOfGC,
}

/// Whether `s` holds the stages of a collection in order, each but the first opening once
/// the one before it is drained.
pub open spec fn is_gc_schedule<W>(s: WorkScheduler<W>) -> bool {
    &&& s.spec_buckets().len() == NUM_STAGES
    &&& s.spec_buckets()[UNCONSTRAINED as int].spec_open_condition() is None
    &&& forall|k: int|
        1 <= k < NUM_STAGES ==> (#[trigger] s.spec_buckets()[k]).spec_open_condition()
            == Some(seq![(k - 1) as usize])
}

/// A scheduler with the stages of a collection: the unconstrained stage is open, the others
/// are closed and open in turn as the one before is drained. All are empty.
pub fn gc_scheduler<W>() -> (r: WorkScheduler<W>)
    ensures
        is_gc_schedule(r),
        r.spec_buckets()[UNCONSTRAINED as int].spec_active(),
        forall|k: int| 1 <= k < NUM_STAGES ==> !(#[trigger] r.spec_buckets()[k]).spec_active(),
        forall|k: int| 0 <= k < NUM_STAGES ==> (#[trigger] r.spec_buckets()[k]).spec_queue().len() == 0,
        r.spec_finalizer() is None,
{
    let mut s: WorkScheduler<W> = WorkScheduler::new(NUM_STAGES);
    s.bucket_mut(UNCONSTRAINED).activate();
    let mut k: usize = 1;
    while k < NUM_STAGES
        invariant
            1 <= k <= NUM_STAGES,
            s.spec_buckets().len() == NUM_STAGES,
            s.spec_finalizer() is None,
            s.spec_buckets()[UNCONSTRAINED as int].spec_active(),
            s.spec_buckets()[UNCONSTRAINED as int].spec_open_condition() is None,
            forall|j: int| 1 <= j < NUM_STAGES ==> !(#[trigger] s.spec_buckets()[j]).spec_active(),
            forall|j: int| 0 <= j < NUM_STAGES ==> (#[trigger] s.spec_buckets()[j]).spec_queue().len() == 0,
            forall|j: int| 1 <= j < k ==> (#[trigger] s.spec_buckets()[j]).spec_open_condition()
                == Some(seq![(j - 1) as usize]),
            forall|j: int| k <= j < NUM_STAGES ==> (#[trigger] s.spec_buckets()[j]).spec_open_condition() is None,
        decreases NUM_STAGES - k,
    {
        let after = vec![k - 1];
        assert(after@ =~= seq![(k - 1) as usize]);
        s.bucket_mut(k).set_open_condition(after);
        k = k + 1;
    }
    s
}

/// A semispace collector: two copying spaces that swap the from- and to-space roles at
/// every collection.
pub struct MyGC {
    /// Which space is the to-space: `copyspace1` when set.
    pub hi: bool,
    pub copyspace0: CopySpace,
    pub copyspace1: CopySpace,
    /// Pages used by the spaces every plan has (immortal and large objects).
    pub common_pages: u64,
    pub heap_size: usize,
}

impl MyGC {
    pub open spec fn spec_tospace(&self) -> CopySpace {
        if self.hi {
            self.copyspace1
        } else {
            self.copyspace0
        }
    }

    pub open spec fn spec_fromspace(&self) -> CopySpace {
        if self.hi {
            self.copyspace0
        } else {
            self.copyspace1
        }
    }

    /// `copyspace0` starts as the to-space and `copyspace1` as the from-space.
    pub fn new() -> (r: MyGC)
        ensures
            !r.hi,
            !r.copyspace0.spec_from_space(),
            r.copyspace1.spec_from_space(),
            r.copyspace0.spec_name() == "copyspace0",
            r.copyspace1.spec_name() == "copyspace1",
            r.copyspace0.spec_zeroed() && r.copyspace1.spec_zeroed(),
            !r.copyspace0.spec_contiguous() && !r.copyspace1.spec_contiguous(),
            r.copyspace0.spec_reserved_pages() == 0 && r.copyspace1.spec_reserved_pages() == 0,
            r.common_pages == 0,
            r.heap_size == 0,
    {
        MyGC {
            hi: false,
            copyspace0: CopySpace::new("copyspace0", false, true, VMRequest::discontiguous()),
            copyspace1: CopySpace::new("copyspace1", true, true, VMRequest::discontiguous()),
            common_pages: 0,
            heap_size: 0,
        }
    }

    /// Set the heap size the collector works within.
    pub fn gc_init(&mut self, heap_size: usize)
        ensures
            final(self).heap_size == heap_size,
            final(self).hi == old(self).hi,
            final(self).copyspace0 == old(self).copyspace0,
            final(self).copyspace1 == old(self).copyspace1,
            final(self).common_pages == old(self).common_pages,
    {
        self.heap_size = heap_size;
    }

    pub fn tospace(&self) -> (r: &CopySpace)
        ensures
            *r == self.spec_tospace(),
    {
        if self.hi {
            &self.copyspace1
        } else {
            &self.copyspace0
        }
    }

    pub fn fromspace(&self) -> (r: &CopySpace)
        ensures
            *r == self.spec_fromspace(),
    {
        if self.hi {
            &self.copyspace0
        } else {
            &self.copyspace1
        }
    }

    /// Flip the semispaces: the old to-space becomes the from-space, and each space learns
    /// its role.
    pub fn prepare(&mut self)
        ensures
            final(self).hi == !old(self).hi,
            final(self).spec_fromspace().spec_from_space(),
            !final(self).spec_tospace().spec_from_space(),
            final(self).spec_fromspace().spec_reserved_pages() == old(self).spec_tospace().spec_reserved_pages(),
            final(self).spec_tospace().spec_reserved_pages() == old(self).spec_fromspace().spec_reserved_pages(),
            final(self).spec_fromspace().spec_marks() == old(self).spec_tospace().spec_marks(),
            final(self).spec_tospace().spec_marks() == old(self).spec_fromspace().spec_marks(),
            final(self).common_pages == old(self).common_pages,
            final(self).heap_size == old(self).heap_size,
    {
        self.hi = !self.hi;
        let hi = self.hi;
        self.copyspace0.prepare(hi);
        self.copyspace1.prepare(!hi);
    }

    /// Release the collected space.
    pub fn release(&mut self)
        ensures
            final(self).hi == old(self).hi,
            final(self).spec_tospace() == old(self).spec_tospace(),
            !final(self).spec_fromspace().spec_from_space(),
            final(self).spec_fromspace().spec_reserved_pages() == 0,
            final(self).spec_fromspace().spec_marks().len() == 0,
            final(self).common_pages == old(self).common_pages,
            final(self).heap_size == old(self).heap_size,
    {
        if self.hi {
            self.copyspace0.release();
        } else {
            self.copyspace1.release();
        }
    }

    /// Queue the work of one collection: stopping the mutators, preparing, releasing, and
    /// the end-of-collection finalizer.
    pub fn schedule_collection(&self, scheduler: &mut WorkScheduler<GcWork>)
        requires
            old(scheduler).spec_buckets().len() == NUM_STAGES,
        ensures
            final(scheduler).spec_buckets().len() == NUM_STAGES,
            final(scheduler).spec_buckets()[UNCONSTRAINED as int].spec_queue()
                == old(scheduler).spec_buckets()[UNCONSTRAINED as int].spec_queue().push(
                (crate::work_bucket::PrioritizedWork {
                    priority: crate::work_bucket::DEFAULT_PRIORITY,
                    work: GcWork::StopMutators,
                }),
            ),
            final(scheduler).spec_buckets()[PREPARE_STAGE as int].spec_queue()
                == old(scheduler).spec_buckets()[PREPARE_STAGE as int].spec_queue().push(
                (crate::work_bucket::PrioritizedWork {
                    priority: crate::work_bucket::DEFAULT_PRIORITY,
                    work: GcWork::Prepare,
                }),
            ),
            final(scheduler).spec_buckets()[RELEASE_STAGE as int].spec_queue()
                == old(scheduler).spec_buckets()[RELEASE_STAGE as int].spec_queue().push(
                (crate::work_bucket::PrioritizedWork {
                    priority: crate::work_bucket::DEFAULT_PRIORITY,
                    work: GcWork::Release,
                }),
            ),
            final(scheduler).spec_buckets()[CLOSURE_STAGE as int] == old(scheduler).spec_buckets()[CLOSURE_STAGE as int],
            final(scheduler).spec_buckets()[FINAL_STAGE as int] == old(scheduler).spec_buckets()[FINAL_STAGE as int],
            forall|k: int| 0 <= k < NUM_STAGES ==> (#[trigger] final(scheduler).spec_buckets()[k]).spec_active()
                == old(scheduler).spec_buckets()[k].spec_active()
                && final(scheduler).spec_buckets()[k].spec_open_condition()
                == old(scheduler).spec_buckets()[k].spec_open_condition(),
            final(scheduler).spec_finalizer() == Some(GcWork::EndOfGC),
    {
        scheduler.add_with_priority(UNCONSTRAINED, crate::work_bucket::DEFAULT_PRIORITY, GcWork::StopMutators);
        scheduler.add_with_priority(PREPARE_STAGE, crate::work_bucket::DEFAULT_PRIORITY, GcWork::Prepare);
        scheduler.add_with_priority(RELEASE_STAGE, crate::work_bucket::DEFAULT_PRIORITY, GcWork::Release);
        scheduler.set_finalizer(Some(GcWork::EndOfGC));
    }

    /// A mutator for the thread `tls`, allocating into the to-space.
    pub fn bind_mutator(&self, tls: u64) -> (r: Mutator<'_>)
        ensures
            r.mutator_tls == tls,
            r.plan == self,
            r.space_mapping@ == seq![(AllocatorSelector::BumpPointer(0), self.spec_tospace().spec_name())],
    {
        create_nogc_mutator(tls, self)
    }

    /// The allocator that serves each kind of allocation.
    pub fn get_allocator_mapping(&self, semantics: AllocationSemantics) -> (r: AllocatorSelector)
        ensures
            r == AllocatorSelector::BumpPointer(0),
    {
        allocator_mapping(semantics)
    }

    /// Pages held back to copy into: those of the to-space.
    pub fn get_collection_reserve(&self) -> (r: u64)
        ensures
            r == self.spec_tospace().spec_reserved_pages(),
    {
        self.tospace().reserved_pages()
    }

    /// Pages in use: the to-space's and those of the common spaces.
    pub fn get_pages_used(&self) -> (r: u64)
        requires
            self.spec_tospace().spec_reserved_pages() + self.common_pages <= u64::MAX,
        ensures
            r == self.spec_tospace().spec_reserved_pages() + self.common_pages,
    {
        self.tospace().reserved_pages() + self.common_pages
    }
}

} // verus!
