use mmtk::copyspace::{CopySpace, VMRequest, BYTES_IN_CHUNK};
use mmtk::forwarding::{
    attempt_to_forward, is_forwarded, spin_and_get_forwarded_object,
    state_is_forwarded_or_being_forwarded, ForwardingState,
};
use mmtk::heap::{Gen, Heap, ObjectReference, REGION_BYTES};
use mmtk::mutator::{
    allocator_mapping, create_nogc_mutator, nogc_mutator_noop, AllocationSemantics,
    AllocatorSelector, Barrier, MutatorHook,
};
use mmtk::plan::{gc_scheduler, GcWork, MyGC, PREPARE_STAGE, RELEASE_STAGE, UNCONSTRAINED};
use mmtk::tracer::G1EvacuateTraceLocal;

#[test]
fn forwarding_state_machine() {
    let (seen, next) = attempt_to_forward(ForwardingState::NotForwarded);
    assert_eq!(seen, ForwardingState::NotForwarded);
    assert_eq!(next, ForwardingState::BeingForwarded);
    let (seen, next) = attempt_to_forward(ForwardingState::Forwarded(99));
    assert_eq!(seen, ForwardingState::Forwarded(99));
    assert_eq!(next, ForwardingState::Forwarded(99));
    assert!(state_is_forwarded_or_being_forwarded(ForwardingState::BeingForwarded));
    assert!(!state_is_forwarded_or_being_forwarded(ForwardingState::NotForwarded));
    assert!(is_forwarded(ForwardingState::Forwarded(5)));
    assert!(!is_forwarded(ForwardingState::BeingForwarded));
    assert_eq!(spin_and_get_forwarded_object(ForwardingState::Forwarded(4096)), 4096);
}

#[test]
fn from_space_copies_once() {
    let copy_base = 4 * REGION_BYTES;
    let mut heap = Heap::new(0, copy_base).unwrap();
    assert!(heap.add_object(4096, 48, &vec![8192], true, Gen::Old));
    let space = CopySpace::new("from", true, true, VMRequest::discontiguous());
    let mut trace = G1EvacuateTraceLocal::new(false, false);
    let r1 = space.trace_object(&mut trace, &mut heap, ObjectReference { addr: 4096 }, Gen::Old);
    let r2 = space.trace_object(&mut trace, &mut heap, ObjectReference { addr: 4096 }, Gen::Old);
    assert_eq!(r1.addr, copy_base);
    assert_eq!(r1, r2);
    assert_eq!(heap.num_objects(), 2);
    assert!(space.is_live(&heap, ObjectReference { addr: 4096 }));
    let to = CopySpace::new("to", false, true, VMRequest::discontiguous());
    assert_eq!(to.trace_object(&mut trace, &mut heap, ObjectReference { addr: 4096 }, Gen::Old).addr, 4096);
    assert!(to.is_live(&heap, ObjectReference { addr: 12345 }));
}

#[test]
fn mark_tables_and_marks() {
    let mut space = CopySpace::new("s", false, false, VMRequest::Fixed { start: 0, extent: 2 * BYTES_IN_CHUNK });
    space.grow_space(0, BYTES_IN_CHUNK + 4096, true);
    assert_eq!(space.reserved_pages(), 1025);
    assert!(space.owns_chunk(0));
    assert!(space.owns_chunk(1));
    assert!(!space.owns_chunk(2));
    space.grow_space(2 * BYTES_IN_CHUNK, 4096, false);
    assert!(!space.owns_chunk(2));
    assert_eq!(space.reserved_pages(), 1026);
    let mut trace = G1EvacuateTraceLocal::new(false, false);
    let o = ObjectReference { addr: BYTES_IN_CHUNK + 64 };
    assert_eq!(space.trace_mark_object(&mut trace, o), o);
    assert_eq!(space.trace_mark_object(&mut trace, o), o);
    assert!(!trace.is_empty());
    trace.release();
    space.sanity_prepare();
    space.sanity_release();
    assert_eq!(space.protection_range(), Some((0, 2 * BYTES_IN_CHUNK)));
    space.prepare(true);
    assert!(space.from_space());
    assert!(!space.is_sane());
    assert!(space.is_movable());
    space.release();
    assert!(!space.from_space());
    assert_eq!(space.reserved_pages(), 0);
    let d = CopySpace::new("d", false, false, VMRequest::discontiguous());
    assert_eq!(d.protection_range(), None);
}

#[test]
fn semispaces_flip() {
    let mut plan = MyGC::new();
    plan.gc_init(1 << 20);
    assert_eq!(plan.tospace().name(), "copyspace0");
    assert_eq!(plan.fromspace().name(), "copyspace1");
    plan.prepare();
    assert_eq!(plan.tospace().name(), "copyspace1");
    assert_eq!(plan.fromspace().name(), "copyspace0");
    assert!(plan.fromspace().from_space());
    assert!(!plan.tospace().from_space());
    plan.release();
    assert!(!plan.fromspace().from_space());
    assert_eq!(plan.get_collection_reserve(), 0);
    plan.common_pages = 3;
    assert_eq!(plan.get_pages_used(), 3);
}

#[test]
fn collection_is_scheduled_in_stages() {
    let plan = MyGC::new();
    let mut s = gc_scheduler();
    plan.schedule_collection(&mut s);
    assert_eq!(s.bucket(UNCONSTRAINED).is_empty(), false);
    assert_eq!(s.bucket(PREPARE_STAGE).is_empty(), false);
    assert_eq!(s.bucket(RELEASE_STAGE).is_empty(), false);
    assert_eq!(s.poll(), Some(GcWork::StopMutators));
    assert_eq!(s.poll(), None);
    assert!(s.update_buckets());
    assert_eq!(s.poll(), Some(GcWork::Prepare));
    assert!(s.update_buckets());
    assert!(!s.update_buckets());
    assert_eq!(s.poll(), Some(GcWork::Release));
}

#[test]
fn nogc_mutator_maps_to_bump_pointer() {
    let plan = MyGC::new();
    let mut m = create_nogc_mutator(42, &plan);
    assert_eq!(m.mutator_tls, 42);
    assert_eq!(m.space_mapping, vec![(AllocatorSelector::BumpPointer(0), "copyspace0")]);
    assert_eq!(m.allocator_mapping.len(), 5);
    assert!(m.allocator_mapping.iter().all(|(_, a)| *a == AllocatorSelector::BumpPointer(0)));
    assert_eq!(m.allocator_mapping[4].0, AllocationSemantics::Los);
    assert_eq!(m.prepare_func, MutatorHook::NoOp);
    assert_eq!(m.release_func, MutatorHook::NoOp);
    assert_eq!(m.barrier, Barrier::NoBarrier);
    assert!(std::ptr::eq(m.plan, &plan));
    nogc_mutator_noop(&mut m, 1);
    assert_eq!(m.mutator_tls, 42);
    assert_eq!(allocator_mapping(AllocationSemantics::Los), AllocatorSelector::BumpPointer(0));
}

#[test]
fn plan_binds_mutators_to_tospace() {
    let mut plan = MyGC::new();
    plan.prepare();
    let m = plan.bind_mutator(9);
    assert_eq!(m.mutator_tls, 9);
    assert_eq!(m.space_mapping, vec![(AllocatorSelector::BumpPointer(0), "copyspace1")]);
    assert_eq!(plan.get_allocator_mapping(AllocationSemantics::Immortal), AllocatorSelector::BumpPointer(0));
}
