use mmtk::forwarding::ForwardingState;
use mmtk::heap::{Gen, Heap, ObjectReference, Region, CARD_BYTES, REGION_BYTES};
use mmtk::tracer::G1EvacuateTraceLocal;

const COPY_BASE: u64 = 8 * REGION_BYTES;

fn relocatable() -> Region {
    Region { committed: true, relocate: true, generation: Gen::Old }
}

fn heap_with_regions(n: usize) -> Heap {
    Heap::new(n, COPY_BASE).unwrap()
}

fn field_slot(heap: &Heap, addr: u64, k: usize) -> usize {
    let i = heap.find_object(addr).unwrap();
    heap.object(i).first_field + k
}

#[test]
fn relocated_object_is_copied_and_field_rewritten() {
    // Region A (0) is relocatable and holds X (32 bytes, marked live); region B (1) is not
    // and holds an object with a field pointing at X.
    let mut heap = heap_with_regions(2);
    let x = 64u64;
    let b = REGION_BYTES + 64;
    assert!(heap.add_object(x, 32, &vec![], true, Gen::Old));
    assert!(heap.add_object(b, 16, &vec![x], true, Gen::Old));
    heap.set_region(0, relocatable());
    let mut trace = G1EvacuateTraceLocal::new(true, false);
    let slot = field_slot(&heap, b, 0);
    trace.process_edge(&mut heap, ObjectReference { addr: b }, slot);
    trace.complete_trace(&mut heap);
    let x_new = heap.load(slot);
    assert_eq!(x_new, COPY_BASE);
    assert_ne!(x_new, x);
    let xi = heap.find_object(x).unwrap();
    assert_eq!(heap.object(xi).forwarding, ForwardingState::Forwarded(x_new));
    let copy = heap.object(heap.find_object(x_new).unwrap());
    assert_eq!(copy.size, 32);
    assert!(trace.is_empty());
    // The copy lies outside the region space, so no card was dirtied.
    assert!(heap.remset_entries().is_empty());
    heap.release_collection_set();
    let a = heap.region(0);
    assert!(!a.committed);
    assert!(!a.relocate);
    assert!(heap.region(1).committed);
}

#[test]
fn dead_object_root_is_cleared() {
    let mut heap = heap_with_regions(1);
    let y = 128u64;
    assert!(heap.add_object(y, 24, &vec![], false, Gen::Old));
    heap.set_region(0, relocatable());
    let root = heap.add_root(y);
    let mut trace = G1EvacuateTraceLocal::new(true, false);
    let r = trace.trace_object(&mut heap, ObjectReference { addr: y });
    assert!(r.is_null());
    trace.report_delayed_root_edge(root);
    trace.complete_trace(&mut heap);
    assert_eq!(heap.load(root), 0);
    assert_eq!(heap.num_objects(), 1);
}

#[test]
fn tracing_twice_gives_one_copy() {
    let mut heap = heap_with_regions(1);
    assert!(heap.add_object(256, 40, &vec![0, 0], true, Gen::Eden));
    heap.set_region(0, Region { committed: true, relocate: true, generation: Gen::Eden });
    let mut trace = G1EvacuateTraceLocal::new(false, true);
    let before = heap.num_objects();
    let r1 = trace.trace_object(&mut heap, ObjectReference { addr: 256 });
    let r2 = trace.trace_object(&mut heap, ObjectReference { addr: 256 });
    let r3 = trace.trace_object(&mut heap, ObjectReference { addr: 256 });
    assert_eq!(r1, r2);
    assert_eq!(r2, r3);
    assert_eq!(heap.num_objects(), before + 1);
    let copy = heap.object(heap.find_object(r1.addr).unwrap());
    assert_eq!(copy.generation, Gen::Survivor);
    assert_eq!(heap.num_unforwarded(), 0);
}

#[test]
fn interior_pointer_keeps_offset() {
    let mut heap = heap_with_regions(1);
    assert!(heap.add_object(512, 64, &vec![], true, Gen::Old));
    heap.set_region(0, relocatable());
    let base_root = heap.add_root(512);
    let interior_root = heap.add_root(512 + 40);
    let mut trace = G1EvacuateTraceLocal::new(true, false);
    trace.process_root_edge(&mut heap, base_root, false);
    trace.process_interior_edge(&mut heap, ObjectReference { addr: 512 }, interior_root, true);
    assert_eq!(heap.load(base_root), COPY_BASE);
    assert_eq!(heap.load(interior_root), COPY_BASE + 40);
}

#[test]
fn cyclic_graph_reaches_fixpoint() {
    let mut heap = heap_with_regions(1);
    assert!(heap.add_object(1024, 16, &vec![2048], true, Gen::Old));
    assert!(heap.add_object(2048, 16, &vec![1024, 2048], true, Gen::Old));
    heap.set_region(0, relocatable());
    let root = heap.add_root(1024);
    let mut trace = G1EvacuateTraceLocal::new(true, false);
    trace.report_delayed_root_edge(root);
    trace.complete_trace(&mut heap);
    assert!(trace.is_empty());
    let a_new = heap.load(root);
    assert_eq!(a_new, COPY_BASE);
    let b_new = heap.load(field_slot(&heap, a_new, 0));
    assert_eq!(b_new, COPY_BASE + 16);
    assert_eq!(heap.load(field_slot(&heap, b_new, 0)), a_new);
    assert_eq!(heap.load(field_slot(&heap, b_new, 1)), b_new);
    assert_eq!(heap.num_objects(), 4);
}

#[test]
fn cross_region_edge_dirties_card_until_release() {
    let mut heap = heap_with_regions(3);
    let src = REGION_BYTES + 1000;
    let dst = 2 * REGION_BYTES + 8;
    assert!(heap.add_object(src, 16, &vec![dst], true, Gen::Old));
    assert!(heap.add_object(dst, 16, &vec![], true, Gen::Old));
    let mut trace = G1EvacuateTraceLocal::new(true, false);
    let slot = field_slot(&heap, src, 0);
    trace.process_edge(&mut heap, ObjectReference { addr: src }, slot);
    trace.process_edge(&mut heap, ObjectReference { addr: src }, slot);
    assert_eq!(heap.load(slot), dst);
    assert!(heap.has_card(2, src / CARD_BYTES));
    assert_eq!(heap.remset_entries().len(), 1);
    heap.set_region(2, relocatable());
    heap.release_collection_set();
    assert!(!heap.has_card(2, src / CARD_BYTES));
    assert!(heap.remset_entries().is_empty());
}

#[test]
fn remembered_set_pass_finds_inbound_edges() {
    let mut heap = heap_with_regions(3);
    let src = REGION_BYTES + 64;
    let dst = 2 * REGION_BYTES + 64;
    assert!(heap.add_object(src, 16, &vec![dst], true, Gen::Old));
    assert!(heap.add_object(dst, 16, &vec![], true, Gen::Old));
    heap.add_card(2, src / CARD_BYTES);
    heap.set_region(2, relocatable());
    let mut trace = G1EvacuateTraceLocal::new(true, false);
    trace.complete_trace(&mut heap);
    assert_eq!(heap.load(field_slot(&heap, src, 0)), COPY_BASE);
    assert!(trace.is_empty());
}

#[test]
fn liveness_follows_trace_decision() {
    let mut heap = heap_with_regions(2);
    assert!(heap.add_object(64, 16, &vec![], false, Gen::Old));
    assert!(heap.add_object(REGION_BYTES + 64, 16, &vec![], false, Gen::Old));
    heap.set_region(0, relocatable());
    let mut trace = G1EvacuateTraceLocal::new(false, false);
    assert!(!trace.is_live(&heap, ObjectReference { addr: 0 }));
    assert!(!trace.is_live(&heap, ObjectReference { addr: 64 }));
    assert!(trace.is_live(&heap, ObjectReference { addr: REGION_BYTES + 64 }));
    assert!(trace.is_live(&heap, ObjectReference { addr: COPY_BASE + 4096 }));
    trace.trace_object(&mut heap, ObjectReference { addr: 64 });
    assert!(trace.is_live(&heap, ObjectReference { addr: 64 }));
    assert!(!trace.will_not_move_in_current_collection(&heap, ObjectReference { addr: 64 }));
    assert!(trace.will_not_move_in_current_collection(&heap, ObjectReference { addr: COPY_BASE }));
    let remset_trace = G1EvacuateTraceLocal::new(true, false);
    assert!(remset_trace.is_live(&heap, ObjectReference { addr: REGION_BYTES + 64 }));
    // Forwarded without remembered sets, but never marked: tracing with remembered sets
    // would cut it off, so it is dead there.
    assert!(!remset_trace.is_live(&heap, ObjectReference { addr: 64 }));
}

#[test]
fn heap_rejects_bad_objects() {
    assert!(Heap::new(2, REGION_BYTES).is_none());
    let mut heap = heap_with_regions(1);
    assert!(!heap.add_object(COPY_BASE, 16, &vec![], true, Gen::Old));
    assert!(!heap.add_object(64, 0, &vec![], true, Gen::Old));
    assert!(heap.add_object(64, 16, &vec![1, 2, 3], true, Gen::Old));
    assert!(!heap.add_object(64, 16, &vec![], true, Gen::Old));
    assert_eq!(heap.num_words(), 3);
    assert_eq!(heap.num_unforwarded(), 1);
}

#[test]
fn release_empties_queues() {
    let mut trace = G1EvacuateTraceLocal::new(true, true);
    trace.init(7);
    trace.process_node(ObjectReference { addr: 64 });
    trace.report_delayed_root_edge(3);
    assert!(!trace.is_empty());
    trace.flush();
    trace.release();
    assert!(trace.is_empty());
    assert_eq!(trace.pick_copy_allocator(Region { committed: true, relocate: true, generation: Gen::Eden }), Gen::Survivor);
    assert_eq!(trace.pick_copy_allocator(Region { committed: true, relocate: true, generation: Gen::Old }), Gen::Old);
}
