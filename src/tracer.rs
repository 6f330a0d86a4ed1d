use vstd::prelude::*;
use crate::forwarding::ForwardingState;
use crate::heap::{
    card_index, lemma_evacuate_unforwarded, lemma_unforwarded_same, ADDRESS_LIMIT, CARD_BYTES,
    MAX_OBJECT_BYTES, region_index, CardEntry, Gen, Heap, HeapModel,
    ObjectReference, Region, REGION_BYTES,
};

verus! {

/// Generation that an evacuated object is copied into: with generational collection, eden
/// objects go to the survivor allocator; all others to the old one.
pub open spec fn copy_generation(generational: bool, region: Region) -> Gen {
    if generational && region.generation is Eden {
        Gen::Survivor
    } else {
        Gen::Old
    }
}

/// Whether tracing `a` evacuates it: a live object of a region selected for relocation that
/// has not been forwarded yet. With remembered sets, only objects marked live by the
/// earlier marking pass are live.
pub open spec fn evacuates(h: HeapModel, a: u64, remembered_sets: bool) -> bool {
    &&& a != 0
    &&& h.relocating(a)
    &&& h.has_object(a)
    &&& (!remembered_sets || h.objects[h.index_of(a)].marked)
    &&& h.objects[h.index_of(a)].forwarding is NotForwarded
}

/// The address that a reference to `a` holds after it is traced: null stays null; an
/// object that does not move stays; a dead object of a relocated region is cut off (null);
/// a live one moves to its forwarding address, or to the cursor where it is copied now.
pub open spec fn trace_result(h: HeapModel, a: u64, remembered_sets: bool) -> u64 {
    if a == 0 || !h.relocating(a) {
        a
    } else if !h.has_object(a) {
        0
    } else if remembered_sets && !h.objects[h.index_of(a)].marked {
        0
    } else {
        match h.objects[h.index_of(a)].forwarding {
            ForwardingState::Forwarded(t) => t,
            _ => h.cursor,
        }
    }
}

/// The heap after `a` is traced.
pub open spec fn trace_heap(h: HeapModel, a: u64, remembered_sets: bool, generational: bool) -> HeapModel {
    if evacuates(h, a, remembered_sets) {
        h.evacuate(h.index_of(a), copy_generation(generational, h.regions[region_index(a)]))
    } else {
        h
    }
}

/// Whether an edge from `src` to `target` crosses regions.
pub open spec fn is_cross_region_ref(src: u64, target: u64) -> bool {
    target != 0 && region_index(src) != region_index(target)
}

/// The heap after the edge from `src` to `target` is logged: with remembered sets, a
/// cross-region edge into the region space dirties the card of `src` in the target's
/// region.
pub open spec fn log_edge(h: HeapModel, remembered_sets: bool, src: u64, target: u64) -> HeapModel {
    if remembered_sets && is_cross_region_ref(src, target) && h.in_region_space(target) {
        let e = CardEntry { region: (target / REGION_BYTES) as u64, card: card_index(src) };
        HeapModel {
            remset: if h.remset.contains(e) {
                h.remset
            } else {
                h.remset.push(e)
            },
            ..h
        }
    } else {
        h
    }
}

/// The heap after the edge at `slot` of `src` is processed: its referent is traced, the
/// edge is logged, and the slot is rewritten to the traced address.
pub open spec fn edge_heap(
    h: HeapModel,
    src: u64,
    slot: int,
    remembered_sets: bool,
    generational: bool,
) -> HeapModel {
    let a = h.words[slot];
    let t = trace_result(h, a, remembered_sets);
    let h1 = log_edge(trace_heap(h, a, remembered_sets, generational), remembered_sets, src, t);
    HeapModel { words: h1.words.update(slot, t), ..h1 }
}

/// The scan queue after the edge at `slot` is processed: an evacuated referent's copy
/// joins it.
pub open spec fn edge_queue(
    h: HeapModel,
    slot: int,
    remembered_sets: bool,
    q: Seq<ObjectReference>,
) -> Seq<ObjectReference> {
    if evacuates(h, h.words[slot], remembered_sets) {
        q.push(ObjectReference { addr: trace_result(h, h.words[slot], remembered_sets) })
    } else {
        q
    }
}

/// Heap and scan queue after the `n` edges at `first ..` of `src` are processed in order.
pub open spec fn scan_fields(
    h: HeapModel,
    q: Seq<ObjectReference>,
    src: u64,
    first: int,
    n: nat,
    remembered_sets: bool,
    generational: bool,
) -> (HeapModel, Seq<ObjectReference>)
    decreases n,
{
    if n == 0 {
        (h, q)
    } else {
        let (h1, q1) = scan_fields(h, q, src, first, (n - 1) as nat, remembered_sets, generational);
        (
            edge_heap(h1, src, first + n - 1, remembered_sets, generational),
            edge_queue(h1, first + n - 1, remembered_sets, q1),
        )
    }
}

/// Heap and scan queue after each of the objects `0 .. n` that starts in `card` and is not
/// forwarded has its fields scanned, in order.
pub open spec fn scan_card(
    h: HeapModel,
    q: Seq<ObjectReference>,
    card: u64,
    n: nat,
    remembered_sets: bool,
    generational: bool,
) -> (HeapModel, Seq<ObjectReference>)
    decreases n,
{
    if n == 0 {
        (h, q)
    } else {
        let (h1, q1) = scan_card(h, q, card, (n - 1) as nat, remembered_sets, generational);
        let o = h1.objects[n - 1];
        if card_index(o.start) == card && o.forwarding is NotForwarded {
            let p = h1.objects[h1.index_of(o.start)];
            scan_fields(
                h1,
                q1,
                o.start,
                p.first_field as int,
                p.num_fields as nat,
                remembered_sets,
                generational,
            )
        } else {
            (h1, q1)
        }
    }
}

/// Heap and scan queue after the first `c` dirty cards of `cards` are rescanned: a card of
/// a region selected for relocation has every object of the heap checked against it.
pub open spec fn scan_cards(
    h: HeapModel,
    q: Seq<ObjectReference>,
    cards: Seq<CardEntry>,
    c: nat,
    remembered_sets: bool,
    generational: bool,
) -> (HeapModel, Seq<ObjectReference>)
    decreases c,
{
    if c == 0 {
        (h, q)
    } else {
        let (h1, q1) = scan_cards(h, q, cards, (c - 1) as nat, remembered_sets, generational);
        let e = cards[c - 1];
        if e.region < h1.regions.len() && h1.regions[e.region as int].relocate {
            scan_card(h1, q1, e.card, h1.objects.len(), remembered_sets, generational)
        } else {
            (h1, q1)
        }
    }
}

/// The heap after the root slot `slot` is processed: its referent is traced and the slot
/// rewritten.
pub open spec fn root_heap(h: HeapModel, slot: int, remembered_sets: bool, generational: bool) -> HeapModel {
    let t = trace_result(h, h.words[slot], remembered_sets);
    let h1 = trace_heap(h, h.words[slot], remembered_sets, generational);
    HeapModel { words: h1.words.update(slot, t), ..h1 }
}

/// Heap and scan queue after the delayed root slots `roots` are processed, last first.
pub open spec fn process_roots_result(
    h: HeapModel,
    q: Seq<ObjectReference>,
    roots: Seq<usize>,
    remembered_sets: bool,
    generational: bool,
) -> (HeapModel, Seq<ObjectReference>)
    decreases roots.len(),
{
    if roots.len() == 0 {
        (h, q)
    } else {
        let slot = roots.last() as int;
        process_roots_result(
            root_heap(h, slot, remembered_sets, generational),
            edge_queue(h, slot, remembered_sets, q),
            roots.drop_last(),
            remembered_sets,
            generational,
        )
    }
}

/// A processed edge never points into a region selected for relocation.
pub proof fn lemma_edge_not_relocating(
    h: HeapModel,
    src: u64,
    slot: int,
    remembered_sets: bool,
    generational: bool,
)
    requires
        h.wf(),
        0 <= slot < h.words.len(),
    ensures
        ({
            let h1 = edge_heap(h, src, slot, remembered_sets, generational);
            !h1.relocating(h1.words[slot])
        }),
{
    lemma_trace_result_not_relocating(h, h.words[slot], remembered_sets);
    lemma_trace_settles(h, h.words[slot], remembered_sets, generational);
}

/// A traced address is the address itself, null, or an address of the copy reserve.
pub proof fn lemma_trace_result_bound(h: HeapModel, a: u64, remembered_sets: bool)
    requires
        h.wf(),
    ensures
        ({
            let r = trace_result(h, a, remembered_sets);
            r == a || r == 0 || (h.copy_base <= r <= h.cursor && h.cursor <= ADDRESS_LIMIT)
        }),
{
    if a != 0 && h.relocating(a) && h.has_object(a) {
        let i = h.index_of(a);
        assert(h.object_at(a, i));
        assert(h.object_wf(h.objects[i]));
    }
    assert(h.unforwarded().len() * MAX_OBJECT_BYTES >= 0) by (nonlinear_arith);
}

/// Liveness of `a` in the current cycle, as tracing decides it: null is dead; an object
/// outside the regions selected for relocation is kept where it is, so it is live; one
/// inside them is live once it was forwarded, and, with remembered sets, only if the
/// earlier marking pass marked it.
pub open spec fn spec_is_live(h: HeapModel, a: u64, remembered_sets: bool) -> bool {
    if a == 0 {
        false
    } else if h.relocating(a) {
        h.has_object(a) && !(h.objects[h.index_of(a)].forwarding is NotForwarded) && (
        !remembered_sets || h.objects[h.index_of(a)].marked)
    } else {
        true
    }
}

/// An address of the region space lies below the copy reserve.
pub proof fn lemma_region_space_below_copy_base(h: HeapModel, a: u64)
    requires
        h.wf(),
        h.in_region_space(a),
    ensures
        a < h.copy_base,
{
    let k = a / REGION_BYTES;
    assert(a < (k + 1) * 1048576) by (nonlinear_arith)
        requires k == a / 1048576;
    assert((k + 1) <= h.regions.len());
    assert((k + 1) * 1048576 <= h.regions.len() * 1048576) by (nonlinear_arith)
        requires (k + 1) <= h.regions.len();
}

/// A traced reference never points into a region selected for relocation.
pub proof fn lemma_trace_result_not_relocating(h: HeapModel, a: u64, remembered_sets: bool)
    requires
        h.wf(),
    ensures
        !h.relocating(trace_result(h, a, remembered_sets)),
{
    let r = trace_result(h, a, remembered_sets);
    if a != 0 && h.relocating(a) && h.has_object(a) && !(remembered_sets
        && !h.objects[h.index_of(a)].marked) {
        let i = h.index_of(a);
        assert(h.object_at(a, i));
        assert(h.object_wf(h.objects[i]));
        assert(h.copy_base <= r);
        if h.in_region_space(r) {
            lemma_region_space_below_copy_base(h, r);
        }
    }
}

/// The heap after `a` is traced `n` times over.
pub open spec fn trace_repeatedly(
    h: HeapModel,
    a: u64,
    remembered_sets: bool,
    generational: bool,
    n: nat,
) -> HeapModel
    decreases n,
{
    if n == 0 {
        h
    } else {
        trace_heap(
            trace_repeatedly(h, a, remembered_sets, generational, (n - 1) as nat),
            a,
            remembered_sets,
            generational,
        )
    }
}

/// Once `a` is traced, tracing it again returns the same address and changes nothing.
pub proof fn lemma_trace_settles(h: HeapModel, a: u64, remembered_sets: bool, generational: bool)
    requires
        h.wf(),
    ensures
        ({
            let h1 = trace_heap(h, a, remembered_sets, generational);
            &&& trace_result(h1, a, remembered_sets) == trace_result(h, a, remembered_sets)
            &&& !evacuates(h1, a, remembered_sets)
            &&& trace_heap(h1, a, remembered_sets, generational) == h1
            &&& h1.words.len() >= h.words.len()
            &&& forall|k: int| 0 <= k < h.words.len() ==> #[trigger] h1.words[k] == h.words[k]
        }),
{
    let h1 = trace_heap(h, a, remembered_sets, generational);
    if evacuates(h, a, remembered_sets) {
        let i = h.index_of(a);
        assert(h.object_at(a, i));
        lemma_region_space_below_copy_base(h, a);
        assert(h1.object_at(a, i));
        let j = h1.index_of(a);
        assert(h1.object_at(a, j));
        if j < h.objects.len() {
            assert(h.objects[j].start == h.objects[i].start);
        }
        assert(j == i);
    }
}

/// Tracers that race on one reference, taken in the order their forwarding attempts
/// land, all get the same address, and at most one copy of the object is made: exactly
/// one when the first attempt evacuates it.
pub proof fn lemma_forwarding_idempotent(
    h: HeapModel,
    a: u64,
    remembered_sets: bool,
    generational: bool,
    n: nat,
)
    requires
        h.wf(),
    ensures
        forall|k: nat|
            k < n ==> trace_result(
                #[trigger] trace_repeatedly(h, a, remembered_sets, generational, k),
                a,
                remembered_sets,
            ) == trace_result(h, a, remembered_sets),
        trace_repeatedly(h, a, remembered_sets, generational, n).objects.len() == h.objects.len()
            + if n > 0 && evacuates(h, a, remembered_sets) {
            1int
        } else {
            0int
        },
    decreases n,
{
    lemma_trace_settles(h, a, remembered_sets, generational);
    if n > 0 {
        lemma_forwarding_idempotent(h, a, remembered_sets, generational, (n - 1) as nat);
        lemma_repeat_settled(h, a, remembered_sets, generational, n);
    }
    assert forall|k: nat| k < n implies trace_result(
        #[trigger] trace_repeatedly(h, a, remembered_sets, generational, k),
        a,
        remembered_sets,
    ) == trace_result(h, a, remembered_sets) by {
        if k > 0 {
            lemma_repeat_settled(h, a, remembered_sets, generational, k);
        }
    }
}

/// After the first trace, further traces of the same reference leave the heap as it is.
proof fn lemma_repeat_settled(
    h: HeapModel,
    a: u64,
    remembered_sets: bool,
    generational: bool,
    n: nat,
)
    requires
        h.wf(),
        n >= 1,
    ensures
        trace_repeatedly(h, a, remembered_sets, generational, n) == trace_heap(
            h,
            a,
            remembered_sets,
            generational,
        ),
    decreases n,
{
    lemma_trace_settles(h, a, remembered_sets, generational);
    assert(trace_repeatedly(h, a, remembered_sets, generational, 0) == h);
    if n > 1 {
        lemma_repeat_settled(h, a, remembered_sets, generational, (n - 1) as nat);
    }
}

/// Two slots that held the same reference before collection hold the same address after
/// both are processed: the post-collection address of that object, or null if it was dead.
pub proof fn lemma_edges_agree(
    h: HeapModel,
    src1: u64,
    slot1: int,
    src2: u64,
    slot2: int,
    remembered_sets: bool,
    generational: bool,
)
    requires
        h.wf(),
        0 <= slot1 < h.words.len(),
        0 <= slot2 < h.words.len(),
        slot1 != slot2,
        h.words[slot1] == h.words[slot2],
    ensures
        ({
            let h1 = edge_heap(h, src1, slot1, remembered_sets, generational);
            let h2 = edge_heap(h1, src2, slot2, remembered_sets, generational);
            &&& h2.words[slot1] == trace_result(h, h.words[slot1], remembered_sets)
            &&& h2.words[slot2] == trace_result(h, h.words[slot1], remembered_sets)
        }),
{
    let a = h.words[slot1];
    lemma_trace_settles(h, a, remembered_sets, generational);
    let t = trace_result(h, a, remembered_sets);
    let h1 = edge_heap(h, src1, slot1, remembered_sets, generational);
    let ht = trace_heap(h, a, remembered_sets, generational);
    assert(h1.words[slot2] == a);
    assert(h1.objects == ht.objects && h1.regions == ht.regions && h1.cursor == ht.cursor
        && h1.copy_base == ht.copy_base);
    assert(trace_result(h1, a, remembered_sets) == trace_result(ht, a, remembered_sets));
    assert(evacuates(h1, a, remembered_sets) == evacuates(ht, a, remembered_sets));
}

/// An interior pointer at offset `k` into the object that a base slot refers to ends
/// `k` bytes past where the base slot ends up pointing.
pub proof fn lemma_interior_follows_base(
    h: HeapModel,
    src: u64,
    base_slot: int,
    interior_slot: int,
    remembered_sets: bool,
    generational: bool,
)
    requires
        h.wf(),
        0 <= base_slot < h.words.len(),
        0 <= interior_slot < h.words.len(),
        base_slot != interior_slot,
        h.words[base_slot] <= h.words[interior_slot],
        h.words[interior_slot] - h.words[base_slot] < MAX_OBJECT_BYTES,
    ensures
        ({
            let a = h.words[base_slot];
            let k = h.words[interior_slot] - a;
            let h1 = edge_heap(h, src, base_slot, remembered_sets, generational);
            let t = trace_result(h1, a, remembered_sets);
            let h2 = trace_heap(h1, a, remembered_sets, generational);
            let h3 = HeapModel { words: h2.words.update(interior_slot, (t + k) as u64), ..h2 };
            &&& h3.words[interior_slot] == h3.words[base_slot] + k
            &&& h3.words[base_slot] == trace_result(h, a, remembered_sets)
        }),
{
    let a = h.words[base_slot];
    lemma_trace_settles(h, a, remembered_sets, generational);
    lemma_trace_result_bound(h, a, remembered_sets);
    let h1 = edge_heap(h, src, base_slot, remembered_sets, generational);
    let ht = trace_heap(h, a, remembered_sets, generational);
    assert(h1.objects == ht.objects && h1.regions == ht.regions && h1.cursor == ht.cursor
        && h1.copy_base == ht.copy_base);
    assert(trace_result(h1, a, remembered_sets) == trace_result(ht, a, remembered_sets));
    assert(evacuates(h1, a, remembered_sets) == evacuates(ht, a, remembered_sets));
}

/// A consumer of newly discovered live objects.
pub trait TransitiveClosure {
    spec fn spec_queued(&self) -> Seq<ObjectReference>;

    /// Queue `object` for scanning.
    fn process_node(&mut self, object: ObjectReference)
        ensures
            final(self).spec_queued() == old(self).spec_queued().push(object),
    ;
}

/// The word at `k` does not point into a region selected for relocation.
pub open spec fn clean(h: HeapModel, k: int) -> bool {
    !h.relocating(h.words[k])
}

/// Every word of `h` that was clean is still clean in `h2`.
pub open spec fn keeps_clean(h: HeapModel, h2: HeapModel) -> bool {
    forall|k: int| 0 <= k < h.words.len() && clean(h, k) ==> #[trigger] clean(h2, k)
}

/// Every field of object `i` is clean.
pub open spec fn fields_clean(h: HeapModel, i: int) -> bool {
    forall|j: int|
        0 <= j < h.objects[i].num_fields ==> #[trigger] clean(h, h.objects[i].first_field + j)
}

/// The objects of `h` are still in `h2`, at the same index, address and fields.
pub open spec fn objects_stable(h: HeapModel, h2: HeapModel) -> bool {
    &&& h2.objects.len() >= h.objects.len()
    &&& forall|i: int|
        0 <= i < h.objects.len() ==> (#[trigger] h2.objects[i]).start == h.objects[i].start
            && h2.objects[i].first_field == h.objects[i].first_field
            && h2.objects[i].num_fields == h.objects[i].num_fields
}

/// The object at `a`, if the heap holds one, is still queued for scanning or has only
/// clean fields.
pub open spec fn covered(h: HeapModel, values: Seq<ObjectReference>, a: u64) -> bool {
    h.has_object(a) ==> values.contains(ObjectReference { addr: a }) || fields_clean(
        h,
        h.index_of(a),
    )
}

/// In a well-formed heap, the object at index `i` is the one its address finds.
proof fn lemma_index_of(h: HeapModel, i: int)
    requires
        h.wf(),
        0 <= i < h.objects.len(),
    ensures
        h.has_object(h.objects[i].start),
        h.index_of(h.objects[i].start) == i,
{
    let a = h.objects[i].start;
    assert(h.object_at(a, i));
    let j = h.index_of(a);
    assert(h.object_at(a, j));
    assert(h.objects[j].start == h.objects[i].start);
}

/// Coverage survives a step of the trace that keeps clean words clean, keeps objects in
/// place, keeps queued objects queued (but for ones it scanned) and queues every copy.
proof fn lemma_covered_step(
    ha: HeapModel,
    hb: HeapModel,
    pre: Seq<ObjectReference>,
    va: Seq<ObjectReference>,
    vb: Seq<ObjectReference>,
    a: u64,
)
    requires
        ha.wf(),
        hb.wf(),
        keeps_clean(ha, hb),
        objects_stable(ha, hb),
        forall|x: ObjectReference| va.contains(x) ==> #[trigger] vb.contains(x),
        forall|i: int|
            ha.objects.len() <= i < hb.objects.len() ==> vb.contains(
                ObjectReference { addr: (#[trigger] hb.objects[i]).start },
            ),
        forall|x: ObjectReference|
            #[trigger] pre.contains(x) ==> va.contains(x) || (ha.has_object(x.addr) ==> fields_clean(
                hb,
                ha.index_of(x.addr),
            )),
        covered(ha, pre, a),
    ensures
        covered(hb, vb, a),
{
    if hb.has_object(a) {
        let j = hb.index_of(a);
        assert(hb.object_at(a, j));
        if j < ha.objects.len() {
            assert(hb.objects[j].start == ha.objects[j].start);
            lemma_index_of(ha, j);
            let x = ObjectReference { addr: a };
            if pre.contains(x) {
                if va.contains(x) {
                    assert(vb.contains(x));
                }
            } else {
                assert(fields_clean(ha, j));
                assert(ha.object_wf(ha.objects[j]));
                assert forall|jj: int| 0 <= jj < hb.objects[j].num_fields implies #[trigger] clean(
                    hb,
                    hb.objects[j].first_field + jj,
                ) by {
                    assert(clean(ha, ha.objects[j].first_field + jj));
                }
            }
        } else {
            assert(vb.contains(ObjectReference { addr: hb.objects[j].start }));
        }
    }
}

/// One step of the fixpoint loop keeps what the loop has established so far.
proof fn lemma_trace_step(
    h0: HeapModel,
    ha: HeapModel,
    hb: HeapModel,
    pre: Seq<ObjectReference>,
    va: Seq<ObjectReference>,
    vb: Seq<ObjectReference>,
    v0: Seq<ObjectReference>,
    r0: Seq<usize>,
)
    requires
        ha.wf(),
        hb.wf(),
        keeps_clean(ha, hb),
        objects_stable(ha, hb),
        hb.words.len() >= ha.words.len(),
        forall|x: ObjectReference| va.contains(x) ==> #[trigger] vb.contains(x),
        forall|i: int|
            ha.objects.len() <= i < hb.objects.len() ==> vb.contains(
                ObjectReference { addr: (#[trigger] hb.objects[i]).start },
            ),
        forall|x: ObjectReference|
            #[trigger] pre.contains(x) ==> va.contains(x) || (ha.has_object(x.addr) ==> fields_clean(
                hb,
                ha.index_of(x.addr),
            )),
        ha.words.len() >= h0.words.len(),
        forall|k: int| 0 <= k < r0.len() ==> #[trigger] r0[k] < h0.words.len(),
        objects_stable(h0, ha),
        keeps_clean(h0, ha),
        forall|k: int| 0 <= k < r0.len() ==> #[trigger] clean(ha, r0[k] as int),
        forall|k: int| 0 <= k < v0.len() ==> #[trigger] covered(ha, pre, v0[k].addr),
        forall|i: int|
            h0.objects.len() <= i < ha.objects.len() ==> covered(
                ha,
                pre,
                (#[trigger] ha.objects[i]).start,
            ),
    ensures
        objects_stable(h0, hb),
        keeps_clean(h0, hb),
        forall|k: int| 0 <= k < r0.len() ==> #[trigger] clean(hb, r0[k] as int),
        forall|k: int| 0 <= k < v0.len() ==> #[trigger] covered(hb, vb, v0[k].addr),
        forall|i: int|
            h0.objects.len() <= i < hb.objects.len() ==> covered(
                hb,
                vb,
                (#[trigger] hb.objects[i]).start,
            ),
{
    assert forall|k: int| 0 <= k < r0.len() implies #[trigger] clean(hb, r0[k] as int) by {
        assert(r0[k] < h0.words.len());
        assert(clean(ha, r0[k] as int));
    }
    assert forall|k: int| 0 <= k < v0.len() implies #[trigger] covered(hb, vb, v0[k].addr) by {
        assert(covered(ha, pre, v0[k].addr));
        lemma_covered_step(ha, hb, pre, va, vb, v0[k].addr);
    }
    assert forall|i: int| h0.objects.len() <= i < hb.objects.len() implies covered(
        hb,
        vb,
        (#[trigger] hb.objects[i]).start,
    ) by {
        let a = hb.objects[i].start;
        if i < ha.objects.len() {
            assert(covered(ha, pre, ha.objects[i].start));
        } else if ha.has_object(a) {
            let j = ha.index_of(a);
            assert(ha.object_at(a, j));
            assert(hb.objects[j].start == a);
            assert(false);
        }
        lemma_covered_step(ha, hb, pre, va, vb, a);
    }
}

proof fn lemma_push_keeps(s: Seq<ObjectReference>, v: ObjectReference)
    ensures
        forall|x: ObjectReference| s.contains(x) ==> #[trigger] s.push(v).contains(x),
        s.push(v).contains(v),
{
    assert(s.push(v)[s.len() as int] == v);
    assert forall|x: ObjectReference| s.contains(x) implies #[trigger] s.push(v).contains(x) by {
        let j = choose|j: int| 0 <= j < s.len() && s[j] == x;
        assert(s.push(v)[j] == x);
    }
}

/// The per-worker state of the evacuating tracer: the queue of objects whose fields are
/// still to be scanned and the queue of root slots whose processing was delayed.
pub struct G1EvacuateTraceLocal {
    tls: u64,
    values: Vec<ObjectReference>,
    root_locations: Vec<usize>,
    remembered_sets: bool,
    generational: bool,
}

impl G1EvacuateTraceLocal {
    pub closed spec fn spec_values(&self) -> Seq<ObjectReference> {
        self.values@
    }

    pub closed spec fn spec_root_locations(&self) -> Seq<usize> {
        self.root_locations@
    }

    pub closed spec fn spec_remembered_sets(&self) -> bool {
        self.remembered_sets
    }

    pub closed spec fn spec_generational(&self) -> bool {
        self.generational
    }

    pub closed spec fn spec_tls(&self) -> u64 {
        self.tls
    }

    /// Every delayed root slot is an address of the word memory of `h`.
    pub open spec fn roots_in(&self, h: HeapModel) -> bool {
        forall|k: int|
            0 <= k < self.spec_root_locations().len() ==> #[trigger] self.spec_root_locations()[k]
                < h.words.len()
    }

    /// Nothing but the work queue and the heap changed, and the work left (unforwarded
    /// objects plus queued objects) stayed the same while unforwarded objects did not grow.
    pub open spec fn conserves(
        &self,
        next: &Self,
        h: HeapModel,
        h2: HeapModel,
    ) -> bool {
        &&& next.spec_root_locations() == self.spec_root_locations()
        &&& self.conserves_work(next, h, h2)
    }

    /// As `conserves`, whatever became of the delayed roots.
    pub open spec fn conserves_work(
        &self,
        next: &Self,
        h: HeapModel,
        h2: HeapModel,
    ) -> bool {
        &&& next.spec_remembered_sets() == self.spec_remembered_sets()
        &&& next.spec_generational() == self.spec_generational()
        &&& objects_stable(h, h2)
        &&& forall|x: ObjectReference|
            self.spec_values().contains(x) ==> #[trigger] next.spec_values().contains(x)
        &&& forall|i: int|
            h.objects.len() <= i < h2.objects.len() ==> next.spec_values().contains(
                ObjectReference { addr: (#[trigger] h2.objects[i]).start },
            )
        &&& next.spec_tls() == self.spec_tls()
        &&& h2.words.len() >= h.words.len()
        &&& h2.objects.len() >= h.objects.len()
        &&& h2.regions == h.regions
        &&& h2.copy_base == h.copy_base
        &&& h2.unforwarded().len() <= h.unforwarded().len()
        &&& h2.unforwarded().len() + next.spec_values().len() == h.unforwarded().len()
            + self.spec_values().len()
    }

    pub fn new(remembered_sets: bool, generational: bool) -> (r: Self)
        ensures
            r.spec_values().len() == 0,
            r.spec_root_locations().len() == 0,
            r.spec_remembered_sets() == remembered_sets,
            r.spec_generational() == generational,
            r.spec_tls() == 0,
    {
        G1EvacuateTraceLocal {
            tls: 0,
            values: Vec::new(),
            root_locations: Vec::new(),
            remembered_sets,
            generational,
        }
    }

    /// Bind the tracer to the worker thread `tls`.
    pub fn init(&mut self, tls: u64)
        ensures
            final(self).spec_tls() == tls,
            final(self).spec_values() == old(self).spec_values(),
            final(self).spec_root_locations() == old(self).spec_root_locations(),
            final(self).spec_remembered_sets() == old(self).spec_remembered_sets(),
            final(self).spec_generational() == old(self).spec_generational(),
    {
        self.tls = tls;
    }

    pub fn is_empty(&self) -> (r: bool)
        ensures
            r == (self.spec_root_locations().len() == 0 && self.spec_values().len() == 0),
    {
        self.root_locations.len() == 0 && self.values.len() == 0
    }

    /// The queues of this tracer are its only ones, so there is nothing to hand over.
    pub fn flush(&mut self)
        ensures
            *final(self) == *old(self),
    {
    }

    /// Queue a newly discovered live object for scanning.
    pub fn process_node(&mut self, object: ObjectReference)
        ensures
            final(self).spec_values() == old(self).spec_values().push(object),
            final(self).spec_root_locations() == old(self).spec_root_locations(),
            final(self).spec_remembered_sets() == old(self).spec_remembered_sets(),
            final(self).spec_generational() == old(self).spec_generational(),
            final(self).spec_tls() == old(self).spec_tls(),
    {
        self.values.push(object);
    }

    /// Delay the processing of the root slot `slot` until the trace completes.
    pub fn report_delayed_root_edge(&mut self, slot: usize)
        ensures
            final(self).spec_root_locations() == old(self).spec_root_locations().push(slot),
            final(self).spec_values() == old(self).spec_values(),
            final(self).spec_remembered_sets() == old(self).spec_remembered_sets(),
            final(self).spec_generational() == old(self).spec_generational(),
            final(self).spec_tls() == old(self).spec_tls(),
    {
        self.root_locations.push(slot);
    }

    /// Tracing rewrites references in place.
    pub fn overwrite_reference_during_trace(&self) -> (r: bool)
        ensures
            r,
    {
        true
    }

    /// The generation an object of `region` is copied into.
    pub fn pick_copy_allocator(&self, region: Region) -> (r: Gen)
        ensures
            r == copy_generation(self.spec_generational(), region),
    {
        if !self.generational {
            return Gen::Old;
        }
        match region.generation {
            Gen::Eden => Gen::Survivor,
            _ => Gen::Old,
        }
    }

    /// Trace the reference `object`: evacuate it if it is a live object of a region
    /// selected for relocation that was not forwarded yet, and return where references to
    /// it must now point.
    pub fn trace_object(&mut self, heap: &mut Heap, object: ObjectReference) -> (r: ObjectReference)
        requires
            old(heap).wf(),
        ensures
            final(heap).wf(),
            r.addr == trace_result(old(heap)@, object.addr, old(self).spec_remembered_sets()),
            final(heap)@ == trace_heap(
                old(heap)@,
                object.addr,
                old(self).spec_remembered_sets(),
                old(self).spec_generational(),
            ),
            final(self).spec_values() == if evacuates(
                old(heap)@,
                object.addr,
                old(self).spec_remembered_sets(),
            ) {
                old(self).spec_values().push(r)
            } else {
                old(self).spec_values()
            },
            old(self).conserves(final(self), old(heap)@, final(heap)@),
            keeps_clean(old(heap)@, final(heap)@),
    {
        let ghost h0 = heap@;
        if object.is_null() {
            return object;
        }
        let region = match heap.region_of(object.addr) {
            Some(g) => g,
            None => {
                return object;
            },
        };
        if !region.relocate {
            return object;
        }
        let i = match heap.find_object(object.addr) {
            Some(i) => i,
            None => {
                return ObjectReference::null();
            },
        };
        let o = heap.object(i);
        if self.remembered_sets && !o.marked {
            return ObjectReference::null();
        }
        match o.forwarding {
            ForwardingState::Forwarded(t) => ObjectReference { addr: t },
            _ => {
                proof {
                    old(heap).lemma_model_wf();
                    assert(h0.object_wf(h0.objects[i as int]));
                    lemma_region_space_below_copy_base(h0, object.addr);
                    assert(h0.unforwarded().contains(i as int));
                    lemma_evacuate_unforwarded(h0, i as int, copy_generation(self.generational, region));
                }
                let generation = self.pick_copy_allocator(region);
                let t = heap.forward(i, generation);
                let new_object = ObjectReference { addr: t };
                let ghost v0 = self.values@;
                self.process_node(new_object);
                proof {
                    lemma_push_keeps(v0, new_object);
                    assert(heap@.objects[h0.objects.len() as int].start == t);
                    assert forall|k: int| 0 <= k < h0.words.len() && clean(h0, k) implies #[trigger] clean(heap@, k) by {
                        assert(heap@.words[k] == h0.words[k]);
                    }
                }
                new_object
            },
        }
    }

    /// Process the edge held in word `slot` of the object `src`: trace its referent, log
    /// a cross-region edge in the remembered set, and rewrite the slot.
    pub fn process_edge(&mut self, heap: &mut Heap, src: ObjectReference, slot: usize)
        requires
            old(heap).wf(),
            slot < old(heap)@.words.len(),
        ensures
            final(heap).wf(),
            final(heap)@ == edge_heap(
                old(heap)@,
                src.addr,
                slot as int,
                old(self).spec_remembered_sets(),
                old(self).spec_generational(),
            ),
            final(self).spec_values() == if evacuates(
                old(heap)@,
                old(heap)@.words[slot as int],
                old(self).spec_remembered_sets(),
            ) {
                old(self).spec_values().push(
                    ObjectReference {
                        addr: trace_result(
                            old(heap)@,
                            old(heap)@.words[slot as int],
                            old(self).spec_remembered_sets(),
                        ),
                    },
                )
            } else {
                old(self).spec_values()
            },
            old(self).conserves(final(self), old(heap)@, final(heap)@),
            keeps_clean(old(heap)@, final(heap)@),
            clean(final(heap)@, slot as int),
    {
        proof {
            old(heap).lemma_model_wf();
            lemma_trace_result_not_relocating(old(heap)@, old(heap)@.words[slot as int], self.remembered_sets);
        }
        let object = ObjectReference { addr: heap.load(slot) };
        let new_object = self.trace_object(heap, object);
        let ghost h1 = heap@;
        if self.remembered_sets && !new_object.is_null() && src.addr / REGION_BYTES
            != new_object.addr / REGION_BYTES {
            if heap.region_of(new_object.addr).is_some() {
                heap.add_card(new_object.addr / REGION_BYTES, src.addr / CARD_BYTES);
            }
        }
        let ghost h2 = heap@;
        heap.store(slot, new_object.addr);
        proof {
            lemma_unforwarded_same(h1, heap@);
            assert forall|k: int| 0 <= k < h1.words.len() && clean(h1, k) implies #[trigger] clean(heap@, k) by {
                if k != slot {
                    assert(heap@.words[k] == h2.words[k]);
                }
            }
        }
    }

    /// Process the root slot `slot`: trace its referent and rewrite the slot. A dead
    /// referent leaves the slot cleared.
    pub fn process_root_edge(&mut self, heap: &mut Heap, slot: usize, untraced: bool)
        requires
            old(heap).wf(),
            slot < old(heap)@.words.len(),
        ensures
            final(heap).wf(),
            final(heap)@ == root_heap(
                old(heap)@,
                slot as int,
                old(self).spec_remembered_sets(),
                old(self).spec_generational(),
            ),
            final(self).spec_values() == edge_queue(
                old(heap)@,
                slot as int,
                old(self).spec_remembered_sets(),
                old(self).spec_values(),
            ),
            old(self).conserves(final(self), old(heap)@, final(heap)@),
            keeps_clean(old(heap)@, final(heap)@),
            clean(final(heap)@, slot as int),
    {
        proof {
            old(heap).lemma_model_wf();
            lemma_trace_result_not_relocating(old(heap)@, old(heap)@.words[slot as int], self.remembered_sets);
        }
        let object = ObjectReference { addr: heap.load(slot) };
        let new_object = self.trace_object(heap, object);
        let ghost h1 = heap@;
        heap.store(slot, new_object.addr);
        proof {
            lemma_unforwarded_same(h1, heap@);
            assert forall|k: int| 0 <= k < h1.words.len() && clean(h1, k) implies #[trigger] clean(heap@, k) by {
                if k != slot {
                    assert(heap@.words[k] == h1.words[k]);
                }
            }
        }
    }

    /// Process an interior pointer held in `slot` into the object `target`: trace the
    /// object and rewrite the slot to the same offset from where the object now is.
    pub fn process_interior_edge(
        &mut self,
        heap: &mut Heap,
        target: ObjectReference,
        slot: usize,
        root: bool,
    )
        requires
            old(heap).wf(),
            slot < old(heap)@.words.len(),
            target.addr <= old(heap)@.words[slot as int],
            old(heap)@.words[slot as int] - target.addr < MAX_OBJECT_BYTES,
        ensures
            final(heap).wf(),
            ({
                let h0 = old(heap)@;
                let rs = old(self).spec_remembered_sets();
                let offset = h0.words[slot as int] - target.addr;
                let t = trace_result(h0, target.addr, rs);
                let h1 = trace_heap(h0, target.addr, rs, old(self).spec_generational());
                final(heap)@ == (HeapModel {
                    words: h1.words.update(slot as int, (t + offset) as u64),
                    ..h1
                })
            }),
            old(self).conserves(final(self), old(heap)@, final(heap)@),
    {
        let interior_ref = heap.load(slot);
        let offset = interior_ref - target.addr;
        proof {
            old(heap).lemma_model_wf();
            lemma_trace_result_bound(heap@, target.addr, self.remembered_sets);
        }
        let new_target = self.trace_object(heap, target);
        let ghost h1 = heap@;
        heap.store(slot, new_target.addr + offset);
        proof {
            lemma_unforwarded_same(h1, heap@);
        }
    }

    /// Scan the fields of `object`, if the heap holds it, processing each as an edge in
    /// order.
    pub fn scan_object(&mut self, heap: &mut Heap, object: ObjectReference)
        requires
            old(heap).wf(),
        ensures
            final(heap).wf(),
            old(self).conserves(final(self), old(heap)@, final(heap)@),
            !old(heap)@.has_object(object.addr) ==> final(heap)@ == old(heap)@
                && final(self).spec_values() == old(self).spec_values(),
            old(heap)@.has_object(object.addr) ==> ({
                let o = old(heap)@.objects[old(heap)@.index_of(object.addr)];
                (final(heap)@, final(self).spec_values()) == scan_fields(
                    old(heap)@,
                    old(self).spec_values(),
                    object.addr,
                    o.first_field as int,
                    o.num_fields as nat,
                    old(self).spec_remembered_sets(),
                    old(self).spec_generational(),
                )
            }),
            keeps_clean(old(heap)@, final(heap)@),
            old(heap)@.has_object(object.addr) ==> fields_clean(
                final(heap)@,
                old(heap)@.index_of(object.addr),
            ),
    {
        let i = match heap.find_object(object.addr) {
            Some(i) => i,
            None => {
                return;
            },
        };
        let o = heap.object(i);
        let num_words = heap.num_words();
        proof {
            heap.lemma_model_wf();
            assert(heap@.object_wf(heap@.objects[i as int]));
        }
        let mut j: usize = 0;
        while j < o.num_fields
            invariant
                j <= o.num_fields,
                heap.wf(),
                o.first_field + o.num_fields <= num_words,
                o.first_field + o.num_fields <= heap@.words.len(),
                o == old(heap)@.objects[old(heap)@.index_of(object.addr)],
                i == old(heap)@.index_of(object.addr),
                i < old(heap)@.objects.len(),
                old(self).conserves(self, old(heap)@, heap@),
                keeps_clean(old(heap)@, heap@),
                forall|jj: int| 0 <= jj < j ==> #[trigger] clean(heap@, o.first_field + jj),
                (heap@, self.spec_values()) == scan_fields(
                    old(heap)@,
                    old(self).spec_values(),
                    object.addr,
                    o.first_field as int,
                    j as nat,
                    old(self).spec_remembered_sets(),
                    old(self).spec_generational(),
                ),
            decreases o.num_fields - j,
        {
            let ghost hb = heap@;
            self.process_edge(heap, object, o.first_field + j);
            proof {
                assert forall|jj: int| 0 <= jj < j + 1 implies #[trigger] clean(heap@, o.first_field + jj) by {
                    if jj < j {
                        assert(clean(hb, o.first_field + jj));
                    }
                }
            }
            j = j + 1;
        }
        proof {
            assert(heap@.objects[i as int].first_field == o.first_field);
            assert(heap@.objects[i as int].num_fields == o.num_fields);
            assert forall|jj: int| 0 <= jj < heap@.objects[i as int].num_fields implies #[trigger] clean(heap@, heap@.objects[i as int].first_field + jj) by {
                assert(clean(heap@, o.first_field + jj));
            }
        }
    }

    /// Rescan the dirty cards of the regions selected for relocation: each edge held by an
    /// unforwarded object of such a card goes through `process_edge`, which may queue
    /// objects for scanning. The cards stay until the collection set is released.
    pub fn process_remembered_sets(&mut self, heap: &mut Heap)
        requires
            old(heap).wf(),
        ensures
            final(heap).wf(),
            old(self).conserves(final(self), old(heap)@, final(heap)@),
            !old(self).spec_remembered_sets() ==> final(heap)@ == old(heap)@ && *final(self)
                == *old(self),
            old(self).spec_remembered_sets() ==> (final(heap)@, final(self).spec_values())
                == scan_cards(
                old(heap)@,
                old(self).spec_values(),
                old(heap)@.remset,
                old(heap)@.remset.len(),
                true,
                old(self).spec_generational(),
            ),
            keeps_clean(old(heap)@, final(heap)@),
    {
        if !self.remembered_sets {
            return;
        }
        let cards = heap.remset_entries();
        let mut c: usize = 0;
        while c < cards.len()
            invariant
                c <= cards.len(),
                heap.wf(),
                self.remembered_sets,
                cards@ == old(heap)@.remset,
                old(self).conserves(self, old(heap)@, heap@),
                keeps_clean(old(heap)@, heap@),
                (heap@, self.spec_values()) == scan_cards(
                    old(heap)@,
                    old(self).spec_values(),
                    cards@,
                    c as nat,
                    true,
                    old(self).spec_generational(),
                ),
            decreases cards.len() - c,
        {
            let entry = cards[c];
            let relocating = entry.region < heap.num_regions() as u64 && heap.region(
                entry.region as usize,
            ).relocate;
            if relocating {
                let ghost hc = heap@;
                let ghost qc = self.spec_values();
                let n = heap.num_objects();
                let mut i: usize = 0;
                while i < n
                    invariant
                        i <= n,
                        n == hc.objects.len(),
                        n <= heap@.objects.len(),
                        heap.wf(),
                        self.remembered_sets,
                        self.generational == old(self).generational,
                        old(self).conserves(self, old(heap)@, heap@),
                        keeps_clean(old(heap)@, heap@),
                        (heap@, self.spec_values()) == scan_card(
                            hc,
                            qc,
                            entry.card,
                            i as nat,
                            true,
                            old(self).spec_generational(),
                        ),
                    decreases n - i,
                {
                    let o = heap.object(i);
                    if o.start / CARD_BYTES == entry.card && o.forwarding == ForwardingState::NotForwarded {
                        self.scan_object(heap, ObjectReference { addr: o.start });
                    }
                    i = i + 1;
                }
            }
            c = c + 1;
        }
    }

    /// Process every delayed root slot.
    pub fn process_roots(&mut self, heap: &mut Heap)
        requires
            old(heap).wf(),
            old(self).roots_in(old(heap)@),
        ensures
            final(heap).wf(),
            final(self).spec_root_locations().len() == 0,
            old(self).conserves_work(final(self), old(heap)@, final(heap)@),
            (final(heap)@, final(self).spec_values()) == process_roots_result(
                old(heap)@,
                old(self).spec_values(),
                old(self).spec_root_locations(),
                old(self).spec_remembered_sets(),
                old(self).spec_generational(),
            ),
            keeps_clean(old(heap)@, final(heap)@),
            forall|k: int|
                0 <= k < old(self).spec_root_locations().len() ==> #[trigger] clean(
                    final(heap)@,
                    old(self).spec_root_locations()[k] as int,
                ),
    {
        while self.root_locations.len() > 0
            invariant
                heap.wf(),
                self.roots_in(heap@),
                old(self).roots_in(old(heap)@),
                old(self).conserves_work(self, old(heap)@, heap@),
                keeps_clean(old(heap)@, heap@),
                self.spec_root_locations() == old(self).spec_root_locations().subrange(
                    0,
                    self.spec_root_locations().len() as int,
                ),
                self.spec_root_locations().len() <= old(self).spec_root_locations().len(),
                forall|k: int|
                    self.spec_root_locations().len() <= k < old(self).spec_root_locations().len()
                        ==> #[trigger] clean(heap@, old(self).spec_root_locations()[k] as int),
                process_roots_result(
                    heap@,
                    self.spec_values(),
                    self.spec_root_locations(),
                    self.spec_remembered_sets(),
                    self.spec_generational(),
                ) == process_roots_result(
                    old(heap)@,
                    old(self).spec_values(),
                    old(self).spec_root_locations(),
                    old(self).spec_remembered_sets(),
                    old(self).spec_generational(),
                ),
            decreases self.root_locations.len(),
        {
            let ghost r0 = self.spec_root_locations();
            let ghost h1 = heap@;
            proof {
                assert(r0[r0.len() - 1] < h1.words.len());
            }
            let slot = self.root_locations.pop().unwrap();
            proof {
                assert forall|k: int| 0 <= k < self.spec_root_locations().len() implies #[trigger] self.spec_root_locations()[k] < h1.words.len() by {
                    assert(self.spec_root_locations()[k] == r0[k]);
                }
            }
            let ghost hb = heap@;
            self.process_root_edge(heap, slot, true);
            proof {
                let r = old(self).spec_root_locations();
                let n = self.spec_root_locations().len() as int;
                assert(r[n] == slot);
                assert forall|k: int| n <= k < r.len() implies #[trigger] clean(heap@, r[k] as int) by {
                    if k > n {
                        assert(old(self).spec_root_locations()[k] < old(heap)@.words.len());
                        assert(clean(hb, r[k] as int));
                    }
                }
                assert(self.spec_root_locations() =~= r.subrange(0, n));
            }
        }
    }

    /// Trace to a fixpoint: process the delayed roots, then scan queued objects and rescan
    /// remembered sets until neither finds more work. Both queues end empty; every delayed
    /// root, every field of every object queued at the start, and every field of every copy
    /// made meanwhile no longer points into a region selected for relocation.
    pub fn complete_trace(&mut self, heap: &mut Heap)
        requires
            old(heap).wf(),
            old(self).roots_in(old(heap)@),
        ensures
            final(heap).wf(),
            final(self).spec_values().len() == 0,
            final(self).spec_root_locations().len() == 0,
            final(self).spec_remembered_sets() == old(self).spec_remembered_sets(),
            final(self).spec_generational() == old(self).spec_generational(),
            final(self).spec_tls() == old(self).spec_tls(),
            final(heap)@.words.len() >= old(heap)@.words.len(),
            final(heap)@.regions == old(heap)@.regions,
            objects_stable(old(heap)@, final(heap)@),
            keeps_clean(old(heap)@, final(heap)@),
            forall|k: int|
                0 <= k < old(self).spec_root_locations().len() ==> #[trigger] clean(
                    final(heap)@,
                    old(self).spec_root_locations()[k] as int,
                ),
            forall|k: int|
                0 <= k < old(self).spec_values().len() && final(heap)@.has_object(
                    #[trigger] old(self).spec_values()[k].addr,
                ) ==> fields_clean(
                    final(heap)@,
                    final(heap)@.index_of(old(self).spec_values()[k].addr),
                ),
            forall|i: int|
                old(heap)@.objects.len() <= i < final(heap)@.objects.len() ==> #[trigger] fields_clean(
                    final(heap)@,
                    i,
                ),
    {
        let ghost h0 = heap@;
        let ghost v0 = self.spec_values();
        let ghost r0 = self.spec_root_locations();
        self.process_roots(heap);
        proof {
            heap.lemma_model_wf();
            assert forall|k: int| 0 <= k < r0.len() implies #[trigger] r0[k] < h0.words.len() by {
                assert(old(self).spec_root_locations()[k] < old(heap)@.words.len());
            }
            assert forall|k: int| 0 <= k < v0.len() implies #[trigger] covered(heap@, self.spec_values(), v0[k].addr) by {
                assert(v0.contains(v0[k]));
                assert(v0[k] == ObjectReference { addr: v0[k].addr });
            }
        }
        loop
            invariant
                heap.wf(),
                self.spec_root_locations().len() == 0,
                self.spec_remembered_sets() == old(self).spec_remembered_sets(),
                self.spec_generational() == old(self).spec_generational(),
                self.spec_tls() == old(self).spec_tls(),
                heap@.words.len() >= h0.words.len(),
                heap@.regions == h0.regions,
                heap@.copy_base == h0.copy_base,
                h0 == old(heap)@,
                v0 == old(self).spec_values(),
                r0 == old(self).spec_root_locations(),
                forall|k: int| 0 <= k < r0.len() ==> #[trigger] r0[k] < h0.words.len(),
                objects_stable(h0, heap@),
                keeps_clean(h0, heap@),
                forall|k: int| 0 <= k < r0.len() ==> #[trigger] clean(heap@, r0[k] as int),
                forall|k: int|
                    0 <= k < v0.len() ==> #[trigger] covered(heap@, self.spec_values(), v0[k].addr),
                forall|i: int|
                    h0.objects.len() <= i < heap@.objects.len() ==> covered(
                        heap@,
                        self.spec_values(),
                        (#[trigger] heap@.objects[i]).start,
                    ),
            ensures
                self.spec_values().len() == 0,
            decreases heap@.unforwarded().len(), self.spec_values().len(),
        {
            let ghost ha = heap@;
            let ghost pre = self.spec_values();
            proof {
                heap.lemma_model_wf();
            }
            match self.values.pop() {
                Some(object) => {
                    let ghost va = self.spec_values();
                    self.scan_object(heap, object);
                    proof {
                        heap.lemma_model_wf();
                        assert(pre == va.push(object));
                        assert forall|x: ObjectReference| #[trigger] pre.contains(x) implies va.contains(x) || (ha.has_object(x.addr) ==> fields_clean(heap@, ha.index_of(x.addr))) by {
                            let j = choose|j: int| 0 <= j < pre.len() && pre[j] == x;
                            if j < va.len() {
                                assert(va[j] == x);
                            }
                        }
                        lemma_trace_step(h0, ha, heap@, pre, va, self.spec_values(), v0, r0);
                    }
                },
                None => {
                    self.process_remembered_sets(heap);
                    proof {
                        heap.lemma_model_wf();
                        lemma_trace_step(h0, ha, heap@, pre, pre, self.spec_values(), v0, r0);
                    }
                    if self.values.len() == 0 {
                        break;
                    }
                },
            }
        }
        proof {
            heap.lemma_model_wf();
            let hf = heap@;
            assert forall|i: int| h0.objects.len() <= i < hf.objects.len() implies #[trigger] fields_clean(hf, i) by {
                assert(covered(hf, self.spec_values(), hf.objects[i].start));
                lemma_index_of(hf, i);
            }
            assert forall|k: int| 0 <= k < v0.len() && hf.has_object(#[trigger] v0[k].addr) implies fields_clean(hf, hf.index_of(v0[k].addr)) by {
                assert(covered(hf, self.spec_values(), v0[k].addr));
            }
        }
    }

    /// Reset both queues for the next cycle.
    pub fn release(&mut self)
        ensures
            final(self).spec_values().len() == 0,
            final(self).spec_root_locations().len() == 0,
            final(self).spec_remembered_sets() == old(self).spec_remembered_sets(),
            final(self).spec_generational() == old(self).spec_generational(),
            final(self).spec_tls() == old(self).spec_tls(),
    {
        self.root_locations.clear();
        self.values.clear();
    }

    /// Whether `obj` stays where it is in this collection: only the region space moves
    /// objects.
    pub fn will_not_move_in_current_collection(&self, heap: &Heap, obj: ObjectReference) -> (r: bool)
        ensures
            r == !heap@.in_region_space(obj.addr),
    {
        heap.region_of(obj.addr).is_none()
    }

    /// Whether `object` is live in this cycle. It agrees with `trace_object`: a reference
    /// that tracing cuts off is dead, one it keeps or moves is live once traced.
    pub fn is_live(&self, heap: &Heap, object: ObjectReference) -> (r: bool)
        requires
            heap.wf(),
        ensures
            r == spec_is_live(heap@, object.addr, self.spec_remembered_sets()),
    {
        if object.is_null() {
            return false;
        }
        let region = match heap.region_of(object.addr) {
            Some(g) => g,
            None => {
                return true;
            },
        };
        if !region.relocate {
            return true;
        }
        match heap.find_object(object.addr) {
            Some(i) => {
                let o = heap.object(i);
                !(o.forwarding == ForwardingState::NotForwarded) && (!self.remembered_sets
                    || o.marked)
            },
            None => false,
        }
    }
}

impl TransitiveClosure for G1EvacuateTraceLocal {
    closed spec fn spec_queued(&self) -> Seq<ObjectReference> {
        self.values@
    }

    fn process_node(&mut self, object: ObjectReference) {
        self.values.push(object);
    }
}

} // verus!
