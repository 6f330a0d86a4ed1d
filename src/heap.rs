use vstd::prelude::*;
use vstd::set_lib::*;
use crate::forwarding::ForwardingState;

verus! {

/// Bytes covered by one region of the region space.
pub const REGION_BYTES: u64 = 1048576;

/// Bytes covered by one card of a remembered set.
pub const CARD_BYTES: u64 = 512;

/// Largest object size, in bytes.
pub const MAX_OBJECT_BYTES: u64 = 1048576;

/// Largest number of regions of the region space.
pub const MAX_REGIONS: usize = 65536;

/// Addresses handed out by the copy allocator stay below this bound.
pub const ADDRESS_LIMIT: u64 = 0x4000_0000_0000_0000;

/// A reference to a heap object: its start address. Address zero is the null reference.
#[derive(Clone, Copy, PartialEq, Eq, Structural, Debug)]
pub struct ObjectReference {
    pub addr: u64,
}

impl ObjectReference {
    pub open spec fn spec_is_null(&self) -> bool {
        self.addr == 0
    }

    pub fn null() -> (r: ObjectReference)
        ensures
            r.addr == 0,
    {
        ObjectReference { addr: 0 }
    }

    pub fn is_null(&self) -> (r: bool)
        ensures
            r == (self.addr == 0),
    {
        self.addr == 0
    }
}

/// Generation tag of a region, and of the allocator an object was copied with.
#[derive(Clone, Copy, PartialEq, Eq, Structural, Debug)]
pub enum Gen {
    Eden,
    Survivor,
    Old,
}

/// Per-region bookkeeping of the region space.
#[derive(Clone, Copy, PartialEq, Eq, Structural, Debug)]
pub struct Region {
    pub committed: bool,
    pub relocate: bool,
    pub generation: Gen,
}

/// One heap object. Its pointer fields are the words
/// `first_field .. first_field + num_fields` of the heap's word memory.
#[derive(Clone, Copy, PartialEq, Eq, Structural, Debug)]
pub struct HeapObject {
    pub start: u64,
    pub size: u64,
    pub first_field: usize,
    pub num_fields: usize,
    pub forwarding: ForwardingState,
    /// Set when an earlier marking pass proved the object live.
    pub marked: bool,
    pub generation: Gen,
}

/// A dirty card in the remembered set of a region.
#[derive(Clone, Copy, PartialEq, Eq, Structural, Debug)]
pub struct CardEntry {
    pub region: u64,
    pub card: u64,
}

/// What a heap holds, as mathematical values.
pub struct HeapModel {
    pub objects: Seq<HeapObject>,
    pub words: Seq<u64>,
    pub regions: Seq<Region>,
    pub remset: Seq<CardEntry>,
    pub copy_base: u64,
    pub cursor: u64,
}

pub open spec fn region_index(a: u64) -> int {
    (a / REGION_BYTES) as int
}

pub open spec fn card_index(a: u64) -> u64 {
    a / CARD_BYTES
}

pub open spec fn holds_object(objects: Seq<HeapObject>, a: u64) -> bool {
    exists|i: int| 0 <= i < objects.len() && objects[i].start == a
}

/// The index of an object of `objects` that starts at `a`.
pub open spec fn index_in(objects: Seq<HeapObject>, a: u64) -> int {
    choose|i: int| 0 <= i < objects.len() && objects[i].start == a
}

impl HeapModel {
    pub open spec fn in_region_space(self, a: u64) -> bool {
        region_index(a) < self.regions.len()
    }

    pub open spec fn relocating(self, a: u64) -> bool {
        a != 0 && self.in_region_space(a) && self.regions[region_index(a)].relocate
    }

    pub open spec fn object_at(self, a: u64, i: int) -> bool {
        0 <= i < self.objects.len() && self.objects[i].start == a
    }

    pub open spec fn has_object(self, a: u64) -> bool {
        holds_object(self.objects, a)
    }

    pub open spec fn index_of(self, a: u64) -> int {
        index_in(self.objects, a)
    }

    /// Objects that were allocated by the program (below the copy reserve) and not yet
    /// evacuated in this cycle.
    pub open spec fn unforwarded(self) -> Set<int> {
        Set::new(
            |i: int|
                0 <= i < self.objects.len() && self.objects[i].start < self.copy_base
                    && self.objects[i].forwarding is NotForwarded,
        )
    }

    pub open spec fn object_wf(self, o: HeapObject) -> bool {
        &&& 1 <= o.size <= MAX_OBJECT_BYTES
        &&& o.first_field + o.num_fields <= self.words.len()
        &&& o.start < self.cursor
        &&& !(o.forwarding is BeingForwarded)
        &&& (o.forwarding matches ForwardingState::Forwarded(t) ==> self.copy_base <= t
            < self.cursor)
    }

    pub open spec fn wf(self) -> bool {
        &&& self.regions.len() <= MAX_REGIONS
        &&& self.regions.len() * REGION_BYTES <= self.copy_base
        &&& self.copy_base <= self.cursor
        &&& forall|i: int| 0 <= i < self.objects.len() ==> self.object_wf(#[trigger] self.objects[i])
        &&& forall|i: int, j: int|
            0 <= i < self.objects.len() && 0 <= j < self.objects.len() && #[trigger] self.objects[i].start
                == #[trigger] self.objects[j].start ==> i == j
        &&& self.cursor + self.unforwarded().len() * MAX_OBJECT_BYTES <= ADDRESS_LIMIT
    }

    /// The heap after `i` is copied to the bump cursor: the object is forwarded to the
    /// copy, which gets a fresh copy of its fields.
    pub open spec fn evacuate(self, i: int, generation: Gen) -> HeapModel {
        let o = self.objects[i];
        let copy = HeapObject {
            start: self.cursor,
            size: o.size,
            first_field: self.words.len() as usize,
            num_fields: o.num_fields,
            forwarding: ForwardingState::NotForwarded,
            marked: o.marked,
            generation,
        };
        HeapModel {
            objects: self.objects.update(
                i,
                HeapObject { forwarding: ForwardingState::Forwarded(self.cursor), ..o },
            ).push(copy),
            words: self.words + self.words.subrange(
                o.first_field as int,
                o.first_field + o.num_fields,
            ),
            cursor: (self.cursor + o.size) as u64,
            ..self
        }
    }
}

/// The unforwarded set depends on the objects and the copy reserve alone.
pub proof fn lemma_unforwarded_same(h1: HeapModel, h2: HeapModel)
    requires
        h1.objects == h2.objects,
        h1.copy_base == h2.copy_base,
    ensures
        h1.unforwarded() == h2.unforwarded(),
{
    assert(h1.unforwarded() =~= h2.unforwarded());
}

pub proof fn lemma_unforwarded_finite(h: HeapModel)
    ensures
        h.unforwarded().finite(),
        h.unforwarded().len() <= h.objects.len(),
{
    lemma_int_range(0, h.objects.len() as int);
    lemma_len_subset(h.unforwarded(), set_int_range(0, h.objects.len() as int));
}

/// Evacuating an unforwarded object removes it, and only it, from the unforwarded set.
pub proof fn lemma_evacuate_unforwarded(h: HeapModel, i: int, generation: Gen)
    requires
        h.wf(),
        h.unforwarded().contains(i),
    ensures
        h.evacuate(i, generation).unforwarded() == h.unforwarded().remove(i),
        h.evacuate(i, generation).unforwarded().len() + 1 == h.unforwarded().len(),
{
    lemma_unforwarded_finite(h);
    let h2 = h.evacuate(i, generation);
    assert(h2.unforwarded() =~= h.unforwarded().remove(i));
}

/// A heap: objects, the word memory that holds their fields and the roots, the regions
/// of the region space with their remembered sets, and the copy allocator's bump cursor.
pub struct Heap {
    objects: Vec<HeapObject>,
    words: Vec<u64>,
    regions: Vec<Region>,
    remset: Vec<CardEntry>,
    copy_base: u64,
    cursor: u64,
    pending: u64,
}

impl View for Heap {
    type V = HeapModel;

    closed spec fn view(&self) -> HeapModel {
        HeapModel {
            objects: self.objects@,
            words: self.words@,
            regions: self.regions@,
            remset: self.remset@,
            copy_base: self.copy_base,
            cursor: self.cursor,
        }
    }
}

impl Heap {
    pub closed spec fn wf(&self) -> bool {
        &&& self@.wf()
        &&& self.pending == self@.unforwarded().len()
    }

    /// A heap with `num_regions` committed, non-relocating old regions, no objects, and a
    /// copy reserve that starts at `copy_base`. `None` when the regions do not fit below
    /// the copy reserve or the reserve does not fit in the address range.
    pub fn new(num_regions: usize, copy_base: u64) -> (r: Option<Heap>)
        ensures
            r is Some <==> (num_regions <= MAX_REGIONS && num_regions * REGION_BYTES <= copy_base
                && copy_base <= ADDRESS_LIMIT),
            r matches Some(h) ==> h.wf() && h@.objects.len() == 0 && h@.words.len() == 0
                && h@.remset.len() == 0 && h@.copy_base == copy_base && h@.cursor == copy_base
                && h@.regions == Seq::new(
                num_regions as nat,
                |k: int| Region { committed: true, relocate: false, generation: Gen::Old },
            ),
    {
        if num_regions > MAX_REGIONS || copy_base > ADDRESS_LIMIT {
            return None;
        }
        if (num_regions as u64) * REGION_BYTES > copy_base {
            return None;
        }
        let mut regions: Vec<Region> = Vec::new();
        let mut k: usize = 0;
        while k < num_regions
            invariant
                k <= num_regions,
                regions@ == Seq::new(
                    k as nat,
                    |j: int| Region { committed: true, relocate: false, generation: Gen::Old },
                ),
            decreases num_regions - k,
        {
            regions.push(Region { committed: true, relocate: false, generation: Gen::Old });
            k = k + 1;
            assert(regions@ =~= Seq::new(
                k as nat,
                |j: int| Region { committed: true, relocate: false, generation: Gen::Old },
            ));
        }
        let h = Heap {
            objects: Vec::new(),
            words: Vec::new(),
            regions,
            remset: Vec::new(),
            copy_base,
            cursor: copy_base,
            pending: 0,
        };
        assert(h@.unforwarded() =~= Set::<int>::empty());
        Some(h)
    }

    /// A well-formed heap has a well-formed model.
    pub proof fn lemma_model_wf(&self)
        requires
            self.wf(),
        ensures
            self@.wf(),
    {
    }

    /// A copy of the remembered set.
    pub fn remset_entries(&self) -> (r: Vec<CardEntry>)
        ensures
            r@ == self@.remset,
    {
        self.remset.clone()
    }

    pub fn num_objects(&self) -> (r: usize)
        ensures
            r == self@.objects.len(),
    {
        self.objects.len()
    }

    pub fn num_words(&self) -> (r: usize)
        ensures
            r == self@.words.len(),
    {
        self.words.len()
    }

    pub fn num_regions(&self) -> (r: usize)
        ensures
            r == self@.regions.len(),
    {
        self.regions.len()
    }

    pub fn cursor(&self) -> (r: u64)
        ensures
            r == self@.cursor,
    {
        self.cursor
    }

    pub fn copy_base(&self) -> (r: u64)
        ensures
            r == self@.copy_base,
    {
        self.copy_base
    }

    /// Number of program-allocated objects not yet evacuated in this cycle.
    pub fn num_unforwarded(&self) -> (r: u64)
        requires
            self.wf(),
        ensures
            r == self@.unforwarded().len(),
    {
        self.pending
    }

    pub fn object(&self, i: usize) -> (r: HeapObject)
        requires
            i < self@.objects.len(),
        ensures
            r == self@.objects[i as int],
    {
        self.objects[i]
    }

    /// The word at address `slot` of the word memory.
    pub fn load(&self, slot: usize) -> (r: u64)
        requires
            slot < self@.words.len(),
        ensures
            r == self@.words[slot as int],
    {
        self.words[slot]
    }

    /// Overwrite the word at address `slot`.
    pub fn store(&mut self, slot: usize, value: u64)
        requires
            old(self).wf(),
            slot < old(self)@.words.len(),
        ensures
            final(self).wf(),
            final(self)@ == (HeapModel { words: old(self)@.words.update(slot as int, value), ..old(self)@ }),
    {
        self.words.set(slot, value);
        assert(self@.unforwarded() =~= old(self)@.unforwarded());
    }

    /// Add a root slot holding `value`; returns its address in the word memory.
    pub fn add_root(&mut self, value: u64) -> (r: usize)
        requires
            old(self).wf(),
        ensures
            final(self).wf(),
            r == old(self)@.words.len(),
            final(self)@ == (HeapModel { words: old(self)@.words.push(value), ..old(self)@ }),
    {
        let r = self.words.len();
        self.words.push(value);
        assert(self@.unforwarded() =~= old(self)@.unforwarded());
        r
    }

    /// The region that holds address `a`, if `a` lies in the region space.
    pub fn region_of(&self, a: u64) -> (r: Option<Region>)
        ensures
            r is Some <==> self@.in_region_space(a),
            r matches Some(g) ==> g == self@.regions[region_index(a)],
    {
        let k = a / REGION_BYTES;
        if k < self.regions.len() as u64 {
            Some(self.regions[k as usize])
        } else {
            None
        }
    }

    pub fn region(&self, k: usize) -> (r: Region)
        requires
            k < self@.regions.len(),
        ensures
            r == self@.regions[k as int],
    {
        self.regions[k]
    }

    /// Replace the bookkeeping of region `k` (region selection at collection start).
    pub fn set_region(&mut self, k: usize, region: Region)
        requires
            old(self).wf(),
            k < old(self)@.regions.len(),
        ensures
            final(self).wf(),
            final(self)@ == (HeapModel { regions: old(self)@.regions.update(k as int, region), ..old(self)@ }),
    {
        self.regions.set(k, region);
        assert(self@.unforwarded() =~= old(self)@.unforwarded());
    }

    /// The index of the object that starts at `a`, if there is one.
    pub fn find_object(&self, a: u64) -> (r: Option<usize>)
        requires
            self.wf(),
        ensures
            r is None <==> !self@.has_object(a),
            r matches Some(i) ==> self@.object_at(a, i as int) && i == self@.index_of(a),
    {
        let mut i: usize = 0;
        while i < self.objects.len()
            invariant
                i <= self.objects.len(),
                self.wf(),
                forall|j: int| 0 <= j < i ==> self.objects@[j].start != a,
            decreases self.objects.len() - i,
        {
            if self.objects[i].start == a {
                proof {
                    assert(self@.object_at(a, i as int));
                    let k = self@.index_of(a);
                    assert(self@.object_at(a, k));
                    assert(self@.objects[k].start == self@.objects[i as int].start);
                    assert(k == i as int);
                }
                return Some(i);
            }
            i = i + 1;
        }
        None
    }

    /// Add an object allocated by the program at `start`, whose fields hold `fields`.
    /// Fails, changing nothing, when `start` is not below the copy reserve, is taken, the
    /// size is out of range, or the copy reserve could not take one
    /// more evacuation.
    pub fn add_object(
        &mut self,
        start: u64,
        size: u64,
        fields: &Vec<u64>,
        marked: bool,
        generation: Gen,
    ) -> (r: bool)
        requires
            old(self).wf(),
        ensures
            final(self).wf(),
            r <==> (start < old(self)@.copy_base && !old(self)@.has_object(start) && 1 <= size
                <= MAX_OBJECT_BYTES && old(self)@.cursor + (
            old(self)@.unforwarded().len() + 1) * MAX_OBJECT_BYTES <= ADDRESS_LIMIT),
            r ==> final(self)@ == (HeapModel {
                objects: old(self)@.objects.push(
                    HeapObject {
                        start,
                        size,
                        first_field: old(self)@.words.len() as usize,
                        num_fields: fields@.len() as usize,
                        forwarding: ForwardingState::NotForwarded,
                        marked,
                        generation,
                    },
                ),
                words: old(self)@.words + fields@,
                ..old(self)@
            }),
            !r ==> final(self)@ == old(self)@,
    {
        if start >= self.copy_base || size < 1 || size > MAX_OBJECT_BYTES {
            return false;
        }
        if self.find_object(start).is_some() {
            return false;
        }
        proof {
            assert(self.pending * MAX_OBJECT_BYTES <= ADDRESS_LIMIT);
        }
        if self.pending >= (ADDRESS_LIMIT - self.cursor) / MAX_OBJECT_BYTES {
            proof {
                let p = self.pending as int;
                let q = (ADDRESS_LIMIT - self.cursor) as int;
                assert(q / (MAX_OBJECT_BYTES as int) * (MAX_OBJECT_BYTES as int) <= q) by (nonlinear_arith)
                    requires q >= 0;
                assert(p >= q / 1048576);
                assert((p + 1) * 1048576 > q) by (nonlinear_arith)
                    requires p >= q / 1048576, q >= 0;
            }
            return false;
        }
        proof {
            let p = self.pending as int;
            let q = (ADDRESS_LIMIT - self.cursor) as int;
            assert(p + 1 <= q / 1048576);
            assert((p + 1) * 1048576 <= q) by (nonlinear_arith)
                requires p + 1 <= q / 1048576, q >= 0;
        }
        let ghost old_words = self.words@;
        let first = self.words.len();
        let mut j: usize = 0;
        while j < fields.len()
            invariant
                j <= fields.len(),
                self.objects == old(self).objects,
                self.regions == old(self).regions,
                self.remset == old(self).remset,
                self.copy_base == old(self).copy_base,
                self.cursor == old(self).cursor,
                self.pending == old(self).pending,
                self.words@ == old_words + fields@.subrange(0, j as int),
            decreases fields.len() - j,
        {
            self.words.push(fields[j]);
            j = j + 1;
            assert(self.words@ =~= old_words + fields@.subrange(0, j as int));
        }
        assert(fields@.subrange(0, fields.len() as int) =~= fields@);
        let o = HeapObject {
            start,
            size,
            first_field: first,
            num_fields: fields.len(),
            forwarding: ForwardingState::NotForwarded,
            marked,
            generation,
        };
        let ghost h0 = old(self)@;
        self.objects.push(o);
        self.pending = self.pending + 1;
        proof {
            lemma_unforwarded_finite(h0);
            let n = h0.objects.len() as int;
            assert(!h0.unforwarded().contains(n));
            assert(self@.unforwarded() =~= h0.unforwarded().insert(n));
            assert forall|i: int| 0 <= i < self@.objects.len() implies self@.object_wf(
                #[trigger] self@.objects[i]) by {
                if i < n {
                    assert(h0.object_wf(h0.objects[i]));
                }
            }
            assert forall|i: int, k: int|
                0 <= i < self@.objects.len() && 0 <= k < self@.objects.len()
                    && #[trigger] self@.objects[i].start == #[trigger] self@.objects[k].start
                    implies i == k by {
                if i < n && k == n {
                    assert(h0.object_at(start, i));
                } else if k < n && i == n {
                    assert(h0.object_at(start, k));
                }
            }
        }
        true
    }

    /// Copy object `i` to the bump cursor and forward it there; returns the copy's address.
    pub fn forward(&mut self, i: usize, generation: Gen) -> (r: u64)
        requires
            old(self).wf(),
            old(self)@.unforwarded().contains(i as int),
        ensures
            final(self).wf(),
            r == old(self)@.cursor,
            final(self)@ == old(self)@.evacuate(i as int, generation),
    {
        let ghost h0 = self@;
        let o = self.objects[i];
        assert(h0.object_wf(o));
        proof {
            lemma_unforwarded_finite(h0);
            assert(h0.unforwarded().len() >= 1) by {
                if h0.unforwarded().len() == 0 {
                    assert(h0.unforwarded() =~= Set::<int>::empty());
                }
            }
        }
        let first = self.words.len();
        let mut j: usize = 0;
        while j < o.num_fields
            invariant
                j <= o.num_fields,
                o.first_field + o.num_fields <= h0.words.len(),
                h0.words.len() == first,
                self.objects == old(self).objects,
                self.regions == old(self).regions,
                self.remset == old(self).remset,
                self.copy_base == old(self).copy_base,
                self.cursor == old(self).cursor,
                self.pending == old(self).pending,
                self.words@ == h0.words + h0.words.subrange(
                    o.first_field as int,
                    o.first_field + j,
                ),
            decreases o.num_fields - j,
        {
            let v = self.words[o.first_field + j];
            self.words.push(v);
            j = j + 1;
            assert(self.words@ =~= h0.words + h0.words.subrange(
                o.first_field as int,
                o.first_field + j,
            ));
        }
        let new_addr = self.cursor;
        self.objects.set(i, HeapObject { forwarding: ForwardingState::Forwarded(new_addr), ..o });
        self.objects.push(
            HeapObject {
                start: new_addr,
                size: o.size,
                first_field: first,
                num_fields: o.num_fields,
                forwarding: ForwardingState::NotForwarded,
                marked: o.marked,
                generation,
            },
        );
        self.cursor = self.cursor + o.size;
        self.pending = self.pending - 1;
        proof {
            let h1 = h0.evacuate(i as int, generation);
            assert(self@.objects =~= h1.objects);
            assert(self@ == h1);
            lemma_evacuate_unforwarded(h0, i as int, generation);
            let n = h0.objects.len() as int;
            assert forall|k: int| 0 <= k < h1.objects.len() implies h1.object_wf(
                #[trigger] h1.objects[k]) by {
                if k < n {
                    assert(h0.object_wf(h0.objects[k]));
                }
            }
            assert forall|a: int, b: int|
                0 <= a < h1.objects.len() && 0 <= b < h1.objects.len()
                    && #[trigger] h1.objects[a].start == #[trigger] h1.objects[b].start
                    implies a == b by {
                if a < n {
                    assert(h0.object_wf(h0.objects[a]));
                }
                if b < n {
                    assert(h0.object_wf(h0.objects[b]));
                }
            }
        }
        new_addr
    }

    /// Whether `card` is in the remembered set of `region`.
    pub fn has_card(&self, region: u64, card: u64) -> (r: bool)
        ensures
            r == self@.remset.contains(CardEntry { region, card }),
    {
        let mut i: usize = 0;
        while i < self.remset.len()
            invariant
                i <= self.remset.len(),
                forall|j: int| 0 <= j < i ==> self.remset@[j] != (CardEntry { region, card }),
            decreases self.remset.len() - i,
        {
            if self.remset[i].region == region && self.remset[i].card == card {
                assert(self.remset@[i as int] == CardEntry { region, card });
                return true;
            }
            i = i + 1;
        }
        false
    }

    /// Record `card` in the remembered set of `region`. The remembered set is a set: a
    /// card already there is not added again.
    pub fn add_card(&mut self, region: u64, card: u64)
        requires
            old(self).wf(),
        ensures
            final(self).wf(),
            final(self)@ == (HeapModel {
                remset: if old(self)@.remset.contains(CardEntry { region, card }) {
                    old(self)@.remset
                } else {
                    old(self)@.remset.push(CardEntry { region, card })
                },
                ..old(self)@
            }),
    {
        if !self.has_card(region, card) {
            self.remset.push(CardEntry { region, card });
        }
        assert(self@.unforwarded() =~= old(self)@.unforwarded());
    }

    /// Reclaim the regions selected for relocation: each is decommitted and deselected,
    /// and its remembered set is dropped.
    pub fn release_collection_set(&mut self)
        requires
            old(self).wf(),
        ensures
            final(self).wf(),
            final(self)@.objects == old(self)@.objects,
            final(self)@.words == old(self)@.words,
            final(self)@.copy_base == old(self)@.copy_base,
            final(self)@.cursor == old(self)@.cursor,
            final(self)@.regions.len() == old(self)@.regions.len(),
            forall|k: int|
                0 <= k < old(self)@.regions.len() ==> #[trigger] final(self)@.regions[k] == if old(
                    self,
                )@.regions[k].relocate {
                    Region {
                        committed: false,
                        relocate: false,
                        generation: old(self)@.regions[k].generation,
                    }
                } else {
                    old(self)@.regions[k]
                },
            forall|e: CardEntry|
                #[trigger] final(self)@.remset.contains(e) <==> (old(self)@.remset.contains(e)
                    && !releases_card(old(self)@, e)),
    {
        let ghost h0 = self@;
        let mut kept: Vec<CardEntry> = Vec::new();
        let mut i: usize = 0;
        while i < self.remset.len()
            invariant
                i <= self.remset.len(),
                self.remset@ == h0.remset,
                self.regions@ == h0.regions,
                forall|e: CardEntry|
                    #[trigger] kept@.contains(e) <==> (exists|j: int|
                        0 <= j < i && h0.remset[j] == e) && !releases_card(h0, e),
            decreases self.remset.len() - i,
        {
            let e = self.remset[i];
            let gone = e.region < self.regions.len() as u64 && self.regions[e.region as usize].relocate;
            let ghost k0 = kept@;
            if !gone {
                kept.push(e);
            }
            i = i + 1;
            assert forall|x: CardEntry| #[trigger] kept@.contains(x) <==> (exists|j: int|
                0 <= j < i && h0.remset[j] == x) && !releases_card(h0, x) by {
                let before = exists|j: int| 0 <= j < i - 1 && h0.remset[j] == x;
                assert(k0.contains(x) <==> before && !releases_card(h0, x));
                assert((exists|j: int| 0 <= j < i && h0.remset[j] == x) <==> (before || x == e)) by {
                    if exists|j: int| 0 <= j < i && h0.remset[j] == x {
                        let j = choose|j: int| 0 <= j < i && h0.remset[j] == x;
                        if j < i - 1 {
                            assert(before);
                        }
                    }
                    if x == e {
                        assert(h0.remset[i - 1] == x);
                    }
                    if before {
                        let j = choose|j: int| 0 <= j < i - 1 && h0.remset[j] == x;
                        assert(0 <= j < i && h0.remset[j] == x);
                    }
                }
                if !gone {
                    assert(kept@ == k0.push(e));
                    if k0.contains(x) {
                        let j = choose|j: int| 0 <= j < k0.len() && k0[j] == x;
                        assert(kept@[j] == x);
                    }
                    if x == e {
                        assert(kept@[k0.len() as int] == x);
                    }
                    if kept@.contains(x) {
                        let j = choose|j: int| 0 <= j < kept@.len() && kept@[j] == x;
                        if j < k0.len() {
                            assert(k0[j] == x);
                        }
                    }
                }
            }
        }
        self.remset = kept;
        assert forall|x: CardEntry| #[trigger] self@.remset.contains(x) <==> (h0.remset.contains(x)
            && !releases_card(h0, x)) by {
            if h0.remset.contains(x) {
                let j = choose|j: int| 0 <= j < h0.remset.len() && h0.remset[j] == x;
                assert(0 <= j < i && h0.remset[j] == x);
            }
        }
        let ghost r1 = self.remset@;
        let mut k: usize = 0;
        while k < self.regions.len()
            invariant
                k <= self.regions.len(),
                self.regions.len() == h0.regions.len(),
                self.objects == old(self).objects,
                self.words == old(self).words,
                self.remset@ == r1,
                self.copy_base == old(self).copy_base,
                self.cursor == old(self).cursor,
                self.pending == old(self).pending,
                forall|j: int|
                    0 <= j < h0.regions.len() ==> #[trigger] self.regions@[j] == if j < k
                        && h0.regions[j].relocate {
                        Region {
                            committed: false,
                            relocate: false,
                            generation: h0.regions[j].generation,
                        }
                    } else {
                        h0.regions[j]
                    },
            decreases self.regions.len() - k,
        {
            let g = self.regions[k];
            if g.relocate {
                self.regions.set(
                    k,
                    Region { committed: false, relocate: false, generation: g.generation },
                );
            }
            k = k + 1;
        }
        assert(self@.unforwarded() =~= old(self)@.unforwarded());
    }
}

/// Whether releasing the collection set drops the dirty card `e`: its region was selected
/// for relocation.
pub open spec fn releases_card(h: HeapModel, e: CardEntry) -> bool {
    e.region < h.regions.len() && h.regions[e.region as int].relocate
}

} // verus!
