use vstd::prelude::*;
use crate::forwarding::{
    attempt_to_forward, is_forwarded, spin_and_get_forwarded_object,
    state_is_forwarded_or_being_forwarded, ForwardingState,
};
use crate::heap::{lemma_unforwarded_finite, Gen, Heap, HeapModel, ObjectReference};
use crate::tracer::TransitiveClosure;

verus! {

/// Bytes covered by one chunk, the unit of mark tables.
pub const BYTES_IN_CHUNK: u64 = 4194304;

/// Bytes in one page.
pub const BYTES_IN_PAGE: u64 = 4096;

/// How a space asks for its virtual memory.
#[derive(Clone, Copy, PartialEq, Eq, Structural, Debug)]
pub enum VMRequest {
    /// Chunks taken from the shared pool as the space grows.
    Discontiguous,
    /// A fixed contiguous range.
    Fixed { start: u64, extent: u64 },
}

impl VMRequest {
    pub fn discontiguous() -> (r: VMRequest)
        ensures
            r == VMRequest::Discontiguous,
    {
        VMRequest::Discontiguous
    }

    pub fn is_discontiguous(&self) -> (r: bool)
        ensures
            r == (*self is Discontiguous),
    {
        match self {
            VMRequest::Discontiguous => true,
            _ => false,
        }
    }
}

pub open spec fn chunk_of(a: u64) -> u64 {
    a / BYTES_IN_CHUNK
}

/// Where a reference to `a` points after a copying space traces it: unchanged unless the
/// space is the from-space, else the object's forwarding address, or the cursor where it
/// is copied now.
pub open spec fn space_trace_result(h: HeapModel, a: u64, from_space: bool) -> u64 {
    if !from_space {
        a
    } else {
        match h.objects[h.index_of(a)].forwarding {
            ForwardingState::Forwarded(t) => t,
            _ => h.cursor,
        }
    }
}

/// Whether tracing `a` in a copying space copies it.
pub open spec fn space_copies(h: HeapModel, a: u64, from_space: bool) -> bool {
    from_space && h.objects[h.index_of(a)].forwarding is NotForwarded
}

/// The heap after a copying space traces `a`.
pub open spec fn space_trace_heap(h: HeapModel, a: u64, from_space: bool, allocator: Gen) -> HeapModel {
    if space_copies(h, a, from_space) {
        h.evacuate(h.index_of(a), allocator)
    } else {
        h
    }
}

/// The heap after `n` tracers trace `a` in a copying space, one after another.
pub open spec fn space_trace_repeatedly(
    h: HeapModel,
    a: u64,
    from_space: bool,
    allocator: Gen,
    n: nat,
) -> HeapModel
    decreases n,
{
    if n == 0 {
        h
    } else {
        space_trace_heap(
            space_trace_repeatedly(h, a, from_space, allocator, (n - 1) as nat),
            a,
            from_space,
            allocator,
        )
    }
}

/// After one trace of `a`, further traces see the same address and copy nothing.
proof fn lemma_space_trace_settles(h: HeapModel, a: u64, from_space: bool, allocator: Gen)
    requires
        h.wf(),
        h.has_object(a),
        a < h.copy_base,
    ensures
        ({
            let h1 = space_trace_heap(h, a, from_space, allocator);
            &&& space_trace_result(h1, a, from_space) == space_trace_result(h, a, from_space)
            &&& !space_copies(h1, a, from_space)
            &&& space_trace_heap(h1, a, from_space, allocator) == h1
        }),
{
    let i = h.index_of(a);
    assert(h.object_at(a, i));
    assert(h.object_wf(h.objects[i]));
    if space_copies(h, a, from_space) {
        let h1 = space_trace_heap(h, a, from_space, allocator);
        assert(h1.object_at(a, i));
        let j = h1.index_of(a);
        assert(h1.object_at(a, j));
        if j < h.objects.len() {
            assert(h.objects[j].start == h.objects[i].start);
        }
        assert(j == i);
    }
}

proof fn lemma_space_repeat_settled(h: HeapModel, a: u64, from_space: bool, allocator: Gen, n: nat)
    requires
        h.wf(),
        h.has_object(a),
        a < h.copy_base,
        n >= 1,
    ensures
        space_trace_repeatedly(h, a, from_space, allocator, n) == space_trace_heap(
            h,
            a,
            from_space,
            allocator,
        ),
    decreases n,
{
    lemma_space_trace_settles(h, a, from_space, allocator);
    assert(space_trace_repeatedly(h, a, from_space, allocator, 0) == h);
    if n > 1 {
        lemma_space_repeat_settled(h, a, from_space, allocator, (n - 1) as nat);
    }
}

/// Any number of tracers that race to trace one object of a copying space, taken in the
/// order their claims land, all get the same address; only the first copies the object
/// (and so queues the copy), and exactly one copy is made when it was not yet forwarded.
pub proof fn lemma_space_forwarding_idempotent(
    h: HeapModel,
    a: u64,
    from_space: bool,
    allocator: Gen,
    n: nat,
)
    requires
        h.wf(),
        h.has_object(a),
        a < h.copy_base,
    ensures
        forall|k: nat|
            k < n ==> space_trace_result(
                #[trigger] space_trace_repeatedly(h, a, from_space, allocator, k),
                a,
                from_space,
            ) == space_trace_result(h, a, from_space),
        forall|k: nat|
            k < n ==> space_copies(
                #[trigger] space_trace_repeatedly(h, a, from_space, allocator, k),
                a,
                from_space,
            ) == (k == 0 && space_copies(h, a, from_space)),
        space_trace_repeatedly(h, a, from_space, allocator, n).objects.len() == h.objects.len()
            + if n > 0 && space_copies(h, a, from_space) {
            1int
        } else {
            0int
        },
{
    lemma_space_trace_settles(h, a, from_space, allocator);
    if n > 0 {
        lemma_space_repeat_settled(h, a, from_space, allocator, n);
    }
    assert forall|k: nat| k < n implies space_trace_result(
        #[trigger] space_trace_repeatedly(h, a, from_space, allocator, k),
        a,
        from_space,
    ) == space_trace_result(h, a, from_space) && space_copies(
        space_trace_repeatedly(h, a, from_space, allocator, k),
        a,
        from_space,
    ) == (k == 0 && space_copies(h, a, from_space)) by {
        if k > 0 {
            lemma_space_repeat_settled(h, a, from_space, allocator, k);
        }
    }
}

proof fn lemma_push_contains(s: Seq<u64>, x: u64, y: u64)
    ensures
        s.push(x).contains(y) <==> (s.contains(y) || y == x),
{
    if s.contains(y) {
        let j = choose|j: int| 0 <= j < s.len() && s[j] == y;
        assert(s.push(x)[j] == y);
    }
    if y == x {
        assert(s.push(x)[s.len() as int] == y);
    }
    if s.push(x).contains(y) {
        let j = choose|j: int| 0 <= j < s.push(x).len() && s.push(x)[j] == y;
        if j < s.len() {
            assert(s[j] == y);
        }
    }
}

fn contains_u64(v: &Vec<u64>, x: u64) -> (r: bool)
    ensures
        r == v@.contains(x),
{
    let mut i: usize = 0;
    while i < v.len()
        invariant
            i <= v.len(),
            forall|j: int| 0 <= j < i ==> v@[j] != x,
        decreases v.len() - i,
    {
        if v[i] == x {
            assert(v@[i as int] == x);
            return true;
        }
        i = i + 1;
    }
    false
}

/// No chunk is listed twice.
pub open spec fn no_duplicates(s: Seq<u64>) -> bool {
    forall|i: int, j: int| 0 <= i < j < s.len() ==> s[i] != s[j]
}

/// Add each chunk of `lo .. hi` that `v` does not list yet, after the ones it lists.
fn add_chunks(v: &mut Vec<u64>, lo: u64, hi: u64)
    requires
        lo <= hi,
    ensures
        forall|c: u64| #[trigger] final(v)@.contains(c) <==> (old(v)@.contains(c) || (lo <= c < hi)),
        no_duplicates(old(v)@) ==> no_duplicates(final(v)@),
        final(v)@.len() >= old(v)@.len(),
        final(v)@.subrange(0, old(v)@.len() as int) == old(v)@,
{
    let ghost v0 = v@;
    let mut c: u64 = lo;
    while c < hi
        invariant
            lo <= c <= hi,
            forall|x: u64| #[trigger] v@.contains(x) <==> (v0.contains(x) || (lo <= x < c)),
            no_duplicates(v0) ==> no_duplicates(v@),
            v@.len() >= v0.len(),
            v@.subrange(0, v0.len() as int) == v0,
        decreases hi - c,
    {
        let ghost m0 = v@;
        if !contains_u64(v, c) {
            v.push(c);
            proof {
                assert forall|x: u64| #[trigger] v@.contains(x) <==> (m0.contains(x) || x == c) by {
                    lemma_push_contains(m0, c, x);
                }
                if no_duplicates(m0) {
                    assert forall|i: int, j: int| 0 <= i < j < v@.len() implies v@[i] != v@[j] by {
                        if j == m0.len() {
                            assert(m0.contains(m0[i]));
                        }
                    }
                }
                assert(v@.subrange(0, v0.len() as int) =~= m0.subrange(0, v0.len() as int));
            }
        }
        c = c + 1;
    }
}

/// A space whose live objects are evacuated to another space while it acts as the
/// from-space of a semispace collection.
pub struct CopySpace {
    name: &'static str,
    zeroed: bool,
    contiguous: bool,
    start: u64,
    extent: u64,
    from_space: bool,
    reserved_pages: u64,
    mark_tables: Vec<u64>,
    marks: Vec<u64>,
    chunks: Vec<u64>,
}

impl CopySpace {
    pub closed spec fn spec_from_space(&self) -> bool {
        self.from_space
    }

    pub closed spec fn spec_reserved_pages(&self) -> u64 {
        self.reserved_pages
    }

    /// The chunks that have a mark table.
    pub closed spec fn spec_mark_tables(&self) -> Seq<u64> {
        self.mark_tables@
    }

    /// The object addresses marked in this cycle.
    pub closed spec fn spec_marks(&self) -> Seq<u64> {
        self.marks@
    }

    /// Every mark lies in a chunk that has a mark table.
    pub open spec fn marks_tabled(&self) -> bool {
        forall|m: u64|
            #[trigger] self.spec_marks().contains(m) ==> self.spec_mark_tables().contains(
                chunk_of(m),
            )
    }

    /// The chunks mapped to this space.
    pub closed spec fn spec_chunks(&self) -> Seq<u64> {
        self.chunks@
    }

    pub closed spec fn spec_contiguous(&self) -> bool {
        self.contiguous
    }

    pub closed spec fn spec_start(&self) -> u64 {
        self.start
    }

    pub closed spec fn spec_extent(&self) -> u64 {
        self.extent
    }

    pub closed spec fn spec_name(&self) -> &'static str {
        self.name
    }

    pub closed spec fn spec_zeroed(&self) -> bool {
        self.zeroed
    }

    /// A space with no pages and no marks. A fixed request gives a contiguous space over
    /// its range; a discontiguous one starts empty.
    pub fn new(name: &'static str, from_space: bool, zeroed: bool, vmrequest: VMRequest) -> (r: Self)
        ensures
            r.spec_name() == name,
            r.spec_from_space() == from_space,
            r.spec_zeroed() == zeroed,
            r.spec_reserved_pages() == 0,
            r.spec_mark_tables().len() == 0,
            r.spec_marks().len() == 0,
            r.spec_chunks().len() == 0,
            r.marks_tabled(),
            r.spec_contiguous() == !(vmrequest is Discontiguous),
            vmrequest matches VMRequest::Fixed { start, extent } ==> r.spec_start() == start
                && r.spec_extent() == extent,
            vmrequest is Discontiguous ==> r.spec_start() == 0 && r.spec_extent() == 0,
    {
        let (contiguous, start, extent) = match vmrequest {
            VMRequest::Discontiguous => (false, 0u64, 0u64),
            VMRequest::Fixed { start, extent } => (true, start, extent),
        };
        CopySpace {
            name,
            zeroed,
            contiguous,
            start,
            extent,
            from_space,
            reserved_pages: 0,
            mark_tables: Vec::new(),
            marks: Vec::new(),
            chunks: Vec::new(),
        }
    }

    pub fn name(&self) -> (r: &'static str)
        ensures
            r == self.spec_name(),
    {
        self.name
    }

    pub fn from_space(&self) -> (r: bool)
        ensures
            r == self.spec_from_space(),
    {
        self.from_space
    }

    pub fn reserved_pages(&self) -> (r: u64)
        ensures
            r == self.spec_reserved_pages(),
    {
        self.reserved_pages
    }

    pub fn is_movable(&self) -> (r: bool)
        ensures
            r,
    {
        true
    }

    /// A space that is not being evacuated holds no stale objects.
    pub fn is_sane(&self) -> (r: bool)
        ensures
            r == !self.spec_from_space(),
    {
        !self.from_space
    }

    /// Start the cycle as the from-space or as the to-space. Marks are kept: they are
    /// cleared once, at the end of the cycle.
    pub fn prepare(&mut self, from_space: bool)
        ensures
            final(self).spec_from_space() == from_space,
            final(self).spec_reserved_pages() == old(self).spec_reserved_pages(),
            final(self).spec_mark_tables() == old(self).spec_mark_tables(),
            final(self).spec_marks() == old(self).spec_marks(),
            final(self).spec_contiguous() == old(self).spec_contiguous(),
            final(self).spec_start() == old(self).spec_start(),
            final(self).spec_extent() == old(self).spec_extent(),
            final(self).spec_name() == old(self).spec_name(),
            final(self).spec_zeroed() == old(self).spec_zeroed(),
    {
        self.from_space = from_space;
    }

    /// End the cycle: all pages are given back, the marks and mark tables are dropped, and
    /// the space stops being the from-space.
    pub fn release(&mut self)
        ensures
            !final(self).spec_from_space(),
            final(self).spec_reserved_pages() == 0,
            final(self).spec_mark_tables().len() == 0,
            final(self).spec_marks().len() == 0,
            final(self).spec_contiguous() == old(self).spec_contiguous(),
            final(self).spec_start() == old(self).spec_start(),
            final(self).spec_extent() == old(self).spec_extent(),
            final(self).spec_name() == old(self).spec_name(),
            final(self).spec_zeroed() == old(self).spec_zeroed(),
    {
        self.sanity_release();
        self.reserved_pages = 0;
        self.from_space = false;
    }

    /// Start of a sanity trace. Marks are cleared at the end of the cycle, not here.
    pub fn sanity_prepare(&self) {
    }

    /// End of a sanity trace: the marks and mark tables are dropped.
    pub fn sanity_release(&mut self)
        ensures
            final(self).spec_mark_tables().len() == 0,
            final(self).spec_marks().len() == 0,
            final(self).spec_from_space() == old(self).spec_from_space(),
            final(self).spec_reserved_pages() == old(self).spec_reserved_pages(),
            final(self).spec_contiguous() == old(self).spec_contiguous(),
            final(self).spec_start() == old(self).spec_start(),
            final(self).spec_extent() == old(self).spec_extent(),
            final(self).spec_name() == old(self).spec_name(),
            final(self).spec_zeroed() == old(self).spec_zeroed(),
    {
        self.mark_tables.clear();
        self.marks.clear();
    }

    /// Whether chunk `c` belongs to this space.
    pub fn owns_chunk(&self, c: u64) -> (r: bool)
        ensures
            r == self.spec_chunks().contains(c),
    {
        contains_u64(&self.chunks, c)
    }

    /// The space received `bytes` more bytes at `start`: count its pages; when the bytes
    /// are new chunks, map the `ceil(bytes / BYTES_IN_CHUNK)` chunks from `start`'s to this
    /// space; and give each chunk that the bytes touch a mark table, keeping the tables
    /// already listed and listing none twice.
    pub fn grow_space(&mut self, start: u64, bytes: u64, new_chunk: bool)
        requires
            bytes > 0,
            start + bytes <= u64::MAX,
            old(self).spec_reserved_pages() + bytes / BYTES_IN_PAGE <= u64::MAX,
        ensures
            final(self).spec_reserved_pages() == old(self).spec_reserved_pages() + bytes
                / BYTES_IN_PAGE,
            forall|c: u64|
                #[trigger] final(self).spec_mark_tables().contains(c) <==> (old(
                    self,
                ).spec_mark_tables().contains(c) || (chunk_of(start) <= c <= chunk_of(
                    (start + bytes - 1) as u64,
                ))),
            no_duplicates(old(self).spec_mark_tables()) ==> no_duplicates(
                final(self).spec_mark_tables(),
            ),
            final(self).spec_mark_tables().subrange(0, old(self).spec_mark_tables().len() as int)
                == old(self).spec_mark_tables(),
            forall|c: u64|
                #[trigger] final(self).spec_chunks().contains(c) <==> (old(self).spec_chunks().contains(c)
                    || (new_chunk && chunk_of(start) <= c < chunk_of(start) + (bytes as int
                    + BYTES_IN_CHUNK - 1) / (BYTES_IN_CHUNK as int))),
            no_duplicates(old(self).spec_chunks()) ==> no_duplicates(final(self).spec_chunks()),
            final(self).spec_marks() == old(self).spec_marks(),
            old(self).marks_tabled() ==> final(self).marks_tabled() && forall|m: u64|
                #[trigger] final(self).spec_marks().contains(m) ==> old(
                    self,
                ).spec_mark_tables().contains(chunk_of(m)),
            final(self).spec_from_space() == old(self).spec_from_space(),
            final(self).spec_contiguous() == old(self).spec_contiguous(),
            final(self).spec_start() == old(self).spec_start(),
            final(self).spec_extent() == old(self).spec_extent(),
            final(self).spec_name() == old(self).spec_name(),
            final(self).spec_zeroed() == old(self).spec_zeroed(),
    {
        self.reserved_pages = self.reserved_pages + bytes / BYTES_IN_PAGE;
        let first = start / BYTES_IN_CHUNK;
        if new_chunk {
            let count = bytes / BYTES_IN_CHUNK + if bytes % BYTES_IN_CHUNK != 0 {
                1
            } else {
                0
            };
            assert(count == (bytes as int + BYTES_IN_CHUNK - 1) / (BYTES_IN_CHUNK as int));
            add_chunks(&mut self.chunks, first, first + count);
        }
        let last = (start + bytes - 1) / BYTES_IN_CHUNK;
        let ghost t0 = self.mark_tables@;
        add_chunks(&mut self.mark_tables, first, last + 1);
        proof {
            if old(self).marks_tabled() {
                assert forall|m: u64| #[trigger] self.spec_marks().contains(m) implies self.spec_mark_tables().contains(chunk_of(m)) by {
                    assert(old(self).spec_marks().contains(m));
                    assert(t0 == old(self).spec_mark_tables());
                    assert(t0.contains(chunk_of(m)));
                }
                assert forall|m: u64| #[trigger] self.spec_marks().contains(m) implies old(self).spec_mark_tables().contains(chunk_of(m)) by {
                    assert(old(self).spec_marks().contains(m));
                }
            }
        }
    }

    /// Whether `object` survives this cycle: always, unless the space is the from-space
    /// and the object was not forwarded out of it.
    pub fn is_live(&self, heap: &Heap, object: ObjectReference) -> (r: bool)
        requires
            heap.wf(),
        ensures
            r == (!self.spec_from_space() || (heap@.has_object(object.addr)
                && heap@.objects[heap@.index_of(object.addr)].forwarding is Forwarded)),
    {
        if !self.from_space {
            return true;
        }
        match heap.find_object(object.addr) {
            Some(i) => is_forwarded(heap.object(i).forwarding),
            None => false,
        }
    }

    /// Mark `object` in its chunk's mark table; the first mark queues it for scanning.
    pub fn trace_mark_object<T: TransitiveClosure>(
        &mut self,
        trace: &mut T,
        object: ObjectReference,
    ) -> (r: ObjectReference)
        requires
            old(self).spec_mark_tables().contains(chunk_of(object.addr)),
        ensures
            r == object,
            final(self).spec_marks() == if old(self).spec_marks().contains(object.addr) {
                old(self).spec_marks()
            } else {
                old(self).spec_marks().push(object.addr)
            },
            final(trace).spec_queued() == if old(self).spec_marks().contains(object.addr) {
                old(trace).spec_queued()
            } else {
                old(trace).spec_queued().push(object)
            },
            final(self).spec_mark_tables() == old(self).spec_mark_tables(),
            final(self).spec_from_space() == old(self).spec_from_space(),
            final(self).spec_reserved_pages() == old(self).spec_reserved_pages(),
            old(self).marks_tabled() ==> final(self).marks_tabled(),
    {
        if !contains_u64(&self.marks, object.addr) {
            let ghost m0 = self.marks@;
            self.marks.push(object.addr);
            proof {
                assert forall|m: u64| #[trigger] self.marks@.contains(m) <==> (m0.contains(m) || m == object.addr) by {
                    lemma_push_contains(m0, object.addr, m);
                }
                if old(self).marks_tabled() {
                    assert forall|m: u64| #[trigger] self.spec_marks().contains(m) implies self.spec_mark_tables().contains(chunk_of(m)) by {
                        if m != object.addr {
                            assert(m0.contains(m));
                            assert(old(self).spec_marks().contains(m));
                        }
                    }
                }
            }
            trace.process_node(object);
        }
        object
    }

    /// Trace `object`, an object of this space. Outside of a from-space it stays. In the
    /// from-space the first tracer to claim it copies it with `allocator` and queues the
    /// copy; every tracer gets the copy's address.
    pub fn trace_object<T: TransitiveClosure>(
        &self,
        trace: &mut T,
        heap: &mut Heap,
        object: ObjectReference,
        allocator: Gen,
    ) -> (r: ObjectReference)
        requires
            old(heap).wf(),
            old(heap)@.has_object(object.addr),
            object.addr < old(heap)@.copy_base,
        ensures
            final(heap).wf(),
            r.addr == space_trace_result(old(heap)@, object.addr, self.spec_from_space()),
            final(heap)@ == space_trace_heap(old(heap)@, object.addr, self.spec_from_space(), allocator),
            final(trace).spec_queued() == if space_copies(
                old(heap)@,
                object.addr,
                self.spec_from_space(),
            ) {
                old(trace).spec_queued().push(r)
            } else {
                old(trace).spec_queued()
            },
    {
        if !self.from_space {
            return object;
        }
        let i = heap.find_object(object.addr).unwrap();
        let (status, _claimed) = attempt_to_forward(heap.object(i).forwarding);
        if state_is_forwarded_or_being_forwarded(status) {
            proof {
                heap.lemma_model_wf();
                assert(heap@.object_wf(heap@.objects[i as int]));
            }
            ObjectReference { addr: spin_and_get_forwarded_object(status) }
        } else {
            proof {
                heap.lemma_model_wf();
                lemma_unforwarded_finite(heap@);
                assert(heap@.unforwarded().contains(i as int));
            }
            let new_object = ObjectReference { addr: heap.forward(i, allocator) };
            trace.process_node(new_object);
            new_object
        }
    }

    /// The range to protect or unprotect, when the space is contiguous.
    pub fn protection_range(&self) -> (r: Option<(u64, u64)>)
        ensures
            r is Some <==> self.spec_contiguous(),
            r matches Some(p) ==> p == (self.spec_start(), self.spec_extent()),
    {
        if self.contiguous {
            Some((self.start, self.extent))
        } else {
            None
        }
    }
}

} // verus!
