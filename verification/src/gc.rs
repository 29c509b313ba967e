//! The collector: allocation, cycle control, forwarding, scanning, barriers.
//!
//! State and protocol follow the classic incremental semi-space design:
//!
//! * Idle: `from_space` is null, `next` is the bump pointer and `limit` the
//!   end of the free area.
//! * During a cycle: `[to_space.start, next)` holds copied objects, of which
//!   `[scan, next)` are not yet scanned; `[next, limit)` is free; `[limit,
//!   to_space.end)` holds objects allocated during the cycle, growing
//!   downward.
//!
//! All pointers are byte addresses into the modelled spaces. The mutator's
//! side of the safety contract - that every word which reads as a pointer
//! into a managed space is the address of a well-formed object - appears as
//! explicit preconditions and invariant clauses instead of `unsafe` blocks.

use crate::layout::{
    ALIGNMENT, align_up, field_count_of, obj_bytes_of, spec_align_down, spec_align_up,
    spec_field_count, spec_obj_bytes,
};
use crate::space::{
    Space, lemma_region_agree, lemma_region_concat, lemma_region_next_member, lemma_region_one,
    lemma_region_store, lemma_region_suffix, lemma_word_index, lemma_word_lookup, obj_bytes_at,
    region_member, region_objs,
};
use vstd::prelude::*;

verus! {

/// Base address of the semi-space allocated at startup.
pub const SPACE_A_START: usize = 0x1000_0000;

/// Base address of the second semi-space, allocated when the first cycle
/// begins.
pub const SPACE_B_START: usize = 0x2000_0000;

/// Largest size, in bytes, a semi-space may be given; keeps the two spaces
/// apart and all address arithmetic overflow-free.
pub const SPACE_BYTES_MAX: usize = 0x400_0000;

/// A pointer to a heap object: a byte address in the modelled heap, with 0
/// playing the role of the null pointer.
#[derive(Debug, Clone, Copy, PartialEq, Eq, Structural)]
pub struct ObjPtr(pub usize);

/// Fatal collector conditions. The heap cannot recover from any of them; the
/// host is expected to terminate.
#[derive(Debug, Clone, Copy, PartialEq, Eq, Structural)]
pub enum GcError {
    /// Allocation could not be satisfied while a cycle was in progress.
    OutOfMemory,
    /// The root stack was popped while empty.
    RootUnderflow,
    /// The popped root was not the one the caller named.
    RootMismatch,
}

/// An enumeration of memory regions addresses may belong to.
#[derive(Debug, Clone, Copy, PartialEq, Eq, Structural)]
pub enum SpaceClass {
    /// The from-space, at the given byte offset from its start.
    From { offset: usize },
    /// The to-space, at the given byte offset from its start.
    To { offset: usize },
    /// Memory not managed by the collector.
    Unmanaged,
}

/// Garbage collection statistics.
#[derive(Debug, Clone, Copy, PartialEq, Eq, Structural)]
pub struct Stats {
    /// The number of field reads.
    pub reads: usize,
    /// The number of field writes.
    pub writes: usize,
    /// The number of field reads that triggered a read barrier.
    pub read_barriers: usize,
    /// The amount of memory allocated since the start of the program.
    pub all_time_allocated: usize,
    /// The number of allocated objects since the start of the program.
    pub all_time_allocated_objs: usize,
    /// The maximum amount of used memory managed by the collector.
    pub max_used: usize,
    /// The number of times garbage collection took place, counting a cycle
    /// still in progress.
    pub gc_cycles: usize,
}

impl Default for Stats {
    /// All counters start at zero.
    fn default() -> (s: Self)
        ensures
            s == (Stats {
                reads: 0,
                writes: 0,
                read_barriers: 0,
                all_time_allocated: 0,
                all_time_allocated_objs: 0,
                max_used: 0,
                gc_cycles: 0,
            }),
    {
        Stats {
            reads: 0,
            writes: 0,
            read_barriers: 0,
            all_time_allocated: 0,
            all_time_allocated_objs: 0,
            max_used: 0,
            gc_cycles: 0,
        }
    }
}

/// Pointwise order on statistics: every counter of `a` is at or below the
/// corresponding counter of `b`. Every collector operation takes the
/// statistics up this order.
pub open spec fn stats_le(a: Stats, b: Stats) -> bool {
    &&& a.reads <= b.reads
    &&& a.writes <= b.writes
    &&& a.read_barriers <= b.read_barriers
    &&& a.all_time_allocated <= b.all_time_allocated
    &&& a.all_time_allocated_objs <= b.all_time_allocated_objs
    &&& a.max_used <= b.max_used
    &&& a.gc_cycles <= b.gc_cycles
}

/// `b` differs from `a` at most in its statistics.
pub open spec fn same_heap(a: Gc, b: Gc) -> bool {
    &&& b.from_space == a.from_space
    &&& b.to_space == a.to_space
    &&& b.roots == a.roots
    &&& b.gc_in_progress == a.gc_in_progress
    &&& b.scan == a.scan
    &&& b.next == a.next
    &&& b.limit == a.limit
    &&& b.tag_mask == a.tag_mask
    &&& b.fc_mask == a.fc_mask
}

/// Bookkeeping of the copying walk's traversal order, relative to the walk's
/// entry state `pre` with start object `start_ptr` (of `fc0` fields) and
/// pick `pick0` (the last not-yet-forwarded from-space child at entry, 0 for
/// none): either the first step just finished and the walk is headed for the
/// pick, or the pick's copy already sits in the chain slot right after the
/// first copy, or there was no pick and the walk copied exactly one object.
#[verifier::opaque]
pub open spec fn chase_stage(pre: Gc, cur: Gc, start_ptr: usize, fc0: int, pick0: usize, p: usize) -> bool {
    ||| (p == pick0 && cur.next == pre.next + 8 + 8 * fc0 && cur.from_space.word_at(
        start_ptr as int + 8,
    ) == pre.next && (forall|b: int|
        b % 8 == 0 && pre.in_from(b) && b != start_ptr as int + 8
            ==> #[trigger] cur.from_space.word_at(b) == pre.from_space.word_at(b)))
    ||| (cur.next >= pre.next + 16 + 8 * fc0 && cur.to_space.word_at(pre.next + 8 + 8 * fc0) == (
    if pick0 as int == start_ptr as int + 8 {
        pre.next
    } else {
        pre.from_space.word_at(pick0 as int)
    }))
}

/// A copying, incremental, semi-space garbage collector.
pub struct Gc {
    /// The from-space; the null space whenever no cycle is underway.
    pub from_space: Space,
    /// The to-space.
    pub to_space: Space,
    /// The root stack: pointer values the mutator declared live, forwarded in
    /// place when a cycle begins.
    pub roots: Vec<usize>,
    /// Whether a garbage collection cycle is currently underway.
    pub gc_in_progress: bool,
    /// The end of the scanned area in the to-space.
    pub scan: usize,
    /// During a cycle, the end of the copied area to scan; otherwise, the
    /// place to allocate the next object at.
    pub next: usize,
    /// During a cycle, the place before which the next object is allocated;
    /// otherwise, the end of the free area.
    pub limit: usize,
    /// Garbage collection statistics.
    pub stats: Stats,
    /// The host's mask selecting the tag bits of a header.
    pub tag_mask: usize,
    /// The host's mask selecting the field-count bits of a header.
    pub fc_mask: usize,
}

impl Gc {
    /// Largest field count a header can encode under this collector's mask.
    pub open spec fn fc_cap(self) -> usize {
        self.fc_mask >> 4
    }

    /// Size, in bytes, of the largest object a header can describe.
    pub open spec fn max_obj_bytes(self) -> int {
        8 + 8 * (self.fc_cap() as int)
    }

    /// `a` lies in the from-space.
    pub open spec fn in_from(self, a: int) -> bool {
        self.from_space.spec_contains(a)
    }

    /// `a` lies in the to-space.
    pub open spec fn in_to(self, a: int) -> bool {
        self.to_space.spec_contains(a)
    }

    /// `a` can be treated as an object address in space `s`: aligned, and
    /// with room for a header and the largest possible field count, so that
    /// decoding any header found there stays in bounds.
    pub open spec fn obj_ok_in(self, s: Space, a: int) -> bool {
        &&& s.start > 0
        &&& a % 8 == 0
        &&& s.start <= a
        &&& a + self.max_obj_bytes() <= s.spec_end()
    }

    /// `a` is a usable object address in the from-space.
    pub open spec fn from_obj_ok(self, a: int) -> bool {
        self.obj_ok_in(self.from_space, a)
    }

    /// The word value `w`, read as a pointer, respects the from-space: if it
    /// points there at all, it is a usable object address.
    pub open spec fn from_ptr_ok(self, w: int) -> bool {
        self.in_from(w) ==> self.from_obj_ok(w)
    }

    /// Every word of space `s` respects the from-space.
    pub open spec fn words_from_ok(self, s: Space) -> bool {
        forall|i: int|
            0 <= i < s.words@.len() ==> self.from_ptr_ok((#[trigger] s.words@[i]) as int)
    }

    /// Every to-space word below `next` (the copied region) respects the
    /// from-space.
    pub open spec fn chain_words_ok(self) -> bool {
        forall|i: int|
            0 <= i < self.to_space.word_index(self.next as int) ==> self.from_ptr_ok(
                (#[trigger] self.to_space.words@[i]) as int,
            )
    }

    /// Every root respects the from-space.
    pub open spec fn roots_from_ok(self) -> bool {
        forall|i: int|
            0 <= i < self.roots@.len() ==> self.from_ptr_ok((#[trigger] self.roots@[i]) as int)
    }

    /// Invariants specific to a cycle in progress: pointer discipline on the
    /// from-space, on the copied region, and on the roots, and the copied
    /// region `[to_space.start, next)` parsing as a chain of objects with
    /// `scan` on an object boundary.
    pub open spec fn cycle_inv(self) -> bool {
        &&& self.words_from_ok(self.from_space)
        &&& self.chain_words_ok()
        &&& self.roots_from_ok()
        &&& region_objs(self.to_space, self.fc_mask, self.to_space.start as int, self.next as int)
        &&& self.scan == self.next || region_member(
            self.to_space,
            self.fc_mask,
            self.to_space.start as int,
            self.next as int,
            self.scan as int,
        )
    }

    /// A space is null or sits at one of the two fixed bases with a size
    /// within bounds.
    pub open spec fn base_ok(s: Space) -> bool {
        ||| s.start == 0
        ||| (s.start == SPACE_A_START || s.start == SPACE_B_START) && s.spec_size()
            <= SPACE_BYTES_MAX
    }

    /// Well-formedness, maintained by every operation: shapely spaces at
    /// fixed disjoint bases, ordered and aligned cycle pointers
    /// (`start <= scan <= next <= limit <= end`), a from-space only while a
    /// cycle is in progress, and the cycle invariants while one is.
    pub open spec fn wf(self) -> bool {
        &&& self.to_space.wf()
        &&& self.from_space.wf()
        &&& Self::base_ok(self.to_space)
        &&& Self::base_ok(self.from_space)
        &&& 1 <= self.fc_cap() <= 0xffff
        &&& self.to_space.start <= self.scan <= self.next
        &&& self.next <= self.limit <= self.to_space.spec_end()
        &&& self.scan % 8 == 0
        &&& self.next % 8 == 0
        &&& self.limit % 8 == 0
        &&& !self.gc_in_progress ==> self.from_space.start == 0
        &&& self.from_space.start != 0 ==> self.from_space.start != self.to_space.start
        &&& self.gc_in_progress ==> self.cycle_inv()
    }

    /// The from- and to-space ranges never overlap.
    pub proof fn lemma_spaces_disjoint(self)
        requires
            self.wf(),
        ensures
            self.from_space.start != 0 ==> self.from_space.spec_end() <= self.to_space.start
                || self.to_space.spec_end() <= self.from_space.start,
            forall|a: int| !(self.in_from(a) && self.in_to(a)),
    {
    }

    /// What `alloc` assumes of a heap about to be collected: every word of
    /// the current to-space and every root, read as a pointer into to-space,
    /// is a usable object address. This is the mutator's side of the safety
    /// contract; after the spaces are swapped it becomes the from-space
    /// discipline of the new cycle.
    pub open spec fn collect_ready(self) -> bool {
        &&& forall|i: int|
            0 <= i < self.to_space.words@.len() ==> self.to_ptr_ok(
                (#[trigger] self.to_space.words@[i]) as int,
            )
        &&& forall|i: int|
            0 <= i < self.roots@.len() ==> self.to_ptr_ok((#[trigger] self.roots@[i]) as int)
    }

    /// The word value `w`, read as a pointer, respects the to-space.
    pub open spec fn to_ptr_ok(self, w: int) -> bool {
        self.in_to(w) ==> self.obj_ok_in(self.to_space, w)
    }

    /// A root value is contained: if it still points into the from-space,
    /// the object there has already been forwarded, so its first field holds
    /// the to-space copy.
    pub open spec fn root_ok(self, r: int) -> bool {
        self.in_from(r) ==> self.in_to(self.from_space.word_at(r + 8) as int)
    }

    /// Heap containment of the root set: every root either points outside
    /// the from-space or at a forwarded object.
    pub open spec fn roots_contained(self) -> bool {
        forall|i: int|
            0 <= i < self.roots@.len() ==> self.root_ok((#[trigger] self.roots@[i]) as int)
    }

    /// Bytes used in the to-space: both the copied region at the bottom and
    /// the in-cycle allocations at the top.
    pub open spec fn spec_to_space_used(self) -> int {
        (self.to_space.spec_end() - self.limit) + (self.next - self.to_space.start)
    }

    /// Bytes used across both semi-spaces; a from-space counts whole.
    pub open spec fn spec_used(self) -> int {
        self.from_space.spec_size() + self.spec_to_space_used()
    }

    /// Bytes left before the next cycle must begin.
    pub open spec fn spec_free(self) -> int {
        self.limit - self.next
    }

    /// Creates a new garbage collector instance.
    ///
    /// The host's two header masks and the initial semi-space size are passed
    /// in by whoever owns the host globals.
    pub fn new(max_alloc_size: usize, tag_mask: usize, fc_mask: usize) -> (gc: Gc)
        requires
            max_alloc_size <= SPACE_BYTES_MAX,
            1 <= fc_mask >> 4 <= 0xffff,
        ensures
            gc.wf(),
            !gc.gc_in_progress,
            gc.stats == (Stats {
                reads: 0,
                writes: 0,
                read_barriers: 0,
                all_time_allocated: 0,
                all_time_allocated_objs: 0,
                max_used: 0,
                gc_cycles: 0,
            }),
            gc.roots@.len() == 0,
            gc.tag_mask == tag_mask,
            gc.fc_mask == fc_mask,
            gc.next == gc.to_space.start,
            gc.scan == gc.next,
            gc.limit == gc.to_space.spec_end(),
            forall|i: int| 0 <= i < gc.to_space.words@.len() ==> gc.to_space.words@[i] == 0,
            gc.collect_ready(),
            max_alloc_size >= 8 ==> gc.to_space.start == SPACE_A_START
                && gc.to_space.spec_size() == spec_align_down(max_alloc_size as int, 8),
            max_alloc_size < 8 ==> gc.to_space.start == 0,
    {
        let to_space = Space::create(max_alloc_size, SPACE_A_START);
        let next = to_space.start;
        let limit = to_space.end();
        Gc {
            from_space: Space::default(),
            to_space,
            roots: Vec::new(),
            gc_in_progress: false,
            scan: next,
            next,
            limit,
            stats: Stats::default(),
            tag_mask,
            fc_mask,
        }
    }

    /// Records a new allocation for the stats.
    fn register_alloc(&mut self, size: usize)
        requires
            old(self).wf(),
        ensures
            final(self).wf(),
            same_heap(*old(self), *final(self)),
            stats_le(old(self).stats, final(self).stats),
            final(self).stats == (Stats {
                all_time_allocated: old(self).stats.all_time_allocated.saturating_add(size),
                all_time_allocated_objs: old(self).stats.all_time_allocated_objs.saturating_add(
                    1,
                ),
                max_used: if old(self).stats.max_used >= old(self).spec_used() {
                    old(self).stats.max_used
                } else {
                    old(self).spec_used() as usize
                },
                ..old(self).stats
            }),
    {
        self.stats.all_time_allocated = self.stats.all_time_allocated.saturating_add(size);
        self.stats.all_time_allocated_objs = self.stats.all_time_allocated_objs.saturating_add(1);
        let used = self.used_memory();
        if used > self.stats.max_used {
            self.stats.max_used = used;
        }
    }

    /// Returns how much memory (in bytes) is used in the to-space.
    pub fn to_space_used_memory(&self) -> (r: usize)
        requires
            self.wf(),
        ensures
            r == self.spec_to_space_used(),
    {
        (self.to_space.end() - self.limit) + (self.next - self.to_space.start)
    }

    /// Returns how much free memory remains before the next GC cycle begins.
    pub fn free_memory(&self) -> (r: usize)
        requires
            self.wf(),
        ensures
            r == self.spec_free(),
    {
        self.limit - self.next
    }

    /// Returns how much memory is used in both semi-spaces.
    pub fn used_memory(&self) -> (r: usize)
        requires
            self.wf(),
        ensures
            r == self.spec_used(),
    {
        self.from_space.size() + self.to_space_used_memory()
    }

    /// The space class of address `a` under this collector.
    pub open spec fn spec_classify(self, a: int) -> SpaceClass {
        if self.in_from(a) {
            SpaceClass::From { offset: (a - self.from_space.start) as usize }
        } else if self.in_to(a) {
            SpaceClass::To { offset: (a - self.to_space.start) as usize }
        } else {
            SpaceClass::Unmanaged
        }
    }

    /// Determines the space class of the pointer: from-space, to-space (each
    /// with the byte offset from the space's start), or unmanaged.
    pub fn classify_space(&self, ptr: ObjPtr) -> (r: SpaceClass)
        requires
            self.wf(),
        ensures
            r == self.spec_classify(ptr.0 as int),
    {
        if self.from_space.contains(ptr.0) {
            SpaceClass::From { offset: ptr.0 - self.from_space.start }
        } else if self.to_space.contains(ptr.0) {
            SpaceClass::To { offset: ptr.0 - self.to_space.start }
        } else {
            SpaceClass::Unmanaged
        }
    }

    /// Records a write to a field of a managed object: the write counter
    /// moves exactly when the written object lies in one of the two spaces.
    pub fn record_write(&mut self, ptr: ObjPtr)
        requires
            old(self).wf(),
        ensures
            final(self).wf(),
            same_heap(*old(self), *final(self)),
            stats_le(old(self).stats, final(self).stats),
            final(self).stats == (Stats {
                writes: if old(self).in_from(ptr.0 as int) || old(self).in_to(ptr.0 as int) {
                    old(self).stats.writes.saturating_add(1)
                } else {
                    old(self).stats.writes
                },
                ..old(self).stats
            }),
    {
        match self.classify_space(ptr) {
            SpaceClass::From { offset: _ } => {
                self.stats.writes = self.stats.writes.saturating_add(1);
            },
            SpaceClass::To { offset: _ } => {
                self.stats.writes = self.stats.writes.saturating_add(1);
            },
            SpaceClass::Unmanaged => {},
        }
    }

    /// Adds a root: a pointer value the mutator declares live. While a cycle
    /// is underway the value must respect the from-space and be contained.
    pub fn push_root(&mut self, root: ObjPtr)
        requires
            old(self).wf(),
            old(self).gc_in_progress ==> old(self).from_ptr_ok(root.0 as int) && old(self).root_ok(
                root.0 as int,
            ),
        ensures
            final(self).wf(),
            final(self).roots@ == old(self).roots@.push(root.0),
            final(self).stats == old(self).stats,
            final(self).from_space == old(self).from_space,
            final(self).to_space == old(self).to_space,
            final(self).gc_in_progress == old(self).gc_in_progress,
            final(self).scan == old(self).scan,
            final(self).next == old(self).next,
            final(self).limit == old(self).limit,
            final(self).tag_mask == old(self).tag_mask,
            final(self).fc_mask == old(self).fc_mask,
            old(self).roots_contained() ==> final(self).roots_contained(),
    {
        self.roots.push(root.0);
    }

    /// The number of roots currently registered.
    pub fn root_count(&self) -> (n: usize)
        ensures
            n == self.roots@.len(),
    {
        self.roots.len()
    }

    /// The current value of the root at position `index` (bottom of the
    /// stack first): the pointer the mutator pushed, as forwarded by any
    /// cycle that has begun since. This is how a host reads a root slot
    /// back, since the slots live inside the collector.
    pub fn root_at(&self, index: usize) -> (r: ObjPtr)
        requires
            (index as int) < self.roots@.len(),
        ensures
            r.0 == self.roots@[index as int],
    {
        ObjPtr(self.roots[index])
    }

    /// Removes the top root, which must be the one the caller names; the
    /// popped (possibly forwarded) value is returned. Popping an empty stack
    /// or popping a root other than the top one is a fatal error and leaves
    /// the stack untouched.
    pub fn pop_root(&mut self, expected: ObjPtr) -> (r: Result<ObjPtr, GcError>)
        requires
            old(self).wf(),
        ensures
            final(self).wf(),
            old(self).roots@.len() == 0 ==> r == Err::<ObjPtr, GcError>(GcError::RootUnderflow)
                && *final(self) == *old(self),
            old(self).roots@.len() > 0 && old(self).roots@.last() != expected.0 ==> r == Err::<
                ObjPtr,
                GcError,
            >(GcError::RootMismatch) && *final(self) == *old(self),
            old(self).roots@.len() > 0 && old(self).roots@.last() == expected.0 ==> r == Ok::<
                ObjPtr,
                GcError,
            >(expected) && final(self).roots@ == old(self).roots@.drop_last(),
            final(self).from_space == old(self).from_space,
            final(self).to_space == old(self).to_space,
            final(self).gc_in_progress == old(self).gc_in_progress,
            final(self).scan == old(self).scan,
            final(self).next == old(self).next,
            final(self).limit == old(self).limit,
            final(self).tag_mask == old(self).tag_mask,
            final(self).fc_mask == old(self).fc_mask,
            final(self).stats == old(self).stats,
            old(self).roots_contained() ==> final(self).roots_contained(),
    {
        if self.roots.len() == 0 {
            return Err(GcError::RootUnderflow);
        }
        let top = self.roots[self.roots.len() - 1];
        if top != expected.0 {
            return Err(GcError::RootMismatch);
        }
        let popped = self.roots.pop();
        match popped {
            Some(p) => Ok(ObjPtr(p)),
            None => Err(GcError::RootUnderflow),
        }
    }

    /// Allocates a new object of the given size at `next`.
    ///
    /// Returns `None` if there's not enough free memory in the to-space; the
    /// comparison is strict, matching the allocator's historical behaviour.
    fn alloc_at_next(&mut self, size: usize) -> (r: Option<ObjPtr>)
        requires
            old(self).wf(),
            !old(self).gc_in_progress,
            size > 0,
            size % 8 == 0,
        ensures
            final(self).wf(),
            !final(self).gc_in_progress,
            (r is Some) <==> old(self).limit != 0 && old(self).next + size < old(self).limit,
            r is Some ==> r == Some(ObjPtr(old(self).next)),
            r is Some ==> final(self).next == old(self).next + size,
            r is Some ==> final(self).to_space == old(self).to_space,
            r is Some ==> final(self).from_space == old(self).from_space,
            r is Some ==> final(self).roots == old(self).roots,
            r is Some ==> final(self).scan == old(self).scan,
            r is Some ==> final(self).limit == old(self).limit,
            r is Some ==> final(self).stats == old(self).stats,
            r is Some ==> final(self).tag_mask == old(self).tag_mask,
            r is Some ==> final(self).fc_mask == old(self).fc_mask,
            r is None ==> *final(self) == *old(self),
    {
        if self.limit != 0 && size < self.limit - self.next {
            let result = ObjPtr(self.next);
            self.next = self.next + size;
            Some(result)
        } else {
            None
        }
    }

    /// Byte address of field `i` of the object at `o`: one word for the
    /// header, then one per field.
    pub open spec fn slot_addr(o: int, i: int) -> int {
        o + 8 + 8 * i
    }

    /// Field `i` of the object at `o` is a loadable word of a managed space.
    pub open spec fn field_slot_readable(self, o: int, i: int) -> bool {
        &&& o % 8 == 0
        &&& 0 <= i
        &&& (self.in_to(o) && Self::slot_addr(o, i) + 8 <= self.to_space.spec_end()) || (
        self.in_from(o) && Self::slot_addr(o, i) + 8 <= self.from_space.spec_end())
    }

    /// The current value of field `i` of the object at `o`.
    pub open spec fn slot_value(self, o: int, i: int) -> usize {
        if self.in_to(o) {
            self.to_space.word_at(Self::slot_addr(o, i))
        } else {
            self.from_space.word_at(Self::slot_addr(o, i))
        }
    }

    /// Reads field `idx` of the object at `obj` directly, without a barrier
    /// and without counting the read; for inspection of the heap.
    pub fn load_field(&self, obj: ObjPtr, idx: usize) -> (r: ObjPtr)
        requires
            self.wf(),
            self.field_slot_readable(obj.0 as int, idx as int),
        ensures
            r.0 == self.slot_value(obj.0 as int, idx as int),
    {
        proof {
            crate::space::lemma_slot_aligned(obj.0 as int, idx as int);
            self.lemma_spaces_disjoint();
        }
        let slot = obj.0 + 8 + 8 * idx;
        if self.to_space.contains(obj.0) {
            ObjPtr(self.to_space.load(slot))
        } else {
            ObjPtr(self.from_space.load(slot))
        }
    }

    /// Field `i` of the object at `o` may be stored to by the mutator: a
    /// to-space slot, and - while a cycle is underway - either part of an
    /// object allocated during the cycle (at or above `limit`) or a field of
    /// one of the copied objects, never a header.
    pub open spec fn field_slot_writable(self, o: int, i: int) -> bool {
        &&& o % 8 == 0
        &&& 0 <= i
        &&& self.in_to(o)
        &&& Self::slot_addr(o, i) + 8 <= self.to_space.spec_end()
        &&& self.gc_in_progress ==> (o >= self.limit || (region_member(
            self.to_space,
            self.fc_mask,
            self.to_space.start as int,
            self.next as int,
            o,
        ) && i < spec_field_count(self.to_space.word_at(o), self.fc_mask)))
    }

    /// A mutator store into field `idx` of the object at `obj`. The write
    /// barrier proper only counts writes; the store itself is this
    /// operation. While a cycle is underway the stored value must respect
    /// the from-space (the mutator only ever stores values it obtained
    /// through the read barrier or fresh allocations).
    #[verifier::spinoff_prover]
    pub fn store_field(&mut self, obj: ObjPtr, idx: usize, value: ObjPtr)
        requires
            old(self).wf(),
            old(self).field_slot_writable(obj.0 as int, idx as int),
            old(self).gc_in_progress ==> old(self).from_ptr_ok(value.0 as int),
        ensures
            final(self).wf(),
            final(self).to_space.word_at(Self::slot_addr(obj.0 as int, idx as int)) == value.0,
            forall|b: int|
                b % 8 == 0 && b != Self::slot_addr(obj.0 as int, idx as int)
                    && old(self).to_space.spec_contains(b)
                    ==> final(self).to_space.word_at(b) == old(self).to_space.word_at(b),
            final(self).to_space.start == old(self).to_space.start,
            final(self).to_space.spec_size() == old(self).to_space.spec_size(),
            final(self).from_space == old(self).from_space,
            final(self).roots == old(self).roots,
            final(self).gc_in_progress == old(self).gc_in_progress,
            final(self).scan == old(self).scan,
            final(self).next == old(self).next,
            final(self).limit == old(self).limit,
            final(self).stats == old(self).stats,
            final(self).tag_mask == old(self).tag_mask,
            final(self).fc_mask == old(self).fc_mask,
            old(self).roots_contained() ==> final(self).roots_contained(),
    {
        proof {
            crate::space::lemma_slot_aligned(obj.0 as int, idx as int);
        }
        let slot = obj.0 + 8 + 8 * idx;
        self.to_space.store(slot, value.0);
        proof {
            let o = obj.0 as int;
            let d = Self::slot_addr(o, idx as int);
            let s1 = old(self).to_space;
            let s2 = self.to_space;
            let base = s1.start as int;
            let hi = old(self).next as int;
            if self.gc_in_progress {
                if o >= old(self).limit {
                    // The store lands at or above `limit`, beyond the copied
                    // region, so the chain is untouched.
                    assert forall|c: int| c % 8 == 0 && base <= c < hi implies s1.word_at(c)
                        == s2.word_at(c) by {}
                    lemma_region_agree(s1, s2, self.fc_mask, base, hi);
                    assert forall|i: int|
                        0 <= i < s2.word_index(hi) implies self.from_ptr_ok(
                        (#[trigger] s2.words@[i]) as int,
                    ) by {
                        lemma_word_index(base, d, s2.words@.len() as int);
                        lemma_word_index(base, hi, s2.words@.len() as int);
                        assert(8 * s2.word_index(d) == d - base);
                        assert(s2.words@[i] == s1.words@[i]);
                    }
                } else {
                    let member = region_member(s1, self.fc_mask, base, hi, o);
                    lemma_region_suffix(s1, self.fc_mask, base, hi, o);
                    lemma_region_store(s1, s2, self.fc_mask, base, hi, o, d);
                    assert forall|i: int|
                        0 <= i < s2.word_index(hi) implies self.from_ptr_ok(
                        (#[trigger] s2.words@[i]) as int,
                    ) by {
                        lemma_word_lookup(s2, d);
                        if i == s2.word_index(d) {
                            assert(s2.words@[i] == value.0);
                        } else {
                            assert(s2.words@[i] == s1.words@[i]);
                        }
                    }
                }
            }
        }
    }

    /// A mutator store of the header word of the object at `obj`: how the
    /// host initializes an object after allocating it. Only for objects the
    /// scanner has no stake in - outside a cycle anywhere in to-space, during
    /// a cycle only in the newly allocated region at or above `limit`.
    pub fn store_header(&mut self, obj: ObjPtr, header: usize)
        requires
            old(self).wf(),
            obj.0 % 8 == 0,
            old(self).in_to(obj.0 as int),
            obj.0 + 8 <= old(self).to_space.spec_end(),
            old(self).gc_in_progress ==> obj.0 >= old(self).limit && old(self).from_ptr_ok(
                header as int,
            ),
        ensures
            final(self).wf(),
            final(self).to_space.word_at(obj.0 as int) == header,
            forall|b: int|
                b % 8 == 0 && b != obj.0 as int && old(self).to_space.spec_contains(b)
                    ==> final(self).to_space.word_at(b) == old(self).to_space.word_at(b),
            final(self).to_space.start == old(self).to_space.start,
            final(self).to_space.spec_size() == old(self).to_space.spec_size(),
            final(self).from_space == old(self).from_space,
            final(self).roots == old(self).roots,
            final(self).gc_in_progress == old(self).gc_in_progress,
            final(self).scan == old(self).scan,
            final(self).next == old(self).next,
            final(self).limit == old(self).limit,
            final(self).stats == old(self).stats,
            final(self).tag_mask == old(self).tag_mask,
            final(self).fc_mask == old(self).fc_mask,
            old(self).roots_contained() ==> final(self).roots_contained(),
    {
        self.to_space.store(obj.0, header);
        proof {
            let o = obj.0 as int;
            let s1 = old(self).to_space;
            let s2 = self.to_space;
            let base = s1.start as int;
            let hi = old(self).next as int;
            if self.gc_in_progress {
                assert forall|c: int| c % 8 == 0 && base <= c < hi implies s1.word_at(c)
                    == s2.word_at(c) by {}
                lemma_region_agree(s1, s2, self.fc_mask, base, hi);
                assert forall|i: int|
                    0 <= i < s2.word_index(hi) implies self.from_ptr_ok(
                    (#[trigger] s2.words@[i]) as int,
                ) by {
                    lemma_word_index(base, o, s2.words@.len() as int);
                    lemma_word_index(base, hi, s2.words@.len() as int);
                    assert(8 * s2.word_index(o) == o - base);
                    assert(s2.words@[i] == s1.words@[i]);
                }
            }
        }
    }

    /// The child the copying walk continues with after copying the object
    /// at `p`, judged over its fields `0..i`: the value of the
    /// highest-indexed field that points at a not-yet-forwarded from-space
    /// object, or 0 when there is none. The last uncopied child wins, which
    /// is the traversal order the dumper makes observable.
    #[verifier::opaque]
    pub open spec fn spec_chase_pick(self, p: int, i: int) -> usize
        decreases i,
    {
        if i <= 0 {
            0
        } else {
            let f = self.slot_value(p, i - 1);
            if self.in_from(f as int) && !self.in_to(
                self.from_space.word_at(f as int + 8) as int,
            ) {
                f
            } else {
                self.spec_chase_pick(p, i - 1)
            }
        }
    }

    /// One full step of `chase`, packaged for the verifier: given the state
    /// `it` at the top of an iteration (with the walk's running invariants
    /// relative to the entry state `pre`) and the state `post` after copying
    /// the object at `p` to `wr`, installing its forwarding pointer and
    /// bumping `next`, re-establishes well-formedness and the running
    /// invariants.
    #[verifier::rlimit(100)]
    #[verifier::spinoff_prover]
    proof fn lemma_chase_iter(
        pre: Gc,
        it: Gc,
        post: Gc,
        start_ptr: usize,
        p: usize,
        wr: usize,
        header: usize,
        fc: usize,
        sz: usize,
        fc0: int,
        pick0: usize,
        next_p: usize,
    )
        requires
            pre.wf(),
            pre.gc_in_progress,
            pre.from_obj_ok(start_ptr as int),
            it.wf(),
            it.gc_in_progress,
            it.from_obj_ok(p as int),
            it.from_space.start == pre.from_space.start,
            it.from_space.words@.len() == pre.from_space.words@.len(),
            it.to_space.start == pre.to_space.start,
            it.to_space.words@.len() == pre.to_space.words@.len(),
            it.scan == pre.scan,
            it.limit == pre.limit,
            it.next >= pre.next,
            it.fc_mask == pre.fc_mask,
            fc0 == spec_field_count(pre.from_space.word_at(start_ptr as int), pre.fc_mask),
            forall|b: int|
                b % 8 == 0 && pre.to_space.start <= b < pre.next ==> it.to_space.word_at(b)
                    == pre.to_space.word_at(b),
            forall|b: int|
                b % 8 == 0 && pre.in_from(b) ==> it.from_space.word_at(b)
                    == pre.from_space.word_at(b) || it.in_to(it.from_space.word_at(b) as int),
            forall|o: int|
                region_member(
                    pre.to_space,
                    pre.fc_mask,
                    pre.to_space.start as int,
                    pre.next as int,
                    o,
                ) ==> region_member(
                    it.to_space,
                    it.fc_mask,
                    it.to_space.start as int,
                    it.next as int,
                    o,
                ),
            (it == pre && p == start_ptr) || (it.next >= pre.next + 8 + 8 * fc0 && it.in_to(
                pre.next as int,
            ) && it.in_to(it.from_space.word_at(start_ptr as int + 8) as int) && forall|k: int|
                0 <= k <= fc0 ==> #[trigger] it.to_space.obj_word(pre.next as int, k)
                    == pre.from_space.obj_word(start_ptr as int, k)),
            it == pre || pick0 == 0 || chase_stage(pre, it, start_ptr, fc0, pick0, p),
            it == pre ==> next_p == pick0,
            pick0 == 0 || pre.from_obj_ok(pick0 as int),
            header == it.from_space.word_at(p as int),
            fc == spec_field_count(header, it.fc_mask),
            sz == 8 + 8 * fc,
            wr == it.next,
            wr + sz <= it.limit,
            post.to_space.wf(),
            post.from_space.wf(),
            post.gc_in_progress,
            post.roots == it.roots,
            post.stats == it.stats,
            post.scan == it.scan,
            post.limit == it.limit,
            post.next == wr + sz,
            post.tag_mask == it.tag_mask,
            post.fc_mask == it.fc_mask,
            post.from_space.start == it.from_space.start,
            post.from_space.words@.len() == it.from_space.words@.len(),
            post.to_space.start == it.to_space.start,
            post.to_space.words@.len() == it.to_space.words@.len(),
            post.to_space.word_at(wr as int) == header,
            forall|b: int|
                b % 8 == 0 && it.to_space.spec_contains(b) && !(wr <= b < wr + sz)
                    ==> post.to_space.word_at(b) == it.to_space.word_at(b),
            forall|k: int|
                1 <= k <= fc ==> #[trigger] post.to_space.obj_word(wr as int, k)
                    == it.from_space.obj_word(p as int, k),
            post.from_space.word_at(p as int + 8) == wr,
            forall|b: int|
                b % 8 == 0 && b != p as int + 8 && it.from_space.spec_contains(b)
                    ==> post.from_space.word_at(b) == it.from_space.word_at(b),
        ensures
            post.wf(),
            post.from_obj_ok(p as int),
            post.next >= pre.next + 8 + 8 * fc0,
            post.in_to(pre.next as int),
            post.in_to(post.from_space.word_at(start_ptr as int + 8) as int),
            forall|b: int|
                b % 8 == 0 && pre.to_space.start <= b < pre.next ==> post.to_space.word_at(b)
                    == pre.to_space.word_at(b),
            forall|b: int|
                b % 8 == 0 && pre.in_from(b) ==> post.from_space.word_at(b)
                    == pre.from_space.word_at(b) || post.in_to(post.from_space.word_at(b) as int),
            forall|o: int|
                region_member(
                    pre.to_space,
                    pre.fc_mask,
                    pre.to_space.start as int,
                    pre.next as int,
                    o,
                ) ==> region_member(
                    post.to_space,
                    post.fc_mask,
                    post.to_space.start as int,
                    post.next as int,
                    o,
                ),
            forall|k: int|
                0 <= k <= fc0 ==> #[trigger] post.to_space.obj_word(pre.next as int, k)
                    == pre.from_space.obj_word(start_ptr as int, k),
            pick0 != 0 ==> chase_stage(pre, post, start_ptr, fc0, pick0, next_p),
            pick0 == 0 && it == pre ==> post.next == pre.next + 8 + 8 * fc0 && (forall|b: int|
                b % 8 == 0 && pre.in_from(b) && b != start_ptr as int + 8
                    ==> #[trigger] post.from_space.word_at(b) == pre.from_space.word_at(b)),
    {
        let base = it.to_space.start as int;
        let fcm = it.fc_mask;
        let n = it.to_space.words@.len() as int;
        it.lemma_spaces_disjoint();
        crate::layout::lemma_field_count_bound(header, it.fc_mask);
        assert(post.in_to(wr as int));
        // Words strictly below the fresh copy are untouched.
        assert forall|b: int|
            b % 8 == 0 && base <= b < wr as int implies post.to_space.word_at(b)
            == it.to_space.word_at(b) by {
            assert(it.to_space.spec_contains(b));
        }
        // The chain parse extends by exactly the fresh copy.
        lemma_region_agree(it.to_space, post.to_space, fcm, base, wr as int);
        assert(region_objs(post.to_space, fcm, base, wr as int));
        assert(obj_bytes_at(post.to_space, fcm, wr as int) == sz);
        lemma_region_one(post.to_space, fcm, wr as int, wr as int + sz);
        lemma_region_concat(post.to_space, fcm, base, wr as int, wr as int + sz);
        assert(region_objs(post.to_space, fcm, base, post.next as int));
        // `scan` stays on an object boundary of the longer chain.
        if it.scan as int != wr as int {
            assert(region_member(it.to_space, fcm, base, wr as int, it.scan as int));
            assert(region_member(post.to_space, fcm, base, wr as int, post.scan as int));
        }
        assert(region_member(post.to_space, fcm, base, post.next as int, post.scan as int));
        // Discipline of the enlarged copied region.
        assert forall|idx: int|
            0 <= idx < post.to_space.word_index(post.next as int) implies post.from_ptr_ok(
            (#[trigger] post.to_space.words@[idx]) as int,
        ) by {
            crate::space::lemma_word_offset(base, post.next as int);
            crate::space::lemma_word_offset(base, wr as int);
            let b = base + 8 * idx;
            assert(b % 8 == 0) by (nonlinear_arith)
                requires
                    base % 8 == 0,
                    b == base + 8 * idx,
            ;
            lemma_word_index(base, b, n);
            assert(post.to_space.words@[idx] == post.to_space.word_at(b));
            if b < wr {
                lemma_word_lookup(it.to_space, b);
                assert(post.to_space.word_at(b) == it.to_space.word_at(b));
                assert(it.from_ptr_ok(it.to_space.words@[it.to_space.word_index(b)] as int));
            } else if b == wr {
                lemma_word_lookup(it.from_space, p as int);
                assert(it.from_ptr_ok(it.from_space.words@[it.from_space.word_index(p as int)] as int));
            } else {
                let j = (b - (wr + 8)) / 8;
                assert(8 * j == b - (wr as int + 8) && 0 <= j < fc) by (nonlinear_arith)
                    requires
                        b % 8 == 0,
                        wr % 8 == 0,
                        j == (b - (wr + 8)) / 8,
                        wr < b,
                        b < wr + sz,
                        sz == 8 + 8 * fc,
                ;
                assert(b == wr as int + 8 * (j + 1));
                assert(post.to_space.obj_word(wr as int, j + 1) == it.from_space.obj_word(
                    p as int,
                    j + 1,
                ));
                crate::space::lemma_slot_aligned(p as int, j);
                lemma_word_lookup(it.from_space, p as int + 8 + 8 * j);
                assert(it.from_space.obj_word(p as int, j + 1) == it.from_space.word_at(
                    p as int + 8 + 8 * j,
                ));
                assert(it.from_ptr_ok(
                    it.from_space.words@[it.from_space.word_index(p as int + 8 + 8 * j)] as int,
                ));
            }
        }
        // Discipline of the from-space after the install.
        assert forall|i: int|
            0 <= i < post.from_space.words@.len() implies post.from_ptr_ok(
            (#[trigger] post.from_space.words@[i]) as int,
        ) by {
            let st = post.from_space.start as int;
            let m = post.from_space.words@.len() as int;
            let b = st + 8 * i;
            assert(b % 8 == 0) by (nonlinear_arith)
                requires
                    st % 8 == 0,
                    b == st + 8 * i,
            ;
            lemma_word_index(st, b, m);
            assert(post.from_space.words@[i] == post.from_space.word_at(b));
            if b == p as int + 8 {
                assert(post.from_space.word_at(b) == wr);
            } else {
                assert(it.from_space.spec_contains(b));
                assert(post.from_space.word_at(b) == it.from_space.word_at(b));
                lemma_word_lookup(it.from_space, b);
                assert(it.from_ptr_ok(it.from_space.words@[i] as int));
            }
        }
        // Roots are untouched and the root discipline does not depend on any
        // word contents.
        assert forall|i: int|
            0 <= i < post.roots@.len() implies post.from_ptr_ok(
            (#[trigger] post.roots@[i]) as int,
        ) by {
            assert(it.from_ptr_ok(it.roots@[i] as int));
        }
        assert(post.cycle_inv());
        assert(post.wf());
        // Running invariants relative to `pre`.
        assert forall|b: int|
            b % 8 == 0 && pre.to_space.start <= b < pre.next implies post.to_space.word_at(b)
            == pre.to_space.word_at(b) by {
            assert(it.to_space.word_at(b) == pre.to_space.word_at(b));
        }
        assert forall|o: int|
            region_member(
                pre.to_space,
                pre.fc_mask,
                pre.to_space.start as int,
                pre.next as int,
                o,
            ) implies region_member(post.to_space, post.fc_mask, base, post.next as int, o) by {
            assert(region_member(it.to_space, fcm, base, wr as int, o));
            assert(region_member(post.to_space, fcm, base, wr as int, o));
        }
        assert forall|b: int|
            b % 8 == 0 && pre.in_from(b) implies post.from_space.word_at(b)
            == pre.from_space.word_at(b) || post.in_to(post.from_space.word_at(b) as int) by {
            if b == p as int + 8 {
                assert(post.from_space.word_at(b) == wr);
            } else {
                assert(post.from_space.word_at(b) == it.from_space.word_at(b));
            }
        }
        // First-copy bookkeeping for the object the walk started at.
        if it == pre {
            assert(p == start_ptr);
            assert(fc as int == fc0);
            assert(wr == pre.next);
            assert forall|k: int|
                0 <= k <= fc0 implies #[trigger] post.to_space.obj_word(pre.next as int, k)
                == pre.from_space.obj_word(start_ptr as int, k) by {
                if k == 0 {
                    assert(post.to_space.obj_word(wr as int, 0) == post.to_space.word_at(
                        wr as int,
                    ));
                    assert(pre.from_space.obj_word(start_ptr as int, 0)
                        == pre.from_space.word_at(start_ptr as int));
                } else {
                    assert(post.to_space.obj_word(wr as int, k) == it.from_space.obj_word(
                        p as int,
                        k,
                    ));
                }
            }
            assert(post.from_space.word_at(start_ptr as int + 8) == wr);
        } else {
            assert(it.next >= pre.next + 8 + 8 * fc0);
            assert forall|k: int|
                0 <= k <= fc0 implies #[trigger] post.to_space.obj_word(pre.next as int, k)
                == pre.from_space.obj_word(start_ptr as int, k) by {
                let b = pre.next as int + 8 * k;
                assert(b % 8 == 0) by (nonlinear_arith)
                    requires
                        pre.next % 8 == 0,
                        b == pre.next + 8 * k,
                ;
                assert(b < wr as int);
                assert(it.to_space.spec_contains(b));
                assert(post.to_space.word_at(b) == it.to_space.word_at(b));
                assert(it.to_space.obj_word(pre.next as int, k) == pre.from_space.obj_word(
                    start_ptr as int,
                    k,
                ));
            }
            if p == start_ptr {
                assert(post.from_space.word_at(start_ptr as int + 8) == wr);
            } else {
                assert(post.from_space.word_at(start_ptr as int + 8) == it.from_space.word_at(
                    start_ptr as int + 8,
                ));
            }
        }
        // Traversal bookkeeping: the first step heads for the pick, the
        // second step copies it into the very next chain slot, and later
        // steps leave that slot untouched.
        reveal(chase_stage);
        if it == pre {
            assert(post.next == pre.next + 8 + 8 * fc0);
            assert(post.from_space.word_at(start_ptr as int + 8) == wr);
            assert forall|b: int|
                b % 8 == 0 && pre.in_from(b) && b != start_ptr as int + 8 implies
                #[trigger] post.from_space.word_at(b) == pre.from_space.word_at(b) by {}
        } else if pick0 != 0 {
            if it.next == pre.next + 8 + 8 * fc0 {
                // the stage hypothesis can only be its first disjunct here
                assert(p == pick0);
                assert(wr as int == pre.next + 8 + 8 * fc0);
                assert(header == (if pick0 as int == start_ptr as int + 8 {
                    pre.next as usize
                } else {
                    pre.from_space.word_at(pick0 as int)
                }));
                assert(post.to_space.word_at(pre.next + 8 + 8 * fc0) == header);
            } else {
                // the second copy's header word lies below this step's
                // reservation and is untouched
                let b2 = pre.next + 8 + 8 * fc0;
                assert(b2 % 8 == 0) by (nonlinear_arith)
                    requires
                        pre.next % 8 == 0,
                        b2 == pre.next + 8 + 8 * fc0,
                ;
                assert(it.to_space.spec_contains(b2));
                assert(!(wr <= b2 < wr + sz));
                assert(post.to_space.word_at(b2) == it.to_space.word_at(b2));
            }
            assert(chase_stage(pre, post, start_ptr, fc0, pick0, next_p));
        }
    }

    /// A non-null pick is a usable from-space object address: the picked
    /// value is one of the object's field words, and every such word
    /// respects the from-space discipline.
    proof fn lemma_pick_in_from(gc: Gc, p: int, i: int)
        requires
            gc.wf(),
            gc.gc_in_progress,
            gc.from_obj_ok(p),
            0 <= i <= spec_field_count(gc.from_space.word_at(p), gc.fc_mask),
        ensures
            gc.spec_chase_pick(p, i) == 0 || gc.from_obj_ok(gc.spec_chase_pick(p, i) as int),
            gc.spec_chase_pick(p, i) == 0 || !gc.in_to(
                gc.from_space.word_at(gc.spec_chase_pick(p, i) as int + 8) as int,
            ),
        decreases i,
    {
        reveal(Gc::spec_chase_pick);
        if i > 0 {
            gc.lemma_spaces_disjoint();
            crate::layout::lemma_field_count_bound(gc.from_space.word_at(p), gc.fc_mask);
            crate::space::lemma_slot_aligned(p, i - 1);
            let slot = p + 8 + 8 * (i - 1);
            lemma_word_lookup(gc.from_space, slot);
            let f = gc.slot_value(p, i - 1);
            assert(gc.from_space.words@[gc.from_space.word_index(slot)] == f);
            if gc.in_from(f as int) && !gc.in_to(gc.from_space.word_at(f as int + 8) as int) {
                assert(gc.from_ptr_ok(f as int));
            } else {
                Self::lemma_pick_in_from(gc, p, i - 1);
            }
        }
    }

    /// Copies the fields of the from-space object at `p` into its
    /// reservation at `wr` (whose header word is already in place), and
    /// selects the object to chase next: the last field value that points
    /// at a not-yet-forwarded from-space object, or 0 when there is none.
    /// `snap` is the state just before the header word was stored.
    #[verifier::spinoff_prover]
    #[verifier::rlimit(100)]
    #[verifier::loop_isolation(false)]
    fn copy_object_fields(
        &mut self,
        p: usize,
        wr: usize,
        header: usize,
        fc: usize,
        Ghost(snap): Ghost<Gc>,
    ) -> (next_p: usize)
        requires
            snap.wf(),
            snap.gc_in_progress,
            snap.from_obj_ok(p as int),
            header == snap.from_space.word_at(p as int),
            fc == spec_field_count(header, snap.fc_mask),
            wr == snap.next,
            wr + 8 + 8 * fc <= snap.limit,
            old(self).from_space == snap.from_space,
            old(self).roots == snap.roots,
            old(self).scan == snap.scan,
            old(self).next == snap.next,
            old(self).limit == snap.limit,
            old(self).stats == snap.stats,
            old(self).tag_mask == snap.tag_mask,
            old(self).fc_mask == snap.fc_mask,
            old(self).gc_in_progress == snap.gc_in_progress,
            old(self).to_space.wf(),
            old(self).to_space.start == snap.to_space.start,
            old(self).to_space.words@.len() == snap.to_space.words@.len(),
            old(self).to_space.word_at(wr as int) == header,
            forall|b: int|
                b % 8 == 0 && snap.to_space.spec_contains(b) && b != wr as int
                    ==> old(self).to_space.word_at(b) == snap.to_space.word_at(b),
        ensures
            final(self).from_space == snap.from_space,
            final(self).roots == snap.roots,
            final(self).scan == snap.scan,
            final(self).next == snap.next,
            final(self).limit == snap.limit,
            final(self).stats == snap.stats,
            final(self).tag_mask == snap.tag_mask,
            final(self).fc_mask == snap.fc_mask,
            final(self).gc_in_progress == snap.gc_in_progress,
            final(self).to_space.wf(),
            final(self).to_space.start == snap.to_space.start,
            final(self).to_space.words@.len() == snap.to_space.words@.len(),
            final(self).to_space.word_at(wr as int) == header,
            forall|b: int|
                b % 8 == 0 && snap.to_space.spec_contains(b) && !(wr <= b < wr + 8 + 8 * fc)
                    ==> final(self).to_space.word_at(b) == snap.to_space.word_at(b),
            forall|k: int|
                1 <= k <= fc ==> #[trigger] final(self).to_space.obj_word(wr as int, k)
                    == snap.from_space.obj_word(p as int, k),
            next_p == 0 || snap.from_obj_ok(next_p as int),
            next_p == snap.spec_chase_pick(p as int, fc as int),
    {
        proof {
            reveal(Gc::spec_chase_pick);
            crate::layout::lemma_field_count_bound(header, snap.fc_mask);
        }
        let mut next_p: usize = 0;
        let mut i: usize = 0;
        while i < fc
            invariant
                i <= fc,
                self.to_space.wf(),
                self.from_space == snap.from_space,
                self.roots == snap.roots,
                self.scan == snap.scan,
                self.next == snap.next,
                self.limit == snap.limit,
                self.stats == snap.stats,
                self.tag_mask == snap.tag_mask,
                self.fc_mask == snap.fc_mask,
                self.gc_in_progress == snap.gc_in_progress,
                self.to_space.start == snap.to_space.start,
                self.to_space.words@.len() == snap.to_space.words@.len(),
                self.to_space.word_at(wr as int) == header,
                forall|b: int|
                    b % 8 == 0 && snap.to_space.spec_contains(b) && !(wr <= b < wr + 8 + 8 * i)
                        ==> self.to_space.word_at(b) == snap.to_space.word_at(b),
                forall|k: int|
                    1 <= k <= i ==> #[trigger] self.to_space.obj_word(wr as int, k)
                        == snap.from_space.obj_word(p as int, k),
                next_p == 0 || snap.from_obj_ok(next_p as int),
                next_p == snap.spec_chase_pick(p as int, i as int),
            decreases fc - i,
        {
            let ghost before = *self;
            let slot = p + 8 + 8 * i;
            proof {
                crate::space::lemma_slot_aligned(p as int, i as int);
            }
            let f = self.from_space.load(slot);
            proof {
                lemma_word_lookup(self.from_space, slot as int);
                assert(snap.from_space.words@[self.from_space.word_index(slot as int)] == f);
            }
            let dst = wr + 8 + 8 * i;
            proof {
                crate::space::lemma_slot_aligned(wr as int, i as int);
                snap.lemma_spaces_disjoint();
            }
            self.to_space.store(dst, f);
            if self.from_space.contains(f) {
                let ffwd = self.from_space.load(f + 8);
                if !self.to_space.contains(ffwd) {
                    next_p = f;
                }
            }
            proof {
                // the running candidate matches the selection function
                assert(snap.slot_value(p as int, i as int) == f);
                assert(next_p == snap.spec_chase_pick(p as int, i as int + 1));
            }
            proof {
                assert forall|k: int|
                    1 <= k <= i + 1 implies #[trigger] self.to_space.obj_word(wr as int, k)
                    == snap.from_space.obj_word(p as int, k) by {
                    crate::space::lemma_slot_aligned(wr as int, k - 1);
                    if k == i + 1 {
                        assert(wr as int + 8 * k == dst as int);
                        assert(p as int + 8 * k == slot as int);
                        assert(self.to_space.word_at(dst as int) == f);
                    } else {
                        let b = wr as int + 8 * k;
                        assert(b != dst as int);
                        assert(before.to_space.spec_contains(b));
                        assert(self.to_space.word_at(b) == before.to_space.word_at(b));
                        assert(before.to_space.obj_word(wr as int, k) == snap.from_space.obj_word(
                            p as int,
                            k,
                        ));
                    }
                }
            }
            i = i + 1;
        }
        next_p
    }

    /// Performs a semi-DFS walk forwarding pointers, starting with
    /// `start_ptr`: each step reserves space at `next`, copies one
    /// from-space object verbatim, picks the last not-yet-copied from-space
    /// child (if any) to continue with, and installs the forwarding pointer
    /// into the original's first field slot.
    #[verifier::loop_isolation(false)]
    #[verifier::rlimit(100)]
    #[verifier::spinoff_prover]
    fn chase(&mut self, start_ptr: usize) -> (r: Result<(), GcError>)
        requires
            old(self).wf(),
            old(self).gc_in_progress,
            old(self).from_obj_ok(start_ptr as int),
        ensures
            final(self).wf(),
            final(self).gc_in_progress,
            final(self).from_space.start == old(self).from_space.start,
            final(self).from_space.spec_size() == old(self).from_space.spec_size(),
            final(self).to_space.start == old(self).to_space.start,
            final(self).to_space.spec_size() == old(self).to_space.spec_size(),
            final(self).roots == old(self).roots,
            final(self).scan == old(self).scan,
            final(self).limit == old(self).limit,
            final(self).stats == old(self).stats,
            final(self).tag_mask == old(self).tag_mask,
            final(self).fc_mask == old(self).fc_mask,
            final(self).next >= old(self).next,
            forall|b: int|
                b % 8 == 0 && old(self).to_space.start <= b < old(self).next
                    ==> #[trigger] final(self).to_space.word_at(b) == old(self).to_space.word_at(
                    b,
                ),
            forall|b: int|
                b % 8 == 0 && old(self).in_from(b) ==> #[trigger] final(self).from_space.word_at(b)
                    == old(self).from_space.word_at(b) || final(self).in_to(
                    final(self).from_space.word_at(b) as int,
                ),
            forall|o: int|
                region_member(
                    old(self).to_space,
                    old(self).fc_mask,
                    old(self).to_space.start as int,
                    old(self).next as int,
                    o,
                ) ==> region_member(
                    final(self).to_space,
                    final(self).fc_mask,
                    final(self).to_space.start as int,
                    final(self).next as int,
                    o,
                ),
            r is Ok ==> final(self).in_to(
                final(self).from_space.word_at(start_ptr as int + 8) as int,
            ),
            r is Ok ==> final(self).in_to(old(self).next as int) && forall|k: int|
                0 <= k <= spec_field_count(
                    old(self).from_space.word_at(start_ptr as int),
                    old(self).fc_mask,
                ) ==> #[trigger] final(self).to_space.obj_word(old(self).next as int, k) == old(self).from_space.obj_word(start_ptr as int, k),
            // The traversal order is pinned: when no child of the start
            // object needs copying, exactly one object was copied and only
            // the start object's first field changed in from-space; otherwise
            // the very next chain slot holds the copy of the last
            // not-yet-forwarded from-space child (with a null continuation,
            // only the second alternative of `chase_stage` can hold, which
            // says exactly that of the slot's header word).
            r is Ok && old(self).spec_chase_pick(
                start_ptr as int,
                spec_field_count(
                    old(self).from_space.word_at(start_ptr as int),
                    old(self).fc_mask,
                ) as int,
            ) == 0 ==> final(self).next == old(self).next + 8 + 8 * spec_field_count(
                old(self).from_space.word_at(start_ptr as int),
                old(self).fc_mask,
            ) && (forall|b: int|
                b % 8 == 0 && old(self).in_from(b) && b != start_ptr as int + 8
                    ==> #[trigger] final(self).from_space.word_at(b)
                    == old(self).from_space.word_at(b)),
            r is Ok && old(self).spec_chase_pick(
                start_ptr as int,
                spec_field_count(
                    old(self).from_space.word_at(start_ptr as int),
                    old(self).fc_mask,
                ) as int,
            ) != 0 ==> chase_stage(
                *old(self),
                *final(self),
                start_ptr,
                spec_field_count(
                    old(self).from_space.word_at(start_ptr as int),
                    old(self).fc_mask,
                ) as int,
                old(self).spec_chase_pick(
                    start_ptr as int,
                    spec_field_count(
                        old(self).from_space.word_at(start_ptr as int),
                        old(self).fc_mask,
                    ) as int,
                ),
                0,
            ) && final(self).next >= old(self).next + 16 + 8 * spec_field_count(
                old(self).from_space.word_at(start_ptr as int),
                old(self).fc_mask,
            ),
            // unless the walk doubles back on its start object (a child
            // field holding the object's own address), the forwarding
            // pointer installed into the start object's first field is the
            // address of its verbatim copy
            r is Ok && old(self).spec_chase_pick(
                start_ptr as int,
                spec_field_count(
                    old(self).from_space.word_at(start_ptr as int),
                    old(self).fc_mask,
                ) as int,
            ) as int != start_ptr as int ==> final(self).from_space.word_at(start_ptr as int + 8)
                == old(self).next,
            r is Err ==> r == Err::<(), GcError>(GcError::OutOfMemory) && final(self).spec_free() < final(self).max_obj_bytes(),
    {
        let ghost pre = *self;
        let ghost fc0 = spec_field_count(
            pre.from_space.word_at(start_ptr as int),
            pre.fc_mask,
        ) as int;
        let ghost pick0 = pre.spec_chase_pick(start_ptr as int, fc0);
        proof {
            Self::lemma_pick_in_from(pre, start_ptr as int, fc0);
        }
        let mut p = start_ptr;
        let mut more = true;
        while more
            invariant
                self.wf(),
                self.gc_in_progress,
                more ==> self.from_obj_ok(p as int),
                more && pick0 == 0 ==> *self == pre && p == start_ptr,
                !more && pick0 == 0 ==> self.next == pre.next + 8 + 8 * fc0 && (forall|b: int|
                    b % 8 == 0 && pre.in_from(b) && b != start_ptr as int + 8
                        ==> #[trigger] self.from_space.word_at(b) == pre.from_space.word_at(b)),
                !more ==> p == 0,
                *self == pre || pick0 as int == start_ptr as int || self.from_space.word_at(
                    start_ptr as int + 8,
                ) == pre.next,
                more && *self != pre && pick0 as int != start_ptr as int ==> p as int
                    != start_ptr as int,
                self.from_space.start == pre.from_space.start,
                self.from_space.words@.len() == pre.from_space.words@.len(),
                self.to_space.start == pre.to_space.start,
                self.to_space.words@.len() == pre.to_space.words@.len(),
                self.roots == pre.roots,
                self.scan == pre.scan,
                self.limit == pre.limit,
                self.stats == pre.stats,
                self.tag_mask == pre.tag_mask,
                self.fc_mask == pre.fc_mask,
                self.next >= pre.next,
                forall|b: int|
                    b % 8 == 0 && pre.to_space.start <= b < pre.next
                        ==> #[trigger] self.to_space.word_at(b) == pre.to_space.word_at(b),
                forall|b: int|
                    b % 8 == 0 && pre.in_from(b) ==> #[trigger] self.from_space.word_at(b)
                        == pre.from_space.word_at(b) || self.in_to(
                        self.from_space.word_at(b) as int,
                    ),
                forall|o: int|
                    region_member(
                        pre.to_space,
                        pre.fc_mask,
                        pre.to_space.start as int,
                        pre.next as int,
                        o,
                    ) ==> region_member(
                        self.to_space,
                        self.fc_mask,
                        self.to_space.start as int,
                        self.next as int,
                        o,
                    ),
                (*self == pre && p == start_ptr) || (self.next >= pre.next + 8 + 8 * fc0
                    && self.in_to(pre.next as int) && self.in_to(
                    self.from_space.word_at(start_ptr as int + 8) as int,
                ) && forall|k: int|
                    0 <= k <= fc0 ==> #[trigger] self.to_space.obj_word(pre.next as int, k)
                        == pre.from_space.obj_word(start_ptr as int, k)),
                *self == pre || pick0 == 0 || chase_stage(pre, *self, start_ptr, fc0, pick0, p),
            decreases self.limit - self.next,
        {
            let ghost it = *self;
            let header = self.from_space.load(p);
            let sz = obj_bytes_of(header, self.fc_mask);
            let fc = field_count_of(header, self.fc_mask);
            if self.limit - self.next < sz {
                return Err(GcError::OutOfMemory);
            }
            let wr = self.next;
            proof {
                it.lemma_spaces_disjoint();
                assert(it.to_space.spec_contains(wr as int));
            }
            self.to_space.store(wr, header);
            let next_p = self.copy_object_fields(p, wr, header, fc, Ghost(it));
            // Install the forwarding pointer into the original's first field,
            // then account for the finished copy as one more chain object.
            proof {
                crate::space::lemma_slot_aligned(p as int, 0);
            }
            self.from_space.store(p + 8, wr);
            self.next = wr + sz;
            proof {
                if it == pre {
                    assert(next_p == pick0);
                }
                Self::lemma_chase_iter(
                    pre,
                    it,
                    *self,
                    start_ptr,
                    p,
                    wr,
                    header,
                    fc,
                    sz,
                    fc0,
                    pick0,
                    next_p,
                );
                // the start object's forwarding pointer is its copy's
                // address, and stays so: later steps never pick the start
                // object again, because its first field is already a
                // to-space pointer
                if pick0 as int != start_ptr as int {
                    if it == pre {
                        assert(self.from_space.word_at(start_ptr as int + 8) == pre.next);
                        assert(next_p == pick0);
                    } else {
                        assert(self.from_space.word_at(start_ptr as int + 8)
                            == it.from_space.word_at(start_ptr as int + 8));
                        Self::lemma_pick_in_from(it, p as int, fc as int);
                        if next_p as int == start_ptr as int {
                            assert(!it.in_to(it.from_space.word_at(start_ptr as int + 8) as int));
                            assert(it.in_to(pre.next as int));
                            assert(false);
                        }
                    }
                }
            }
            p = next_p;
            more = next_p != 0;
        }
        proof {
            reveal(chase_stage);
            if pick0 != 0 {
                assert(chase_stage(pre, *self, start_ptr, fc0, pick0, p));
                assert(self.next >= pre.next + 16 + 8 * fc0);
            }
        }
        Ok(())
    }

    /// Containment of the root set survives any step that only installs
    /// to-space values into from-space words (or releases the from-space
    /// altogether).
    proof fn lemma_roots_still_contained(pre: Gc, post: Gc)
        requires
            pre.wf(),
            pre.gc_in_progress,
            pre.roots_contained(),
            post.roots == pre.roots,
            post.to_space.start == pre.to_space.start,
            post.to_space.words@.len() == pre.to_space.words@.len(),
            post.from_space.start == pre.from_space.start || post.from_space.start == 0,
            post.from_space.words@.len() == pre.from_space.words@.len()
                || post.from_space.start == 0,
            post.from_space.start == 0 ==> post.from_space.words@.len() == 0,
            post.fc_mask == pre.fc_mask,
            post.from_space.start != 0 ==> forall|b: int|
                b % 8 == 0 && pre.in_from(b) ==> #[trigger] post.from_space.word_at(b)
                    == pre.from_space.word_at(b) || post.in_to(post.from_space.word_at(b) as int),
        ensures
            post.roots_contained(),
    {
        assert forall|i: int|
            0 <= i < post.roots@.len() implies post.root_ok((#[trigger] post.roots@[i]) as int) by {
            let rv = post.roots@[i] as int;
            assert(pre.root_ok((pre.roots@[i]) as int));
            assert(pre.from_ptr_ok((pre.roots@[i]) as int));
            if post.in_from(rv) {
                assert(pre.in_from(rv));
                assert(pre.from_obj_ok(rv));
                assert(pre.in_from(rv + 8));
            }
        }
    }

    /// Starts a new GC cycle: swaps the semi-spaces (allocating the other
    /// space, since the previous from-space was released when the last cycle
    /// ended), resets `scan`, `next` and `limit`, and forwards every root in
    /// place, so that every root refers to to-space.
    #[verifier::loop_isolation(false)]
    #[verifier::spinoff_prover]
    fn begin_gc(&mut self) -> (r: Result<(), GcError>)
        requires
            old(self).wf(),
            !old(self).gc_in_progress,
            old(self).collect_ready(),
        ensures
            final(self).wf(),
            final(self).gc_in_progress,
            final(self).tag_mask == old(self).tag_mask,
            final(self).fc_mask == old(self).fc_mask,
            final(self).stats == (Stats {
                gc_cycles: old(self).stats.gc_cycles.saturating_add(1),
                ..old(self).stats
            }),
            final(self).from_space.start == old(self).to_space.start,
            final(self).from_space.spec_size() == old(self).to_space.spec_size(),
            final(self).to_space.spec_size() == old(self).to_space.spec_size(),
            final(self).limit == final(self).to_space.spec_end(),
            final(self).scan == final(self).to_space.start,
            final(self).roots@.len() == old(self).roots@.len(),
            r is Ok ==> final(self).roots_contained(),
            r is Ok ==> forall|i: int|
                0 <= i < final(self).roots@.len() ==> !final(self).in_from(
                    (#[trigger] final(self).roots@[i]) as int,
                ) && (final(self).in_to(final(self).roots@[i] as int) || final(self).roots@[i]
                    == old(self).roots@[i]),
            r is Err ==> r == Err::<(), GcError>(GcError::OutOfMemory) && final(self).spec_free() < final(self).max_obj_bytes(),
    {
        self.gc_in_progress = true;
        self.stats.gc_cycles = self.stats.gc_cycles.saturating_add(1);
        let new_size = self.to_space.size();
        let ghost pre = *self;
        core::mem::swap(&mut self.from_space, &mut self.to_space);
        if self.to_space.size() != new_size {
            let base = if self.from_space.start == SPACE_A_START {
                SPACE_B_START
            } else {
                SPACE_A_START
            };
            self.to_space = Space::create(new_size, base);
        }
        self.next = self.to_space.start;
        self.scan = self.to_space.start;
        self.limit = self.to_space.end();
        proof {
            // The mutator's pre-collection discipline becomes the from-space
            // discipline of the fresh cycle.
            assert forall|i: int|
                0 <= i < self.from_space.words@.len() implies self.from_ptr_ok(
                (#[trigger] self.from_space.words@[i]) as int,
            ) by {
                assert(pre.to_ptr_ok((pre.to_space.words@[i]) as int));
            }
            assert forall|i: int|
                0 <= i < self.roots@.len() implies self.from_ptr_ok(
                (#[trigger] self.roots@[i]) as int,
            ) by {
                assert(pre.to_ptr_ok((pre.roots@[i]) as int));
            }
            assert(region_objs(
                self.to_space,
                self.fc_mask,
                self.to_space.start as int,
                self.next as int,
            ));
            assert(self.cycle_inv());
            assert(self.wf());
        }
        // Forward every root in place: load, forward, write back.
        let ghost swapped = *self;
        let count = self.roots.len();
        let mut fresh: Vec<usize> = Vec::new();
        let mut i: usize = 0;
        while i < count
            invariant
                self.wf(),
                self.gc_in_progress,
                i <= count,
                fresh@.len() == i as int,
                count == self.roots@.len(),
                self.roots == swapped.roots,
                self.stats == swapped.stats,
                self.scan == swapped.scan,
                self.limit == swapped.limit,
                self.next >= swapped.next,
                self.tag_mask == swapped.tag_mask,
                self.fc_mask == swapped.fc_mask,
                self.to_space.start == swapped.to_space.start,
                self.to_space.words@.len() == swapped.to_space.words@.len(),
                self.from_space.start == swapped.from_space.start,
                self.from_space.words@.len() == swapped.from_space.words@.len(),
                forall|j: int|
                    0 <= j < i as int ==> !self.in_from((#[trigger] fresh@[j]) as int) && (
                    self.in_to(fresh@[j] as int) || fresh@[j] == self.roots@[j]) && self.root_ok(
                        fresh@[j] as int,
                    ),
            decreases count - i,
        {
            let rootv = self.roots[i];
            proof {
                assert(self.from_ptr_ok((self.roots@[i as int]) as int));
            }
            let ghost st = *self;
            let fwd = match self.forward(ObjPtr(rootv)) {
                Ok(v) => v,
                Err(e) => { return Err(e); },
            };
            fresh.push(fwd.0);
            proof {
                assert forall|j: int|
                    0 <= j < i as int + 1 implies !self.in_from((#[trigger] fresh@[j]) as int) && (
                    self.in_to(fresh@[j] as int) || fresh@[j] == self.roots@[j]) && self.root_ok(
                        fresh@[j] as int,
                    ) by {
                    if j < i as int {
                        assert(!st.in_from((fresh@[j]) as int));
                        if st.in_from(fresh@[j] as int) {
                        }
                        assert(st.root_ok(fresh@[j] as int) ==> self.root_ok(fresh@[j] as int));
                    }
                }
            }
            i = i + 1;
        }
        self.roots = fresh;
        proof {
            assert forall|i2: int|
                0 <= i2 < self.roots@.len() implies self.from_ptr_ok(
                (#[trigger] self.roots@[i2]) as int,
            ) by {}
            assert(self.cycle_inv());
        }
        Ok(())
    }

    /// Forwards a pointer from the from-space to the to-space if necessary.
    ///
    /// Returns a pointer to the forwarded object, or `ptr` unchanged if
    /// forwarding is not applicable (null, unmanaged and already-to-space
    /// pointers). The result never points into the from-space, and
    /// forwarding a pointer that is not in the from-space changes nothing -
    /// so forwarding twice returns what forwarding once does.
    #[verifier::spinoff_prover]
    pub fn forward(&mut self, ptr: ObjPtr) -> (r: Result<ObjPtr, GcError>)
        requires
            old(self).wf(),
            old(self).gc_in_progress,
            old(self).from_ptr_ok(ptr.0 as int),
        ensures
            final(self).wf(),
            final(self).gc_in_progress,
            final(self).from_space.start == old(self).from_space.start,
            final(self).from_space.spec_size() == old(self).from_space.spec_size(),
            final(self).to_space.start == old(self).to_space.start,
            final(self).to_space.spec_size() == old(self).to_space.spec_size(),
            final(self).roots == old(self).roots,
            final(self).scan == old(self).scan,
            final(self).limit == old(self).limit,
            final(self).stats == old(self).stats,
            final(self).tag_mask == old(self).tag_mask,
            final(self).fc_mask == old(self).fc_mask,
            final(self).next >= old(self).next,
            forall|b: int|
                b % 8 == 0 && old(self).to_space.start <= b < old(self).next
                    ==> #[trigger] final(self).to_space.word_at(b) == old(self).to_space.word_at(
                    b,
                ),
            forall|b: int|
                b % 8 == 0 && old(self).in_from(b) ==> #[trigger] final(self).from_space.word_at(b)
                    == old(self).from_space.word_at(b) || final(self).in_to(
                    final(self).from_space.word_at(b) as int,
                ),
            forall|o: int|
                region_member(
                    old(self).to_space,
                    old(self).fc_mask,
                    old(self).to_space.start as int,
                    old(self).next as int,
                    o,
                ) ==> region_member(
                    final(self).to_space,
                    final(self).fc_mask,
                    final(self).to_space.start as int,
                    final(self).next as int,
                    o,
                ),
            !old(self).in_from(ptr.0 as int) ==> r == Ok::<ObjPtr, GcError>(ptr) && *final(self)
                == *old(self),
            r matches Ok(v) ==> !final(self).in_from(v.0 as int),
            r matches Ok(v) ==> (old(self).in_from(ptr.0 as int) ==> final(self).in_to(v.0 as int)
                && v.0 == final(self).from_space.word_at(ptr.0 as int + 8)),
            old(self).in_from(ptr.0 as int) && old(self).in_to(
                old(self).from_space.word_at(ptr.0 as int + 8) as int,
            ) ==> r == Ok::<ObjPtr, GcError>(
                ObjPtr(old(self).from_space.word_at(ptr.0 as int + 8)),
            ) && *final(self) == *old(self),
            // forwarding an object that was not yet forwarded copies it
            // verbatim to `old(next)`, and (unless the walk doubles back on
            // it) that copy's address is what is returned
            r matches Ok(v) ==> (old(self).in_from(ptr.0 as int) && !old(self).in_to(
                old(self).from_space.word_at(ptr.0 as int + 8) as int,
            ) ==> (forall|k: int|
                0 <= k <= spec_field_count(
                    old(self).from_space.word_at(ptr.0 as int),
                    old(self).fc_mask,
                ) ==> #[trigger] final(self).to_space.obj_word(old(self).next as int, k)
                    == old(self).from_space.obj_word(ptr.0 as int, k)) && (old(
                self,
            ).spec_chase_pick(
                ptr.0 as int,
                spec_field_count(
                    old(self).from_space.word_at(ptr.0 as int),
                    old(self).fc_mask,
                ) as int,
            ) as int != ptr.0 as int ==> v.0 == old(self).next)),
            r is Err ==> r == Err::<ObjPtr, GcError>(GcError::OutOfMemory) && final(self).spec_free() < final(self).max_obj_bytes() && old(self).in_from(ptr.0 as int),
    {
        proof {
            self.lemma_spaces_disjoint();
        }
        if self.from_space.contains(ptr.0) {
            let first = self.from_space.load(ptr.0 + 8);
            if self.to_space.contains(first) {
                return Ok(ObjPtr(first));
            }
            match self.chase(ptr.0) {
                Ok(()) => {
                    let fwd = self.from_space.load(ptr.0 + 8);
                    proof {
                        self.lemma_spaces_disjoint();
                    }
                    Ok(ObjPtr(fwd))
                },
                Err(e) => Err(e),
            }
        } else {
            Ok(ptr)
        }
    }

    /// Forwards every field of the copied-but-unscanned object at `q` (the
    /// head of the scan chain), writing each forwarded pointer back into the
    /// field slot. To-space words below the caller's `next` and outside this
    /// object's field slots are untouched.
    #[verifier::spinoff_prover]
    #[verifier::rlimit(100)]
    #[verifier::loop_isolation(false)]
    fn scan_object_fields(
        &mut self,
        q: usize,
        header: usize,
        fc: usize,
        sz: usize,
    ) -> (r: Result<(), GcError>)
        requires
            old(self).wf(),
            old(self).gc_in_progress,
            q == old(self).scan,
            header == old(self).to_space.word_at(q as int),
            fc == spec_field_count(header, old(self).fc_mask),
            sz == 8 + 8 * fc,
            q as int + sz <= old(self).next,
        ensures
            final(self).wf(),
            final(self).gc_in_progress,
            final(self).to_space.start == old(self).to_space.start,
            final(self).to_space.words@.len() == old(self).to_space.words@.len(),
            final(self).from_space.start == old(self).from_space.start,
            final(self).from_space.words@.len() == old(self).from_space.words@.len(),
            final(self).roots == old(self).roots,
            final(self).scan == old(self).scan,
            final(self).limit == old(self).limit,
            final(self).stats == old(self).stats,
            final(self).tag_mask == old(self).tag_mask,
            final(self).fc_mask == old(self).fc_mask,
            final(self).next >= old(self).next,
            final(self).to_space.word_at(q as int) == header,
            forall|b: int|
                b % 8 == 0 && old(self).to_space.spec_contains(b) && (b <= q as int || b >= q as int + sz) && b < old(self).next ==> #[trigger] final(self).to_space.word_at(b)
                    == old(self).to_space.word_at(b),
            forall|b: int|
                b % 8 == 0 && old(self).in_from(b) ==> #[trigger] final(self).from_space.word_at(b)
                    == old(self).from_space.word_at(b) || final(self).in_to(
                    final(self).from_space.word_at(b) as int,
                ),
            r is Err ==> r == Err::<(), GcError>(GcError::OutOfMemory) && final(self).spec_free()
                < final(self).max_obj_bytes(),
    {
        let ghost ent = *old(self);
        let mut idx: usize = 0;
        while idx < fc
            invariant
                idx <= fc,
                self.wf(),
                self.gc_in_progress,
                q == self.scan,
                self.to_space.word_at(q as int) == header,
                self.to_space.start == ent.to_space.start,
                self.to_space.words@.len() == ent.to_space.words@.len(),
                self.from_space.start == ent.from_space.start,
                self.from_space.words@.len() == ent.from_space.words@.len(),
                self.roots == ent.roots,
                self.limit == ent.limit,
                self.stats == ent.stats,
                self.tag_mask == ent.tag_mask,
                self.fc_mask == ent.fc_mask,
                self.next >= ent.next,
                forall|b: int|
                    b % 8 == 0 && ent.to_space.spec_contains(b) && (b <= q as int || b >= q as int + sz)
                        && b < ent.next ==> #[trigger] self.to_space.word_at(b)
                        == ent.to_space.word_at(b),
                forall|b: int|
                    b % 8 == 0 && ent.in_from(b) ==> #[trigger] self.from_space.word_at(b)
                        == ent.from_space.word_at(b) || self.in_to(
                        self.from_space.word_at(b) as int,
                    ),
            decreases fc - idx,
        {
            let ghost st = *self;
            let slot = q + 8 + 8 * idx;
            proof {
                crate::space::lemma_slot_aligned(q as int, idx as int);
            }
            let fval = self.to_space.load(slot);
            proof {
                // the field value is a word of the copied region, so it
                // respects the from-space
                lemma_word_lookup(self.to_space, slot as int);
                crate::space::lemma_word_offset(self.to_space.start as int, self.next as int);
                assert(8 * self.to_space.word_index(slot as int) == slot as int
                    - self.to_space.start);
                assert(self.to_space.words@[self.to_space.word_index(slot as int)] == fval);
            }
            let fwd = match self.forward(ObjPtr(fval)) {
                Ok(v) => v,
                Err(e) => { return Err(e); },
            };
            let ghost mid = *self;
            self.to_space.store(slot, fwd.0);
            proof {
                let base = self.to_space.start as int;
                let fcm = self.fc_mask;
                let hi = mid.next as int;
                lemma_region_store(
                    mid.to_space,
                    self.to_space,
                    fcm,
                    base,
                    hi,
                    q as int,
                    slot as int,
                );
                assert forall|i: int|
                    0 <= i < self.to_space.word_index(hi) implies self.from_ptr_ok(
                    (#[trigger] self.to_space.words@[i]) as int,
                ) by {
                    lemma_word_lookup(self.to_space, slot as int);
                    if i == self.to_space.word_index(slot as int) {
                        assert(self.to_space.words@[i] == fwd.0);
                    } else {
                        assert(self.to_space.words@[i] == mid.to_space.words@[i]);
                        assert(mid.from_ptr_ok((mid.to_space.words@[i]) as int));
                    }
                }
                assert(self.cycle_inv());
                assert forall|b: int|
                    b % 8 == 0 && ent.in_from(b) implies self.from_space.word_at(b)
                    == ent.from_space.word_at(b) || self.in_to(
                    self.from_space.word_at(b) as int,
                ) by {
                    assert(st.from_space.word_at(b) == ent.from_space.word_at(b) || st.in_to(
                        st.from_space.word_at(b) as int,
                    ));
                    assert(self.from_space.word_at(b) == st.from_space.word_at(b) || self.in_to(
                        self.from_space.word_at(b) as int,
                    ));
                }
                assert forall|b: int|
                    b % 8 == 0 && ent.to_space.spec_contains(b) && (b <= q as int || b >= q as int + sz)
                        && b < ent.next implies self.to_space.word_at(b) == ent.to_space.word_at(
                    b,
                ) by {
                    assert(st.to_space.word_at(b) == ent.to_space.word_at(b));
                    assert(mid.to_space.word_at(b) == st.to_space.word_at(b));
                    assert(self.to_space.word_at(b) == mid.to_space.word_at(b));
                }
            }
            idx = idx + 1;
        }
        Ok(())
    }

    /// Continues the current cycle by scanning roughly `n` bytes: forwards
    /// every field of each copied-but-unscanned object, advancing `scan`
    /// until the budget `scan + n` is spent or the copied region is drained.
    /// Draining ends the cycle and releases the from-space. The scan pointer
    /// advances by at most `n` plus one maximal object.
    #[verifier::loop_isolation(false)]
    #[verifier::rlimit(100)]
    #[verifier::spinoff_prover]
    fn run_gc(&mut self, n: usize) -> (r: Result<(), GcError>)
        requires
            old(self).wf(),
            old(self).gc_in_progress,
            n <= SPACE_BYTES_MAX,
        ensures
            final(self).wf(),
            final(self).to_space.start == old(self).to_space.start,
            final(self).to_space.spec_size() == old(self).to_space.spec_size(),
            final(self).from_space.start == old(self).from_space.start
                || final(self).from_space.start == 0,
            final(self).roots == old(self).roots,
            final(self).limit == old(self).limit,
            final(self).stats == old(self).stats,
            final(self).tag_mask == old(self).tag_mask,
            final(self).fc_mask == old(self).fc_mask,
            final(self).next >= old(self).next,
            final(self).scan >= old(self).scan,
            final(self).scan <= old(self).scan + n + old(self).max_obj_bytes(),
            // exact incremental-work bound: either the copied region is
            // drained, or the scan pointer rests at the end of an object it
            // scanned whose header it started within the budget
            r is Ok ==> final(self).scan == final(self).next || (exists|a: int|
                old(self).scan <= a <= old(self).scan + n && final(self).scan == a
                    + spec_obj_bytes(#[trigger] final(self).to_space.word_at(a), final(self).fc_mask)),
            old(self).roots_contained() ==> final(self).roots_contained(),
            final(self).from_space.start != 0 ==> final(self).from_space.spec_size()
                == old(self).from_space.spec_size(),
            // scanning is owed: the call either spends more than its budget
            // or drains the copied region outright
            r is Ok ==> final(self).scan > old(self).scan + n
                || final(self).scan == final(self).next,
            r is Ok ==> (final(self).gc_in_progress <==> final(self).scan < final(self).next),
            r is Ok && !final(self).gc_in_progress ==> final(self).from_space.start == 0,
            r is Err ==> r == Err::<(), GcError>(GcError::OutOfMemory)
                && final(self).gc_in_progress && final(self).spec_free() < final(self).max_obj_bytes(),
    {
        let ghost pre = *self;
        let ghost mut last_q: int = 0;
        let ghost mut last_h: usize = 0;
        let target = self.scan + n;
        while self.scan < self.next
            invariant
                self.wf(),
                self.gc_in_progress,
                self.to_space.start == pre.to_space.start,
                self.to_space.words@.len() == pre.to_space.words@.len(),
                self.from_space.start == pre.from_space.start,
                self.from_space.words@.len() == pre.from_space.words@.len(),
                self.roots == pre.roots,
                self.limit == pre.limit,
                self.stats == pre.stats,
                self.tag_mask == pre.tag_mask,
                self.fc_mask == pre.fc_mask,
                self.next >= pre.next,
                self.scan >= pre.scan,
                self.scan <= target + self.max_obj_bytes(),
                self.scan > pre.scan ==> last_q % 8 == 0 && pre.scan <= last_q
                    <= target && self.to_space.spec_contains(last_q) && self.scan == last_q
                    + spec_obj_bytes(last_h, self.fc_mask) && self.to_space.word_at(last_q)
                    == last_h,
                forall|b: int|
                    b % 8 == 0 && pre.in_from(b) ==> #[trigger] self.from_space.word_at(b)
                        == pre.from_space.word_at(b) || self.in_to(
                        self.from_space.word_at(b) as int,
                    ),
            decreases self.limit - self.scan,
        {
            if self.scan > target {
                proof {
                    if pre.roots_contained() {
                        Self::lemma_roots_still_contained(pre, *self);
                    }
                    assert(self.scan > pre.scan);
                    assert(self.scan == last_q + spec_obj_bytes(
                        self.to_space.word_at(last_q),
                        self.fc_mask,
                    ));
                }
                return Ok(());
            }
            proof {
                lemma_region_suffix(
                    self.to_space,
                    self.fc_mask,
                    self.to_space.start as int,
                    self.next as int,
                    self.scan as int,
                );
            }
            let q = self.scan;
            let header = self.to_space.load(q);
            let fc = field_count_of(header, self.fc_mask);
            let sz = obj_bytes_of(header, self.fc_mask);
            let ghost st = *self;
            match self.scan_object_fields(q, header, fc, sz) {
                Ok(()) => {},
                Err(e) => {
                    proof {
                        if pre.roots_contained() {
                            Self::lemma_roots_still_contained(pre, *self);
                        }
                        assert forall|b: int|
                            b % 8 == 0 && pre.in_from(b) implies self.from_space.word_at(b)
                            == pre.from_space.word_at(b) || self.in_to(
                            self.from_space.word_at(b) as int,
                        ) by {
                            assert(st.from_space.word_at(b) == pre.from_space.word_at(b)
                                || st.in_to(st.from_space.word_at(b) as int));
                            assert(self.from_space.word_at(b) == st.from_space.word_at(b)
                                || self.in_to(self.from_space.word_at(b) as int));
                        }
                    }
                    return Err(e);
                },
            }
            proof {
                assert forall|b: int|
                    b % 8 == 0 && pre.in_from(b) implies self.from_space.word_at(b)
                    == pre.from_space.word_at(b) || self.in_to(
                    self.from_space.word_at(b) as int,
                ) by {
                    assert(st.from_space.word_at(b) == pre.from_space.word_at(b) || st.in_to(
                        st.from_space.word_at(b) as int,
                    ));
                    assert(self.from_space.word_at(b) == st.from_space.word_at(b) || self.in_to(
                        self.from_space.word_at(b) as int,
                    ));
                }
                if self.scan > pre.scan {
                    assert(self.to_space.word_at(last_q) == st.to_space.word_at(last_q));
                }
            }
            proof {
                lemma_region_next_member(
                    self.to_space,
                    self.fc_mask,
                    self.to_space.start as int,
                    self.next as int,
                    self.scan as int,
                );
                last_q = q as int;
                last_h = header;
            }
            self.scan = q + sz;
        }
        self.gc_in_progress = false;
        self.from_space = Space::default();
        proof {
            if pre.roots_contained() {
                Self::lemma_roots_still_contained(pre, *self);
            }
        }
        Ok(())
    }

    /// Allocates a new object of the given size, rounded up to the
    /// alignment.
    ///
    /// Outside a cycle the fast path bumps `next` (the free-space comparison
    /// is strict, preserving the allocator's historical behaviour); when the
    /// fast path fails a cycle begins. During a cycle objects are carved
    /// from the high end at `limit`, and each allocation funds a
    /// proportional amount of scanning, which ends the cycle once the copied
    /// region is drained. The returned pointer is always aligned, points
    /// into to-space, and leaves room for the whole rounded request.
    ///
    /// Fails with `OutOfMemory` exactly when an in-cycle reservation does
    /// not fit under `limit`, or when the copying walk itself runs out of
    /// room.
    #[verifier::rlimit(100)]
    #[verifier::spinoff_prover]
    pub fn allocate(&mut self, size: usize) -> (r: Result<ObjPtr, GcError>)
        requires
            old(self).wf(),
            1 <= size <= usize::MAX - 7,
            !old(self).gc_in_progress && (old(self).limit == 0 || old(self).next + spec_align_up(
                size as int,
                8,
            ) >= old(self).limit) ==> old(self).collect_ready(),
        ensures
            final(self).wf(),
            final(self).tag_mask == old(self).tag_mask,
            final(self).fc_mask == old(self).fc_mask,
            final(self).roots@.len() == old(self).roots@.len(),
            stats_le(old(self).stats, final(self).stats),
            old(self).roots_contained() && old(self).gc_in_progress ==> final(self).roots_contained(),
            // every returned pointer is aligned and leaves room in to-space
            r matches Ok(v) ==> v.0 % ALIGNMENT == 0 && v.0 != 0 && final(self).in_to(v.0 as int)
                && v.0 + spec_align_up(size as int, 8) <= final(self).to_space.spec_end(),
            // success bumps the two allocation counters and refreshes the
            // high-water mark
            r is Ok ==> final(self).stats == (Stats {
                all_time_allocated: old(self).stats.all_time_allocated.saturating_add(
                    spec_align_up(size as int, 8) as usize,
                ),
                all_time_allocated_objs: old(self).stats.all_time_allocated_objs.saturating_add(1),
                max_used: final(self).stats.max_used,
                gc_cycles: final(self).stats.gc_cycles,
                ..old(self).stats
            }) && final(self).stats.max_used >= final(self).spec_used(),
            // the fast path: idle, and the rounded request fits strictly
            !old(self).gc_in_progress && old(self).limit != 0 && old(self).next + spec_align_up(
                size as int,
                8,
            ) < old(self).limit ==> r == Ok::<ObjPtr, GcError>(ObjPtr(old(self).next)) && final(self).next == old(self).next + spec_align_up(size as int, 8) && final(self).to_space
                == old(self).to_space && final(self).from_space == old(self).from_space && final(self).roots == old(self).roots && final(self).scan == old(self).scan && final(self).limit
                == old(self).limit && !final(self).gc_in_progress && final(self).stats.gc_cycles
                == old(self).stats.gc_cycles,
            // the fast path failing starts (and counts) a cycle; the
            // triggering allocation is carved from the top of the fresh
            // to-space, and every root leaves the from-space (forwarded into
            // to-space, or untouched because it was never managed)
            !old(self).gc_in_progress && !(old(self).limit != 0 && old(self).next + spec_align_up(
                size as int,
                8,
            ) < old(self).limit) ==> final(self).stats.gc_cycles == old(self).stats.gc_cycles.saturating_add(1)
                && (r matches Ok(v) ==> v.0 == final(self).limit && final(self).limit
                + spec_align_up(size as int, 8) == final(self).to_space.spec_end()),
            !old(self).gc_in_progress && r is Ok ==> final(self).roots_contained() && forall|
                i: int,
            |
                0 <= i < final(self).roots@.len() ==> !final(self).in_from(
                    (#[trigger] final(self).roots@[i]) as int,
                ) && (final(self).in_to(final(self).roots@[i] as int) || final(self).roots@[i]
                    == old(self).roots@[i]),
            // in-cycle reservation comes from the high end and is exact
            old(self).gc_in_progress ==> final(self).stats.gc_cycles == old(self).stats.gc_cycles
                && (old(self).limit - old(self).next < spec_align_up(size as int, 8) ==> r == Err::<
                ObjPtr,
                GcError,
            >(GcError::OutOfMemory)) && (r is Ok ==> r == Ok::<ObjPtr, GcError>(
                ObjPtr((old(self).limit - spec_align_up(size as int, 8)) as usize),
            ) && final(self).limit == old(self).limit - spec_align_up(size as int, 8)),
            // bounded incremental work: scanning advances by at most the
            // rounded request plus one maximal object
            old(self).gc_in_progress ==> final(self).scan <= old(self).scan + spec_align_up(
                size as int,
                8,
            ) + old(self).max_obj_bytes() && final(self).scan >= old(self).scan,
            r is Err ==> r == Err::<ObjPtr, GcError>(GcError::OutOfMemory),
            // failure is owed only to an exhausted heap: either the free gap
            // cannot hold this request, or copying stopped because the gap
            // cannot hold even one more object
            r is Err ==> final(self).spec_free() < spec_align_up(size as int, 8) || final(self).spec_free() < final(self).max_obj_bytes(),
            r is Err ==> final(self).stats.all_time_allocated == old(self).stats.all_time_allocated && final(self).stats.all_time_allocated_objs == old(self).stats.all_time_allocated_objs,
    {
        let asize = align_up(size, ALIGNMENT);
        if !self.gc_in_progress {
            match self.alloc_at_next(asize) {
                Some(result) => {
                    self.register_alloc(asize);
                    return Ok(result);
                },
                None => {},
            }
            match self.begin_gc() {
                Ok(()) => {},
                Err(e) => { return Err(e); },
            }
        }
        if self.limit == 0 || self.next == 0 || self.limit - self.next < asize {
            return Err(GcError::OutOfMemory);
        }
        let result = self.limit - asize;
        self.limit = result;
        proof {
            assert(self.cycle_inv());
            assert(self.wf());
            assert(asize <= SPACE_BYTES_MAX);
        }
        match self.run_gc(asize) {
            Ok(()) => {},
            Err(e) => { return Err(e); },
        }
        self.register_alloc(asize);
        Ok(ObjPtr(result))
    }

    /// The field slot `i` of the object at `o` can go through the read
    /// barrier: a to-space slot which, while a cycle is underway, is either
    /// a field of one of the copied objects or part of an object allocated
    /// during the cycle (at or above `limit`) whose stored value respects
    /// the from-space.
    pub open spec fn barrier_slot_ok(self, o: int, i: int) -> bool {
        &&& o % 8 == 0
        &&& 0 <= i
        &&& self.in_to(o)
        &&& Self::slot_addr(o, i) + 8 <= self.to_space.spec_end()
        &&& self.gc_in_progress ==> ((region_member(
            self.to_space,
            self.fc_mask,
            self.to_space.start as int,
            self.next as int,
            o,
        ) && i < spec_field_count(self.to_space.word_at(o), self.fc_mask)) || (o >= self.limit
            && self.from_ptr_ok(self.to_space.word_at(Self::slot_addr(o, i)) as int)))
    }

    /// Reads the value of a field of an object, forwarding it (and writing
    /// the forwarded pointer back into the field) if a cycle is underway and
    /// the loaded value still points into the from-space. Counts every read;
    /// counts a barrier exactly when it forwards.
    #[verifier::rlimit(100)]
    #[verifier::spinoff_prover]
    pub fn read_barrier(&mut self, obj: ObjPtr, field_idx: usize) -> (r: Result<ObjPtr, GcError>)
        requires
            old(self).wf(),
            old(self).barrier_slot_ok(obj.0 as int, field_idx as int),
        ensures
            final(self).wf(),
            final(self).stats == (Stats {
                reads: old(self).stats.reads.saturating_add(1),
                read_barriers: if old(self).gc_in_progress && old(self).in_from(
                    old(self).slot_value(obj.0 as int, field_idx as int) as int,
                ) && r is Ok {
                    old(self).stats.read_barriers.saturating_add(1)
                } else {
                    old(self).stats.read_barriers
                },
                ..old(self).stats
            }),
            stats_le(old(self).stats, final(self).stats),
            final(self).roots == old(self).roots,
            final(self).gc_in_progress == old(self).gc_in_progress,
            final(self).scan == old(self).scan,
            final(self).limit == old(self).limit,
            final(self).tag_mask == old(self).tag_mask,
            final(self).fc_mask == old(self).fc_mask,
            !(old(self).gc_in_progress && old(self).in_from(
                old(self).slot_value(obj.0 as int, field_idx as int) as int,
            )) ==> r == Ok::<ObjPtr, GcError>(
                ObjPtr(old(self).slot_value(obj.0 as int, field_idx as int)),
            ) && final(self).to_space == old(self).to_space && final(self).from_space == old(self).from_space && final(self).next == old(self).next,
            r matches Ok(v) ==> !final(self).in_from(v.0 as int),
            // a firing barrier returns exactly the forwarded copy of the
            // loaded value: the pointer the from-space object's first field
            // was redirected to
            r matches Ok(v) ==> (old(self).gc_in_progress && old(self).in_from(
                old(self).slot_value(obj.0 as int, field_idx as int) as int,
            ) ==> final(self).in_to(v.0 as int) && final(self).slot_value(
                obj.0 as int,
                field_idx as int,
            ) == v.0 && v.0 == final(self).from_space.word_at(
                old(self).slot_value(obj.0 as int, field_idx as int) as int + 8,
            )),
            old(self).roots_contained() ==> final(self).roots_contained(),
            r is Err ==> r == Err::<ObjPtr, GcError>(GcError::OutOfMemory) && old(self).gc_in_progress && old(self).in_from(
                old(self).slot_value(obj.0 as int, field_idx as int) as int,
            ) && final(self).spec_free() < final(self).max_obj_bytes(),
    {
        self.stats.reads = self.stats.reads.saturating_add(1);
        proof {
            crate::space::lemma_slot_aligned(obj.0 as int, field_idx as int);
            self.lemma_spaces_disjoint();
        }
        let slot = obj.0 + 8 + 8 * field_idx;
        let v = self.to_space.load(slot);
        if self.gc_in_progress && self.from_space.contains(v) {
            let ghost st = *self;
            let ghost chain_member = region_member(
                st.to_space,
                st.fc_mask,
                st.to_space.start as int,
                st.next as int,
                obj.0 as int,
            ) && (field_idx as int) < spec_field_count(
                st.to_space.word_at(obj.0 as int),
                st.fc_mask,
            );
            proof {
                // the loaded value respects the from-space: either the slot
                // is part of the copied chain, or the caller vouches for it
                if chain_member {
                    lemma_region_suffix(
                        self.to_space,
                        self.fc_mask,
                        self.to_space.start as int,
                        self.next as int,
                        obj.0 as int,
                    );
                    lemma_word_lookup(self.to_space, slot as int);
                    crate::space::lemma_word_offset(self.to_space.start as int, self.next as int);
                    assert(self.to_space.words@[self.to_space.word_index(slot as int)] == v);
                }
            }
            let fwd = match self.forward(ObjPtr(v)) {
                Ok(x) => x,
                Err(e) => {
                    proof {
                        if st.roots_contained() {
                            Self::lemma_roots_still_contained(st, *self);
                        }
                    }
                    return Err(e);
                },
            };
            let ghost mid = *self;
            self.to_space.store(slot, fwd.0);
            proof {
                let base = self.to_space.start as int;
                let fcm = self.fc_mask;
                let hi = mid.next as int;
                if !chain_member {
                    // the slot lies at or above `limit`, beyond the chain
                    assert forall|c: int|
                        c % 8 == 0 && base <= c < hi implies mid.to_space.word_at(c)
                        == self.to_space.word_at(c) by {
                        assert(mid.to_space.spec_contains(c));
                    }
                    lemma_region_agree(mid.to_space, self.to_space, fcm, base, hi);
                    assert forall|i: int|
                        0 <= i < self.to_space.word_index(hi) implies self.from_ptr_ok(
                        (#[trigger] self.to_space.words@[i]) as int,
                    ) by {
                        lemma_word_lookup(mid.to_space, slot as int);
                        crate::space::lemma_word_offset(base, hi);
                        assert(8 * self.to_space.word_index(slot as int) == slot as int - base);
                        assert(self.to_space.words@[i] == mid.to_space.words@[i]);
                        assert(mid.from_ptr_ok((mid.to_space.words@[i]) as int));
                    }
                } else {
                    lemma_region_store(
                        mid.to_space,
                        self.to_space,
                        fcm,
                        base,
                        hi,
                        obj.0 as int,
                        slot as int,
                    );
                    assert forall|i: int|
                        0 <= i < self.to_space.word_index(hi) implies self.from_ptr_ok(
                        (#[trigger] self.to_space.words@[i]) as int,
                    ) by {
                        lemma_word_lookup(self.to_space, slot as int);
                        if i == self.to_space.word_index(slot as int) {
                            assert(self.to_space.words@[i] == fwd.0);
                        } else {
                            assert(self.to_space.words@[i] == mid.to_space.words@[i]);
                            assert(mid.from_ptr_ok((mid.to_space.words@[i]) as int));
                        }
                    }
                }
                assert(self.cycle_inv());
                if st.roots_contained() {
                    Self::lemma_roots_still_contained(st, *self);
                }
            }
            self.stats.read_barriers = self.stats.read_barriers.saturating_add(1);
            Ok(fwd)
        } else {
            Ok(ObjPtr(v))
        }
    }

    /// Whether the from-space object at `p` has been forwarded: its first
    /// field holds a to-space address. Objects elsewhere are never
    /// considered forwarded.
    pub open spec fn spec_is_forwarded(self, p: int) -> bool {
        let header = if self.in_from(p) {
            self.from_space.word_at(p)
        } else {
            self.to_space.word_at(p)
        };
        &&& spec_field_count(header, self.fc_mask) > 0
        &&& self.in_from(p)
        &&& self.in_to(self.from_space.word_at(p + 8) as int)
    }

    /// Returns `true` if `ptr` has been forwarded to the to-space.
    pub fn is_forwarded(&self, ptr: ObjPtr) -> (r: bool)
        requires
            self.wf(),
            self.in_from(ptr.0 as int) || self.in_to(ptr.0 as int),
            self.in_from(ptr.0 as int) ==> self.from_obj_ok(ptr.0 as int),
            self.in_to(ptr.0 as int) ==> ptr.0 % 8 == 0 && ptr.0 + 8 <= self.to_space.spec_end(),
        ensures
            r == self.spec_is_forwarded(ptr.0 as int),
    {
        proof {
            self.lemma_spaces_disjoint();
        }
        let header = if self.from_space.contains(ptr.0) {
            self.from_space.load(ptr.0)
        } else {
            self.to_space.load(ptr.0)
        };
        let field_count = field_count_of(header, self.fc_mask);
        field_count > 0 && self.from_space.contains(ptr.0) && {
            let fwd = self.from_space.load(ptr.0 + 8);
            self.to_space.contains(fwd)
        }
    }
}

} // verus!
