//! End-to-end scenarios for the collector: allocation, cycle triggering,
//! barriers, raw fields, exhaustion, and the root-stack checks.

use stella_gc::gc::{Gc, GcError, ObjPtr, SpaceClass, SPACE_A_START, SPACE_B_START};

const TAG_MASK: usize = 0xf;
const FC_MASK: usize = 0x30;

const TAG_ZERO: usize = 0;
const TAG_SUCC: usize = 1;
const TAG_TRUE: usize = 3;
const TAG_FN: usize = 4;
const TAG_CONS: usize = 11;

fn header(field_count: usize, tag: usize) -> usize {
    (field_count << 4) | tag
}

fn new_gc(size: usize) -> Gc {
    Gc::new(size, TAG_MASK, FC_MASK)
}

#[test]
fn no_gc_allocation() {
    // One 8-byte object with header (field_count = 0, tag = true).
    let mut gc = new_gc(1024);
    let p = gc.allocate(8).unwrap();
    assert_eq!(p, ObjPtr(SPACE_A_START));
    gc.store_header(p, header(0, TAG_TRUE));
    assert_eq!(gc.next, SPACE_A_START + 8);
    assert!(!gc.gc_in_progress);
    assert_eq!(gc.stats.gc_cycles, 0);
    assert_eq!(gc.used_memory(), 8);
}

#[test]
fn allocation_is_aligned() {
    let mut gc = new_gc(1024);
    for size in [1usize, 2, 7, 8, 9, 13, 16, 24] {
        let p = gc.allocate(size).unwrap();
        assert_eq!(p.0 % 8, 0);
        gc.store_header(p, header(0, TAG_ZERO));
    }
}

/// Builds the heap of the cycle-trigger scenario: A = cons(B, null),
/// B = succ(null), with A rooted, then fills the rest of the 64-byte space.
fn chain_heap() -> (Gc, ObjPtr, ObjPtr) {
    let mut gc = new_gc(64);
    let a = gc.allocate(24).unwrap();
    gc.store_header(a, header(2, TAG_CONS));
    let b = gc.allocate(16).unwrap();
    gc.store_header(b, header(1, TAG_SUCC));
    gc.store_field(a, 0, b);
    gc.store_field(a, 1, ObjPtr(0));
    gc.store_field(b, 0, ObjPtr(0));
    gc.push_root(a);
    (gc, a, b)
}

#[test]
fn cycle_preserves_rooted_chain() {
    let (mut gc, _a, _b) = chain_heap();
    // One unrooted filler still fits the fast path...
    let c = gc.allocate(16).unwrap();
    gc.store_header(c, header(0, TAG_ZERO));
    assert_eq!(gc.stats.gc_cycles, 0);
    // ...and the next allocation triggers a cycle.
    let d = gc.allocate(8).unwrap();
    gc.store_header(d, header(0, TAG_ZERO));
    assert_eq!(gc.stats.gc_cycles, 1);
    // The root was forwarded into the new to-space at once; the host reads
    // the forwarded value back through the accessor.
    assert_eq!(gc.root_count(), 1);
    let root = gc.root_at(0).0;
    assert!(gc.to_space.contains(root));
    assert_eq!(root, SPACE_B_START);
    // A and B survived: A's first field points at B's copy, in to-space.
    let b_copy = gc.load_field(ObjPtr(root), 0);
    assert!(gc.to_space.contains(b_copy.0));
    // Allocate until the cycle drains; the old space is then released.
    let mut guard = 0;
    while gc.gc_in_progress {
        let t = gc.allocate(8).unwrap();
        gc.store_header(t, header(0, TAG_ZERO));
        guard += 1;
        assert!(guard < 10, "the cycle should drain quickly");
    }
    assert_eq!(gc.stats.gc_cycles, 1);
    assert_eq!(gc.from_space.start, 0, "the unrooted filler went with the old space");
    assert!(gc.used_memory() >= 24 + 16, "the live chain survived");
    // Balanced pop returns the forwarded pointer.
    assert_eq!(gc.pop_root(ObjPtr(root)), Ok(ObjPtr(root)));
}

/// Builds a mid-cycle heap: chain R -> X -> Y rooted, space full, and a
/// small triggering allocation that scans only R's copy.
fn mid_cycle_heap() -> (Gc, ObjPtr) {
    let mut gc = new_gc(64);
    let r = gc.allocate(16).unwrap();
    gc.store_header(r, header(1, TAG_SUCC));
    let x = gc.allocate(16).unwrap();
    gc.store_header(x, header(1, TAG_SUCC));
    let y = gc.allocate(16).unwrap();
    gc.store_header(y, header(1, TAG_SUCC));
    gc.store_field(r, 0, x);
    gc.store_field(x, 0, y);
    gc.store_field(y, 0, ObjPtr(0));
    let filler = gc.allocate(8).unwrap();
    gc.store_header(filler, header(0, TAG_ZERO));
    gc.push_root(r);
    // Triggers the cycle; the 8-byte budget scans only R's copy.
    let t = gc.allocate(8).unwrap();
    gc.store_header(t, header(0, TAG_ZERO));
    (gc, t)
}

#[test]
fn read_barrier_forwards_lazily() {
    let (mut gc, _t) = mid_cycle_heap();
    assert!(gc.gc_in_progress);
    assert_eq!(gc.scan, SPACE_B_START + 16, "exactly R's copy was scanned");
    let reads_before = gc.stats.reads;
    assert_eq!(gc.stats.read_barriers, 0);
    // X's copy still holds the old from-space pointer to Y.
    let x_copy = ObjPtr(SPACE_B_START + 16);
    let stale = gc.load_field(x_copy, 0);
    assert!(gc.from_space.contains(stale.0));
    // The barrier forwards it, writes it back, and counts itself.
    let fresh = gc.read_barrier(x_copy, 0).unwrap();
    assert!(gc.to_space.contains(fresh.0));
    assert_eq!(gc.load_field(x_copy, 0), fresh);
    assert_eq!(gc.stats.reads, reads_before + 1);
    assert_eq!(gc.stats.read_barriers, 1);
    // Reading again is now barrier-free and returns the same pointer.
    let again = gc.read_barrier(x_copy, 0).unwrap();
    assert_eq!(again, fresh);
    assert_eq!(gc.stats.read_barriers, 1);
}

#[test]
fn forward_is_idempotent() {
    let (mut gc, _t) = mid_cycle_heap();
    assert!(gc.gc_in_progress);
    // Y is still unforwarded in from-space; forward it twice.
    let x_copy = ObjPtr(SPACE_B_START + 16);
    let y_old = gc.load_field(x_copy, 0);
    assert!(gc.from_space.contains(y_old.0));
    let once = gc.forward(y_old).unwrap();
    let next_after_once = gc.next;
    let twice = gc.forward(once).unwrap();
    assert_eq!(once, twice);
    assert_eq!(gc.next, next_after_once, "the second forward copies nothing");
    // Forwarding the original again also lands on the same copy.
    assert_eq!(gc.forward(y_old).unwrap(), once);
    // Unmanaged pointers pass through untouched.
    assert_eq!(gc.forward(ObjPtr(0)).unwrap(), ObjPtr(0));
    assert_eq!(gc.forward(ObjPtr(0xdead_bee8)).unwrap(), ObjPtr(0xdead_bee8));
}

#[test]
fn is_forwarded_tracks_copies() {
    // R = succ(M), M = cons(X, Y): chasing follows the last uncopied child,
    // so X stays unforwarded until something asks for it.
    let mut gc = new_gc(96);
    let r = gc.allocate(16).unwrap();
    gc.store_header(r, header(1, TAG_SUCC));
    let m = gc.allocate(24).unwrap();
    gc.store_header(m, header(2, TAG_CONS));
    let x = gc.allocate(16).unwrap();
    gc.store_header(x, header(1, TAG_SUCC));
    let y = gc.allocate(16).unwrap();
    gc.store_header(y, header(1, TAG_SUCC));
    gc.store_field(r, 0, m);
    gc.store_field(m, 0, x);
    gc.store_field(m, 1, y);
    gc.store_field(x, 0, ObjPtr(0));
    gc.store_field(y, 0, ObjPtr(0));
    let filler = gc.allocate(16).unwrap();
    gc.store_header(filler, header(0, TAG_ZERO));
    gc.push_root(r);
    // Trigger the cycle; the small budget scans only R's copy.
    let t = gc.allocate(8).unwrap();
    gc.store_header(t, header(0, TAG_ZERO));
    assert!(gc.gc_in_progress);
    assert!(gc.is_forwarded(m), "M was chased when R was copied");
    assert!(gc.is_forwarded(y), "the last child wins the chase");
    assert!(!gc.is_forwarded(x), "the first child waits for the scan");
    let _ = gc.forward(x).unwrap();
    assert!(gc.is_forwarded(x));
    assert!(
        !gc.is_forwarded(ObjPtr(SPACE_B_START)),
        "to-space objects are never forwarded"
    );
}

#[test]
fn raw_field_is_preserved() {
    // fn(raw = 0xdeadbeef, captured = succ(null)), rooted, over a full cycle.
    let mut gc = new_gc(64);
    let f = gc.allocate(24).unwrap();
    gc.store_header(f, header(2, TAG_FN));
    let c = gc.allocate(16).unwrap();
    gc.store_header(c, header(1, TAG_SUCC));
    gc.store_field(f, 0, ObjPtr(0xdead_beef));
    gc.store_field(f, 1, c);
    gc.store_field(c, 0, ObjPtr(0));
    gc.push_root(f);
    let filler = gc.allocate(8).unwrap();
    gc.store_header(filler, header(0, TAG_ZERO));
    let filler2 = gc.allocate(8).unwrap();
    gc.store_header(filler2, header(0, TAG_ZERO));
    // Trigger a cycle and keep allocating until it completes.
    let mut guard = 0;
    while {
        let t = gc.allocate(8).unwrap();
        gc.store_header(t, header(0, TAG_ZERO));
        gc.gc_in_progress
    } {
        guard += 1;
        assert!(guard < 10, "the cycle should drain quickly");
    }
    assert_eq!(gc.stats.gc_cycles, 1);
    let f_copy = gc.root_at(0);
    assert!(gc.to_space.contains(f_copy.0));
    assert_eq!(gc.load_field(f_copy, 0), ObjPtr(0xdead_beef));
    let c_copy = gc.load_field(f_copy, 1);
    assert!(gc.to_space.contains(c_copy.0));
}

#[test]
fn out_of_memory_is_fatal() {
    // A 32-byte space whose live set cannot be copied.
    let mut gc = new_gc(32);
    let a = gc.allocate(24).unwrap();
    gc.store_header(a, header(2, TAG_CONS));
    gc.store_field(a, 0, ObjPtr(0));
    gc.store_field(a, 1, ObjPtr(0));
    gc.push_root(a);
    let r = gc.allocate(16);
    assert_eq!(r, Err(GcError::OutOfMemory));
    assert_eq!(gc.stats.gc_cycles, 1, "the failing allocation began a cycle");
}

#[test]
fn unbalanced_root_pop_fails() {
    let mut gc = new_gc(1024);
    let a = gc.allocate(8).unwrap();
    gc.store_header(a, header(0, TAG_TRUE));
    let b = gc.allocate(8).unwrap();
    gc.store_header(b, header(0, TAG_TRUE));
    gc.push_root(a);
    assert_eq!(gc.pop_root(b), Err(GcError::RootMismatch));
    assert_eq!(gc.roots.len(), 1, "a failed pop leaves the stack untouched");
    assert_eq!(gc.pop_root(a), Ok(a));
    assert_eq!(gc.pop_root(a), Err(GcError::RootUnderflow));
}

#[test]
fn stats_grow_monotonically() {
    let (mut gc, _t) = mid_cycle_heap();
    let mut last = gc.stats;
    let x_copy = ObjPtr(SPACE_B_START + 16);
    let _ = gc.read_barrier(x_copy, 0).unwrap();
    let le = |a: stella_gc::gc::Stats, b: stella_gc::gc::Stats| {
        a.reads <= b.reads
            && a.writes <= b.writes
            && a.read_barriers <= b.read_barriers
            && a.all_time_allocated <= b.all_time_allocated
            && a.all_time_allocated_objs <= b.all_time_allocated_objs
            && a.max_used <= b.max_used
            && a.gc_cycles <= b.gc_cycles
    };
    assert!(le(last, gc.stats));
    last = gc.stats;
    gc.record_write(x_copy);
    assert!(le(last, gc.stats));
    last = gc.stats;
    let t = gc.allocate(8).unwrap();
    gc.store_header(t, header(0, TAG_ZERO));
    assert!(le(last, gc.stats));
    assert!(gc.stats.max_used >= gc.used_memory());
}

#[test]
fn bounded_incremental_scan() {
    // Between consecutive in-cycle allocations the scan pointer advances by
    // at most the allocation size plus one object.
    let (gc, _t) = mid_cycle_heap();
    assert!(gc.gc_in_progress);
    // The trigger allocated 8 bytes; R's copy is 16 bytes.
    assert!(gc.scan <= SPACE_B_START + 8 + 16);
}

#[test]
fn write_barrier_counts_managed_writes_only() {
    let mut gc = new_gc(1024);
    let a = gc.allocate(16).unwrap();
    gc.store_header(a, header(1, TAG_SUCC));
    assert_eq!(gc.stats.writes, 0);
    gc.record_write(a);
    assert_eq!(gc.stats.writes, 1);
    gc.record_write(ObjPtr(0xdead_bee8));
    assert_eq!(gc.stats.writes, 1, "unmanaged writes are not counted");
    gc.record_write(ObjPtr(0));
    assert_eq!(gc.stats.writes, 1);
}

#[test]
fn classify_space_reports_offsets() {
    let (gc, _t) = mid_cycle_heap();
    assert_eq!(
        gc.classify_space(ObjPtr(SPACE_A_START + 16)),
        SpaceClass::From { offset: 16 }
    );
    assert_eq!(
        gc.classify_space(ObjPtr(SPACE_B_START + 8)),
        SpaceClass::To { offset: 8 }
    );
    assert_eq!(gc.classify_space(ObjPtr(0)), SpaceClass::Unmanaged);
    assert_eq!(gc.classify_space(ObjPtr(0xdead_beef)), SpaceClass::Unmanaged);
    // The end address is excluded from both spaces.
    assert_eq!(gc.classify_space(ObjPtr(SPACE_A_START + 64)), SpaceClass::Unmanaged);
}

#[test]
fn memory_accounting() {
    let mut gc = new_gc(64);
    assert_eq!(gc.free_memory(), 64);
    assert_eq!(gc.used_memory(), 0);
    let a = gc.allocate(16).unwrap();
    gc.store_header(a, header(0, TAG_ZERO));
    assert_eq!(gc.free_memory(), 48);
    assert_eq!(gc.to_space_used_memory(), 16);
    assert_eq!(gc.used_memory(), 16);
}

#[test]
fn tiny_space_rejects_allocation() {
    // A requested size below one word yields a null space; every allocation
    // fails with out-of-memory.
    let mut gc = new_gc(4);
    assert_eq!(gc.allocate(8), Err(GcError::OutOfMemory));
}
