//! Tests for the diagnostic renderers: exact text for objects, statistics,
//! roots, and the full heap state.

use stella_gc::gc::{Gc, ObjPtr, SPACE_A_START};
use stella_gc::render::{render_gc_alloc_stats, render_gc_roots, render_gc_state};

const TAG_MASK: usize = 0xf;
const FC_MASK: usize = 0x30;

fn header(field_count: usize, tag: usize) -> usize {
    (field_count << 4) | tag
}

#[test]
fn display_zero_field_object() {
    let mut gc = Gc::new(1024, TAG_MASK, FC_MASK);
    let p = gc.allocate(8).unwrap();
    gc.store_header(p, header(0, 3));
    assert_eq!(
        gc.display_obj(p, true),
        "<true @ 0x10000000 (to+0, 8 B)> {}"
    );
}

#[test]
fn display_object_with_fields() {
    let mut gc = Gc::new(1024, TAG_MASK, FC_MASK);
    let a = gc.allocate(16).unwrap();
    gc.store_header(a, header(1, 1));
    let b = gc.allocate(8).unwrap();
    gc.store_header(b, header(0, 0));
    gc.store_field(a, 0, b);
    assert_eq!(
        gc.display_obj(a, true),
        "<succ @ 0x10000000 (to+0, 16 B)> { <zero @ 0x10000010 (to+16, 8 B)> {} }"
    );
    assert_eq!(
        gc.display_obj(a, false),
        "<succ @ 0x10000000 (to+0, 16 B)> {...}"
    );
}

#[test]
fn display_raw_and_invalid_fields() {
    let mut gc = Gc::new(1024, TAG_MASK, FC_MASK);
    // fn(raw, captured): field 0 is raw; a succ's second field is invalid.
    let f = gc.allocate(24).unwrap();
    gc.store_header(f, header(2, 4));
    let c = gc.allocate(8).unwrap();
    gc.store_header(c, header(0, 0));
    gc.store_field(f, 0, ObjPtr(0xdead_beef));
    gc.store_field(f, 1, c);
    assert_eq!(
        gc.display_obj(f, true),
        "<fn @ 0x10000000 (to+0, 24 B)> { #0xdeadbeef (unmanaged), \
         <zero @ 0x10000018 (to+24, 8 B)> {} }"
    );
    let s = gc.allocate(24).unwrap();
    gc.store_header(s, header(2, 1));
    gc.store_field(s, 0, c);
    gc.store_field(s, 1, ObjPtr(0));
    assert_eq!(
        gc.display_obj(s, true),
        "<succ @ 0x10000020 (to+32, 24 B)> { <zero @ 0x10000018 (to+24, 8 B)> {}, \
         #0x0 (unmanaged, **UNEXPECTED FIELD**) }"
    );
}

#[test]
fn alloc_stats_render_exactly() {
    let mut gc = Gc::new(64, TAG_MASK, FC_MASK);
    let a = gc.allocate(16).unwrap();
    gc.store_header(a, header(0, 0));
    let expected = "  - All-time allocated: 16 B (1 objects)\n\
                    \x20 - Used:\n    - Currently 16 B\n    - Max: 16 B\n\
                    \x20 - GC cycles: 0\n\
                    \x20 - Reads: 0 (0 barriers)\n\
                    \x20 - Writes: 0 (0 barriers)\n";
    assert_eq!(render_gc_alloc_stats(&gc), expected);
}

#[test]
fn roots_render_exactly() {
    let mut gc = Gc::new(1024, TAG_MASK, FC_MASK);
    let a = gc.allocate(8).unwrap();
    gc.store_header(a, header(0, 3));
    gc.push_root(a);
    gc.push_root(ObjPtr(0xdead_bee8));
    assert_eq!(
        render_gc_roots(&gc),
        "root points to <true @ 0x10000000 (to+0, 8 B)> {}\n\
         **ILLEGAL** root points to 0xdeadbee8 (**unmanaged memory**)\n"
    );
}

#[test]
fn state_renders_exactly_when_idle() {
    let mut gc = Gc::new(64, TAG_MASK, FC_MASK);
    let a = gc.allocate(16).unwrap();
    gc.store_header(a, header(1, 1));
    let b = gc.allocate(8).unwrap();
    gc.store_header(b, header(0, 0));
    gc.store_field(a, 0, b);
    gc.push_root(a);
    let expected = "GC state:\n\
        \x20 - To-space (0x10000000..0x10000040):\n\
        \x20   - 0x10000000 (to-space+0): <succ @ 0x10000000 (to+0, 16 B)> \
        { <zero @ 0x10000010 (to+16, 8 B)> {} }\n\
        \x20   - 0x10000010 (to-space+16): <zero @ 0x10000010 (to+16, 8 B)> {}\n\
        \x20   - 0x10000018..0x10000040 free\n\
        \n\
        \x20 - Garbage collection currently not running\n\
        \n\
        \x20 - Roots:\n\
        \x20   - root points to <succ @ 0x10000000 (to+0, 16 B)> \
        { <zero @ 0x10000010 (to+16, 8 B)> {} }\n\
        \n\
        \x20 - Currently used: 24 B\n\
        \x20   - To-space: 24 B / 64 B used, 40 B free\n\n";
    assert_eq!(render_gc_state(&gc), expected);
}

#[test]
fn display_forwarded_object() {
    // Mid-cycle, a forwarded from-space object shows its forwarding pointer
    // in its first field.
    let mut gc = Gc::new(96, TAG_MASK, FC_MASK);
    let r = gc.allocate(16).unwrap();
    gc.store_header(r, header(1, 1));
    let m = gc.allocate(24).unwrap();
    gc.store_header(m, header(2, 11));
    let x = gc.allocate(16).unwrap();
    gc.store_header(x, header(1, 1));
    let y = gc.allocate(16).unwrap();
    gc.store_header(y, header(1, 1));
    gc.store_field(r, 0, m);
    gc.store_field(m, 0, x);
    gc.store_field(m, 1, y);
    gc.store_field(x, 0, ObjPtr(0));
    gc.store_field(y, 0, ObjPtr(0));
    let filler = gc.allocate(16).unwrap();
    gc.store_header(filler, header(0, 0));
    gc.push_root(r);
    let t = gc.allocate(8).unwrap();
    gc.store_header(t, header(0, 0));
    assert!(gc.gc_in_progress);
    assert_eq!(
        gc.display_obj(m, true),
        "<cons @ 0x10000010 (from+16, 24 B)> { #0x20000010 (to+16, fwd), \
         <succ @ 0x10000038 (from+56, 16 B)> {...} }"
    );
}
