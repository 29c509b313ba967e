//! Unit tests for layout arithmetic, tag decoding, field classification, and
//! the semi-space primitives.

use stella_gc::layout::{align_down, align_up, field_count_of, obj_bytes_of, tag_bits_of};
use stella_gc::space::Space;
use stella_gc::tag::{StellaFieldKind, StellaTag};

#[test]
fn align_up_rounds_to_alignment() {
    assert_eq!(align_up(0, 8), 0);
    assert_eq!(align_up(1, 8), 8);
    assert_eq!(align_up(8, 8), 8);
    assert_eq!(align_up(9, 8), 16);
    assert_eq!(align_up(24, 8), 24);
    assert_eq!(align_up(25, 8), 32);
}

#[test]
fn align_down_rounds_to_alignment() {
    assert_eq!(align_down(0, 8), 0);
    assert_eq!(align_down(7, 8), 0);
    assert_eq!(align_down(8, 8), 8);
    assert_eq!(align_down(63, 8), 56);
    assert_eq!(align_down(64, 8), 64);
}

#[test]
fn header_decoding() {
    // Header 0x2b: field count 2 under mask 0x30, tag 11 (cons) under 0xf.
    assert_eq!(field_count_of(0x2b, 0x30), 2);
    assert_eq!(tag_bits_of(0x2b, 0xf), 11);
    assert_eq!(obj_bytes_of(0x2b, 0x30), 24);
    // A zero-field header is one word.
    assert_eq!(obj_bytes_of(0x3, 0x30), 8);
}

#[test]
fn tag_decoding() {
    assert_eq!(StellaTag::from_repr(0), Some(StellaTag::Zero));
    assert_eq!(StellaTag::from_repr(4), Some(StellaTag::Fn));
    assert_eq!(StellaTag::from_repr(11), Some(StellaTag::Cons));
    assert_eq!(StellaTag::from_repr(12), None);
    assert_eq!(StellaTag::from_repr(usize::MAX), None);
}

#[test]
fn tag_names_are_kebab_case() {
    assert_eq!(StellaTag::Zero.name(), "zero");
    assert_eq!(StellaTag::True.name(), "true");
    assert_eq!(StellaTag::Fn.name(), "fn");
    assert_eq!(StellaTag::Inl.name(), "inl");
    assert_eq!(StellaTag::Cons.name(), "cons");
}

#[test]
fn field_kinds_by_tag() {
    assert_eq!(StellaTag::Zero.field_kind(0), StellaFieldKind::Invalid);
    assert_eq!(StellaTag::Succ.field_kind(0), StellaFieldKind::Obj);
    assert_eq!(StellaTag::Succ.field_kind(1), StellaFieldKind::Invalid);
    assert_eq!(StellaTag::Fn.field_kind(0), StellaFieldKind::Raw);
    assert_eq!(StellaTag::Fn.field_kind(1), StellaFieldKind::Obj);
    assert_eq!(StellaTag::Fn.field_kind(7), StellaFieldKind::Obj);
    assert_eq!(StellaTag::Ref.field_kind(0), StellaFieldKind::Obj);
    assert_eq!(StellaTag::Tuple.field_kind(5), StellaFieldKind::Obj);
    assert_eq!(StellaTag::Inl.field_kind(0), StellaFieldKind::Obj);
    assert_eq!(StellaTag::Inr.field_kind(1), StellaFieldKind::Invalid);
    assert_eq!(StellaTag::Cons.field_kind(0), StellaFieldKind::Obj);
    assert_eq!(StellaTag::Cons.field_kind(1), StellaFieldKind::Obj);
    assert_eq!(StellaTag::Cons.field_kind(2), StellaFieldKind::Invalid);
}

#[test]
fn space_bounds_and_containment() {
    let s = Space::create(64, 0x1000);
    assert_eq!(s.start, 0x1000);
    assert_eq!(s.size(), 64);
    assert_eq!(s.end(), 0x1040);
    assert!(s.contains(0x1000));
    assert!(s.contains(0x103f));
    assert!(!s.contains(0x1040), "the end address is excluded");
    assert!(!s.contains(0xfff));
    assert!(!s.contains(0));
}

#[test]
fn space_rounds_size_down() {
    let s = Space::create(63, 0x1000);
    assert_eq!(s.size(), 56);
    let null = Space::create(7, 0x1000);
    assert_eq!(null.start, 0, "under one word yields the null space");
    assert!(!null.contains(0x1000));
}

#[test]
fn space_load_store() {
    let mut s = Space::create(64, 0x1000);
    assert_eq!(s.load(0x1008), 0);
    s.store(0x1008, 0x2b);
    assert_eq!(s.load(0x1008), 0x2b);
    assert_eq!(s.load(0x1000), 0);
    assert_eq!(s.load(0x1010), 0);
}
