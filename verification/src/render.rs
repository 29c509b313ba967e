//! Rendering of the collector's diagnostic dumps.
//!
//! These functions compute the exact text of the heap dumps; printing them
//! is the host's business. Objects render as
//! `<tag @ 0xADDR (space, N B)> { ... }`, where `space` is `from+OFF`,
//! `to+OFF` or `unmanaged`; raw fields print as `#0xADDR (space)`, invalid
//! fields are flagged, and the first field of a forwarded object prints as
//! the forwarding pointer.

use crate::gc::{Gc, ObjPtr, SpaceClass};
use crate::layout::{spec_field_count, spec_obj_bytes, spec_tag_bits, field_count_of, obj_bytes_of,
    tag_bits_of};
use crate::tag::{StellaFieldKind, StellaTag};
use vstd::prelude::*;

verus! {

/// The decimal digit character for `d`.
pub open spec fn spec_digit(d: int) -> char {
    if d == 0 {
        '0'
    } else if d == 1 {
        '1'
    } else if d == 2 {
        '2'
    } else if d == 3 {
        '3'
    } else if d == 4 {
        '4'
    } else if d == 5 {
        '5'
    } else if d == 6 {
        '6'
    } else if d == 7 {
        '7'
    } else if d == 8 {
        '8'
    } else {
        '9'
    }
}

/// The decimal rendering of `n`, most significant digit first.
pub open spec fn spec_decimal(n: int) -> Seq<char>
    decreases n,
{
    if n < 10 {
        seq![spec_digit(n)]
    } else {
        spec_decimal(n / 10).push(spec_digit(n % 10))
    }
}

/// The lower-case hexadecimal digit character for `d`.
pub open spec fn spec_hex_digit(d: int) -> char {
    if d < 10 {
        spec_digit(d)
    } else if d == 10 {
        'a'
    } else if d == 11 {
        'b'
    } else if d == 12 {
        'c'
    } else if d == 13 {
        'd'
    } else if d == 14 {
        'e'
    } else {
        'f'
    }
}

/// The hexadecimal digits of `n`, most significant first.
pub open spec fn spec_hex_digits(n: int) -> Seq<char>
    decreases n,
{
    if n < 16 {
        seq![spec_hex_digit(n)]
    } else {
        spec_hex_digits(n / 16).push(spec_hex_digit(n % 16))
    }
}

/// An address rendered the way pointers print: `0x` and lower-case hex.
pub open spec fn spec_hex(n: int) -> Seq<char> {
    "0x"@ + spec_hex_digits(n)
}

/// The rendering of a space class: `from+OFF`, `to+OFF` or `unmanaged`.
pub open spec fn spec_space_class(c: SpaceClass) -> Seq<char> {
    match c {
        SpaceClass::From { offset } => "from+"@ + spec_decimal(offset as int),
        SpaceClass::To { offset } => "to+"@ + spec_decimal(offset as int),
        SpaceClass::Unmanaged => "unmanaged"@,
    }
}

/// Relies on `str::chars`: the characters of the string, in order.
#[verifier::external_body]
fn str_chars(s: &str) -> (v: Vec<char>)
    ensures
        v@ == s@,
{
    s.chars().collect()
}

/// Relies on `String`'s `FromIterator` over `char`: the string holding
/// exactly these characters.
#[verifier::external_body]
pub fn chars_to_string(v: Vec<char>) -> (s: String)
    ensures
        s@ == v@,
{
    v.into_iter().collect()
}

/// Appends the characters of `s`.
pub fn push_lit(out: &mut Vec<char>, s: &str)
    ensures
        final(out)@ == old(out)@ + s@,
{
    let mut cs = str_chars(s);
    out.append(&mut cs);
}

fn digit_char(d: usize) -> (c: char)
    requires
        d < 10,
    ensures
        c == spec_digit(d as int),
{
    if d == 0 {
        '0'
    } else if d == 1 {
        '1'
    } else if d == 2 {
        '2'
    } else if d == 3 {
        '3'
    } else if d == 4 {
        '4'
    } else if d == 5 {
        '5'
    } else if d == 6 {
        '6'
    } else if d == 7 {
        '7'
    } else if d == 8 {
        '8'
    } else {
        '9'
    }
}

fn hex_digit_char(d: usize) -> (c: char)
    requires
        d < 16,
    ensures
        c == spec_hex_digit(d as int),
{
    if d < 10 {
        digit_char(d)
    } else if d == 10 {
        'a'
    } else if d == 11 {
        'b'
    } else if d == 12 {
        'c'
    } else if d == 13 {
        'd'
    } else if d == 14 {
        'e'
    } else {
        'f'
    }
}

/// Appends the decimal rendering of `n`.
pub fn push_decimal(out: &mut Vec<char>, n: usize)
    ensures
        final(out)@ == old(out)@ + spec_decimal(n as int),
    decreases n,
{
    if n >= 10 {
        proof {
            assert(n as int / 10 < n as int) by (nonlinear_arith)
                requires
                    n >= 10,
            ;
        }
        push_decimal(out, n / 10);
    }
    out.push(digit_char(n % 10));
    proof {
        assert(final(out)@ =~= old(out)@ + spec_decimal(n as int));
    }
}

/// Appends the hexadecimal digits of `n`.
fn push_hex_digits(out: &mut Vec<char>, n: usize)
    ensures
        final(out)@ == old(out)@ + spec_hex_digits(n as int),
    decreases n,
{
    if n >= 16 {
        proof {
            assert(n as int / 16 < n as int) by (nonlinear_arith)
                requires
                    n >= 16,
            ;
        }
        push_hex_digits(out, n / 16);
    }
    out.push(hex_digit_char(n % 16));
    proof {
        assert(final(out)@ =~= old(out)@ + spec_hex_digits(n as int));
    }
}

/// Appends an address as `0x` and lower-case hex digits.
pub fn push_hex(out: &mut Vec<char>, n: usize)
    ensures
        final(out)@ == old(out)@ + spec_hex(n as int),
{
    push_lit(out, "0x");
    push_hex_digits(out, n);
    proof {
        assert(final(out)@ =~= old(out)@ + spec_hex(n as int));
    }
}

/// Appends the rendering of a space class.
pub fn push_space_class(out: &mut Vec<char>, c: SpaceClass)
    ensures
        final(out)@ == old(out)@ + spec_space_class(c),
{
    match c {
        SpaceClass::From { offset } => {
            push_lit(out, "from+");
            push_decimal(out, offset);
        },
        SpaceClass::To { offset } => {
            push_lit(out, "to+");
            push_decimal(out, offset);
        },
        SpaceClass::Unmanaged => {
            push_lit(out, "unmanaged");
        },
    }
    proof {
        assert(final(out)@ =~= old(out)@ + spec_space_class(c));
    }
}

/// The header word of the object at `p`, read from whichever space holds it.
pub open spec fn spec_obj_header(gc: Gc, p: int) -> usize {
    if gc.in_from(p) {
        gc.from_space.word_at(p)
    } else {
        gc.to_space.word_at(p)
    }
}

/// The object at `p` can be read and displayed: it lies in a managed space
/// with room for the largest encodable object, and its tag bits decode.
pub open spec fn obj_readable(gc: Gc, p: int) -> bool {
    &&& (gc.in_from(p) && gc.from_obj_ok(p)) || (gc.in_to(p) && gc.obj_ok_in(gc.to_space, p))
    &&& StellaTag::spec_from_repr(spec_tag_bits(spec_obj_header(gc, p), gc.tag_mask)) is Some
}

/// The tag of the object at `p`.
pub open spec fn spec_obj_tag(gc: Gc, p: int) -> StellaTag {
    StellaTag::spec_from_repr(spec_tag_bits(spec_obj_header(gc, p), gc.tag_mask))->0
}

/// Every object field that renders recursively is itself readable: all
/// `Obj`-kind fields, except the first field of a forwarded object (which
/// renders as the forwarding pointer instead).
pub open spec fn fields_displayable(gc: Gc, p: int) -> bool {
    forall|i: int|
        0 <= i < spec_field_count(spec_obj_header(gc, p), gc.fc_mask) && spec_obj_tag(
            gc,
            p,
        ).spec_field_kind(i as usize) == StellaFieldKind::Obj && !(i == 0 && gc.spec_is_forwarded(
            p,
        )) ==> obj_readable(gc, #[trigger] gc.slot_value(p, i) as int)
}

/// The rendering of one field of the object at `p`.
pub open spec fn spec_field_text(gc: Gc, p: int, i: int) -> Seq<char>
    decreases 1int, 0int,
{
    let f = gc.slot_value(p, i) as int;
    let cls = spec_space_class(gc.spec_classify(f));
    if i == 0 && gc.spec_is_forwarded(p) {
        "#"@ + spec_hex(f) + " ("@ + cls + ", fwd)"@
    } else {
        match spec_obj_tag(gc, p).spec_field_kind(i as usize) {
            StellaFieldKind::Raw => "#"@ + spec_hex(f) + " ("@ + cls + ")"@,
            StellaFieldKind::Invalid => "#"@ + spec_hex(f) + " ("@ + cls
                + ", **UNEXPECTED FIELD**)"@,
            StellaFieldKind::Obj => spec_display_obj(gc, f, false),
        }
    }
}

/// The rendering of fields `i..fc` of the object at `p`, with the leading
/// separator each field gets inside the braces.
pub open spec fn spec_fields_text(gc: Gc, p: int, i: int, fc: int) -> Seq<char>
    decreases 2int, fc - i,
{
    if i >= fc {
        Seq::<char>::empty()
    } else {
        (if i > 0 {
            ", "@
        } else {
            " "@
        }) + spec_field_text(gc, p, i) + spec_fields_text(gc, p, i + 1, fc)
    }
}

/// The full rendering of the object at `p`:
/// `<tag @ 0xADDR (space, N B)> { fields }`, with fields elided as `...`
/// when `display_fields` is false.
pub open spec fn spec_display_obj(gc: Gc, p: int, display_fields: bool) -> Seq<char>
    decreases (if display_fields { 3int } else { 0int }), 0int,
{
    let header = spec_obj_header(gc, p);
    let fc = spec_field_count(header, gc.fc_mask) as int;
    let head = "<"@ + spec_obj_tag(gc, p).spec_name() + " @ "@ + spec_hex(p) + " ("@
        + spec_space_class(gc.spec_classify(p)) + ", "@ + spec_decimal(
        spec_obj_bytes(header, gc.fc_mask),
    ) + " B)> {"@;
    if fc == 0 {
        head + "}"@
    } else if !display_fields {
        head + "...}"@
    } else {
        head + spec_fields_text(gc, p, 0, fc) + " }"@
    }
}

impl Gc {
    /// Reads the header of the object at `p`.
    fn header_of(&self, p: usize) -> (h: usize)
        requires
            self.wf(),
            obj_readable(*self, p as int),
        ensures
            h == spec_obj_header(*self, p as int),
    {
        proof {
            self.lemma_spaces_disjoint();
        }
        if self.from_space.contains(p) {
            self.from_space.load(p)
        } else {
            self.to_space.load(p)
        }
    }

    /// Reads field `i` of the object at `p`.
    fn field_of(&self, p: usize, i: usize) -> (v: usize)
        requires
            self.wf(),
            obj_readable(*self, p as int),
            (i as int) < spec_field_count(spec_obj_header(*self, p as int), self.fc_mask),
        ensures
            v == self.slot_value(p as int, i as int),
    {
        proof {
            self.lemma_spaces_disjoint();
            crate::layout::lemma_field_count_bound(spec_obj_header(*self, p as int), self.fc_mask);
            crate::space::lemma_slot_aligned(p as int, i as int);
        }
        let slot = p + 8 + 8 * i;
        if self.to_space.contains(p) {
            self.to_space.load(slot)
        } else {
            self.from_space.load(slot)
        }
    }

    /// Formats a heap object exactly as the diagnostic dumps show it.
    ///
    /// If `display_fields` is false, the object's fields are elided from the
    /// output.
    pub fn display_obj(&self, ptr: ObjPtr, display_fields: bool) -> (r: String)
        requires
            self.wf(),
            obj_readable(*self, ptr.0 as int),
            display_fields ==> fields_displayable(*self, ptr.0 as int),
        ensures
            r@ == spec_display_obj(*self, ptr.0 as int, display_fields),
        decreases (if display_fields { 3int } else { 0int }), 0int,
    {
        let mut out: Vec<char> = Vec::new();
        self.push_obj(&mut out, ptr, display_fields);
        proof {
            assert(out@ =~= Seq::<char>::empty() + spec_display_obj(
                *self,
                ptr.0 as int,
                display_fields,
            ));
        }
        chars_to_string(out)
    }

    /// Appends the rendering of one field of the object at `ptr`.
    #[verifier::rlimit(100)]
    #[verifier::spinoff_prover]
    fn push_field(&self, out: &mut Vec<char>, ptr: ObjPtr, tag: StellaTag, i: usize)
        requires
            self.wf(),
            obj_readable(*self, ptr.0 as int),
            fields_displayable(*self, ptr.0 as int),
            tag == spec_obj_tag(*self, ptr.0 as int),
            (i as int) < spec_field_count(spec_obj_header(*self, ptr.0 as int), self.fc_mask),
        ensures
            final(out)@ == old(out)@ + spec_field_text(*self, ptr.0 as int, i as int),
        decreases 1int, 0int,
    {
        let p = ptr.0;
        let f = self.field_of(p, i);
        let forwarded = self.is_forwarded(ptr);
        if i == 0 && forwarded {
            push_lit(out, "#");
            push_hex(out, f);
            push_lit(out, " (");
            push_space_class(out, self.classify_space(ObjPtr(f)));
            push_lit(out, ", fwd)");
        } else {
            match tag.field_kind(i) {
                StellaFieldKind::Raw => {
                    push_lit(out, "#");
                    push_hex(out, f);
                    push_lit(out, " (");
                    push_space_class(out, self.classify_space(ObjPtr(f)));
                    push_lit(out, ")");
                },
                StellaFieldKind::Invalid => {
                    push_lit(out, "#");
                    push_hex(out, f);
                    push_lit(out, " (");
                    push_space_class(out, self.classify_space(ObjPtr(f)));
                    push_lit(out, ", **UNEXPECTED FIELD**)");
                },
                StellaFieldKind::Obj => {
                    self.push_obj(out, ObjPtr(f), false);
                },
            }
        }
        proof {
            assert(final(out)@ =~= old(out)@ + spec_field_text(*self, ptr.0 as int, i as int));
        }
    }

    /// Appends the rendering of a heap object.
    #[verifier::loop_isolation(false)]
    #[verifier::rlimit(100)]
    #[verifier::spinoff_prover]
    fn push_obj(&self, out: &mut Vec<char>, ptr: ObjPtr, display_fields: bool)
        requires
            self.wf(),
            obj_readable(*self, ptr.0 as int),
            display_fields ==> fields_displayable(*self, ptr.0 as int),
        ensures
            final(out)@ == old(out)@ + spec_display_obj(*self, ptr.0 as int, display_fields),
        decreases (if display_fields { 2int } else { 0int }), 9int,
    {
        let p = ptr.0;
        let header = self.header_of(p);
        let tag = match StellaTag::from_repr(tag_bits_of(header, self.tag_mask)) {
            Some(t) => t,
            None => {
                proof {
                    assert(false);
                }
                StellaTag::Zero
            },
        };
        let fc = field_count_of(header, self.fc_mask);
        push_lit(out, "<");
        push_lit(out, tag.name());
        push_lit(out, " @ ");
        push_hex(out, p);
        push_lit(out, " (");
        push_space_class(out, self.classify_space(ptr));
        push_lit(out, ", ");
        push_decimal(out, obj_bytes_of(header, self.fc_mask));
        push_lit(out, " B)> {");
        let ghost head = old(out)@ + ("<"@ + spec_obj_tag(*self, p as int).spec_name() + " @ "@
            + spec_hex(p as int) + " ("@ + spec_space_class(self.spec_classify(p as int)) + ", "@
            + spec_decimal(spec_obj_bytes(header, self.fc_mask)) + " B)> {"@);
        proof {
            assert(out@ =~= head);
        }
        if fc == 0 {
            push_lit(out, "}");
            proof {
                assert(final(out)@ =~= old(out)@ + spec_display_obj(
                    *self,
                    p as int,
                    display_fields,
                ));
            }
            return ;
        }
        if !display_fields {
            push_lit(out, "...}");
            proof {
                assert(final(out)@ =~= old(out)@ + spec_display_obj(
                    *self,
                    p as int,
                    display_fields,
                ));
            }
            return ;
        }
        let mut i: usize = 0;
        while i < fc
            invariant
                i <= fc,
                out@ + spec_fields_text(*self, p as int, i as int, fc as int) == head
                    + spec_fields_text(*self, p as int, 0, fc as int),
            decreases fc - i,
        {
            let ghost before = out@;
            if i > 0 {
                push_lit(out, ", ");
            } else {
                push_lit(out, " ");
            }
            self.push_field(out, ptr, tag, i);
            proof {
                assert(spec_fields_text(*self, p as int, i as int, fc as int) == (if i > 0 {
                    ", "@
                } else {
                    " "@
                }) + spec_field_text(*self, p as int, i as int) + spec_fields_text(
                    *self,
                    p as int,
                    i as int + 1,
                    fc as int,
                ));
                assert(out@ =~= before + ((if i > 0 {
                    ", "@
                } else {
                    " "@
                }) + spec_field_text(*self, p as int, i as int)));
                assert(out@ + spec_fields_text(*self, p as int, i as int + 1, fc as int) =~= head
                    + spec_fields_text(*self, p as int, 0, fc as int));
            }
            i = i + 1;
        }
        push_lit(out, " }");
        proof {
            assert(spec_fields_text(*self, p as int, fc as int, fc as int)
                =~= Seq::<char>::empty());
            assert(out@ =~= head + spec_fields_text(*self, p as int, 0, fc as int) + " }"@);
            assert(final(out)@ =~= old(out)@ + spec_display_obj(*self, p as int, display_fields));
        }
    }
}


/// The region `[a, b)` can be walked and displayed: each object in turn is
/// readable with displayable fields, and the sizes tile the region exactly.
pub open spec fn region_walkable(gc: Gc, a: int, b: int) -> bool
    decreases b - a,
{
    if a >= b {
        a == b
    } else {
        &&& obj_readable(gc, a)
        &&& fields_displayable(gc, a)
        &&& a + spec_obj_bytes(spec_obj_header(gc, a), gc.fc_mask) <= b
        &&& region_walkable(gc, a + spec_obj_bytes(spec_obj_header(gc, a), gc.fc_mask), b)
    }
}

/// The dump lines for the objects of `[a, b)`: one indented line per object,
/// with its offset from `base` and its full rendering.
pub open spec fn spec_region_lines(gc: Gc, a: int, b: int, label: Seq<char>, base: int) -> Seq<
    char,
>
    decreases b - a,
{
    if a >= b {
        Seq::<char>::empty()
    } else if a + spec_obj_bytes(spec_obj_header(gc, a), gc.fc_mask) > b {
        Seq::<char>::empty()
    } else {
        "    - "@ + spec_hex(a) + " ("@ + label + "+"@ + spec_decimal(a - base) + "): "@
            + spec_display_obj(gc, a, true) + "\n"@ + spec_region_lines(
            gc,
            a + spec_obj_bytes(spec_obj_header(gc, a), gc.fc_mask),
            b,
            label,
            base,
        )
    }
}

/// The dump line for one root slot value: either the object it points to or
/// an unmanaged-pointer warning.
pub open spec fn spec_root_line(gc: Gc, v: int, indent: Seq<char>) -> Seq<char> {
    if gc.spec_classify(v) == SpaceClass::Unmanaged {
        indent + "**ILLEGAL** root points to "@ + spec_hex(v) + " (**unmanaged memory**)\n"@
    } else {
        indent + "root points to "@ + spec_display_obj(gc, v, true) + "\n"@
    }
}

/// The dump lines of the root stack, bottom first.
pub open spec fn spec_root_lines(gc: Gc, i: int, indent: Seq<char>) -> Seq<char>
    decreases gc.roots@.len() - i,
{
    if i >= gc.roots@.len() {
        Seq::<char>::empty()
    } else {
        spec_root_line(gc, gc.roots@[i] as int, indent) + spec_root_lines(gc, i + 1, indent)
    }
}

/// Every managed root can be displayed in full.
pub open spec fn roots_displayable(gc: Gc) -> bool {
    forall|i: int|
        0 <= i < gc.roots@.len() && gc.spec_classify((#[trigger] gc.roots@[i]) as int)
            != SpaceClass::Unmanaged ==> obj_readable(gc, gc.roots@[i] as int)
            && fields_displayable(gc, gc.roots@[i] as int)
}

/// The allocation-statistics dump.
pub open spec fn spec_alloc_stats(gc: Gc) -> Seq<char> {
    "  - All-time allocated: "@ + spec_decimal(gc.stats.all_time_allocated as int) + " B ("@
        + spec_decimal(gc.stats.all_time_allocated_objs as int) + " objects)\n"@
        + "  - Used:\n    - Currently "@ + spec_decimal(gc.spec_used()) + " B\n    - Max: "@
        + spec_decimal(gc.stats.max_used as int) + " B\n  - GC cycles: "@ + spec_decimal(
        gc.stats.gc_cycles as int,
    ) + (if gc.gc_in_progress {
        " (currently in progress)\n"@
    } else {
        "\n"@
    }) + "  - Reads: "@ + spec_decimal(gc.stats.reads as int) + " ("@ + spec_decimal(
        gc.stats.read_barriers as int,
    ) + " barriers)\n  - Writes: "@ + spec_decimal(gc.stats.writes as int) + " (0 barriers)\n"@
}

/// Renders the allocation statistics exactly as the host prints them.
pub fn render_gc_alloc_stats(gc: &Gc) -> (r: String)
    requires
        gc.wf(),
    ensures
        r@ == spec_alloc_stats(*gc),
{
    let mut out: Vec<char> = Vec::new();
    push_lit(&mut out, "  - All-time allocated: ");
    push_decimal(&mut out, gc.stats.all_time_allocated);
    push_lit(&mut out, " B (");
    push_decimal(&mut out, gc.stats.all_time_allocated_objs);
    push_lit(&mut out, " objects)\n");
    push_lit(&mut out, "  - Used:\n    - Currently ");
    push_decimal(&mut out, gc.used_memory());
    push_lit(&mut out, " B\n    - Max: ");
    push_decimal(&mut out, gc.stats.max_used);
    push_lit(&mut out, " B\n  - GC cycles: ");
    push_decimal(&mut out, gc.stats.gc_cycles);
    if gc.gc_in_progress {
        push_lit(&mut out, " (currently in progress)\n");
    } else {
        push_lit(&mut out, "\n");
    }
    push_lit(&mut out, "  - Reads: ");
    push_decimal(&mut out, gc.stats.reads);
    push_lit(&mut out, " (");
    push_decimal(&mut out, gc.stats.read_barriers);
    push_lit(&mut out, " barriers)\n  - Writes: ");
    push_decimal(&mut out, gc.stats.writes);
    push_lit(&mut out, " (0 barriers)\n");
    proof {
        assert(out@ =~= spec_alloc_stats(*gc));
    }
    chars_to_string(out)
}

impl Gc {
    /// Appends the dump lines for the objects of the region `[a, b)`.
    #[verifier::loop_isolation(false)]
    #[verifier::rlimit(100)]
    #[verifier::spinoff_prover]
    fn push_region(&self, out: &mut Vec<char>, a: usize, b: usize, label: &str, base: usize)
        requires
            self.wf(),
            region_walkable(*self, a as int, b as int),
            base <= a,
        ensures
            final(out)@ == old(out)@ + spec_region_lines(
                *self,
                a as int,
                b as int,
                label@,
                base as int,
            ),
    {
        let mut cur = a;
        while cur < b
            invariant
                region_walkable(*self, cur as int, b as int),
                a <= cur,
                out@ + spec_region_lines(*self, cur as int, b as int, label@, base as int)
                    == old(out)@ + spec_region_lines(
                    *self,
                    a as int,
                    b as int,
                    label@,
                    base as int,
                ),
            decreases b - cur,
        {
            let ghost before = out@;
            let header = self.header_of(cur);
            let sz = obj_bytes_of(header, self.fc_mask);
            push_lit(out, "    - ");
            push_hex(out, cur);
            push_lit(out, " (");
            push_lit(out, label);
            push_lit(out, "+");
            push_decimal(out, cur - base);
            push_lit(out, "): ");
            self.push_obj(out, ObjPtr(cur), true);
            push_lit(out, "\n");
            proof {
                assert(out@ =~= before + ("    - "@ + spec_hex(cur as int) + " ("@ + label@ + "+"@
                    + spec_decimal(cur as int - base) + "): "@ + spec_display_obj(
                    *self,
                    cur as int,
                    true,
                ) + "\n"@));
                assert(out@ + spec_region_lines(
                    *self,
                    cur as int + sz,
                    b as int,
                    label@,
                    base as int,
                ) =~= old(out)@ + spec_region_lines(*self, a as int, b as int, label@, base as int));
            }
            cur = cur + sz;
        }
    }

    /// Appends the dump lines of the root stack.
    #[verifier::loop_isolation(false)]
    #[verifier::rlimit(100)]
    fn push_roots(&self, out: &mut Vec<char>, indent: &str)
        requires
            self.wf(),
            roots_displayable(*self),
        ensures
            final(out)@ == old(out)@ + spec_root_lines(*self, 0, indent@),
    {
        let mut i: usize = 0;
        let count = self.roots.len();
        while i < count
            invariant
                i <= count,
                count == self.roots@.len(),
                out@ + spec_root_lines(*self, i as int, indent@) == old(out)@ + spec_root_lines(
                    *self,
                    0,
                    indent@,
                ),
            decreases count - i,
        {
            let ghost before = out@;
            let v = self.roots[i];
            push_lit(out, indent);
            match self.classify_space(ObjPtr(v)) {
                SpaceClass::Unmanaged => {
                    push_lit(out, "**ILLEGAL** root points to ");
                    push_hex(out, v);
                    push_lit(out, " (**unmanaged memory**)\n");
                },
                SpaceClass::From { offset: _ } => {
                    push_lit(out, "root points to ");
                    self.push_obj(out, ObjPtr(v), true);
                    push_lit(out, "\n");
                },
                SpaceClass::To { offset: _ } => {
                    push_lit(out, "root points to ");
                    self.push_obj(out, ObjPtr(v), true);
                    push_lit(out, "\n");
                },
            }
            proof {
                assert(out@ =~= before + spec_root_line(*self, self.roots@[i as int] as int, indent@));
                assert(out@ + spec_root_lines(*self, i as int + 1, indent@) =~= old(out)@
                    + spec_root_lines(*self, 0, indent@));
            }
            i = i + 1;
        }
    }
}

/// Renders the root stack exactly as the host prints it; slots are shown by
/// the pointer value they hold.
pub fn render_gc_roots(gc: &Gc) -> (r: String)
    requires
        gc.wf(),
        roots_displayable(*gc),
    ensures
        r@ == spec_root_lines(*gc, 0, Seq::<char>::empty()),
{
    let mut out: Vec<char> = Vec::new();
    gc.push_roots(&mut out, "");
    proof {
        assert(out@ =~= Seq::<char>::empty() + spec_root_lines(*gc, 0, ""@));
        assert(""@ =~= Seq::<char>::empty()) by {
            reveal_strlit("");
        }
    }
    chars_to_string(out)
}

/// The from-space section of the heap-state dump.
pub open spec fn spec_state_from_sec(gc: Gc) -> Seq<char> {
    if gc.from_space.start != 0 {
        "  - From-space ("@ + spec_hex(gc.from_space.start as int) + ".."@ + spec_hex(
            gc.from_space.spec_end(),
        ) + "):\n"@ + spec_region_lines(
            gc,
            gc.from_space.start as int,
            gc.from_space.spec_end(),
            "from-space"@,
            gc.from_space.start as int,
        ) + "\n"@
    } else {
        Seq::<char>::empty()
    }
}

/// The to-space section of the heap-state dump: the copied region, the free
/// gap, and the objects allocated during the cycle.
pub open spec fn spec_state_to_sec(gc: Gc) -> Seq<char> {
    "  - To-space ("@ + spec_hex(gc.to_space.start as int) + ".."@ + spec_hex(
        gc.to_space.spec_end(),
    ) + "):\n"@ + spec_region_lines(
        gc,
        gc.to_space.start as int,
        gc.next as int,
        "to-space"@,
        gc.to_space.start as int,
    ) + (if gc.next < gc.limit {
        "    - "@ + spec_hex(gc.next as int) + ".."@ + spec_hex(gc.limit as int) + " free\n"@
    } else {
        Seq::<char>::empty()
    }) + spec_region_lines(
        gc,
        gc.limit as int,
        gc.to_space.spec_end(),
        "to-space"@,
        gc.to_space.start as int,
    ) + "\n"@
}

/// The cycle-status section of the heap-state dump.
pub open spec fn spec_state_status_sec(gc: Gc) -> Seq<char> {
    if gc.gc_in_progress {
        "  - Garbage collection currently in progress:\n    - Scan pointer: "@ + spec_hex(
            gc.scan as int,
        ) + "\n    - Next pointer: "@ + spec_hex(gc.next as int) + "\n    - Limit pointer: "@
            + spec_hex(gc.limit as int) + "\n"@
    } else {
        "  - Garbage collection currently not running\n"@
    }
}

/// The roots section of the heap-state dump.
pub open spec fn spec_state_roots_sec(gc: Gc) -> Seq<char> {
    if gc.roots@.len() == 0 {
        "  - Roots: (none)\n"@
    } else {
        "  - Roots:\n"@ + spec_root_lines(gc, 0, "    - "@)
    }
}

/// The memory-accounting section of the heap-state dump.
pub open spec fn spec_state_used_sec(gc: Gc) -> Seq<char> {
    "  - Currently used: "@ + spec_decimal(gc.spec_used()) + " B\n"@ + (if gc.from_space.start
        != 0 {
        "    - From-space: "@ + spec_decimal(gc.from_space.spec_size()) + " B / "@ + spec_decimal(
            gc.from_space.spec_size(),
        ) + " B used, 0 B free\n"@
    } else {
        Seq::<char>::empty()
    }) + "    - To-space: "@ + spec_decimal(gc.spec_to_space_used()) + " B / "@ + spec_decimal(
        gc.to_space.spec_size(),
    ) + " B used, "@ + spec_decimal(gc.spec_free()) + " B free\n\n"@
}

/// The full heap-state dump.
pub open spec fn spec_gc_state(gc: Gc) -> Seq<char> {
    "GC state:\n"@ + spec_state_from_sec(gc) + spec_state_to_sec(gc)
        + spec_state_status_sec(gc) + "\n"@ + spec_state_roots_sec(gc) + "\n"@
        + spec_state_used_sec(gc)
}

impl Gc {
    /// Appends the from-space section of the heap-state dump.
    #[verifier::rlimit(100)]
    fn push_state_from(&self, out: &mut Vec<char>)
        requires
            self.wf(),
            self.from_space.start != 0 ==> region_walkable(
                *self,
                self.from_space.start as int,
                self.from_space.spec_end(),
            ),
        ensures
            final(out)@ == old(out)@ + spec_state_from_sec(*self),
    {
        if self.from_space.start != 0 {
            push_lit(out, "  - From-space (");
            push_hex(out, self.from_space.start);
            push_lit(out, "..");
            push_hex(out, self.from_space.end());
            push_lit(out, "):\n");
            self.push_region(
                out,
                self.from_space.start,
                self.from_space.end(),
                "from-space",
                self.from_space.start,
            );
            push_lit(out, "\n");
        }
        proof {
            assert(final(out)@ =~= old(out)@ + spec_state_from_sec(*self));
        }
    }

    /// Appends the to-space section of the heap-state dump.
    #[verifier::rlimit(100)]
    fn push_state_to(&self, out: &mut Vec<char>)
        requires
            self.wf(),
            region_walkable(*self, self.to_space.start as int, self.next as int),
            region_walkable(*self, self.limit as int, self.to_space.spec_end()),
        ensures
            final(out)@ == old(out)@ + spec_state_to_sec(*self),
    {
        push_lit(out, "  - To-space (");
        push_hex(out, self.to_space.start);
        push_lit(out, "..");
        push_hex(out, self.to_space.end());
        push_lit(out, "):\n");
        self.push_region(out, self.to_space.start, self.next, "to-space", self.to_space.start);
        if self.next < self.limit {
            push_lit(out, "    - ");
            push_hex(out, self.next);
            push_lit(out, "..");
            push_hex(out, self.limit);
            push_lit(out, " free\n");
        }
        self.push_region(out, self.limit, self.to_space.end(), "to-space", self.to_space.start);
        push_lit(out, "\n");
        proof {
            assert(final(out)@ =~= old(out)@ + spec_state_to_sec(*self));
        }
    }

    /// Appends the cycle-status section of the heap-state dump.
    fn push_state_status(&self, out: &mut Vec<char>)
        ensures
            final(out)@ == old(out)@ + spec_state_status_sec(*self),
    {
        if self.gc_in_progress {
            push_lit(
                out,
                "  - Garbage collection currently in progress:\n    - Scan pointer: ",
            );
            push_hex(out, self.scan);
            push_lit(out, "\n    - Next pointer: ");
            push_hex(out, self.next);
            push_lit(out, "\n    - Limit pointer: ");
            push_hex(out, self.limit);
            push_lit(out, "\n");
        } else {
            push_lit(out, "  - Garbage collection currently not running\n");
        }
        proof {
            assert(final(out)@ =~= old(out)@ + spec_state_status_sec(*self));
        }
    }

    /// Appends the roots section of the heap-state dump.
    fn push_state_roots(&self, out: &mut Vec<char>)
        requires
            self.wf(),
            roots_displayable(*self),
        ensures
            final(out)@ == old(out)@ + spec_state_roots_sec(*self),
    {
        if self.roots.len() == 0 {
            push_lit(out, "  - Roots: (none)\n");
        } else {
            push_lit(out, "  - Roots:\n");
            self.push_roots(out, "    - ");
        }
        proof {
            assert(final(out)@ =~= old(out)@ + spec_state_roots_sec(*self));
        }
    }

    /// Appends the memory-accounting section of the heap-state dump.
    #[verifier::rlimit(100)]
    fn push_state_used(&self, out: &mut Vec<char>)
        requires
            self.wf(),
        ensures
            final(out)@ == old(out)@ + spec_state_used_sec(*self),
    {
        push_lit(out, "  - Currently used: ");
        push_decimal(out, self.used_memory());
        push_lit(out, " B\n");
        if self.from_space.start != 0 {
            push_lit(out, "    - From-space: ");
            push_decimal(out, self.from_space.size());
            push_lit(out, " B / ");
            push_decimal(out, self.from_space.size());
            push_lit(out, " B used, 0 B free\n");
        }
        push_lit(out, "    - To-space: ");
        push_decimal(out, self.to_space_used_memory());
        push_lit(out, " B / ");
        push_decimal(out, self.to_space.size());
        push_lit(out, " B used, ");
        push_decimal(out, self.free_memory());
        push_lit(out, " B free\n\n");
        proof {
            assert(final(out)@ =~= old(out)@ + spec_state_used_sec(*self));
        }
    }
}

/// Renders the full heap state exactly as the host prints it: both spaces
/// object by object, the cycle status and its three pointers, the roots, and
/// the memory accounting.
pub fn render_gc_state(gc: &Gc) -> (r: String)
    requires
        gc.wf(),
        gc.from_space.start != 0 ==> region_walkable(
            *gc,
            gc.from_space.start as int,
            gc.from_space.spec_end(),
        ),
        region_walkable(*gc, gc.to_space.start as int, gc.next as int),
        region_walkable(*gc, gc.limit as int, gc.to_space.spec_end()),
        roots_displayable(*gc),
    ensures
        r@ == spec_gc_state(*gc),
{
    let mut out: Vec<char> = Vec::new();
    push_lit(&mut out, "GC state:\n");
    gc.push_state_from(&mut out);
    gc.push_state_to(&mut out);
    gc.push_state_status(&mut out);
    push_lit(&mut out, "\n");
    gc.push_state_roots(&mut out);
    push_lit(&mut out, "\n");
    gc.push_state_used(&mut out);
    proof {
        assert(out@ =~= spec_gc_state(*gc));
    }
    chars_to_string(out)
}

} // verus!
