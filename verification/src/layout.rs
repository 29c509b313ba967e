//! Object layout: alignment arithmetic and header decoding.
//!
//! A heap object is one header word followed by `field_count` field words.
//! The header bit-packs the tag (under the host's tag mask) and the field
//! count (under the host's field-count mask, shifted right by four).

use vstd::prelude::*;

verus! {

/// The alignment, in bytes, of every allocation and of both semi-spaces.
pub const ALIGNMENT: usize = 8;

/// Bytes occupied by an object header: one heap word.
pub const HEADER_BYTES: usize = 8;

/// Bytes occupied by one field slot: one heap word.
pub const FIELD_BYTES: usize = 8;

/// `size` rounded up to a multiple of `align`.
pub open spec fn spec_align_up(size: int, align: int) -> int {
    if size % align > 0 {
        size + align - size % align
    } else {
        size
    }
}

/// `size` rounded down to a multiple of `align`.
pub open spec fn spec_align_down(size: int, align: int) -> int {
    size - size % align
}

/// Rounds `size` up so it has the given alignment.
pub fn align_up(size: usize, align: usize) -> (r: usize)
    requires
        align > 0,
        size + align - 1 <= usize::MAX,
    ensures
        r == spec_align_up(size as int, align as int),
        r % align == 0,
        size <= r < size + align,
{
    proof {
        lemma_align_bounds(size as int, align as int);
    }
    let misalignment = size % align;
    if misalignment > 0 {
        size + (align - misalignment)
    } else {
        size
    }
}

/// Rounds `size` down so it has the given alignment.
pub fn align_down(size: usize, align: usize) -> (r: usize)
    requires
        align > 0,
    ensures
        r == spec_align_down(size as int, align as int),
        r % align == 0,
        r <= size < r + align,
{
    proof {
        lemma_align_bounds(size as int, align as int);
    }
    size - size % align
}

/// Rounding up and rounding down land on multiples of the alignment and stay
/// within one alignment unit of the argument.
pub proof fn lemma_align_bounds(size: int, align: int)
    requires
        align > 0,
        size >= 0,
    ensures
        0 <= size % align < align,
        size % align <= size,
        spec_align_up(size, align) % align == 0,
        size <= spec_align_up(size, align) < size + align,
        spec_align_down(size, align) % align == 0,
        spec_align_down(size, align) <= size < spec_align_down(size, align) + align,
{
    let q = size / align;
    let m = size % align;
    vstd::arithmetic::div_mod::lemma_fundamental_div_mod(size, align);
    vstd::arithmetic::div_mod::lemma_mod_division_less_than_divisor(size, align);
    assert(size == align * q + m);
    assert(align * q % align == 0) by {
        vstd::arithmetic::div_mod::lemma_mod_multiples_basic(q, align);
    }
    assert(m <= size) by {
        vstd::arithmetic::div_mod::lemma_div_pos_is_pos(size, align);
        vstd::arithmetic::mul::lemma_mul_nonnegative(align, q);
    }
    if m > 0 {
        assert(spec_align_up(size, align) == align * (q + 1)) by {
            assert(align * (q + 1) == align * q + align) by (nonlinear_arith);
        }
        assert(align * (q + 1) % align == 0) by {
            vstd::arithmetic::div_mod::lemma_mod_multiples_basic(q + 1, align);
        }
    }
}

/// The field count encoded in `header` under `fc_mask`.
pub open spec fn spec_field_count(header: usize, fc_mask: usize) -> usize {
    (header & fc_mask) >> 4
}

/// Extracts the field count from an object header: the bits selected by
/// `fc_mask`, shifted right by four.
pub fn field_count_of(header: usize, fc_mask: usize) -> (r: usize)
    ensures
        r == spec_field_count(header, fc_mask),
        r <= fc_mask >> 4,
{
    proof {
        lemma_field_count_bound(header, fc_mask);
    }
    (header & fc_mask) >> 4
}

/// The field count never exceeds what the mask can express.
pub proof fn lemma_field_count_bound(header: usize, fc_mask: usize)
    ensures
        spec_field_count(header, fc_mask) <= fc_mask >> 4,
{
    assert(((header & fc_mask) >> 4) <= (fc_mask >> 4)) by (bit_vector);
}

/// The tag bits encoded in `header` under `tag_mask`.
pub open spec fn spec_tag_bits(header: usize, tag_mask: usize) -> usize {
    header & tag_mask
}

/// Extracts the tag bits from an object header.
pub fn tag_bits_of(header: usize, tag_mask: usize) -> (r: usize)
    ensures
        r == spec_tag_bits(header, tag_mask),
{
    header & tag_mask
}

/// The unaligned size in bytes of an object with the given header: the header
/// word plus one word per field.
pub open spec fn spec_obj_bytes(header: usize, fc_mask: usize) -> int {
    HEADER_BYTES + FIELD_BYTES * spec_field_count(header, fc_mask)
}

/// Computes the size of an object from its header. The result is a multiple
/// of the alignment because header and fields are whole words.
pub fn obj_bytes_of(header: usize, fc_mask: usize) -> (r: usize)
    requires
        fc_mask >> 4 <= 0xffff,
    ensures
        r == spec_obj_bytes(header, fc_mask),
        r % 8 == 0,
        8 <= r <= 8 + 8 * (fc_mask >> 4),
{
    let fc = field_count_of(header, fc_mask);
    proof {
        lemma_obj_bytes_aligned(header, fc_mask);
    }
    HEADER_BYTES + FIELD_BYTES * fc
}

/// Object sizes are positive multiples of the word size.
pub proof fn lemma_obj_bytes_aligned(header: usize, fc_mask: usize)
    ensures
        spec_obj_bytes(header, fc_mask) % 8 == 0,
        8 <= spec_obj_bytes(header, fc_mask) <= 8 + 8 * (fc_mask >> 4),
{
    let fc = spec_field_count(header, fc_mask) as int;
    lemma_field_count_bound(header, fc_mask);
    assert((8 + 8 * fc) % 8 == 0) by {
        assert(8 + 8 * fc == 8 * (1 + fc)) by (nonlinear_arith);
        vstd::arithmetic::div_mod::lemma_mod_multiples_basic(1 + fc, 8);
    }
}

} // verus!
