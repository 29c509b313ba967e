//! Semi-spaces: contiguous, aligned word ranges, and the layout of object
//! chains inside them.
//!
//! A [`Space`] models one semi-space of the heap: `words[i]` is the machine
//! word at byte address `start + 8 * i`. Addresses are plain byte addresses,
//! so alignment and containment mean exactly what they would in a real
//! address space; a space with `start == 0` is the null space, which
//! contains nothing.

use crate::layout::{spec_align_down, spec_obj_bytes, align_down};
use vstd::prelude::*;

verus! {

/// Highest byte address any space may reach; keeps all address arithmetic
/// well inside `usize` on every platform.
pub const ADDR_CAP: usize = 0x4000_0000;

/// A contiguous bounded chunk of heap memory; one of the two semi-spaces
/// managed by the collector.
pub struct Space {
    /// Byte address of the first word; 0 for the null space.
    pub start: usize,
    /// The heap words, one per 8 bytes, beginning at `start`.
    pub words: Vec<usize>,
}

impl Space {
    /// Size of the space in bytes.
    pub open spec fn spec_size(self) -> int {
        8 * self.words@.len() as int
    }

    /// One past the last byte belonging to the space.
    pub open spec fn spec_end(self) -> int {
        self.start + self.spec_size()
    }

    /// Basic shape: an aligned base, a null representation without words, and
    /// bounds that keep address arithmetic overflow-free.
    pub open spec fn wf(self) -> bool {
        &&& self.start % 8 == 0
        &&& self.start == 0 ==> self.words@.len() == 0
        &&& self.spec_end() <= ADDR_CAP
    }

    /// Whether byte address `a` lies inside the space. The end address is
    /// excluded, and the null space contains nothing.
    pub open spec fn spec_contains(self, a: int) -> bool {
        self.start > 0 && self.start <= a < self.spec_end()
    }

    /// The word whose first byte is at (aligned, contained) address `a`.
    pub open spec fn word_at(self, a: int) -> usize {
        self.words@[(a - self.start) / 8]
    }

    /// The `k`-th word of the object whose header sits at `base`: the header
    /// itself for `k == 0`, field `k - 1` otherwise.
    pub open spec fn obj_word(self, base: int, k: int) -> usize {
        self.word_at(base + 8 * k)
    }

    /// The word index backing address `a`.
    pub open spec fn word_index(self, a: int) -> int {
        (a - self.start) / 8
    }

    /// Allocates a semi-space no larger than `size` bytes with its base at
    /// `start`. The size is rounded down to the alignment; anything below one
    /// word yields the null space.
    pub fn create(size: usize, start: usize) -> (s: Space)
        requires
            start % 8 == 0,
            start > 0,
            start + size <= ADDR_CAP,
        ensures
            s.wf(),
            size >= 8 ==> s.start == start && s.spec_size() == spec_align_down(
                size as int,
                8,
            ),
            size < 8 ==> s.start == 0 && s.spec_size() == 0,
            forall|i: int| 0 <= i < s.words@.len() ==> s.words@[i] == 0,
    {
        let adjusted = if size == 0 {
            1
        } else {
            size
        };
        let rounded = align_down(adjusted, 8);
        if rounded == 0 {
            Space { start: 0, words: Vec::new() }
        } else {
            let n = rounded / 8;
            proof {
                vstd::arithmetic::div_mod::lemma_fundamental_div_mod(rounded as int, 8);
            }
            Space { start, words: vec![0usize; n] }
        }
    }

    /// Returns the address one past the last byte belonging to this space.
    pub fn end(&self) -> (r: usize)
        requires
            self.wf(),
        ensures
            r == self.spec_end(),
    {
        self.start + 8 * self.words.len()
    }

    /// Returns the size of this space in bytes.
    pub fn size(&self) -> (r: usize)
        requires
            self.wf(),
        ensures
            r == self.spec_size(),
    {
        8 * self.words.len()
    }

    /// Checks if byte address `ptr` points into this semi-space.
    ///
    /// Note that `contains(end())` returns `false`, as does `contains` of
    /// anything on the null space.
    pub fn contains(&self, ptr: usize) -> (r: bool)
        requires
            self.wf(),
        ensures
            r == self.spec_contains(ptr as int),
    {
        ptr != 0 && self.start <= ptr && ptr < self.end()
    }

    /// Loads the word at aligned address `a`.
    pub fn load(&self, a: usize) -> (r: usize)
        requires
            self.wf(),
            self.spec_contains(a as int),
            a % 8 == 0,
        ensures
            r == self.word_at(a as int),
    {
        proof {
            lemma_word_index(self.start as int, a as int, self.words@.len() as int);
        }
        self.words[(a - self.start) / 8]
    }

    /// Stores `v` into the word at aligned address `a`, leaving every other
    /// word unchanged.
    pub fn store(&mut self, a: usize, v: usize)
        requires
            old(self).wf(),
            old(self).spec_contains(a as int),
            a % 8 == 0,
        ensures
            final(self).wf(),
            final(self).start == old(self).start,
            final(self).words@.len() == old(self).words@.len(),
            final(self).words@ == old(self).words@.update(old(self).word_index(a as int), v),
            final(self).word_at(a as int) == v,
            forall|b: int|
                b % 8 == 0 && b != a && old(self).spec_contains(b) ==> final(self).word_at(b)
                    == old(self).word_at(b),
    {
        proof {
            let st = self.start as int;
            let n = self.words@.len() as int;
            lemma_word_index(st, a as int, n);
            assert forall|b: int|
                b % 8 == 0 && b != a && old(self).spec_contains(b) implies old(self).word_index(b)
                != old(self).word_index(a as int) && 0 <= old(self).word_index(b) < n by {
                lemma_word_index(st, b, n);
            }
        }
        self.words[(a - self.start) / 8] = v;
    }
}

impl Default for Space {
    /// The null space.
    fn default() -> (s: Self)
        ensures
            s.wf(),
            s.start == 0,
            s.words@.len() == 0,
    {
        Space { start: 0, words: Vec::new() }
    }
}

/// An aligned address inside an aligned word range corresponds to exactly one
/// word index.
pub proof fn lemma_word_index(start: int, a: int, n: int)
    requires
        start % 8 == 0,
        a % 8 == 0,
        start <= a < start + 8 * n,
    ensures
        0 <= (a - start) / 8 < n,
        8 * ((a - start) / 8) == a - start,
{
    let d = a - start;
    assert(d % 8 == 0) by (nonlinear_arith)
        requires
            a % 8 == 0,
            start % 8 == 0,
            d == a - start,
    ;
    vstd::arithmetic::div_mod::lemma_fundamental_div_mod(d, 8);
}

/// Field slots of an aligned object are aligned.
pub proof fn lemma_slot_aligned(o: int, i: int)
    requires
        o % 8 == 0,
    ensures
        (o + 8 + 8 * i) % 8 == 0,
{
    vstd::arithmetic::div_mod::lemma_fundamental_div_mod(o, 8);
    let q = o / 8;
    assert(o + 8 + 8 * i == 8 * (q + 1 + i)) by (nonlinear_arith)
        requires
            o == 8 * q,
    ;
    vstd::arithmetic::div_mod::lemma_mod_multiples_basic(q + 1 + i, 8);
}

/// The byte distance between two aligned addresses is an exact number of
/// words.
pub proof fn lemma_word_offset(start: int, a: int)
    requires
        start % 8 == 0,
        a % 8 == 0,
        start <= a,
    ensures
        8 * ((a - start) / 8) == a - start,
        (a - start) / 8 >= 0,
{
    let d = a - start;
    assert(d % 8 == 0) by (nonlinear_arith)
        requires
            a % 8 == 0,
            start % 8 == 0,
            d == a - start,
    ;
    vstd::arithmetic::div_mod::lemma_fundamental_div_mod(d, 8);
    vstd::arithmetic::div_mod::lemma_div_pos_is_pos(d, 8);
}

/// A contained aligned address names exactly one backing word.
pub proof fn lemma_word_lookup(s: Space, a: int)
    requires
        s.wf(),
        s.spec_contains(a),
        a % 8 == 0,
    ensures
        0 <= s.word_index(a) < s.words@.len(),
        s.words@[s.word_index(a)] == s.word_at(a),
        8 * s.word_index(a) == a - s.start,
{
    lemma_word_index(s.start as int, a, s.words@.len() as int);
}

/// The number of bytes occupied by the object whose header sits at `a`.
pub open spec fn obj_bytes_at(s: Space, fc_mask: usize, a: int) -> int {
    spec_obj_bytes(s.word_at(a), fc_mask)
}

/// `[a, b)` parses as a sequence of objects laid end to end: starting at `a`,
/// each header's size steps to the next header, landing exactly on `b`.
pub open spec fn region_objs(s: Space, fc_mask: usize, a: int, b: int) -> bool
    decreases b - a,
{
    if a >= b {
        a == b
    } else {
        a + obj_bytes_at(s, fc_mask, a) <= b && region_objs(
            s,
            fc_mask,
            a + obj_bytes_at(s, fc_mask, a),
            b,
        )
    }
}

/// `o` is the start of one of the objects of the parsed region `[a, b)`.
pub open spec fn region_member(s: Space, fc_mask: usize, a: int, b: int, o: int) -> bool
    decreases b - a,
{
    if a >= b {
        false
    } else if o == a {
        true
    } else {
        a + obj_bytes_at(s, fc_mask, a) <= b && region_member(
            s,
            fc_mask,
            a + obj_bytes_at(s, fc_mask, a),
            b,
            o,
        )
    }
}

/// Parsing depends only on the words of the region: two spaces with the same
/// base that agree on every aligned word of `[a, b)` parse it identically.
pub proof fn lemma_region_agree(s1: Space, s2: Space, fc_mask: usize, a: int, b: int)
    requires
        s1.start == s2.start,
        a % 8 == 0,
        forall|c: int| c % 8 == 0 && a <= c < b ==> s1.word_at(c) == s2.word_at(c),
    ensures
        region_objs(s1, fc_mask, a, b) == region_objs(s2, fc_mask, a, b),
        forall|o: int|
            region_member(s1, fc_mask, a, b, o) == region_member(s2, fc_mask, a, b, o),
    decreases b - a,
{
    if a >= b {
    } else {
        assert(s1.word_at(a) == s2.word_at(a));
        let sz = obj_bytes_at(s1, fc_mask, a);
        crate::layout::lemma_obj_bytes_aligned(s1.word_at(a), fc_mask);
        assert((a + sz) % 8 == 0) by (nonlinear_arith)
            requires
                a % 8 == 0,
                sz % 8 == 0,
        ;
        if a + sz <= b {
            lemma_region_agree(s1, s2, fc_mask, a + sz, b);
            assert forall|o: int|
                region_member(s1, fc_mask, a, b, o) == region_member(s2, fc_mask, a, b, o) by {
                assert(region_member(s1, fc_mask, a + sz, b, o) == region_member(
                    s2,
                    fc_mask,
                    a + sz,
                    b,
                    o,
                ));
            }
        } else {
            assert(!region_objs(s1, fc_mask, a, b));
            assert(!region_objs(s2, fc_mask, a, b));
            assert forall|o: int|
                region_member(s1, fc_mask, a, b, o) == region_member(s2, fc_mask, a, b, o) by {
                assert(region_member(s1, fc_mask, a, b, o) == (o == a));
                assert(region_member(s2, fc_mask, a, b, o) == (o == a));
            }
        }
    }
}

/// Two adjoining parsed regions form one parsed region whose objects are
/// exactly those of the two parts.
pub proof fn lemma_region_concat(s: Space, fc_mask: usize, a: int, m: int, b: int)
    requires
        region_objs(s, fc_mask, a, m),
        region_objs(s, fc_mask, m, b),
        a <= m <= b,
    ensures
        region_objs(s, fc_mask, a, b),
        forall|o: int|
            region_member(s, fc_mask, a, b, o) == (region_member(s, fc_mask, a, m, o)
                || region_member(s, fc_mask, m, b, o)),
    decreases m - a,
{
    if a == m {
        assert forall|o: int|
            region_member(s, fc_mask, a, b, o) == (region_member(s, fc_mask, a, m, o)
                || region_member(s, fc_mask, m, b, o)) by {
            assert(!region_member(s, fc_mask, a, a, o));
        }
    } else {
        let sz = obj_bytes_at(s, fc_mask, a);
        lemma_region_concat(s, fc_mask, a + sz, m, b);
        assert forall|o: int|
            region_member(s, fc_mask, a, b, o) == (region_member(s, fc_mask, a, m, o)
                || region_member(s, fc_mask, m, b, o)) by {
            assert(region_member(s, fc_mask, a + sz, b, o) == (region_member(
                s,
                fc_mask,
                a + sz,
                m,
                o,
            ) || region_member(s, fc_mask, m, b, o)));
        }
    }
}

/// Every member of a parsed region starts a parsed suffix; members are
/// aligned with the region base and their objects fit inside it.
pub proof fn lemma_region_suffix(s: Space, fc_mask: usize, a: int, b: int, o: int)
    requires
        region_objs(s, fc_mask, a, b),
        region_member(s, fc_mask, a, b, o),
        a % 8 == 0,
    ensures
        region_objs(s, fc_mask, o, b),
        a <= o < b,
        o % 8 == 0,
        o + obj_bytes_at(s, fc_mask, o) <= b,
    decreases b - a,
{
    if o == a {
    } else {
        let sz = obj_bytes_at(s, fc_mask, a);
        crate::layout::lemma_obj_bytes_aligned(s.word_at(a), fc_mask);
        assert((a + sz) % 8 == 0) by (nonlinear_arith)
            requires
                a % 8 == 0,
                sz % 8 == 0,
        ;
        lemma_region_suffix(s, fc_mask, a + sz, b, o);
    }
}

/// After a member object comes either the end of the region or another
/// member.
pub proof fn lemma_region_next_member(s: Space, fc_mask: usize, a: int, b: int, o: int)
    requires
        region_objs(s, fc_mask, a, b),
        region_member(s, fc_mask, a, b, o),
    ensures
        o + obj_bytes_at(s, fc_mask, o) == b || region_member(
            s,
            fc_mask,
            a,
            b,
            o + obj_bytes_at(s, fc_mask, o),
        ),
    decreases b - a,
{
    let sz = obj_bytes_at(s, fc_mask, a);
    if o == a {
        if a + sz != b {
            assert(region_member(s, fc_mask, a + sz, b, a + sz));
        }
    } else {
        lemma_region_next_member(s, fc_mask, a + sz, b, o);
    }
}

/// Storing into a field slot of a member object leaves the region's parse and
/// membership unchanged: headers are untouched because field slots of one
/// object never coincide with any member's header word.
pub proof fn lemma_region_store(
    s1: Space,
    s2: Space,
    fc_mask: usize,
    a: int,
    b: int,
    o: int,
    d: int,
)
    requires
        region_objs(s1, fc_mask, a, b),
        region_member(s1, fc_mask, a, b, o),
        a % 8 == 0,
        d % 8 == 0,
        o + 8 <= d < o + obj_bytes_at(s1, fc_mask, o),
        s1.start == s2.start,
        forall|c: int| c % 8 == 0 && a <= c < b && c != d ==> s1.word_at(c) == s2.word_at(c),
    ensures
        region_objs(s2, fc_mask, a, b),
        forall|o2: int|
            region_member(s1, fc_mask, a, b, o2) == region_member(s2, fc_mask, a, b, o2),
    decreases b - a,
{
    let sz = obj_bytes_at(s1, fc_mask, a);
    crate::layout::lemma_obj_bytes_aligned(s1.word_at(a), fc_mask);
    assert((a + sz) % 8 == 0) by (nonlinear_arith)
        requires
            a % 8 == 0,
            sz % 8 == 0,
    ;
    if o == a {
        // The store lands strictly inside the first object's fields, so the
        // first header and everything from `a + sz` on are unchanged.
        assert(s2.word_at(a) == s1.word_at(a));
        lemma_region_agree(s1, s2, fc_mask, a + sz, b);
        assert forall|o2: int|
            region_member(s1, fc_mask, a, b, o2) == region_member(s2, fc_mask, a, b, o2) by {
            assert(region_member(s1, fc_mask, a + sz, b, o2) == region_member(
                s2,
                fc_mask,
                a + sz,
                b,
                o2,
            ));
        }
    } else {
        lemma_region_suffix(s1, fc_mask, a + sz, b, o);
        assert(s2.word_at(a) == s1.word_at(a));
        lemma_region_store(s1, s2, fc_mask, a + sz, b, o, d);
        assert forall|o2: int|
            region_member(s1, fc_mask, a, b, o2) == region_member(s2, fc_mask, a, b, o2) by {
            assert(region_member(s1, fc_mask, a + sz, b, o2) == region_member(
                s2,
                fc_mask,
                a + sz,
                b,
                o2,
            ));
        }
    }
}

/// A single freshly laid-out object is a parsed region of its own extent.
pub proof fn lemma_region_one(s: Space, fc_mask: usize, o: int, c: int)
    requires
        c == o + obj_bytes_at(s, fc_mask, o),
    ensures
        region_objs(s, fc_mask, o, c),
        region_member(s, fc_mask, o, c, o),
{
    crate::layout::lemma_obj_bytes_aligned(s.word_at(o), fc_mask);
    assert(region_objs(s, fc_mask, c, c));
}

} // verus!
