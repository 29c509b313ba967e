//! Object tags and the classification of their fields.

use vstd::prelude::*;

verus! {

/// The variant of a heap object, encoded by the host in the low bits of the
/// object header.
#[derive(Debug, Clone, Copy, PartialEq, Eq, Structural)]
pub enum StellaTag {
    Zero,
    Succ,
    False,
    True,
    Fn,
    Ref,
    Unit,
    Tuple,
    Inl,
    Inr,
    Empty,
    Cons,
}

/// What a field of a heap object holds.
#[derive(Debug, Clone, Copy, PartialEq, Eq, Structural)]
pub enum StellaFieldKind {
    /// The field holds a pointer to another heap object.
    Obj,
    /// The field holds an arbitrary pointer that the collector must not trace.
    Raw,
    /// The field is not supposed to be there at all.
    Invalid,
}

impl StellaTag {
    /// The integer the host stores for this tag in the header's tag bits.
    pub open spec fn repr(self) -> usize {
        match self {
            StellaTag::Zero => 0,
            StellaTag::Succ => 1,
            StellaTag::False => 2,
            StellaTag::True => 3,
            StellaTag::Fn => 4,
            StellaTag::Ref => 5,
            StellaTag::Unit => 6,
            StellaTag::Tuple => 7,
            StellaTag::Inl => 8,
            StellaTag::Inr => 9,
            StellaTag::Empty => 10,
            StellaTag::Cons => 11,
        }
    }

    /// Classification of the field with 0-based index `idx` for this tag.
    pub open spec fn spec_field_kind(self, idx: usize) -> StellaFieldKind {
        match self {
            StellaTag::Zero => StellaFieldKind::Invalid,
            StellaTag::Succ => if idx == 0 {
                StellaFieldKind::Obj
            } else {
                StellaFieldKind::Invalid
            },
            StellaTag::False => StellaFieldKind::Invalid,
            StellaTag::True => StellaFieldKind::Invalid,
            StellaTag::Fn => if idx == 0 {
                StellaFieldKind::Raw
            } else {
                StellaFieldKind::Obj
            },
            StellaTag::Ref => if idx == 0 {
                StellaFieldKind::Obj
            } else {
                StellaFieldKind::Invalid
            },
            StellaTag::Unit => StellaFieldKind::Invalid,
            StellaTag::Tuple => StellaFieldKind::Obj,
            StellaTag::Inl => if idx == 0 {
                StellaFieldKind::Obj
            } else {
                StellaFieldKind::Invalid
            },
            StellaTag::Inr => if idx == 0 {
                StellaFieldKind::Obj
            } else {
                StellaFieldKind::Invalid
            },
            StellaTag::Empty => StellaFieldKind::Invalid,
            StellaTag::Cons => if idx < 2 {
                StellaFieldKind::Obj
            } else {
                StellaFieldKind::Invalid
            },
        }
    }

    /// Classifies a field (with the given 0-based `idx`) of a heap object with
    /// this tag. Only `Fn` objects have a raw field, at index 0.
    pub fn field_kind(self, idx: usize) -> (r: StellaFieldKind)
        ensures
            r == self.spec_field_kind(idx),
    {
        match self {
            StellaTag::Zero => StellaFieldKind::Invalid,
            StellaTag::Succ => if idx == 0 {
                StellaFieldKind::Obj
            } else {
                StellaFieldKind::Invalid
            },
            StellaTag::False => StellaFieldKind::Invalid,
            StellaTag::True => StellaFieldKind::Invalid,
            StellaTag::Fn => if idx == 0 {
                StellaFieldKind::Raw
            } else {
                StellaFieldKind::Obj
            },
            StellaTag::Ref => if idx == 0 {
                StellaFieldKind::Obj
            } else {
                StellaFieldKind::Invalid
            },
            StellaTag::Unit => StellaFieldKind::Invalid,
            StellaTag::Tuple => StellaFieldKind::Obj,
            StellaTag::Inl => if idx == 0 {
                StellaFieldKind::Obj
            } else {
                StellaFieldKind::Invalid
            },
            StellaTag::Inr => if idx == 0 {
                StellaFieldKind::Obj
            } else {
                StellaFieldKind::Invalid
            },
            StellaTag::Empty => StellaFieldKind::Invalid,
            StellaTag::Cons => if idx < 2 {
                StellaFieldKind::Obj
            } else {
                StellaFieldKind::Invalid
            },
        }
    }

    /// The tag whose encoding is `v`, if `v` encodes one.
    pub open spec fn spec_from_repr(v: usize) -> Option<StellaTag> {
        if v == 0 {
            Some(StellaTag::Zero)
        } else if v == 1 {
            Some(StellaTag::Succ)
        } else if v == 2 {
            Some(StellaTag::False)
        } else if v == 3 {
            Some(StellaTag::True)
        } else if v == 4 {
            Some(StellaTag::Fn)
        } else if v == 5 {
            Some(StellaTag::Ref)
        } else if v == 6 {
            Some(StellaTag::Unit)
        } else if v == 7 {
            Some(StellaTag::Tuple)
        } else if v == 8 {
            Some(StellaTag::Inl)
        } else if v == 9 {
            Some(StellaTag::Inr)
        } else if v == 10 {
            Some(StellaTag::Empty)
        } else if v == 11 {
            Some(StellaTag::Cons)
        } else {
            None
        }
    }

    /// Decodes tag bits; unknown values yield `None` so callers can fail
    /// loudly.
    pub fn from_repr(v: usize) -> (r: Option<StellaTag>)
        ensures
            r == Self::spec_from_repr(v),
            r is Some <==> v <= 11,
            forall|t: StellaTag| r == Some(t) ==> t.repr() == v,
    {
        if v == 0 {
            Some(StellaTag::Zero)
        } else if v == 1 {
            Some(StellaTag::Succ)
        } else if v == 2 {
            Some(StellaTag::False)
        } else if v == 3 {
            Some(StellaTag::True)
        } else if v == 4 {
            Some(StellaTag::Fn)
        } else if v == 5 {
            Some(StellaTag::Ref)
        } else if v == 6 {
            Some(StellaTag::Unit)
        } else if v == 7 {
            Some(StellaTag::Tuple)
        } else if v == 8 {
            Some(StellaTag::Inl)
        } else if v == 9 {
            Some(StellaTag::Inr)
        } else if v == 10 {
            Some(StellaTag::Empty)
        } else if v == 11 {
            Some(StellaTag::Cons)
        } else {
            None
        }
    }

    /// The printed (kebab-case) name of this tag.
    pub open spec fn spec_name(self) -> Seq<char> {
        match self {
            StellaTag::Zero => "zero"@,
            StellaTag::Succ => "succ"@,
            StellaTag::False => "false"@,
            StellaTag::True => "true"@,
            StellaTag::Fn => "fn"@,
            StellaTag::Ref => "ref"@,
            StellaTag::Unit => "unit"@,
            StellaTag::Tuple => "tuple"@,
            StellaTag::Inl => "inl"@,
            StellaTag::Inr => "inr"@,
            StellaTag::Empty => "empty"@,
            StellaTag::Cons => "cons"@,
        }
    }

    /// Returns the printed name of this tag.
    pub fn name(self) -> (r: &'static str)
        ensures
            r@ == self.spec_name(),
    {
        match self {
            StellaTag::Zero => "zero",
            StellaTag::Succ => "succ",
            StellaTag::False => "false",
            StellaTag::True => "true",
            StellaTag::Fn => "fn",
            StellaTag::Ref => "ref",
            StellaTag::Unit => "unit",
            StellaTag::Tuple => "tuple",
            StellaTag::Inl => "inl",
            StellaTag::Inr => "inr",
            StellaTag::Empty => "empty",
            StellaTag::Cons => "cons",
        }
    }
}

} // verus!
