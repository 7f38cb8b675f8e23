//! Alignment and fixed-size queries on signatures, for the two
//! serialization dialects.

use vstd::prelude::*;

use crate::signature::{sig_view, views_of, SigTree, Signature};
use crate::signature::lemma_views_of;

verus! {

/// A serialization dialect.
#[derive(Clone, Copy, Debug, PartialEq, Eq, Structural)]
pub enum Format {
    /// The classic D-Bus wire format.
    DBus,
    /// The GVariant wire format.
    GVariant,
}

/// The D-Bus padding modulus of a signature. It depends only on the
/// outermost variant; a maybe type has no D-Bus alignment.
pub open spec fn align_dbus(t: SigTree) -> int {
    match t {
        SigTree::U8 | SigTree::Variant | SigTree::Signature => 1,
        SigTree::I16 | SigTree::U16 => 2,
        SigTree::I32 | SigTree::U32 | SigTree::Bool | SigTree::Str | SigTree::ObjectPath
            | SigTree::Array(_) | SigTree::Dict { .. } | SigTree::Fd => 4,
        SigTree::I64 | SigTree::U64 | SigTree::F64 | SigTree::Unit | SigTree::Structure(_) => 8,
        SigTree::Maybe(_) => arbitrary(),
    }
}

/// The GVariant padding modulus of a signature.
pub open spec fn align_gvariant(t: SigTree) -> int
    decreases t, 0int,
{
    match t {
        SigTree::Unit => 8,
        SigTree::U8 => 1,
        SigTree::Bool => 4,
        SigTree::I16 | SigTree::U16 => 2,
        SigTree::I32 | SigTree::U32 => 4,
        SigTree::I64 | SigTree::U64 | SigTree::F64 => 8,
        SigTree::Signature => 1,
        SigTree::Fd => 4,
        SigTree::Str | SigTree::ObjectPath => 1,
        SigTree::Variant => 8,
        SigTree::Array(child) => align_gvariant(*child),
        SigTree::Dict { key, value } => if align_gvariant(*key) >= align_gvariant(*value) {
            align_gvariant(*key)
        } else {
            align_gvariant(*value)
        },
        SigTree::Structure(fields) => fields_align_gvariant(fields),
        SigTree::Maybe(child) => align_gvariant(*child),
    }
}

/// The largest GVariant alignment among the given fields, or 1 if there
/// are none.
pub open spec fn fields_align_gvariant(fields: Seq<SigTree>) -> int
    decreases fields, 1int,
{
    if fields.len() == 0 {
        1
    } else {
        let head = align_gvariant(fields[0]);
        let rest = fields_align_gvariant(fields.drop_first());
        if head >= rest {
            head
        } else {
            rest
        }
    }
}

/// Every GVariant alignment lies between 1 and 8.
pub proof fn lemma_align_gvariant_bounds(t: SigTree)
    ensures
        1 <= align_gvariant(t) <= 8,
    decreases t, 0int,
{
    match t {
        SigTree::Array(child) => lemma_align_gvariant_bounds(*child),
        SigTree::Dict { key, value } => {
            lemma_align_gvariant_bounds(*key);
            lemma_align_gvariant_bounds(*value);
        },
        SigTree::Structure(fields) => lemma_fields_align_gvariant_bounds(fields),
        SigTree::Maybe(child) => lemma_align_gvariant_bounds(*child),
        _ => {},
    }
}

/// The largest alignment among any fields lies between 1 and 8.
pub proof fn lemma_fields_align_gvariant_bounds(fields: Seq<SigTree>)
    ensures
        1 <= fields_align_gvariant(fields) <= 8,
    decreases fields, 1int,
{
    if fields.len() > 0 {
        lemma_align_gvariant_bounds(fields[0]);
        lemma_fields_align_gvariant_bounds(fields.drop_first());
    }
}

/// Whether a value of this signature occupies a fixed number of bytes in
/// the GVariant format.
pub open spec fn fixed_sized(t: SigTree) -> bool
    decreases t, 0int,
{
    match t {
        SigTree::Unit | SigTree::U8 | SigTree::Bool | SigTree::I16 | SigTree::U16 | SigTree::I32
            | SigTree::U32 | SigTree::I64 | SigTree::U64 | SigTree::F64 | SigTree::Fd => true,
        SigTree::Str | SigTree::Signature | SigTree::ObjectPath | SigTree::Variant
            | SigTree::Array(_) | SigTree::Dict { .. } | SigTree::Maybe(_) => false,
        SigTree::Structure(fields) => all_fixed_sized(fields),
    }
}

/// Whether every one of the given fields is fixed-sized.
pub open spec fn all_fixed_sized(fields: Seq<SigTree>) -> bool
    decreases fields, 1int,
{
    if fields.len() == 0 {
        true
    } else {
        fixed_sized(fields[0]) && all_fixed_sized(fields.drop_first())
    }
}

impl Signature {
    /// The D-Bus padding modulus of `self`. A maybe type has none: the
    /// D-Bus format does not carry it.
    pub fn alignment_dbus(&self) -> (r: usize)
        requires
            !(self@ is Maybe),
        ensures
            r as int == align_dbus(self@),
    {
        match self {
            Signature::U8 | Signature::Variant | Signature::Signature => 1,
            Signature::I16 | Signature::U16 => 2,
            Signature::I32 | Signature::U32 | Signature::Bool | Signature::Str
                | Signature::ObjectPath | Signature::Array(_) | Signature::Dict { .. }
                | Signature::Fd => 4,
            _ => 8,
        }
    }

    /// The GVariant padding modulus of `self`: containers align as their
    /// children do.
    pub fn alignment_gvariant(&self) -> (r: usize)
        ensures
            r as int == align_gvariant(self@),
            1 <= r <= 8,
        decreases *self,
    {
        match self {
            Signature::Unit => 8,
            Signature::U8 => 1,
            Signature::Bool => 4,
            Signature::I16 | Signature::U16 => 2,
            Signature::I32 | Signature::U32 => 4,
            Signature::I64 | Signature::U64 | Signature::F64 => 8,
            Signature::Signature => 1,
            Signature::Fd => 4,
            Signature::Str | Signature::ObjectPath => 1,
            Signature::Variant => 8,
            Signature::Array(child) => child.alignment_gvariant(),
            Signature::Dict { key, value } => {
                let k = key.alignment_gvariant();
                let v = value.alignment_gvariant();
                if k >= v {
                    k
                } else {
                    v
                }
            },
            Signature::Structure(fields) => {
                proof {
                    lemma_views_of(fields@);
                }
                let ghost vs = views_of(fields@);
                let n = fields.len();
                let mut best: usize = 1;
                let mut i: usize = 0;
                proof {
                    assert(vs.skip(0) =~= vs);
                    lemma_fields_align_gvariant_bounds(vs);
                }
                while i < n
                    invariant
                        i <= n,
                        n == fields@.len(),
                        vs == views_of(fields@),
                        vs.len() == n,
                        forall|j: int| 0 <= j < n ==> vs[j] == sig_view(fields@[j]),
                        *self == Signature::Structure(*fields),
                        sig_view(*self) == SigTree::Structure(vs),
                        1 <= best <= 8,
                        fields_align_gvariant(vs) == (if best as int >= fields_align_gvariant(
                            vs.skip(i as int),
                        ) {
                            best as int
                        } else {
                            fields_align_gvariant(vs.skip(i as int))
                        }),
                    decreases n - i,
                {
                    proof {
                        assert(decreases_to!(*self => self->Structure_0));
                        assert(self->Structure_0 == *fields);
                        assert(decreases_to!(*fields => fields@));
                        assert(decreases_to!(fields@ => fields@[i as int]));
                        assert(vs.skip(i as int)[0] == vs[i as int]);
                        assert(vs.skip(i as int).drop_first() =~= vs.skip(i as int + 1));
                        lemma_fields_align_gvariant_bounds(vs.skip(i as int + 1));
                    }
                    let a = fields[i].alignment_gvariant();
                    if a > best {
                        best = a;
                    }
                    i = i + 1;
                }
                proof {
                    assert(vs.skip(n as int) =~= Seq::<SigTree>::empty());
                }
                best
            },
            Signature::Maybe(child) => child.alignment_gvariant(),
        }
    }

    /// The padding modulus of `self` for the given dialect. In the D-Bus
    /// dialect a maybe type has none.
    pub fn alignment(&self, format: Format) -> (r: usize)
        requires
            format is DBus ==> !(self@ is Maybe),
        ensures
            r as int == (if format is DBus {
                align_dbus(self@)
            } else {
                align_gvariant(self@)
            }),
    {
        match format {
            Format::DBus => self.alignment_dbus(),
            Format::GVariant => self.alignment_gvariant(),
        }
    }

    /// Whether a value of this signature occupies a fixed number of bytes
    /// in the GVariant format.
    pub fn is_fixed_sized(&self) -> (r: bool)
        ensures
            r == fixed_sized(self@),
        decreases *self,
    {
        match self {
            Signature::Unit | Signature::U8 | Signature::Bool | Signature::I16 | Signature::U16
                | Signature::I32 | Signature::U32 | Signature::I64 | Signature::U64
                | Signature::F64 | Signature::Fd => true,
            Signature::Str | Signature::Signature | Signature::ObjectPath | Signature::Variant
                | Signature::Array(_) | Signature::Dict { .. } | Signature::Maybe(_) => false,
            Signature::Structure(fields) => {
                proof {
                    lemma_views_of(fields@);
                }
                let ghost vs = views_of(fields@);
                let n = fields.len();
                let mut i: usize = 0;
                proof {
                    assert(vs.skip(0) =~= vs);
                }
                while i < n
                    invariant
                        i <= n,
                        n == fields@.len(),
                        vs == views_of(fields@),
                        vs.len() == n,
                        forall|j: int| 0 <= j < n ==> vs[j] == sig_view(fields@[j]),
                        *self == Signature::Structure(*fields),
                        sig_view(*self) == SigTree::Structure(vs),
                        all_fixed_sized(vs) == all_fixed_sized(vs.skip(i as int)),
                    decreases n - i,
                {
                    proof {
                        assert(decreases_to!(*self => self->Structure_0));
                        assert(self->Structure_0 == *fields);
                        assert(decreases_to!(*fields => fields@));
                        assert(decreases_to!(fields@ => fields@[i as int]));
                        assert(vs.skip(i as int)[0] == vs[i as int]);
                        assert(vs.skip(i as int).drop_first() =~= vs.skip(i as int + 1));
                    }
                    if !fields[i].is_fixed_sized() {
                        return false;
                    }
                    i = i + 1;
                }
                proof {
                    assert(vs.skip(n as int) =~= Seq::<SigTree>::empty());
                }
                true
            },
        }
    }
}

} // verus!
