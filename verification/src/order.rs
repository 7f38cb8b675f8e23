//! Structural equality and total ordering of signatures.
//!
//! Two signatures are equal exactly when their trees are equal. The order
//! compares variant tags first, in declaration order, and then children:
//! an array by its child, a dictionary by key then value, a structure by
//! its fields lexicographically, a maybe by its child.

use vstd::prelude::*;

use core::cmp::Ordering;

use crate::signature::{sig_view, str_bytes, views_of, SigTree, Signature};
use crate::signature::lemma_views_of;
use crate::message::bytes_eq;
use vstd::string::StringSliceAdditionalSpecFns;

verus! {

/// The tag of a signature tree, in declaration order.
pub open spec fn rank_of(t: SigTree) -> int {
    match t {
        SigTree::Unit => 0,
        SigTree::U8 => 1,
        SigTree::Bool => 2,
        SigTree::I16 => 3,
        SigTree::U16 => 4,
        SigTree::I32 => 5,
        SigTree::U32 => 6,
        SigTree::I64 => 7,
        SigTree::U64 => 8,
        SigTree::F64 => 9,
        SigTree::Str => 10,
        SigTree::Signature => 11,
        SigTree::ObjectPath => 12,
        SigTree::Variant => 13,
        SigTree::Fd => 14,
        SigTree::Array(_) => 15,
        SigTree::Dict { .. } => 16,
        SigTree::Structure(_) => 17,
        SigTree::Maybe(_) => 18,
    }
}

/// The total order on signature trees: by tag, then by children.
pub open spec fn sig_cmp(a: SigTree, b: SigTree) -> Ordering
    decreases a, 0int,
{
    if rank_of(a) < rank_of(b) {
        Ordering::Less
    } else if rank_of(a) > rank_of(b) {
        Ordering::Greater
    } else {
        match (a, b) {
            (SigTree::Array(x), SigTree::Array(y)) => sig_cmp(*x, *y),
            (
                SigTree::Dict { key: ka, value: va },
                SigTree::Dict { key: kb, value: vb },
            ) => if sig_cmp(*ka, *kb) is Equal {
                sig_cmp(*va, *vb)
            } else {
                sig_cmp(*ka, *kb)
            },
            (SigTree::Structure(xs), SigTree::Structure(ys)) => seq_cmp(xs, ys),
            (SigTree::Maybe(x), SigTree::Maybe(y)) => sig_cmp(*x, *y),
            _ => Ordering::Equal,
        }
    }
}

/// The lexicographic order on field sequences: the first unequal pair
/// decides; a strict prefix comes first.
pub open spec fn seq_cmp(xs: Seq<SigTree>, ys: Seq<SigTree>) -> Ordering
    decreases xs, 1int,
{
    if xs.len() == 0 && ys.len() == 0 {
        Ordering::Equal
    } else if xs.len() == 0 {
        Ordering::Less
    } else if ys.len() == 0 {
        Ordering::Greater
    } else {
        if sig_cmp(xs[0], ys[0]) is Equal {
            seq_cmp(xs.drop_first(), ys.drop_first())
        } else {
            sig_cmp(xs[0], ys[0])
        }
    }
}

/// The order is consistent with equality: two trees compare equal exactly
/// when they are equal.
pub proof fn lemma_sig_cmp_equal_iff(a: SigTree, b: SigTree)
    ensures
        sig_cmp(a, b) is Equal <==> a == b,
    decreases a, 0int,
{
    if rank_of(a) == rank_of(b) {
        match (a, b) {
            (SigTree::Array(x), SigTree::Array(y)) => {
                lemma_sig_cmp_equal_iff(*x, *y);
            },
            (
                SigTree::Dict { key: ka, value: va },
                SigTree::Dict { key: kb, value: vb },
            ) => {
                lemma_sig_cmp_equal_iff(*ka, *kb);
                lemma_sig_cmp_equal_iff(*va, *vb);
            },
            (SigTree::Structure(xs), SigTree::Structure(ys)) => {
                lemma_seq_cmp_equal_iff(xs, ys);
            },
            (SigTree::Maybe(x), SigTree::Maybe(y)) => {
                lemma_sig_cmp_equal_iff(*x, *y);
            },
            _ => {},
        }
    }
}

/// The lexicographic order on field sequences is consistent with equality.
pub proof fn lemma_seq_cmp_equal_iff(xs: Seq<SigTree>, ys: Seq<SigTree>)
    ensures
        seq_cmp(xs, ys) is Equal <==> xs == ys,
    decreases xs, 1int,
{
    if xs.len() == 0 && ys.len() == 0 {
        assert(xs =~= ys);
    } else if xs.len() == 0 || ys.len() == 0 {
    } else {
        lemma_sig_cmp_equal_iff(xs[0], ys[0]);
        lemma_seq_cmp_equal_iff(xs.drop_first(), ys.drop_first());
        if seq_cmp(xs, ys) is Equal {
            assert(xs =~= seq![xs[0]] + xs.drop_first());
            assert(ys =~= seq![ys[0]] + ys.drop_first());
        }
    }
}

/// Swapping the operands reverses the order.
pub proof fn lemma_sig_cmp_antisymmetric(a: SigTree, b: SigTree)
    ensures
        sig_cmp(b, a) == (match sig_cmp(a, b) {
            Ordering::Less => Ordering::Greater,
            Ordering::Equal => Ordering::Equal,
            Ordering::Greater => Ordering::Less,
        }),
    decreases a, 0int,
{
    if rank_of(a) == rank_of(b) {
        match (a, b) {
            (SigTree::Array(x), SigTree::Array(y)) => {
                lemma_sig_cmp_antisymmetric(*x, *y);
            },
            (
                SigTree::Dict { key: ka, value: va },
                SigTree::Dict { key: kb, value: vb },
            ) => {
                lemma_sig_cmp_antisymmetric(*ka, *kb);
                lemma_sig_cmp_antisymmetric(*va, *vb);
            },
            (SigTree::Structure(xs), SigTree::Structure(ys)) => {
                lemma_seq_cmp_antisymmetric(xs, ys);
            },
            (SigTree::Maybe(x), SigTree::Maybe(y)) => {
                lemma_sig_cmp_antisymmetric(*x, *y);
            },
            _ => {},
        }
    }
}

/// Swapping the operands reverses the lexicographic order.
pub proof fn lemma_seq_cmp_antisymmetric(xs: Seq<SigTree>, ys: Seq<SigTree>)
    ensures
        seq_cmp(ys, xs) == (match seq_cmp(xs, ys) {
            Ordering::Less => Ordering::Greater,
            Ordering::Equal => Ordering::Equal,
            Ordering::Greater => Ordering::Less,
        }),
    decreases xs, 1int,
{
    if xs.len() > 0 && ys.len() > 0 {
        lemma_sig_cmp_antisymmetric(xs[0], ys[0]);
        lemma_seq_cmp_antisymmetric(xs.drop_first(), ys.drop_first());
    }
}

/// The order is transitive in its strict part.
pub proof fn lemma_sig_cmp_transitive(a: SigTree, b: SigTree, c: SigTree)
    requires
        sig_cmp(a, b) is Less,
        sig_cmp(b, c) is Less,
    ensures
        sig_cmp(a, c) is Less,
    decreases a, 0int,
{
    if rank_of(a) == rank_of(b) && rank_of(b) == rank_of(c) {
        match (a, b, c) {
            (SigTree::Array(x), SigTree::Array(y), SigTree::Array(z)) => {
                lemma_sig_cmp_transitive(*x, *y, *z);
            },
            (
                SigTree::Dict { key: ka, value: va },
                SigTree::Dict { key: kb, value: vb },
                SigTree::Dict { key: kc, value: vc },
            ) => {
                lemma_sig_cmp_equal_iff(*ka, *kb);
                lemma_sig_cmp_equal_iff(*kb, *kc);
                if sig_cmp(*ka, *kb) is Equal && sig_cmp(*kb, *kc) is Equal {
                    lemma_sig_cmp_transitive(*va, *vb, *vc);
                } else if sig_cmp(*ka, *kb) is Less && sig_cmp(*kb, *kc) is Less {
                    lemma_sig_cmp_transitive(*ka, *kb, *kc);
                }
            },
            (SigTree::Structure(xs), SigTree::Structure(ys), SigTree::Structure(zs)) => {
                lemma_seq_cmp_transitive(xs, ys, zs);
            },
            (SigTree::Maybe(x), SigTree::Maybe(y), SigTree::Maybe(z)) => {
                lemma_sig_cmp_transitive(*x, *y, *z);
            },
            _ => {},
        }
    }
}

/// The lexicographic order is transitive in its strict part.
pub proof fn lemma_seq_cmp_transitive(xs: Seq<SigTree>, ys: Seq<SigTree>, zs: Seq<SigTree>)
    requires
        seq_cmp(xs, ys) is Less,
        seq_cmp(ys, zs) is Less,
    ensures
        seq_cmp(xs, zs) is Less,
    decreases xs, 1int,
{
    if xs.len() > 0 && ys.len() > 0 && zs.len() > 0 {
        lemma_sig_cmp_equal_iff(xs[0], ys[0]);
        lemma_sig_cmp_equal_iff(ys[0], zs[0]);
        if sig_cmp(xs[0], ys[0]) is Equal && sig_cmp(ys[0], zs[0]) is Equal {
            lemma_seq_cmp_transitive(xs.drop_first(), ys.drop_first(), zs.drop_first());
        } else if sig_cmp(xs[0], ys[0]) is Less && sig_cmp(ys[0], zs[0]) is Less {
            lemma_sig_cmp_transitive(xs[0], ys[0], zs[0]);
        }
    }
}

/// Equality of signatures is reflexive.
pub proof fn lemma_eq_reflexive(a: SigTree)
    ensures
        a == a,
{
}

/// Equality of signatures is symmetric.
pub proof fn lemma_eq_symmetric(a: SigTree, b: SigTree)
    ensures
        a == b <==> b == a,
{
}

/// Equality of signatures is transitive.
pub proof fn lemma_eq_transitive(a: SigTree, b: SigTree, c: SigTree)
    ensures
        a == b && b == c ==> a == c,
{
}

impl Signature {
    /// The tag of `self`, in declaration order.
    fn rank(&self) -> (r: u8)
        ensures
            r as int == rank_of(self@),
    {
        match self {
            Signature::Unit => 0,
            Signature::U8 => 1,
            Signature::Bool => 2,
            Signature::I16 => 3,
            Signature::U16 => 4,
            Signature::I32 => 5,
            Signature::U32 => 6,
            Signature::I64 => 7,
            Signature::U64 => 8,
            Signature::F64 => 9,
            Signature::Str => 10,
            Signature::Signature => 11,
            Signature::ObjectPath => 12,
            Signature::Variant => 13,
            Signature::Fd => 14,
            Signature::Array(_) => 15,
            Signature::Dict { .. } => 16,
            Signature::Structure(_) => 17,
            Signature::Maybe(_) => 18,
        }
    }

    /// Compare `self` with `other` in the total order on signatures: by
    /// tag first, then by children.
    pub fn cmp(&self, other: &Signature) -> (r: Ordering)
        ensures
            r == sig_cmp(self@, other@),
        decreases *self,
    {
        let ra = self.rank();
        let rb = other.rank();
        if ra < rb {
            return Ordering::Less;
        }
        if ra > rb {
            return Ordering::Greater;
        }
        match (self, other) {
            (Signature::Array(x), Signature::Array(y)) => x.cmp(y),
            (
                Signature::Dict { key: ka, value: va },
                Signature::Dict { key: kb, value: vb },
            ) => {
                let c = ka.cmp(kb);
                match c {
                    Ordering::Equal => va.cmp(vb),
                    _ => c,
                }
            },
            (Signature::Structure(xs), Signature::Structure(ys)) => {
                proof {
                    lemma_views_of(xs@);
                    lemma_views_of(ys@);
                }
                let ghost vxs = views_of(xs@);
                let ghost vys = views_of(ys@);
                let n = xs.len();
                let m = ys.len();
                let mut i: usize = 0;
                proof {
                    assert(vxs.skip(0) =~= vxs);
                    assert(vys.skip(0) =~= vys);
                }
                while i < n && i < m
                    invariant
                        i <= n,
                        i <= m,
                        n == xs@.len(),
                        m == ys@.len(),
                        vxs == views_of(xs@),
                        vys == views_of(ys@),
                        vxs.len() == n,
                        vys.len() == m,
                        forall|j: int| 0 <= j < n ==> vxs[j] == sig_view(xs@[j]),
                        forall|j: int| 0 <= j < m ==> vys[j] == sig_view(ys@[j]),
                        *self == Signature::Structure(*xs),
                        *other == Signature::Structure(*ys),
                        sig_cmp(self@, other@) == seq_cmp(
                            vxs.skip(i as int),
                            vys.skip(i as int),
                        ),
                    decreases n - i,
                {
                    proof {
                        assert(decreases_to!(*self => self->Structure_0));
                        assert(self->Structure_0 == *xs);
                        assert(decreases_to!(*xs => xs@));
                        assert(decreases_to!(xs@ => xs@[i as int]));
                    }
                    let c = xs[i].cmp(&ys[i]);
                    proof {
                        assert(vxs.skip(i as int)[0] == vxs[i as int]);
                        assert(vys.skip(i as int)[0] == vys[i as int]);
                        assert(vxs.skip(i as int).drop_first() =~= vxs.skip(i as int + 1));
                        assert(vys.skip(i as int).drop_first() =~= vys.skip(i as int + 1));
                    }
                    match c {
                        Ordering::Equal => {
                            i = i + 1;
                        },
                        _ => {
                            return c;
                        },
                    }
                }
                proof {
                    if n == m {
                        assert(vxs.skip(n as int) =~= Seq::<SigTree>::empty());
                        assert(vys.skip(m as int) =~= Seq::<SigTree>::empty());
                    } else if i >= n {
                        assert(vxs.skip(i as int) =~= Seq::<SigTree>::empty());
                        assert(vys.skip(i as int).len() > 0);
                    } else {
                        assert(vys.skip(i as int) =~= Seq::<SigTree>::empty());
                        assert(vxs.skip(i as int).len() > 0);
                    }
                }
                if n == m {
                    Ordering::Equal
                } else if n < m {
                    Ordering::Less
                } else {
                    Ordering::Greater
                }
            },
            (Signature::Maybe(x), Signature::Maybe(y)) => x.cmp(y),
            _ => Ordering::Equal,
        }
    }

    /// Whether `other` spells the canonical string form of `self`. A
    /// structure matches its form with the outer parentheses and also the
    /// form without them, as on the wire; nested structures keep theirs
    /// either way.
    pub fn eq_str(&self, other: &str) -> (r: bool)
        ensures
            r == (other.spec_bytes() == str_bytes(self@, true) || other.spec_bytes() == str_bytes(
                self@,
                false,
            )),
    {
        let ob = other.as_bytes();
        let withp = self.to_bytes(true);
        if bytes_eq(ob, withp.as_slice()) {
            return true;
        }
        let without = self.to_bytes(false);
        bytes_eq(ob, without.as_slice())
    }

    /// Compare `self` with `other`; the order is total, so this is always
    /// `Some` of what [`Signature::cmp`] returns.
    pub fn partial_cmp(&self, other: &Signature) -> (r: Option<Ordering>)
        ensures
            r == Some(sig_cmp(self@, other@)),
    {
        Some(self.cmp(other))
    }
}

impl PartialEq for Signature {
    /// Structural equality: equal tags and equal children.
    fn eq(&self, other: &Signature) -> (r: bool) {
        let c = self.cmp(other);
        proof {
            lemma_sig_cmp_equal_iff(self@, other@);
        }
        matches!(c, Ordering::Equal)
    }
}

impl vstd::std_specs::cmp::PartialEqSpecImpl for Signature {
    open spec fn obeys_eq_spec() -> bool {
        true
    }

    open spec fn eq_spec(&self, other: &Signature) -> bool {
        self@ == other@
    }
}

impl Eq for Signature {

}

} // verus!
