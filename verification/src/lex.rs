//! Lexicographic order on colour sequences, starting the comparison at a
//! given position. The canonical representative of an orbit is the least
//! image under this order; since position 0 is compared first, it coincides
//! with the numeric order of the packed representation.

use vstd::prelude::*;

verus! {

/// `a` is at most `b` in the lexicographic order, comparing `a[i..]` with
/// `b[i..]`. The sequences are assumed to have equal length.
pub open spec fn le_from(a: Seq<u8>, b: Seq<u8>, i: int) -> bool
    decreases crate::bag_draw::clip(a.len() - i),
{
    if i < 0 || i >= a.len() {
        true
    } else if a[i] != b[i] {
        a[i] < b[i]
    } else {
        le_from(a, b, i + 1)
    }
}

/// `a <= b` lexicographically from the first position.
pub open spec fn lex_le(a: Seq<u8>, b: Seq<u8>) -> bool {
    le_from(a, b, 0)
}

pub proof fn lemma_le_refl(a: Seq<u8>, i: int)
    ensures
        le_from(a, a, i),
    decreases crate::bag_draw::clip(a.len() - i),
{
    if 0 <= i < a.len() {
        lemma_le_refl(a, i + 1);
    }
}

pub proof fn lemma_le_total(a: Seq<u8>, b: Seq<u8>, i: int)
    requires
        a.len() == b.len(),
    ensures
        le_from(a, b, i) || le_from(b, a, i),
    decreases crate::bag_draw::clip(a.len() - i),
{
    if 0 <= i < a.len() {
        lemma_le_total(a, b, i + 1);
    }
}

pub proof fn lemma_le_antisym(a: Seq<u8>, b: Seq<u8>, i: int)
    requires
        0 <= i,
        a.len() == b.len(),
        le_from(a, b, i),
        le_from(b, a, i),
    ensures
        forall|j: int| i <= j < a.len() ==> a[j] == b[j],
    decreases crate::bag_draw::clip(a.len() - i),
{
    if 0 <= i < a.len() {
        lemma_le_antisym(a, b, i + 1);
    }
}

/// Antisymmetry at position 0: two sequences of equal length below each
/// other are equal.
pub proof fn lemma_lex_antisym(a: Seq<u8>, b: Seq<u8>)
    requires
        a.len() == b.len(),
        lex_le(a, b),
        lex_le(b, a),
    ensures
        a == b,
{
    lemma_le_antisym(a, b, 0);
    assert(a =~= b);
}

pub proof fn lemma_le_trans(a: Seq<u8>, b: Seq<u8>, c: Seq<u8>, i: int)
    requires
        a.len() == b.len(),
        b.len() == c.len(),
        le_from(a, b, i),
        le_from(b, c, i),
    ensures
        le_from(a, c, i),
    decreases crate::bag_draw::clip(a.len() - i),
{
    if 0 <= i < a.len() {
        if a[i] == b[i] && b[i] == c[i] {
            lemma_le_trans(a, b, c, i + 1);
        }
    }
}

} // verus!
