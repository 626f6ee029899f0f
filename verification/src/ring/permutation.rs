//! The packed ring colouring, its geometric remaps (rotation and flip), and
//! canonicalization under the chosen symmetry family.
//!
//! A colouring is a fixed-capacity array of colour indices, one per bead,
//! each below 8 (three bits of information per slot). The capacity is ten
//! beads; positions past the configured bead count stay zero. The canonical
//! representative of an orbit is the least image under the per-position
//! lexicographic order of `crate::lex`, which for this packed layout agrees
//! with the numeric order of the packed value.

use vstd::prelude::*;

use crate::lex::le_from;
use crate::lex::lemma_le_antisym;
use crate::lex::lemma_le_refl;
use crate::lex::lemma_le_total;
use crate::lex::lemma_le_trans;
use crate::ring::AllowedTransformFamiles;

verus! {

use vstd::arithmetic::div_mod::lemma_fundamental_div_mod;
use vstd::arithmetic::div_mod::lemma_fundamental_div_mod_converse_mod;
use vstd::arithmetic::div_mod::lemma_mod_multiples_vanish;
use vstd::arithmetic::div_mod::lemma_small_mod;
use vstd::arithmetic::div_mod::lemma_mod_self_0;

/// Capacity of the packed colouring, in beads.
pub const RING_CAP: usize = 10;

/// A ring colouring: one colour index per bead position.
#[derive(Debug, PartialEq, Eq, Hash)]
pub struct Permutation {
    pub values: Vec<u8>,
}

impl View for Permutation {
    type V = Seq<u8>;

    open spec fn view(&self) -> Seq<u8> {
        self.values@
    }
}

/// A colouring shaped for a ring of `n` beads: full capacity, three-bit
/// colour values, and nothing stored past position `n`.
pub open spec fn wf_ring(s: Seq<u8>, n: int) -> bool {
    &&& s.len() == RING_CAP
    &&& forall|j: int| 0 <= j < s.len() ==> s[j] < 8
    &&& forall|j: int| n <= j < s.len() ==> s[j] == 0
}

impl Permutation {
    /// The all-zero colouring.
    pub fn new() -> (r: Self)
        ensures
            r@.len() == RING_CAP,
            forall|j: int| 0 <= j < r@.len() ==> r@[j] == 0,
    {
        let mut values: Vec<u8> = Vec::new();
        let mut i: usize = 0;
        while i < RING_CAP
            invariant
                i <= RING_CAP,
                values@.len() == i,
                forall|j: int| 0 <= j < i ==> values@[j] == 0,
            decreases RING_CAP - i,
        {
            values.push(0);
            i = i + 1;
        }
        Permutation { values }
    }

    /// An identical copy.
    pub fn duplicate(&self) -> (r: Self)
        ensures
            r@ == self@,
    {
        let mut values: Vec<u8> = Vec::new();
        let mut i: usize = 0;
        while i < self.values.len()
            invariant
                i <= self.values.len(),
                values@ =~= self.values@.subrange(0, i as int),
            decreases self.values.len() - i,
        {
            values.push(self.values[i]);
            i = i + 1;
        }
        proof {
            assert(values@ =~= self.values@);
        }
        Permutation { values }
    }

    /// The colour at bead `n`.
    pub fn get(&self, n: u64) -> (r: u8)
        requires
            self@.len() == RING_CAP,
            n < RING_CAP,
        ensures
            r == self@[n as int],
    {
        self.values[n as usize]
    }

    /// Store colour `value` at bead `n`.
    pub fn set(&mut self, n: u64, value: u8)
        requires
            old(self)@.len() == RING_CAP,
            n < RING_CAP,
            value < 8,
        ensures
            final(self)@ == old(self)@.update(n as int, value),
    {
        self.values.set(n as usize, value);
    }

    /// The colouring rotated by `n` steps: position `(i + n) mod max`
    /// receives the colour previously at position `i`.
    pub fn rotate_n(&self, n: u64, max: u64) -> (r: Self)
        requires
            self@.len() == RING_CAP,
            forall|j: int| 0 <= j < self@.len() ==> self@[j] < 8,
            1 <= max <= RING_CAP,
            n < max,
        ensures
            r@ == rot_spec(self@, n as int, max as int),
    {
        let mut new = Self::new();
        let mut j: u64 = 0;
        while j < max
            invariant
                self@.len() == RING_CAP,
                forall|jj: int| 0 <= jj < self@.len() ==> self@[jj] < 8,
                new@.len() == RING_CAP,
                1 <= max <= RING_CAP,
                n < max,
                j <= max,
                forall|jj: int|
                    0 <= jj < j ==> new@[jj] == self@[((jj + max - n) % (max as int)) as int],
                forall|jj: int| j <= jj < RING_CAP ==> new@[jj] == 0,
            decreases max - j,
        {
            let idx = (j + max - n) % max;
            let v = self.get(idx);
            new.set(j, v);
            j = j + 1;
        }
        proof {
            assert(new@ =~= rot_spec(self@, n as int, max as int));
        }
        new
    }

    /// The colouring reversed: position `max - 1 - i` receives the colour
    /// previously at position `i`.
    pub fn flip(&self, max: u64) -> (r: Self)
        requires
            self@.len() == RING_CAP,
            forall|j: int| 0 <= j < self@.len() ==> self@[j] < 8,
            1 <= max <= RING_CAP,
        ensures
            r@ == flip_spec(self@, max as int),
    {
        let mut new = Self::new();
        let mut j: u64 = 0;
        while j < max
            invariant
                self@.len() == RING_CAP,
                forall|jj: int| 0 <= jj < self@.len() ==> self@[jj] < 8,
                new@.len() == RING_CAP,
                1 <= max <= RING_CAP,
                j <= max,
                forall|jj: int| 0 <= jj < j ==> new@[jj] == self@[max - 1 - jj],
                forall|jj: int| j <= jj < RING_CAP ==> new@[jj] == 0,
            decreases max - j,
        {
            let v = self.get(max - 1 - j);
            new.set(j, v);
            j = j + 1;
        }
        proof {
            assert(new@ =~= flip_spec(self@, max as int));
        }
        new
    }

    /// True when `self` is at most `other` in the order of `crate::lex`.
    pub fn le(&self, other: &Self) -> (r: bool)
        requires
            self@.len() == other@.len(),
        ensures
            r == le_from(self@, other@, 0),
    {
        let n = self.values.len();
        let mut i: usize = 0;
        while i < n
            invariant
                n == self@.len(),
                self@.len() == other@.len(),
                i <= n,
                le_from(self@, other@, 0) == le_from(self@, other@, i as int),
                forall|j: int| 0 <= j < i ==> self@[j] == other@[j],
            decreases n - i,
        {
            if self.values[i] < other.values[i] {
                return true;
            }
            if self.values[i] > other.values[i] {
                return false;
            }
            i = i + 1;
        }
        true
    }
}

/// The rotation-by-`k` image of `s` on a ring of `n` beads: position `j`
/// takes the colour previously at `(j - k) mod n`.
pub open spec fn rot_spec(s: Seq<u8>, k: int, n: int) -> Seq<u8> {
    Seq::new(
        RING_CAP as nat,
        |j: int|
            if 0 <= j < n {
                s[(j + n - k) % n]
            } else {
                0u8
            },
    )
}

/// The reversal image of `s` on a ring of `n` beads.
pub open spec fn flip_spec(s: Seq<u8>, n: int) -> Seq<u8> {
    Seq::new(
        RING_CAP as nat,
        |j: int|
            if 0 <= j < n {
                s[n - 1 - j]
            } else {
                0u8
            },
    )
}

/// One symmetry of the ring: an optional reversal followed by a rotation.
pub ghost struct RingElem {
    pub flipped: bool,
    pub shift: int,
}

pub open spec fn elem_ok(e: RingElem, n: int) -> bool {
    0 <= e.shift < n
}

pub open spec fn family_has(fam: AllowedTransformFamiles, e: RingElem) -> bool {
    match fam {
        AllowedTransformFamiles::NoTransforms => !e.flipped && e.shift == 0,
        AllowedTransformFamiles::Rotate => !e.flipped,
        AllowedTransformFamiles::RotateAndFlip => true,
    }
}

/// Membership of a symmetry in the group selected by `n` and `fam`.
pub open spec fn in_group(e: RingElem, n: int, fam: AllowedTransformFamiles) -> bool {
    elem_ok(e, n) && family_has(fam, e)
}

/// The image of `s` under the symmetry `e`.
pub open spec fn apply_elem(e: RingElem, s: Seq<u8>, n: int) -> Seq<u8> {
    if e.flipped {
        rot_spec(flip_spec(s, n), e.shift, n)
    } else {
        rot_spec(s, e.shift, n)
    }
}

/// The symmetry that acts as `e1` followed by `e2`.
pub open spec fn compose_elem(e2: RingElem, e1: RingElem, n: int) -> RingElem {
    RingElem {
        flipped: e1.flipped != e2.flipped,
        shift: if !e2.flipped {
            (e1.shift + e2.shift) % n
        } else {
            (e2.shift + n - e1.shift) % n
        },
    }
}

/// The symmetry that undoes `e`.
pub open spec fn inverse_elem(e: RingElem, n: int) -> RingElem {
    if e.flipped {
        e
    } else {
        RingElem { flipped: false, shift: (n - e.shift) % n }
    }
}

proof fn lemma_mod_value(x: int, q: int, r: int, n: int)
    requires
        n >= 1,
        x == q * n + r,
        0 <= r < n,
    ensures
        x % n == r,
{
    lemma_fundamental_div_mod_converse_mod(x, n, q, r);
}

proof fn lemma_mod_shift(x: int, q: int, n: int)
    requires
        n >= 1,
    ensures
        (x + q * n) % n == x % n,
{
    lemma_mod_multiples_vanish(q, x, n);
    assert(n * q == q * n) by (nonlinear_arith);
}

/// Index identity behind composing two rotations (and a rotation after a
/// flipped element): both sides reduce to `(j + 2n - k1 - k2) mod n`.
proof fn lemma_index_a(j: int, k1: int, k2: int, n: int)
    requires
        1 <= n,
        0 <= j < n,
        0 <= k1 < n,
        0 <= k2 < n,
    ensures
        ((j + n - k2) % n + n - k1) % n == (j + n - (k1 + k2) % n) % n,
{
    let m = j + 2 * n - k1 - k2;
    let u = (j + n - k2) % n;
    let qu = (j + n - k2) / n;
    lemma_fundamental_div_mod(j + n - k2, n);
    assert(u + n - k1 == m + (-qu) * n) by (nonlinear_arith)
        requires
            m == j + 2 * n - k1 - k2,
            j + n - k2 == n * qu + u,
    ;
    lemma_mod_shift(m, -qu, n);
    let kc = (k1 + k2) % n;
    let qc = (k1 + k2) / n;
    lemma_fundamental_div_mod(k1 + k2, n);
    assert(j + n - kc == m + (qc - 1) * n) by (nonlinear_arith)
        requires
            m == j + 2 * n - k1 - k2,
            k1 + k2 == n * qc + kc,
    ;
    lemma_mod_shift(m, qc - 1, n);
}

/// Index identity behind composing with a flip on top: applying `k1` after
/// the reversal at `n - 1 - u` lands where the single element with shift
/// `(k2 + n - k1) mod n` reads through the reversal.
proof fn lemma_index_b(j: int, k1: int, k2: int, n: int)
    requires
        1 <= n,
        0 <= j < n,
        0 <= k1 < n,
        0 <= k2 < n,
    ensures
        ((n - 1 - ((j + n - k2) % n)) + n - k1) % n == n - 1 - ((j + n - (k2 + n - k1) % n) % n),
{
    let u = (j + n - k2) % n;
    let qu = (j + n - k2) / n;
    lemma_fundamental_div_mod(j + n - k2, n);
    let kc = (k2 + n - k1) % n;
    let qc = (k2 + n - k1) / n;
    lemma_fundamental_div_mod(k2 + n - k1, n);
    let v = (j + n - kc) % n;
    let qv = (j + n - kc) / n;
    lemma_fundamental_div_mod(j + n - kc, n);
    let x = (n - 1 - u) + n - k1;
    assert(x == (qc + qu - qv) * n + (n - 1 - v)) by (nonlinear_arith)
        requires
            x == (n - 1 - u) + n - k1,
            j + n - k2 == n * qu + u,
            k2 + n - k1 == n * qc + kc,
            j + n - kc == n * qv + v,
    ;
    lemma_mod_value(x, qc + qu - qv, n - 1 - v, n);
}

/// Applying `e1` and then `e2` is the same as applying their composition.
pub proof fn lemma_apply_compose(e2: RingElem, e1: RingElem, s: Seq<u8>, n: int)
    requires
        1 <= n <= RING_CAP,
        s.len() == RING_CAP,
        elem_ok(e1, n),
        elem_ok(e2, n),
    ensures
        elem_ok(compose_elem(e2, e1, n), n),
        apply_elem(e2, apply_elem(e1, s, n), n) == apply_elem(compose_elem(e2, e1, n), s, n),
{
    let k1 = e1.shift;
    let k2 = e2.shift;
    let y = apply_elem(e1, s, n);
    let lhs = apply_elem(e2, y, n);
    let ec = compose_elem(e2, e1, n);
    let rhs = apply_elem(ec, s, n);
    assert forall|j: int| 0 <= j < RING_CAP implies lhs[j] == rhs[j] by {
        if j < n {
            let u = (j + n - k2) % n;
            assert(0 <= u < n);
            if !e2.flipped {
                // lhs[j] == y[u]
                lemma_index_a(j, k1, k2, n);
                if !e1.flipped {
                    assert(lhs[j] == s[(u + n - k1) % n]);
                } else {
                    assert(lhs[j] == flip_spec(s, n)[(u + n - k1) % n]);
                }
            } else {
                // lhs[j] == y[n - 1 - u]
                lemma_index_b(j, k1, k2, n);
                let w = (n - 1 - u + n - k1) % n;
                assert(0 <= n - 1 - u < n);
                if !e1.flipped {
                    assert(lhs[j] == s[w]);
                    assert(rhs[j] == flip_spec(s, n)[(j + n - ec.shift) % n]);
                } else {
                    assert(lhs[j] == flip_spec(s, n)[w]);
                    assert(flip_spec(s, n)[w] == s[n - 1 - w]);
                }
            }
        }
    }
    assert(lhs =~= rhs);
}

/// The identity symmetry leaves a well-formed colouring unchanged.
pub proof fn lemma_apply_identity(s: Seq<u8>, n: int)
    requires
        1 <= n <= RING_CAP,
        wf_ring(s, n),
    ensures
        apply_elem(RingElem { flipped: false, shift: 0 }, s, n) == s,
{
    let r = apply_elem(RingElem { flipped: false, shift: 0 }, s, n);
    assert forall|j: int| 0 <= j < RING_CAP implies r[j] == s[j] by {
        if j < n {
            lemma_small_mod(j as nat, n as nat);
            lemma_mod_shift(j, 1, n);
            assert(r[j] == s[(j + n) % n]);
        }
    }
    assert(r =~= s);
}

/// Symmetries preserve well-formedness.
pub proof fn lemma_apply_wf(e: RingElem, s: Seq<u8>, n: int)
    requires
        1 <= n <= RING_CAP,
        wf_ring(s, n),
        elem_ok(e, n),
    ensures
        wf_ring(apply_elem(e, s, n), n),
{
    let r = apply_elem(e, s, n);
    assert forall|j: int| 0 <= j < r.len() implies r[j] < 8 by {
        if j < n {
            let u = (j + n - e.shift) % n;
            assert(0 <= u < n);
        }
    }
}

/// Composing a symmetry with its inverse yields the identity.
pub proof fn lemma_compose_inverse(e: RingElem, n: int)
    requires
        1 <= n,
        elem_ok(e, n),
    ensures
        elem_ok(inverse_elem(e, n), n),
        compose_elem(inverse_elem(e, n), e, n) == (RingElem { flipped: false, shift: 0 }),
    decreases 0int,
{
    let k = e.shift;
    lemma_mod_self_0(n);
    if e.flipped {
        assert(compose_elem(e, e, n).shift == (k + n - k) % n);
        assert((k + n - k) % n == 0);
    } else {
        if k == 0 {
            assert((n - 0) % n == 0);
            lemma_small_mod(0nat, n as nat);
            assert((0 + (n - 0) % n) % n == 0);
        } else {
            lemma_small_mod((n - k) as nat, n as nat);
            assert((n - k) % n == n - k);
            assert((k + (n - k) % n) % n == 0);
        }
        assert(elem_ok(inverse_elem(e, n), n)) by {
            assert(0 <= (n - k) % n < n);
        }
    }
}

/// `r` is the canonical form of `s`: it lies in the orbit of `s` under the
/// selected group, and it is lexicographically least among all images of
/// `s` under that group.
pub open spec fn is_canonical_form(
    r: Seq<u8>,
    s: Seq<u8>,
    n: int,
    fam: AllowedTransformFamiles,
) -> bool {
    &&& exists|e: RingElem| #[trigger] in_group(e, n, fam) && r == apply_elem(e, s, n)
    &&& forall|e: RingElem| #[trigger] in_group(e, n, fam) ==> le_from(r, apply_elem(e, s, n), 0)
}

/// The canonical candidate is no greater than every rotation image with
/// shift below `upto`.
pub open spec fn covers_rot(r: Seq<u8>, s: Seq<u8>, n: int, upto: int) -> bool {
    forall|sh: int|
        0 <= sh < upto ==> le_from(
            r,
            #[trigger] apply_elem(RingElem { flipped: false, shift: sh }, s, n),
            0,
        )
}

/// The canonical candidate is no greater than every flipped image with
/// shift below `upto`.
pub open spec fn covers_flip(r: Seq<u8>, s: Seq<u8>, n: int, upto: int) -> bool {
    forall|sh: int|
        0 <= sh < upto ==> le_from(
            r,
            #[trigger] apply_elem(RingElem { flipped: true, shift: sh }, s, n),
            0,
        )
}

/// Group membership is closed under composition and inversion.
pub proof fn lemma_group_closed(e2: RingElem, e1: RingElem, n: int, fam: AllowedTransformFamiles)
    requires
        1 <= n,
        in_group(e1, n, fam),
        in_group(e2, n, fam),
    ensures
        in_group(compose_elem(e2, e1, n), n, fam),
        in_group(inverse_elem(e1, n), n, fam),
{
    let ec = compose_elem(e2, e1, n);
    assert(0 <= ec.shift < n);
    lemma_mod_self_0(n);
    if e1.shift == 0 && e2.shift == 0 && !e1.flipped && !e2.flipped {
        lemma_small_mod(0nat, n as nat);
    }
    let ei = inverse_elem(e1, n);
    assert(0 <= ei.shift < n);
    if !e1.flipped && e1.shift == 0 {
        lemma_small_mod(0nat, n as nat);
        assert((n - 0) % n == 0);
    }
}

/// The symmetry family of a ring of `n_beads` beads, able to map any
/// colouring to its orbit's canonical representative.
#[derive(Clone, Copy, Debug, PartialEq, Eq, Structural)]
pub struct Transforms {
    pub n_beads: u64,
    pub allowed_families: AllowedTransformFamiles,
}

impl Transforms {
    pub fn new(n_beads: u64, allowed_families: AllowedTransformFamiles) -> (r: Self)
        ensures
            r.n_beads == n_beads,
            r.allowed_families == allowed_families,
    {
        Transforms { n_beads, allowed_families }
    }

    /// The least image of `perm` under every symmetry of the family.
    pub fn canonicalize(self, perm: &Permutation) -> (r: Permutation)
        requires
            1 <= self.n_beads <= RING_CAP,
            wf_ring(perm@, self.n_beads as int),
        ensures
            wf_ring(r@, self.n_beads as int),
            is_canonical_form(r@, perm@, self.n_beads as int, self.allowed_families),
    {
        let n = self.n_beads;
        let ghost ni = n as int;
        let ghost fam = self.allowed_families;
        let ghost s = perm@;
        let ghost id = (RingElem { flipped: false, shift: 0 });
        let mut canonical = perm.duplicate();
        proof {
            lemma_apply_identity(s, ni);
            assert(in_group(id, ni, fam)) by {
                assert(family_has(fam, id)) by {
                    match fam {
                        AllowedTransformFamiles::NoTransforms => {},
                        AllowedTransformFamiles::Rotate => {},
                        AllowedTransformFamiles::RotateAndFlip => {},
                    }
                }
            }
            lemma_le_refl(canonical@, 0);
        }
        if matches!(self.allowed_families, AllowedTransformFamiles::Rotate
            | AllowedTransformFamiles::RotateAndFlip) {
            let mut k: u64 = 1;
            proof {
                assert(covers_rot(canonical@, s, ni, 1)) by {
                    assert forall|sh: int| 0 <= sh < 1 implies le_from(
                        canonical@,
                        #[trigger] apply_elem(RingElem { flipped: false, shift: sh }, s, ni),
                        0,
                    ) by {
                        assert(RingElem { flipped: false, shift: sh } == id);
                        lemma_le_refl(canonical@, 0);
                    }
                }
            }
            while k < n
                invariant
                    1 <= k <= n,
                    1 <= ni <= RING_CAP,
                    ni == n,
                    fam == self.allowed_families,
                    s == perm@,
                    wf_ring(s, ni),
                    wf_ring(canonical@, ni),
                    exists|e: RingElem| #[trigger] in_group(e, ni, fam) && canonical@
                        == apply_elem(e, s, ni),
                    covers_rot(canonical@, s, ni, k as int),
                    !matches!(fam, AllowedTransformFamiles::NoTransforms),
                decreases n - k,
            {
                let cand = perm.rotate_n(k, n);
                let ghost ek = (RingElem { flipped: false, shift: k as int });
                proof {
                    assert(cand@ == apply_elem(ek, s, ni));
                    assert(in_group(ek, ni, fam));
                    lemma_apply_wf(ek, s, ni);
                }
                let replace = cand.le(&canonical);
                if replace {
                    proof {
                        assert forall|sh: int| 0 <= sh < k as int + 1 implies le_from(
                            cand@,
                            #[trigger] apply_elem(RingElem { flipped: false, shift: sh }, s, ni),
                            0,
                        ) by {
                            if sh < k as int {
                                lemma_le_trans(
                                    cand@,
                                    canonical@,
                                    apply_elem(RingElem { flipped: false, shift: sh }, s, ni),
                                    0,
                                );
                            } else {
                                lemma_le_refl(cand@, 0);
                            }
                        }
                    }
                    canonical = cand;
                } else {
                    proof {
                        lemma_le_total(cand@, canonical@, 0);
                        assert forall|sh: int| 0 <= sh < k as int + 1 implies le_from(
                            canonical@,
                            #[trigger] apply_elem(RingElem { flipped: false, shift: sh }, s, ni),
                            0,
                        ) by {}
                    }
                }
                k = k + 1;
            }
        }
        if matches!(self.allowed_families, AllowedTransformFamiles::RotateAndFlip) {
            let flipped = perm.flip(n);
            let ghost fs = flipped@;
            let mut k: u64 = 0;
            proof {
                assert(covers_flip(canonical@, s, ni, 0)) by {
                    assert forall|sh: int| 0 <= sh < 0 implies le_from(
                        canonical@,
                        #[trigger] apply_elem(RingElem { flipped: true, shift: sh }, s, ni),
                        0,
                    ) by {}
                }
            }
            while k < n
                invariant
                    0 <= k <= n,
                    1 <= ni <= RING_CAP,
                    ni == n,
                    fam == self.allowed_families,
                    fam == AllowedTransformFamiles::RotateAndFlip,
                    s == perm@,
                    fs == flipped@,
                    fs == flip_spec(s, ni),
                    wf_ring(s, ni),
                    wf_ring(canonical@, ni),
                    exists|e: RingElem| #[trigger] in_group(e, ni, fam) && canonical@
                        == apply_elem(e, s, ni),
                    covers_rot(canonical@, s, ni, ni),
                    covers_flip(canonical@, s, ni, k as int),
                decreases n - k,
            {
                let cand = if k == 0 {
                    flipped.duplicate()
                } else {
                    flipped.rotate_n(k, n)
                };
                let ghost ek = (RingElem { flipped: true, shift: k as int });
                proof {
                    if k == 0 {
                        assert(flip_wf_holds(s, ni));
                        lemma_rot_zero(fs, ni);
                        assert(cand@ == apply_elem(ek, s, ni));
                    } else {
                        assert(cand@ == rot_spec(fs, k as int, ni));
                        assert(cand@ == apply_elem(ek, s, ni));
                    }
                    assert(in_group(ek, ni, fam));
                    lemma_apply_wf(ek, s, ni);
                }
                let replace = cand.le(&canonical);
                if replace {
                    proof {
                        assert forall|sh: int| 0 <= sh < ni implies le_from(
                            cand@,
                            #[trigger] apply_elem(RingElem { flipped: false, shift: sh }, s, ni),
                            0,
                        ) by {
                            lemma_le_trans(
                                cand@,
                                canonical@,
                                apply_elem(RingElem { flipped: false, shift: sh }, s, ni),
                                0,
                            );
                        }
                        assert forall|sh: int| 0 <= sh < k as int + 1 implies le_from(
                            cand@,
                            #[trigger] apply_elem(RingElem { flipped: true, shift: sh }, s, ni),
                            0,
                        ) by {
                            if sh < k as int {
                                lemma_le_trans(
                                    cand@,
                                    canonical@,
                                    apply_elem(RingElem { flipped: true, shift: sh }, s, ni),
                                    0,
                                );
                            } else {
                                lemma_le_refl(cand@, 0);
                            }
                        }
                    }
                    canonical = cand;
                } else {
                    proof {
                        lemma_le_total(cand@, canonical@, 0);
                    }
                }
                k = k + 1;
            }
        }
        proof {
            assert forall|e: RingElem| #[trigger] in_group(e, ni, fam) implies le_from(
                canonical@,
                apply_elem(e, s, ni),
                0,
            ) by {
                assert(e == (RingElem { flipped: e.flipped, shift: e.shift }));
                match fam {
                    AllowedTransformFamiles::NoTransforms => {
                        assert(e == id);
                        lemma_le_refl(canonical@, 0);
                        assert(canonical@ == apply_elem(id, s, ni));
                    },
                    AllowedTransformFamiles::Rotate => {
                        assert(!e.flipped && 0 <= e.shift < ni);
                    },
                    AllowedTransformFamiles::RotateAndFlip => {},
                }
            }
        }
        canonical
    }
}

/// Rotating by zero steps only re-creates the sequence, because a flip
/// image is zero past position `n` by construction.
proof fn lemma_rot_zero(s: Seq<u8>, n: int)
    requires
        1 <= n <= RING_CAP,
        s.len() == RING_CAP,
        forall|j: int| n <= j < s.len() ==> s[j] == 0,
    ensures
        rot_spec(s, 0, n) == s,
{
    let r = rot_spec(s, 0, n);
    assert forall|j: int| 0 <= j < RING_CAP implies r[j] == s[j] by {
        if j < n {
            lemma_mod_shift(j, 1, n);
            lemma_small_mod(j as nat, n as nat);
            assert(r[j] == s[(j + n) % n]);
        }
    }
    assert(r =~= s);
}

/// A flip image is well-formed whenever its source is.
spec fn flip_wf_holds(s: Seq<u8>, n: int) -> bool {
    wf_ring(flip_spec(s, n), n)
}

/// Canonicalization is a function of the orbit alone; these three lemmas
/// state the laws the canonical form obeys.
///
/// The canonical form of a canonical form is itself: canonicalization is
/// idempotent.
pub proof fn lemma_canonicalize_idempotent(
    x: Seq<u8>,
    c: Seq<u8>,
    c2: Seq<u8>,
    n: int,
    fam: AllowedTransformFamiles,
)
    requires
        1 <= n <= RING_CAP,
        wf_ring(x, n),
        is_canonical_form(c, x, n, fam),
        is_canonical_form(c2, c, n, fam),
    ensures
        c2 == c,
{
    let id = RingElem { flipped: false, shift: 0 };
    let g0 = choose|e: RingElem| #[trigger] in_group(e, n, fam) && c == apply_elem(e, x, n);
    lemma_apply_wf(g0, x, n);
    // c2 <= apply(id, c) == c
    assert(in_group(id, n, fam)) by {
        match fam {
            AllowedTransformFamiles::NoTransforms => {},
            AllowedTransformFamiles::Rotate => {},
            AllowedTransformFamiles::RotateAndFlip => {},
        }
    }
    lemma_apply_identity(c, n);
    assert(le_from(c2, c, 0));
    // c <= c2: c2 is some image of c, hence an image of x
    let e1 = choose|e: RingElem| #[trigger] in_group(e, n, fam) && c2 == apply_elem(e, c, n);
    lemma_apply_compose(e1, g0, x, n);
    lemma_group_closed(e1, g0, n, fam);
    assert(c2 == apply_elem(compose_elem(e1, g0, n), x, n));
    assert(le_from(c, c2, 0));
    lemma_apply_wf(e1, c, n);
    crate::lex::lemma_lex_antisym(c, c2);
}

/// Every member of an orbit has the same canonical form: for any group
/// element `g`, the canonical form of `g(x)` equals the canonical form of
/// `x`.
pub proof fn lemma_canonicalize_orbit_invariant(
    x: Seq<u8>,
    g: RingElem,
    c1: Seq<u8>,
    c: Seq<u8>,
    n: int,
    fam: AllowedTransformFamiles,
)
    requires
        1 <= n <= RING_CAP,
        wf_ring(x, n),
        in_group(g, n, fam),
        is_canonical_form(c1, apply_elem(g, x, n), n, fam),
        is_canonical_form(c, x, n, fam),
    ensures
        c1 == c,
{
    let gx = apply_elem(g, x, n);
    lemma_apply_wf(g, x, n);
    // c <= c1: c1 is an image of gx, hence of x.
    let e1 = choose|e: RingElem| #[trigger] in_group(e, n, fam) && c1 == apply_elem(e, gx, n);
    lemma_apply_compose(e1, g, x, n);
    lemma_group_closed(e1, g, n, fam);
    assert(c1 == apply_elem(compose_elem(e1, g, n), x, n));
    assert(le_from(c, c1, 0));
    // c1 <= c: c is an image of x, and x is the inverse image of gx.
    let e0 = choose|e: RingElem| #[trigger] in_group(e, n, fam) && c == apply_elem(e, x, n);
    let gi = inverse_elem(g, n);
    lemma_compose_inverse(g, n);
    lemma_group_closed(g, g, n, fam);
    lemma_apply_compose(gi, g, x, n);
    lemma_apply_identity(x, n);
    assert(apply_elem(gi, gx, n) == x);
    lemma_apply_compose(e0, gi, gx, n);
    lemma_group_closed(e0, gi, n, fam);
    assert(c == apply_elem(compose_elem(e0, gi, n), gx, n));
    assert(le_from(c1, c, 0));
    lemma_apply_wf(e0, x, n);
    lemma_apply_wf(e1, gx, n);
    crate::lex::lemma_lex_antisym(c1, c);
}

/// A canonical form is canonical for itself.
pub proof fn lemma_canonical_fixed(x: Seq<u8>, c: Seq<u8>, n: int, fam: AllowedTransformFamiles)
    requires
        1 <= n <= RING_CAP,
        wf_ring(x, n),
        is_canonical_form(c, x, n, fam),
    ensures
        is_canonical_form(c, c, n, fam),
{
    let id = RingElem { flipped: false, shift: 0 };
    let g0 = choose|e: RingElem| #[trigger] in_group(e, n, fam) && c == apply_elem(e, x, n);
    lemma_apply_wf(g0, x, n);
    assert(in_group(id, n, fam)) by {
        match fam {
            AllowedTransformFamiles::NoTransforms => {},
            AllowedTransformFamiles::Rotate => {},
            AllowedTransformFamiles::RotateAndFlip => {},
        }
    }
    lemma_apply_identity(c, n);
    assert(in_group(id, n, fam) && c == apply_elem(id, c, n));
    assert forall|e: RingElem| #[trigger] in_group(e, n, fam) implies le_from(
        c,
        apply_elem(e, c, n),
        0,
    ) by {
        lemma_apply_compose(e, g0, x, n);
        lemma_group_closed(e, g0, n, fam);
        assert(apply_elem(e, c, n) == apply_elem(compose_elem(e, g0, n), x, n));
    }
}

/// Two canonical forms of the same colouring are equal.
pub proof fn lemma_canonical_unique(
    x: Seq<u8>,
    c1: Seq<u8>,
    c2: Seq<u8>,
    n: int,
    fam: AllowedTransformFamiles,
)
    requires
        1 <= n <= RING_CAP,
        wf_ring(x, n),
        is_canonical_form(c1, x, n, fam),
        is_canonical_form(c2, x, n, fam),
    ensures
        c1 == c2,
{
    let e1 = choose|e: RingElem| #[trigger] in_group(e, n, fam) && c1 == apply_elem(e, x, n);
    let e2 = choose|e: RingElem| #[trigger] in_group(e, n, fam) && c2 == apply_elem(e, x, n);
    assert(le_from(c1, c2, 0));
    assert(le_from(c2, c1, 0));
    lemma_apply_wf(e1, x, n);
    lemma_apply_wf(e2, x, n);
    crate::lex::lemma_lex_antisym(c1, c2);
}

/// Round trip: an emitted canonical form, transformed by any group element
/// and re-canonicalized, is itself again.
pub proof fn lemma_canonical_round_trip(
    x: Seq<u8>,
    c: Seq<u8>,
    g: RingElem,
    d: Seq<u8>,
    n: int,
    fam: AllowedTransformFamiles,
)
    requires
        1 <= n <= RING_CAP,
        wf_ring(x, n),
        is_canonical_form(c, x, n, fam),
        in_group(g, n, fam),
        is_canonical_form(d, apply_elem(g, c, n), n, fam),
    ensures
        d == c,
{
    let g0 = choose|e: RingElem| #[trigger] in_group(e, n, fam) && c == apply_elem(e, x, n);
    lemma_apply_wf(g0, x, n);
    lemma_canonical_fixed(x, c, n, fam);
    lemma_canonicalize_orbit_invariant(c, g, d, c, n, fam);
}

} // verus!

use vstd::prelude::*;

verus! {

/// Number of positions `j < upto` with `a[j] == v`.
pub open spec fn colour_count(a: Seq<u8>, v: int, upto: int) -> int
    decreases crate::bag_draw::clip(upto),
{
    if upto <= 0 {
        0
    } else {
        colour_count(a, v, upto - 1) + if 0 <= upto - 1 < a.len() && a[upto - 1] == v {
            1int
        } else {
            0int
        }
    }
}

pub proof fn lemma_colour_count_nonneg(a: Seq<u8>, v: int, upto: int)
    ensures
        colour_count(a, v, upto) >= 0,
    decreases crate::bag_draw::clip(upto),
{
    if upto > 0 {
        lemma_colour_count_nonneg(a, v, upto - 1);
    }
}

pub proof fn lemma_colour_count_upper(a: Seq<u8>, v: int, upto: int)
    ensures
        colour_count(a, v, upto) <= crate::bag_draw::clip(upto),
    decreases crate::bag_draw::clip(upto),
{
    if upto > 0 {
        lemma_colour_count_upper(a, v, upto - 1);
    }
}

pub proof fn lemma_colour_count_mono(a: Seq<u8>, v: int, m1: int, m2: int)
    requires
        m1 <= m2,
    ensures
        colour_count(a, v, m1) <= colour_count(a, v, m2),
    decreases crate::bag_draw::clip(m2 - m1),
{
    if m1 < m2 {
        lemma_colour_count_mono(a, v, m1, m2 - 1);
    }
}

/// Sequences that agree below `upto` have the same counts there.
pub proof fn lemma_colour_count_agree(a: Seq<u8>, b: Seq<u8>, v: int, upto: int)
    requires
        upto <= a.len(),
        upto <= b.len(),
        forall|j: int| 0 <= j < upto ==> a[j] == b[j],
    ensures
        colour_count(a, v, upto) == colour_count(b, v, upto),
    decreases crate::bag_draw::clip(upto),
{
    if upto > 0 {
        lemma_colour_count_agree(a, b, v, upto - 1);
    }
}

/// The collection of canonical forms seen so far: strictly ascending in the
/// lexicographic order, hence duplicate-free, all at full capacity.
pub open spec fn seen_sorted(v: Seq<Permutation>) -> bool {
    forall|i: int, j: int|
        0 <= i < j < v.len() ==> le_from(#[trigger] v[i]@, #[trigger] v[j]@, 0) && v[i]@ != v[j]@
}

pub open spec fn seen_wf(v: Seq<Permutation>) -> bool {
    forall|i: int| 0 <= i < v.len() ==> (#[trigger] v[i]@).len() == RING_CAP
}

pub open spec fn seen_contains(v: Seq<Permutation>, s: Seq<u8>) -> bool {
    exists|i: int| 0 <= i < v.len() && (#[trigger] v[i]@) == s
}

/// Indexing past the insertion point reaches the element one slot earlier.
proof fn lemma_insert_shifted(v: Seq<Permutation>, pos: int, p: Permutation, k: int)
    requires
        0 <= pos <= v.len(),
        pos < k <= v.len(),
    ensures
        v.insert(pos, p)[k] == v[k - 1],
{
    v.insert_ensures(pos, p);
    let i = k - 1;
    assert(v.insert(pos, p)[i + 1] == v[i]);
}

/// Insert `p` into the ascending collection, unless it is already present.
pub fn insert_sorted(seen: &mut Vec<Permutation>, p: Permutation)
    requires
        seen_sorted(old(seen)@),
        seen_wf(old(seen)@),
        p@.len() == RING_CAP,
    ensures
        seen_sorted(final(seen)@),
        seen_wf(final(seen)@),
        forall|s: Seq<u8>|
            #[trigger] seen_contains(final(seen)@, s) <==> (seen_contains(old(seen)@, s) || s
                == p@),
        final(seen)@.len() >= old(seen)@.len(),
{
    let ghost v0 = seen@;
    let n = seen.len();
    // binary search for the first element that is not strictly below `p`
    let mut lo: usize = 0;
    let mut hi: usize = n;
    while lo < hi
        invariant
            seen@ == v0,
            v0 == old(seen)@,
            n == v0.len(),
            seen_sorted(v0),
            seen_wf(v0),
            p@.len() == RING_CAP,
            lo <= hi <= n,
            forall|j: int| 0 <= j < lo ==> le_from(#[trigger] v0[j]@, p@, 0) && v0[j]@ != p@,
            forall|j: int| hi <= j < n ==> le_from(p@, #[trigger] v0[j]@, 0),
        decreases hi - lo,
    {
        let mid = lo + (hi - lo) / 2;
        let le_p_mid = p.le(&seen[mid]);
        if le_p_mid {
            proof {
                assert forall|j: int| mid <= j < n implies le_from(p@, #[trigger] v0[j]@, 0) by {
                    if j > mid as int {
                        lemma_le_trans(p@, v0[mid as int]@, v0[j]@, 0);
                    }
                }
            }
            hi = mid;
        } else {
            proof {
                lemma_le_total(v0[mid as int]@, p@, 0);
                assert forall|j: int| 0 <= j < mid + 1 implies le_from(#[trigger] v0[j]@, p@, 0)
                    && v0[j]@ != p@ by {
                    if j < mid as int {
                        lemma_le_trans(v0[j]@, v0[mid as int]@, p@, 0);
                    }
                    if v0[j]@ == p@ {
                        if j == mid as int {
                            lemma_le_refl(p@, 0);
                        }
                        assert(le_from(p@, v0[mid as int]@, 0));
                        assert(false);
                    }
                }
            }
            lo = mid + 1;
        }
    }
    let ghost ip = lo as int;
    if lo < n {
        let le_elem = seen[lo].le(&p);
        if le_elem {
            // equal: already present
            proof {
                lemma_le_antisym(v0[ip]@, p@, 0);
                assert(v0[ip]@ =~= p@);
                assert(seen_contains(seen@, p@)) by {
                    assert(seen@[ip]@ == p@);
                }
                assert forall|s: Seq<u8>|
                    seen_contains(seen@, s) <==> (seen_contains(v0, s) || s == p@) by {
                    assert(seen@ == v0);
                }
            }
            return ;
        }
        // strictly below seen[lo..]: insert here
        proof {
            if v0[ip]@ == p@ {
                lemma_le_refl(p@, 0);
                assert(false);
            }
        }
        seen.insert(lo, p);
        proof {
            let v1 = seen@;
            assert(v1 == v0.insert(ip, p));
            v0.insert_ensures(ip, p);
            assert forall|a: int, b: int| 0 <= a < b < v1.len() implies le_from(
                #[trigger] v1[a]@,
                #[trigger] v1[b]@,
                0,
            ) && v1[a]@ != v1[b]@ by {
                if b < ip {
                    assert(v1[a]@ == v0[a]@);
                    assert(v1[b]@ == v0[b]@);
                } else if a < ip && b == ip {
                    assert(v1[a]@ == v0[a]@);
                    assert(v1[b]@ == p@);
                } else if a < ip && b > ip {
                    assert(v1[a]@ == v0[a]@);
                    lemma_insert_shifted(v0, ip, p, b);
                    assert(v1[b] == v0[b - 1]);
                    lemma_le_trans(v0[a]@, p@, v0[b - 1]@, 0);
                    if v0[a]@ == v0[b - 1]@ {
                        assert(le_from(v0[b - 1]@, p@, 0));
                        assert(false);
                    }
                } else if a == ip && b > ip {
                    assert(v1[a]@ == p@);
                    lemma_insert_shifted(v0, ip, p, b);
                    assert(v1[b] == v0[b - 1]);
                    if p@ == v0[b - 1]@ {
                        lemma_le_refl(p@, 0);
                        assert(le_from(v0[b - 1]@, p@, 0));
                        assert(false);
                    }
                } else {
                    lemma_insert_shifted(v0, ip, p, a);
                    lemma_insert_shifted(v0, ip, p, b);
                    assert(v1[a] == v0[a - 1]);
                    assert(v1[b] == v0[b - 1]);
                }
            }
            assert forall|s: Seq<u8>|
                #[trigger] seen_contains(v1, s) <==> (seen_contains(v0, s) || s == p@) by {
                if seen_contains(v1, s) {
                    let idx = choose|ii: int| 0 <= ii < v1.len() && v1[ii]@ == s;
                    if idx == ip {
                    } else if idx < ip {
                        assert(v0[idx]@ == s);
                        assert(seen_contains(v0, s));
                    } else {
                        lemma_insert_shifted(v0, ip, p, idx);
                        assert(v1[idx] == v0[idx - 1]);
                        assert(v0[idx - 1]@ == s);
                        assert(seen_contains(v0, s));
                    }
                }
                if seen_contains(v0, s) {
                    let idx = choose|ii: int| 0 <= ii < v0.len() && v0[ii]@ == s;
                    if idx < ip {
                        assert(v1[idx]@ == s);
                        assert(seen_contains(v1, s));
                    } else {
                        assert(v1[idx + 1] == v0[idx]);
                        assert(v1[idx + 1]@ == s);
                        assert(seen_contains(v1, s));
                    }
                }
                if s == p@ {
                    assert(v1[ip]@ == s);
                    assert(seen_contains(v1, s));
                }
            }
        }
        return ;
    }
    seen.push(p);
    proof {
        let v1 = seen@;
        assert forall|a: int, b: int| 0 <= a < b < v1.len() implies le_from(
            #[trigger] v1[a]@,
            #[trigger] v1[b]@,
            0,
        ) && v1[a]@ != v1[b]@ by {
            if b == v1.len() - 1 {
                assert(v1[a]@ == v0[a]@);
                assert(v1[b]@ == p@);
            } else {
                assert(v1[a]@ == v0[a]@);
                assert(v1[b]@ == v0[b]@);
            }
        }
        assert forall|s: Seq<u8>|
            #[trigger] seen_contains(v1, s) <==> (seen_contains(v0, s) || s == p@) by {
            if seen_contains(v1, s) {
                let idx = choose|ii: int| 0 <= ii < v1.len() && v1[ii]@ == s;
                if idx < v0.len() {
                    assert(v0[idx]@ == s);
                }
            }
            if seen_contains(v0, s) {
                let idx = choose|ii: int| 0 <= ii < v0.len() && v0[ii]@ == s;
                assert(v1[idx]@ == s);
            }
            if s == p@ {
                assert(v1[v1.len() - 1]@ == s);
            }
        }
    }
}

/// A complete assignment reachable from the partial colouring `p` with
/// positions below `pos` already fixed: every open position gets a colour
/// below `c`, capacity past `n` stays clear, and no colour is used more
/// than `limit` times.
pub open spec fn valid_extension(
    a: Seq<u8>,
    p: Seq<u8>,
    pos: int,
    n: int,
    c: int,
    limit: int,
) -> bool {
    &&& a.len() == RING_CAP
    &&& forall|j: int| 0 <= j < pos ==> a[j] == p[j]
    &&& forall|j: int| pos <= j < n ==> a[j] < c
    &&& forall|j: int| n <= j < RING_CAP ==> a[j] == 0
    &&& forall|v: int| 0 <= v < c ==> colour_count(a, v, n) <= limit
}

/// Walk every completion of the partial colouring `permutation`, pruning as
/// soon as a colour would exceed `colour_limit`, and record the canonical
/// form of each complete assignment in `seen`.
///
/// On return `seen` holds exactly what it held before plus the canonical
/// form of every valid completion: nothing is lost, nothing else appears.
pub fn build_permutations(
    transforms: &Transforms,
    n_beads: u64,
    n_colours: u64,
    n: u64,
    permutation: Permutation,
    colour_counts: &mut Vec<u64>,
    colour_limit: u64,
    seen: &mut Vec<Permutation>,
)
    requires
        transforms.n_beads == n_beads,
        1 <= n_beads <= RING_CAP,
        1 <= n_colours <= 8,
        n <= n_beads,
        permutation@.len() == RING_CAP,
        forall|j: int| 0 <= j < n ==> permutation@[j] < n_colours,
        forall|j: int| n <= j < RING_CAP ==> permutation@[j] == 0,
        old(colour_counts)@.len() == n_colours,
        forall|v: int|
            0 <= v < n_colours ==> old(colour_counts)@[v] == colour_count(permutation@, v, n as int),
        forall|v: int| 0 <= v < n_colours ==> old(colour_counts)@[v] <= colour_limit,
        seen_sorted(old(seen)@),
        seen_wf(old(seen)@),
    ensures
        final(colour_counts)@ == old(colour_counts)@,
        seen_sorted(final(seen)@),
        seen_wf(final(seen)@),
        forall|s: Seq<u8>|
            seen_contains(old(seen)@, s) ==> #[trigger] seen_contains(final(seen)@, s),
        forall|s: Seq<u8>|
            #[trigger] seen_contains(final(seen)@, s) ==> seen_contains(old(seen)@, s) || exists|
                a: Seq<u8>,
            |
                valid_extension(
                    a,
                    permutation@,
                    n as int,
                    n_beads as int,
                    n_colours as int,
                    colour_limit as int,
                ) && is_canonical_form(s, a, n_beads as int, transforms.allowed_families),
        forall|a: Seq<u8>, s: Seq<u8>|
            valid_extension(
                a,
                permutation@,
                n as int,
                n_beads as int,
                n_colours as int,
                colour_limit as int,
            ) && #[trigger] is_canonical_form(s, a, n_beads as int, transforms.allowed_families)
                ==> #[trigger] seen_contains(final(seen)@, s),
    decreases n_beads - n,
{
    let ghost nb = n_beads as int;
    let ghost nc = n_colours as int;
    let ghost lim = colour_limit as int;
    let ghost fam = transforms.allowed_families;
    if n == n_beads {
        let canonical = transforms.canonicalize(&permutation);
        proof {
            assert forall|v: int| 0 <= v < nc implies colour_count(permutation@, v, nb) <= lim by {}
            assert(valid_extension(permutation@, permutation@, nb, nb, nc, lim));
        }
        insert_sorted(seen, canonical);
        proof {
            assert forall|a: Seq<u8>, s: Seq<u8>|
                valid_extension(a, permutation@, nb, nb, nc, lim) && #[trigger] is_canonical_form(
                    s,
                    a,
                    nb,
                    fam,
                ) implies #[trigger] seen_contains(seen@, s) by {
                assert(a =~= permutation@);
                lemma_canonical_unique(permutation@, s, canonical@, nb, fam);
                assert(seen_contains(seen@, canonical@));
            }
        }
        return ;
    }
    let ghost p0 = permutation@;
    let ghost counts0 = colour_counts@;
    let ghost seen0 = seen@;
    let mut permutation = permutation;
    let mut colour: u64 = 0;
    while colour < n_colours
        invariant
            transforms.n_beads == n_beads,
            nb == n_beads as int,
            nc == n_colours as int,
            lim == colour_limit as int,
            fam == transforms.allowed_families,
            1 <= n_beads <= RING_CAP,
            1 <= n_colours <= 8,
            n < n_beads,
            colour <= n_colours,
            permutation@.len() == RING_CAP,
            p0.len() == RING_CAP,
            forall|j: int| 0 <= j < n ==> permutation@[j] == p0[j],
            forall|j: int| 0 <= j < n ==> p0[j] < n_colours,
            forall|j: int| n as int + 1 <= j < RING_CAP ==> permutation@[j] == 0,
            forall|j: int| n <= j < RING_CAP ==> p0[j] == 0,
            colour_counts@ == counts0,
            counts0.len() == n_colours,
            forall|v: int| 0 <= v < nc ==> counts0[v] == colour_count(p0, v, n as int),
            forall|v: int| 0 <= v < nc ==> counts0[v] <= colour_limit,
            seen_sorted(seen@),
            seen_wf(seen@),
            forall|s: Seq<u8>| seen_contains(seen0, s) ==> #[trigger] seen_contains(seen@, s),
            forall|s: Seq<u8>|
                #[trigger] seen_contains(seen@, s) ==> seen_contains(seen0, s) || exists|
                    a: Seq<u8>,
                |
                    valid_extension(a, p0, n as int, nb, nc, lim) && is_canonical_form(
                        s,
                        a,
                        nb,
                        fam,
                    ),
            forall|a: Seq<u8>, s: Seq<u8>|
                valid_extension(a, p0, n as int, nb, nc, lim) && a[n as int] < colour
                    && #[trigger] is_canonical_form(s, a, nb, fam) ==> #[trigger] seen_contains(
                    seen@,
                    s,
                ),
        decreases n_colours - colour,
    {
        permutation.set(n, colour as u8);
        let ghost p1 = permutation@;
        let cnt = colour_counts[colour as usize];
        proof {
            lemma_colour_count_nonneg(p0, colour as int, n as int);
            lemma_colour_count_upper(p0, colour as int, n as int);
        }
        colour_counts.set(colour as usize, cnt + 1);
        proof {
            lemma_colour_count_agree(p1, p0, colour as int, n as int);
            assert(colour_count(p1, colour as int, n as int + 1) == colour_count(
                p0,
                colour as int,
                n as int,
            ) + 1);
            assert forall|v: int| 0 <= v < nc && v != colour as int implies colour_count(
                p1,
                v,
                n as int + 1,
            ) == colour_count(p0, v, n as int) by {
                lemma_colour_count_agree(p1, p0, v, n as int);
            }
        }
        if colour_counts[colour as usize] <= colour_limit {
            let child = permutation.duplicate();
            let ghost seen_pre = seen@;
            proof {
                assert forall|j: int| 0 <= j < n as int + 1 implies p1[j] < n_colours by {
                    if j < n as int {
                        assert(p1[j] == p0[j]);
                    }
                }
            }
            build_permutations(
                transforms,
                n_beads,
                n_colours,
                n + 1,
                child,
                colour_counts,
                colour_limit,
                seen,
            );
            proof {
                // a valid extension with this colour at position n is a valid
                // extension of the child prefix, and conversely
                assert forall|a: Seq<u8>, s: Seq<u8>|
                    valid_extension(a, p0, n as int, nb, nc, lim) && a[n as int] < colour as int
                        + 1 && #[trigger] is_canonical_form(s, a, nb, fam)
                    implies #[trigger] seen_contains(seen@, s) by {
                    if a[n as int] == colour as int {
                        assert(valid_extension(a, p1, n as int + 1, nb, nc, lim));
                    } else {
                        assert(a[n as int] < colour as int);
                        assert(seen_contains(seen_pre, s));
                    }
                }
                assert forall|s: Seq<u8>|
                    #[trigger] seen_contains(seen@, s) implies seen_contains(seen0, s) || exists|
                        a: Seq<u8>,
                    |
                        valid_extension(a, p0, n as int, nb, nc, lim) && is_canonical_form(
                            s,
                            a,
                            nb,
                            fam,
                        ) by {
                    if !seen_contains(seen_pre, s) {
                        let a = choose|a: Seq<u8>|
                            valid_extension(a, p1, n as int + 1, nb, nc, lim)
                                && is_canonical_form(s, a, nb, fam);
                        assert(valid_extension(a, p0, n as int, nb, nc, lim));
                    }
                }
            }
        } else {
            proof {
                // pruned: any such extension would overrun the quota
                assert forall|a: Seq<u8>, s: Seq<u8>|
                    valid_extension(a, p0, n as int, nb, nc, lim) && a[n as int] < colour as int
                        + 1 && #[trigger] is_canonical_form(s, a, nb, fam)
                    implies #[trigger] seen_contains(seen@, s) by {
                    if a[n as int] == colour as int {
                        lemma_colour_count_agree(a, p1, colour as int, n as int + 1);
                        lemma_colour_count_mono(a, colour as int, n as int + 1, nb);
                        assert(colour_count(a, colour as int, nb) > lim);
                        assert(false);
                    } else {
                        assert(a[n as int] < colour as int);
                    }
                }
            }
        }
        let cnt2 = colour_counts[colour as usize];
        colour_counts.set(colour as usize, cnt2 - 1);
        proof {
            assert(colour_counts@ =~= counts0);
        }
        colour = colour + 1;
    }
    proof {
        assert forall|a: Seq<u8>, s: Seq<u8>|
            valid_extension(a, p0, n as int, nb, nc, lim) && #[trigger] is_canonical_form(
                s,
                a,
                nb,
                fam,
            ) implies #[trigger] seen_contains(seen@, s) by {
            assert(a[n as int] < nc);
        }
    }
}

} // verus!
