//! Necklace colourings: a ring of beads, counted and enumerated up to a
//! chosen family of symmetries (none, rotations, or rotations and flips).
//!
//! The count comes from Burnside's lemma: the number of distinct necklaces
//! equals the total number of (colouring, symmetry) fixed points divided by
//! the number of symmetries. Each counting function below returns the pair
//! `(orbits, fixed)` — its group elements' count and their total number of
//! fixed colourings — for one class of symmetries.

pub mod permutation;

use vstd::prelude::*;

verus! {

use vstd::arithmetic::power::pow;
use vstd::arithmetic::power::lemma_pow_increases;
use vstd::arithmetic::div_mod::lemma_fundamental_div_mod;
use vstd::arithmetic::div_mod::lemma_mod_multiples_basic;
use vstd::arithmetic::div_mod::lemma_mod_self_0;
use vstd::arithmetic::div_mod::lemma_small_mod;
use vstd::arithmetic::mul::lemma_mul_upper_bound;
use crate::bag_draw::clip;
use crate::bag_draw::count2;
use crate::bag_draw::count3;
use crate::bag_draw::lemma_count_bound;
use crate::bag_draw::lemma_count2_bound;
use crate::bag_draw::lemma_count3_bound;
use crate::bag_draw::lemma_pow_nonneg;
use crate::bag_draw::lemma_pow_unfold;
use crate::bag_draw::lemma_pow_zero_exp;
use crate::bag_draw::lemma_ring_pow_fits;
use crate::bag_draw::lemma_sum_from_two;
use crate::bag_draw::seq_sum;
use crate::bag_draw::simple_count;
use crate::bag_draw::spec_count;
use crate::bag_draw::spec_count2;
use crate::bag_draw::spec_count3;

/// Which symmetry operations identify two colourings of the ring.
#[derive(Debug, Clone, Copy, PartialEq, Eq, Structural)]
pub enum AllowedTransformFamiles {
    NoTransforms,
    Rotate,
    RotateAndFlip,
}

/// `d` divides `x` exactly.
pub open spec fn divides(d: int, x: int) -> bool {
    x % d == 0
}

/// Greatest common divisor, by Euclid's recursion.
pub open spec fn spec_gcd(a: nat, b: nat) -> nat
    decreases b,
{
    if b == 0 {
        a
    } else {
        spec_gcd(b, (a % b) as nat)
    }
}

/// `spec_gcd` really is the greatest common divisor.
pub proof fn lemma_gcd_props(a: nat, b: nat)
    requires
        a >= 1,
    ensures
        1 <= spec_gcd(a, b),
        divides(spec_gcd(a, b) as int, a as int),
        divides(spec_gcd(a, b) as int, b as int),
        forall|e: int|
            1 <= e && divides(e, a as int) && divides(e, b as int) ==> e <= spec_gcd(a, b),
        b >= 1 ==> spec_gcd(a, b) <= b,
    decreases b,
{
    let g = spec_gcd(a, b) as int;
    if b == 0 {
        lemma_mod_self_0(a as int);
        lemma_small_mod(0nat, a as nat);
        assert forall|e: int|
            1 <= e && divides(e, a as int) && divides(e, b as int) implies e <= g by {
            if e > a {
                lemma_small_mod(a, e as nat);
            }
        }
    } else {
        lemma_gcd_props(b, (a % b) as nat);
        lemma_fundamental_div_mod(a as int, b as int);
        // g divides b and a % b, so it divides a
        lemma_fundamental_div_mod(b as int, g);
        lemma_fundamental_div_mod((a % b) as int, g);
        let k = (a as int / b as int) * (b as int / g) + ((a % b) as int / g);
        assert(a as int == k * g) by (nonlinear_arith)
            requires
                a as int == b as int * (a as int / b as int) + (a % b) as int,
                b as int == g * (b as int / g) + (b as int % g),
                (a % b) as int == g * ((a % b) as int / g) + ((a % b) as int % g),
                b as int % g == 0,
                (a % b) as int % g == 0,
                k == (a as int / b as int) * (b as int / g) + ((a % b) as int / g),
        ;
        lemma_mod_multiples_basic(k, g);
        assert(divides(g, a as int));
        // any common divisor of a and b divides a % b, so Euclid's
        // maximality carries over
        assert forall|e: int|
            1 <= e && divides(e, a as int) && divides(e, b as int) implies e <= g by {
            lemma_fundamental_div_mod(a as int, e);
            lemma_fundamental_div_mod(b as int, e);
            let k2 = a as int / e - (a as int / b as int) * (b as int / e);
            assert((a % b) as int == k2 * e) by (nonlinear_arith)
                requires
                    a as int == b as int * (a as int / b as int) + (a % b) as int,
                    a as int == e * (a as int / e) + (a as int % e),
                    b as int == e * (b as int / e) + (b as int % e),
                    a as int % e == 0,
                    b as int % e == 0,
                    k2 == a as int / e - (a as int / b as int) * (b as int / e),
            ;
            lemma_mod_multiples_basic(k2, e);
            assert(divides(e, (a % b) as int));
        }
        // g itself divides b, so g <= b
        assert(g <= b) by {
            if g > b {
                lemma_small_mod(b, g as nat);
            }
        }
    }
}

/// Greatest common divisor of `a` and `b`, by trial division from `b`
/// downward; the inputs here are small bead counts.
pub fn gcd(a: u64, b: u64) -> (r: u64)
    requires
        1 <= b <= a,
    ensures
        r == spec_gcd(a as nat, b as nat),
        1 <= r <= b,
{
    proof {
        lemma_gcd_props(a as nat, b as nat);
    }
    let ghost g = spec_gcd(a as nat, b as nat);
    let mut i: u64 = b;
    loop
        invariant
            1 <= b <= a,
            g == spec_gcd(a as nat, b as nat),
            1 <= g <= b,
            divides(g as int, a as int),
            divides(g as int, b as int),
            g <= i <= b,
        decreases i,
    {
        if a % i == 0 && b % i == 0 {
            proof {
                lemma_gcd_props(a as nat, b as nat);
                assert(divides(i as int, a as int));
                assert(divides(i as int, b as int));
                assert(i as int <= g);
            }
            return i;
        }
        proof {
            assert(i > g) by {
                if i == g {
                    assert(false);
                }
            }
        }
        i = i - 1;
    }
}

/// `base` raised to `exp`, exactly.
pub fn u64_pow(base: u64, exp: u64) -> (r: u64)
    requires
        1 <= base,
        pow(base as int, exp as nat) <= u64::MAX,
    ensures
        r == pow(base as int, exp as nat),
{
    let mut r: u64 = 1;
    let mut k: u64 = 0;
    proof {
        lemma_pow_zero_exp(base as int);
    }
    while k < exp
        invariant
            1 <= base,
            k <= exp,
            pow(base as int, exp as nat) <= u64::MAX,
            r == pow(base as int, k as nat),
        decreases exp - k,
    {
        proof {
            lemma_pow_increases(base as nat, (k + 1) as nat, exp as nat);
            lemma_pow_unfold(base as int, (k + 1) as nat);
            lemma_pow_nonneg(base as int, k as nat);
            vstd::arithmetic::mul::lemma_mul_is_commutative(r as int, base as int);
        }
        r = r * base;
        k = k + 1;
    }
    r
}

/// The quota vector for `c` colours, each allowed `q` repetitions.
pub open spec fn uniform_quota(c: int, q: u8) -> Seq<u8> {
    Seq::new(clip(c) as nat, |j: int| q)
}

/// Sum over the non-trivial rotations `i` in `1..n` of `c^gcd(n, i)`: each
/// rotation by `i` steps fixes exactly the colourings constant on its
/// `gcd(n, i)` cycles.
pub open spec fn rot_pow_sum(c: int, n: int, i: int) -> int
    decreases clip(n - i),
{
    if i < 1 || i >= n {
        0
    } else {
        pow(c, spec_gcd(n as nat, i as nat)) + rot_pow_sum(c, n, i + 1)
    }
}

/// Sum over the non-trivial rotations of the quota-bounded fixed counts:
/// rotation by `i` steps leaves `gcd(n, i)` free cycle slots, each of which
/// consumes `n / gcd(n, i)` units of its colour's quota, so the per-colour
/// quota becomes `m` divided by that cycle length.
pub open spec fn limited_rot_sum(c: int, n: int, m: int, i: int) -> int
    decreases clip(n - i),
{
    if i < 1 || i >= n {
        0
    } else {
        let g = spec_gcd(n as nat, i as nat) as int;
        spec_count(g as nat, uniform_quota(c, (m / (n / g)) as u8)) + limited_rot_sum(c, n, m, i + 1)
    }
}

/// The weighted draws of a corner flip on an even ring: the paired
/// positions draw two units each, the two fixed axis positions one each.
pub open spec fn even_flip_draws(n: int) -> Seq<u8> {
    Seq::new(
        clip((n - 2) / 2 + 2) as nat,
        |i: int|
            if i < (n - 2) / 2 {
                2u8
            } else {
                1u8
            },
    )
}

/// A quota histogram with all `c` colours sitting in bucket `m`.
pub open spec fn spike_hist(m: int, c: int) -> Seq<u64> {
    Seq::new(
        clip(m + 1) as nat,
        |i: int|
            if i == m {
                c as u64
            } else {
                0u64
            },
    )
}

/// The quota histogram for an odd-ring flip after the axis bead took one
/// unit of its colour: the paired positions each consume two units, so the
/// remaining colours sit at `m / 2` pairs and the axis colour at
/// `(m - 1) / 2`.
pub open spec fn odd_flip_hist(c: int, m: int) -> Seq<u64> {
    Seq::new(
        clip(m / 2 + 1) as nat,
        |i: int|
            ((if i == m / 2 {
                c - 1
            } else {
                0
            }) + (if i == (m - 1) / 2 {
                1int
            } else {
                0int
            })) as u64,
    )
}

/// `(orbits, fixed)` of the identity alone, without quota.
pub open spec fn spec_unlimited_base(c: int, n: int) -> (int, int) {
    (1, pow(c, clip(n) as nat))
}

/// `(orbits, fixed)` of the non-trivial rotations, without quota.
pub open spec fn spec_unlimited_rotate(c: int, n: int) -> (int, int) {
    (n - 1, rot_pow_sum(c, n, 1))
}

/// `(orbits, fixed)` of the flips, without quota: an even ring has `n/2`
/// edge axes fixing `n/2` beads and `n/2` corner axes fixing `n/2 + 1`;
/// an odd ring has `n` equivalent axes fixing `(n - 1)/2 + 1`.
pub open spec fn spec_unlimited_flip(c: int, n: int) -> (int, int) {
    if n % 2 == 0 {
        (n, (n / 2) * pow(c, clip(n / 2) as nat) + (n / 2) * pow(c, clip(n / 2 + 1) as nat))
    } else {
        (n, n * pow(c, clip(n / 2 + 1) as nat))
    }
}

/// `(orbits, fixed)` of the whole family, without quota.
pub open spec fn spec_unlimited(c: int, n: int, fam: AllowedTransformFamiles) -> (int, int) {
    let base = spec_unlimited_base(c, n);
    let rot = if matches!(fam, AllowedTransformFamiles::NoTransforms) {
        (0int, 0int)
    } else {
        spec_unlimited_rotate(c, n)
    };
    let fl = if matches!(fam, AllowedTransformFamiles::RotateAndFlip) {
        spec_unlimited_flip(c, n)
    } else {
        (0int, 0int)
    };
    (base.0 + rot.0 + fl.0, base.1 + rot.1 + fl.1)
}

/// `(orbits, fixed)` of the identity under a per-colour quota of `m`; a
/// configuration with no valid colouring at all contributes no orbit.
pub open spec fn spec_limited_base(c: int, n: int, m: int) -> (int, int) {
    let combis = spec_count(clip(n) as nat, uniform_quota(c, m as u8)) as int;
    if combis > 0 {
        (1, combis)
    } else {
        (0, 0)
    }
}

/// `(orbits, fixed)` of the non-trivial rotations under a quota of `m`.
pub open spec fn spec_limited_rotate(c: int, n: int, m: int) -> (int, int) {
    (n - 1, limited_rot_sum(c, n, m, 1))
}

/// `(orbits, fixed)` of the flips under a quota of `m`.
pub open spec fn spec_limited_flip(c: int, n: int, m: int) -> (int, int) {
    if n % 2 == 0 {
        (
            n,
            (n / 2) * spec_count(clip(n / 2) as nat, uniform_quota(c, (m / 2) as u8)) + (n / 2)
                * spec_count3(even_flip_draws(n), 0, spike_hist(m, c)),
        )
    } else {
        (n, n * (c * spec_count2(clip((n - 1) / 2) as nat, odd_flip_hist(c, m))))
    }
}

/// `(orbits, fixed)` of the whole family under a quota of `m`.
pub open spec fn spec_limited(c: int, n: int, m: int, fam: AllowedTransformFamiles) -> (int, int) {
    let base = spec_limited_base(c, n, m);
    let rot = if matches!(fam, AllowedTransformFamiles::NoTransforms) {
        (0int, 0int)
    } else {
        spec_limited_rotate(c, n, m)
    };
    let fl = if matches!(fam, AllowedTransformFamiles::RotateAndFlip) {
        spec_limited_flip(c, n, m)
    } else {
        (0int, 0int)
    };
    (base.0 + rot.0 + fl.0, base.1 + rot.1 + fl.1)
}

/// Bound on the rotation sum: at most `n - i` terms of at most `8^10`.
proof fn lemma_rot_pow_sum_bound(c: int, n: int, i: int)
    requires
        0 <= c <= 8,
        n <= 10,
        1 <= i,
    ensures
        0 <= rot_pow_sum(c, n, i) <= clip(n - i) * 0x40000000,
    decreases clip(n - i),
{
    if i < 1 || i >= n {
    } else {
        lemma_rot_pow_sum_bound(c, n, i + 1);
        lemma_gcd_props(n as nat, i as nat);
        lemma_ring_pow_fits(c, spec_gcd(n as nat, i as nat));
    }
}

proof fn lemma_limited_rot_sum_bound(c: int, n: int, m: int, i: int)
    requires
        0 <= c <= 8,
        n <= 10,
        1 <= i,
    ensures
        0 <= limited_rot_sum(c, n, m, i) <= clip(n - i) * 0x40000000,
    decreases clip(n - i),
{
    if i < 1 || i >= n {
    } else {
        lemma_limited_rot_sum_bound(c, n, m, i + 1);
        let g = spec_gcd(n as nat, i as nat) as int;
        lemma_gcd_props(n as nat, i as nat);
        let q = uniform_quota(c, (m / (n / g)) as u8);
        lemma_count_bound(g as nat, q);
        lemma_ring_pow_fits(c, g as nat);
        crate::bag_draw::lemma_pow_base_le(q.len() as int, 8, g as nat);
    }
}

/// Identity class, no quota: every one of the `c^n` colourings is fixed.
pub fn unlimited_base_count(n_colours: u64, n_beads: u64) -> (r: (u64, u64))
    requires
        1 <= n_colours <= 8,
        2 <= n_beads <= 10,
    ensures
        (r.0 as int, r.1 as int) == spec_unlimited_base(n_colours as int, n_beads as int),
{
    proof {
        lemma_ring_pow_fits(n_colours as int, n_beads as nat);
    }
    (1, u64_pow(n_colours, n_beads))
}

/// Rotation classes, no quota: rotation by `i` fixes `c^gcd(n, i)`
/// colourings.
pub fn unlimited_rotate_count(n_colours: u64, n_beads: u64) -> (r: (u64, u64))
    requires
        1 <= n_colours <= 8,
        2 <= n_beads <= 10,
    ensures
        (r.0 as int, r.1 as int) == spec_unlimited_rotate(n_colours as int, n_beads as int),
{
    let c = n_colours;
    let n = n_beads;
    let mut orbits: u64 = 0;
    let mut fixed: u64 = 0;
    let mut i: u64 = 1;
    while i < n
        invariant
            1 <= c <= 8,
            2 <= n <= 10,
            1 <= i <= n,
            orbits == i - 1,
            fixed <= (i - 1) * 0x40000000,
            fixed + rot_pow_sum(c as int, n as int, i as int) == rot_pow_sum(c as int, n as int, 1),
        decreases n - i,
    {
        let rotations = gcd(n, i);
        proof {
            lemma_gcd_props(n as nat, i as nat);
            lemma_ring_pow_fits(c as int, rotations as nat);
            lemma_rot_pow_sum_bound(c as int, n as int, i as int + 1);
        }
        let term = u64_pow(c, rotations);
        orbits = orbits + 1;
        fixed = fixed + term;
        i = i + 1;
    }
    (orbits, fixed)
}

/// Flip classes, no quota.
pub fn unlimited_flip_count(n_colours: u64, n_beads: u64) -> (r: (u64, u64))
    requires
        1 <= n_colours <= 8,
        2 <= n_beads <= 10,
    ensures
        (r.0 as int, r.1 as int) == spec_unlimited_flip(n_colours as int, n_beads as int),
{
    let c = n_colours;
    let n = n_beads;
    if n % 2 == 0 {
        proof {
            lemma_ring_pow_fits(c as int, (n / 2) as nat);
            lemma_ring_pow_fits(c as int, (n / 2 + 1) as nat);
            lemma_mul_upper_bound(n as int / 2, 5, pow(c as int, (n / 2) as nat), 0x40000000);
            lemma_mul_upper_bound(n as int / 2, 5, pow(c as int, (n / 2 + 1) as nat), 0x40000000);
        }
        let edge = (n / 2) * u64_pow(c, n / 2);
        let corner = (n / 2) * u64_pow(c, n / 2 + 1);
        (n, edge + corner)
    } else {
        proof {
            lemma_ring_pow_fits(c as int, (n / 2 + 1) as nat);
            lemma_mul_upper_bound(n as int, 10, pow(c as int, (n / 2 + 1) as nat), 0x40000000);
        }
        (n, n * u64_pow(c, n / 2 + 1))
    }
}

/// Bound on the quota-bounded flip term.
proof fn lemma_limited_flip_bound(c: int, n: int, m: int)
    requires
        1 <= c <= 8,
        2 <= n <= 10,
        1 <= m <= 10,
    ensures
        0 <= spec_limited_flip(c, n, m).1 <= 0x800_0000_0000,
{
    if n % 2 == 0 {
        let q1 = uniform_quota(c, (m / 2) as u8);
        let s1 = spec_count(clip(n / 2) as nat, q1) as int;
        lemma_count_bound(clip(n / 2) as nat, q1);
        lemma_ring_pow_fits(c, clip(n / 2) as nat);
        let ds = even_flip_draws(n);
        let hist = spike_hist(m, c);
        lemma_spike_sum(m, c);
        lemma_count3_bound(ds, 0, hist);
        lemma_ring_pow_fits(c, clip(ds.len() as int) as nat);
        let s2 = spec_count3(ds, 0, hist) as int;
        lemma_mul_upper_bound(n / 2, 5, s1, 0x40000000);
        lemma_mul_upper_bound(n / 2, 5, s2, 0x40000000);
        vstd::arithmetic::mul::lemma_mul_nonnegative(n / 2, s1);
        vstd::arithmetic::mul::lemma_mul_nonnegative(n / 2, s2);
    } else {
        let hist = odd_flip_hist(c, m);
        lemma_odd_hist_sum(c, m);
        lemma_count2_bound(clip((n - 1) / 2) as nat, hist);
        lemma_ring_pow_fits(c, clip((n - 1) / 2) as nat);
        let s = spec_count2(clip((n - 1) / 2) as nat, hist) as int;
        lemma_mul_upper_bound(c, 8, s, 0x40000000);
        vstd::arithmetic::mul::lemma_mul_nonnegative(c, s);
        lemma_mul_upper_bound(n, 10, c * s, (8 * 0x40000000) as int);
        vstd::arithmetic::mul::lemma_mul_nonnegative(n, c * s);
    }
}

/// The spike histogram sums to `c`.
proof fn lemma_spike_sum(m: int, c: int)
    requires
        0 <= m,
        0 <= c <= 8,
    ensures
        seq_sum(spike_hist(m, c)) == c,
{
    let s = spike_hist(m, c);
    assert forall|j: int| 0 <= j < s.len() && j != m && j != m implies s[j] == 0 by {}
    lemma_sum_from_two(s, m, m, 0);
}

/// The odd-flip histogram sums to `c`.
proof fn lemma_odd_hist_sum(c: int, m: int)
    requires
        1 <= c <= 8,
        1 <= m,
    ensures
        seq_sum(odd_flip_hist(c, m)) == c,
{
    let hist = odd_flip_hist(c, m);
    lemma_sum_from_two(hist, (m - 1) / 2, m / 2, 0);
}

/// Identity class with quota: every assignment within the quota is fixed.
/// A configuration with no valid colouring at all contributes no orbit.
pub fn limited_base_count(n_colours: u64, n_beads: u64, max_repeats: u64) -> (r: (u64, u64))
    requires
        1 <= n_colours <= 8,
        2 <= n_beads <= 10,
        1 <= max_repeats <= n_beads,
    ensures
        (r.0 as int, r.1 as int) == spec_limited_base(
            n_colours as int,
            n_beads as int,
            max_repeats as int,
        ),
{
    proof {
        lemma_ring_pow_fits(n_colours as int, n_beads as nat);
    }
    let n_combis = simple_count(n_beads, n_colours, max_repeats);
    proof {
        assert(Seq::new(n_colours as nat, |c: int| max_repeats as u8) =~= uniform_quota(
            n_colours as int,
            max_repeats as u8,
        ));
    }
    if n_combis > 0 {
        (1, n_combis)
    } else {
        (0, 0)
    }
}

/// Rotation classes with quota: rotation by `i` leaves `gcd(n, i)` free
/// cycles whose colours each consume `n / gcd(n, i)` units of quota.
pub fn limited_rotate_count(n_colours: u64, n_beads: u64, max_repeats: u64) -> (r: (u64, u64))
    requires
        1 <= n_colours <= 8,
        2 <= n_beads <= 10,
        1 <= max_repeats <= n_beads,
    ensures
        (r.0 as int, r.1 as int) == spec_limited_rotate(
            n_colours as int,
            n_beads as int,
            max_repeats as int,
        ),
{
    let c = n_colours;
    let n = n_beads;
    let m = max_repeats;
    let mut orbits: u64 = 0;
    let mut fixed: u64 = 0;
    let mut i: u64 = 1;
    while i < n
        invariant
            1 <= c <= 8,
            2 <= n <= 10,
            1 <= m <= n,
            1 <= i <= n,
            orbits == i - 1,
            fixed <= (i - 1) * 0x40000000,
            fixed + limited_rot_sum(c as int, n as int, m as int, i as int) == limited_rot_sum(
                c as int,
                n as int,
                m as int,
                1,
            ),
        decreases n - i,
    {
        let rotations = gcd(n, i);
        let orbit_size = n / rotations;
        proof {
            vstd::arithmetic::div_mod::lemma_div_non_zero(n as int, rotations as int);
            lemma_gcd_props(n as nat, i as nat);
            lemma_ring_pow_fits(c as int, rotations as nat);
            lemma_limited_rot_sum_bound(c as int, n as int, m as int, i as int + 1);
            let g = spec_gcd(n as nat, i as nat) as int;
            let q = uniform_quota(c as int, (m as int / (n as int / g)) as u8);
            lemma_count_bound(g as nat, q);
        }
        let n_combis = simple_count(rotations, c, m / orbit_size);
        proof {
            let g = spec_gcd(n as nat, i as nat) as int;
            assert(Seq::new(c as nat, |j: int| (m / orbit_size) as u8) =~= uniform_quota(
                c as int,
                (m as int / (n as int / g)) as u8,
            ));
        }
        fixed = fixed + n_combis;
        orbits = orbits + 1;
        i = i + 1;
    }
    (orbits, fixed)
}

/// Flip classes with quota. On an even ring the edge axes pair every bead,
/// so each free colour choice costs two units of a halved quota; the
/// corner axes leave the two axis beads free at full price, which the
/// weighted counter handles. On an odd ring every axis fixes one bead and
/// pairs the rest.
pub fn limited_flip_count(n_colours: u64, n_beads: u64, max_repeats: u64) -> (r: (u64, u64))
    requires
        1 <= n_colours <= 8,
        2 <= n_beads <= 10,
        1 <= max_repeats <= n_beads,
    ensures
        (r.0 as int, r.1 as int) == spec_limited_flip(
            n_colours as int,
            n_beads as int,
            max_repeats as int,
        ),
{
    let c = n_colours;
    let n = n_beads;
    let m = max_repeats;
    proof {
        lemma_limited_flip_bound(c as int, n as int, m as int);
    }
    if n % 2 == 0 {
        proof {
            lemma_ring_pow_fits(c as int, (n / 2) as nat);
            let q1 = uniform_quota(c as int, (m / 2) as u8);
            lemma_count_bound((n / 2) as nat, q1);
            lemma_mul_upper_bound(
                n as int / 2,
                5,
                spec_count((n / 2) as nat, q1) as int,
                0x40000000,
            );
        }
        let half = simple_count(n / 2, c, m / 2);
        proof {
            assert(Seq::new(c as nat, |j: int| (m / 2) as u8) =~= uniform_quota(
                c as int,
                (m / 2) as u8,
            ));
        }
        let edge = (n / 2) * half;
        // corner flips: (n - 2) / 2 paired positions and the two axis beads
        let mut draws: Vec<u8> = Vec::new();
        let pairs = (n - 2) / 2;
        let mut i: u64 = 0;
        while i < pairs + 2
            invariant
                pairs == (n - 2) / 2,
                2 <= n <= 10,
                i <= pairs + 2,
                draws@.len() == i,
                forall|j: int|
                    0 <= j < i ==> draws@[j] == (if j < pairs {
                        2u8
                    } else {
                        1u8
                    }),
            decreases pairs + 2 - i,
        {
            if i < pairs {
                draws.push(2u8);
            } else {
                draws.push(1u8);
            }
            i = i + 1;
        }
        let mut counts: Vec<u64> = Vec::new();
        let mut k: u64 = 0;
        while k < m + 1
            invariant
                k <= m + 1,
                m <= 10,
                c <= 8,
                counts@.len() == k,
                forall|j: int|
                    0 <= j < k ==> counts@[j] == (if j == m as int {
                        c
                    } else {
                        0u64
                    }),
            decreases m + 1 - k,
        {
            if k == m {
                counts.push(c);
            } else {
                counts.push(0u64);
            }
            k = k + 1;
        }
        proof {
            assert(draws@ =~= even_flip_draws(n as int));
            assert(counts@ =~= spike_hist(m as int, c as int));
            lemma_spike_sum(m as int, c as int);
            lemma_ring_pow_fits(c as int, draws@.len() as nat);
            lemma_count3_bound(draws@, 0, counts@);
            lemma_ring_pow_fits(c as int, clip(draws@.len() as int) as nat);
            lemma_mul_upper_bound(
                n as int / 2,
                5,
                spec_count3(draws@, 0, counts@) as int,
                0x40000000,
            );
        }
        let corner_base = count3(&draws, &mut counts);
        let corner = (n / 2) * corner_base;
        (n, edge + corner)
    } else {
        let mut counts: Vec<u64> = Vec::new();
        let reduced = m / 2;
        let mut k: u64 = 0;
        while k < reduced + 1
            invariant
                reduced == m / 2,
                m <= 10,
                c <= 8,
                k <= reduced + 1,
                counts@.len() == k,
                forall|j: int| 0 <= j < k ==> counts@[j] == 0,
            decreases reduced + 1 - k,
        {
            counts.push(0u64);
            k = k + 1;
        }
        counts.set(reduced as usize, c - 1);
        let axis = (m - 1) / 2;
        let prev = counts[axis as usize];
        counts.set(axis as usize, prev + 1);
        proof {
            assert(counts@ =~= odd_flip_hist(c as int, m as int));
            lemma_odd_hist_sum(c as int, m as int);
            lemma_count2_bound(((n - 1) / 2) as nat, counts@);
            lemma_ring_pow_fits(c as int, ((n - 1) / 2) as nat);
            let s = spec_count2(((n - 1) / 2) as nat, counts@) as int;
            lemma_mul_upper_bound(c as int, 8, s, 0x40000000);
            vstd::arithmetic::mul::lemma_mul_nonnegative(c as int, s);
            lemma_mul_upper_bound(n as int, 10, c as int * s, (8 * 0x40000000) as int);
        }
        let sub = count2((n - 1) / 2, &mut counts);
        let n_combis = n * (c * sub);
        (n, n_combis)
    }
}

/// Burnside numerator and denominator for the whole family, with quota.
pub fn limited_count(
    n_colours: u64,
    n_beads: u64,
    max_repeats: u64,
    allowed_xforms: AllowedTransformFamiles,
) -> (r: (u64, u64))
    requires
        1 <= n_colours <= 8,
        2 <= n_beads <= 10,
        1 <= max_repeats <= n_beads,
    ensures
        (r.0 as int, r.1 as int) == spec_limited(
            n_colours as int,
            n_beads as int,
            max_repeats as int,
            allowed_xforms,
        ),
{
    let (mut orbits, mut fixed) = limited_base_count(n_colours, n_beads, max_repeats);
    proof {
        let q = uniform_quota(n_colours as int, max_repeats as u8);
        lemma_count_bound(n_beads as nat, q);
        lemma_ring_pow_fits(n_colours as int, n_beads as nat);
        lemma_limited_rot_sum_bound(n_colours as int, n_beads as int, max_repeats as int, 1);
        lemma_limited_flip_bound(n_colours as int, n_beads as int, max_repeats as int);
    }
    if matches!(allowed_xforms, AllowedTransformFamiles::Rotate
        | AllowedTransformFamiles::RotateAndFlip) {
        let (extra_orbits, extra_fixed) = limited_rotate_count(n_colours, n_beads, max_repeats);
        orbits = orbits + extra_orbits;
        fixed = fixed + extra_fixed;
    }
    if matches!(allowed_xforms, AllowedTransformFamiles::RotateAndFlip) {
        let (extra_orbits, extra_fixed) = limited_flip_count(n_colours, n_beads, max_repeats);
        orbits = orbits + extra_orbits;
        fixed = fixed + extra_fixed;
    }
    (orbits, fixed)
}

/// Burnside numerator and denominator for the whole family, no quota.
pub fn unlimited_count(n_colours: u64, n_beads: u64, allowed_xforms: AllowedTransformFamiles) -> (r:
    (u64, u64))
    requires
        1 <= n_colours <= 8,
        2 <= n_beads <= 10,
    ensures
        (r.0 as int, r.1 as int) == spec_unlimited(
            n_colours as int,
            n_beads as int,
            allowed_xforms,
        ),
{
    let (mut orbits, mut fixed) = unlimited_base_count(n_colours, n_beads);
    proof {
        lemma_ring_pow_fits(n_colours as int, n_beads as nat);
        lemma_rot_pow_sum_bound(n_colours as int, n_beads as int, 1);
        lemma_ring_pow_fits(n_colours as int, (n_beads / 2) as nat);
        lemma_ring_pow_fits(n_colours as int, (n_beads / 2 + 1) as nat);
        lemma_mul_upper_bound(
            n_beads as int / 2,
            5,
            pow(n_colours as int, (n_beads / 2) as nat),
            0x40000000,
        );
        lemma_mul_upper_bound(
            n_beads as int / 2,
            5,
            pow(n_colours as int, (n_beads / 2 + 1) as nat),
            0x40000000,
        );
        lemma_mul_upper_bound(
            n_beads as int,
            10,
            pow(n_colours as int, (n_beads / 2 + 1) as nat),
            0x40000000,
        );
    }
    if matches!(allowed_xforms, AllowedTransformFamiles::Rotate
        | AllowedTransformFamiles::RotateAndFlip) {
        let (extra_orbits, extra_fixed) = unlimited_rotate_count(n_colours, n_beads);
        orbits = orbits + extra_orbits;
        fixed = fixed + extra_fixed;
    }
    if matches!(allowed_xforms, AllowedTransformFamiles::RotateAndFlip) {
        let (extra_orbits, extra_fixed) = unlimited_flip_count(n_colours, n_beads);
        orbits = orbits + extra_orbits;
        fixed = fixed + extra_fixed;
    }
    (orbits, fixed)
}

} // verus!

verus! {

use crate::ring::permutation::Permutation;
use crate::ring::permutation::Transforms;
use crate::ring::permutation::RING_CAP;
use crate::ring::permutation::build_permutations;
use crate::ring::permutation::colour_count;
use crate::ring::permutation::is_canonical_form;
use crate::ring::permutation::seen_contains;
use crate::ring::permutation::seen_sorted;
use crate::ring::permutation::seen_wf;
use crate::ring::permutation::valid_extension;

/// A ring-colouring request and its latest results: the Burnside count in
/// `perm_count`, and — when that count is small enough to enumerate — the
/// sorted canonical representatives in `permutations`.
pub struct Ring {
    pub n_colours: u64,
    pub n_beads: u64,
    pub limit_repeats: bool,
    pub max_repeats: u64,
    pub allowed_xforms: AllowedTransformFamiles,
    pub perm_count: u64,
    pub permutations: Vec<Permutation>,
}

/// The Burnside pair `(total_orbits, total_fixed)` of a configuration.
pub open spec fn ring_counts(r: Ring) -> (int, int) {
    if r.limit_repeats {
        spec_limited(r.n_colours as int, r.n_beads as int, r.max_repeats as int, r.allowed_xforms)
    } else {
        spec_unlimited(r.n_colours as int, r.n_beads as int, r.allowed_xforms)
    }
}

/// The number of distinct colourings: total fixed points averaged over the
/// group, or zero for the degenerate empty group.
pub open spec fn ring_result_count(r: Ring) -> int {
    if ring_counts(r).0 > 0 {
        ring_counts(r).1 / ring_counts(r).0
    } else {
        0
    }
}

/// The per-colour cap that the enumeration walks under.
pub open spec fn ring_limit(r: Ring) -> int {
    if r.limit_repeats {
        r.max_repeats as int
    } else {
        u64::MAX as int
    }
}

/// The configuration ranges the engine supports.
pub open spec fn ring_config_ok(r: Ring) -> bool {
    &&& 1 <= r.n_colours <= 8
    &&& 2 <= r.n_beads <= RING_CAP
    &&& r.limit_repeats ==> 1 <= r.max_repeats <= r.n_beads
}

/// The all-zero partial colouring the enumeration starts from.
pub open spec fn empty_colouring() -> Seq<u8> {
    Seq::new(RING_CAP as nat, |j: int| 0u8)
}

impl Default for Ring {
    /// Three colours on five beads, rotations only, no quota.
    fn default() -> (r: Self)
        ensures
            r.n_colours == 3,
            r.n_beads == 5,
            !r.limit_repeats,
            r.max_repeats == 0,
            r.allowed_xforms == AllowedTransformFamiles::Rotate,
            r.perm_count == 0,
            r.permutations@.len() == 0,
    {
        Ring {
            n_colours: 3,
            n_beads: 5,
            limit_repeats: false,
            max_repeats: 0,
            allowed_xforms: AllowedTransformFamiles::Rotate,
            perm_count: 0,
            permutations: Vec::new(),
        }
    }
}

impl Ring {
    pub fn new() -> (r: Self)
        ensures
            r.n_colours == 3,
            r.n_beads == 5,
            !r.limit_repeats,
            r.max_repeats == 0,
            r.allowed_xforms == AllowedTransformFamiles::Rotate,
            r.perm_count == 0,
            r.permutations@.len() == 0,
    {
        Self::default()
    }

    /// Run the full computation for the current configuration: derive the
    /// distinct count by Burnside's lemma, and when it does not exceed
    /// ten thousand, enumerate one canonical representative per orbit,
    /// in ascending order.
    pub fn recompute_perms(&mut self)
        requires
            ring_config_ok(*old(self)),
        ensures
            final(self).n_colours == old(self).n_colours,
            final(self).n_beads == old(self).n_beads,
            final(self).limit_repeats == old(self).limit_repeats,
            final(self).max_repeats == old(self).max_repeats,
            final(self).allowed_xforms == old(self).allowed_xforms,
            final(self).perm_count == ring_result_count(*old(self)),
            seen_sorted(final(self).permutations@),
            seen_wf(final(self).permutations@),
            ring_result_count(*old(self)) <= 10000 ==> forall|s: Seq<u8>|
                #[trigger] seen_contains(final(self).permutations@, s) <==> exists|a: Seq<u8>|
                    valid_extension(
                        a,
                        empty_colouring(),
                        0,
                        old(self).n_beads as int,
                        old(self).n_colours as int,
                        ring_limit(*old(self)),
                    ) && is_canonical_form(
                        s,
                        a,
                        old(self).n_beads as int,
                        old(self).allowed_xforms,
                    ),
            ring_result_count(*old(self)) > 10000 ==> final(self).permutations@.len() == 0,
    {
        let (orbits, fixed) = if self.limit_repeats {
            limited_count(self.n_colours, self.n_beads, self.max_repeats, self.allowed_xforms)
        } else {
            unlimited_count(self.n_colours, self.n_beads, self.allowed_xforms)
        };
        if orbits > 0 {
            self.perm_count = fixed / orbits;
        } else {
            self.perm_count = 0;
        }
        let transforms = Transforms::new(self.n_beads, self.allowed_xforms);
        if self.perm_count <= 10000 {
            let mut seen: Vec<Permutation> = Vec::new();
            let mut colour_counts: Vec<u64> = Vec::new();
            let mut v: u64 = 0;
            while v < self.n_colours
                invariant
                    v <= self.n_colours,
                    colour_counts@.len() == v,
                    forall|j: int| 0 <= j < v ==> colour_counts@[j] == 0,
                decreases self.n_colours - v,
            {
                colour_counts.push(0);
                v = v + 1;
            }
            let start = Permutation::new();
            let limit = if self.limit_repeats {
                self.max_repeats
            } else {
                u64::MAX
            };
            proof {
                assert(start@ =~= empty_colouring());
                assert forall|vv: int| 0 <= vv < self.n_colours implies colour_counts@[vv]
                    == colour_count(start@, vv, 0) by {}
            }
            build_permutations(
                &transforms,
                self.n_beads,
                self.n_colours,
                0,
                start,
                &mut colour_counts,
                limit,
                &mut seen,
            );
            self.permutations = seen;
        } else {
            self.permutations = Vec::new();
        }
    }

    /// The result set as plain rows of colour indices, one row of
    /// `n_beads` entries per canonical colouring, in their sorted order.
    pub fn export_rows(&self) -> (rv: Vec<Vec<u8>>)
        requires
            self.n_beads <= RING_CAP,
            seen_wf(self.permutations@),
        ensures
            rv.deep_view() == ring_rows(self.permutations@, self.n_beads as int),
    {
        let mut rv: Vec<Vec<u8>> = Vec::new();
        let mut i: usize = 0;
        while i < self.permutations.len()
            invariant
                self.n_beads <= RING_CAP,
                seen_wf(self.permutations@),
                i <= self.permutations@.len(),
                rv@.len() == i,
                forall|k: int|
                    0 <= k < i ==> (#[trigger] rv@[k])@ == self.permutations@[k]@.subrange(
                        0,
                        self.n_beads as int,
                    ),
            decreases self.permutations@.len() - i,
        {
            let mut entry: Vec<u8> = Vec::new();
            let mut y: u64 = 0;
            while y < self.n_beads
                invariant
                    self.n_beads <= RING_CAP,
                    seen_wf(self.permutations@),
                    i < self.permutations@.len(),
                    y <= self.n_beads,
                    entry@ =~= self.permutations@[i as int]@.subrange(0, y as int),
                decreases self.n_beads - y,
            {
                entry.push(self.permutations[i].get(y));
                proof {
                    assert(entry@ =~= self.permutations@[i as int]@.subrange(0, y as int + 1));
                }
                y = y + 1;
            }
            rv.push(entry);
            i = i + 1;
        }
        proof {
            let dv = rv.deep_view();
            let target = ring_rows(self.permutations@, self.n_beads as int);
            assert forall|k: int| 0 <= k < dv.len() implies dv[k] == target[k] by {
                assert(rv@[k].deep_view() =~= rv@[k]@);
            }
            assert(dv =~= target);
        }
        rv
    }

    /// The result set serialized as JSON bytes: an array of rows, each a
    /// flat array of `n_beads` colour indices.
    pub fn export_json(&self) -> (bytes: Vec<u8>)
        requires
            self.n_beads <= RING_CAP,
            seen_wf(self.permutations@),
        ensures
            bytes@ == crate::export::json_ring_bytes(
                ring_rows(self.permutations@, self.n_beads as int),
            ),
    {
        let rows = self.export_rows();
        crate::export::ring_rows_to_json(&rows)
    }
}

/// The nested-integer export structure: one row per colouring, holding its
/// first `n` slots.
pub open spec fn ring_rows(v: Seq<Permutation>, n: int) -> Seq<Seq<u8>> {
    Seq::new(v.len(), |i: int| v[i]@.subrange(0, n))
}

} // verus!

verus! {

/// One line of the discrepancy report: for rotation step `i`, how many
/// enumerated colourings ought to show `rotations`-fold rotational
/// symmetry versus how many do.
pub struct RotationRow {
    pub step: u64,
    pub rotations: u64,
    pub expected: u64,
    pub actual: u64,
}

/// The discrepancy report produced when the enumerated set's size does not
/// match the Burnside count: both counts, and — under a quota — one row
/// per rotation order.
pub struct ConsistencyReport {
    pub expected: u64,
    pub actual: u64,
    pub rotation_rows: Vec<RotationRow>,
}

/// A colouring is unchanged by rotating it `step` positions.
pub open spec fn rot_symmetric(s: Seq<u8>, step: int, n: int) -> bool {
    forall|j: int| 0 <= j < n ==> #[trigger] s[j] == s[(j + step) % n]
}

/// Number of colourings among `v[..upto]` with `step`-rotational symmetry.
pub open spec fn count_rot_symmetric(v: Seq<permutation::Permutation>, step: int, n: int, upto: int) -> int
    decreases clip(upto),
{
    if upto <= 0 {
        0
    } else {
        count_rot_symmetric(v, step, n, upto - 1) + if 0 <= upto - 1 < v.len() && rot_symmetric(
            v[upto - 1]@,
            step,
            n,
        ) {
            1int
        } else {
            0int
        }
    }
}

proof fn lemma_count_rot_symmetric_upper(v: Seq<permutation::Permutation>, step: int, n: int, upto: int)
    ensures
        0 <= count_rot_symmetric(v, step, n, upto) <= clip(upto),
    decreases clip(upto),
{
    if upto > 0 {
        lemma_count_rot_symmetric_upper(v, step, n, upto - 1);
    }
}

/// Whether `perm` is unchanged by rotating it `step` positions.
fn is_rot_symmetric(perm: &permutation::Permutation, step: u64, n: u64) -> (r: bool)
    requires
        perm@.len() == RING_CAP,
        1 <= n <= RING_CAP,
        step <= n,
    ensures
        r == rot_symmetric(perm@, step as int, n as int),
{
    let mut j: u64 = 0;
    while j < n
        invariant
            perm@.len() == RING_CAP,
            1 <= n <= RING_CAP,
            step <= n,
            j <= n,
            forall|jj: int| 0 <= jj < j ==> #[trigger] perm@[jj] == perm@[(jj + step) % (n as int)],
        decreases n - j,
    {
        let next = (j + step) % n;
        if perm.get(j) != perm.get(next) {
            return false;
        }
        j = j + 1;
    }
    true
}

/// What one discrepancy-report row must hold for rotation step `k + 1`:
/// the gcd-derived rotation order, the quota-bounded expected count for
/// that order, and the exact number of enumerated colourings showing it.
pub open spec fn rotation_row_ok(row: RotationRow, k: int, r: Ring) -> bool {
    let g = spec_gcd(r.n_beads as nat, (k + 1) as nat) as int;
    &&& row.step == k + 1
    &&& row.rotations == g
    &&& row.expected == spec_count(
        g as nat,
        uniform_quota(r.n_colours as int, (r.max_repeats as int / (r.n_beads as int / g)) as u8),
    ) as int / (r.n_beads as int)
    &&& row.actual == count_rot_symmetric(
        r.permutations@,
        g,
        r.n_beads as int,
        r.permutations@.len() as int,
    )
}

impl Ring {
    /// Cross-validate the enumerated set against the Burnside count.
    /// Agreement yields nothing; a mismatch yields both counts, and under
    /// a quota one row per rotation step comparing how many enumerated
    /// colourings ought to show that rotational symmetry with how many do.
    pub fn consistency_report(&self) -> (r: Option<ConsistencyReport>)
        requires
            ring_config_ok(*self),
            seen_wf(self.permutations@),
        ensures
            r is Some <==> self.perm_count != self.permutations@.len(),
            r matches Some(rep) ==> rep.expected == self.perm_count && rep.actual
                == self.permutations@.len() && (!self.limit_repeats ==> rep.rotation_rows@.len()
                == 0) && (self.limit_repeats ==> rep.rotation_rows@.len() == self.n_beads - 1 && (
            forall|k: int|
                0 <= k < rep.rotation_rows@.len() ==> rotation_row_ok(
                    #[trigger] rep.rotation_rows@[k],
                    k,
                    *self,
                ))),
    {
        let n = self.n_beads;
        let c = self.n_colours;
        let m = self.max_repeats;
        let actual = self.permutations.len() as u64;
        if self.perm_count == actual {
            return None;
        }
        let mut rotation_rows: Vec<RotationRow> = Vec::new();
        if self.limit_repeats {
            let mut i: u64 = 1;
            while i < n
                invariant
                    ring_config_ok(*self),
                    self.limit_repeats,
                    seen_wf(self.permutations@),
                    n == self.n_beads,
                    c == self.n_colours,
                    m == self.max_repeats,
                    1 <= i <= n,
                    rotation_rows@.len() == i - 1,
                    forall|k: int|
                        0 <= k < i - 1 ==> rotation_row_ok(
                            #[trigger] rotation_rows@[k],
                            k,
                            *self,
                        ),
                decreases n - i,
            {
                let rotations = gcd(n, i);
                let orbit_size = n / rotations;
                proof {
                    vstd::arithmetic::div_mod::lemma_div_non_zero(n as int, rotations as int);
                    lemma_gcd_props(n as nat, i as nat);
                    lemma_ring_pow_fits(c as int, rotations as nat);
                }
                let n_combis = simple_count(rotations, c, m / orbit_size);
                proof {
                    let g = spec_gcd(n as nat, i as nat) as int;
                    assert(Seq::new(c as nat, |j: int| (m / orbit_size) as u8) =~= uniform_quota(
                        c as int,
                        (m as int / (n as int / g)) as u8,
                    ));
                }
                let expected = n_combis / n;
                let mut count: u64 = 0;
                let mut pi: usize = 0;
                while pi < self.permutations.len()
                    invariant
                        ring_config_ok(*self),
                        seen_wf(self.permutations@),
                        n == self.n_beads,
                        1 <= rotations <= n,
                        pi <= self.permutations@.len(),
                        count == count_rot_symmetric(
                            self.permutations@,
                            rotations as int,
                            n as int,
                            pi as int,
                        ),
                        count <= pi,
                    decreases self.permutations@.len() - pi,
                {
                    proof {
                        lemma_count_rot_symmetric_upper(
                            self.permutations@,
                            rotations as int,
                            n as int,
                            pi as int,
                        );
                    }
                    let okay = is_rot_symmetric(&self.permutations[pi], rotations, n);
                    if okay {
                        count = count + 1;
                    }
                    pi = pi + 1;
                }
                rotation_rows.push(
                    RotationRow { step: i, rotations, expected, actual: count },
                );
                i = i + 1;
            }
        }
        Some(ConsistencyReport { expected: self.perm_count, actual, rotation_rows })
    }
}

/// With no symmetries allowed, the only group element is the identity, so
/// the Burnside sum is trivially divisible by the orbit count. (For the
/// rotation and flip families the divisibility is Burnside's lemma itself;
/// the tests cross-check it over the whole supported range.)
pub proof fn lemma_no_transform_divisible(c: int, n: int, m: int)
    ensures
        spec_unlimited(c, n, AllowedTransformFamiles::NoTransforms).0 == 1,
        spec_unlimited(c, n, AllowedTransformFamiles::NoTransforms).1 % spec_unlimited(
            c,
            n,
            AllowedTransformFamiles::NoTransforms,
        ).0 == 0,
        spec_limited(c, n, m, AllowedTransformFamiles::NoTransforms).0 > 0
            ==> spec_limited(c, n, m, AllowedTransformFamiles::NoTransforms).1 % spec_limited(
            c,
            n,
            m,
            AllowedTransformFamiles::NoTransforms,
        ).0 == 0,
{
}

} // verus!

verus! {

impl Ring {
    /// The internal-consistency condition of the Burnside division: if the
    /// total fixed-point count is not an exact multiple of the orbit
    /// count, a formula is wrong, and both operands are surfaced. The
    /// division in `recompute_perms` truncates for display either way.
    pub fn internal_consistency_error(&self) -> (r: Option<(u64, u64)>)
        requires
            ring_config_ok(*self),
        ensures
            r is Some <==> (ring_counts(*self).0 > 0 && ring_counts(*self).1 % ring_counts(
                *self,
            ).0 != 0),
            r matches Some(pair) ==> (pair.0 as int, pair.1 as int) == ring_counts(*self),
    {
        let (orbits, fixed) = if self.limit_repeats {
            limited_count(self.n_colours, self.n_beads, self.max_repeats, self.allowed_xforms)
        } else {
            unlimited_count(self.n_colours, self.n_beads, self.allowed_xforms)
        };
        if orbits > 0 && fixed % orbits != 0 {
            Some((orbits, fixed))
        } else {
            None
        }
    }
}

} // verus!
