//! The symmetry-element classes of a rectangular tile, as a data-driven
//! table: each class carries its orbit count (how many literal group
//! elements share it), its orbit size (how many cells each moved cell is
//! grouped with), its applicability, and its fixed-cell formula, from which
//! the free-position count and the fixed-point counts follow.

use vstd::prelude::*;

use crate::ring::spike_hist;

verus! {

use vstd::arithmetic::power::pow;
use vstd::arithmetic::div_mod::lemma_fundamental_div_mod;
use vstd::arithmetic::mul::lemma_mul_upper_bound;
use crate::bag_draw::clip;
use crate::bag_draw::count3;
use crate::bag_draw::lemma_count3_bound;
use crate::bag_draw::lemma_sum_from_two;
use crate::bag_draw::seq_sum;
use crate::bag_draw::spec_count3;

/// Which symmetry operations identify two colourings of the tile.
#[derive(Debug, Clone, Copy, PartialEq, Eq, Structural)]
pub enum AllowedTransformFamiles {
    NoTransforms,
    Rotate,
    RotateAndFlip,
}

/// One class of structurally equivalent symmetry operations.
#[derive(Debug, Clone, Copy, PartialEq, Eq, Structural)]
pub enum GroupElementClass {
    NoXform,
    Rot90,
    Rot180,
    HFlip,
    VFlip,
    DFlip,
}

/// How many literal group elements share this class.
pub open spec fn spec_orbits(cl: GroupElementClass) -> int {
    match cl {
        GroupElementClass::NoXform => 1,
        GroupElementClass::Rot90 => 2,
        GroupElementClass::Rot180 => 1,
        GroupElementClass::HFlip => 1,
        GroupElementClass::VFlip => 1,
        GroupElementClass::DFlip => 2,
    }
}

/// How many cells travel together in one cycle of this class.
pub open spec fn spec_orbit_size(cl: GroupElementClass) -> int {
    match cl {
        GroupElementClass::NoXform => 1,
        GroupElementClass::Rot90 => 4,
        GroupElementClass::Rot180 => 2,
        GroupElementClass::HFlip => 2,
        GroupElementClass::VFlip => 2,
        GroupElementClass::DFlip => 2,
    }
}

/// Whether this class exists only on square tiles.
pub open spec fn spec_square_only(cl: GroupElementClass) -> bool {
    cl == GroupElementClass::Rot90 || cl == GroupElementClass::DFlip
}

/// Whether this class participates in the Burnside sum for `fam`.
pub open spec fn spec_applicable(
    cl: GroupElementClass,
    fam: AllowedTransformFamiles,
    square: bool,
) -> bool {
    match cl {
        GroupElementClass::NoXform => true,
        GroupElementClass::Rot90 => !matches!(fam, AllowedTransformFamiles::NoTransforms)
            && square,
        GroupElementClass::Rot180 => !matches!(fam, AllowedTransformFamiles::NoTransforms),
        GroupElementClass::HFlip => matches!(fam, AllowedTransformFamiles::RotateAndFlip),
        GroupElementClass::VFlip => matches!(fam, AllowedTransformFamiles::RotateAndFlip),
        GroupElementClass::DFlip => matches!(fam, AllowedTransformFamiles::RotateAndFlip)
            && square,
    }
}

/// The number of whole cycles of moved cells this class produces on a
/// `w` by `h` tile. Cells on the axis or centre that stay put are not in
/// this count.
pub open spec fn spec_base_fixed(cl: GroupElementClass, w: int, h: int) -> int {
    match cl {
        GroupElementClass::NoXform => w * h,
        GroupElementClass::Rot90 => if w % 2 == 1 {
            (w / 2) * ((h + 1) / 2)
        } else {
            w * h / 4
        },
        GroupElementClass::Rot180 => if w % 2 == 1 && h % 2 == 1 {
            (h / 2) * w + w / 2
        } else {
            w * h / 2
        },
        GroupElementClass::HFlip => h * (w / 2),
        GroupElementClass::VFlip => w * (h / 2),
        GroupElementClass::DFlip => w * (w - 1) / 2,
    }
}

/// The number of independent positions a colouring fixed by this class
/// has: one per cycle, plus every cell the class leaves in place.
pub open spec fn spec_free(cl: GroupElementClass, w: int, h: int) -> int {
    spec_base_fixed(cl, w, h) + (w * h - spec_base_fixed(cl, w, h) * spec_orbit_size(cl))
}

/// The weighted draws of this class: each cycle consumes `orbit_size`
/// units of its colour's quota, each untouched cell one unit.
pub open spec fn spec_class_draws(cl: GroupElementClass, w: int, h: int) -> Seq<u8> {
    Seq::new(
        clip(spec_free(cl, w, h)) as nat,
        |i: int|
            if i < spec_base_fixed(cl, w, h) {
                spec_orbit_size(cl) as u8
            } else {
                1u8
            },
    )
}

/// Unrestricted fixed-point count: `c` to the number of free positions.
pub open spec fn spec_n_fixed(cl: GroupElementClass, w: int, h: int, c: int) -> int {
    pow(c, clip(spec_free(cl, w, h)) as nat)
}

pub open spec fn spec_total_fixed(cl: GroupElementClass, w: int, h: int, c: int) -> int {
    spec_n_fixed(cl, w, h, c) * spec_orbits(cl)
}

/// Quota-bounded fixed-point count: the class's cycle-length multiset fed
/// into the weighted bounded-multiplicity counter.
pub open spec fn spec_limited_n_fixed(
    cl: GroupElementClass,
    w: int,
    h: int,
    c: int,
    m: int,
) -> int {
    spec_count3(spec_class_draws(cl, w, h), 0, spike_hist(m, c)) as int
}

pub open spec fn spec_limited_total_fixed(
    cl: GroupElementClass,
    w: int,
    h: int,
    c: int,
    m: int,
) -> int {
    spec_limited_n_fixed(cl, w, h, c, m) * spec_orbits(cl)
}

/// The moved cells never outnumber the tile: the cycles of a class fit in
/// the `w` by `h` rectangle. This keeps `spec_free` non-negative.
pub proof fn lemma_cycles_fit(cl: GroupElementClass, w: int, h: int)
    requires
        1 <= w <= 8,
        1 <= h <= 8,
        spec_square_only(cl) ==> w == h,
    ensures
        0 <= spec_base_fixed(cl, w, h),
        spec_base_fixed(cl, w, h) * spec_orbit_size(cl) <= w * h,
        spec_base_fixed(cl, w, h) <= w * h,
        0 <= spec_free(cl, w, h) <= w * h,
        w * h <= 64,
{
    assert(1 <= w * h <= 64) by (nonlinear_arith)
        requires
            1 <= w <= 8,
            1 <= h <= 8,
    ;
    lemma_fundamental_div_mod(w, 2);
    lemma_fundamental_div_mod(h, 2);
    lemma_fundamental_div_mod(w * h, 2);
    lemma_fundamental_div_mod(w * h, 4);
    lemma_fundamental_div_mod(h + 1, 2);
    lemma_fundamental_div_mod(w * (w - 1), 2);
    let wq = w / 2;
    let hq = h / 2;
    match cl {
        GroupElementClass::NoXform => {},
        GroupElementClass::Rot90 => {
            if w % 2 == 1 {
                assert((wq * ((h + 1) / 2)) * 4 <= w * h && wq * ((h + 1) / 2) >= 0)
                    by (nonlinear_arith)
                    requires
                        w == 2 * wq + 1,
                        h == w,
                        (h + 1) / 2 == wq + 1,
                        1 <= w <= 8,
                        wq >= 0,
                ;
            } else {
                assert((w * h / 4) * 4 <= w * h) by (nonlinear_arith)
                    requires
                        w * h == 4 * (w * h / 4) + (w * h) % 4,
                        (w * h) % 4 >= 0,
                ;
                assert((w * h) % 4 >= 0);
                assert(w * h / 4 >= 0) by (nonlinear_arith)
                    requires
                        w * h == 4 * (w * h / 4) + (w * h) % 4,
                        (w * h) % 4 < 4,
                        w >= 1,
                        h >= 1,
                ;
            }
        },
        GroupElementClass::Rot180 => {
            if w % 2 == 1 && h % 2 == 1 {
                assert((hq * w + wq) * 2 <= w * h) by (nonlinear_arith)
                    requires
                        w == 2 * wq + 1,
                        h == 2 * hq + 1,
                        wq >= 0,
                        hq >= 0,
                ;
                assert(hq * w + wq >= 0) by (nonlinear_arith)
                    requires
                        hq >= 0,
                        w >= 1,
                        wq >= 0,
                ;
            } else {
                assert((w * h / 2) * 2 <= w * h) by (nonlinear_arith)
                    requires
                        w * h == 2 * (w * h / 2) + (w * h) % 2,
                        (w * h) % 2 >= 0,
                ;
                assert(w * h / 2 >= 0) by (nonlinear_arith)
                    requires
                        w * h == 2 * (w * h / 2) + (w * h) % 2,
                        (w * h) % 2 < 2,
                        w >= 1,
                        h >= 1,
                ;
            }
        },
        GroupElementClass::HFlip => {
            assert((h * wq) * 2 <= w * h && h * wq >= 0) by (nonlinear_arith)
                requires
                    w == 2 * wq + w % 2,
                    0 <= w % 2 < 2,
                    h >= 1,
                    wq >= 0,
            ;
        },
        GroupElementClass::VFlip => {
            assert((w * hq) * 2 <= w * h && w * hq >= 0) by (nonlinear_arith)
                requires
                    h == 2 * hq + h % 2,
                    0 <= h % 2 < 2,
                    w >= 1,
                    hq >= 0,
            ;
        },
        GroupElementClass::DFlip => {
            assert((w * (w - 1) / 2) * 2 <= w * h && w * (w - 1) / 2 >= 0) by (nonlinear_arith)
                requires
                    w * (w - 1) == 2 * (w * (w - 1) / 2) + (w * (w - 1)) % 2,
                    0 <= (w * (w - 1)) % 2 < 2,
                    h == w,
                    w >= 1,
            ;
        },
    }
    assert(spec_base_fixed(cl, w, h) <= spec_base_fixed(cl, w, h) * spec_orbit_size(cl))
        by (nonlinear_arith)
        requires
            spec_base_fixed(cl, w, h) >= 0,
            spec_orbit_size(cl) >= 1,
    ;
}

impl GroupElementClass {
    pub fn orbits(self) -> (r: u64)
        ensures
            r == spec_orbits(self),
    {
        match self {
            GroupElementClass::NoXform => 1,
            GroupElementClass::Rot90 => 2,
            GroupElementClass::Rot180 => 1,
            GroupElementClass::HFlip => 1,
            GroupElementClass::VFlip => 1,
            GroupElementClass::DFlip => 2,
        }
    }

    pub fn orbit_size(self) -> (r: u64)
        ensures
            r == spec_orbit_size(self),
    {
        match self {
            GroupElementClass::NoXform => 1,
            GroupElementClass::Rot90 => 4,
            GroupElementClass::Rot180 => 2,
            GroupElementClass::HFlip => 2,
            GroupElementClass::VFlip => 2,
            GroupElementClass::DFlip => 2,
        }
    }

    pub fn applicable(self, allowed_families: AllowedTransformFamiles, square: bool) -> (r: bool)
        ensures
            r == spec_applicable(self, allowed_families, square),
    {
        match self {
            GroupElementClass::NoXform => true,
            GroupElementClass::Rot90 => matches!(allowed_families, AllowedTransformFamiles::Rotate
                | AllowedTransformFamiles::RotateAndFlip) && square,
            GroupElementClass::Rot180 => matches!(allowed_families, AllowedTransformFamiles::Rotate
                | AllowedTransformFamiles::RotateAndFlip),
            GroupElementClass::HFlip => matches!(allowed_families,
                AllowedTransformFamiles::RotateAndFlip),
            GroupElementClass::VFlip => matches!(allowed_families,
                AllowedTransformFamiles::RotateAndFlip),
            GroupElementClass::DFlip => matches!(allowed_families,
                AllowedTransformFamiles::RotateAndFlip) && square,
        }
    }

    pub fn base_fixed(self, w: u64, h: u64) -> (r: u64)
        requires
            1 <= w <= 8,
            1 <= h <= 8,
            spec_square_only(self) ==> w == h,
        ensures
            r == spec_base_fixed(self, w as int, h as int),
    {
        proof {
            lemma_cycles_fit(self, w as int, h as int);
            lemma_mul_upper_bound(w as int / 2, 4, (h as int + 1) / 2, 4);
            lemma_mul_upper_bound(h as int / 2, 4, w as int, 8);
            lemma_mul_upper_bound(h as int, 8, w as int / 2, 4);
            lemma_mul_upper_bound(w as int, 8, h as int / 2, 4);
            lemma_mul_upper_bound(w as int, 8, w as int - 1, 7);
        }
        match self {
            GroupElementClass::NoXform => w * h,
            GroupElementClass::Rot90 => if w % 2 == 1 {
                (w / 2) * ((h + 1) / 2)
            } else {
                w * h / 4
            },
            GroupElementClass::Rot180 => if w % 2 == 1 && h % 2 == 1 {
                (h / 2) * w + w / 2
            } else {
                w * h / 2
            },
            GroupElementClass::HFlip => h * (w / 2),
            GroupElementClass::VFlip => w * (h / 2),
            GroupElementClass::DFlip => w * (w - 1) / 2,
        }
    }

    pub fn free(self, w: u64, h: u64) -> (r: u64)
        requires
            1 <= w <= 8,
            1 <= h <= 8,
            spec_square_only(self) ==> w == h,
        ensures
            r == spec_free(self, w as int, h as int),
            r <= 64,
    {
        proof {
            lemma_cycles_fit(self, w as int, h as int);
        }
        let fixed = self.base_fixed(w, h);
        proof {
            lemma_mul_upper_bound(fixed as int, 64, spec_orbit_size(self), 4);
        }
        let unfixed = w * h - fixed * self.orbit_size();
        fixed + unfixed
    }

    pub fn n_fixed(self, w: u64, h: u64, n_colours: u64) -> (r: u64)
        requires
            1 <= w <= 8,
            1 <= h <= 8,
            1 <= n_colours,
            spec_square_only(self) ==> w == h,
            spec_n_fixed(self, w as int, h as int, n_colours as int) <= u64::MAX,
        ensures
            r == spec_n_fixed(self, w as int, h as int, n_colours as int),
    {
        let free = self.free(w, h);
        crate::ring::u64_pow(n_colours, free)
    }

    pub fn total_fixed(self, w: u64, h: u64, n_colours: u64) -> (r: u64)
        requires
            1 <= w <= 8,
            1 <= h <= 8,
            1 <= n_colours,
            spec_square_only(self) ==> w == h,
            spec_total_fixed(self, w as int, h as int, n_colours as int) <= u64::MAX,
        ensures
            r == spec_total_fixed(self, w as int, h as int, n_colours as int),
    {
        proof {
            let f = spec_n_fixed(self, w as int, h as int, n_colours as int);
            crate::bag_draw::lemma_pow_nonneg(
                n_colours as int,
                clip(spec_free(self, w as int, h as int)) as nat,
            );
            assert(f <= f * spec_orbits(self)) by (nonlinear_arith)
                requires
                    f >= 0,
                    spec_orbits(self) >= 1,
            ;
        }
        let n_fixed = self.n_fixed(w, h, n_colours);
        n_fixed * self.orbits()
    }

    /// Quota-bounded fixed-point count of this class.
    pub fn limited_n_fixed(self, w: u64, h: u64, n_colours: u64, max_repeats: u64) -> (r: u64)
        requires
            1 <= w <= 8,
            1 <= h <= 8,
            1 <= n_colours <= 8,
            1 <= max_repeats <= 64,
            spec_square_only(self) ==> w == h,
            pow(n_colours as int, clip(spec_free(self, w as int, h as int)) as nat) <= u64::MAX,
        ensures
            r == spec_limited_n_fixed(
                self,
                w as int,
                h as int,
                n_colours as int,
                max_repeats as int,
            ),
    {
        let free = self.free(w, h);
        let fixed = self.base_fixed(w, h);
        let size = self.orbit_size();
        proof {
            lemma_cycles_fit(self, w as int, h as int);
        }
        let mut draws: Vec<u8> = Vec::new();
        let mut i: u64 = 0;
        while i < free
            invariant
                i <= free,
                fixed == spec_base_fixed(self, w as int, h as int),
                free == spec_free(self, w as int, h as int),
                size == spec_orbit_size(self),
                size <= 4,
                draws@.len() == i,
                forall|j: int|
                    0 <= j < i ==> draws@[j] == (if j < fixed {
                        size as u8
                    } else {
                        1u8
                    }),
            decreases free - i,
        {
            if i < fixed {
                draws.push(size as u8);
            } else {
                draws.push(1u8);
            }
            i = i + 1;
        }
        proof {
            assert(draws@ =~= spec_class_draws(self, w as int, h as int));
        }
        let mut counts: Vec<u64> = Vec::new();
        let mut k: u64 = 0;
        while k < max_repeats + 1
            invariant
                k <= max_repeats + 1,
                max_repeats <= 64,
                counts@.len() == k,
                forall|j: int|
                    0 <= j < k ==> counts@[j] == (if j == max_repeats as int {
                        n_colours
                    } else {
                        0u64
                    }),
            decreases max_repeats + 1 - k,
        {
            if k == max_repeats {
                counts.push(n_colours);
            } else {
                counts.push(0u64);
            }
            k = k + 1;
        }
        proof {
            assert(counts@ =~= spike_hist(max_repeats as int, n_colours as int));
            lemma_sum_from_two(counts@, max_repeats as int, max_repeats as int, 0);
            assert(seq_sum(counts@) == n_colours);
        }
        count3(&draws, &mut counts)
    }

    pub fn limited_total_fixed(self, w: u64, h: u64, n_colours: u64, max_repeats: u64) -> (r: u64)
        requires
            1 <= w <= 8,
            1 <= h <= 8,
            1 <= n_colours <= 8,
            1 <= max_repeats <= 64,
            spec_square_only(self) ==> w == h,
            pow(n_colours as int, clip(spec_free(self, w as int, h as int)) as nat) <= u64::MAX,
            spec_limited_total_fixed(
                self,
                w as int,
                h as int,
                n_colours as int,
                max_repeats as int,
            ) <= u64::MAX,
        ensures
            r == spec_limited_total_fixed(
                self,
                w as int,
                h as int,
                n_colours as int,
                max_repeats as int,
            ),
    {
        proof {
            let f = spec_limited_n_fixed(
                self,
                w as int,
                h as int,
                n_colours as int,
                max_repeats as int,
            );
            assert(f <= f * spec_orbits(self)) by (nonlinear_arith)
                requires
                    f >= 0,
                    spec_orbits(self) >= 1,
            ;
        }
        let n_fixed = self.limited_n_fixed(w, h, n_colours, max_repeats);
        n_fixed * self.orbits()
    }
}

} // verus!
