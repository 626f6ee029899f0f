//! Rectangular tile colourings: a W×H grid of cells, counted and
//! enumerated up to a chosen family of symmetries.
//!
//! The count comes from Burnside's lemma over the table of group-element
//! classes in `transforms`; the enumeration walks the cells in row-major
//! order and keeps one canonical representative per orbit.

pub mod permutation;
pub mod transforms;

use vstd::prelude::*;

verus! {

use crate::tile::transforms::AllowedTransformFamiles;
use crate::tile::transforms::GroupElementClass;
use crate::tile::transforms::spec_applicable;
use crate::tile::transforms::spec_n_fixed;
use crate::tile::transforms::spec_orbits;
use crate::tile::transforms::spec_total_fixed;
use crate::tile::permutation::Permutation;
use crate::tile::permutation::TILE_CAP;
use crate::tile::permutation::Transforms;
use crate::tile::permutation::build_permutations;
use crate::tile::permutation::is_grid_canonical;
use crate::tile::permutation::seen_contains;
use crate::tile::permutation::seen_sorted;
use crate::tile::permutation::seen_wf;
use crate::tile::permutation::valid_extension;
use crate::ring::permutation::colour_count;
use crate::bag_draw::lemma_pow_nonneg;
use crate::bag_draw::clip;

/// A tile-colouring request and its latest results: the Burnside count in
/// `perm_count`, and — when that count is small enough to enumerate and
/// the tile fits the packed capacity — the sorted canonical
/// representatives in `permutations`.
pub struct Tile {
    pub n_colours: u64,
    pub width: u64,
    pub height: u64,
    pub allowed_xforms: AllowedTransformFamiles,
    pub perm_count: u64,
    pub permutations: Vec<Permutation>,
}

/// The Burnside contribution of one class: its orbit count and total
/// fixed points if it applies, nothing otherwise.
pub open spec fn class_term(
    cl: GroupElementClass,
    fam: AllowedTransformFamiles,
    w: int,
    h: int,
    c: int,
) -> (int, int) {
    if spec_applicable(cl, fam, w == h) {
        (spec_orbits(cl), spec_total_fixed(cl, w, h, c))
    } else {
        (0, 0)
    }
}

/// The Burnside pair `(total_orbits, total_fixed)` of a configuration:
/// the sum of every applicable class's term.
pub open spec fn tile_counts(t: Tile) -> (int, int) {
    let w = t.width as int;
    let h = t.height as int;
    let c = t.n_colours as int;
    let fam = t.allowed_xforms;
    let t0 = class_term(GroupElementClass::NoXform, fam, w, h, c);
    let t1 = class_term(GroupElementClass::Rot90, fam, w, h, c);
    let t2 = class_term(GroupElementClass::Rot180, fam, w, h, c);
    let t3 = class_term(GroupElementClass::HFlip, fam, w, h, c);
    let t4 = class_term(GroupElementClass::VFlip, fam, w, h, c);
    let t5 = class_term(GroupElementClass::DFlip, fam, w, h, c);
    (t0.0 + t1.0 + t2.0 + t3.0 + t4.0 + t5.0, t0.1 + t1.1 + t2.1 + t3.1 + t4.1 + t5.1)
}

/// The number of distinct colourings.
pub open spec fn tile_result_count(t: Tile) -> int {
    tile_counts(t).1 / tile_counts(t).0
}

/// The configuration ranges the engine supports; the total fixed-point
/// count must fit the machine word, which the caller's colour range
/// guarantees.
pub open spec fn tile_config_ok(t: Tile) -> bool {
    &&& 1 <= t.n_colours <= 8
    &&& 1 <= t.width <= 8
    &&& 1 <= t.height <= 8
    &&& tile_counts(t).1 <= u64::MAX
}

/// The all-zero partial colouring the enumeration starts from.
pub open spec fn empty_tile_colouring() -> Seq<u8> {
    Seq::new(TILE_CAP as nat, |j: int| 0u8)
}

impl Default for Tile {
    /// Three colours on a two-by-two tile, rotations only.
    fn default() -> (r: Self)
        ensures
            r.n_colours == 3,
            r.width == 2,
            r.height == 2,
            r.allowed_xforms == AllowedTransformFamiles::Rotate,
            r.perm_count == 0,
            r.permutations@.len() == 0,
    {
        Tile {
            n_colours: 3,
            width: 2,
            height: 2,
            allowed_xforms: AllowedTransformFamiles::Rotate,
            perm_count: 0,
            permutations: Vec::new(),
        }
    }
}

/// Every class term is non-negative.
proof fn lemma_class_term_nonneg(
    cl: GroupElementClass,
    fam: AllowedTransformFamiles,
    w: int,
    h: int,
    c: int,
)
    requires
        1 <= c,
    ensures
        class_term(cl, fam, w, h, c).0 >= 0,
        class_term(cl, fam, w, h, c).1 >= 0,
        spec_applicable(cl, fam, w == h) ==> class_term(cl, fam, w, h, c).1 == spec_total_fixed(
            cl,
            w,
            h,
            c,
        ) && spec_n_fixed(cl, w, h, c) <= spec_total_fixed(cl, w, h, c) && spec_n_fixed(cl, w, h, c)
            >= 0,
{
    lemma_pow_nonneg(c, clip(crate::tile::transforms::spec_free(cl, w, h)) as nat);
    let f = spec_n_fixed(cl, w, h, c);
    assert(f <= f * spec_orbits(cl) && f * spec_orbits(cl) >= 0) by (nonlinear_arith)
        requires
            f >= 0,
            spec_orbits(cl) >= 1,
    ;
}

impl Tile {
    pub fn new() -> (r: Self)
        ensures
            r.n_colours == 3,
            r.width == 2,
            r.height == 2,
            r.allowed_xforms == AllowedTransformFamiles::Rotate,
            r.perm_count == 0,
            r.permutations@.len() == 0,
    {
        Self::default()
    }

    /// Run the full computation for the current configuration: derive the
    /// distinct count by Burnside's lemma, and when it does not exceed
    /// ten thousand and the tile fits the packed capacity, enumerate one
    /// canonical representative per orbit, in ascending order.
    pub fn recompute_perms(&mut self)
        requires
            tile_config_ok(*old(self)),
        ensures
            final(self).n_colours == old(self).n_colours,
            final(self).width == old(self).width,
            final(self).height == old(self).height,
            final(self).allowed_xforms == old(self).allowed_xforms,
            final(self).perm_count == tile_result_count(*old(self)),
            seen_sorted(final(self).permutations@),
            seen_wf(final(self).permutations@),
            tile_result_count(*old(self)) <= 10000 && old(self).width * old(self).height
                <= TILE_CAP ==> forall|s: Seq<u8>|
                #[trigger] seen_contains(final(self).permutations@, s) <==> exists|a: Seq<u8>|
                    valid_extension(
                        a,
                        empty_tile_colouring(),
                        0,
                        old(self).width as int * (old(self).height as int),
                        old(self).n_colours as int,
                        u64::MAX as int,
                    ) && is_grid_canonical(
                        s,
                        a,
                        old(self).width as int,
                        old(self).height as int,
                        old(self).allowed_xforms,
                    ),
            tile_result_count(*old(self)) > 10000 || old(self).width * old(self).height > TILE_CAP
                ==> final(self).permutations@.len() == 0,
    {
        let w = self.width;
        let h = self.height;
        let c = self.n_colours;
        let fam = self.allowed_xforms;
        let square = w == h;
        let ghost wi = w as int;
        let ghost hi = h as int;
        let ghost ci = c as int;
        proof {
            lemma_class_term_nonneg(GroupElementClass::NoXform, fam, wi, hi, ci);
            lemma_class_term_nonneg(GroupElementClass::Rot90, fam, wi, hi, ci);
            lemma_class_term_nonneg(GroupElementClass::Rot180, fam, wi, hi, ci);
            lemma_class_term_nonneg(GroupElementClass::HFlip, fam, wi, hi, ci);
            lemma_class_term_nonneg(GroupElementClass::VFlip, fam, wi, hi, ci);
            lemma_class_term_nonneg(GroupElementClass::DFlip, fam, wi, hi, ci);
        }
        let mut orbits: u64 = 0;
        let mut fixed: u64 = 0;
        if GroupElementClass::NoXform.applicable(fam, square) {
            orbits = orbits + GroupElementClass::NoXform.orbits();
            fixed = fixed + GroupElementClass::NoXform.total_fixed(w, h, c);
        }
        if GroupElementClass::Rot90.applicable(fam, square) {
            orbits = orbits + GroupElementClass::Rot90.orbits();
            fixed = fixed + GroupElementClass::Rot90.total_fixed(w, h, c);
        }
        if GroupElementClass::Rot180.applicable(fam, square) {
            orbits = orbits + GroupElementClass::Rot180.orbits();
            fixed = fixed + GroupElementClass::Rot180.total_fixed(w, h, c);
        }
        if GroupElementClass::HFlip.applicable(fam, square) {
            orbits = orbits + GroupElementClass::HFlip.orbits();
            fixed = fixed + GroupElementClass::HFlip.total_fixed(w, h, c);
        }
        if GroupElementClass::VFlip.applicable(fam, square) {
            orbits = orbits + GroupElementClass::VFlip.orbits();
            fixed = fixed + GroupElementClass::VFlip.total_fixed(w, h, c);
        }
        if GroupElementClass::DFlip.applicable(fam, square) {
            orbits = orbits + GroupElementClass::DFlip.orbits();
            fixed = fixed + GroupElementClass::DFlip.total_fixed(w, h, c);
        }
        self.perm_count = fixed / orbits;
        let transforms = Transforms::new(w, h, fam);
        proof {
            vstd::arithmetic::mul::lemma_mul_upper_bound(w as int, 8, h as int, 8);
        }
        if self.perm_count <= 10000 && w * h <= 25 {
            let mut seen: Vec<Permutation> = Vec::new();
            let mut colour_counts: Vec<u64> = Vec::new();
            let mut v: u64 = 0;
            while v < c
                invariant
                    v <= c,
                    colour_counts@.len() == v,
                    forall|j: int| 0 <= j < v ==> colour_counts@[j] == 0,
                decreases c - v,
            {
                colour_counts.push(0);
                v = v + 1;
            }
            let start = Permutation::new();
            proof {
                assert(start@ =~= empty_tile_colouring());
                assert forall|vv: int| 0 <= vv < ci implies colour_counts@[vv] == colour_count(
                    start@,
                    vv,
                    0,
                ) by {}
            }
            build_permutations(&transforms, w, h, c, 0, 0, &mut colour_counts, u64::MAX, start, &mut seen);
            self.permutations = seen;
        } else {
            self.permutations = Vec::new();
        }
    }

    /// The result set as nested rows of colour indices: one grid per
    /// canonical colouring, `height` rows of `width` entries, in their
    /// sorted order.
    pub fn export_rows(&self) -> (rv: Vec<Vec<Vec<u8>>>)
        requires
            1 <= self.width <= 8,
            1 <= self.height <= 8,
            self.width * self.height <= TILE_CAP,
            seen_wf(self.permutations@),
        ensures
            rv.deep_view() == tile_rows(self.permutations@, self.width as int, self.height as int),
    {
        let w = self.width as usize;
        let h = self.height as usize;
        let mut rv: Vec<Vec<Vec<u8>>> = Vec::new();
        let mut i: usize = 0;
        while i < self.permutations.len()
            invariant
                1 <= self.width <= 8,
                1 <= self.height <= 8,
                self.width * self.height <= TILE_CAP,
                w == self.width as usize,
                h == self.height as usize,
                seen_wf(self.permutations@),
                i <= self.permutations@.len(),
                rv@.len() == i,
                forall|k: int|
                    0 <= k < i ==> (#[trigger] rv@[k]).deep_view() == tile_entry(
                        self.permutations@[k]@,
                        self.width as int,
                        self.height as int,
                    ),
            decreases self.permutations@.len() - i,
        {
            let mut entry: Vec<Vec<u8>> = Vec::new();
            let mut y: usize = 0;
            while y < h
                invariant
                    1 <= self.width <= 8,
                    1 <= self.height <= 8,
                    self.width * self.height <= TILE_CAP,
                    w == self.width as usize,
                    h == self.height as usize,
                    seen_wf(self.permutations@),
                    i < self.permutations@.len(),
                    y <= h,
                    entry@.len() == y,
                    forall|r: int|
                        0 <= r < y ==> (#[trigger] entry@[r])@ == row_of(
                            self.permutations@[i as int]@,
                            r,
                            self.width as int,
                        ),
                decreases h - y,
            {
                let mut row: Vec<u8> = Vec::new();
                let mut x: usize = 0;
                while x < w
                    invariant
                        1 <= self.width <= 8,
                        1 <= self.height <= 8,
                        self.width * self.height <= TILE_CAP,
                        w == self.width as usize,
                        h == self.height as usize,
                        seen_wf(self.permutations@),
                        i < self.permutations@.len(),
                        y < h,
                        x <= w,
                        row@ =~= row_of(
                            self.permutations@[i as int]@,
                            y as int,
                            self.width as int,
                        ).subrange(0, x as int),
                    decreases w - x,
                {
                    proof {
                        assert((y as int) * (w as int) + (x as int) < TILE_CAP as int) by (nonlinear_arith)
                            requires
                                0 <= x < w as int,
                                0 <= y < h as int,
                                (w as int) * (h as int) <= TILE_CAP,
                                1 <= w as int,
                        ;
                    }
                    row.push(self.permutations[i].get(x, y, w));
                    proof {
                        assert(row@ =~= row_of(
                            self.permutations@[i as int]@,
                            y as int,
                            self.width as int,
                        ).subrange(0, x as int + 1));
                    }
                    x = x + 1;
                }
                proof {
                    assert(row@ =~= row_of(
                        self.permutations@[i as int]@,
                        y as int,
                        self.width as int,
                    ));
                }
                entry.push(row);
                y = y + 1;
            }
            proof {
                let dv = entry.deep_view();
                let target = tile_entry(
                    self.permutations@[i as int]@,
                    self.width as int,
                    self.height as int,
                );
                assert forall|r: int| 0 <= r < dv.len() implies dv[r] == target[r] by {
                    assert(entry@[r].deep_view() =~= entry@[r]@);
                }
                assert(dv =~= target);
            }
            rv.push(entry);
            i = i + 1;
        }
        proof {
            let dv = rv.deep_view();
            let target = tile_rows(self.permutations@, self.width as int, self.height as int);
            assert forall|k: int| 0 <= k < dv.len() implies dv[k] == target[k] by {
                assert(dv[k] == rv@[k].deep_view());
            }
            assert(dv =~= target);
        }
        rv
    }

    /// The result set serialized as JSON bytes: an array of grids, each an
    /// array of `height` rows of `width` colour indices.
    pub fn export_json(&self) -> (bytes: Vec<u8>)
        requires
            1 <= self.width <= 8,
            1 <= self.height <= 8,
            self.width * self.height <= TILE_CAP,
            seen_wf(self.permutations@),
        ensures
            bytes@ == crate::export::json_grid_bytes(
                tile_rows(self.permutations@, self.width as int, self.height as int),
            ),
    {
        let rows = self.export_rows();
        crate::export::grid_rows_to_json(&rows)
    }
}

/// Row `y` of a packed colouring: the `w` cells stored from `y * w`.
pub open spec fn row_of(s: Seq<u8>, y: int, w: int) -> Seq<u8> {
    Seq::new(clip(w) as nat, |x: int| s[y * w + x])
}

/// The nested export structure of one colouring: `h` rows of `w` cells.
pub open spec fn tile_entry(s: Seq<u8>, w: int, h: int) -> Seq<Seq<u8>> {
    Seq::new(clip(h) as nat, |y: int| row_of(s, y, w))
}

/// The nested export structure of the whole result set.
pub open spec fn tile_rows(v: Seq<Permutation>, w: int, h: int) -> Seq<Seq<Seq<u8>>> {
    Seq::new(v.len(), |i: int| tile_entry(v[i]@, w, h))
}

} // verus!

verus! {

impl Tile {
    /// The internal-consistency condition of the Burnside division: if the
    /// total fixed-point count is not an exact multiple of the orbit
    /// count, a formula is wrong, and both operands are surfaced.
    pub fn internal_consistency_error(&self) -> (r: Option<(u64, u64)>)
        requires
            tile_config_ok(*self),
        ensures
            r is Some <==> tile_counts(*self).1 % tile_counts(*self).0 != 0,
            r matches Some(pair) ==> (pair.0 as int, pair.1 as int) == tile_counts(*self),
    {
        let w = self.width;
        let h = self.height;
        let c = self.n_colours;
        let fam = self.allowed_xforms;
        let square = w == h;
        proof {
            lemma_class_term_nonneg(GroupElementClass::NoXform, fam, w as int, h as int, c as int);
            lemma_class_term_nonneg(GroupElementClass::Rot90, fam, w as int, h as int, c as int);
            lemma_class_term_nonneg(GroupElementClass::Rot180, fam, w as int, h as int, c as int);
            lemma_class_term_nonneg(GroupElementClass::HFlip, fam, w as int, h as int, c as int);
            lemma_class_term_nonneg(GroupElementClass::VFlip, fam, w as int, h as int, c as int);
            lemma_class_term_nonneg(GroupElementClass::DFlip, fam, w as int, h as int, c as int);
        }
        let mut orbits: u64 = 0;
        let mut fixed: u64 = 0;
        if GroupElementClass::NoXform.applicable(fam, square) {
            orbits = orbits + GroupElementClass::NoXform.orbits();
            fixed = fixed + GroupElementClass::NoXform.total_fixed(w, h, c);
        }
        if GroupElementClass::Rot90.applicable(fam, square) {
            orbits = orbits + GroupElementClass::Rot90.orbits();
            fixed = fixed + GroupElementClass::Rot90.total_fixed(w, h, c);
        }
        if GroupElementClass::Rot180.applicable(fam, square) {
            orbits = orbits + GroupElementClass::Rot180.orbits();
            fixed = fixed + GroupElementClass::Rot180.total_fixed(w, h, c);
        }
        if GroupElementClass::HFlip.applicable(fam, square) {
            orbits = orbits + GroupElementClass::HFlip.orbits();
            fixed = fixed + GroupElementClass::HFlip.total_fixed(w, h, c);
        }
        if GroupElementClass::VFlip.applicable(fam, square) {
            orbits = orbits + GroupElementClass::VFlip.orbits();
            fixed = fixed + GroupElementClass::VFlip.total_fixed(w, h, c);
        }
        if GroupElementClass::DFlip.applicable(fam, square) {
            orbits = orbits + GroupElementClass::DFlip.orbits();
            fixed = fixed + GroupElementClass::DFlip.total_fixed(w, h, c);
        }
        if fixed % orbits != 0 {
            Some((orbits, fixed))
        } else {
            None
        }
    }

    /// The enumerated set's size against the Burnside count: agreement
    /// yields nothing, a mismatch yields both counts.
    pub fn size_mismatch(&self) -> (r: Option<(u64, u64)>)
        ensures
            r is Some <==> self.perm_count != self.permutations@.len(),
            r matches Some(pair) ==> pair.0 == self.perm_count && pair.1
                == self.permutations@.len(),
    {
        let actual = self.permutations.len() as u64;
        if self.perm_count != actual {
            Some((self.perm_count, actual))
        } else {
            None
        }
    }
}

} // verus!
