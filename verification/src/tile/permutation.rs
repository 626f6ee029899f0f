//! The packed tile colouring, its geometric remaps (rotations, axis flips
//! and diagonal flips), and canonicalization under the chosen symmetry
//! family.
//!
//! A colouring is a fixed-capacity array of colour indices in row-major
//! order, each below 8 (three bits per slot). The capacity is twenty-five
//! cells; a tile only reaches enumeration when its distinct count is small,
//! which keeps it within this bound. Each symmetry of the tile is encoded
//! by three switches: whether the axes swap, and whether each looked-up
//! coordinate is mirrored. The eight combinations are exactly the dihedral
//! symmetries of the square; without the swap they are the symmetries that
//! survive on a proper rectangle.

use vstd::prelude::*;

use crate::lex::le_from;
use crate::lex::lemma_le_antisym;
use crate::lex::lemma_le_refl;
use crate::lex::lemma_le_total;
use crate::lex::lemma_le_trans;
use crate::tile::transforms::AllowedTransformFamiles;

verus! {

use vstd::arithmetic::div_mod::lemma_fundamental_div_mod;
use vstd::arithmetic::div_mod::lemma_fundamental_div_mod_converse_mod;
use vstd::arithmetic::div_mod::lemma_fundamental_div_mod_converse_div;

/// Capacity of the packed colouring, in cells.
pub const TILE_CAP: usize = 25;

/// A tile colouring: one colour index per cell, row-major.
#[derive(Debug, PartialEq, Eq, Hash)]
pub struct Permutation {
    pub values: Vec<u8>,
}

impl View for Permutation {
    type V = Seq<u8>;

    open spec fn view(&self) -> Seq<u8> {
        self.values@
    }
}

/// A colouring shaped for a `w` by `h` tile: full capacity, three-bit
/// colour values, and nothing stored past cell `w * h`.
pub open spec fn wf_grid(s: Seq<u8>, w: int, h: int) -> bool {
    &&& s.len() == TILE_CAP
    &&& forall|j: int| 0 <= j < s.len() ==> s[j] < 8
    &&& forall|j: int| w * h <= j < s.len() ==> s[j] == 0
}

/// Supported tile dimensions for enumeration.
pub open spec fn dims_ok(w: int, h: int) -> bool {
    &&& 1 <= w
    &&& 1 <= h
    &&& w * h <= TILE_CAP
}

/// One symmetry of the tile, by how a target cell looks up its source:
/// `swap` exchanges the coordinates first (legal only on squares), then
/// each `neg` switch mirrors its coordinate.
pub ghost struct GridElem {
    pub swap: bool,
    pub negx: bool,
    pub negy: bool,
}

pub open spec fn grid_identity() -> GridElem {
    GridElem { swap: false, negx: false, negy: false }
}

pub open spec fn elem_ok_grid(e: GridElem, w: int, h: int) -> bool {
    e.swap ==> w == h
}

/// The source column a target cell `(x, y)` reads under `e`.
pub open spec fn map_x(e: GridElem, x: int, y: int, w: int, h: int) -> int {
    let a = if e.swap {
        y
    } else {
        x
    };
    if e.negx {
        w - 1 - a
    } else {
        a
    }
}

/// The source row a target cell `(x, y)` reads under `e`.
pub open spec fn map_y(e: GridElem, x: int, y: int, w: int, h: int) -> int {
    let b = if e.swap {
        x
    } else {
        y
    };
    if e.negy {
        h - 1 - b
    } else {
        b
    }
}

/// The image of `s` under the symmetry `e` on a `w` by `h` tile.
pub open spec fn gapply(e: GridElem, s: Seq<u8>, w: int, h: int) -> Seq<u8> {
    Seq::new(
        TILE_CAP as nat,
        |p: int|
            if 0 <= p < w * h {
                s[map_y(e, p % w, p / w, w, h) * w + map_x(e, p % w, p / w, w, h)]
            } else {
                0u8
            },
    )
}

/// The rotation subgroup: a symmetry is a rotation exactly when its
/// mirror count matches its swap.
pub open spec fn is_rotation(e: GridElem) -> bool {
    (e.negx != e.negy) == e.swap
}

/// Membership of a symmetry in the group selected by the dimensions and
/// family.
pub open spec fn in_grid_group(e: GridElem, w: int, h: int, fam: AllowedTransformFamiles) -> bool {
    elem_ok_grid(e, w, h) && match fam {
        AllowedTransformFamiles::NoTransforms => e == grid_identity(),
        AllowedTransformFamiles::Rotate => is_rotation(e),
        AllowedTransformFamiles::RotateAndFlip => true,
    }
}

/// The symmetry that acts as `e1` followed by `e2`.
pub open spec fn gcompose(e2: GridElem, e1: GridElem) -> GridElem {
    GridElem {
        swap: e1.swap != e2.swap,
        negx: e1.negx != (if e1.swap {
            e2.negy
        } else {
            e2.negx
        }),
        negy: e1.negy != (if e1.swap {
            e2.negx
        } else {
            e2.negy
        }),
    }
}

/// The symmetry that undoes `e`.
pub open spec fn ginverse(e: GridElem) -> GridElem {
    if e.swap {
        GridElem { swap: true, negx: e.negy, negy: e.negx }
    } else {
        e
    }
}

/// A cell index below `w * h` splits into a column below `w` and a row
/// below `h`.
proof fn lemma_cell_split(p: int, w: int, h: int)
    requires
        1 <= w,
        1 <= h,
        0 <= p < w * h,
    ensures
        0 <= p % w < w,
        0 <= p / w < h,
        p == (p / w) * w + p % w,
{
    lemma_fundamental_div_mod(p, w);
    assert(p == w * (p / w) + p % w);
    assert(w * (p / w) == (p / w) * w) by (nonlinear_arith);
    assert(p / w < h) by (nonlinear_arith)
        requires
            p == w * (p / w) + p % w,
            0 <= p % w < w,
            p < w * h,
            1 <= w,
    ;
    assert(p / w >= 0) by (nonlinear_arith)
        requires
            p == w * (p / w) + p % w,
            0 <= p % w < w,
            p >= 0,
            1 <= w,
    ;
}

/// A (column, row) pair recombines to a cell index below `w * h`, whose
/// split returns the pair.
proof fn lemma_cell_join(x: int, y: int, w: int, h: int)
    requires
        1 <= w,
        1 <= h,
        0 <= x < w,
        0 <= y < h,
    ensures
        0 <= y * w + x < w * h,
        (y * w + x) % w == x,
        (y * w + x) / w == y,
{
    assert(0 <= y * w + x < w * h) by (nonlinear_arith)
        requires
            0 <= x < w,
            0 <= y < h,
            1 <= w,
    ;
    lemma_fundamental_div_mod_converse_mod(y * w + x, w, y, x);
    lemma_fundamental_div_mod_converse_div(y * w + x, w, y, x);
}

/// The source cell of an in-range target cell is in range.
proof fn lemma_map_in_range(e: GridElem, x: int, y: int, w: int, h: int)
    requires
        1 <= w,
        1 <= h,
        elem_ok_grid(e, w, h),
        0 <= x < w,
        0 <= y < h,
    ensures
        0 <= map_x(e, x, y, w, h) < w,
        0 <= map_y(e, x, y, w, h) < h,
{
}

/// Applying `e1` and then `e2` is the same as applying their composition.
pub proof fn lemma_gapply_compose(e2: GridElem, e1: GridElem, s: Seq<u8>, w: int, h: int)
    requires
        dims_ok(w, h),
        s.len() == TILE_CAP,
        elem_ok_grid(e1, w, h),
        elem_ok_grid(e2, w, h),
    ensures
        elem_ok_grid(gcompose(e2, e1), w, h),
        gapply(e2, gapply(e1, s, w, h), w, h) == gapply(gcompose(e2, e1), s, w, h),
{
    let mid = gapply(e1, s, w, h);
    let lhs = gapply(e2, mid, w, h);
    let ec = gcompose(e2, e1);
    let rhs = gapply(ec, s, w, h);
    assert forall|p: int| 0 <= p < TILE_CAP implies lhs[p] == rhs[p] by {
        if p < w * h {
            lemma_cell_split(p, w, h);
            let x = p % w;
            let y = p / w;
            lemma_map_in_range(e2, x, y, w, h);
            let mx = map_x(e2, x, y, w, h);
            let my = map_y(e2, x, y, w, h);
            let q = my * w + mx;
            lemma_cell_join(mx, my, w, h);
            assert(lhs[p] == mid[q]);
            lemma_map_in_range(e1, mx, my, w, h);
            lemma_cell_join(map_x(e1, mx, my, w, h), map_y(e1, mx, my, w, h), w, h);
            assert(mid[q] == s[map_y(e1, mx, my, w, h) * w + map_x(e1, mx, my, w, h)]);
            lemma_map_in_range(ec, x, y, w, h);
            assert(map_x(e1, mx, my, w, h) == map_x(ec, x, y, w, h));
            assert(map_y(e1, mx, my, w, h) == map_y(ec, x, y, w, h));
        }
    }
    assert(lhs =~= rhs);
}

/// The identity symmetry leaves a well-formed colouring unchanged.
pub proof fn lemma_gapply_identity(s: Seq<u8>, w: int, h: int)
    requires
        dims_ok(w, h),
        wf_grid(s, w, h),
    ensures
        gapply(grid_identity(), s, w, h) == s,
{
    let r = gapply(grid_identity(), s, w, h);
    assert forall|p: int| 0 <= p < TILE_CAP implies r[p] == s[p] by {
        if p < w * h {
            lemma_cell_split(p, w, h);
        }
    }
    assert(r =~= s);
}

/// Symmetries preserve well-formedness.
pub proof fn lemma_gapply_wf(e: GridElem, s: Seq<u8>, w: int, h: int)
    requires
        dims_ok(w, h),
        wf_grid(s, w, h),
        elem_ok_grid(e, w, h),
    ensures
        wf_grid(gapply(e, s, w, h), w, h),
{
    let r = gapply(e, s, w, h);
    assert forall|p: int| 0 <= p < r.len() implies r[p] < 8 by {
        if p < w * h {
            lemma_cell_split(p, w, h);
            lemma_map_in_range(e, p % w, p / w, w, h);
            lemma_cell_join(map_x(e, p % w, p / w, w, h), map_y(e, p % w, p / w, w, h), w, h);
        }
    }
}

/// Composing a symmetry with its inverse yields the identity, and the
/// group selected by any family is closed under composition and inverse.
pub proof fn lemma_grid_group_closed(
    e2: GridElem,
    e1: GridElem,
    w: int,
    h: int,
    fam: AllowedTransformFamiles,
)
    requires
        in_grid_group(e1, w, h, fam),
        in_grid_group(e2, w, h, fam),
    ensures
        in_grid_group(gcompose(e2, e1), w, h, fam),
        in_grid_group(ginverse(e1), w, h, fam),
        gcompose(ginverse(e1), e1) == grid_identity(),
{
}

impl Permutation {
    /// The all-zero colouring.
    pub fn new() -> (r: Self)
        ensures
            r@.len() == TILE_CAP,
            forall|j: int| 0 <= j < r@.len() ==> r@[j] == 0,
    {
        let mut values: Vec<u8> = Vec::new();
        let mut i: usize = 0;
        while i < TILE_CAP
            invariant
                i <= TILE_CAP,
                values@.len() == i,
                forall|j: int| 0 <= j < i ==> values@[j] == 0,
            decreases TILE_CAP - i,
        {
            values.push(0);
            i = i + 1;
        }
        Permutation { values }
    }

    /// An identical copy.
    pub fn duplicate(&self) -> (r: Self)
        ensures
            r@ == self@,
    {
        let mut values: Vec<u8> = Vec::new();
        let mut i: usize = 0;
        while i < self.values.len()
            invariant
                i <= self.values.len(),
                values@ =~= self.values@.subrange(0, i as int),
            decreases self.values.len() - i,
        {
            values.push(self.values[i]);
            i = i + 1;
        }
        proof {
            assert(values@ =~= self.values@);
        }
        Permutation { values }
    }

    /// The colour at cell `(x, y)` of a tile `w` cells wide.
    pub fn get(&self, x: usize, y: usize, w: usize) -> (r: u8)
        requires
            self@.len() == TILE_CAP,
            y * w + x < TILE_CAP,
        ensures
            r == self@[y * w + x],
    {
        let offset = y * w + x;
        self.values[offset]
    }

    /// Store colour `value` at cell `(x, y)` of a tile `w` cells wide.
    pub fn set(&mut self, x: usize, y: usize, w: usize, value: u8)
        requires
            old(self)@.len() == TILE_CAP,
            y * w + x < TILE_CAP,
            value < 8,
        ensures
            final(self)@ == old(self)@.update(y * w + x, value),
    {
        let offset = y * w + x;
        self.values.set(offset, value);
    }

    /// The image of `self` under the symmetry given by the three
    /// switches: every target cell takes the colour of its source cell.
    fn apply_map(&self, swap: bool, negx: bool, negy: bool, w: usize, h: usize) -> (r: Self)
        requires
            self@.len() == TILE_CAP,
            forall|j: int| 0 <= j < self@.len() ==> self@[j] < 8,
            dims_ok(w as int, h as int),
            swap ==> w == h,
        ensures
            r@ == gapply(GridElem { swap, negx, negy }, self@, w as int, h as int),
    {
        let ghost e = (GridElem { swap, negx, negy });
        let mut new = Self::new();
        let area = w * h;
        let mut p: usize = 0;
        while p < area
            invariant
                self@.len() == TILE_CAP,
                forall|j: int| 0 <= j < self@.len() ==> self@[j] < 8,
                dims_ok(w as int, h as int),
                swap ==> w == h,
                e == (GridElem { swap, negx, negy }),
                area == w * h,
                new@.len() == TILE_CAP,
                p <= area,
                forall|q: int|
                    0 <= q < p ==> new@[q] == self@[map_y(e, q % (w as int), q / (w as int), w as int, h as int) * (
                    w as int) + map_x(e, q % (w as int), q / (w as int), w as int, h as int)],
                forall|q: int| p <= q < TILE_CAP ==> new@[q] == 0,
            decreases area - p,
        {
            let x = p % w;
            let y = p / w;
            proof {
                lemma_cell_split(p as int, w as int, h as int);
                lemma_map_in_range(e, x as int, y as int, w as int, h as int);
                lemma_cell_join(
                    map_x(e, x as int, y as int, w as int, h as int),
                    map_y(e, x as int, y as int, w as int, h as int),
                    w as int,
                    h as int,
                );
            }
            let a = if swap {
                y
            } else {
                x
            };
            let b = if swap {
                x
            } else {
                y
            };
            let sx = if negx {
                w - 1 - a
            } else {
                a
            };
            let sy = if negy {
                h - 1 - b
            } else {
                b
            };
            let v = self.get(sx, sy, w);
            new.set(x, y, w, v);
            proof {
                assert(y * w + x == p) by {
                    lemma_cell_split(p as int, w as int, h as int);
                }
            }
            p = p + 1;
        }
        proof {
            assert(new@ =~= gapply(e, self@, w as int, h as int)) by {
                assert forall|q: int| 0 <= q < TILE_CAP implies new@[q] == gapply(
                    e,
                    self@,
                    w as int,
                    h as int,
                )[q] by {
                    if q < w * h {
                        lemma_cell_split(q, w as int, h as int);
                    }
                }
            }
        }
        new
    }

    /// Quarter turn: the top row becomes the right column.
    pub fn rotate_90(&self, w: usize, h: usize) -> (r: Self)
        requires
            self@.len() == TILE_CAP,
            forall|j: int| 0 <= j < self@.len() ==> self@[j] < 8,
            dims_ok(w as int, h as int),
            w == h,
        ensures
            r@ == gapply(
                GridElem { swap: true, negx: true, negy: false },
                self@,
                w as int,
                h as int,
            ),
    {
        self.apply_map(true, true, false, w, h)
    }

    /// Half turn.
    pub fn rotate_180(&self, w: usize, h: usize) -> (r: Self)
        requires
            self@.len() == TILE_CAP,
            forall|j: int| 0 <= j < self@.len() ==> self@[j] < 8,
            dims_ok(w as int, h as int),
        ensures
            r@ == gapply(
                GridElem { swap: false, negx: true, negy: true },
                self@,
                w as int,
                h as int,
            ),
    {
        self.apply_map(false, true, true, w, h)
    }

    /// Three-quarter turn.
    pub fn rotate_270(&self, w: usize, h: usize) -> (r: Self)
        requires
            self@.len() == TILE_CAP,
            forall|j: int| 0 <= j < self@.len() ==> self@[j] < 8,
            dims_ok(w as int, h as int),
            w == h,
        ensures
            r@ == gapply(
                GridElem { swap: true, negx: false, negy: true },
                self@,
                w as int,
                h as int,
            ),
    {
        self.apply_map(true, false, true, w, h)
    }

    /// Mirror across the vertical axis.
    pub fn hflip(&self, w: usize, h: usize) -> (r: Self)
        requires
            self@.len() == TILE_CAP,
            forall|j: int| 0 <= j < self@.len() ==> self@[j] < 8,
            dims_ok(w as int, h as int),
        ensures
            r@ == gapply(
                GridElem { swap: false, negx: true, negy: false },
                self@,
                w as int,
                h as int,
            ),
    {
        self.apply_map(false, true, false, w, h)
    }

    /// Mirror across the horizontal axis.
    pub fn vflip(&self, w: usize, h: usize) -> (r: Self)
        requires
            self@.len() == TILE_CAP,
            forall|j: int| 0 <= j < self@.len() ==> self@[j] < 8,
            dims_ok(w as int, h as int),
        ensures
            r@ == gapply(
                GridElem { swap: false, negx: false, negy: true },
                self@,
                w as int,
                h as int,
            ),
    {
        self.apply_map(false, false, true, w, h)
    }

    /// Mirror across the main diagonal.
    pub fn dflip1(&self, w: usize, h: usize) -> (r: Self)
        requires
            self@.len() == TILE_CAP,
            forall|j: int| 0 <= j < self@.len() ==> self@[j] < 8,
            dims_ok(w as int, h as int),
            w == h,
        ensures
            r@ == gapply(
                GridElem { swap: true, negx: false, negy: false },
                self@,
                w as int,
                h as int,
            ),
    {
        self.apply_map(true, false, false, w, h)
    }

    /// Mirror across the anti-diagonal.
    pub fn dflip2(&self, w: usize, h: usize) -> (r: Self)
        requires
            self@.len() == TILE_CAP,
            forall|j: int| 0 <= j < self@.len() ==> self@[j] < 8,
            dims_ok(w as int, h as int),
            w == h,
        ensures
            r@ == gapply(
                GridElem { swap: true, negx: true, negy: true },
                self@,
                w as int,
                h as int,
            ),
    {
        self.apply_map(true, true, true, w, h)
    }

    /// True when `self` is at most `other` in the order of `crate::lex`.
    pub fn le(&self, other: &Self) -> (r: bool)
        requires
            self@.len() == other@.len(),
        ensures
            r == le_from(self@, other@, 0),
    {
        let n = self.values.len();
        let mut i: usize = 0;
        while i < n
            invariant
                n == self@.len(),
                self@.len() == other@.len(),
                i <= n,
                le_from(self@, other@, 0) == le_from(self@, other@, i as int),
                forall|j: int| 0 <= j < i ==> self@[j] == other@[j],
            decreases n - i,
        {
            if self.values[i] < other.values[i] {
                return true;
            }
            if self.values[i] > other.values[i] {
                return false;
            }
            i = i + 1;
        }
        true
    }
}

} // verus!

verus! {

/// `r` is the canonical form of `s`: it lies in the orbit of `s` under the
/// selected group, and it is lexicographically least among all images of
/// `s` under that group.
pub open spec fn is_grid_canonical(
    r: Seq<u8>,
    s: Seq<u8>,
    w: int,
    h: int,
    fam: AllowedTransformFamiles,
) -> bool {
    &&& exists|e: GridElem| #[trigger] in_grid_group(e, w, h, fam) && r == gapply(e, s, w, h)
    &&& forall|e: GridElem|
        #[trigger] in_grid_group(e, w, h, fam) ==> le_from(r, gapply(e, s, w, h), 0)
}

/// Lower `canonical` to `cand` if `cand` is smaller, extending the set of
/// symmetries whose images are known to be at or above `canonical`.
fn consider(
    canonical: &mut Permutation,
    cand: Permutation,
    Ghost(s): Ghost<Seq<u8>>,
    Ghost(w): Ghost<int>,
    Ghost(h): Ghost<int>,
    Ghost(fam): Ghost<AllowedTransformFamiles>,
    Ghost(done): Ghost<Set<GridElem>>,
    Ghost(enew): Ghost<GridElem>,
)
    requires
        dims_ok(w, h),
        old(canonical)@.len() == TILE_CAP,
        cand@.len() == TILE_CAP,
        cand@ == gapply(enew, s, w, h),
        in_grid_group(enew, w, h, fam),
        exists|e: GridElem|
            #[trigger] in_grid_group(e, w, h, fam) && old(canonical)@ == gapply(e, s, w, h),
        forall|e: GridElem|
            #[trigger] done.contains(e) ==> le_from(old(canonical)@, gapply(e, s, w, h), 0),
    ensures
        final(canonical)@.len() == TILE_CAP,
        exists|e: GridElem|
            #[trigger] in_grid_group(e, w, h, fam) && final(canonical)@ == gapply(e, s, w, h),
        forall|e: GridElem|
            #[trigger] done.insert(enew).contains(e) ==> le_from(
                final(canonical)@,
                gapply(e, s, w, h),
                0,
            ),
{
    let replace = cand.le(canonical);
    if replace {
        proof {
            assert forall|e: GridElem| #[trigger] done.insert(enew).contains(e) implies le_from(
                cand@,
                gapply(e, s, w, h),
                0,
            ) by {
                if e == enew {
                    lemma_le_refl(cand@, 0);
                } else {
                    assert(done.contains(e));
                    lemma_le_trans(cand@, canonical@, gapply(e, s, w, h), 0);
                }
            }
        }
        *canonical = cand;
    } else {
        proof {
            lemma_le_total(cand@, canonical@, 0);
            assert forall|e: GridElem| #[trigger] done.insert(enew).contains(e) implies le_from(
                canonical@,
                gapply(e, s, w, h),
                0,
            ) by {
                if e == enew {
                } else {
                    assert(done.contains(e));
                }
            }
        }
    }
}

/// The symmetry family of a `w` by `h` tile, able to map any colouring to
/// its orbit's canonical representative.
#[derive(Clone, Copy, Debug, PartialEq, Eq, Structural)]
pub struct Transforms {
    pub w: u64,
    pub h: u64,
    pub allowed_families: AllowedTransformFamiles,
}

impl Transforms {
    pub fn new(w: u64, h: u64, allowed_families: AllowedTransformFamiles) -> (r: Self)
        ensures
            r.w == w,
            r.h == h,
            r.allowed_families == allowed_families,
    {
        Transforms { w, h, allowed_families }
    }

    /// The least image of `perm` under every symmetry of the family.
    pub fn canonicalize(self, perm: &Permutation) -> (r: Permutation)
        requires
            dims_ok(self.w as int, self.h as int),
            wf_grid(perm@, self.w as int, self.h as int),
        ensures
            wf_grid(r@, self.w as int, self.h as int),
            is_grid_canonical(r@, perm@, self.w as int, self.h as int, self.allowed_families),
    {
        let square = self.w == self.h;
        proof {
            assert(self.w as int <= 25 && self.h as int <= 25) by (nonlinear_arith)
                requires
                    1 <= self.w as int,
                    1 <= self.h as int,
                    (self.w as int) * (self.h as int) <= 25,
            ;
        }
        let w = self.w as usize;
        let h = self.h as usize;
        let ghost wi = self.w as int;
        let ghost hi = self.h as int;
        let ghost fam = self.allowed_families;
        let ghost s = perm@;
        let ghost id = grid_identity();
        let mut canonical = perm.duplicate();
        let ghost mut done = Set::<GridElem>::empty().insert(id);
        proof {
            lemma_gapply_identity(s, wi, hi);
            assert(in_grid_group(id, wi, hi, fam));
            assert forall|e: GridElem| #[trigger] done.contains(e) implies le_from(
                canonical@,
                gapply(e, s, wi, hi),
                0,
            ) by {
                lemma_le_refl(canonical@, 0);
            }
        }
        if matches!(self.allowed_families, AllowedTransformFamiles::Rotate
            | AllowedTransformFamiles::RotateAndFlip) {
            if square {
                let ghost e90 = (GridElem { swap: true, negx: true, negy: false });
                consider(
                    &mut canonical,
                    perm.rotate_90(w, h),
                    Ghost(s),
                    Ghost(wi),
                    Ghost(hi),
                    Ghost(fam),
                    Ghost(done),
                    Ghost(e90),
                );
                proof {
                    done = done.insert(e90);
                }
                let ghost e270 = (GridElem { swap: true, negx: false, negy: true });
                consider(
                    &mut canonical,
                    perm.rotate_270(w, h),
                    Ghost(s),
                    Ghost(wi),
                    Ghost(hi),
                    Ghost(fam),
                    Ghost(done),
                    Ghost(e270),
                );
                proof {
                    done = done.insert(e270);
                }
            }
            let ghost e180 = (GridElem { swap: false, negx: true, negy: true });
            consider(
                &mut canonical,
                perm.rotate_180(w, h),
                Ghost(s),
                Ghost(wi),
                Ghost(hi),
                Ghost(fam),
                Ghost(done),
                Ghost(e180),
            );
            proof {
                done = done.insert(e180);
            }
        }
        if matches!(self.allowed_families, AllowedTransformFamiles::RotateAndFlip) {
            if square {
                let ghost ed1 = (GridElem { swap: true, negx: false, negy: false });
                consider(
                    &mut canonical,
                    perm.dflip1(w, h),
                    Ghost(s),
                    Ghost(wi),
                    Ghost(hi),
                    Ghost(fam),
                    Ghost(done),
                    Ghost(ed1),
                );
                proof {
                    done = done.insert(ed1);
                }
                let ghost ed2 = (GridElem { swap: true, negx: true, negy: true });
                consider(
                    &mut canonical,
                    perm.dflip2(w, h),
                    Ghost(s),
                    Ghost(wi),
                    Ghost(hi),
                    Ghost(fam),
                    Ghost(done),
                    Ghost(ed2),
                );
                proof {
                    done = done.insert(ed2);
                }
            }
            let ghost eh = (GridElem { swap: false, negx: true, negy: false });
            consider(
                &mut canonical,
                perm.hflip(w, h),
                Ghost(s),
                Ghost(wi),
                Ghost(hi),
                Ghost(fam),
                Ghost(done),
                Ghost(eh),
            );
            proof {
                done = done.insert(eh);
            }
            let ghost ev = (GridElem { swap: false, negx: false, negy: true });
            consider(
                &mut canonical,
                perm.vflip(w, h),
                Ghost(s),
                Ghost(wi),
                Ghost(hi),
                Ghost(fam),
                Ghost(done),
                Ghost(ev),
            );
            proof {
                done = done.insert(ev);
            }
        }
        proof {
            let g0 = choose|e: GridElem|
                #[trigger] in_grid_group(e, wi, hi, fam) && canonical@ == gapply(e, s, wi, hi);
            lemma_gapply_wf(g0, s, wi, hi);
            assert forall|e: GridElem| #[trigger] in_grid_group(e, wi, hi, fam) implies le_from(
                canonical@,
                gapply(e, s, wi, hi),
                0,
            ) by {
                assert(e == (GridElem { swap: e.swap, negx: e.negx, negy: e.negy }));
                assert(done.contains(e));
            }
        }
        canonical
    }
}

/// Two canonical forms of the same colouring are equal.
pub proof fn lemma_grid_canonical_unique(
    x: Seq<u8>,
    c1: Seq<u8>,
    c2: Seq<u8>,
    w: int,
    h: int,
    fam: AllowedTransformFamiles,
)
    requires
        dims_ok(w, h),
        wf_grid(x, w, h),
        is_grid_canonical(c1, x, w, h, fam),
        is_grid_canonical(c2, x, w, h, fam),
    ensures
        c1 == c2,
{
    let e1 = choose|e: GridElem| #[trigger] in_grid_group(e, w, h, fam) && c1 == gapply(e, x, w, h);
    let e2 = choose|e: GridElem| #[trigger] in_grid_group(e, w, h, fam) && c2 == gapply(e, x, w, h);
    assert(le_from(c1, c2, 0));
    assert(le_from(c2, c1, 0));
    lemma_gapply_wf(e1, x, w, h);
    lemma_gapply_wf(e2, x, w, h);
    crate::lex::lemma_lex_antisym(c1, c2);
}

/// The canonical form of a canonical form is itself: canonicalization is
/// idempotent.
pub proof fn lemma_grid_canonicalize_idempotent(
    x: Seq<u8>,
    c: Seq<u8>,
    c2: Seq<u8>,
    w: int,
    h: int,
    fam: AllowedTransformFamiles,
)
    requires
        dims_ok(w, h),
        wf_grid(x, w, h),
        is_grid_canonical(c, x, w, h, fam),
        is_grid_canonical(c2, c, w, h, fam),
    ensures
        c2 == c,
{
    let id = grid_identity();
    let g0 = choose|e: GridElem| #[trigger] in_grid_group(e, w, h, fam) && c == gapply(e, x, w, h);
    lemma_gapply_wf(g0, x, w, h);
    assert(in_grid_group(id, w, h, fam));
    lemma_gapply_identity(c, w, h);
    assert(le_from(c2, c, 0));
    let e1 = choose|e: GridElem| #[trigger] in_grid_group(e, w, h, fam) && c2 == gapply(e, c, w, h);
    lemma_gapply_compose(e1, g0, x, w, h);
    lemma_grid_group_closed(e1, g0, w, h, fam);
    assert(c2 == gapply(gcompose(e1, g0), x, w, h));
    assert(le_from(c, c2, 0));
    lemma_gapply_wf(e1, c, w, h);
    crate::lex::lemma_lex_antisym(c, c2);
}

/// Every member of an orbit has the same canonical form: for any group
/// element `g`, the canonical form of `g(x)` equals the canonical form of
/// `x`.
pub proof fn lemma_grid_canonicalize_orbit_invariant(
    x: Seq<u8>,
    g: GridElem,
    c1: Seq<u8>,
    c: Seq<u8>,
    w: int,
    h: int,
    fam: AllowedTransformFamiles,
)
    requires
        dims_ok(w, h),
        wf_grid(x, w, h),
        in_grid_group(g, w, h, fam),
        is_grid_canonical(c1, gapply(g, x, w, h), w, h, fam),
        is_grid_canonical(c, x, w, h, fam),
    ensures
        c1 == c,
{
    let gx = gapply(g, x, w, h);
    lemma_gapply_wf(g, x, w, h);
    let e1 = choose|e: GridElem| #[trigger] in_grid_group(e, w, h, fam) && c1 == gapply(e, gx, w, h);
    lemma_gapply_compose(e1, g, x, w, h);
    lemma_grid_group_closed(e1, g, w, h, fam);
    assert(c1 == gapply(gcompose(e1, g), x, w, h));
    assert(le_from(c, c1, 0));
    let e0 = choose|e: GridElem| #[trigger] in_grid_group(e, w, h, fam) && c == gapply(e, x, w, h);
    let gi = ginverse(g);
    lemma_grid_group_closed(g, g, w, h, fam);
    lemma_gapply_compose(gi, g, x, w, h);
    lemma_gapply_identity(x, w, h);
    assert(gapply(gi, gx, w, h) == x);
    lemma_gapply_compose(e0, gi, gx, w, h);
    lemma_grid_group_closed(e0, gi, w, h, fam);
    assert(c == gapply(gcompose(e0, gi), gx, w, h));
    assert(le_from(c1, c, 0));
    lemma_gapply_wf(e0, x, w, h);
    lemma_gapply_wf(e1, gx, w, h);
    crate::lex::lemma_lex_antisym(c1, c);
}

/// A canonical form is canonical for itself.
pub proof fn lemma_grid_canonical_fixed(
    x: Seq<u8>,
    c: Seq<u8>,
    w: int,
    h: int,
    fam: AllowedTransformFamiles,
)
    requires
        dims_ok(w, h),
        wf_grid(x, w, h),
        is_grid_canonical(c, x, w, h, fam),
    ensures
        is_grid_canonical(c, c, w, h, fam),
{
    let id = grid_identity();
    let g0 = choose|e: GridElem| #[trigger] in_grid_group(e, w, h, fam) && c == gapply(e, x, w, h);
    lemma_gapply_wf(g0, x, w, h);
    assert(in_grid_group(id, w, h, fam));
    lemma_gapply_identity(c, w, h);
    assert(in_grid_group(id, w, h, fam) && c == gapply(id, c, w, h));
    assert forall|e: GridElem| #[trigger] in_grid_group(e, w, h, fam) implies le_from(
        c,
        gapply(e, c, w, h),
        0,
    ) by {
        lemma_gapply_compose(e, g0, x, w, h);
        lemma_grid_group_closed(e, g0, w, h, fam);
        assert(gapply(e, c, w, h) == gapply(gcompose(e, g0), x, w, h));
    }
}

/// Round trip: an emitted canonical form, transformed by any group element
/// and re-canonicalized, is itself again.
pub proof fn lemma_grid_canonical_round_trip(
    x: Seq<u8>,
    c: Seq<u8>,
    g: GridElem,
    d: Seq<u8>,
    w: int,
    h: int,
    fam: AllowedTransformFamiles,
)
    requires
        dims_ok(w, h),
        wf_grid(x, w, h),
        is_grid_canonical(c, x, w, h, fam),
        in_grid_group(g, w, h, fam),
        is_grid_canonical(d, gapply(g, c, w, h), w, h, fam),
    ensures
        d == c,
{
    let g0 = choose|e: GridElem| #[trigger] in_grid_group(e, w, h, fam) && c == gapply(e, x, w, h);
    lemma_gapply_wf(g0, x, w, h);
    lemma_grid_canonical_fixed(x, c, w, h, fam);
    lemma_grid_canonicalize_orbit_invariant(c, g, d, c, w, h, fam);
}

} // verus!

verus! {

use crate::ring::permutation::colour_count;
use crate::ring::permutation::lemma_colour_count_agree;
use crate::ring::permutation::lemma_colour_count_mono;
use crate::ring::permutation::lemma_colour_count_nonneg;
use crate::ring::permutation::lemma_colour_count_upper;

/// The collection of canonical forms seen so far: strictly ascending in the
/// lexicographic order, hence duplicate-free, all at full capacity.
pub open spec fn seen_sorted(v: Seq<Permutation>) -> bool {
    forall|i: int, j: int|
        0 <= i < j < v.len() ==> le_from(#[trigger] v[i]@, #[trigger] v[j]@, 0) && v[i]@ != v[j]@
}

pub open spec fn seen_wf(v: Seq<Permutation>) -> bool {
    forall|i: int| 0 <= i < v.len() ==> (#[trigger] v[i]@).len() == TILE_CAP
}

pub open spec fn seen_contains(v: Seq<Permutation>, s: Seq<u8>) -> bool {
    exists|i: int| 0 <= i < v.len() && (#[trigger] v[i]@) == s
}

/// Indexing past the insertion point reaches the element one slot earlier.
proof fn lemma_insert_shifted(v: Seq<Permutation>, pos: int, p: Permutation, k: int)
    requires
        0 <= pos <= v.len(),
        pos < k <= v.len(),
    ensures
        v.insert(pos, p)[k] == v[k - 1],
{
    v.insert_ensures(pos, p);
    let i = k - 1;
    assert(v.insert(pos, p)[i + 1] == v[i]);
}

/// Insert `p` into the ascending collection, unless it is already present.
pub fn insert_sorted(seen: &mut Vec<Permutation>, p: Permutation)
    requires
        seen_sorted(old(seen)@),
        seen_wf(old(seen)@),
        p@.len() == TILE_CAP,
    ensures
        seen_sorted(final(seen)@),
        seen_wf(final(seen)@),
        forall|s: Seq<u8>|
            #[trigger] seen_contains(final(seen)@, s) <==> (seen_contains(old(seen)@, s) || s
                == p@),
        final(seen)@.len() >= old(seen)@.len(),
{
    let ghost v0 = seen@;
    let n = seen.len();
    // binary search for the first element that is not strictly below `p`
    let mut lo: usize = 0;
    let mut hi: usize = n;
    while lo < hi
        invariant
            seen@ == v0,
            v0 == old(seen)@,
            n == v0.len(),
            seen_sorted(v0),
            seen_wf(v0),
            p@.len() == TILE_CAP,
            lo <= hi <= n,
            forall|j: int| 0 <= j < lo ==> le_from(#[trigger] v0[j]@, p@, 0) && v0[j]@ != p@,
            forall|j: int| hi <= j < n ==> le_from(p@, #[trigger] v0[j]@, 0),
        decreases hi - lo,
    {
        let mid = lo + (hi - lo) / 2;
        let le_p_mid = p.le(&seen[mid]);
        if le_p_mid {
            proof {
                assert forall|j: int| mid <= j < n implies le_from(p@, #[trigger] v0[j]@, 0) by {
                    if j > mid as int {
                        lemma_le_trans(p@, v0[mid as int]@, v0[j]@, 0);
                    }
                }
            }
            hi = mid;
        } else {
            proof {
                lemma_le_total(v0[mid as int]@, p@, 0);
                assert forall|j: int| 0 <= j < mid + 1 implies le_from(#[trigger] v0[j]@, p@, 0)
                    && v0[j]@ != p@ by {
                    if j < mid as int {
                        lemma_le_trans(v0[j]@, v0[mid as int]@, p@, 0);
                    }
                    if v0[j]@ == p@ {
                        if j == mid as int {
                            lemma_le_refl(p@, 0);
                        }
                        assert(le_from(p@, v0[mid as int]@, 0));
                        assert(false);
                    }
                }
            }
            lo = mid + 1;
        }
    }
    let ghost ip = lo as int;
    if lo < n {
        let le_elem = seen[lo].le(&p);
        if le_elem {
            // equal: already present
            proof {
                lemma_le_antisym(v0[ip]@, p@, 0);
                assert(v0[ip]@ =~= p@);
                assert(seen_contains(seen@, p@)) by {
                    assert(seen@[ip]@ == p@);
                }
                assert forall|s: Seq<u8>|
                    seen_contains(seen@, s) <==> (seen_contains(v0, s) || s == p@) by {
                    assert(seen@ == v0);
                }
            }
            return ;
        }
        // strictly below seen[lo..]: insert here
        proof {
            if v0[ip]@ == p@ {
                lemma_le_refl(p@, 0);
                assert(false);
            }
        }
        seen.insert(lo, p);
        proof {
            let v1 = seen@;
            assert(v1 == v0.insert(ip, p));
            v0.insert_ensures(ip, p);
            assert forall|a: int, b: int| 0 <= a < b < v1.len() implies le_from(
                #[trigger] v1[a]@,
                #[trigger] v1[b]@,
                0,
            ) && v1[a]@ != v1[b]@ by {
                if b < ip {
                    assert(v1[a]@ == v0[a]@);
                    assert(v1[b]@ == v0[b]@);
                } else if a < ip && b == ip {
                    assert(v1[a]@ == v0[a]@);
                    assert(v1[b]@ == p@);
                } else if a < ip && b > ip {
                    assert(v1[a]@ == v0[a]@);
                    lemma_insert_shifted(v0, ip, p, b);
                    assert(v1[b] == v0[b - 1]);
                    lemma_le_trans(v0[a]@, p@, v0[b - 1]@, 0);
                    if v0[a]@ == v0[b - 1]@ {
                        assert(le_from(v0[b - 1]@, p@, 0));
                        assert(false);
                    }
                } else if a == ip && b > ip {
                    assert(v1[a]@ == p@);
                    lemma_insert_shifted(v0, ip, p, b);
                    assert(v1[b] == v0[b - 1]);
                    if p@ == v0[b - 1]@ {
                        lemma_le_refl(p@, 0);
                        assert(le_from(v0[b - 1]@, p@, 0));
                        assert(false);
                    }
                } else {
                    lemma_insert_shifted(v0, ip, p, a);
                    lemma_insert_shifted(v0, ip, p, b);
                    assert(v1[a] == v0[a - 1]);
                    assert(v1[b] == v0[b - 1]);
                }
            }
            assert forall|s: Seq<u8>|
                #[trigger] seen_contains(v1, s) <==> (seen_contains(v0, s) || s == p@) by {
                if seen_contains(v1, s) {
                    let idx = choose|ii: int| 0 <= ii < v1.len() && v1[ii]@ == s;
                    if idx == ip {
                    } else if idx < ip {
                        assert(v0[idx]@ == s);
                        assert(seen_contains(v0, s));
                    } else {
                        lemma_insert_shifted(v0, ip, p, idx);
                        assert(v1[idx] == v0[idx - 1]);
                        assert(v0[idx - 1]@ == s);
                        assert(seen_contains(v0, s));
                    }
                }
                if seen_contains(v0, s) {
                    let idx = choose|ii: int| 0 <= ii < v0.len() && v0[ii]@ == s;
                    if idx < ip {
                        assert(v1[idx]@ == s);
                        assert(seen_contains(v1, s));
                    } else {
                        assert(v1[idx + 1] == v0[idx]);
                        assert(v1[idx + 1]@ == s);
                        assert(seen_contains(v1, s));
                    }
                }
                if s == p@ {
                    assert(v1[ip]@ == s);
                    assert(seen_contains(v1, s));
                }
            }
        }
        return ;
    }
    seen.push(p);
    proof {
        let v1 = seen@;
        assert forall|a: int, b: int| 0 <= a < b < v1.len() implies le_from(
            #[trigger] v1[a]@,
            #[trigger] v1[b]@,
            0,
        ) && v1[a]@ != v1[b]@ by {
            if b == v1.len() - 1 {
                assert(v1[a]@ == v0[a]@);
                assert(v1[b]@ == p@);
            } else {
                assert(v1[a]@ == v0[a]@);
                assert(v1[b]@ == v0[b]@);
            }
        }
        assert forall|s: Seq<u8>|
            #[trigger] seen_contains(v1, s) <==> (seen_contains(v0, s) || s == p@) by {
            if seen_contains(v1, s) {
                let idx = choose|ii: int| 0 <= ii < v1.len() && v1[ii]@ == s;
                if idx < v0.len() {
                    assert(v0[idx]@ == s);
                }
            }
            if seen_contains(v0, s) {
                let idx = choose|ii: int| 0 <= ii < v0.len() && v0[ii]@ == s;
                assert(v1[idx]@ == s);
            }
            if s == p@ {
                assert(v1[v1.len() - 1]@ == s);
            }
        }
    }
}

/// A complete assignment reachable from the partial colouring `p` with
/// cells below `pos` (in row-major order) already fixed: every open cell
/// gets a colour below `c`, capacity past `w * h` stays clear, and no
/// colour is used more than `limit` times.
pub open spec fn valid_extension(
    a: Seq<u8>,
    p: Seq<u8>,
    pos: int,
    area: int,
    c: int,
    limit: int,
) -> bool {
    &&& a.len() == TILE_CAP
    &&& forall|j: int| 0 <= j < pos ==> a[j] == p[j]
    &&& forall|j: int| pos <= j < area ==> a[j] < c
    &&& forall|j: int| area <= j < TILE_CAP ==> a[j] == 0
    &&& forall|v: int| 0 <= v < c ==> colour_count(a, v, area) <= limit
}

/// Walk every completion of the partial colouring `permutation` from cell
/// `(x, y)` onward in row-major order, pruning as soon as a colour would
/// exceed `colour_limit`, and record the canonical form of each complete
/// assignment in `seen`.
///
/// On return `seen` holds exactly what it held before plus the canonical
/// form of every valid completion: nothing is lost, nothing else appears.
pub fn build_permutations(
    transforms: &Transforms,
    w: u64,
    h: u64,
    n_colours: u64,
    x: u64,
    y: u64,
    colour_counts: &mut Vec<u64>,
    colour_limit: u64,
    permutation: Permutation,
    seen: &mut Vec<Permutation>,
)
    requires
        transforms.w == w,
        transforms.h == h,
        dims_ok(w as int, h as int),
        1 <= n_colours <= 8,
        x <= w,
        y < h,
        permutation@.len() == TILE_CAP,
        forall|j: int| 0 <= j < y * w + x ==> permutation@[j] < n_colours,
        forall|j: int| y * w + x <= j < TILE_CAP ==> permutation@[j] == 0,
        old(colour_counts)@.len() == n_colours,
        forall|v: int|
            0 <= v < n_colours ==> old(colour_counts)@[v] == colour_count(
                permutation@,
                v,
                y * w + x,
            ),
        forall|v: int| 0 <= v < n_colours ==> old(colour_counts)@[v] <= colour_limit,
        seen_sorted(old(seen)@),
        seen_wf(old(seen)@),
    ensures
        final(colour_counts)@ == old(colour_counts)@,
        seen_sorted(final(seen)@),
        seen_wf(final(seen)@),
        forall|s: Seq<u8>|
            seen_contains(old(seen)@, s) ==> #[trigger] seen_contains(final(seen)@, s),
        forall|s: Seq<u8>|
            #[trigger] seen_contains(final(seen)@, s) ==> seen_contains(old(seen)@, s) || exists|
                a: Seq<u8>,
            |
                valid_extension(
                    a,
                    permutation@,
                    y * w + x,
                    (w as int) * (h as int),
                    n_colours as int,
                    colour_limit as int,
                ) && is_grid_canonical(s, a, w as int, h as int, transforms.allowed_families),
        forall|a: Seq<u8>, s: Seq<u8>|
            valid_extension(
                a,
                permutation@,
                y * w + x,
                (w as int) * (h as int),
                n_colours as int,
                colour_limit as int,
            ) && #[trigger] is_grid_canonical(s, a, w as int, h as int, transforms.allowed_families)
                ==> #[trigger] seen_contains(final(seen)@, s),
    decreases w * h - y * w - x,
{
    let ghost wi = w as int;
    let ghost hi = h as int;
    let ghost nc = n_colours as int;
    let ghost lim = colour_limit as int;
    let ghost fam = transforms.allowed_families;
    let ghost pos = y * w + x;
    proof {
        assert(pos <= wi * hi) by (nonlinear_arith)
            requires
                pos == y * w + x,
                x <= wi,
                y < hi,
                wi == w as int,
                hi == h as int,
                1 <= wi,
        ;
        assert(wi <= 25 && hi <= 25) by (nonlinear_arith)
            requires
                1 <= wi,
                1 <= hi,
                wi * hi <= 25,
        ;
    }
    let mut cx = x;
    let mut cy = y;
    if cx == w {
        cx = 0;
        cy = cy + 1;
        proof {
            assert((cy * w + cx) as int == pos) by (nonlinear_arith)
                requires
                    pos == (cy - 1) * w + w,
                    cx == 0,
                    cy >= 1,
            ;
        }
        if cy == h {
            proof {
                assert(pos == wi * hi) by (nonlinear_arith)
                    requires
                        pos == (hi - 1) * wi + wi,
                ;
            }
            let canonical = transforms.canonicalize(&permutation);
            proof {
                let ghost area = wi * hi;
                assert forall|v: int| 0 <= v < nc implies #[trigger] colour_count(
                    permutation@,
                    v,
                    area,
                ) <= lim by {
                    assert(old(colour_counts)@[v] == colour_count(permutation@, v, pos));
                }
                assert(valid_extension(permutation@, permutation@, pos, wi * hi, nc, lim));
            }
            insert_sorted(seen, canonical);
            proof {
                assert forall|a: Seq<u8>, s: Seq<u8>|
                    valid_extension(a, permutation@, pos, wi * hi, nc, lim)
                        && #[trigger] is_grid_canonical(s, a, wi, hi, fam)
                    implies #[trigger] seen_contains(seen@, s) by {
                    assert(a =~= permutation@);
                    lemma_grid_canonical_unique(permutation@, s, canonical@, wi, hi, fam);
                    assert(seen_contains(seen@, canonical@));
                }
            }
            return ;
        }
    }
    proof {
        assert(pos < wi * hi) by (nonlinear_arith)
            requires
                pos == cy * w + cx,
                cx < wi,
                cy < hi,
                wi == w as int,
                hi == h as int,
                1 <= wi,
                0 <= cx,
                0 <= cy,
        ;
    }
    let ghost p0 = permutation@;
    let ghost counts0 = colour_counts@;
    let ghost seen0 = seen@;
    let mut permutation = permutation;
    let mut colour: u64 = 0;
    while colour < n_colours
        invariant
            transforms.w == w,
            transforms.h == h,
            wi == w as int,
            hi == h as int,
            nc == n_colours as int,
            lim == colour_limit as int,
            fam == transforms.allowed_families,
            dims_ok(wi, hi),
            wi <= 25,
            hi <= 25,
            1 <= n_colours <= 8,
            cx < w,
            cy < h,
            pos == cy * w + cx,
            pos == y * w + x,
            pos < wi * hi,
            colour <= n_colours,
            permutation@.len() == TILE_CAP,
            p0.len() == TILE_CAP,
            forall|j: int| 0 <= j < pos ==> permutation@[j] == p0[j],
            forall|j: int| 0 <= j < pos ==> p0[j] < n_colours,
            forall|j: int| pos + 1 <= j < TILE_CAP ==> permutation@[j] == 0,
            forall|j: int| pos <= j < TILE_CAP ==> p0[j] == 0,
            colour_counts@ == counts0,
            counts0.len() == n_colours,
            forall|v: int| 0 <= v < nc ==> counts0[v] == colour_count(p0, v, pos),
            forall|v: int| 0 <= v < nc ==> counts0[v] <= colour_limit,
            seen_sorted(seen@),
            seen_wf(seen@),
            forall|s: Seq<u8>| seen_contains(seen0, s) ==> #[trigger] seen_contains(seen@, s),
            forall|s: Seq<u8>|
                #[trigger] seen_contains(seen@, s) ==> seen_contains(seen0, s) || exists|
                    a: Seq<u8>,
                |
                    valid_extension(a, p0, pos, wi * hi, nc, lim) && is_grid_canonical(
                        s,
                        a,
                        wi,
                        hi,
                        fam,
                    ),
            forall|a: Seq<u8>, s: Seq<u8>|
                valid_extension(a, p0, pos, wi * hi, nc, lim) && a[pos] < colour
                    && #[trigger] is_grid_canonical(s, a, wi, hi, fam) ==> #[trigger] seen_contains(
                    seen@,
                    s,
                ),
        decreases n_colours - colour,
    {
        proof {
            assert(cy * (w as int) + cx < TILE_CAP);
        }
        permutation.set(cx as usize, cy as usize, w as usize, colour as u8);
        let ghost p1 = permutation@;
        let cnt = colour_counts[colour as usize];
        proof {
            lemma_colour_count_nonneg(p0, colour as int, pos);
            lemma_colour_count_upper(p0, colour as int, pos);
        }
        colour_counts.set(colour as usize, cnt + 1);
        proof {
            lemma_colour_count_agree(p1, p0, colour as int, pos);
            assert(colour_count(p1, colour as int, pos + 1) == colour_count(p0, colour as int, pos)
                + 1);
            assert forall|v: int| 0 <= v < nc && v != colour as int implies colour_count(
                p1,
                v,
                pos + 1,
            ) == colour_count(p0, v, pos) by {
                lemma_colour_count_agree(p1, p0, v, pos);
            }
        }
        if colour_counts[colour as usize] <= colour_limit {
            let child = permutation.duplicate();
            let ghost seen_pre = seen@;
            proof {
                assert forall|j: int| 0 <= j < pos + 1 implies p1[j] < n_colours by {
                    if j < pos {
                        assert(p1[j] == p0[j]);
                    }
                }
                assert((cy * w + (cx + 1)) as int == pos + 1);
            }
            build_permutations(
                transforms,
                w,
                h,
                n_colours,
                cx + 1,
                cy,
                colour_counts,
                colour_limit,
                child,
                seen,
            );
            proof {
                // a valid extension with this colour at the current cell is
                // a valid extension of the child prefix, and conversely
                assert forall|a: Seq<u8>, s: Seq<u8>|
                    valid_extension(a, p0, pos, wi * hi, nc, lim) && a[pos] < colour as int + 1
                        && #[trigger] is_grid_canonical(s, a, wi, hi, fam)
                    implies #[trigger] seen_contains(seen@, s) by {
                    if a[pos] == colour as int {
                        assert(valid_extension(a, p1, pos + 1, wi * hi, nc, lim));
                    } else {
                        assert(a[pos] < colour as int);
                        assert(seen_contains(seen_pre, s));
                    }
                }
                assert forall|s: Seq<u8>|
                    #[trigger] seen_contains(seen@, s) implies seen_contains(seen0, s) || exists|
                        a: Seq<u8>,
                    |
                        valid_extension(a, p0, pos, wi * hi, nc, lim) && is_grid_canonical(
                            s,
                            a,
                            wi,
                            hi,
                            fam,
                        ) by {
                    if !seen_contains(seen_pre, s) {
                        let a = choose|a: Seq<u8>|
                            valid_extension(a, p1, pos + 1, wi * hi, nc, lim) && is_grid_canonical(
                                s,
                                a,
                                wi,
                                hi,
                                fam,
                            );
                        assert(valid_extension(a, p0, pos, wi * hi, nc, lim));
                    }
                }
            }
        } else {
            proof {
                // pruned: any such extension would overrun the quota
                assert forall|a: Seq<u8>, s: Seq<u8>|
                    valid_extension(a, p0, pos, wi * hi, nc, lim) && a[pos] < colour as int + 1
                        && #[trigger] is_grid_canonical(s, a, wi, hi, fam)
                    implies #[trigger] seen_contains(seen@, s) by {
                    if a[pos] == colour as int {
                        lemma_colour_count_agree(a, p1, colour as int, pos + 1);
                        lemma_colour_count_mono(a, colour as int, pos + 1, wi * hi);
                        assert(colour_count(a, colour as int, wi * hi) > lim);
                        assert(false);
                    } else {
                        assert(a[pos] < colour as int);
                    }
                }
            }
        }
        let cnt2 = colour_counts[colour as usize];
        colour_counts.set(colour as usize, cnt2 - 1);
        proof {
            assert(colour_counts@ =~= counts0);
        }
        colour = colour + 1;
    }
    proof {
        assert forall|a: Seq<u8>, s: Seq<u8>|
            valid_extension(a, p0, pos, wi * hi, nc, lim) && #[trigger] is_grid_canonical(
                s,
                a,
                wi,
                hi,
                fam,
            ) implies #[trigger] seen_contains(seen@, s) by {
            assert(a[pos] < nc);
        }
    }
}

} // verus!
