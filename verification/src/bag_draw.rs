//! Bounded-multiplicity counting: how many ways to assign a colour to every
//! draw in a sequence, when each colour has a limited quota and each draw
//! consumes some number of units of the chosen colour's quota.
//!
//! Three forms are offered:
//! - `count` (through `simple_count`): every draw has weight 1 and each
//!   colour's remaining quota is tracked individually;
//! - `count2`: every draw has weight 1 and colours are grouped in a histogram
//!   by remaining quota (`left_counts[q]` = how many colours have `q` left);
//! - `count3`: the general form, with one weight per draw, over the same
//!   histogram grouping.

use vstd::prelude::*;

verus! {

use vstd::arithmetic::power::pow;
use vstd::arithmetic::power::lemma0_pow;
use vstd::arithmetic::power::lemma_pow_increases;
use vstd::arithmetic::mul::lemma_mul_inequality;
use vstd::arithmetic::mul::lemma_mul_is_commutative;
use vstd::arithmetic::mul::lemma_mul_nonnegative;

/// `x`, cut off at zero; keeps termination measures non-negative.
pub open spec fn clip(x: int) -> int {
    if x >= 0 {
        x
    } else {
        0
    }
}

/// Sum of the entries of `s[i..]`.
pub open spec fn sum_from(s: Seq<u64>, i: int) -> int
    decreases clip(s.len() - i),
{
    if i < 0 || i >= s.len() {
        0
    } else {
        s[i] + sum_from(s, i + 1)
    }
}

/// Sum of all entries of `s`.
pub open spec fn seq_sum(s: Seq<u64>) -> int {
    sum_from(s, 0)
}

/// Number of ways to make `draws` weight-1 draws when colour `c` has
/// `left[c]` units of quota remaining.
pub open spec fn spec_count(draws: nat, left: Seq<u8>) -> nat
    decreases draws, left.len() + 1,
{
    if draws == 0 {
        1
    } else {
        spec_count_from(draws, left, 0)
    }
}

/// The part of `spec_count` contributed by the colours `left[i..]`.
pub open spec fn spec_count_from(draws: nat, left: Seq<u8>, i: int) -> nat
    decreases draws, clip(left.len() - i),
{
    if draws == 0 || i < 0 || i >= left.len() {
        0
    } else {
        (if left[i] > 0 {
            spec_count((draws - 1) as nat, left.update(i, (left[i] - 1) as u8))
        } else {
            0
        }) + spec_count_from(draws, left, i + 1)
    }
}

/// Histogram form, weight-1 draws: `counts[q]` colours have `q` units left.
/// A draw takes one colour from bucket `q >= 1` (in `counts[q]` ways) and
/// moves it to bucket `q - 1`.
pub open spec fn spec_count2(draws: nat, counts: Seq<u64>) -> nat
    decreases draws, counts.len() + 1,
{
    if draws == 0 {
        1
    } else {
        spec_count2_from(draws, counts, 1)
    }
}

/// The part of `spec_count2` contributed by the buckets `counts[i..]`.
pub open spec fn spec_count2_from(draws: nat, counts: Seq<u64>, i: int) -> nat
    decreases draws, clip(counts.len() - i),
{
    if draws == 0 || i < 1 || i >= counts.len() {
        0
    } else {
        (if counts[i] > 0 {
            (counts[i] * spec_count2(
                (draws - 1) as nat,
                counts.update(i, (counts[i] - 1) as u64).update(i - 1, (counts[i - 1] + 1) as u64),
            )) as nat
        } else {
            0
        }) + spec_count2_from(draws, counts, i + 1)
    }
}

/// General weighted form: draw `di` consumes `ds[di]` units of the chosen
/// colour's quota. A colour in bucket `q >= ds[di]` moves to bucket
/// `q - ds[di]`.
pub open spec fn spec_count3(ds: Seq<u8>, di: int, counts: Seq<u64>) -> nat
    decreases clip(ds.len() - di), counts.len() + 1,
{
    if di < 0 || di >= ds.len() {
        1
    } else {
        spec_count3_from(ds, di, counts, ds[di] as int)
    }
}

/// The part of `spec_count3` contributed by the buckets `counts[i..]`.
pub open spec fn spec_count3_from(ds: Seq<u8>, di: int, counts: Seq<u64>, i: int) -> nat
    decreases clip(ds.len() - di), clip(counts.len() - i),
{
    if di < 0 || di >= ds.len() || i < ds[di] as int || i >= counts.len() {
        0
    } else {
        (if counts[i] > 0 {
            (counts[i] * spec_count3(
                ds,
                di + 1,
                counts.update(i, (counts[i] - 1) as u64).update(
                    i - ds[di] as int,
                    (counts[i - ds[di] as int] + if i == i - ds[di] as int {
                        0int
                    } else {
                        1int
                    }) as u64,
                ),
            )) as nat
        } else {
            0
        }) + spec_count3_from(ds, di, counts, i + 1)
    }
}

pub proof fn lemma_pow_unfold(b: int, e: nat)
    requires
        e >= 1,
    ensures
        pow(b, e) == b * pow(b, (e - 1) as nat),
{
    reveal(pow);
}

pub proof fn lemma_pow_zero_exp(b: int)
    ensures
        pow(b, 0) == 1,
{
    reveal(pow);
}

pub proof fn lemma_pow_nonneg(b: int, e: nat)
    requires
        b >= 0,
    ensures
        pow(b, e) >= 0,
    decreases e,
{
    reveal(pow);
    if e > 0 {
        lemma_pow_nonneg(b, (e - 1) as nat);
        lemma_mul_nonnegative(b, pow(b, (e - 1) as nat));
    }
}

/// If `pow(s, e)` is within a bound of at least one, so is `pow(s, e - 1)`.
pub proof fn lemma_pow_drop_le(s: int, e: nat, m: int)
    requires
        s >= 0,
        e >= 1,
        m >= 1,
        pow(s, e) <= m,
    ensures
        pow(s, (e - 1) as nat) <= m,
{
    if s == 0 {
        if e == 1 {
            lemma_pow_zero_exp(0);
        } else {
            lemma0_pow((e - 1) as nat);
        }
    } else {
        lemma_pow_increases(s as nat, (e - 1) as nat, e);
    }
}

/// Raising a larger base to the same power gives at least as much.
pub proof fn lemma_pow_base_le(b1: int, b2: int, e: nat)
    requires
        0 <= b1 <= b2,
    ensures
        pow(b1, e) <= pow(b2, e),
    decreases e,
{
    reveal(pow);
    if e > 0 {
        lemma_pow_base_le(b1, b2, (e - 1) as nat);
        lemma_pow_nonneg(b1, (e - 1) as nat);
        assert(b1 * pow(b1, (e - 1) as nat) <= b2 * pow(b2, (e - 1) as nat)) by (nonlinear_arith)
            requires
                0 <= b1 <= b2,
                0 <= pow(b1, (e - 1) as nat) <= pow(b2, (e - 1) as nat),
        ;
    }
}

/// Every power within the supported ring ranges fits comfortably in a
/// machine word: eight colours over ten beads give at most `8^10`.
pub proof fn lemma_ring_pow_fits(c: int, e: nat)
    requires
        0 <= c <= 8,
        e <= 10,
    ensures
        pow(c, e) <= 0x40000000,
        pow(c, e) >= 0,
{
    lemma_pow_base_le(c, 8, e);
    lemma_pow_increases(8nat, e, 10nat);
    lemma_pow_nonneg(c, e);
    assert(pow(8, 10) == 0x40000000) by {
        reveal_with_fuel(pow, 11);
    }
}

/// When every colour's quota covers all remaining draws, no branch is
/// ever pruned and the count is exactly `colours^draws`.
proof fn lemma_count_saturated(draws: nat, left: Seq<u8>)
    requires
        forall|j: int| 0 <= j < left.len() ==> #[trigger] left[j] >= draws,
    ensures
        spec_count(draws, left) == pow(left.len() as int, draws),
    decreases draws, left.len() + 1,
{
    let n = left.len() as int;
    if draws == 0 {
        lemma_pow_zero_exp(n);
    } else {
        lemma_count_saturated_from(draws, left, 0);
        lemma_pow_unfold(n, draws);
    }
}

proof fn lemma_count_saturated_from(draws: nat, left: Seq<u8>, i: int)
    requires
        draws >= 1,
        0 <= i <= left.len(),
        forall|j: int| 0 <= j < left.len() ==> #[trigger] left[j] >= draws,
    ensures
        spec_count_from(draws, left, i) == (left.len() - i) * pow(
            left.len() as int,
            (draws - 1) as nat,
        ),
    decreases draws, clip(left.len() - i),
{
    let n = left.len() as int;
    let p = pow(n, (draws - 1) as nat);
    if i >= n {
        assert((n - i) * p == 0) by (nonlinear_arith)
            requires
                n == i,
        ;
    } else {
        lemma_count_saturated_from(draws, left, i + 1);
        let dec = left.update(i, (left[i] - 1) as u8);
        assert forall|j: int| 0 <= j < dec.len() implies #[trigger] dec[j] >= (draws - 1) as nat by {
            if j != i {
                assert(dec[j] == left[j]);
            }
        }
        lemma_count_saturated((draws - 1) as nat, dec);
        assert(p + (n - i - 1) * p == (n - i) * p) by (nonlinear_arith);
    }
}

pub proof fn lemma_count_bound(draws: nat, left: Seq<u8>)
    ensures
        spec_count(draws, left) <= pow(left.len() as int, draws),
    decreases draws, left.len() + 1,
{
    let n = left.len() as int;
    if draws == 0 {
        lemma_pow_zero_exp(n);
    } else {
        lemma_count_from_bound(draws, left, 0);
        lemma_pow_unfold(n, draws);
    }
}

proof fn lemma_count_from_bound(draws: nat, left: Seq<u8>, i: int)
    requires
        draws >= 1,
        0 <= i <= left.len(),
    ensures
        spec_count_from(draws, left, i) <= (left.len() - i) * pow(
            left.len() as int,
            (draws - 1) as nat,
        ),
    decreases draws, clip(left.len() - i),
{
    let n = left.len() as int;
    let p = pow(n, (draws - 1) as nat);
    lemma_pow_nonneg(n, (draws - 1) as nat);
    if i >= n {
        assert((n - i) * p == 0) by (nonlinear_arith)
            requires
                n == i,
        ;
    } else {
        lemma_count_from_bound(draws, left, i + 1);
        if left[i] > 0 {
            lemma_count_bound((draws - 1) as nat, left.update(i, (left[i] - 1) as u8));
        }
        assert(spec_count_from(draws, left, i) <= p + (n - i - 1) * p);
        assert(p + (n - i - 1) * p == (n - i) * p) by (nonlinear_arith);
    }
}

proof fn lemma_sum_from_update(s: Seq<u64>, j: int, v: u64, i: int)
    requires
        0 <= j < s.len(),
        0 <= i,
    ensures
        sum_from(s.update(j, v), i) == if i <= j {
            sum_from(s, i) - s[j] + v
        } else {
            sum_from(s, i)
        },
    decreases s.len() - i,
{
    if i >= s.len() {
    } else {
        lemma_sum_from_update(s, j, v, i + 1);
    }
}

proof fn lemma_sum_from_nonneg(s: Seq<u64>, i: int)
    ensures
        sum_from(s, i) >= 0,
        forall|j: int| 0 <= i <= j < s.len() ==> s[j] <= sum_from(s, i),
    decreases clip(s.len() - i),
{
    if i < 0 || i >= s.len() {
    } else {
        lemma_sum_from_nonneg(s, i + 1);
    }
}

/// `sum_from(s, i) <= seq_sum(s)` for `i >= 0`.
proof fn lemma_sum_prefix_le(s: Seq<u64>, i: int)
    requires
        0 <= i,
    ensures
        sum_from(s, i) <= seq_sum(s),
    decreases i,
{
    if i == 0 || i > s.len() {
        lemma_sum_from_nonneg(s, i);
        lemma_sum_from_nonneg(s, 0);
    } else {
        lemma_sum_prefix_le(s, i - 1);
        lemma_sum_from_nonneg(s, i);
    }
}

/// The sum of a histogram that is zero everywhere except at up to two
/// indices is just what those indices hold.
pub proof fn lemma_sum_from_two(s: Seq<u64>, i1: int, i2: int, i: int)
    requires
        0 <= i1 <= i2 < s.len(),
        forall|j: int| 0 <= j < s.len() && j != i1 && j != i2 ==> s[j] == 0,
        0 <= i,
    ensures
        sum_from(s, i) == (if i <= i1 {
            s[i1] as int
        } else {
            0
        }) + (if i <= i2 && i1 != i2 {
            s[i2] as int
        } else {
            0
        }),
    decreases clip(s.len() - i),
{
    if i >= s.len() {
    } else {
        lemma_sum_from_two(s, i1, i2, i + 1);
    }
}

/// Sum of the histogram is unchanged when a colour moves down a bucket.
proof fn lemma_move_preserves_sum(counts: Seq<u64>, i: int, k: int)
    requires
        0 <= k <= i < counts.len(),
        counts[i] > 0,
        counts[k] < u64::MAX || i == k,
    ensures
        seq_sum(
            counts.update(i, (counts[i] - 1) as u64).update(
                k,
                (counts[k] + if i == k {
                    0int
                } else {
                    1int
                }) as u64,
            ),
        ) == seq_sum(counts),
{
    let c1 = counts.update(i, (counts[i] - 1) as u64);
    lemma_sum_from_update(counts, i, (counts[i] - 1) as u64, 0);
    if i == k {
        assert(c1.update(k, (counts[k] + 0int) as u64) =~= counts);
    } else {
        lemma_sum_from_update(c1, k, (counts[k] + 1) as u64, 0);
    }
}

pub proof fn lemma_count2_bound(draws: nat, counts: Seq<u64>)
    requires
        seq_sum(counts) < u64::MAX,
    ensures
        spec_count2(draws, counts) <= pow(seq_sum(counts), draws),
    decreases draws, counts.len() + 1,
{
    let s = seq_sum(counts);
    lemma_sum_from_nonneg(counts, 0);
    if draws == 0 {
        lemma_pow_zero_exp(s);
    } else {
        let p = pow(s, (draws - 1) as nat);
        lemma_count2_from_bound(draws, counts, 1);
        lemma_sum_prefix_le(counts, 1);
        lemma_pow_nonneg(s, (draws - 1) as nat);
        lemma_mul_inequality(sum_from(counts, 1), s, p);
        lemma_pow_unfold(s, draws);
    }
}

proof fn lemma_count2_from_bound(draws: nat, counts: Seq<u64>, i: int)
    requires
        draws >= 1,
        1 <= i,
        seq_sum(counts) < u64::MAX,
    ensures
        spec_count2_from(draws, counts, i) <= sum_from(counts, i) * pow(
            seq_sum(counts),
            (draws - 1) as nat,
        ),
    decreases draws, clip(counts.len() - i),
{
    let s = seq_sum(counts);
    let p = pow(s, (draws - 1) as nat);
    lemma_sum_from_nonneg(counts, 0);
    lemma_sum_from_nonneg(counts, i);
    lemma_sum_from_nonneg(counts, i + 1);
    lemma_pow_nonneg(s, (draws - 1) as nat);
    if i >= counts.len() {
        assert(sum_from(counts, i) * p >= 0) by (nonlinear_arith)
            requires
                sum_from(counts, i) >= 0,
                p >= 0,
        ;
    } else {
        lemma_count2_from_bound(draws, counts, i + 1);
        let tail = sum_from(counts, i + 1);
        if counts[i] > 0 {
            let moved = counts.update(i, (counts[i] - 1) as u64).update(
                i - 1,
                (counts[i - 1] + 1) as u64,
            );
            lemma_move_preserves_sum(counts, i, i - 1);
            lemma_count2_bound((draws - 1) as nat, moved);
            let sub = spec_count2((draws - 1) as nat, moved) as int;
            lemma_mul_nonnegative(counts[i] as int, sub);
            lemma_mul_inequality(sub, p, counts[i] as int);
            lemma_mul_is_commutative(sub, counts[i] as int);
            lemma_mul_is_commutative(p, counts[i] as int);
        }
        assert(counts[i] * p + tail * p == (counts[i] + tail) * p) by (nonlinear_arith);
    }
}

pub proof fn lemma_count3_bound(ds: Seq<u8>, di: int, counts: Seq<u64>)
    requires
        seq_sum(counts) < u64::MAX,
        0 <= di,
    ensures
        spec_count3(ds, di, counts) <= pow(seq_sum(counts), clip(ds.len() - di) as nat),
    decreases clip(ds.len() - di), counts.len() + 1,
{
    let s = seq_sum(counts);
    lemma_sum_from_nonneg(counts, 0);
    if di >= ds.len() {
        lemma_pow_zero_exp(s);
    } else {
        let rem = (ds.len() - di) as nat;
        let p = pow(s, (rem - 1) as nat);
        lemma_count3_from_bound(ds, di, counts, ds[di] as int);
        lemma_sum_from_nonneg(counts, ds[di] as int);
        lemma_sum_prefix_le(counts, ds[di] as int);
        lemma_pow_nonneg(s, (rem - 1) as nat);
        lemma_mul_inequality(sum_from(counts, ds[di] as int), s, p);
        lemma_pow_unfold(s, rem);
    }
}

proof fn lemma_count3_from_bound(ds: Seq<u8>, di: int, counts: Seq<u64>, i: int)
    requires
        0 <= di < ds.len(),
        ds[di] as int <= i,
        seq_sum(counts) < u64::MAX,
    ensures
        spec_count3_from(ds, di, counts, i) <= sum_from(counts, i) * pow(
            seq_sum(counts),
            (ds.len() - di - 1) as nat,
        ),
    decreases clip(ds.len() - di), clip(counts.len() - i),
{
    let s = seq_sum(counts);
    let p = pow(s, (ds.len() - di - 1) as nat);
    lemma_sum_from_nonneg(counts, 0);
    lemma_sum_from_nonneg(counts, i);
    lemma_sum_from_nonneg(counts, i + 1);
    lemma_pow_nonneg(s, (ds.len() - di - 1) as nat);
    if i >= counts.len() {
        assert(sum_from(counts, i) * p >= 0) by (nonlinear_arith)
            requires
                sum_from(counts, i) >= 0,
                p >= 0,
        ;
    } else {
        lemma_count3_from_bound(ds, di, counts, i + 1);
        let tail = sum_from(counts, i + 1);
        if counts[i] > 0 {
            let k = i - ds[di] as int;
            let moved = counts.update(i, (counts[i] - 1) as u64).update(
                k,
                (counts[k] + if i == k {
                    0int
                } else {
                    1int
                }) as u64,
            );
            lemma_move_preserves_sum(counts, i, k);
            lemma_count3_bound(ds, di + 1, moved);
            let sub = spec_count3(ds, di + 1, moved) as int;
            assert(clip(ds.len() - (di + 1)) == ds.len() - di - 1);
            lemma_mul_nonnegative(counts[i] as int, sub);
            lemma_mul_inequality(sub, p, counts[i] as int);
            lemma_mul_is_commutative(sub, counts[i] as int);
            lemma_mul_is_commutative(p, counts[i] as int);
        }
        assert(counts[i] * p + tail * p == (counts[i] + tail) * p) by (nonlinear_arith);
    }
}

/// Weight-1 counting with one quota entry per colour. `left[c]` is the
/// remaining quota of colour `c`; the result is the number of distinct
/// colour assignments for `draws` ordered draws.
pub fn count(draws: u64, left: &mut Vec<u8>) -> (total: u64)
    requires
        pow(old(left).len() as int, draws as nat) <= u64::MAX,
    ensures
        final(left)@ == old(left)@,
        total == spec_count(draws as nat, old(left)@),
    decreases draws,
{
    if draws == 0 {
        return 1;
    }
    let ghost l0 = left@;
    let n = left.len();
    // fast path: when no quota can run out, the tree is full and the
    // count is a plain power
    let mut all_enough = n >= 1;
    let mut ci: usize = 0;
    while ci < n
        invariant
            n == l0.len(),
            left@ == l0,
            ci <= n,
            all_enough == (n >= 1 && forall|j: int| 0 <= j < ci ==> #[trigger] l0[j] >= draws),
        decreases n - ci,
    {
        if (left[ci] as u64) < draws {
            all_enough = false;
        }
        ci = ci + 1;
    }
    if all_enough {
        proof {
            lemma_count_saturated(draws as nat, l0);
        }
        return crate::ring::u64_pow(n as u64, draws);
    }
    proof {
        lemma_count_from_bound(draws as nat, l0, 0);
        lemma_count_bound(draws as nat, l0);
        if n >= 1 {
            lemma_pow_unfold(n as int, draws as nat);
            lemma_pow_nonneg(n as int, (draws - 1) as nat);
            lemma_mul_inequality(1, n as int, pow(n as int, (draws - 1) as nat));
        }
    }
    let mut total: u64 = 0;
    let mut i: usize = 0;
    while i < n
        invariant
            n == l0.len(),
            left@ == l0,
            draws >= 1,
            n >= 1 ==> pow(n as int, (draws - 1) as nat) <= u64::MAX,
            0 <= i <= n,
            total + spec_count_from(draws as nat, l0, i as int) == spec_count_from(
                draws as nat,
                l0,
                0,
            ),
            spec_count_from(draws as nat, l0, 0) <= u64::MAX,
        decreases n - i,
    {
        if left[i] > 0 {
            let v = left[i];
            left.set(i, v - 1);
            let sub = count(draws - 1, left);
            left.set(i, v);
            proof {
                assert(left@ =~= l0);
            }
            total = total + sub;
        }
        i = i + 1;
    }
    total
}

/// Weight-1 counting over the quota histogram: `left_counts[q]` colours have
/// exactly `q` units of quota left. Bucket 0 exists but is never drawn from.
pub fn count2(draws: u64, left_counts: &mut Vec<u64>) -> (total: u64)
    requires
        seq_sum(old(left_counts)@) < u64::MAX,
        pow(seq_sum(old(left_counts)@), draws as nat) <= u64::MAX,
    ensures
        final(left_counts)@ == old(left_counts)@,
        total == spec_count2(draws as nat, old(left_counts)@),
    decreases draws,
{
    if draws == 0 {
        return 1;
    }
    let ghost l0 = left_counts@;
    let ghost s = seq_sum(l0);
    let n = left_counts.len();
    proof {
        lemma_sum_from_nonneg(l0, 0);
        lemma_count2_from_bound(draws as nat, l0, 1);
        lemma_sum_prefix_le(l0, 1);
        lemma_pow_nonneg(s, (draws - 1) as nat);
        lemma_mul_inequality(sum_from(l0, 1), s, pow(s, (draws - 1) as nat));
        lemma_pow_unfold(s, draws as nat);
        lemma_pow_drop_le(s, draws as nat, u64::MAX as int);
    }
    let mut total: u64 = 0;
    let mut i: usize = 1;
    while i < n
        invariant
            n == l0.len(),
            left_counts@ == l0,
            s == seq_sum(l0),
            draws >= 1,
            s < u64::MAX,
            pow(s, (draws - 1) as nat) <= u64::MAX,
            1 <= i,
            total + spec_count2_from(draws as nat, l0, i as int) == spec_count2_from(
                draws as nat,
                l0,
                1,
            ),
            spec_count2_from(draws as nat, l0, 1) <= u64::MAX,
        decreases n - i,
    {
        if left_counts[i] > 0 {
            let c = left_counts[i];
            let cm = left_counts[i - 1];
            proof {
                lemma_sum_from_nonneg(l0, 0);
            }
            left_counts.set(i, c - 1);
            left_counts.set(i - 1, cm + 1);
            proof {
                lemma_move_preserves_sum(l0, i as int, i as int - 1);
            }
            let sub = count2(draws - 1, left_counts);
            left_counts.set(i - 1, cm);
            left_counts.set(i, c);
            proof {
                assert(left_counts@ =~= l0);
                lemma_mul_nonnegative(c as int, sub as int);
            }
            total = total + c * sub;
        }
        i = i + 1;
    }
    total
}

/// General weighted counting: draw `di` takes `draws[di]` units from the
/// chosen colour's quota. `left_counts` is the quota histogram.
pub fn count3(draws: &Vec<u8>, left_counts: &mut Vec<u64>) -> (total: u64)
    requires
        seq_sum(old(left_counts)@) < u64::MAX,
        pow(seq_sum(old(left_counts)@), draws@.len() as nat) <= u64::MAX,
    ensures
        final(left_counts)@ == old(left_counts)@,
        total == spec_count3(draws@, 0, old(left_counts)@),
{
    count3_at(draws, 0, left_counts)
}

fn count3_at(draws: &Vec<u8>, di: usize, left_counts: &mut Vec<u64>) -> (total: u64)
    requires
        di <= draws@.len(),
        seq_sum(old(left_counts)@) < u64::MAX,
        pow(seq_sum(old(left_counts)@), (draws@.len() - di) as nat) <= u64::MAX,
    ensures
        final(left_counts)@ == old(left_counts)@,
        total == spec_count3(draws@, di as int, old(left_counts)@),
    decreases draws@.len() - di,
{
    if di == draws.len() {
        return 1;
    }
    let w = draws[di];
    let ghost l0 = left_counts@;
    let ghost s = seq_sum(l0);
    let ghost rem = (draws@.len() - di) as nat;
    let n = left_counts.len();
    proof {
        lemma_sum_from_nonneg(l0, 0);
        lemma_count3_from_bound(draws@, di as int, l0, w as int);
        lemma_sum_prefix_le(l0, w as int);
        lemma_sum_from_nonneg(l0, w as int);
        lemma_pow_nonneg(s, (rem - 1) as nat);
        lemma_mul_inequality(sum_from(l0, w as int), s, pow(s, (rem - 1) as nat));
        lemma_pow_unfold(s, rem);
        lemma_pow_drop_le(s, rem, u64::MAX as int);
    }
    let mut total: u64 = 0;
    let mut i: usize = w as usize;
    while i < n
        invariant
            n == l0.len(),
            left_counts@ == l0,
            s == seq_sum(l0),
            rem == draws@.len() - di,
            di < draws@.len(),
            draws@.len() <= usize::MAX,
            w == draws@[di as int],
            s < u64::MAX,
            pow(s, (rem - 1) as nat) <= u64::MAX,
            w as int <= i,
            total + spec_count3_from(draws@, di as int, l0, i as int) == spec_count3_from(
                draws@,
                di as int,
                l0,
                w as int,
            ),
            spec_count3_from(draws@, di as int, l0, w as int) <= u64::MAX,
        decreases n - i,
    {
        if left_counts[i] > 0 {
            let c = left_counts[i];
            let k = i - w as usize;
            let ck = left_counts[k];
            proof {
                lemma_sum_from_nonneg(l0, 0);
            }
            if k != i {
                left_counts.set(i, c - 1);
                left_counts.set(k, ck + 1);
            }
            proof {
                lemma_move_preserves_sum(l0, i as int, k as int);
                if k == i {
                    // a weight-0 draw puts the unit straight back
                    assert(left_counts@ =~= l0.update(i as int, (c - 1) as u64).update(
                        k as int,
                        (l0[k as int] + 0int) as u64,
                    ));
                }
            }
            let sub = count3_at(draws, di + 1, left_counts);
            if k != i {
                left_counts.set(k, ck);
                left_counts.set(i, c);
            }
            proof {
                assert(left_counts@ =~= l0);
                lemma_mul_nonnegative(c as int, sub as int);
            }
            total = total + c * sub;
        }
        i = i + 1;
    }
    total
}

/// Uniform starting point: `n_colours` colours, each with `each_count` units
/// of quota, and `draws` weight-1 draws.
pub fn simple_count(draws: u64, n_colours: u64, each_count: u64) -> (total: u64)
    requires
        each_count <= u8::MAX,
        pow(n_colours as int, draws as nat) <= u64::MAX,
    ensures
        total == spec_count(draws as nat, Seq::new(n_colours as nat, |c: int| each_count as u8)),
{
    let mut left: Vec<u8> = Vec::new();
    let mut c: u64 = 0;
    while c < n_colours
        invariant
            c <= n_colours,
            each_count <= u8::MAX,
            left@ =~= Seq::new(c as nat, |j: int| each_count as u8),
        decreases n_colours - c,
    {
        left.push(each_count as u8);
        c = c + 1;
    }
    assert(left@ =~= Seq::new(n_colours as nat, |j: int| each_count as u8));
    count(draws, &mut left)
}

} // verus!

verus! {

/// A sequence of `d` unit-weight draws.
pub open spec fn unit_draws(d: nat) -> Seq<u8> {
    Seq::new(d, |i: int| 1u8)
}

/// The histogram-bucketed weight-1 counter agrees with the general
/// weighted counter on unit-weight draws.
pub proof fn lemma_count2_matches_unit_count3(d: nat, counts: Seq<u64>)
    ensures
        spec_count2(d, counts) == spec_count3(unit_draws(d), 0, counts),
{
    lemma_count2_count3_at(d, 0, counts);
}

proof fn lemma_count2_count3_at(d: nat, di: int, counts: Seq<u64>)
    requires
        0 <= di <= d,
    ensures
        spec_count3(unit_draws(d), di, counts) == spec_count2((d - di) as nat, counts),
    decreases d - di, counts.len() + 1,
{
    if di >= d {
    } else {
        lemma_count2_count3_from(d, di, counts, 1);
    }
}

proof fn lemma_count2_count3_from(d: nat, di: int, counts: Seq<u64>, i: int)
    requires
        0 <= di < d,
    ensures
        spec_count3_from(unit_draws(d), di, counts, i) == spec_count2_from(
            (d - di) as nat,
            counts,
            i,
        ),
    decreases d - di, clip(counts.len() - i),
{
    if i < 1 || i >= counts.len() {
    } else {
        lemma_count2_count3_from(d, di, counts, i + 1);
        if counts[i] > 0 {
            let moved = counts.update(i, (counts[i] - 1) as u64).update(
                i - 1,
                (counts[i - 1] + 1) as u64,
            );
            lemma_count2_count3_at(d, di + 1, moved);
        }
    }
}

} // verus!

verus! {

use vstd::arithmetic::mul::lemma_mul_is_distributive_add_other_way;

/// Number of colours in `left[i..]` whose remaining quota is exactly `q`.
pub open spec fn quota_count(left: Seq<u8>, q: int, i: int) -> int
    decreases clip(left.len() - i),
{
    if i < 0 || i >= left.len() {
        0
    } else {
        (if left[i] == q {
            1int
        } else {
            0int
        }) + quota_count(left, q, i + 1)
    }
}

/// The quota histogram of a per-colour quota vector: bucket `q` holds how
/// many colours have exactly `q` units left.
pub open spec fn quota_hist(left: Seq<u8>) -> Seq<u64> {
    Seq::new(256, |q: int| quota_count(left, q, 0) as u64)
}

/// One histogram draw from bucket `q`: a colour moves down to `q - 1`.
pub open spec fn hist_move(h: Seq<u64>, q: int) -> Seq<u64> {
    h.update(q, (h[q] - 1) as u64).update(q - 1, (h[q - 1] + 1) as u64)
}

proof fn lemma_quota_count_bounds(left: Seq<u8>, q: int, i: int)
    requires
        0 <= i,
    ensures
        0 <= quota_count(left, q, i) <= clip(left.len() - i),
    decreases clip(left.len() - i),
{
    if i < left.len() {
        lemma_quota_count_bounds(left, q, i + 1);
    }
}

proof fn lemma_quota_count_update(left: Seq<u8>, i: int, v: u8, q: int, j: int)
    requires
        0 <= i < left.len(),
        0 <= j,
    ensures
        quota_count(left.update(i, v), q, j) == quota_count(left, q, j) + (if j <= i {
            (if v == q {
                1int
            } else {
                0int
            }) - (if left[i] == q {
                1int
            } else {
                0int
            })
        } else {
            0int
        }),
    decreases clip(left.len() - j),
{
    if j < left.len() {
        lemma_quota_count_update(left, i, v, q, j + 1);
    }
}

proof fn lemma_quota_count_pos(left: Seq<u8>, q: int, j: int, w: int)
    requires
        0 <= j <= w < left.len(),
        left[w] == q,
    ensures
        quota_count(left, q, j) >= 1,
    decreases clip(left.len() - j),
{
    lemma_quota_count_bounds(left, q, j + 1);
    if j < w {
        lemma_quota_count_pos(left, q, j + 1, w);
        lemma_quota_count_bounds(left, q, j);
        assert(quota_count(left, q, j) >= quota_count(left, q, j + 1));
    }
}

/// Decrementing one colour's quota moves it one bucket down in the
/// histogram.
proof fn lemma_hist_dec(left: Seq<u8>, i: int)
    requires
        left.len() <= 8,
        0 <= i < left.len(),
        left[i] >= 1,
    ensures
        quota_hist(left.update(i, (left[i] - 1) as u8)) == hist_move(
            quota_hist(left),
            left[i] as int,
        ),
{
    let dec = left.update(i, (left[i] - 1) as u8);
    let h = quota_hist(left);
    let q0 = left[i] as int;
    lemma_quota_count_pos(left, q0, 0, i);
    assert forall|q: int| 0 <= q < 256 implies quota_hist(dec)[q] == hist_move(h, q0)[q] by {
        lemma_quota_count_update(left, i, (left[i] - 1) as u8, q, 0);
        lemma_quota_count_bounds(left, q, 0);
        lemma_quota_count_bounds(dec, q, 0);
    }
    assert(quota_hist(dec) =~= hist_move(h, q0));
}

/// Sum over the buckets `q` and up of: how many colours in `left[i..]`
/// sit in that bucket, times the ways to finish after drawing from it.
pub open spec fn bucket_sum(left: Seq<u8>, h: Seq<u64>, dm1: nat, i: int, q: int) -> int
    decreases clip(256 - q),
{
    if q < 1 || q >= 256 {
        0
    } else {
        quota_count(left, q, i) * spec_count2(dm1, hist_move(h, q)) + bucket_sum(
            left,
            h,
            dm1,
            i,
            q + 1,
        )
    }
}

proof fn lemma_bucket_sum_empty(left: Seq<u8>, h: Seq<u64>, dm1: nat, i: int, q: int)
    requires
        i >= left.len(),
    ensures
        bucket_sum(left, h, dm1, i, q) == 0,
    decreases clip(256 - q),
{
    if 1 <= q < 256 {
        lemma_bucket_sum_empty(left, h, dm1, i, q + 1);
    }
}

/// Taking colour `i` out of the coefficient range removes exactly its own
/// bucket's term.
proof fn lemma_bucket_sum_step(left: Seq<u8>, h: Seq<u64>, dm1: nat, i: int, q: int)
    requires
        0 <= i < left.len(),
        1 <= q,
    ensures
        bucket_sum(left, h, dm1, i, q) == bucket_sum(left, h, dm1, i + 1, q) + (if left[i] as int
            >= q {
            spec_count2(dm1, hist_move(h, left[i] as int)) as int
        } else {
            0int
        }),
    decreases clip(256 - q),
{
    if q >= 256 {
    } else {
        lemma_bucket_sum_step(left, h, dm1, i, q + 1);
        let f = spec_count2(dm1, hist_move(h, q)) as int;
        assert((quota_count(left, q, i + 1) + 1) * f == quota_count(left, q, i + 1) * f + 1 * f)
            by {
            lemma_mul_is_distributive_add_other_way(f, quota_count(left, q, i + 1), 1);
        }
    }
}

/// The per-colour counter equals the histogram counter on the quota
/// histogram: drawing a specific colour with `q` units left is the same
/// choice as drawing some colour out of bucket `q`.
pub proof fn lemma_count_matches_histogram(d: nat, left: Seq<u8>)
    requires
        left.len() <= 8,
    ensures
        spec_count(d, left) == spec_count2(d, quota_hist(left)),
    decreases d, left.len() + 2,
{
    if d == 0 {
    } else {
        let h = quota_hist(left);
        lemma_count_from_matches(d, left, 0);
        lemma_count2_from_matches(d, left, h, 1);
    }
}

proof fn lemma_count_from_matches(d: nat, left: Seq<u8>, i: int)
    requires
        1 <= d,
        left.len() <= 8,
        0 <= i <= left.len(),
    ensures
        spec_count_from(d, left, i) == bucket_sum(left, quota_hist(left), (d - 1) as nat, i, 1),
    decreases d, clip(left.len() - i),
{
    let h = quota_hist(left);
    if i >= left.len() {
        lemma_bucket_sum_empty(left, h, (d - 1) as nat, i, 1);
    } else {
        lemma_count_from_matches(d, left, i + 1);
        lemma_bucket_sum_step(left, h, (d - 1) as nat, i, 1);
        if left[i] > 0 {
            let dec = left.update(i, (left[i] - 1) as u8);
            lemma_count_matches_histogram((d - 1) as nat, dec);
            lemma_hist_dec(left, i);
            assert(spec_count((d - 1) as nat, dec) == spec_count2(
                (d - 1) as nat,
                hist_move(h, left[i] as int),
            ));
        }
    }
}

/// The histogram counter's own sum has the same bucket-by-bucket shape.
proof fn lemma_count2_from_matches(d: nat, left: Seq<u8>, h: Seq<u64>, q: int)
    requires
        1 <= d,
        left.len() <= 8,
        h == quota_hist(left),
        1 <= q,
    ensures
        spec_count2_from(d, h, q) == bucket_sum(left, h, (d - 1) as nat, 0, q),
    decreases clip(256 - q),
{
    if q >= 256 {
    } else {
        lemma_count2_from_matches(d, left, h, q + 1);
        lemma_quota_count_bounds(left, q, 0);
        assert(h[q] as int == quota_count(left, q, 0));
        let moved = h.update(q, (h[q] - 1) as u64).update(q - 1, (h[q - 1] + 1) as u64);
        assert(moved == hist_move(h, q));
        let f = spec_count2((d - 1) as nat, moved) as int;
        if h[q] > 0 {
            vstd::arithmetic::mul::lemma_mul_nonnegative(h[q] as int, f);
            assert((h[q] * spec_count2((d - 1) as nat, moved)) as nat == quota_count(
                left,
                q,
                0,
            ) * f);
        } else {
            assert(quota_count(left, q, 0) == 0);
            assert(quota_count(left, q, 0) * f == 0);
        }
        assert(spec_count2_from(d, h, q) == (if h[q] > 0 {
            (h[q] * spec_count2((d - 1) as nat, moved)) as nat
        } else {
            0nat
        }) + spec_count2_from(d, h, q + 1));
    }
}

} // verus!

verus! {

/// The uniform per-colour form agrees with the general weighted form on
/// unit-weight draws over the quota histogram.
pub proof fn lemma_count_matches_unit_count3(d: nat, left: Seq<u8>)
    requires
        left.len() <= 8,
    ensures
        spec_count(d, left) == spec_count3(unit_draws(d), 0, quota_hist(left)),
{
    lemma_count_matches_histogram(d, left);
    lemma_count2_matches_unit_count3(d, quota_hist(left));
}

} // verus!
