//! The reversible integer lifting transform on the eight lattice sites.
use vstd::prelude::*;
use vstd::arithmetic::div_mod::{lemma_fundamental_div_mod, lemma_fundamental_div_mod_converse};
use vstd::wrapping::i64_specs;
use crate::arith::{wrap64, lemma_wrap64_id, lemma_wrap64_absorb, lemma_wrapping_add, lemma_wrapping_sub};
use crate::lattice::M;

verus! {

/// Difference output of the forward butterfly on the pair `(a, b)`.
#[verifier::opaque]
pub open spec fn lift_d(a: i64, b: i64) -> i64 {
    i64_specs::wrapping_sub(b, a)
}

/// Sum output of the forward butterfly: `a` plus half the difference, rounded down.
#[verifier::opaque]
pub open spec fn lift_s(a: i64, b: i64) -> i64 {
    i64_specs::wrapping_add(a, lift_d(a, b) >> 1)
}

/// First output of the inverse butterfly on the pair `(s, d)`.
#[verifier::opaque]
pub open spec fn unlift_lo(s: i64, d: i64) -> i64 {
    i64_specs::wrapping_sub(s, d >> 1)
}

/// Second output of the inverse butterfly on the pair `(s, d)`.
#[verifier::opaque]
pub open spec fn unlift_hi(s: i64, d: i64) -> i64 {
    i64_specs::wrapping_add(d, unlift_lo(s, d))
}

/// Position `k` is the first element of its butterfly pair at distance `step`.
pub open spec fn is_low(k: int, step: int) -> bool {
    k % (2 * step) < step
}

/// One forward stage: every pair `(k, k + step)` within blocks of `2 * step`
/// is replaced by its forward butterfly.
pub open spec fn forward_stage(x: Seq<i64>, step: int) -> Seq<i64> {
    Seq::new(
        x.len(),
        |k: int|
            if is_low(k, step) {
                lift_s(x[k], x[k + step])
            } else {
                lift_d(x[k - step], x[k])
            },
    )
}

/// One inverse stage: every pair `(k, k + step)` is replaced by its inverse butterfly.
pub open spec fn inverse_stage(x: Seq<i64>, step: int) -> Seq<i64> {
    Seq::new(
        x.len(),
        |k: int|
            if is_low(k, step) {
                unlift_lo(x[k], x[k + step])
            } else {
                unlift_hi(x[k - step], x[k])
            },
    )
}

/// The forward transform: stages at distances 1, 2 and 4.
pub open spec fn lifting_forward(x: Seq<i64>) -> Seq<i64> {
    forward_stage(forward_stage(forward_stage(x, 1), 2), 4)
}

/// The inverse transform: inverse stages at distances 4, 2 and 1.
pub open spec fn lifting_inverse(x: Seq<i64>) -> Seq<i64> {
    inverse_stage(inverse_stage(inverse_stage(x, 4), 2), 1)
}

/// The forward stages at distances below `step`, applied in order.
pub open spec fn forward_upto(x: Seq<i64>, step: int) -> Seq<i64> {
    if step <= 1 {
        x
    } else if step == 2 {
        forward_stage(x, 1)
    } else if step == 4 {
        forward_stage(forward_stage(x, 1), 2)
    } else {
        lifting_forward(x)
    }
}

/// The inverse stages at distances above `step`, applied in order.
pub open spec fn inverse_downto(x: Seq<i64>, step: int) -> Seq<i64> {
    if step >= 4 {
        x
    } else if step == 2 {
        inverse_stage(x, 4)
    } else if step == 1 {
        inverse_stage(inverse_stage(x, 4), 2)
    } else {
        lifting_inverse(x)
    }
}

/// Offsets inside a block of `2 * step` that starts at a multiple of `2 * step`.
proof fn lemma_block_offsets(i: int, j: int, step: int)
    requires
        step == 1 || step == 2 || step == 4,
        0 <= i,
        i % (2 * step) == 0,
        0 <= j < step,
    ensures
        (i + j) % (2 * step) == j,
        (i + j + step) % (2 * step) == j + step,
{
    lemma_fundamental_div_mod(i, 2 * step);
    let t = i / (2 * step);
    lemma_fundamental_div_mod_converse(i + j, 2 * step, t, j);
    lemma_fundamental_div_mod_converse(i + j + step, 2 * step, t, j + step);
}

/// Partner positions of a butterfly pair sit on opposite sides.
proof fn lemma_partner(k: int, step: int)
    requires
        step == 1 || step == 2 || step == 4,
        0 <= k < M,
    ensures
        is_low(k, step) ==> k + step < M && !is_low(k + step, step),
        !is_low(k, step) ==> k - step >= 0 && is_low(k - step, step),
{
    lemma_fundamental_div_mod(k, 2 * step);
    let t = k / (2 * step);
    let r = k % (2 * step);
    if r < step {
        lemma_fundamental_div_mod_converse(k + step, 2 * step, t, r + step);
        assert(k + step < M) by {
            if step == 1 { assert(t * 2 + 1 < 8 || t * 2 >= 8); }
        }
    } else {
        lemma_fundamental_div_mod_converse(k - step, 2 * step, t, r - step);
    }
}

/// Applies one forward stage in place.
fn forward_stage_in_place(x: &mut [i64; M], step: usize)
    requires
        step == 1 || step == 2 || step == 4,
    ensures
        final(x)@ == forward_stage(old(x)@, step as int),
{
    let ghost src = x@;
    let ghost target = forward_stage(src, step as int);
    let jump = step * 2;
    let mut i: usize = 0;
    while i < M
        invariant
            step == 1 || step == 2 || step == 4,
            jump == 2 * step,
            src.len() == M,
            target == forward_stage(src, step as int),
            i <= M,
            i % jump == 0,
            forall|k: int| 0 <= k < i ==> x[k] == target[k],
            forall|k: int| i <= k < M ==> x[k] == src[k],
        decreases M - i,
    {
        assert(i + jump <= M) by {
            lemma_fundamental_div_mod(i as int, jump as int);
        }
        for j in 0..step
            invariant
                step == 1 || step == 2 || step == 4,
                jump == 2 * step,
                src.len() == M,
                target == forward_stage(src, step as int),
                i + jump <= M,
                i % jump == 0,
                forall|k: int| 0 <= k < i ==> x[k] == target[k],
                forall|k: int| i <= k < i + jump ==>
                    x[k] == if k < i + j || (i + step <= k < i + step + j) { target[k] } else { src[k] },
                forall|k: int| i + jump <= k < M ==> x[k] == src[k],
        {
            let idx0 = i + j;
            let idx1 = i + j + step;
            proof {
                lemma_block_offsets(i as int, j as int, step as int);
                reveal(lift_s);
                reveal(lift_d);
            }
            let d = x[idx1].wrapping_sub(x[idx0]);
            let s = x[idx0].wrapping_add(d >> 1);
            x[idx0] = s;
            x[idx1] = d;
        }
        proof {
            lemma_fundamental_div_mod(i as int, jump as int);
            lemma_fundamental_div_mod_converse(i + jump, jump as int, i / jump + 1, 0);
        }
        i = i + jump;
    }
}

/// Applies one inverse stage in place.
fn inverse_stage_in_place(x: &mut [i64; M], step: usize)
    requires
        step == 1 || step == 2 || step == 4,
    ensures
        final(x)@ == inverse_stage(old(x)@, step as int),
{
    let ghost src = x@;
    let ghost target = inverse_stage(src, step as int);
    let jump = step * 2;
    let mut i: usize = 0;
    while i < M
        invariant
            step == 1 || step == 2 || step == 4,
            jump == 2 * step,
            src.len() == M,
            target == inverse_stage(src, step as int),
            i <= M,
            i % jump == 0,
            forall|k: int| 0 <= k < i ==> x[k] == target[k],
            forall|k: int| i <= k < M ==> x[k] == src[k],
        decreases M - i,
    {
        assert(i + jump <= M) by {
            lemma_fundamental_div_mod(i as int, jump as int);
        }
        for j in 0..step
            invariant
                step == 1 || step == 2 || step == 4,
                jump == 2 * step,
                src.len() == M,
                target == inverse_stage(src, step as int),
                i + jump <= M,
                i % jump == 0,
                forall|k: int| 0 <= k < i ==> x[k] == target[k],
                forall|k: int| i <= k < i + jump ==>
                    x[k] == if k < i + j || (i + step <= k < i + step + j) { target[k] } else { src[k] },
                forall|k: int| i + jump <= k < M ==> x[k] == src[k],
        {
            let idx0 = i + j;
            let idx1 = i + j + step;
            proof {
                lemma_block_offsets(i as int, j as int, step as int);
                reveal(unlift_lo);
                reveal(unlift_hi);
            }
            let s = x[idx0];
            let d = x[idx1];
            let x0 = s.wrapping_sub(d >> 1);
            let x1 = d.wrapping_add(x0);
            x[idx0] = x0;
            x[idx1] = x1;
        }
        proof {
            lemma_fundamental_div_mod(i as int, jump as int);
            lemma_fundamental_div_mod_converse(i + jump, jump as int, i / jump + 1, 0);
        }
        i = i + jump;
    }
}

/// Forward lifting transform: three butterfly stages at distances 1, 2 and 4,
/// in two's-complement arithmetic, so that no bit is lost.
pub fn forward_lifting_ntt(x: &mut [i64; M])
    ensures
        final(x)@ == lifting_forward(old(x)@),
{
    let ghost x0 = x@;
    let mut step: usize = 1;
    while step < M
        invariant
            step == 1 || step == 2 || step == 4 || step == 8,
            x@ == forward_upto(x0, step as int),
        decreases M - step,
    {
        forward_stage_in_place(x, step);
        step = step * 2;
    }
}

/// Inverse lifting transform: inverse butterfly stages at distances 4, 2 and 1.
pub fn inverse_lifting_ntt(x: &mut [i64; M])
    ensures
        final(x)@ == lifting_inverse(old(x)@),
{
    let ghost x0 = x@;
    let mut step: usize = M / 2;
    while step >= 1
        invariant
            step == 0 || step == 1 || step == 2 || step == 4,
            x@ == inverse_downto(x0, step as int),
        decreases step,
    {
        inverse_stage_in_place(x, step);
        step /= 2;
    }
}

proof fn lemma_butterfly(a: i64, b: i64)
    ensures
        unlift_lo(lift_s(a, b), lift_d(a, b)) == a,
        unlift_hi(lift_s(a, b), lift_d(a, b)) == b,
        lift_s(unlift_lo(a, b), unlift_hi(a, b)) == a,
        lift_d(unlift_lo(a, b), unlift_hi(a, b)) == b,
{
    reveal(lift_s);
    reveal(lift_d);
    reveal(unlift_lo);
    reveal(unlift_hi);
    // forward then inverse
    let d = lift_d(a, b);
    let h = d >> 1;
    lemma_wrapping_sub(b, a);
    lemma_wrapping_add(a, h);
    let s = lift_s(a, b);
    lemma_wrapping_sub(s, h);
    lemma_wrap64_absorb(a + h, -h);
    lemma_wrap64_id(a as int);
    let lo = unlift_lo(s, d);
    lemma_wrapping_add(d, lo);
    lemma_wrap64_absorb(b - a, a as int);
    lemma_wrap64_id(b as int);
    // inverse then forward
    let h2 = b >> 1;
    let x0 = unlift_lo(a, b);
    lemma_wrapping_sub(a, h2);
    lemma_wrapping_add(b, x0);
    let x1 = unlift_hi(a, b);
    lemma_wrapping_sub(x1, x0);
    lemma_wrap64_absorb(b + x0, -x0);
    lemma_wrap64_id(b as int);
    lemma_wrapping_add(x0, b >> 1);
    lemma_wrap64_absorb(a - h2, h2 as int);
    lemma_wrap64_id(a as int);
}

proof fn lemma_stage_roundtrip(x: Seq<i64>, step: int)
    requires
        x.len() == M,
        step == 1 || step == 2 || step == 4,
    ensures
        inverse_stage(forward_stage(x, step), step) == x,
        forward_stage(inverse_stage(x, step), step) == x,
{
    let y = forward_stage(x, step);
    let z = inverse_stage(x, step);
    assert forall|k: int| 0 <= k < M implies inverse_stage(y, step)[k] == x[k]
        && forward_stage(z, step)[k] == x[k] by {
        lemma_partner(k, step);
        if is_low(k, step) {
            lemma_butterfly(x[k], x[k + step]);
        } else {
            lemma_butterfly(x[k - step], x[k]);
        }
    }
    assert(inverse_stage(y, step) =~= x);
    assert(forward_stage(z, step) =~= x);
}

/// The inverse transform undoes the forward transform, and the forward
/// transform undoes the inverse: the lifting transform is a bijection on `[i64; 8]`.
pub proof fn lemma_lifting_roundtrip(x: Seq<i64>)
    requires
        x.len() == M,
    ensures
        lifting_inverse(lifting_forward(x)) == x,
        lifting_forward(lifting_inverse(x)) == x,
{
    let f1 = forward_stage(x, 1);
    let f2 = forward_stage(f1, 2);
    lemma_stage_roundtrip(x, 1);
    lemma_stage_roundtrip(f1, 2);
    lemma_stage_roundtrip(f2, 4);
    let g4 = inverse_stage(x, 4);
    let g2 = inverse_stage(g4, 2);
    lemma_stage_roundtrip(x, 4);
    lemma_stage_roundtrip(g4, 2);
    lemma_stage_roundtrip(g2, 1);
}

/// Halving by an arithmetic shift rounds down.
proof fn lemma_shift_halves(d: i64)
    ensures
        (d >> 1) as int == (d as int) / 2,
{
    assert(((d >> 1) as int) * 2 == d || ((d >> 1) as int) * 2 + 1 == d) by (bit_vector);
    let h = (d >> 1) as int;
    if h * 2 == d {
        lemma_fundamental_div_mod_converse(d as int, 2, h, 0);
    } else {
        lemma_fundamental_div_mod_converse(d as int, 2, h, 1);
    }
}

/// The forward butterfly on `(a, b)`, when `b - a` fits in `i64`, gives the
/// difference `b - a` and the floor of the mean of `a` and `b`, which is `a`
/// plus half the difference rounded down.
pub proof fn lemma_butterfly_values(a: i64, b: i64)
    requires
        i64::MIN <= b - a <= i64::MAX,
    ensures
        lift_d(a, b) == b - a,
        lift_s(a, b) == a + (b - a) / 2,
        lift_s(a, b) == (a + b) / 2,
{
    reveal(lift_d);
    reveal(lift_s);
    lemma_wrapping_sub(b, a);
    lemma_wrap64_id(b - a);
    let d = lift_d(a, b);
    lemma_shift_halves(d);
    lemma_wrapping_add(a, d >> 1);
    lemma_wrap64_id(a + (d as int) / 2);
}

/// The inverse butterfly on `(s, d)`, when its two results fit in `i64`, gives
/// `s` minus half of `d` rounded down, and `d` plus that.
pub proof fn lemma_inverse_butterfly_values(s: i64, d: i64)
    requires
        i64::MIN <= s - (d as int) / 2 <= i64::MAX,
        i64::MIN <= d + s - (d as int) / 2 <= i64::MAX,
    ensures
        unlift_lo(s, d) == s - (d as int) / 2,
        unlift_hi(s, d) == d + s - (d as int) / 2,
{
    reveal(unlift_lo);
    reveal(unlift_hi);
    lemma_shift_halves(d);
    lemma_wrapping_sub(s, d >> 1);
    lemma_wrap64_id(s - (d as int) / 2);
    lemma_wrapping_add(d, unlift_lo(s, d));
    lemma_wrap64_id(d + s - (d as int) / 2);
}

/// The pair at `(k, k + step)` comes out of a forward stage as the floor of the
/// mean of its two values, and their difference.
pub open spec fn pair_becomes_mean_and_difference(x: Seq<i64>, step: int, k: int) -> bool {
    &&& k + step < M
    &&& forward_stage(x, step)[k] == (x[k] + x[k + step]) / 2
    &&& forward_stage(x, step)[k + step] == x[k + step] - x[k]
}

/// Each forward stage replaces a pair `(x[k], x[k + step])` whose difference
/// fits in `i64` by the floor of their mean and their difference.
pub proof fn lemma_forward_stage_values(x: Seq<i64>, step: int)
    requires
        x.len() == M,
        step == 1 || step == 2 || step == 4,
    ensures
        forall|k: int| 0 <= k < M && is_low(k, step) && k + step < M && i64::MIN <= x[k + step] - x[k] <= i64::MAX
            ==> #[trigger] pair_becomes_mean_and_difference(x, step, k),
        forall|k: int| 0 <= k < M && is_low(k, step) ==> k + step < M,
{
    assert forall|k: int| 0 <= k < M && is_low(k, step) implies k + step < M by {
        lemma_partner(k, step);
    }
    assert forall|k: int| 0 <= k < M && is_low(k, step) && k + step < M && i64::MIN <= x[k + step] - x[k] <= i64::MAX
        implies #[trigger] pair_becomes_mean_and_difference(x, step, k) by {
        lemma_partner(k, step);
        lemma_butterfly_values(x[k], x[k + step]);
        assert(k + step - step == k);
    }
}

} // verus!
