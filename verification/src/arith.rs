//! Two's-complement arithmetic on `i64` seen as arithmetic modulo 2^64.
use vstd::prelude::*;
use vstd::arithmetic::div_mod::{
    lemma_add_mod_noop_right, lemma_fundamental_div_mod, lemma_fundamental_div_mod_converse,
    lemma_mod_multiples_vanish, lemma_small_mod,
};
use vstd::wrapping::i64_specs;

verus! {

/// 2^64, the modulus of `i64` arithmetic.
pub open spec fn modulus64() -> int {
    0x1_0000_0000_0000_0000int
}

/// 2^63, the offset that maps `i64` onto `0..2^64`.
pub open spec fn half64() -> int {
    0x8000_0000_0000_0000int
}

/// The `i64` congruent to `x` modulo 2^64.
#[verifier::opaque]
pub open spec fn wrap64(x: int) -> int {
    (x + half64()) % modulus64() - half64()
}

/// A value already in `i64` range is its own representative.
pub proof fn lemma_wrap64_id(x: int)
    requires
        i64::MIN <= x <= i64::MAX,
    ensures
        wrap64(x) == x,
{
    reveal(wrap64);
    lemma_small_mod((x + half64()) as nat, modulus64() as nat);
}

/// Reducing an operand first does not change the representative of a sum.
pub proof fn lemma_wrap64_absorb(x: int, y: int)
    ensures
        wrap64(wrap64(x) + y) == wrap64(x + y),
{
    reveal(wrap64);
    let n = modulus64();
    let h = half64();
    assert(wrap64(x) + y + h == y + (x + h) % n);
    lemma_add_mod_noop_right(y, x + h, n);
    assert(y + (x + h) == x + y + h);
}

/// Reducing the subtracted operand first does not change the representative of a difference.
pub proof fn lemma_wrap64_absorb_sub(x: int, y: int)
    ensures
        wrap64(x - wrap64(y)) == wrap64(x - y),
{
    reveal(wrap64);
    let n = modulus64();
    let h = half64();
    lemma_fundamental_div_mod(y + h, n);
    let t = (y + h) / n;
    assert(x - wrap64(y) + h == n * t + (x - y + h)) by (nonlinear_arith)
        requires
            y + h == n * t + (y + h) % n,
            wrap64(y) == (y + h) % n - h,
    ;
    lemma_mod_multiples_vanish(t, x - y + h, n);
}

/// `wrapping_add` is addition modulo 2^64.
pub proof fn lemma_wrapping_add(a: i64, b: i64)
    ensures
        i64_specs::wrapping_add(a, b) as int == wrap64(a + b),
{
    reveal(wrap64);
    let v = a + b;
    let n = modulus64();
    let h = half64();
    if v > i64::MAX {
        lemma_fundamental_div_mod_converse(v + h, n, 1, v + h - n);
    } else if v < i64::MIN {
        lemma_fundamental_div_mod_converse(v + h, n, -1, v + h + n);
    } else {
        lemma_wrap64_id(v);
    }
}

/// `wrapping_sub` is subtraction modulo 2^64.
pub proof fn lemma_wrapping_sub(a: i64, b: i64)
    ensures
        i64_specs::wrapping_sub(a, b) as int == wrap64(a - b),
{
    reveal(wrap64);
    let v = a - b;
    let n = modulus64();
    let h = half64();
    if v > i64::MAX {
        lemma_fundamental_div_mod_converse(v + h, n, 1, v + h - n);
    } else if v < i64::MIN {
        lemma_fundamental_div_mod_converse(v + h, n, -1, v + h + n);
    } else {
        lemma_wrap64_id(v);
    }
}

} // verus!
