//! The integer lattice state and its reversible symplectic update.
use vstd::prelude::*;
use vstd::arithmetic::div_mod::lemma_fundamental_div_mod_converse;
use vstd::wrapping::i64_specs;
use crate::arith::{
    wrap64, lemma_wrap64_id, lemma_wrap64_absorb, lemma_wrap64_absorb_sub, lemma_wrapping_add,
    lemma_wrapping_sub,
};

verus! {

/// Number of lattice sites.
pub const M: usize = 8;

/// Coupling constant of the symplectic update and of the potential energy.
pub const KAPPA: i64 = 1;

/// Positions `q` and momenta `p` of the eight lattice sites.
#[derive(Clone, Debug, PartialEq, Eq)]
pub struct LatticeState {
    pub q: [i64; M],
    pub p: [i64; M],
}

impl View for LatticeState {
    /// Positions, then momenta.
    type V = (Seq<i64>, Seq<i64>);

    open spec fn view(&self) -> (Seq<i64>, Seq<i64>) {
        (self.q@, self.p@)
    }
}

/// Sum of the squares of the first `n` entries of `s`.
pub open spec fn sum_sq(s: Seq<i64>, n: int) -> int
    decreases n,
{
    if n <= 0 {
        0
    } else {
        sum_sq(s, n - 1) + s[n - 1] * s[n - 1]
    }
}

/// Twice the energy: kinetic part plus `KAPPA` times the potential part.
pub open spec fn double_energy(q: Seq<i64>, p: Seq<i64>) -> int {
    sum_sq(p, M as int) + KAPPA * sum_sq(q, M as int)
}

/// The lattice energy, `(|p|^2 + KAPPA |q|^2) / 2` rounded down.
pub open spec fn energy(q: Seq<i64>, p: Seq<i64>) -> int {
    double_energy(q, p) / 2
}

/// The energy computation stays within `i128`.
pub open spec fn energy_fits(q: Seq<i64>, p: Seq<i64>) -> bool {
    double_energy(q, p) <= i128::MAX
}

pub proof fn lemma_square_bound(x: i64)
    ensures
        0 <= x * x <= 0x4000_0000_0000_0000_0000_0000_0000_0000,
{
    assert(0 <= x * x <= 0x4000_0000_0000_0000_0000_0000_0000_0000) by (nonlinear_arith)
        requires
            -0x8000_0000_0000_0000 <= x <= 0x7fff_ffff_ffff_ffff,
    ;
}

/// Prefix sums of squares only grow.
pub proof fn lemma_sum_sq_mono(s: Seq<i64>, i: int, j: int)
    requires
        0 <= i <= j,
    ensures
        0 <= sum_sq(s, i) <= sum_sq(s, j),
    decreases j,
{
    if j > 0 {
        if i == j {
            lemma_sum_sq_mono(s, j - 1, j - 1);
        } else {
            lemma_sum_sq_mono(s, i, j - 1);
        }
        lemma_square_bound(s[j - 1]);
    }
}

impl LatticeState {
    /// The state at rest: every position and momentum zero.
    pub fn new() -> (s: Self)
        ensures
            forall|i: int| 0 <= i < M ==> s.q[i] == 0 && s.p[i] == 0,
    {
        LatticeState { q: [0; M], p: [0; M] }
    }

    /// The lattice energy `(|p|^2 + KAPPA |q|^2) / 2`, computed exactly in `i128`.
    pub fn compute_energy(&self) -> (e: i128)
        requires
            energy_fits(self.q@, self.p@),
        ensures
            e == energy(self.q@, self.p@),
            e >= 0,
    {
        let mut kinetic: i128 = 0;
        let mut potential: i128 = 0;
        proof {
            lemma_sum_sq_mono(self.p@, 0, M as int);
            lemma_sum_sq_mono(self.q@, 0, M as int);
        }
        for i in 0..M
            invariant
                kinetic == sum_sq(self.p@, i as int),
                potential == sum_sq(self.q@, i as int),
                sum_sq(self.p@, M as int) + sum_sq(self.q@, M as int) <= i128::MAX,
                sum_sq(self.p@, M as int) >= 0,
                sum_sq(self.q@, M as int) >= 0,
        {
            proof {
                lemma_square_bound(self.p[i as int]);
                lemma_square_bound(self.q[i as int]);
                lemma_sum_sq_mono(self.p@, i + 1, M as int);
                lemma_sum_sq_mono(self.q@, i + 1, M as int);
                lemma_sum_sq_mono(self.p@, 0, i as int);
                lemma_sum_sq_mono(self.q@, 0, i as int);
            }
            kinetic += (self.p[i] as i128) * (self.p[i] as i128);
            potential += (self.q[i] as i128) * (self.q[i] as i128);
        }
        (kinetic + (KAPPA as i128) * potential) / 2
    }

    /// The lattice energy when its computation stays within `i128`, else `None`.
    pub fn checked_energy(&self) -> (r: Option<i128>)
        ensures
            r is Some <==> energy_fits(self.q@, self.p@),
            r matches Some(e) ==> e == energy(self.q@, self.p@) && 0 <= e <= i128::MAX / 2,
    {
        let mut kinetic: i128 = 0;
        let mut potential: i128 = 0;
        for i in 0..M
            invariant
                kinetic == sum_sq(self.p@, i as int),
                potential == sum_sq(self.q@, i as int),
        {
            proof {
                lemma_square_bound(self.p[i as int]);
                lemma_square_bound(self.q[i as int]);
                lemma_sum_sq_mono(self.p@, i + 1, M as int);
                lemma_sum_sq_mono(self.q@, i + 1, M as int);
                lemma_sum_sq_mono(self.p@, 0, M as int);
                lemma_sum_sq_mono(self.q@, 0, M as int);
            }
            match kinetic.checked_add((self.p[i] as i128) * (self.p[i] as i128)) {
                Some(v) => kinetic = v,
                None => return None,
            }
            match potential.checked_add((self.q[i] as i128) * (self.q[i] as i128)) {
                Some(v) => potential = v,
                None => return None,
            }
        }
        proof {
            lemma_sum_sq_mono(self.p@, 0, M as int);
            lemma_sum_sq_mono(self.q@, 0, M as int);
        }
        assert(kinetic == sum_sq(self.p@, M as int));
        assert(potential == sum_sq(self.q@, M as int));
        assert((KAPPA as i128) * potential == KAPPA * potential);
        assert(KAPPA * potential == potential) by (nonlinear_arith)
            requires
                KAPPA == 1,
        ;
        match kinetic.checked_add((KAPPA as i128) * potential) {
            Some(v) => Some(v / 2),
            None => None,
        }
    }
}

/// New momentum of one site under the symplectic update.
#[verifier::opaque]
pub open spec fn step_p(q: i64, p: i64) -> i64 {
    i64_specs::wrapping_sub(p, i64_specs::wrapping_mul(KAPPA, q))
}

/// New position of one site under the symplectic update.
#[verifier::opaque]
pub open spec fn step_q(q: i64, p: i64) -> i64 {
    i64_specs::wrapping_add(q, step_p(q, p))
}

/// Position of one site before the symplectic update that led to `(q, p)`.
#[verifier::opaque]
pub open spec fn unstep_q(q: i64, p: i64) -> i64 {
    i64_specs::wrapping_sub(q, p)
}

/// Momentum of one site before the symplectic update that led to `(q, p)`.
#[verifier::opaque]
pub open spec fn unstep_p(q: i64, p: i64) -> i64 {
    i64_specs::wrapping_add(p, i64_specs::wrapping_mul(KAPPA, unstep_q(q, p)))
}

/// One symplectic update of all sites, in two's-complement arithmetic.
pub open spec fn symplectic_map(v: (Seq<i64>, Seq<i64>)) -> (Seq<i64>, Seq<i64>) {
    (
        Seq::new(v.0.len(), |i: int| step_q(v.0[i], v.1[i])),
        Seq::new(v.0.len(), |i: int| step_p(v.0[i], v.1[i])),
    )
}

/// The inverse update of all sites.
pub open spec fn inverse_symplectic_map(v: (Seq<i64>, Seq<i64>)) -> (Seq<i64>, Seq<i64>) {
    (
        Seq::new(v.0.len(), |i: int| unstep_q(v.0[i], v.1[i])),
        Seq::new(v.0.len(), |i: int| unstep_p(v.0[i], v.1[i])),
    )
}

/// `n` successive symplectic updates.
pub open spec fn symplectic_steps(v: (Seq<i64>, Seq<i64>), n: nat) -> (Seq<i64>, Seq<i64>)
    decreases n,
{
    if n == 0 {
        v
    } else {
        symplectic_map(symplectic_steps(v, (n - 1) as nat))
    }
}

/// `n` successive inverse updates.
pub open spec fn inverse_symplectic_steps(v: (Seq<i64>, Seq<i64>), n: nat) -> (Seq<i64>, Seq<i64>)
    decreases n,
{
    if n == 0 {
        v
    } else {
        inverse_symplectic_steps(inverse_symplectic_map(v), (n - 1) as nat)
    }
}

/// Advances every site by one symplectic (leapfrog) update on the ring of `i64`.
pub fn symplectic_step(state: &mut LatticeState)
    ensures
        final(state)@ == symplectic_map(old(state)@),
        final(state).q@ == old(state).p@,
        forall|i: int| 0 <= i < M ==> #[trigger] final(state).p[i] as int == wrap64(old(state).p[i] - old(state).q[i]),
{
    let ghost q0 = state.q@;
    let ghost p0 = state.p@;
    for i in 0..M
        invariant
            q0.len() == M,
            p0.len() == M,
            forall|j: int| 0 <= j < i ==> state.p[j] == step_p(q0[j], p0[j]) && state.q[j] == step_q(q0[j], p0[j]),
            forall|j: int| i <= j < M ==> state.p[j] == p0[j] && state.q[j] == q0[j],
    {
        proof {
            reveal(step_p);
            reveal(step_q);
        }
        state.p[i] = state.p[i].wrapping_sub(KAPPA.wrapping_mul(state.q[i]));
        state.q[i] = state.q[i].wrapping_add(state.p[i]);
    }
    assert(state.q@ =~= symplectic_map((q0, p0)).0);
    assert(state.p@ =~= symplectic_map((q0, p0)).1);
    proof {
        lemma_symplectic_closed_form((q0, p0));
    }
}

/// Undoes one symplectic update of every site.
pub fn inverse_symplectic_step(state: &mut LatticeState)
    ensures
        final(state)@ == inverse_symplectic_map(old(state)@),
        final(state).p@ == old(state).q@,
        forall|i: int| 0 <= i < M ==> #[trigger] final(state).q[i] as int == wrap64(old(state).q[i] - old(state).p[i]),
{
    let ghost q0 = state.q@;
    let ghost p0 = state.p@;
    for i in 0..M
        invariant
            q0.len() == M,
            p0.len() == M,
            forall|j: int| 0 <= j < i ==> state.p[j] == unstep_p(q0[j], p0[j]) && state.q[j] == unstep_q(q0[j], p0[j]),
            forall|j: int| i <= j < M ==> state.p[j] == p0[j] && state.q[j] == q0[j],
    {
        proof {
            reveal(unstep_p);
            reveal(unstep_q);
        }
        state.q[i] = state.q[i].wrapping_sub(state.p[i]);
        state.p[i] = state.p[i].wrapping_add(KAPPA.wrapping_mul(state.q[i]));
    }
    assert(state.q@ =~= inverse_symplectic_map((q0, p0)).0);
    assert(state.p@ =~= inverse_symplectic_map((q0, p0)).1);
    proof {
        lemma_symplectic_closed_form((q0, p0));
    }
}

/// Multiplying by `KAPPA` (which is 1) leaves a value unchanged.
pub proof fn lemma_kappa_mul(x: i64)
    ensures
        i64_specs::wrapping_mul(KAPPA, x) == x,
{
    let n = 0x1_0000_0000_0000_0000int;
    if x >= 0 {
        lemma_fundamental_div_mod_converse(x as int, n, 0, x as int);
    } else {
        lemma_fundamental_div_mod_converse(x as int, n, -1, x + n);
    }
}

proof fn lemma_site_roundtrip(q: i64, p: i64)
    ensures
        unstep_q(step_q(q, p), step_p(q, p)) == q,
        unstep_p(step_q(q, p), step_p(q, p)) == p,
        step_q(unstep_q(q, p), unstep_p(q, p)) == q,
        step_p(unstep_q(q, p), unstep_p(q, p)) == p,
{
    reveal(step_p);
    reveal(step_q);
    reveal(unstep_p);
    reveal(unstep_q);
    lemma_kappa_mul(q);
    let p1 = step_p(q, p);
    lemma_wrapping_sub(p, q);
    lemma_wrapping_add(q, p1);
    let q1 = step_q(q, p);
    lemma_wrapping_sub(q1, p1);
    lemma_wrap64_absorb(q + p1, -p1 as int);
    lemma_wrap64_id(q as int);
    lemma_kappa_mul(unstep_q(q1, p1));
    lemma_wrapping_add(p1, q);
    lemma_wrap64_absorb(p - q, q as int);
    lemma_wrap64_id(p as int);

    let q2 = unstep_q(q, p);
    lemma_wrapping_sub(q, p);
    lemma_kappa_mul(q2);
    let p2 = unstep_p(q, p);
    lemma_wrapping_add(p, q2);
    lemma_wrap64_absorb(q - p, p as int);
    lemma_wrapping_sub(p2, q2);
    lemma_wrap64_absorb(p + q2, -q2 as int);
    lemma_wrapping_add(q2, p);
    lemma_wrap64_absorb(q - p, p as int);
}

/// The inverse update undoes the update, and the update undoes the inverse update.
pub proof fn lemma_symplectic_roundtrip(v: (Seq<i64>, Seq<i64>))
    requires
        v.0.len() == v.1.len(),
    ensures
        inverse_symplectic_map(symplectic_map(v)) == v,
        symplectic_map(inverse_symplectic_map(v)) == v,
{
    assert forall|i: int| 0 <= i < v.0.len() implies
        unstep_q(step_q(v.0[i], v.1[i]), step_p(v.0[i], v.1[i])) == v.0[i]
        && unstep_p(step_q(v.0[i], v.1[i]), step_p(v.0[i], v.1[i])) == v.1[i]
        && step_q(unstep_q(v.0[i], v.1[i]), unstep_p(v.0[i], v.1[i])) == v.0[i]
        && step_p(unstep_q(v.0[i], v.1[i]), unstep_p(v.0[i], v.1[i])) == v.1[i] by {
        lemma_site_roundtrip(v.0[i], v.1[i]);
    }
    assert(inverse_symplectic_map(symplectic_map(v)).0 =~= v.0);
    assert(inverse_symplectic_map(symplectic_map(v)).1 =~= v.1);
    assert(symplectic_map(inverse_symplectic_map(v)).0 =~= v.0);
    assert(symplectic_map(inverse_symplectic_map(v)).1 =~= v.1);
}

/// Undoing `n` updates with `n` inverse updates restores the state.
pub proof fn lemma_symplectic_steps_reversible(v: (Seq<i64>, Seq<i64>), n: nat)
    requires
        v.0.len() == v.1.len(),
    ensures
        inverse_symplectic_steps(symplectic_steps(v, n), n) == v,
        symplectic_steps(v, n).0.len() == v.0.len(),
        symplectic_steps(v, n).1.len() == v.0.len(),
    decreases n,
{
    if n > 0 {
        lemma_symplectic_steps_reversible(v, (n - 1) as nat);
        let w = symplectic_steps(v, (n - 1) as nat);
        lemma_symplectic_roundtrip(w);
    }
}

/// One update sends a site `(q, p)` to `(p, p - q)`, the difference taken modulo 2^64.
pub proof fn lemma_site_step(q: i64, p: i64)
    ensures
        step_q(q, p) == p,
        step_p(q, p) as int == wrap64(p - q),
{
    reveal(step_p);
    reveal(step_q);
    lemma_kappa_mul(q);
    lemma_wrapping_sub(p, q);
    lemma_wrapping_add(q, step_p(q, p));
    lemma_wrap64_absorb(p - q, q as int);
    lemma_wrap64_id(p as int);
}

/// `k` updates of a single site.
pub open spec fn site_steps(q: i64, p: i64, k: nat) -> (i64, i64)
    decreases k,
{
    if k == 0 {
        (q, p)
    } else {
        let (q1, p1) = site_steps(q, p, (k - 1) as nat);
        (step_q(q1, p1), step_p(q1, p1))
    }
}

proof fn lemma_steps_by_site(v: (Seq<i64>, Seq<i64>), k: nat)
    requires
        v.0.len() == v.1.len(),
    ensures
        symplectic_steps(v, k).0.len() == v.0.len(),
        symplectic_steps(v, k).1.len() == v.0.len(),
        forall|i: int| 0 <= i < v.0.len() ==>
            (#[trigger] symplectic_steps(v, k).0[i], symplectic_steps(v, k).1[i]) == site_steps(v.0[i], v.1[i], k),
    decreases k,
{
    if k > 0 {
        lemma_steps_by_site(v, (k - 1) as nat);
    }
}

proof fn lemma_site_period_six(q: i64, p: i64)
    ensures
        site_steps(q, p, 6) == (q, p),
{
    let s0 = site_steps(q, p, 0);
    let s1 = site_steps(q, p, 1);
    let s2 = site_steps(q, p, 2);
    let s3 = site_steps(q, p, 3);
    let s4 = site_steps(q, p, 4);
    let s5 = site_steps(q, p, 5);
    let s6 = site_steps(q, p, 6);
    assert(s0 == (q, p));
    assert(s1.0 == p && s1.1 == wrap64(p - q)) by {
        lemma_site_step(q, p);
    }
    assert(s2.0 == wrap64(p - q) && s2.1 == wrap64(-q)) by {
        lemma_site_step(s1.0, s1.1);
        lemma_wrap64_absorb(p - q, -p);
    }
    assert(s3.0 == wrap64(-q) && s3.1 == wrap64(-p)) by {
        lemma_site_step(s2.0, s2.1);
        lemma_wrap64_absorb(-q, -s2.0);
        lemma_wrap64_absorb_sub(-q, p - q);
    }
    assert(s4.0 == wrap64(-p) && s4.1 == wrap64(q - p)) by {
        lemma_site_step(s3.0, s3.1);
        lemma_wrap64_absorb(-p, -s3.0);
        lemma_wrap64_absorb_sub(-p, -q);
    }
    assert(s5.0 == wrap64(q - p) && s5.1 == q) by {
        lemma_site_step(s4.0, s4.1);
        lemma_wrap64_absorb(q - p, -s4.0);
        lemma_wrap64_absorb_sub(q - p, -p);
        lemma_wrap64_id(q as int);
    }
    assert(s6.0 == q && s6.1 == p) by {
        lemma_site_step(s5.0, s5.1);
        lemma_wrap64_absorb_sub(q as int, q - p);
        lemma_wrap64_id(p as int);
    }
}

/// Six updates bring every site back to where it started: the orbit of the
/// update is periodic, so the energy along it takes at most six values.
pub proof fn lemma_symplectic_period_six(v: (Seq<i64>, Seq<i64>))
    requires
        v.0.len() == v.1.len(),
    ensures
        symplectic_steps(v, 6) == v,
{
    lemma_steps_by_site(v, 6);
    let s6 = symplectic_steps(v, 6);
    assert forall|i: int| 0 <= i < v.0.len() implies s6.0[i] == v.0[i] && s6.1[i] == v.1[i] by {
        lemma_site_period_six(v.0[i], v.1[i]);
    }
    assert(s6.0 =~= v.0);
    assert(s6.1 =~= v.1);
}

/// One inverse update sends a site `(q, p)` to `(q - p, q)`, the difference taken modulo 2^64.
pub proof fn lemma_site_unstep(q: i64, p: i64)
    ensures
        unstep_q(q, p) as int == wrap64(q - p),
        unstep_p(q, p) == q,
{
    reveal(unstep_q);
    reveal(unstep_p);
    lemma_wrapping_sub(q, p);
    lemma_kappa_mul(unstep_q(q, p));
    lemma_wrapping_add(p, unstep_q(q, p));
    lemma_wrap64_absorb(q - p, p as int);
    lemma_wrap64_id(q as int);
}

/// The update in closed form: positions become the momenta, and momenta become
/// momenta minus positions, modulo 2^64. The inverse update sends positions to
/// positions minus momenta and momenta to the positions.
pub proof fn lemma_symplectic_closed_form(v: (Seq<i64>, Seq<i64>))
    requires
        v.0.len() == v.1.len(),
    ensures
        symplectic_map(v).0 == v.1,
        forall|i: int| 0 <= i < v.0.len() ==> #[trigger] symplectic_map(v).1[i] as int == wrap64(v.1[i] - v.0[i]),
        forall|i: int| 0 <= i < v.0.len() ==> #[trigger] inverse_symplectic_map(v).0[i] as int == wrap64(v.0[i] - v.1[i]),
        inverse_symplectic_map(v).1 == v.0,
{
    assert forall|i: int| 0 <= i < v.0.len() implies
        step_q(v.0[i], v.1[i]) == v.1[i] && step_p(v.0[i], v.1[i]) as int == wrap64(v.1[i] - v.0[i])
        && unstep_q(v.0[i], v.1[i]) as int == wrap64(v.0[i] - v.1[i]) && unstep_p(v.0[i], v.1[i]) == v.0[i] by {
        lemma_site_step(v.0[i], v.1[i]);
        lemma_site_unstep(v.0[i], v.1[i]);
    }
    assert(symplectic_map(v).0 =~= v.1);
    assert(inverse_symplectic_map(v).1 =~= v.0);
}

} // verus!
