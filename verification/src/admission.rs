//! Two-pass admission of momentum transactions into the lattice.
use vstd::prelude::*;
use vstd::wrapping::i64_specs;
use crate::arith::{wrap64, lemma_wrap64_id, lemma_wrap64_absorb, lemma_wrapping_sub};
use crate::lattice::{M, LatticeState, sum_sq, energy, energy_fits, lemma_sum_sq_mono, lemma_square_bound};
use crate::ordering::{
    keyed_before, pair_before, pairs_sorted, pairs_distinct, sort_pairs, is_visit_order, visit_order,
    lemma_visit_order_unique,
};

verus! {

broadcast use vstd::seq_lib::group_seq_properties;

/// Ceiling on the projected lattice energy for a transaction admitted in pass 2.
pub const E_MAX: i128 = 2_000_000_000;

/// Ceiling on the magnitude of every site momentum for a transaction admitted in pass 2.
pub const P_SITE_MAX: i64 = 30_000;

/// A proposed change `delta_p` of the site momenta, with the utility it brings.
#[derive(Clone, Debug)]
pub struct Transaction {
    pub delta_p: [i64; M],
    pub utility: u64,
}

/// Why a transaction was rejected.
#[derive(Clone, Debug, PartialEq, Eq)]
pub enum RejectionCause {
    Pass1MonotonicityFlip { q_k: i128 },
    GlobalHeadroomExceeded { projected_energy: i128, e_max: i128 },
    LocalSiteBoundExceeded { site: usize, projected_pi: i64, limit: i64 },
    DualGlobalAndLocal { projected_energy: i128, site: usize, projected_pi: i64 },
}

/// A rejected transaction, its position in the batch, and the reason.
#[derive(Clone, Debug)]
pub struct RejectedRecord {
    pub original_idx: usize,
    pub cause: RejectionCause,
    pub delta_p: [i64; M],
    pub utility: u64,
}

/// The outcome of a batch: admitted positions in admission order, the summed
/// momentum of the rejected transactions, and one record per rejection.
pub struct AdmissionResult {
    pub admitted_indices: Vec<usize>,
    pub p_rej: [i64; M],
    pub rejections: Vec<RejectedRecord>,
}

/// Inner product of the first `n` entries of `p` and `d`.
pub open spec fn dot(p: Seq<i64>, d: Seq<i64>, n: int) -> int
    decreases n,
{
    if n <= 0 {
        0
    } else {
        dot(p, d, n - 1) + p[n - 1] * d[n - 1]
    }
}

/// `2 <p, d> + |d|^2`: how much `|p|^2` grows when `d` is added to `p`.
pub open spec fn q_metric(p: Seq<i64>, d: Seq<i64>) -> int {
    2 * dot(p, d, M as int) + sum_sq(d, M as int)
}

/// Every intermediate of the `q_metric` computation stays within `i128`.
pub open spec fn q_metric_fits(p: Seq<i64>, d: Seq<i64>) -> bool {
    &&& forall|n: int| 0 <= n <= M ==> i128::MIN <= #[trigger] dot(p, d, n) <= i128::MAX
    &&& sum_sq(d, M as int) <= i128::MAX
    &&& i128::MIN <= 2 * dot(p, d, M as int) <= i128::MAX
    &&& i128::MIN <= q_metric(p, d) <= i128::MAX
}

proof fn lemma_product_bound(a: i64, b: i64)
    ensures
        -0x4000_0000_0000_0000_0000_0000_0000_0000 <= a * b <= 0x4000_0000_0000_0000_0000_0000_0000_0000,
{
    assert(-0x4000_0000_0000_0000_0000_0000_0000_0000 <= a * b <= 0x4000_0000_0000_0000_0000_0000_0000_0000)
        by (nonlinear_arith)
        requires
            -0x8000_0000_0000_0000 <= a <= 0x7fff_ffff_ffff_ffff,
            -0x8000_0000_0000_0000 <= b <= 0x7fff_ffff_ffff_ffff,
    ;
}

/// The admission metric `2 <p, delta_p> + |delta_p|^2`, computed exactly in `i128`.
pub fn compute_q_metric(p: &[i64; M], delta_p: &[i64; M]) -> (r: i128)
    requires
        q_metric_fits(p@, delta_p@),
    ensures
        r == q_metric(p@, delta_p@),
{
    let mut inner: i128 = 0;
    let mut norm_sq: i128 = 0;
    proof {
        lemma_sum_sq_mono(delta_p@, 0, M as int);
    }
    for i in 0..M
        invariant
            q_metric_fits(p@, delta_p@),
            inner == dot(p@, delta_p@, i as int),
            norm_sq == sum_sq(delta_p@, i as int),
    {
        proof {
            lemma_product_bound(p[i as int], delta_p[i as int]);
            lemma_square_bound(delta_p[i as int]);
            lemma_sum_sq_mono(delta_p@, i + 1, M as int);
            assert(i128::MIN <= dot(p@, delta_p@, i + 1) <= i128::MAX);
        }
        inner += (p[i] as i128) * (delta_p[i] as i128);
        norm_sq += (delta_p[i] as i128) * (delta_p[i] as i128);
    }
    2 * inner + norm_sq
}

/// The admission metric when its computation stays within `i128`, else `None`.
pub fn checked_q_metric(p: &[i64; M], delta_p: &[i64; M]) -> (r: Option<i128>)
    ensures
        r is Some <==> q_metric_fits(p@, delta_p@),
        r matches Some(v) ==> v == q_metric(p@, delta_p@),
{
    let mut inner: i128 = 0;
    let mut norm_sq: i128 = 0;
    for i in 0..M
        invariant
            inner == dot(p@, delta_p@, i as int),
            norm_sq == sum_sq(delta_p@, i as int),
            forall|n: int| 0 <= n <= i ==> i128::MIN <= #[trigger] dot(p@, delta_p@, n) <= i128::MAX,
    {
        proof {
            lemma_product_bound(p[i as int], delta_p[i as int]);
            lemma_square_bound(delta_p[i as int]);
            lemma_sum_sq_mono(delta_p@, i + 1, M as int);
        }
        match inner.checked_add((p[i] as i128) * (delta_p[i] as i128)) {
            Some(v) => inner = v,
            None => {
                assert(!(i128::MIN <= dot(p@, delta_p@, i + 1) <= i128::MAX));
                return None;
            },
        }
        match norm_sq.checked_add((delta_p[i] as i128) * (delta_p[i] as i128)) {
            Some(v) => norm_sq = v,
            None => return None,
        }
    }
    match inner.checked_mul(2) {
        Some(twice) => twice.checked_add(norm_sq),
        None => None,
    }
}

/// Site-wise two's-complement sum of `a` and `d`.
pub open spec fn add_wrap(a: Seq<i64>, d: Seq<i64>) -> Seq<i64> {
    Seq::new(a.len(), |i: int| i64_specs::wrapping_add(a[i], d[i]))
}

/// Magnitude of an integer.
pub open spec fn magnitude(x: int) -> int {
    if x < 0 {
        -x
    } else {
        x
    }
}

/// Half of `x`, rounded toward zero (Rust's integer division by 2).
pub open spec fn half_toward_zero(x: int) -> int {
    if x >= 0 {
        x / 2
    } else {
        -((-x) / 2)
    }
}

/// The first site at or after `from` whose projected momentum exceeds
/// `P_SITE_MAX` in magnitude, with that momentum.
pub open spec fn site_failure(next_p: Seq<i64>, from: int) -> Option<(usize, i64)>
    decreases M - from,
{
    if from >= M || from < 0 {
        None
    } else if magnitude(next_p[from] as int) > P_SITE_MAX {
        Some((from as usize, next_p[from]))
    } else {
        site_failure(next_p, from + 1)
    }
}

/// Progress of a batch: current momenta, rejected momentum, admitted positions
/// and rejection records.
pub struct AdmissionModel {
    pub p: Seq<i64>,
    pub p_rej: Seq<i64>,
    pub admitted: Seq<usize>,
    pub rejections: Seq<RejectedRecord>,
}

/// The record of a rejected transaction.
pub open spec fn rejected(batch: Seq<Transaction>, k: usize, cause: RejectionCause) -> RejectedRecord {
    RejectedRecord {
        original_idx: k,
        cause: cause,
        delta_p: batch[k as int].delta_p,
        utility: batch[k as int].utility,
    }
}

/// Admits `delta_p` of transaction `k`: the momenta move, `k` is recorded.
pub open spec fn accept(m: AdmissionModel, batch: Seq<Transaction>, k: usize) -> AdmissionModel {
    AdmissionModel {
        p: add_wrap(m.p, batch[k as int].delta_p@),
        p_rej: m.p_rej,
        admitted: m.admitted.push(k),
        rejections: m.rejections,
    }
}

/// Rejects transaction `k`: its momentum goes to the rejection buffer.
pub open spec fn reject(m: AdmissionModel, batch: Seq<Transaction>, k: usize, cause: RejectionCause) -> AdmissionModel {
    AdmissionModel {
        p: m.p,
        p_rej: add_wrap(m.p_rej, batch[k as int].delta_p@),
        admitted: m.admitted,
        rejections: m.rejections.push(rejected(batch, k, cause)),
    }
}

/// Pass 1 (strict contraction): accept exactly when `|p|^2` does not grow.
pub open spec fn pass1_step(m: AdmissionModel, batch: Seq<Transaction>, k: usize) -> AdmissionModel {
    let q_k = q_metric(m.p, batch[k as int].delta_p@);
    if q_k <= 0 {
        accept(m, batch, k)
    } else {
        reject(m, batch, k, RejectionCause::Pass1MonotonicityFlip { q_k: q_k as i128 })
    }
}

/// Energy projected for admitting transaction `k` at momenta `m.p`.
pub open spec fn projected_energy(m: AdmissionModel, q: Seq<i64>, batch: Seq<Transaction>, k: usize) -> int {
    energy(q, m.p) + half_toward_zero(q_metric(m.p, batch[k as int].delta_p@))
}

/// The cause of a pass-2 rejection from the two gate outcomes.
pub open spec fn pass2_cause(projected: int, failure: Option<(usize, i64)>) -> RejectionCause {
    match failure {
        None => RejectionCause::GlobalHeadroomExceeded { projected_energy: projected as i128, e_max: E_MAX },
        Some((site, pi)) => if projected <= E_MAX {
            RejectionCause::LocalSiteBoundExceeded { site: site, projected_pi: pi, limit: P_SITE_MAX }
        } else {
            RejectionCause::DualGlobalAndLocal { projected_energy: projected as i128, site: site, projected_pi: pi }
        },
    }
}

/// Pass 2 (dual gate): accept exactly when the projected energy is at most
/// `E_MAX` and every projected site momentum is at most `P_SITE_MAX` in magnitude.
pub open spec fn pass2_step(m: AdmissionModel, q: Seq<i64>, batch: Seq<Transaction>, k: usize) -> AdmissionModel {
    let projected = projected_energy(m, q, batch, k);
    let failure = site_failure(add_wrap(m.p, batch[k as int].delta_p@), 0);
    if projected <= E_MAX && failure is None {
        accept(m, batch, k)
    } else {
        reject(m, batch, k, pass2_cause(projected, failure))
    }
}

/// A pass-1 step stays within machine arithmetic.
pub open spec fn pass1_step_fits(m: AdmissionModel, batch: Seq<Transaction>, k: usize) -> bool {
    q_metric_fits(m.p, batch[k as int].delta_p@)
}

/// A pass-2 step stays within machine arithmetic: the energy and the metric fit
/// in `i128`, and no projected momentum that is examined is `i64::MIN`.
pub open spec fn pass2_step_fits(m: AdmissionModel, q: Seq<i64>, batch: Seq<Transaction>, k: usize) -> bool {
    &&& q_metric_fits(m.p, batch[k as int].delta_p@)
    &&& energy_fits(q, m.p)
    &&& match site_failure(add_wrap(m.p, batch[k as int].delta_p@), 0) {
        Some((_, pi)) => pi != i64::MIN,
        None => true,
    }
}

/// Pass 1 applied to the transactions in `order`.
pub open spec fn run_pass1(m: AdmissionModel, batch: Seq<Transaction>, order: Seq<usize>) -> AdmissionModel
    decreases order.len(),
{
    if order.len() == 0 {
        m
    } else {
        pass1_step(run_pass1(m, batch, order.drop_last()), batch, order.last())
    }
}

/// Pass 2 applied to the transactions in `order`.
pub open spec fn run_pass2(m: AdmissionModel, q: Seq<i64>, batch: Seq<Transaction>, order: Seq<usize>) -> AdmissionModel
    decreases order.len(),
{
    if order.len() == 0 {
        m
    } else {
        pass2_step(run_pass2(m, q, batch, order.drop_last()), q, batch, order.last())
    }
}

/// Every step of pass 1 over `order` stays within machine arithmetic.
pub open spec fn pass1_fits(m: AdmissionModel, batch: Seq<Transaction>, order: Seq<usize>) -> bool
    decreases order.len(),
{
    if order.len() == 0 {
        true
    } else {
        pass1_fits(m, batch, order.drop_last())
            && pass1_step_fits(run_pass1(m, batch, order.drop_last()), batch, order.last())
    }
}

/// Every step of pass 2 over `order` stays within machine arithmetic.
pub open spec fn pass2_fits(m: AdmissionModel, q: Seq<i64>, batch: Seq<Transaction>, order: Seq<usize>) -> bool
    decreases order.len(),
{
    if order.len() == 0 {
        true
    } else {
        pass2_fits(m, q, batch, order.drop_last())
            && pass2_step_fits(run_pass2(m, q, batch, order.drop_last()), q, batch, order.last())
    }
}

/// The metric of transaction `k` against the momenta before the batch.
pub open spec fn initial_q(p0: Seq<i64>, batch: Seq<Transaction>, k: int) -> int {
    q_metric(p0, batch[k].delta_p@)
}

/// Pass-2 priority of transaction `k`: `utility * 1024 / q`, rounded down.
pub open spec fn priority(p0: Seq<i64>, batch: Seq<Transaction>, k: int) -> int {
    let q0 = initial_q(p0, batch, k);
    if q0 > 0 {
        (batch[k].utility * 1024) / q0
    } else {
        0
    }
}

/// Pass-1 sort keys: the metric, smallest first.
pub open spec fn pass1_keys(p0: Seq<i64>, batch: Seq<Transaction>) -> Seq<int> {
    Seq::new(batch.len(), |k: int| initial_q(p0, batch, k))
}

/// Pass-1 members: transactions that do not grow `|p|^2` at the start of the batch.
pub open spec fn pass1_members(p0: Seq<i64>, batch: Seq<Transaction>) -> Seq<bool> {
    Seq::new(batch.len(), |k: int| initial_q(p0, batch, k) <= 0)
}

/// Pass-2 sort keys: the negated priority, so the highest priority comes first.
pub open spec fn pass2_keys(p0: Seq<i64>, batch: Seq<Transaction>) -> Seq<int> {
    Seq::new(batch.len(), |k: int| -priority(p0, batch, k))
}

/// Pass-2 members: all other transactions.
pub open spec fn pass2_members(p0: Seq<i64>, batch: Seq<Transaction>) -> Seq<bool> {
    Seq::new(batch.len(), |k: int| initial_q(p0, batch, k) > 0)
}

/// Order of pass 1: ascending metric, ties in batch order.
pub open spec fn pass1_order(p0: Seq<i64>, batch: Seq<Transaction>) -> Seq<usize> {
    visit_order(pass1_keys(p0, batch), pass1_members(p0, batch))
}

/// Order of pass 2: descending priority, ties in batch order.
pub open spec fn pass2_order(p0: Seq<i64>, batch: Seq<Transaction>) -> Seq<usize> {
    visit_order(pass2_keys(p0, batch), pass2_members(p0, batch))
}

/// State before the batch: no transaction seen, empty rejection buffer.
pub open spec fn admission_start(p0: Seq<i64>) -> AdmissionModel {
    AdmissionModel {
        p: p0,
        p_rej: Seq::new(M as nat, |i: int| 0i64),
        admitted: Seq::empty(),
        rejections: Seq::empty(),
    }
}

/// The batch after pass 1, from the state `s = (q, p)`.
pub open spec fn after_pass1(s: (Seq<i64>, Seq<i64>), batch: Seq<Transaction>) -> AdmissionModel {
    run_pass1(admission_start(s.1), batch, pass1_order(s.1, batch))
}

/// The batch after both passes, from the state `s = (q, p)`.
pub open spec fn admission_outcome(s: (Seq<i64>, Seq<i64>), batch: Seq<Transaction>) -> AdmissionModel {
    run_pass2(after_pass1(s, batch), s.0, batch, pass2_order(s.1, batch))
}

/// The whole batch stays within machine arithmetic from state `s = (q, p)`.
pub open spec fn admission_fits(s: (Seq<i64>, Seq<i64>), batch: Seq<Transaction>) -> bool {
    &&& forall|k: int| 0 <= k < batch.len() ==> q_metric_fits(s.1, #[trigger] batch[k].delta_p@)
    &&& pass1_fits(admission_start(s.1), batch, pass1_order(s.1, batch))
    &&& pass2_fits(after_pass1(s, batch), s.0, batch, pass2_order(s.1, batch))
}

/// Adds `d` to `a` site by site, in two's-complement arithmetic.
fn add_wrapping_in_place(a: &mut [i64; M], d: &[i64; M])
    ensures
        final(a)@ == add_wrap(old(a)@, d@),
{
    let ghost a0 = a@;
    for i in 0..M
        invariant
            a0.len() == M,
            forall|j: int| 0 <= j < i ==> a[j] == i64_specs::wrapping_add(a0[j], d[j]),
            forall|j: int| i <= j < M ==> a[j] == a0[j],
    {
        a[i] = a[i].wrapping_add(d[i]);
    }
    assert(a@ =~= add_wrap(a0, d@));
}

/// The first site whose momentum after adding `d` to `p` exceeds `P_SITE_MAX`
/// in magnitude, with that momentum.
fn find_site_failure(p: &[i64; M], d: &[i64; M]) -> (r: Option<(usize, i64)>)
    ensures
        r == site_failure(add_wrap(p@, d@), 0),
{
    let ghost next_p = add_wrap(p@, d@);
    let mut i: usize = 0;
    while i < M
        invariant
            i <= M,
            next_p == add_wrap(p@, d@),
            site_failure(next_p, 0) == site_failure(next_p, i as int),
        decreases M - i,
    {
        let next_pi = p[i].wrapping_add(d[i]);
        if next_pi < -P_SITE_MAX || next_pi > P_SITE_MAX {
            return Some((i, next_pi));
        }
        i = i + 1;
    }
    None
}

proof fn lemma_pass1_fits_prefix(m: AdmissionModel, batch: Seq<Transaction>, order: Seq<usize>, t: int)
    requires
        pass1_fits(m, batch, order),
        0 <= t <= order.len(),
    ensures
        pass1_fits(m, batch, order.take(t)),
    decreases order.len() - t,
{
    if t == order.len() {
        assert(order.take(t) =~= order);
    } else {
        lemma_pass1_fits_prefix(m, batch, order.drop_last(), t);
        assert(order.drop_last().take(t) =~= order.take(t));
    }
}

proof fn lemma_pass2_fits_prefix(m: AdmissionModel, q: Seq<i64>, batch: Seq<Transaction>, order: Seq<usize>, t: int)
    requires
        pass2_fits(m, q, batch, order),
        0 <= t <= order.len(),
    ensures
        pass2_fits(m, q, batch, order.take(t)),
    decreases order.len() - t,
{
    if t == order.len() {
        assert(order.take(t) =~= order);
    } else {
        lemma_pass2_fits_prefix(m, q, batch, order.drop_last(), t);
        assert(order.drop_last().take(t) =~= order.take(t));
    }
}

/// `c` lists, in increasing position, the pair `(key, k)` of every member `k`
/// below `upto`, and nothing else.
pub open spec fn lists_members(c: Seq<(i128, usize)>, keys: Seq<int>, members: Seq<bool>, upto: int) -> bool {
    &&& forall|t: int| 0 <= t < c.len() ==> (#[trigger] c[t]).1 < upto && c[t].1 < members.len()
        && members[c[t].1 as int] && c[t].0 == keys[c[t].1 as int]
    &&& forall|k: int| 0 <= k < upto && #[trigger] members[k] ==> c.contains((keys[k] as i128, k as usize))
    &&& forall|t: int, u: int| 0 <= t < u < c.len() ==> (#[trigger] c[t]).1 < (#[trigger] c[u]).1
}

/// The positions of a sequence of pairs.
pub open spec fn positions(s: Seq<(i128, usize)>) -> Seq<usize> {
    s.map_values(|e: (i128, usize)| e.1)
}

proof fn lemma_sorted_members_give_order(
    sorted: Seq<(i128, usize)>,
    c: Seq<(i128, usize)>,
    keys: Seq<int>,
    members: Seq<bool>,
)
    requires
        keys.len() == members.len(),
        members.len() <= usize::MAX,
        lists_members(c, keys, members, members.len() as int),
        pairs_sorted(sorted),
        forall|x: (i128, usize)| sorted.contains(x) <==> c.contains(x),
    ensures
        positions(sorted) == visit_order(keys, members),
        is_visit_order(positions(sorted), keys, members),
{
    let o = positions(sorted);
    assert forall|i: int| 0 <= i < o.len() implies (#[trigger] o[i] as int) < members.len() && members[o[i] as int]
        && sorted[i].0 == keys[o[i] as int] by {
        assert(sorted.contains(sorted[i]));
        let t = choose|t: int| 0 <= t < c.len() && c[t] == sorted[i];
        assert(c[t].1 < members.len());
    }
    assert forall|k: int| 0 <= k < members.len() && #[trigger] members[k] implies o.contains(k as usize) by {
        assert(c.contains((keys[k] as i128, k as usize)));
        assert(sorted.contains((keys[k] as i128, k as usize)));
        let i = choose|i: int| 0 <= i < sorted.len() && sorted[i] == (keys[k] as i128, k as usize);
        assert(o[i] == k as usize);
    }
    assert forall|i: int, j: int| 0 <= i < j < o.len() implies
        keyed_before(keys[#[trigger] o[i] as int], o[i] as int, keys[#[trigger] o[j] as int], o[j] as int) by {
        assert(pair_before(sorted[i], sorted[j]));
        assert(sorted.contains(sorted[i]));
        assert(sorted.contains(sorted[j]));
    }
    assert(is_visit_order(o, keys, members));
    lemma_visit_order_unique(o, visit_order(keys, members), keys, members);
}

proof fn lemma_members_distinct(c: Seq<(i128, usize)>, keys: Seq<int>, members: Seq<bool>, upto: int)
    requires
        lists_members(c, keys, members, upto),
    ensures
        pairs_distinct(c),
{
    assert forall|i: int, j: int| 0 <= i < j < c.len() implies #[trigger] c[i] != #[trigger] c[j] by {
        assert(c[i].1 < c[j].1);
    }
}

/// The pairs of the two passes: `(metric, position)` for transactions that do not
/// grow `|p|^2`, `(-priority, position)` for the others, each in batch order.
/// `None` when the metric of some transaction does not fit in `i128`.
fn pass_candidates(p: &[i64; M], batch: &[Transaction]) -> (r: Option<(Vec<(i128, usize)>, Vec<(i128, usize)>)>)
    ensures
        r is Some <==> forall|k: int| 0 <= k < batch@.len() ==> q_metric_fits(p@, #[trigger] batch@[k].delta_p@),
        r matches Some(c) ==> lists_members(c.0@, pass1_keys(p@, batch@), pass1_members(p@, batch@), batch@.len() as int),
        r matches Some(c) ==> lists_members(c.1@, pass2_keys(p@, batch@), pass2_members(p@, batch@), batch@.len() as int),
{
    let ghost keys1 = pass1_keys(p@, batch@);
    let ghost members1 = pass1_members(p@, batch@);
    let ghost keys2 = pass2_keys(p@, batch@);
    let ghost members2 = pass2_members(p@, batch@);
    let mut pass1: Vec<(i128, usize)> = Vec::new();
    let mut pass2: Vec<(i128, usize)> = Vec::new();
    for idx in 0..batch.len()
        invariant
            forall|k: int| 0 <= k < idx ==> q_metric_fits(p@, #[trigger] batch@[k].delta_p@),
            keys1 == pass1_keys(p@, batch@),
            members1 == pass1_members(p@, batch@),
            keys2 == pass2_keys(p@, batch@),
            members2 == pass2_members(p@, batch@),
            lists_members(pass1@, keys1, members1, idx as int),
            lists_members(pass2@, keys2, members2, idx as int),
    {
        let tx = &batch[idx];
        let q0 = match checked_q_metric(p, &tx.delta_p) {
            Some(v) => v,
            None => return None,
        };
        if q0 <= 0 {
            pass1.push((q0, idx));
            proof {
                assert(pass1@.last() == (keys1[idx as int] as i128, idx));
                assert(!members2[idx as int]);
            }
        } else {
            proof {
                assert(tx.utility * 1024 <= 0x4_0000_0000_0000_0000_0000);
                assert((tx.utility * 1024) / (q0 as int) <= tx.utility * 1024) by (nonlinear_arith)
                    requires
                        q0 >= 1,
                        tx.utility * 1024 >= 0,
                ;
            }
            let score = (tx.utility as i128 * 1024) / q0;
            pass2.push((-score, idx));
            proof {
                assert(pass2@.last() == (keys2[idx as int] as i128, idx));
                assert(!members1[idx as int]);
            }
        }
    }
    Some((pass1, pass2))
}

/// The positions of sorted pairs, in order.
fn positions_of(sorted: &Vec<(i128, usize)>) -> (r: Vec<usize>)
    ensures
        r@ == positions(sorted@),
{
    let mut r: Vec<usize> = Vec::new();
    for t in 0..sorted.len()
        invariant
            r@ == positions(sorted@.take(t as int)),
    {
        r.push(sorted[t].1);
        assert(sorted@.take(t + 1) =~= sorted@.take(t as int).push(sorted@[t as int]));
        assert(positions(sorted@.take(t + 1)) =~= positions(sorted@.take(t as int)).push(sorted@[t as int].1));
    }
    assert(sorted@.take(sorted.len() as int) =~= sorted@);
    r
}

/// Admits a batch of transactions in two passes and returns what was admitted
/// and what was rejected, and why.
///
/// Pass 1 takes the transactions that do not grow `|p|^2` at the start of the
/// batch, by ascending metric `2 <p, delta_p> + |delta_p|^2`, and admits each one
/// whose metric against the current momenta is still at most zero. Pass 2 takes
/// the others by descending priority `utility * 1024 / metric` and admits each one
/// whose projected energy is at most `E_MAX` and whose projected site momenta are
/// all at most `P_SITE_MAX` in magnitude. Ties keep batch order. Admitted momentum
/// is added to the state; rejected momentum is summed into `p_rej`. All momentum
/// arithmetic is two's-complement.
///
/// Returns `None`, with the state partly updated, exactly when the batch does not
/// stay within machine arithmetic (`admission_fits`), where `process_batch` cannot run.
#[verifier::rlimit(60)]
pub fn try_process_batch(state: &mut LatticeState, batch: &[Transaction]) -> (r: Option<AdmissionResult>)
    ensures
        r is Some <==> admission_fits(old(state)@, batch@),
        r matches Some(result) ==> {
            &&& final(state).q@ == old(state).q@
            &&& final(state).p@ == admission_outcome(old(state)@, batch@).p
            &&& result.admitted_indices@ == admission_outcome(old(state)@, batch@).admitted
            &&& result.p_rej@ == admission_outcome(old(state)@, batch@).p_rej
            &&& result.rejections@ == admission_outcome(old(state)@, batch@).rejections
        },
{
    let ghost s0 = state@;
    let ghost q0 = state.q@;
    let ghost p0 = state.p@;
    let ghost b = batch@;
    let ghost start = admission_start(p0);

    let n: usize = batch.len();
    let (cand1, cand2) = match pass_candidates(&state.p, batch) {
        Some(c) => c,
        None => return None,
    };
    proof {
        assert(b.len() == n);
        lemma_members_distinct(cand1@, pass1_keys(p0, b), pass1_members(p0, b), b.len() as int);
        lemma_members_distinct(cand2@, pass2_keys(p0, b), pass2_members(p0, b), b.len() as int);
    }
    let sorted1 = sort_pairs(cand1);
    let sorted2 = sort_pairs(cand2);
    let order1 = positions_of(&sorted1);
    let order2 = positions_of(&sorted2);
    proof {
        lemma_sorted_members_give_order(sorted1@, cand1@, pass1_keys(p0, b), pass1_members(p0, b));
        lemma_sorted_members_give_order(sorted2@, cand2@, pass2_keys(p0, b), pass2_members(p0, b));
    }
    let ghost ord1 = order1@;
    let ghost ord2 = order2@;

    let mut admitted: Vec<usize> = Vec::new();
    let mut rejections: Vec<RejectedRecord> = Vec::new();
    let mut p_rej = [0i64; M];
    proof {
        assert(p_rej@ =~= start.p_rej);
        assert(admitted@ =~= start.admitted);
        assert(rejections@ =~= start.rejections);
    }

    // Pass 1: strict contraction check.
    let mut t: usize = 0;
    while t < order1.len()
        invariant
            ord1 == order1@,
            ord1 == pass1_order(p0, b),
            b == batch@,
            start == admission_start(p0),
            pass1_fits(start, b, ord1.take(t as int)),
            old(state)@ == s0,
            s0 == (q0, p0),
            forall|k: int| 0 <= k < b.len() ==> q_metric_fits(p0, #[trigger] b[k].delta_p@),
            forall|i: int| 0 <= i < ord1.len() ==> (#[trigger] ord1[i] as int) < b.len(),
            t <= ord1.len(),
            state.q@ == q0,
            state.p@ == run_pass1(start, b, ord1.take(t as int)).p,
            p_rej@ == run_pass1(start, b, ord1.take(t as int)).p_rej,
            admitted@ == run_pass1(start, b, ord1.take(t as int)).admitted,
            rejections@ == run_pass1(start, b, ord1.take(t as int)).rejections,
        decreases ord1.len() - t,
    {
        let k = order1[t];
        proof {
            assert(ord1.take(t + 1).drop_last() =~= ord1.take(t as int));
        }
        let tx = &batch[k];
        let q_k = match checked_q_metric(&state.p, &tx.delta_p) {
            Some(v) => v,
            None => {
                proof {
                    if pass1_fits(start, b, ord1) {
                        lemma_pass1_fits_prefix(start, b, ord1, t + 1);
                    }
                }
                return None;
            },
        };
        if q_k <= 0 {
            add_wrapping_in_place(&mut state.p, &tx.delta_p);
            admitted.push(k);
        } else {
            add_wrapping_in_place(&mut p_rej, &tx.delta_p);
            rejections.push(
                RejectedRecord {
                    original_idx: k,
                    cause: RejectionCause::Pass1MonotonicityFlip { q_k },
                    delta_p: tx.delta_p,
                    utility: tx.utility,
                },
            );
        }
        t = t + 1;
    }
    proof {
        assert(ord1.take(ord1.len() as int) =~= ord1);
    }
    let ghost first_pass_fits = pass1_fits(start, b, ord1);
    let ghost mid = after_pass1(s0, b);

    // Pass 2: dual-invariant gate check.
    let mut t: usize = 0;
    while t < order2.len()
        invariant
            ord2 == order2@,
            ord2 == pass2_order(p0, b),
            b == batch@,
            mid == after_pass1(s0, b),
            s0 == (q0, p0),
            pass2_fits(mid, q0, b, ord2.take(t as int)),
            old(state)@ == s0,
            first_pass_fits == pass1_fits(start, b, ord1),
            first_pass_fits,
            start == admission_start(p0),
            ord1 == pass1_order(p0, b),
            forall|k: int| 0 <= k < b.len() ==> q_metric_fits(p0, #[trigger] b[k].delta_p@),
            forall|i: int| 0 <= i < ord2.len() ==> (#[trigger] ord2[i] as int) < b.len(),
            t <= ord2.len(),
            state.q@ == q0,
            state.p@ == run_pass2(mid, q0, b, ord2.take(t as int)).p,
            p_rej@ == run_pass2(mid, q0, b, ord2.take(t as int)).p_rej,
            admitted@ == run_pass2(mid, q0, b, ord2.take(t as int)).admitted,
            rejections@ == run_pass2(mid, q0, b, ord2.take(t as int)).rejections,
        decreases ord2.len() - t,
    {
        let k = order2[t];
        proof {
            assert(ord2.take(t + 1).drop_last() =~= ord2.take(t as int));
        }
        let tx = &batch[k];
        let current_energy = state.checked_energy();
        let q_k = checked_q_metric(&state.p, &tx.delta_p);
        let site_failure = find_site_failure(&state.p, &tx.delta_p);
        let overflow_at_site = match site_failure {
            Some((_, pi)) => pi == i64::MIN,
            None => false,
        };
        if current_energy.is_none() || q_k.is_none() || overflow_at_site {
            proof {
                if pass2_fits(mid, q0, b, ord2) {
                    lemma_pass2_fits_prefix(mid, q0, b, ord2, t + 1);
                }
            }
            return None;
        }
        let current_energy = current_energy.unwrap();
        let q_k = q_k.unwrap();
        let predicted_energy = current_energy + (q_k / 2);
        let p_global = predicted_energy <= E_MAX;
        match (p_global, site_failure) {
            (true, None) => {
                add_wrapping_in_place(&mut state.p, &tx.delta_p);
                admitted.push(k);
            },
            (false, None) => {
                add_wrapping_in_place(&mut p_rej, &tx.delta_p);
                rejections.push(
                    RejectedRecord {
                        original_idx: k,
                        cause: RejectionCause::GlobalHeadroomExceeded {
                            projected_energy: predicted_energy,
                            e_max: E_MAX,
                        },
                        delta_p: tx.delta_p,
                        utility: tx.utility,
                    },
                );
            },
            (true, Some((site, pi))) => {
                add_wrapping_in_place(&mut p_rej, &tx.delta_p);
                rejections.push(
                    RejectedRecord {
                        original_idx: k,
                        cause: RejectionCause::LocalSiteBoundExceeded {
                            site,
                            projected_pi: pi,
                            limit: P_SITE_MAX,
                        },
                        delta_p: tx.delta_p,
                        utility: tx.utility,
                    },
                );
            },
            (false, Some((site, pi))) => {
                add_wrapping_in_place(&mut p_rej, &tx.delta_p);
                rejections.push(
                    RejectedRecord {
                        original_idx: k,
                        cause: RejectionCause::DualGlobalAndLocal {
                            projected_energy: predicted_energy,
                            site,
                            projected_pi: pi,
                        },
                        delta_p: tx.delta_p,
                        utility: tx.utility,
                    },
                );
            },
        }
        t = t + 1;
    }
    proof {
        assert(ord2.take(ord2.len() as int) =~= ord2);
    }
    Some(AdmissionResult { admitted_indices: admitted, p_rej, rejections })
}

/// Admits a batch of transactions in two passes; see `try_process_batch`, which
/// does the work and which this calls on a batch known to stay within machine
/// arithmetic.
pub fn process_batch(state: &mut LatticeState, batch: &[Transaction]) -> (result: AdmissionResult)
    requires
        admission_fits(old(state)@, batch@),
    ensures
        final(state).q@ == old(state).q@,
        final(state).p@ == admission_outcome(old(state)@, batch@).p,
        result.admitted_indices@ == admission_outcome(old(state)@, batch@).admitted,
        result.p_rej@ == admission_outcome(old(state)@, batch@).p_rej,
        result.rejections@ == admission_outcome(old(state)@, batch@).rejections,
{
    match try_process_batch(state, batch) {
        Some(result) => result,
        None => {
            proof {
                assert(false);
            }
            AdmissionResult { admitted_indices: Vec::new(), p_rej: [0; M], rejections: Vec::new() }
        },
    }
}


/// Sum, at site `i`, of the momentum changes of the transactions at `ids`.
pub open spec fn delta_total(batch: Seq<Transaction>, ids: Seq<usize>, i: int) -> int
    decreases ids.len(),
{
    if ids.len() == 0 {
        0
    } else {
        delta_total(batch, ids.drop_last(), i) + batch[ids.last() as int].delta_p[i]
    }
}

/// Subtracts `d` from `a` site by site, in two's-complement arithmetic.
fn sub_wrapping_in_place(a: &mut [i64; M], d: &[i64; M])
    ensures
        forall|i: int| 0 <= i < M ==> final(a)[i] == i64_specs::wrapping_sub(old(a)[i], d[i]),
{
    let ghost a0 = a@;
    for i in 0..M
        invariant
            a0.len() == M,
            forall|j: int| 0 <= j < i ==> a[j] == i64_specs::wrapping_sub(a0[j], d[j]),
            forall|j: int| i <= j < M ==> a[j] == a0[j],
    {
        a[i] = a[i].wrapping_sub(d[i]);
    }
}

/// Takes the admitted transactions back out of the state, last admitted first:
/// every site momentum loses the momentum the admitted transactions brought.
pub fn unwind_admitted(state: &mut LatticeState, batch: &[Transaction], admitted: &Vec<usize>)
    requires
        forall|t: int| 0 <= t < admitted@.len() ==> (#[trigger] admitted@[t] as int) < batch@.len(),
    ensures
        final(state).q@ == old(state).q@,
        forall|i: int| 0 <= i < M ==>
            final(state).p[i] == wrap64(old(state).p[i] - delta_total(batch@, admitted@, i)),
{
    let ghost p0 = state.p@;
    let ghost q0 = state.q@;
    let ghost ids = admitted@;
    let mut t: usize = admitted.len();
    proof {
        assert(ids.take(t as int) =~= ids);
        assert forall|i: int| 0 <= i < M implies state.p[i] == wrap64(
            p0[i] - (delta_total(batch@, ids, i) - delta_total(batch@, ids.take(t as int), i))) by {
            lemma_wrap64_id(p0[i] as int);
        }
    }
    while t > 0
        invariant
            t <= ids.len(),
            ids == admitted@,
            p0.len() == M,
            forall|u: int| 0 <= u < ids.len() ==> (#[trigger] ids[u] as int) < batch@.len(),
            state.q@ == q0,
            forall|i: int| 0 <= i < M ==> state.p[i] == wrap64(
                p0[i] - (delta_total(batch@, ids, i) - delta_total(batch@, ids.take(t as int), i))),
        decreases t,
    {
        t = t - 1;
        let tx = &batch[admitted[t]];
        let ghost before = state.p@;
        sub_wrapping_in_place(&mut state.p, &tx.delta_p);
        proof {
            assert(ids.take(t + 1).drop_last() =~= ids.take(t as int));
            assert forall|i: int| 0 <= i < M implies state.p[i] == wrap64(
                p0[i] - (delta_total(batch@, ids, i) - delta_total(batch@, ids.take(t as int), i))) by {
                let d = tx.delta_p[i];
                assert(delta_total(batch@, ids.take(t + 1), i) == delta_total(batch@, ids.take(t as int), i) + d);
                lemma_wrapping_sub(before[i], d);
                lemma_wrap64_absorb(
                    p0[i] - (delta_total(batch@, ids, i) - delta_total(batch@, ids.take(t + 1), i)),
                    -d,
                );
            }
        }
    }
    proof {
        assert(ids.take(0) =~= Seq::<usize>::empty());
    }
}

} // verus!
