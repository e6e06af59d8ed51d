//! Properties of a whole admission batch.
use vstd::prelude::*;
use crate::arith::{wrap64, lemma_wrap64_id, lemma_wrap64_absorb, lemma_wrapping_add};
use crate::lattice::{M, sum_sq, energy, double_energy, lemma_sum_sq_mono, lemma_square_bound};
use vstd::wrapping::i64_specs;
use crate::admission::{
    AdmissionModel, RejectedRecord, RejectionCause, Transaction, accept, reject, run_pass1, run_pass2,
    q_metric, projected_energy, site_failure, add_wrap, pass2_cause, E_MAX, pass1_keys, pass1_members,
    pass2_keys, pass2_members, pass1_order, pass2_order, admission_start, after_pass1, admission_outcome,
    initial_q, delta_total, dot, pass1_step, pass2_step, magnitude, half_toward_zero, P_SITE_MAX,
};
use crate::ordering::{is_visit_order, lemma_visit_order_exists};

verus! {

broadcast use vstd::seq_lib::group_seq_properties;

/// Batch positions of the rejection records, in order.
pub open spec fn rejected_positions(rs: Seq<RejectedRecord>) -> Seq<usize> {
    rs.map_values(|r: RejectedRecord| r.original_idx)
}

/// The positions in `o` have each been decided exactly once in `m`.
pub open spec fn decided_once(m: AdmissionModel, o: Seq<usize>) -> bool {
    &&& m.admitted.no_duplicates()
    &&& rejected_positions(m.rejections).no_duplicates()
    &&& forall|x: usize|
        #![trigger m.admitted.contains(x)]
        #![trigger rejected_positions(m.rejections).contains(x)]
        #![trigger o.contains(x)]
        (m.admitted.contains(x) || rejected_positions(m.rejections).contains(x)) <==> o.contains(x)
    &&& forall|x: usize|
        #![trigger m.admitted.contains(x)]
        #![trigger rejected_positions(m.rejections).contains(x)]
        !(m.admitted.contains(x) && rejected_positions(m.rejections).contains(x))
}

proof fn lemma_push_no_duplicates(s: Seq<usize>, k: usize)
    requires
        s.no_duplicates(),
        !s.contains(k),
    ensures
        s.push(k).no_duplicates(),
{
    assert forall|i: int, j: int| 0 <= i < s.len() + 1 && 0 <= j < s.len() + 1 && i != j
        implies s.push(k)[i] != s.push(k)[j] by {
        if i == s.len() {
            assert(s.contains(s[j]));
        } else if j == s.len() {
            assert(s.contains(s[i]));
        }
    }
}

proof fn lemma_decide_accept(m: AdmissionModel, b: Seq<Transaction>, k: usize, o: Seq<usize>)
    requires
        decided_once(m, o),
        !o.contains(k),
    ensures
        decided_once(accept(m, b, k), o.push(k)),
{
    let m2 = accept(m, b, k);
    assert(!m.admitted.contains(k));
    assert(!rejected_positions(m.rejections).contains(k));
    lemma_push_no_duplicates(m.admitted, k);
    assert(rejected_positions(m2.rejections) == rejected_positions(m.rejections));
}

proof fn lemma_decide_reject(m: AdmissionModel, b: Seq<Transaction>, k: usize, cause: RejectionCause, o: Seq<usize>)
    requires
        decided_once(m, o),
        !o.contains(k),
    ensures
        decided_once(reject(m, b, k, cause), o.push(k)),
{
    let m2 = reject(m, b, k, cause);
    assert(rejected_positions(m2.rejections) =~= rejected_positions(m.rejections).push(k));
    assert(!m.admitted.contains(k));
    assert(!rejected_positions(m.rejections).contains(k));
    lemma_push_no_duplicates(rejected_positions(m.rejections), k);
}

proof fn lemma_pass1_decides(m: AdmissionModel, b: Seq<Transaction>, pre: Seq<usize>, o: Seq<usize>)
    requires
        decided_once(m, pre),
        (pre + o).no_duplicates(),
    ensures
        decided_once(run_pass1(m, b, o), pre + o),
    decreases o.len(),
{
    if o.len() == 0 {
        assert(pre + o =~= pre);
    } else {
        let o1 = o.drop_last();
        assert((pre + o1) =~= (pre + o).drop_last());
        assert((pre + o1).push(o.last()) =~= pre + o);
        assert((pre + o1).no_duplicates()) by {
            assert forall|i: int, j: int| 0 <= i < (pre + o1).len() && 0 <= j < (pre + o1).len() && i != j
                implies (pre + o1)[i] != (pre + o1)[j] by {
                assert((pre + o1)[i] == (pre + o)[i] && (pre + o1)[j] == (pre + o)[j]);
            }
        }
        lemma_pass1_decides(m, b, pre, o1);
        assert(!(pre + o1).contains(o.last())) by {
            if (pre + o1).contains(o.last()) {
                let t = choose|t: int| 0 <= t < (pre + o1).len() && (pre + o1)[t] == o.last();
                assert((pre + o)[t] == (pre + o)[(pre + o).len() - 1]);
            }
        }
        let mm = run_pass1(m, b, o1);
        let k = o.last();
        if q_metric(mm.p, b[k as int].delta_p@) <= 0 {
            lemma_decide_accept(mm, b, k, pre + o1);
        } else {
            lemma_decide_reject(mm, b, k, RejectionCause::Pass1MonotonicityFlip {
                q_k: q_metric(mm.p, b[k as int].delta_p@) as i128 }, pre + o1);
        }
    }
}

proof fn lemma_pass2_decides(m: AdmissionModel, q: Seq<i64>, b: Seq<Transaction>, pre: Seq<usize>, o: Seq<usize>)
    requires
        decided_once(m, pre),
        (pre + o).no_duplicates(),
    ensures
        decided_once(run_pass2(m, q, b, o), pre + o),
    decreases o.len(),
{
    if o.len() == 0 {
        assert(pre + o =~= pre);
    } else {
        let o1 = o.drop_last();
        assert((pre + o1) =~= (pre + o).drop_last());
        assert((pre + o1).push(o.last()) =~= pre + o);
        assert((pre + o1).no_duplicates()) by {
            assert forall|i: int, j: int| 0 <= i < (pre + o1).len() && 0 <= j < (pre + o1).len() && i != j
                implies (pre + o1)[i] != (pre + o1)[j] by {
                assert((pre + o1)[i] == (pre + o)[i] && (pre + o1)[j] == (pre + o)[j]);
            }
        }
        lemma_pass2_decides(m, q, b, pre, o1);
        assert(!(pre + o1).contains(o.last())) by {
            if (pre + o1).contains(o.last()) {
                let t = choose|t: int| 0 <= t < (pre + o1).len() && (pre + o1)[t] == o.last();
                assert((pre + o)[t] == (pre + o)[(pre + o).len() - 1]);
            }
        }
        let mm = run_pass2(m, q, b, o1);
        let k = o.last();
        let projected = projected_energy(mm, q, b, k);
        let failure = site_failure(add_wrap(mm.p, b[k as int].delta_p@), 0);
        if projected <= E_MAX && failure is None {
            lemma_decide_accept(mm, b, k, pre + o1);
        } else {
            lemma_decide_reject(mm, b, k, pass2_cause(projected, failure), pre + o1);
        }
    }
}

/// The transactions in the order the two passes visit them: pass 1 by
/// ascending initial metric, then pass 2 by descending priority, ties in batch order.
pub open spec fn visit_sequence(s: (Seq<i64>, Seq<i64>), batch: Seq<Transaction>) -> Seq<usize> {
    pass1_order(s.1, batch) + pass2_order(s.1, batch)
}

/// Each transaction is visited once, and the two orders are the visit orders of
/// their passes.
pub proof fn lemma_visit_sequence_distinct(s: (Seq<i64>, Seq<i64>), batch: Seq<Transaction>)
    requires
        batch.len() <= usize::MAX,
    ensures
        visit_sequence(s, batch).no_duplicates(),
        is_visit_order(pass1_order(s.1, batch), pass1_keys(s.1, batch), pass1_members(s.1, batch)),
        is_visit_order(pass2_order(s.1, batch), pass2_keys(s.1, batch), pass2_members(s.1, batch)),
{
    let p0 = s.1;
    let keys1 = pass1_keys(p0, batch);
    let members1 = pass1_members(p0, batch);
    let keys2 = pass2_keys(p0, batch);
    let members2 = pass2_members(p0, batch);
    lemma_visit_order_exists(keys1, members1);
    lemma_visit_order_exists(keys2, members2);
    let o1 = pass1_order(p0, batch);
    let o2 = pass2_order(p0, batch);
    let all = o1 + o2;
    assert(all.no_duplicates()) by {
        assert forall|i: int, j: int| 0 <= i < all.len() && 0 <= j < all.len() && i != j implies all[i] != all[j] by {
            if i < o1.len() && j < o1.len() {
            } else if i >= o1.len() && j >= o1.len() {
                assert(all[i] == o2[i - o1.len()] && all[j] == o2[j - o1.len()]);
            } else if i < o1.len() {
                assert(members1[o1[i] as int]);
                assert(members2[o2[j - o1.len()] as int]);
            } else {
                assert(members2[o2[i - o1.len()] as int]);
                assert(members1[o1[j] as int]);
            }
        }
    }
}

/// Every transaction of a batch is decided exactly once: its position is either
/// among the admitted positions or among the rejection records, never both, and
/// nothing else is listed.
pub proof fn lemma_each_transaction_decided_once(s: (Seq<i64>, Seq<i64>), batch: Seq<Transaction>)
    requires
        batch.len() <= usize::MAX,
    ensures
        admission_outcome(s, batch).admitted.no_duplicates(),
        rejected_positions(admission_outcome(s, batch).rejections).no_duplicates(),
        forall|k: usize|
            #![trigger admission_outcome(s, batch).admitted.contains(k)]
            #![trigger rejected_positions(admission_outcome(s, batch).rejections).contains(k)]
            (k < batch.len()) <==> (admission_outcome(s, batch).admitted.contains(k)
                || rejected_positions(admission_outcome(s, batch).rejections).contains(k)),
        forall|k: usize|
            #![trigger admission_outcome(s, batch).admitted.contains(k)]
            #![trigger rejected_positions(admission_outcome(s, batch).rejections).contains(k)]
            !(admission_outcome(s, batch).admitted.contains(k)
                && rejected_positions(admission_outcome(s, batch).rejections).contains(k)),
{
    let p0 = s.1;
    let keys1 = pass1_keys(p0, batch);
    let members1 = pass1_members(p0, batch);
    let keys2 = pass2_keys(p0, batch);
    let members2 = pass2_members(p0, batch);
    lemma_visit_order_exists(keys1, members1);
    lemma_visit_order_exists(keys2, members2);
    let o1 = pass1_order(p0, batch);
    let o2 = pass2_order(p0, batch);
    let all = o1 + o2;
    lemma_visit_sequence_distinct(s, batch);
    assert(o1.no_duplicates()) by {
        assert forall|i: int, j: int| 0 <= i < o1.len() && 0 <= j < o1.len() && i != j implies o1[i] != o1[j] by {
            assert(all[i] == o1[i] && all[j] == o1[j]);
        }
    }
    let start = admission_start(p0);
    assert(decided_once(start, Seq::<usize>::empty()));
    lemma_pass1_decides(start, batch, Seq::<usize>::empty(), o1);
    assert(Seq::<usize>::empty() + o1 =~= o1);
    lemma_pass2_decides(after_pass1(s, batch), s.0, batch, o1, o2);
    let out = admission_outcome(s, batch);
    assert forall|k: usize|
        #![trigger out.admitted.contains(k)]
        #![trigger rejected_positions(out.rejections).contains(k)]
        (k < batch.len()) <==> (out.admitted.contains(k) || rejected_positions(out.rejections).contains(k)) by {
        if k < batch.len() {
            if initial_q(p0, batch, k as int) <= 0 {
                assert(members1[k as int]);
                assert(o1.contains(k));
                let t = choose|t: int| 0 <= t < o1.len() && o1[t] == k;
                assert(all[t] == k);
            } else {
                assert(members2[k as int]);
                assert(o2.contains(k));
                let t = choose|t: int| 0 <= t < o2.len() && o2[t] == k;
                assert(all[o1.len() + t] == k);
            }
        }
        assert(all.contains(k) <==> (out.admitted.contains(k) || rejected_positions(out.rejections).contains(k)));
        if all.contains(k) {
            let t = choose|t: int| 0 <= t < all.len() && all[t] == k;
            if t < o1.len() {
                assert(o1[t] == k);
            } else {
                assert(o2[t - o1.len()] == k);
            }
        }
    }
}

/// The momenta and the rejection buffer of `m` account for every decided
/// transaction: momenta are the start plus what was admitted, the buffer is
/// what was rejected, both modulo 2^64.
pub open spec fn accounts_for(m: AdmissionModel, p0: Seq<i64>, b: Seq<Transaction>) -> bool {
    &&& m.p.len() == M
    &&& m.p_rej.len() == M
    &&& forall|i: int| 0 <= i < M ==> #[trigger] m.p[i] == wrap64(p0[i] + delta_total(b, m.admitted, i))
    &&& forall|i: int| 0 <= i < M ==>
        #[trigger] m.p_rej[i] == wrap64(delta_total(b, rejected_positions(m.rejections), i))
}

pub(crate) proof fn lemma_accounts_accept(m: AdmissionModel, p0: Seq<i64>, b: Seq<Transaction>, k: usize)
    requires
        accounts_for(m, p0, b),
    ensures
        accounts_for(accept(m, b, k), p0, b),
{
    let m2 = accept(m, b, k);
    assert forall|i: int| 0 <= i < M implies #[trigger] m2.p[i] == wrap64(p0[i] + delta_total(b, m2.admitted, i)) by {
        let d = b[k as int].delta_p[i];
        assert(m2.admitted.drop_last() =~= m.admitted);
        lemma_wrapping_add(m.p[i], d);
        lemma_wrap64_absorb(p0[i] + delta_total(b, m.admitted, i), d as int);
    }
}

pub(crate) proof fn lemma_accounts_reject(m: AdmissionModel, p0: Seq<i64>, b: Seq<Transaction>, k: usize, cause: RejectionCause)
    requires
        accounts_for(m, p0, b),
    ensures
        accounts_for(reject(m, b, k, cause), p0, b),
{
    let m2 = reject(m, b, k, cause);
    let r1 = rejected_positions(m.rejections);
    let r2 = rejected_positions(m2.rejections);
    assert(r2 =~= r1.push(k));
    assert(r2.drop_last() =~= r1);
    assert forall|i: int| 0 <= i < M implies #[trigger] m2.p_rej[i] == wrap64(delta_total(b, r2, i)) by {
        let d = b[k as int].delta_p[i];
        lemma_wrapping_add(m.p_rej[i], d);
        lemma_wrap64_absorb(delta_total(b, r1, i), d as int);
    }
}

proof fn lemma_pass1_accounts(m: AdmissionModel, p0: Seq<i64>, b: Seq<Transaction>, o: Seq<usize>)
    requires
        accounts_for(m, p0, b),
    ensures
        accounts_for(run_pass1(m, b, o), p0, b),
    decreases o.len(),
{
    if o.len() > 0 {
        lemma_pass1_accounts(m, p0, b, o.drop_last());
        let mm = run_pass1(m, b, o.drop_last());
        let k = o.last();
        let q_k = q_metric(mm.p, b[k as int].delta_p@);
        if q_k <= 0 {
            lemma_accounts_accept(mm, p0, b, k);
        } else {
            lemma_accounts_reject(mm, p0, b, k, RejectionCause::Pass1MonotonicityFlip { q_k: q_k as i128 });
        }
    }
}

proof fn lemma_pass2_accounts(m: AdmissionModel, q: Seq<i64>, p0: Seq<i64>, b: Seq<Transaction>, o: Seq<usize>)
    requires
        accounts_for(m, p0, b),
    ensures
        accounts_for(run_pass2(m, q, b, o), p0, b),
    decreases o.len(),
{
    if o.len() > 0 {
        lemma_pass2_accounts(m, q, p0, b, o.drop_last());
        let mm = run_pass2(m, q, b, o.drop_last());
        let k = o.last();
        let projected = projected_energy(mm, q, b, k);
        let failure = site_failure(add_wrap(mm.p, b[k as int].delta_p@), 0);
        if projected <= E_MAX && failure is None {
            lemma_accounts_accept(mm, p0, b, k);
        } else {
            lemma_accounts_reject(mm, p0, b, k, pass2_cause(projected, failure));
        }
    }
}

pub(crate) proof fn lemma_start_accounts(p0: Seq<i64>, batch: Seq<Transaction>)
    requires
        p0.len() == M,
    ensures
        accounts_for(admission_start(p0), p0, batch),
{
    let start = admission_start(p0);
    assert forall|i: int| 0 <= i < M implies #[trigger] start.p[i] == wrap64(p0[i] + delta_total(batch, start.admitted, i)) by {
        lemma_wrap64_id(p0[i] as int);
    }
    assert forall|i: int| 0 <= i < M implies
        #[trigger] start.p_rej[i] == wrap64(delta_total(batch, rejected_positions(start.rejections), i)) by {
        assert(rejected_positions(start.rejections) =~= Seq::<usize>::empty());
        lemma_wrap64_id(0);
    }
}

/// No momentum is lost: after a batch, every site momentum is its value before
/// plus the momentum of the admitted transactions, and the rejection buffer holds
/// the momentum of the rejected ones, both in two's-complement arithmetic.
pub proof fn lemma_batch_conserves_momentum(s: (Seq<i64>, Seq<i64>), batch: Seq<Transaction>)
    requires
        s.1.len() == M,
    ensures
        accounts_for(admission_outcome(s, batch), s.1, batch),
{
    let start = admission_start(s.1);
    lemma_start_accounts(s.1, batch);
    lemma_pass1_accounts(start, s.1, batch, pass1_order(s.1, batch));
    lemma_pass2_accounts(after_pass1(s, batch), s.0, s.1, batch, pass2_order(s.1, batch));
}

/// Taking the admitted momentum back out of the state after a batch gives back
/// the momenta from before the batch, bit for bit.
pub proof fn lemma_batch_unwinds(s: (Seq<i64>, Seq<i64>), batch: Seq<Transaction>)
    requires
        s.1.len() == M,
    ensures
        forall|i: int| 0 <= i < M ==>
            wrap64(#[trigger] admission_outcome(s, batch).p[i] - delta_total(batch, admission_outcome(s, batch).admitted, i))
                == s.1[i],
{
    lemma_batch_conserves_momentum(s, batch);
    let out = admission_outcome(s, batch);
    assert forall|i: int| 0 <= i < M implies
        wrap64(#[trigger] out.p[i] - delta_total(batch, out.admitted, i)) == s.1[i] by {
        let t = delta_total(batch, out.admitted, i);
        lemma_wrap64_absorb(s.1[i] + t, -t);
        lemma_wrap64_id(s.1[i] as int);
    }
}

/// Sum of the squares of the first `n` site-wise sums `p[j] + d[j]`, without wrapping.
pub open spec fn sum_sq_of_sum(p: Seq<i64>, d: Seq<i64>, n: int) -> int
    decreases n,
{
    if n <= 0 {
        0
    } else {
        sum_sq_of_sum(p, d, n - 1) + (p[n - 1] + d[n - 1]) * (p[n - 1] + d[n - 1])
    }
}

proof fn lemma_sum_sq_of_sum_expands(p: Seq<i64>, d: Seq<i64>, n: int)
    requires
        n >= 0,
    ensures
        sum_sq_of_sum(p, d, n) == sum_sq(p, n) + 2 * dot(p, d, n) + sum_sq(d, n),
    decreases n,
{
    if n > 0 {
        lemma_sum_sq_of_sum_expands(p, d, n - 1);
        let a = p[n - 1] as int;
        let b = d[n - 1] as int;
        assert((a + b) * (a + b) == a * a + 2 * (a * b) + b * b) by (nonlinear_arith);
    }
}

/// The admission metric is how much `|p|^2` grows when `d` is added to `p`
/// without wrap-around: `sum (p[i] + d[i])^2 - sum p[i]^2`.
pub proof fn lemma_q_metric_is_growth(p: Seq<i64>, d: Seq<i64>)
    ensures
        q_metric(p, d) == sum_sq_of_sum(p, d, M as int) - sum_sq(p, M as int),
{
    lemma_sum_sq_of_sum_expands(p, d, M as int);
}

/// Wrapping a sum into `i64` never makes it larger in magnitude.
proof fn lemma_wrap_square_le(a: i64, b: i64)
    ensures
        i64_specs::wrapping_add(a, b) * i64_specs::wrapping_add(a, b) <= (a + b) * (a + b),
{
    let w = i64_specs::wrapping_add(a, b) as int;
    let v = a + b;
    assert(magnitude(w) <= magnitude(v));
    assert(w * w <= v * v) by (nonlinear_arith)
        requires
            magnitude(w) <= magnitude(v),
            magnitude(w) == (if w < 0 { -w } else { w }),
            magnitude(v) == (if v < 0 { -v } else { v }),
    ;
}

proof fn lemma_sum_sq_add_wrap_le(p: Seq<i64>, d: Seq<i64>, n: int)
    requires
        0 <= n <= p.len(),
    ensures
        sum_sq(add_wrap(p, d), n) <= sum_sq_of_sum(p, d, n),
    decreases n,
{
    if n > 0 {
        lemma_sum_sq_add_wrap_le(p, d, n - 1);
        lemma_wrap_square_le(p[n - 1], d[n - 1]);
    }
}

/// Adding `d` to the momenta `p` raises `|p|^2` by at most `q_metric(p, d)`:
/// exactly that much without wrap-around, less with it.
pub proof fn lemma_kinetic_change_bounded(p: Seq<i64>, d: Seq<i64>)
    requires
        p.len() == M,
    ensures
        sum_sq(add_wrap(p, d), M as int) <= sum_sq(p, M as int) + q_metric(p, d),
{
    lemma_sum_sq_add_wrap_le(p, d, M as int);
    lemma_sum_sq_of_sum_expands(p, d, M as int);
}

/// Pass 1 never raises `|p|^2`: the kinetic energy after pass 1 is at most the
/// kinetic energy before the batch.
pub proof fn lemma_pass1_contracts(s: (Seq<i64>, Seq<i64>), batch: Seq<Transaction>)
    requires
        s.1.len() == M,
    ensures
        sum_sq(after_pass1(s, batch).p, M as int) <= sum_sq(s.1, M as int),
{
    lemma_pass1_run_contracts(admission_start(s.1), batch, pass1_order(s.1, batch));
}

proof fn lemma_pass1_run_contracts(m: AdmissionModel, b: Seq<Transaction>, o: Seq<usize>)
    requires
        m.p.len() == M,
    ensures
        run_pass1(m, b, o).p.len() == M,
        sum_sq(run_pass1(m, b, o).p, M as int) <= sum_sq(m.p, M as int),
    decreases o.len(),
{
    if o.len() > 0 {
        lemma_pass1_run_contracts(m, b, o.drop_last());
        let mm = run_pass1(m, b, o.drop_last());
        lemma_kinetic_change_bounded(mm.p, b[o.last() as int].delta_p@);
    }
}

/// Every projected site momentum is within `P_SITE_MAX` when no site fails.
proof fn lemma_no_site_failure(next_p: Seq<i64>, from: int)
    requires
        0 <= from <= M,
        site_failure(next_p, from) is None,
    ensures
        forall|i: int| from <= i < M ==> magnitude(#[trigger] next_p[i] as int) <= P_SITE_MAX,
    decreases M - from,
{
    if from < M {
        lemma_no_site_failure(next_p, from + 1);
    }
}

/// The momenta of `m` obey both pass-2 gates, up to rounding of the energy.
pub open spec fn within_gates(m: AdmissionModel, q: Seq<i64>) -> bool {
    &&& forall|i: int| 0 <= i < M ==> magnitude(#[trigger] m.p[i] as int) <= P_SITE_MAX
    &&& energy(q, m.p) <= E_MAX + 1
}

proof fn lemma_pass2_accept_within_gates(m: AdmissionModel, q: Seq<i64>, b: Seq<Transaction>, k: usize)
    requires
        m.p.len() == M,
        q.len() == M,
        projected_energy(m, q, b, k) <= E_MAX,
        site_failure(add_wrap(m.p, b[k as int].delta_p@), 0) is None,
    ensures
        within_gates(accept(m, b, k), q),
{
    let d = b[k as int].delta_p@;
    let np = add_wrap(m.p, d);
    lemma_no_site_failure(np, 0);
    lemma_kinetic_change_bounded(m.p, d);
    lemma_sum_sq_mono(q, 0, M as int);
    lemma_sum_sq_mono(m.p, 0, M as int);
    let kk = double_energy(q, m.p);
    let qk = q_metric(m.p, d);
    assert(double_energy(q, np) <= kk + qk);
    assert(kk >= 0);
    assert((kk + qk) / 2 <= kk / 2 + half_toward_zero(qk) + 1);
}

proof fn lemma_pass2_run_gates(mid: AdmissionModel, q: Seq<i64>, b: Seq<Transaction>, o: Seq<usize>)
    requires
        mid.p.len() == M,
        q.len() == M,
    ensures
        run_pass2(mid, q, b, o).p.len() == M,
        run_pass2(mid, q, b, o).admitted.len() >= mid.admitted.len(),
        run_pass2(mid, q, b, o).admitted.len() > mid.admitted.len() ==> within_gates(run_pass2(mid, q, b, o), q),
    decreases o.len(),
{
    if o.len() > 0 {
        lemma_pass2_run_gates(mid, q, b, o.drop_last());
        let mm = run_pass2(mid, q, b, o.drop_last());
        let k = o.last();
        let projected = projected_energy(mm, q, b, k);
        let failure = site_failure(add_wrap(mm.p, b[k as int].delta_p@), 0);
        if projected <= E_MAX && failure is None {
            lemma_pass2_accept_within_gates(mm, q, b, k);
        }
    }
}

/// After a batch in which pass 2 admitted at least one transaction, every site
/// momentum is within `P_SITE_MAX` and the energy is at most `E_MAX + 1`; the
/// extra unit comes from the projected energy halving the metric separately
/// from the current energy.
pub proof fn lemma_pass2_admission_respects_gates(s: (Seq<i64>, Seq<i64>), batch: Seq<Transaction>)
    requires
        s.0.len() == M,
        s.1.len() == M,
        admission_outcome(s, batch).admitted.len() > after_pass1(s, batch).admitted.len(),
    ensures
        forall|i: int| 0 <= i < M ==> magnitude(#[trigger] admission_outcome(s, batch).p[i] as int) <= P_SITE_MAX,
        energy(s.0, admission_outcome(s, batch).p) <= E_MAX + 1,
{
    lemma_pass1_run_contracts(admission_start(s.1), batch, pass1_order(s.1, batch));
    lemma_pass2_run_gates(after_pass1(s, batch), s.0, batch, pass2_order(s.1, batch));
}

} // verus!
