//! How each transaction of a batch is decided, and in which order.
use vstd::prelude::*;
use crate::arith::{wrap64, lemma_wrapping_add};
use crate::lattice::{M, KAPPA, sum_sq, energy};
use crate::admission::{
    AdmissionModel, Transaction, RejectionCause, accept, reject, run_pass1, run_pass2, q_metric,
    projected_energy, site_failure, add_wrap, magnitude, pass2_cause, E_MAX, P_SITE_MAX, pass1_order,
    pass2_order, admission_start, after_pass1, admission_outcome, delta_total, pass1_keys, pass1_members,
    pass2_keys, pass2_members,
};
use crate::ordering::keyed_before;
use crate::batch_laws::{
    rejected_positions, visit_sequence, lemma_visit_sequence_distinct, lemma_batch_conserves_momentum,
    accounts_for,
};

verus! {

broadcast use vstd::seq_lib::group_seq_properties;

/// The progress of the batch just before the `t`-th visited transaction is decided.
pub open spec fn state_before(s: (Seq<i64>, Seq<i64>), batch: Seq<Transaction>, t: int) -> AdmissionModel {
    let o1 = pass1_order(s.1, batch);
    if t <= o1.len() {
        run_pass1(admission_start(s.1), batch, o1.take(t))
    } else {
        run_pass2(after_pass1(s, batch), s.0, batch, pass2_order(s.1, batch).take(t - o1.len()))
    }
}

/// The `t`-th visited transaction passes its test on the momenta of that moment:
/// in pass 1 its metric is at most zero; in pass 2 its projected energy is at
/// most `E_MAX` and no projected site momentum exceeds `P_SITE_MAX` in magnitude.
pub open spec fn accepted_at(s: (Seq<i64>, Seq<i64>), batch: Seq<Transaction>, t: int) -> bool {
    let m = state_before(s, batch, t);
    let k = visit_sequence(s, batch)[t];
    let d = batch[k as int].delta_p@;
    if t < pass1_order(s.1, batch).len() {
        q_metric(m.p, d) <= 0
    } else {
        projected_energy(m, s.0, batch, k) <= E_MAX && site_failure(add_wrap(m.p, d), 0) is None
    }
}

/// Positions in the visit sequence, below `t`, whose test came out `accepted`, in order.
pub open spec fn decided_indices(s: (Seq<i64>, Seq<i64>), batch: Seq<Transaction>, t: int, accepted: bool) -> Seq<int>
    decreases t,
{
    if t <= 0 {
        Seq::empty()
    } else if accepted_at(s, batch, t - 1) == accepted {
        decided_indices(s, batch, t - 1, accepted).push(t - 1)
    } else {
        decided_indices(s, batch, t - 1, accepted)
    }
}

/// `a` lists, in order, some of the elements of `b`, at increasing positions.
pub open spec fn subsequence_of(a: Seq<usize>, b: Seq<usize>) -> bool {
    exists|idx: Seq<int>|
        #![trigger idx.len()]
        idx.len() == a.len() && (forall|i: int| 0 <= i < a.len() ==> 0 <= #[trigger] idx[i] < b.len() && b[idx[i]] == a[i])
            && (forall|i: int, j: int| 0 <= i < j < a.len() ==> #[trigger] idx[i] < #[trigger] idx[j])
}

proof fn lemma_decided_indices(s: (Seq<i64>, Seq<i64>), batch: Seq<Transaction>, t: int, accepted: bool)
    requires
        t >= 0,
    ensures
        forall|i: int| 0 <= i < decided_indices(s, batch, t, accepted).len() ==>
            0 <= #[trigger] decided_indices(s, batch, t, accepted)[i] < t
            && accepted_at(s, batch, decided_indices(s, batch, t, accepted)[i]) == accepted,
        forall|i: int, j: int| 0 <= i < j < decided_indices(s, batch, t, accepted).len() ==>
            #[trigger] decided_indices(s, batch, t, accepted)[i] < #[trigger] decided_indices(s, batch, t, accepted)[j],
        forall|u: int| 0 <= u < t && accepted_at(s, batch, u) == accepted ==>
            #[trigger] decided_indices(s, batch, t, accepted).contains(u),
    decreases t,
{
    if t > 0 {
        lemma_decided_indices(s, batch, t - 1, accepted);
        let prev = decided_indices(s, batch, t - 1, accepted);
        let cur = decided_indices(s, batch, t, accepted);
        assert forall|u: int| 0 <= u < t && accepted_at(s, batch, u) == accepted implies #[trigger] cur.contains(u) by {
            if u < t - 1 {
                assert(prev.contains(u));
                let i = choose|i: int| 0 <= i < prev.len() && prev[i] == u;
                assert(cur[i] == u);
            } else {
                assert(cur[cur.len() - 1] == u);
            }
        }
    }
}

/// One decision: the state after the `t`-th visited transaction is the state
/// before it with that transaction accepted or rejected according to its test.
proof fn lemma_decision_step(s: (Seq<i64>, Seq<i64>), batch: Seq<Transaction>, t: int)
    requires
        0 <= t < visit_sequence(s, batch).len(),
    ensures
        accepted_at(s, batch, t) ==> state_before(s, batch, t + 1)
            == accept(state_before(s, batch, t), batch, visit_sequence(s, batch)[t]),
        !accepted_at(s, batch, t) ==> exists|cause: RejectionCause| state_before(s, batch, t + 1)
            == reject(state_before(s, batch, t), batch, visit_sequence(s, batch)[t], cause),
{
    let o1 = pass1_order(s.1, batch);
    let o2 = pass2_order(s.1, batch);
    let k = visit_sequence(s, batch)[t];
    let m = state_before(s, batch, t);
    if t < o1.len() {
        assert(o1.take(t + 1).drop_last() =~= o1.take(t));
        assert(o1.take(t + 1).last() == k);
        if !accepted_at(s, batch, t) {
            let cause = RejectionCause::Pass1MonotonicityFlip { q_k: q_metric(m.p, batch[k as int].delta_p@) as i128 };
            assert(state_before(s, batch, t + 1) == reject(m, batch, k, cause));
        }
    } else {
        let u = t - o1.len();
        assert(o2.take(u + 1).drop_last() =~= o2.take(u));
        assert(o2.take(u + 1).last() == k);
        if t == o1.len() {
            assert(o1.take(t) =~= o1);
            assert(o2.take(0) =~= Seq::<usize>::empty());
        }
        assert(m == run_pass2(after_pass1(s, batch), s.0, batch, o2.take(u)));
        if !accepted_at(s, batch, t) {
            let d = batch[k as int].delta_p@;
            let cause = pass2_cause(projected_energy(m, s.0, batch, k), site_failure(add_wrap(m.p, d), 0));
            assert(state_before(s, batch, t + 1) == reject(m, batch, k, cause));
        }
    }
}

/// After `t` decisions, the admitted and rejected positions are the visited
/// transactions whose test passed, respectively failed, in visit order.
proof fn lemma_decisions_so_far(s: (Seq<i64>, Seq<i64>), batch: Seq<Transaction>, t: int)
    requires
        0 <= t <= visit_sequence(s, batch).len(),
    ensures
        state_before(s, batch, t).admitted
            == decided_indices(s, batch, t, true).map_values(|u: int| visit_sequence(s, batch)[u]),
        rejected_positions(state_before(s, batch, t).rejections)
            == decided_indices(s, batch, t, false).map_values(|u: int| visit_sequence(s, batch)[u]),
    decreases t,
{
    let v = visit_sequence(s, batch);
    if t == 0 {
        assert(pass1_order(s.1, batch).take(0) =~= Seq::<usize>::empty());
        assert(state_before(s, batch, 0).admitted =~= decided_indices(s, batch, 0, true).map_values(|u: int| v[u]));
        assert(rejected_positions(state_before(s, batch, 0).rejections)
            =~= decided_indices(s, batch, 0, false).map_values(|u: int| v[u]));
    } else {
        lemma_decisions_so_far(s, batch, t - 1);
        lemma_decision_step(s, batch, t - 1);
        let m = state_before(s, batch, t - 1);
        let m2 = state_before(s, batch, t);
        let k = v[t - 1];
        if accepted_at(s, batch, t - 1) {
            assert(m2.admitted =~= decided_indices(s, batch, t, true).map_values(|u: int| v[u]));
            assert(rejected_positions(m2.rejections) =~= decided_indices(s, batch, t, false).map_values(|u: int| v[u]));
        } else {
            let cause = choose|cause: RejectionCause| m2 == reject(m, batch, k, cause);
            assert(rejected_positions(m2.rejections) =~= rejected_positions(m.rejections).push(k));
            assert(m2.admitted =~= decided_indices(s, batch, t, true).map_values(|u: int| v[u]));
            assert(rejected_positions(m2.rejections) =~= decided_indices(s, batch, t, false).map_values(|u: int| v[u]));
        }
    }
}

proof fn lemma_last_state_is_outcome(s: (Seq<i64>, Seq<i64>), batch: Seq<Transaction>)
    ensures
        state_before(s, batch, visit_sequence(s, batch).len() as int) == admission_outcome(s, batch),
{
    let o1 = pass1_order(s.1, batch);
    let o2 = pass2_order(s.1, batch);
    if o2.len() == 0 {
        assert(o1.take(o1.len() as int) =~= o1);
        assert(o2 =~= Seq::<usize>::empty());
    } else {
        assert(o2.take(o2.len() as int) =~= o2);
    }
}

/// The decision order: the admitted positions and the rejected positions are
/// each the visited transactions whose test passed, respectively failed, in the
/// order of visit (pass 1 by ascending initial metric, then pass 2 by descending
/// priority, ties in batch order); so each is a subsequence of the visit sequence.
pub proof fn lemma_decision_order(s: (Seq<i64>, Seq<i64>), batch: Seq<Transaction>)
    ensures
        admission_outcome(s, batch).admitted == decided_indices(s, batch, visit_sequence(s, batch).len() as int, true)
            .map_values(|u: int| visit_sequence(s, batch)[u]),
        rejected_positions(admission_outcome(s, batch).rejections)
            == decided_indices(s, batch, visit_sequence(s, batch).len() as int, false)
            .map_values(|u: int| visit_sequence(s, batch)[u]),
        subsequence_of(admission_outcome(s, batch).admitted, visit_sequence(s, batch)),
        subsequence_of(rejected_positions(admission_outcome(s, batch).rejections), visit_sequence(s, batch)),
{
    let v = visit_sequence(s, batch);
    let n = v.len() as int;
    lemma_decisions_so_far(s, batch, n);
    lemma_last_state_is_outcome(s, batch);
    lemma_decided_indices(s, batch, n, true);
    lemma_decided_indices(s, batch, n, false);
    let ia = decided_indices(s, batch, n, true);
    let ir = decided_indices(s, batch, n, false);
    let out = admission_outcome(s, batch);
    assert(ia.len() == out.admitted.len() && (forall|i: int| 0 <= i < out.admitted.len() ==> 0 <= #[trigger] ia[i] < v.len() && v[ia[i]] == out.admitted[i])
        && (forall|i: int, j: int| 0 <= i < j < out.admitted.len() ==> #[trigger] ia[i] < #[trigger] ia[j]));
    assert(ir.len() == rejected_positions(out.rejections).len()
        && (forall|i: int| 0 <= i < ir.len() ==> 0 <= #[trigger] ir[i] < v.len() && v[ir[i]] == rejected_positions(out.rejections)[i])
        && (forall|i: int, j: int| 0 <= i < j < ir.len() ==> #[trigger] ir[i] < #[trigger] ir[j]));
}

/// Each transaction is decided by its own test on the momenta of its moment:
/// the `t`-th visited transaction is admitted exactly when it passes
/// (`accepted_at`), and rejected otherwise. The momenta of that moment are the
/// momenta before the batch plus those of the transactions admitted before it
/// (modulo 2^64), and in pass 2 the test reads: projected energy, the current
/// energy plus half the metric rounded toward zero, at most `E_MAX`, and every
/// projected site momentum at most `P_SITE_MAX` in magnitude.
pub proof fn lemma_decision_per_transaction(s: (Seq<i64>, Seq<i64>), batch: Seq<Transaction>)
    requires
        s.1.len() == M,
        batch.len() <= usize::MAX,
    ensures
        forall|t: int| 0 <= t < visit_sequence(s, batch).len() ==>
            (admission_outcome(s, batch).admitted.contains(#[trigger] visit_sequence(s, batch)[t]) <==> accepted_at(s, batch, t)),
        forall|t: int| 0 <= t < visit_sequence(s, batch).len() ==>
            (rejected_positions(admission_outcome(s, batch).rejections).contains(#[trigger] visit_sequence(s, batch)[t])
                <==> !accepted_at(s, batch, t)),
        forall|t: int, i: int| 0 <= t <= visit_sequence(s, batch).len() && 0 <= i < M ==>
            #[trigger] state_before(s, batch, t).p[i] == wrap64(s.1[i] + delta_total(batch, state_before(s, batch, t).admitted, i)),
        forall|t: int| pass1_order(s.1, batch).len() <= t < visit_sequence(s, batch).len() ==>
            (#[trigger] accepted_at(s, batch, t) <==> (
                projected_energy(state_before(s, batch, t), s.0, batch, visit_sequence(s, batch)[t]) <= E_MAX
                && forall|i: int| 0 <= i < M ==> magnitude(
                    #[trigger] add_wrap(state_before(s, batch, t).p, batch[visit_sequence(s, batch)[t] as int].delta_p@)[i] as int,
                ) <= P_SITE_MAX)),
{
    let v = visit_sequence(s, batch);
    let n = v.len() as int;
    lemma_visit_sequence_distinct(s, batch);
    lemma_decision_order(s, batch);
    lemma_decided_indices(s, batch, n, true);
    lemma_decided_indices(s, batch, n, false);
    let out = admission_outcome(s, batch);
    let ia = decided_indices(s, batch, n, true);
    let ir = decided_indices(s, batch, n, false);
    assert forall|t: int| 0 <= t < n implies
        (out.admitted.contains(#[trigger] v[t]) <==> accepted_at(s, batch, t))
        && (rejected_positions(out.rejections).contains(v[t]) <==> !accepted_at(s, batch, t)) by {
        if out.admitted.contains(v[t]) {
            let i = choose|i: int| 0 <= i < out.admitted.len() && out.admitted[i] == v[t];
            assert(v[ia[i]] == v[t]);
        }
        if accepted_at(s, batch, t) {
            assert(ia.contains(t));
            let i = choose|i: int| 0 <= i < ia.len() && ia[i] == t;
            assert(out.admitted[i] == v[t]);
        }
        if rejected_positions(out.rejections).contains(v[t]) {
            let i = choose|i: int| 0 <= i < ir.len() && rejected_positions(out.rejections)[i] == v[t];
            assert(v[ir[i]] == v[t]);
        }
        if !accepted_at(s, batch, t) {
            assert(ir.contains(t));
            let i = choose|i: int| 0 <= i < ir.len() && ir[i] == t;
            assert(rejected_positions(out.rejections)[i] == v[t]);
        }
    }
    assert forall|t: int, i: int| 0 <= t <= n && 0 <= i < M implies
        #[trigger] state_before(s, batch, t).p[i] == wrap64(s.1[i] + delta_total(batch, state_before(s, batch, t).admitted, i)) by {
        lemma_momenta_before(s, batch, t);
    }
    assert forall|t: int| pass1_order(s.1, batch).len() <= t < n implies
        (#[trigger] accepted_at(s, batch, t) <==> (
            projected_energy(state_before(s, batch, t), s.0, batch, v[t]) <= E_MAX
            && forall|i: int| 0 <= i < M ==> magnitude(
                #[trigger] add_wrap(state_before(s, batch, t).p, batch[v[t] as int].delta_p@)[i] as int,
            ) <= P_SITE_MAX)) by {
        lemma_momenta_before(s, batch, t);
        lemma_site_failure_none(add_wrap(state_before(s, batch, t).p, batch[v[t] as int].delta_p@), 0);
    }
}

proof fn lemma_momenta_before(s: (Seq<i64>, Seq<i64>), batch: Seq<Transaction>, t: int)
    requires
        s.1.len() == M,
        0 <= t <= visit_sequence(s, batch).len(),
    ensures
        accounts_for(state_before(s, batch, t), s.1, batch),
    decreases t,
{
    if t > 0 {
        lemma_momenta_before(s, batch, t - 1);
        lemma_decision_step(s, batch, t - 1);
        let m = state_before(s, batch, t - 1);
        let k = visit_sequence(s, batch)[t - 1];
        if accepted_at(s, batch, t - 1) {
            crate::batch_laws::lemma_accounts_accept(m, s.1, batch, k);
        } else {
            let cause = choose|cause: RejectionCause| state_before(s, batch, t) == reject(m, batch, k, cause);
            crate::batch_laws::lemma_accounts_reject(m, s.1, batch, k, cause);
        }
    } else {
        lemma_batch_conserves_momentum(s, batch);
        crate::batch_laws::lemma_start_accounts(s.1, batch);
        assert(pass1_order(s.1, batch).take(0) =~= Seq::<usize>::empty());
    }
}

/// No site fails exactly when every projected site momentum is within `P_SITE_MAX`.
proof fn lemma_site_failure_none(next_p: Seq<i64>, from: int)
    requires
        0 <= from <= M,
    ensures
        site_failure(next_p, from) is None <==> forall|i: int| from <= i < M ==> magnitude(#[trigger] next_p[i] as int) <= P_SITE_MAX,
    decreases M - from,
{
    if from < M {
        lemma_site_failure_none(next_p, from + 1);
    }
}

/// Pass 1 visits exactly the transactions whose metric against the momenta at
/// the start of the batch is at most zero, and pass 2 exactly the others.
pub proof fn lemma_pass_membership(s: (Seq<i64>, Seq<i64>), batch: Seq<Transaction>)
    requires
        batch.len() <= usize::MAX,
    ensures
        forall|k: int| 0 <= k < batch.len() ==>
            (pass1_order(s.1, batch).contains(k as usize) <==> q_metric(s.1, #[trigger] batch[k].delta_p@) <= 0),
        forall|k: int| 0 <= k < batch.len() ==>
            (pass2_order(s.1, batch).contains(k as usize) <==> q_metric(s.1, #[trigger] batch[k].delta_p@) > 0),
        forall|i: int| 0 <= i < pass1_order(s.1, batch).len() ==> (#[trigger] pass1_order(s.1, batch)[i] as int) < batch.len(),
        forall|i: int| 0 <= i < pass2_order(s.1, batch).len() ==> (#[trigger] pass2_order(s.1, batch)[i] as int) < batch.len(),
{
    lemma_visit_sequence_distinct(s, batch);
    let o1 = pass1_order(s.1, batch);
    let o2 = pass2_order(s.1, batch);
    assert forall|k: int| 0 <= k < batch.len() implies
        (o1.contains(k as usize) <==> q_metric(s.1, #[trigger] batch[k].delta_p@) <= 0)
        && (o2.contains(k as usize) <==> q_metric(s.1, batch[k].delta_p@) > 0) by {
        if o1.contains(k as usize) {
            let i = choose|i: int| 0 <= i < o1.len() && o1[i] == k as usize;
            assert(pass1_members(s.1, batch)[o1[i] as int]);
        }
        if o2.contains(k as usize) {
            let i = choose|i: int| 0 <= i < o2.len() && o2[i] == k as usize;
            assert(pass2_members(s.1, batch)[o2[i] as int]);
        }
        if q_metric(s.1, batch[k].delta_p@) <= 0 {
            assert(pass1_members(s.1, batch)[k]);
        } else {
            assert(pass2_members(s.1, batch)[k]);
        }
    }
}

/// Pass 1 visits its transactions by ascending metric against the momenta at
/// the start of the batch, transactions with equal metrics in batch order.
pub proof fn lemma_pass1_ascending_metric(s: (Seq<i64>, Seq<i64>), batch: Seq<Transaction>)
    requires
        batch.len() <= usize::MAX,
    ensures
        forall|t: int, u: int| 0 <= t < u < pass1_order(s.1, batch).len() ==> {
            let a = #[trigger] pass1_order(s.1, batch)[t];
            let b = #[trigger] pass1_order(s.1, batch)[u];
            let qa = q_metric(s.1, batch[a as int].delta_p@);
            let qb = q_metric(s.1, batch[b as int].delta_p@);
            qa < qb || (qa == qb && a < b)
        },
{
    lemma_visit_sequence_distinct(s, batch);
    let o1 = pass1_order(s.1, batch);
    let keys = pass1_keys(s.1, batch);
    assert forall|t: int, u: int| 0 <= t < u < o1.len() implies {
        let a = #[trigger] o1[t];
        let b = #[trigger] o1[u];
        let qa = q_metric(s.1, batch[a as int].delta_p@);
        let qb = q_metric(s.1, batch[b as int].delta_p@);
        qa < qb || (qa == qb && a < b)
    } by {
        assert(keyed_before(keys[o1[t] as int], o1[t] as int, keys[o1[u] as int], o1[u] as int));
        assert((o1[t] as int) < batch.len() && (o1[u] as int) < batch.len());
    }
}

/// Pass 2 visits its transactions by descending priority, `utility * 1024`
/// divided by the metric against the momenta at the start of the batch and
/// rounded down; transactions with equal priorities in batch order.
pub proof fn lemma_pass2_descending_priority(s: (Seq<i64>, Seq<i64>), batch: Seq<Transaction>)
    requires
        batch.len() <= usize::MAX,
    ensures
        forall|t: int, u: int| 0 <= t < u < pass2_order(s.1, batch).len() ==> {
            let a = #[trigger] pass2_order(s.1, batch)[t];
            let b = #[trigger] pass2_order(s.1, batch)[u];
            let qa = q_metric(s.1, batch[a as int].delta_p@);
            let qb = q_metric(s.1, batch[b as int].delta_p@);
            let pa = (batch[a as int].utility * 1024) / qa;
            let pb = (batch[b as int].utility * 1024) / qb;
            qa > 0 && qb > 0 && (pa > pb || (pa == pb && a < b))
        },
{
    lemma_visit_sequence_distinct(s, batch);
    let o2 = pass2_order(s.1, batch);
    let keys = pass2_keys(s.1, batch);
    let members = pass2_members(s.1, batch);
    assert forall|t: int, u: int| 0 <= t < u < o2.len() implies {
        let a = #[trigger] o2[t];
        let b = #[trigger] o2[u];
        let qa = q_metric(s.1, batch[a as int].delta_p@);
        let qb = q_metric(s.1, batch[b as int].delta_p@);
        let pa = (batch[a as int].utility * 1024) / qa;
        let pb = (batch[b as int].utility * 1024) / qb;
        qa > 0 && qb > 0 && (pa > pb || (pa == pb && a < b))
    } by {
        assert(keyed_before(keys[o2[t] as int], o2[t] as int, keys[o2[u] as int], o2[u] as int));
        assert(members[o2[t] as int] && members[o2[u] as int]);
    }
}

/// The two tests written out: the `t`-th visited transaction, with momentum
/// change `d` and momenta `p` of its moment, is admitted in pass 1 exactly when
/// `2 <p, d> + |d|^2 <= 0`, and in pass 2 exactly when
/// `(|p|^2 + |q|^2) / 2` plus half of that metric, rounded toward zero, is at most
/// `E_MAX` and every `p[i] + d[i]` (modulo 2^64) lies in `[-P_SITE_MAX, P_SITE_MAX]`.
pub proof fn lemma_decision_tests(s: (Seq<i64>, Seq<i64>), batch: Seq<Transaction>)
    requires
        s.1.len() == M,
        batch.len() <= usize::MAX,
    ensures
        forall|t: int| 0 <= t < pass1_order(s.1, batch).len() ==> {
            let p = state_before(s, batch, t).p;
            let d = batch[visit_sequence(s, batch)[t] as int].delta_p@;
            admission_outcome(s, batch).admitted.contains(#[trigger] visit_sequence(s, batch)[t])
                <==> 2 * crate::admission::dot(p, d, M as int) + sum_sq(d, M as int) <= 0
        },
        forall|t: int| pass1_order(s.1, batch).len() <= t < visit_sequence(s, batch).len() ==> {
            let p = state_before(s, batch, t).p;
            let d = batch[visit_sequence(s, batch)[t] as int].delta_p@;
            let qk = 2 * crate::admission::dot(p, d, M as int) + sum_sq(d, M as int);
            let half = if qk >= 0 { qk / 2 } else { -((-qk) / 2) };
            admission_outcome(s, batch).admitted.contains(#[trigger] visit_sequence(s, batch)[t])
                <==> ((sum_sq(p, M as int) + sum_sq(s.0, M as int)) / 2 + half <= E_MAX
                    && forall|i: int| 0 <= i < M ==> -P_SITE_MAX <= #[trigger] wrap64(p[i] + d[i]) <= P_SITE_MAX)
        },
{
    lemma_decision_per_transaction(s, batch);
    let v = visit_sequence(s, batch);
    assert forall|t: int| pass1_order(s.1, batch).len() <= t < v.len() implies {
        let p = state_before(s, batch, t).p;
        let d = batch[v[t] as int].delta_p@;
        let qk = 2 * crate::admission::dot(p, d, M as int) + sum_sq(d, M as int);
        let half = if qk >= 0 { qk / 2 } else { -((-qk) / 2) };
        admission_outcome(s, batch).admitted.contains(#[trigger] v[t])
            <==> ((sum_sq(p, M as int) + sum_sq(s.0, M as int)) / 2 + half <= E_MAX
                && forall|i: int| 0 <= i < M ==> -P_SITE_MAX <= #[trigger] wrap64(p[i] + d[i]) <= P_SITE_MAX)
    } by {
        let p = state_before(s, batch, t).p;
        let d = batch[v[t] as int].delta_p@;
        let qq = sum_sq(s.0, M as int);
        lemma_momenta_before(s, batch, t);
        assert(KAPPA * qq == qq) by (nonlinear_arith)
            requires
                KAPPA == 1,
        ;
        assert(energy(s.0, p) == (sum_sq(p, M as int) + qq) / 2);
        assert forall|i: int| 0 <= i < M implies
            (magnitude(#[trigger] add_wrap(p, d)[i] as int) <= P_SITE_MAX
                <==> -P_SITE_MAX <= wrap64(p[i] + d[i]) <= P_SITE_MAX) by {
            lemma_wrapping_add(p[i], d[i]);
        }
        if forall|i: int| 0 <= i < M ==> magnitude(#[trigger] add_wrap(p, d)[i] as int) <= P_SITE_MAX {
            assert forall|i: int| 0 <= i < M implies -P_SITE_MAX <= #[trigger] wrap64(p[i] + d[i]) <= P_SITE_MAX by {
                assert(magnitude(add_wrap(p, d)[i] as int) <= P_SITE_MAX);
            }
        }
        if forall|i: int| 0 <= i < M ==> -P_SITE_MAX <= #[trigger] wrap64(p[i] + d[i]) <= P_SITE_MAX {
            assert forall|i: int| 0 <= i < M implies magnitude(#[trigger] add_wrap(p, d)[i] as int) <= P_SITE_MAX by {
                assert(-P_SITE_MAX <= wrap64(p[i] + d[i]) <= P_SITE_MAX);
            }
        }
    }
}

} // verus!
