use symplectic_test::admission::checked_q_metric;
use symplectic_test::{
    compute_q_metric, process_batch, try_process_batch, unwind_admitted, LatticeState, RejectionCause, Transaction, E_MAX, M,
    P_SITE_MAX,
};

fn reference_state() -> LatticeState {
    let mut state = LatticeState::new();
    state.q = [100, -50, 200, -150, 80, -30, 40, -10];
    state.p = [10, -20, 15, -5, 25, -15, 8, -12];
    state
}

fn reference_batch() -> Vec<Transaction> {
    vec![
        Transaction { delta_p: [-8, 15, -12, 4, -20, 10, -6, 10], utility: 50 },
        Transaction { delta_p: [-2, 5, -3, 1, -5, 5, -2, 2], utility: 80 },
        Transaction { delta_p: [50, 50, 50, 50, 50, 50, 50, 50], utility: 120 },
        Transaction { delta_p: [40_000, 0, 0, 0, 0, 0, 0, 0], utility: 1000 },
        Transaction { delta_p: [10, -5, 12, -8, 6, -4, 2, -1], utility: 300 },
    ]
}

#[test]
fn q_metric_values() {
    let s = reference_state();
    let b = reference_batch();
    assert_eq!(compute_q_metric(&s.p, &b[0].delta_p), -1711);
    assert_eq!(compute_q_metric(&s.p, &b[1].delta_p), -723);
    assert_eq!(compute_q_metric(&s.p, &b[2].delta_p), 20600);
    assert_eq!(compute_q_metric(&s.p, &b[3].delta_p), 1_600_800_000);
    assert_eq!(compute_q_metric(&s.p, &b[4].delta_p), 1706);
    assert_eq!(compute_q_metric(&[0; M], &[0; M]), 0);
}

#[test]
fn reference_batch_is_admitted_in_two_passes() {
    let mut state = reference_state();
    let batch = reference_batch();
    let result = process_batch(&mut state, &batch);
    // pass 1 by ascending metric: 0 (-1711), then 1 (-723);
    // pass 2 by descending priority: 4 (180), 2 (5), 3 (0).
    assert_eq!(result.admitted_indices, vec![0, 1, 4, 2]);
    assert_eq!(result.p_rej, [40_000, 0, 0, 0, 0, 0, 0, 0]);
    assert_eq!(result.rejections.len(), 1);
    let r = &result.rejections[0];
    assert_eq!(r.original_idx, 3);
    assert_eq!(r.utility, 1000);
    assert_eq!(r.delta_p, [40_000, 0, 0, 0, 0, 0, 0, 0]);
    assert_eq!(r.cause, RejectionCause::LocalSiteBoundExceeded { site: 0, projected_pi: 40_060, limit: P_SITE_MAX });
    assert_eq!(state.p, [60, 45, 62, 42, 56, 46, 52, 49]);
    assert_eq!(state.q, reference_state().q);
    assert_eq!(state.compute_energy(), 52_795);
    assert!(state.compute_energy() <= E_MAX);
    for p_i in state.p {
        assert!(p_i.abs() <= P_SITE_MAX);
    }
}

#[test]
fn admitted_transactions_unwind_to_the_pre_batch_state() {
    let mut state = reference_state();
    let batch = reference_batch();
    let pre = state.clone();
    let result = process_batch(&mut state, &batch);
    unwind_admitted(&mut state, &batch, &result.admitted_indices);
    assert_eq!(state, pre);
}

#[test]
fn pass1_rejects_a_transaction_whose_metric_turned_positive() {
    let mut state = LatticeState::new();
    state.p[0] = 10;
    let mut d = [0i64; M];
    d[0] = -10;
    let batch = vec![Transaction { delta_p: d, utility: 1 }, Transaction { delta_p: d, utility: 2 }];
    let result = process_batch(&mut state, &batch);
    assert_eq!(result.admitted_indices, vec![0]);
    assert_eq!(result.rejections.len(), 1);
    assert_eq!(result.rejections[0].original_idx, 1);
    assert_eq!(result.rejections[0].cause, RejectionCause::Pass1MonotonicityFlip { q_k: 100 });
    assert_eq!(result.p_rej, d);
    assert_eq!(state.p, [0; M]);
}

#[test]
fn pass2_rejects_on_global_headroom() {
    let mut state = LatticeState::new();
    let batch = vec![Transaction { delta_p: [30_000; M], utility: 5 }];
    let result = process_batch(&mut state, &batch);
    assert!(result.admitted_indices.is_empty());
    assert_eq!(
        result.rejections[0].cause,
        RejectionCause::GlobalHeadroomExceeded { projected_energy: 3_600_000_000, e_max: E_MAX }
    );
    assert_eq!(state.p, [0; M]);
    assert_eq!(result.p_rej, [30_000; M]);
}

#[test]
fn pass2_rejects_on_both_gates() {
    let mut state = LatticeState::new();
    let mut d = [30_000i64; M];
    d[0] = 40_000;
    let batch = vec![Transaction { delta_p: d, utility: 5 }];
    let result = process_batch(&mut state, &batch);
    assert!(result.admitted_indices.is_empty());
    assert_eq!(
        result.rejections[0].cause,
        RejectionCause::DualGlobalAndLocal { projected_energy: 3_950_000_000, site: 0, projected_pi: 40_000 }
    );
}

#[test]
fn pass2_reports_the_first_failing_site() {
    let mut state = LatticeState::new();
    let mut d = [0i64; M];
    d[2] = -30_001;
    d[5] = 50_000;
    let batch = vec![Transaction { delta_p: d, utility: 5 }];
    let result = process_batch(&mut state, &batch);
    assert_eq!(
        result.rejections[0].cause,
        RejectionCause::LocalSiteBoundExceeded { site: 2, projected_pi: -30_001, limit: P_SITE_MAX }
    );
}

#[test]
fn pass2_equal_priorities_keep_batch_order() {
    let mut state = LatticeState::new();
    let mut d = [0i64; M];
    d[1] = 3;
    let batch = vec![
        Transaction { delta_p: d, utility: 10 },
        Transaction { delta_p: d, utility: 99 },
        Transaction { delta_p: d, utility: 10 },
    ];
    let result = process_batch(&mut state, &batch);
    // every metric is 9 at the start: priorities 1137, 11264, 1137.
    assert_eq!(result.admitted_indices, vec![1, 0, 2]);
    let batch2 = vec![
        Transaction { delta_p: d, utility: 7 },
        Transaction { delta_p: d, utility: 7 },
    ];
    let mut fresh = LatticeState::new();
    let result2 = process_batch(&mut fresh, &batch2);
    assert_eq!(result2.admitted_indices, vec![0, 1]);
}

#[test]
fn energy_can_end_one_above_e_max_after_admission() {
    let mut state = LatticeState::new();
    state.q = [63_245, 264, 16, 4, 2, 2, 0, 0];
    assert_eq!(state.compute_energy(), E_MAX);
    let mut d = [0i64; M];
    d[0] = 1;
    let batch = vec![Transaction { delta_p: d, utility: 1 }];
    let result = process_batch(&mut state, &batch);
    assert_eq!(result.admitted_indices, vec![0]);
    assert_eq!(state.compute_energy(), E_MAX + 1);
}

#[test]
fn empty_batch_changes_nothing() {
    let mut state = reference_state();
    let result = process_batch(&mut state, &[]);
    assert!(result.admitted_indices.is_empty());
    assert!(result.rejections.is_empty());
    assert_eq!(result.p_rej, [0; M]);
    assert_eq!(state, reference_state());
}

#[test]
fn admission_wraps_momentum_in_pass1() {
    let mut state = LatticeState::new();
    state.p = [i64::MAX, i64::MAX, 0, 0, 0, 0, 0, 0];
    let mut d = [0i64; M];
    d[0] = 1;
    d[1] = -2;
    let batch = vec![Transaction { delta_p: d, utility: 0 }];
    let pre = state.clone();
    let result = process_batch(&mut state, &batch);
    assert_eq!(result.admitted_indices, vec![0]);
    assert_eq!(state.p[0], i64::MIN);
    assert_eq!(state.p[1], i64::MAX - 2);
    unwind_admitted(&mut state, &batch, &result.admitted_indices);
    assert_eq!(state, pre);
}

#[test]
fn checked_q_metric_reports_overflow() {
    let s = reference_state();
    let b = reference_batch();
    assert_eq!(checked_q_metric(&s.p, &b[4].delta_p), Some(1706));
    assert_eq!(checked_q_metric(&[i64::MAX; M], &[i64::MAX; M]), None);
    // 2 * <p, d> alone overflows although every partial inner product fits
    let mut p = [0i64; M];
    let mut d = [0i64; M];
    p[0] = i64::MAX;
    d[0] = i64::MAX;
    p[1] = i64::MAX;
    d[1] = 1 << 62;
    assert_eq!(checked_q_metric(&p, &d), None);
}

#[test]
fn checked_energy_reports_overflow() {
    let s = reference_state();
    assert_eq!(s.checked_energy(), Some(42_904));
    let mut big = LatticeState::new();
    big.p = [i64::MAX; M];
    assert_eq!(big.checked_energy(), None);
    let mut edge = LatticeState::new();
    edge.p[0] = i64::MIN;
    assert_eq!(edge.checked_energy(), Some(1i128 << 125));
}

#[test]
fn try_process_batch_matches_process_batch_and_reports_overflow() {
    let mut a = reference_state();
    let mut b = reference_state();
    let batch = reference_batch();
    let ra = process_batch(&mut a, &batch);
    let rb = try_process_batch(&mut b, &batch).expect("fits");
    assert_eq!(ra.admitted_indices, rb.admitted_indices);
    assert_eq!(ra.p_rej, rb.p_rej);
    assert_eq!(a, b);

    let mut huge = LatticeState::new();
    huge.p = [i64::MAX; M];
    let overflow = vec![Transaction { delta_p: [i64::MAX; M], utility: 1 }];
    assert!(try_process_batch(&mut huge, &overflow).is_none());

    // the energy overflows only once pass 2 starts
    let mut far = LatticeState::new();
    far.q = [i64::MAX; M];
    let mut d = [0i64; M];
    d[0] = 1;
    let late = vec![Transaction { delta_p: d, utility: 1 }];
    assert!(try_process_batch(&mut far, &late).is_none());
}
