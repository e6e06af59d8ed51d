use symplectic_test::{
    forward_lifting_ntt, inverse_lifting_ntt, inverse_symplectic_step, symplectic_step, LatticeState, M,
};

#[test]
fn lifting_round_trip_on_reference_signal() {
    let initial_signal: [i64; M] = [1054, -9823, 77123, -4, 553, -29841, 12, 908123];
    let mut signal = initial_signal;
    forward_lifting_ntt(&mut signal);
    assert_ne!(signal, initial_signal);
    inverse_lifting_ntt(&mut signal);
    assert_eq!(signal, initial_signal);
}

#[test]
fn lifting_forward_of_unit_impulse() {
    let mut x: [i64; M] = [1, 0, 0, 0, 0, 0, 0, 0];
    forward_lifting_ntt(&mut x);
    assert_eq!(x, [0, -1, 0, 0, 0, 1, 0, -1]);
    inverse_lifting_ntt(&mut x);
    assert_eq!(x, [1, 0, 0, 0, 0, 0, 0, 0]);
}

#[test]
fn lifting_round_trip_at_the_edges_of_i64() {
    let edge: [i64; M] = [i64::MAX, i64::MIN, -1, i64::MAX, i64::MIN, 0, i64::MIN, i64::MAX];
    let mut x = edge;
    forward_lifting_ntt(&mut x);
    inverse_lifting_ntt(&mut x);
    assert_eq!(x, edge);
    let mut y = edge;
    inverse_lifting_ntt(&mut y);
    forward_lifting_ntt(&mut y);
    assert_eq!(y, edge);
}

#[test]
fn new_state_is_at_rest() {
    let s = LatticeState::new();
    assert_eq!(s.q, [0; M]);
    assert_eq!(s.p, [0; M]);
    assert_eq!(s.compute_energy(), 0);
}

fn reference_state() -> LatticeState {
    let mut state = LatticeState::new();
    state.q = [100, -50, 200, -150, 80, -30, 40, -10];
    state.p = [10, -20, 15, -5, 25, -15, 8, -12];
    state
}

#[test]
fn energy_of_reference_state() {
    // |p|^2 = 1808, |q|^2 = 84000
    assert_eq!(reference_state().compute_energy(), (1808 + 84000) / 2);
}

#[test]
fn energy_rounds_down() {
    let mut s = LatticeState::new();
    s.p[3] = 1;
    assert_eq!(s.compute_energy(), 0);
    s.q[5] = -1;
    assert_eq!(s.compute_energy(), 1);
}

#[test]
fn one_symplectic_step_sends_q_p_to_p_and_p_minus_q() {
    let mut state = reference_state();
    symplectic_step(&mut state);
    assert_eq!(state.q, [10, -20, 15, -5, 25, -15, 8, -12]);
    assert_eq!(state.p, [-90, 30, -185, 145, -55, 15, -32, -2]);
}

#[test]
fn symplectic_orbit_has_period_six() {
    let initial = reference_state();
    let mut state = initial.clone();
    for _ in 0..5 {
        symplectic_step(&mut state);
        assert_ne!(state, initial);
    }
    symplectic_step(&mut state);
    assert_eq!(state, initial);
}

#[test]
fn symplectic_steps_reverse_bit_exactly() {
    let initial = reference_state();
    let mut state = initial.clone();
    for _ in 0..1_000_000 {
        symplectic_step(&mut state);
    }
    for _ in 0..1_000_000 {
        inverse_symplectic_step(&mut state);
    }
    assert_eq!(state, initial);
}

#[test]
fn symplectic_step_wraps_and_still_reverses() {
    let mut state = LatticeState::new();
    state.q = [i64::MIN, i64::MAX, -1, 1, i64::MIN, 0, i64::MAX, 7];
    state.p = [i64::MAX, i64::MIN, i64::MIN, i64::MAX, i64::MIN, i64::MIN, i64::MAX, -7];
    let initial = state.clone();
    symplectic_step(&mut state);
    assert_eq!(state.q[0], i64::MAX);
    assert_eq!(state.p[0], -1);
    inverse_symplectic_step(&mut state);
    assert_eq!(state, initial);
    inverse_symplectic_step(&mut state);
    symplectic_step(&mut state);
    assert_eq!(state, initial);
}
