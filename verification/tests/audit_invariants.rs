use std::f64::consts::PI;

/// Pillar 3: Dynamic phase recurrence divergence & non-convergence to static float 3.1730059
#[test]
fn test_phase_recurrence_non_convergence() {
    let mut b_n = 0.0f64;
    let h = 1.5f64;
    let target_float = 3.1730059f64;
    let mut unmodulated_sum = 0.0f64;

    for n in 2..=10_000 {
        let step = h * ((n as f64).ln() / (n as f64));
        unmodulated_sum += step;
        b_n = (b_n + step) % (2.0 * PI);

        // Step size must monotonically shrink toward zero
        let next_step = h * (((n + 1) as f64).ln() / ((n + 1) as f64));
        if n > 3 {
            assert!(next_step < step, "Step size is not monotonically decreasing at n={}", n);
        }
    }

    // Unmodulated length must diverge
    assert!(unmodulated_sum > 10.0, "Sum of (ln n)/n should diverge");

    // The sequence is dynamical and does not settle on the float literal
    assert!(
        (b_n - target_float).abs() > 1e-4,
        "Recurrence state unlawfully settled on literal {}: b_n = {}",
        target_float,
        b_n
    );
}

/// Pillar 2: Curvature scale collapse test (ratio depends on r/R)
#[test]
fn test_hyperbolic_scale_dependence() {
    let hyperbolic_ratio = |x: f64| -> f64 { PI * x.sinh() / x };

    let x0 = 0.24458;
    let val_at_x0 = hyperbolic_ratio(x0);
    assert!((val_at_x0 - 3.17300858).abs() < 1e-4);

    // Scale dilation r -> 2r
    let x_dilated = 2.0 * x0;
    let val_dilated = hyperbolic_ratio(x_dilated);

    assert!(
        (val_dilated - val_at_x0).abs() > 0.01,
        "Hyperbolic ratio must depend on scale: f(x0) = {}, f(2x0) = {}",
        val_at_x0,
        val_dilated
    );
}
