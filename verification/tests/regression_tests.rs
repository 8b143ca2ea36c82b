use linreg::rat::{NumError, Rat};
use linreg::regression::{
    gradient_descent2, linear_estimate, mean_sqsum_loss, mean_sqsum_loss_gradient, ITER_MAX,
};

fn ri(n: i128) -> Rat {
    Rat::from_int(n)
}

/// Design matrix for the two points (1, 3) and (-1, 1), which lie exactly on
/// y = x + 2.
fn design_pm1() -> Vec<Vec<Rat>> {
    vec![vec![ri(1), ri(1)], vec![ri(1), ri(-1)]]
}

fn targets_pm1() -> Vec<Rat> {
    vec![ri(3), ri(1)]
}

#[test]
fn linear_estimate_exact_values() {
    let x = vec![vec![ri(1), ri(2)], vec![ri(1), ri(3)]];
    let w = vec![ri(1), ri(1)];
    let est = linear_estimate(&x, &w).unwrap();
    assert!(est[0].checked_eq(ri(3)).unwrap());
    assert!(est[1].checked_eq(ri(4)).unwrap());
}

#[test]
fn linear_estimate_is_additive_in_weights() {
    // predict(X, w1 + w2) == predict(X, w1) + predict(X, w2)
    let x = vec![
        vec![ri(1), Rat::new(7, 2)],
        vec![ri(1), ri(-4)],
        vec![ri(1), Rat::new(5, 3)],
    ];
    let w1 = vec![Rat::new(1, 2), ri(3)];
    let w2 = vec![ri(-2), Rat::new(4, 5)];
    let wsum: Vec<Rat> = w1
        .iter()
        .zip(w2.iter())
        .map(|(a, b)| a.checked_add(*b).unwrap())
        .collect();
    let e1 = linear_estimate(&x, &w1).unwrap();
    let e2 = linear_estimate(&x, &w2).unwrap();
    let esum = linear_estimate(&x, &wsum).unwrap();
    for i in 0..3 {
        let both = e1[i].checked_add(e2[i]).unwrap();
        assert!(esum[i].checked_eq(both).unwrap());
    }
}

#[test]
fn gradient_exact_values() {
    // at w = 0 the residuals are [-3, -1]: bias gradient -2,
    // feature gradient ((1)(-3) + (-1)(-1)) / 2 = -1
    let g = mean_sqsum_loss_gradient(&design_pm1(), &targets_pm1(), &vec![ri(0), ri(0)]).unwrap();
    assert!(g[0].checked_eq(ri(-2)).unwrap());
    assert!(g[1].checked_eq(ri(-1)).unwrap());
}

#[test]
fn loss_exact_value() {
    // residuals [-3, -1]: loss (9 + 1) / 2 = 5
    let l = mean_sqsum_loss(&design_pm1(), &targets_pm1(), &vec![ri(0), ri(0)]).unwrap();
    assert!(l.checked_eq(ri(5)).unwrap());
}

#[test]
fn descent_converges_to_exact_fit() {
    // y = 1*x + 2 exactly; with this symmetric design and learning rate 1 the
    // trainer lands on [2, 1] after a single update and then halts
    let data = vec![vec![ri(1), ri(3)], vec![ri(-1), ri(1)]];
    let t = gradient_descent2(&data, ri(1), Rat::new(1, 1000)).unwrap();
    assert!(t.converged);
    assert_eq!(t.iterations, 1);
    assert!(t.weights[0].checked_eq(ri(2)).unwrap());
    assert!(t.weights[1].checked_eq(ri(1)).unwrap());
    // the gradient at the returned weights is exactly zero
    let g = mean_sqsum_loss_gradient(&design_pm1(), &targets_pm1(), &t.weights).unwrap();
    assert!(g[0].is_zero());
    assert!(g[1].is_zero());
}

#[test]
fn descent_halts_before_any_update_on_large_threshold() {
    // the first prospective update has magnitude 2; a larger threshold stops
    // the run before any update is applied
    let data = vec![vec![ri(1), ri(3)], vec![ri(-1), ri(1)]];
    let t = gradient_descent2(&data, ri(1), ri(1000000)).unwrap();
    assert!(t.converged);
    assert_eq!(t.iterations, 0);
    assert!(t.weights[0].is_zero());
    assert!(t.weights[1].is_zero());
}

#[test]
fn descent_stops_at_iteration_cap() {
    // with threshold zero the halting test `max < 0` never passes, so the
    // trainer runs exactly ITER_MAX updates and reports no convergence
    let data = vec![vec![ri(0), ri(0)]];
    let t = gradient_descent2(&data, ri(1), Rat::zero()).unwrap();
    assert!(!t.converged);
    assert_eq!(t.iterations, ITER_MAX);
    assert_eq!(t.iterations, 10000);
    assert!(t.weights[0].is_zero());
    assert!(t.weights[1].is_zero());
}

#[test]
fn loss_never_increases_along_a_run() {
    // replay the descent by hand with a small learning rate and watch the
    // mean squared error: it must never increase
    let x = design_pm1();
    let y = targets_pm1();
    let lr = Rat::new(1, 2);
    let mut w = vec![ri(0), ri(0)];
    let mut prev = mean_sqsum_loss(&x, &y, &w).unwrap();
    assert!(prev.checked_eq(ri(5)).unwrap());
    for _ in 0..4 {
        let g = mean_sqsum_loss_gradient(&x, &y, &w).unwrap();
        w = w
            .iter()
            .zip(g.iter())
            .map(|(wk, gk)| {
                let ch = lr.checked_mul(*gk).unwrap();
                wk.checked_sub(ch).unwrap()
            })
            .collect();
        let l = mean_sqsum_loss(&x, &y, &w).unwrap();
        assert!(l.checked_le(prev).unwrap());
        prev = l;
    }
}

#[test]
fn estimate_overflow_is_reported() {
    let big = Rat::new(1 << 100, 1);
    let x = vec![vec![big, big]];
    let w = vec![big, big];
    assert_eq!(linear_estimate(&x, &w).unwrap_err(), NumError::Overflow);
}

#[test]
fn descent_overflow_is_reported() {
    // a huge learning rate makes the iterates explode past the i128 range
    let big = Rat::new(1 << 120, 1);
    let data = vec![vec![ri(2), ri(3)], vec![ri(5), ri(7)]];
    assert_eq!(
        gradient_descent2(&data, big, Rat::zero()).unwrap_err(),
        NumError::Overflow
    );
}
