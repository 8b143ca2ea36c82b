use linreg::normalization::{inv_std_scaler2, mean_std2, std_scaler2};
use linreg::rat::{NumError, Rat};

fn mat(values: &[&[(i128, i128)]]) -> Vec<Vec<Rat>> {
    values
        .iter()
        .map(|row| row.iter().map(|&(n, d)| Rat::new(n, d)).collect())
        .collect()
}

fn sample() -> Vec<Vec<Rat>> {
    // [[4.5, 3.2, 5.6], [6.7, -45.1, 4.89], [1.98, 9.10, 10.22]]
    mat(&[
        &[(450, 100), (320, 100), (560, 100)],
        &[(670, 100), (-4510, 100), (489, 100)],
        &[(198, 100), (910, 100), (1022, 100)],
    ])
}

fn trunc4_mat(m: &Vec<Vec<Rat>>) -> Vec<Vec<i128>> {
    m.iter()
        .map(|row| row.iter().map(|v| v.trunc4().unwrap()).collect())
        .collect()
}

#[test]
fn std_scaler2_test() {
    let a1 = sample();
    let a1_params = mean_std2(&a1).unwrap();
    let scaled = std_scaler2(&a1, &a1_params).unwrap();
    // [[0.0451, 0.4752, -0.4503], [0.9766, -1.1490, -0.6956],
    //  [-1.0218, 0.6737, 1.1459]] to four decimal places
    let expected: Vec<Vec<i128>> = vec![
        vec![451, 4752, -4503],
        vec![9766, -11490, -6956],
        vec![-10218, 6737, 11459],
    ];
    assert_eq!(trunc4_mat(&scaled), expected);
}

#[test]
fn inv_std_scaler2_test() {
    let a1 = sample();
    let a1_params = mean_std2(&a1).unwrap();
    let a2 = std_scaler2(&a1, &a1_params).unwrap();
    let back = inv_std_scaler2(&a2, &a1_params).unwrap();
    assert_eq!(trunc4_mat(&back), trunc4_mat(&sample()));
}

#[test]
fn round_trip_is_exact_not_only_truncated() {
    let a1 = sample();
    let params = mean_std2(&a1).unwrap();
    let a2 = std_scaler2(&a1, &params).unwrap();
    let back = inv_std_scaler2(&a2, &params).unwrap();
    for (row_b, row_a) in back.iter().zip(a1.iter()) {
        for (b, a) in row_b.iter().zip(row_a.iter()) {
            assert!(b.checked_eq(*a).unwrap());
        }
    }
}

#[test]
fn mean_std2_exact_values() {
    // column [2, 4]: mean 3, sample variance 2, std = floor(sqrt(2)*1e9)/1e9
    let a = mat(&[&[(2, 1)], &[(4, 1)]]);
    let p = mean_std2(&a).unwrap();
    assert!(p.mean()[0].checked_eq(Rat::from_int(3)).unwrap());
    assert_eq!(p.std_dev()[0].num(), 1414213562);
    assert_eq!(p.std_dev()[0].den(), 1000000000);
}

#[test]
fn mean_std2_rejects_constant_column() {
    let a = mat(&[&[(7, 1)], &[(7, 1)], &[(7, 1)]]);
    assert_eq!(mean_std2(&a).unwrap_err(), NumError::ZeroStdDev);
}

#[test]
fn mean_std2_overflow_is_reported() {
    let big: i128 = 1 << 100;
    let a = mat(&[&[(big, 1)], &[(-big, 1)]]);
    // the squared deviations do not fit in an i128
    assert_eq!(mean_std2(&a).unwrap_err(), NumError::Overflow);
}

#[test]
fn scaling_a_scaled_matrix_recentred() {
    // scaling its own output again gives mean zero in every column: the
    // transform really uses the parameters handed to it
    let a1 = sample();
    let params = mean_std2(&a1).unwrap();
    let scaled = std_scaler2(&a1, &params).unwrap();
    // per-column sums of the scaled data are exactly zero
    for j in 0..3 {
        let mut acc = Rat::zero();
        for i in 0..3 {
            acc = acc.checked_add(scaled[i][j]).unwrap();
        }
        assert!(acc.is_zero());
    }
}
