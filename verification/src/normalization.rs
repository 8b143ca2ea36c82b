//! Z-score standardization: per-column mean and sample standard deviation
//! (normalized by `n - 1`), the forward scaling transform, and its exact
//! algebraic inverse.
//!
//! Values are exact rationals, so the standard deviation is represented by
//! the integer square root of the variance scaled by `SQRT_SCALE`: the
//! largest rational with denominator `SQRT_SCALE` whose square does not
//! exceed the variance. Its value is pinned by `is_sqrt` in the contracts.

use vstd::prelude::*;
use crate::rat::{
    Rat, Q, NumError, q_wf, q_zero, q_int, q_eq, q_add, q_sub, q_mul, q_div, c_add, c_sub, c_mul,
    c_div, opt_matches, vals, mat_vals, fits, lemma_sub_raw, lemma_mul_raw, lemma_div_raw,
    lemma_add_raw, lemma_mul_div_cancel, lemma_add_sub_cancel, lemma_add_congruence_left,
    lemma_q_eq_trans,
};
use crate::regression::{
    col, seq_wf, mat_wf, mat_rect, c_sum, c_sum_prefix, lemma_c_sum_prefix_none,
};

verus! {

/// Denominator of the standard-deviation approximation: nine decimal digits.
pub const SQRT_SCALE: i128 = 1000000000;

/// `r` is the integer square root (rounded down) of `x`.
pub open spec fn is_sqrt(x: int, r: int) -> bool {
    0 <= r && r * r <= x && x < (r + 1) * (r + 1)
}

/// Number of columns of a rectangular table.
pub open spec fn ncols(x: Seq<Seq<Q>>) -> int {
    if x.len() == 0 {
        0
    } else {
        x[0].len() as int
    }
}

/// Checked mean of column `j`: the column sum divided by the row count.
pub open spec fn c_colmean(x: Seq<Seq<Q>>, j: int) -> Option<Q> {
    match c_sum(col(x, j)) {
        None => None,
        Some(s) => c_div(s, q_int(x.len() as int)),
    }
}

/// Checked sum of squared deviations from `m` over the first `k` rows of
/// column `j`, folded in the order the computation runs: subtract, square,
/// accumulate.
pub open spec fn c_varsum_prefix(x: Seq<Seq<Q>>, j: int, m: Q, k: nat) -> Option<Q>
    decreases k,
{
    if k == 0 {
        Some(q_zero())
    } else {
        match c_varsum_prefix(x, j, m, (k - 1) as nat) {
            None => None,
            Some(acc) => match c_sub(x[k - 1][j], m) {
                None => None,
                Some(dc) => match c_mul(dc, dc) {
                    None => None,
                    Some(sq) => c_add(acc, sq),
                },
            },
        }
    }
}

/// Checked sample variance of column `j` (deviations from the column mean,
/// divided by `rows - 1`).
pub open spec fn c_colvar(x: Seq<Seq<Q>>, j: int) -> Option<Q> {
    match c_colmean(x, j) {
        None => None,
        Some(m) => match c_varsum_prefix(x, j, m, x.len()) {
            None => None,
            Some(s) => c_div(s, q_int(x.len() - 1)),
        },
    }
}

/// Checked variance of column `j` scaled by `SQRT_SCALE^2` and rounded down
/// to an integer; the standard deviation is the integer square root of this.
pub open spec fn c_scaled_var(x: Seq<Seq<Q>>, j: int) -> Option<int> {
    match c_colvar(x, j) {
        None => None,
        Some(v) => if 0 <= v.n && v.n * SQRT_SCALE * SQRT_SCALE <= u128::MAX {
            Some((v.n * SQRT_SCALE * SQRT_SCALE) / v.d)
        } else {
            None
        },
    }
}

/// What computing the parameters of column `j` reports: overflow if the
/// checked chain breaks, a zero standard deviation if the scaled variance
/// rounds down to zero, success otherwise.
pub open spec fn col_status(x: Seq<Seq<Q>>, j: int) -> Result<(), NumError> {
    match c_scaled_var(x, j) {
        None => Err(NumError::Overflow),
        Some(sv) => if sv == 0 {
            Err(NumError::ZeroStdDev)
        } else {
            Ok(())
        },
    }
}

/// Status of the first `k` columns, in order: the first failing column
/// decides the report.
pub open spec fn params_status_prefix(x: Seq<Seq<Q>>, k: nat) -> Result<(), NumError>
    decreases k,
{
    if k == 0 {
        Ok(())
    } else {
        match params_status_prefix(x, (k - 1) as nat) {
            Err(e) => Err(e),
            Ok(u) => col_status(x, (k - 1) as int),
        }
    }
}

proof fn lemma_params_status_prefix_err(x: Seq<Seq<Q>>, e: NumError, k: nat, k2: nat)
    requires
        params_status_prefix(x, k) == Err::<(), NumError>(e),
        k <= k2,
    ensures
        params_status_prefix(x, k2) == Err::<(), NumError>(e),
    decreases k2,
{
    if k < k2 {
        lemma_params_status_prefix_err(x, e, k, (k2 - 1) as nat);
    }
}

/// Per-column standardization parameters: one mean and one sample standard
/// deviation for each column of the reference dataset, aligned by index.
#[derive(Debug)]
pub struct StdParams {
    mean: Vec<Rat>,
    std_dev: Vec<Rat>,
}

impl StdParams {
    /// Models of the column means.
    pub closed spec fn means(self) -> Seq<Q> {
        vals(self.mean@)
    }

    /// Models of the column standard deviations.
    pub closed spec fn stds(self) -> Seq<Q> {
        vals(self.std_dev@)
    }

    /// Parameters are aligned, well-formed, and every standard deviation is
    /// strictly positive, so scaling never divides by zero.
    pub open spec fn wf(self) -> bool {
        &&& self.means().len() == self.stds().len()
        &&& seq_wf(self.means())
        &&& seq_wf(self.stds())
        &&& forall|j: int| 0 <= j < self.stds().len() ==> (#[trigger] self.stds()[j]).n > 0
    }

    pub fn mean(&self) -> (r: &Vec<Rat>)
        ensures
            vals(r@) == self.means(),
    {
        &self.mean
    }

    pub fn std_dev(&self) -> (r: &Vec<Rat>)
        ensures
            vals(r@) == self.stds(),
    {
        &self.std_dev
    }
}

/// Integer square root, rounded down.
fn isqrt_u128(x: u128) -> (r: u128)
    ensures
        is_sqrt(x as int, r as int),
{
    let mut lo: u128 = 0;
    let mut hi: u128 = 18446744073709551616u128;
    proof {
        assert((hi as int) * (hi as int) > u128::MAX as int) by (nonlinear_arith)
            requires
                hi == 18446744073709551616u128,
        ;
    }
    while lo + 1 < hi
        invariant
            lo < hi,
            hi <= 18446744073709551616u128,
            (lo as int) * (lo as int) <= x as int,
            (x as int) < (hi as int) * (hi as int),
        decreases hi - lo,
    {
        let mid = lo + (hi - lo) / 2;
        assert(lo < mid < hi);
        proof {
            assert((mid as int) * (mid as int) <= u128::MAX as int) by (nonlinear_arith)
                requires
                    mid < 18446744073709551616u128,
            ;
        }
        let sq = mid * mid;
        if sq <= x {
            lo = mid;
        } else {
            hi = mid;
        }
    }
    lo
}

/// Scale one value: subtract the column mean, divide by the column standard
/// deviation.
pub open spec fn c_scale_elem(v: Q, m: Q, s: Q) -> Option<Q> {
    match c_sub(v, m) {
        None => None,
        Some(d) => c_div(d, s),
    }
}

/// Unscale one value: multiply by the column standard deviation, add back
/// the column mean.
pub open spec fn c_unscale_elem(v: Q, m: Q, s: Q) -> Option<Q> {
    match c_mul(v, s) {
        None => None,
        Some(p) => c_add(p, m),
    }
}

fn scale_elem(v: Rat, m: Rat, s: Rat) -> (r: Option<Rat>)
    requires
        v.wf(),
        m.wf(),
        s.wf(),
        s@.n != 0,
    ensures
        opt_matches(r, c_scale_elem(v@, m@, s@)),
{
    match v.checked_sub(m) {
        None => None,
        Some(d) => d.checked_div(s),
    }
}

fn unscale_elem(v: Rat, m: Rat, s: Rat) -> (r: Option<Rat>)
    requires
        v.wf(),
        m.wf(),
        s.wf(),
    ensures
        opt_matches(r, c_unscale_elem(v@, m@, s@)),
{
    match v.checked_mul(s) {
        None => None,
        Some(p) => p.checked_add(m),
    }
}

/// Apply standard scaling along columns: every element becomes its deviation
/// from the column mean in units of the column standard deviation. Pure: the
/// input is not mutated.
#[verifier::loop_isolation(false)]
pub fn std_scaler2(array: &Vec<Vec<Rat>>, params: &StdParams) -> (r: Result<Vec<Vec<Rat>>, NumError>)
    requires
        mat_rect(mat_vals(array@), params.means().len() as int),
        mat_wf(mat_vals(array@)),
        params.wf(),
    ensures
        ({
            let xv = mat_vals(array@);
            let cols = params.means().len() as int;
            match r {
                Ok(out) => {
                    &&& out@.len() == array@.len()
                    &&& mat_rect(mat_vals(out@), cols)
                    &&& mat_wf(mat_vals(out@))
                    &&& forall|i: int, j: int|
                        0 <= i < xv.len() && 0 <= j < cols ==> c_scale_elem(
                            xv[i][j],
                            params.means()[j],
                            params.stds()[j],
                        ) == Some(#[trigger] mat_vals(out@)[i][j])
                },
                Err(e) => e == NumError::Overflow && exists|i: int, j: int|
                    0 <= i < xv.len() && 0 <= j < cols && (#[trigger] c_scale_elem(
                        xv[i][j],
                        params.means()[j],
                        params.stds()[j],
                    )) is None,
            }
        }),
{
    let ghost xv = mat_vals(array@);
    let cols = params.mean().len();
    let mut out: Vec<Vec<Rat>> = Vec::new();
    let mut i: usize = 0;
    while i < array.len()
        invariant
            i <= array@.len(),
            out@.len() == i,
            forall|i2: int| 0 <= i2 < i ==> (#[trigger] mat_vals(out@)[i2]).len() == cols,
            forall|i2: int| 0 <= i2 < i ==> seq_wf(#[trigger] mat_vals(out@)[i2]),
            forall|i2: int, j: int|
                0 <= i2 < i && 0 <= j < cols ==> c_scale_elem(
                    xv[i2][j],
                    params.means()[j],
                    params.stds()[j],
                ) == Some(#[trigger] mat_vals(out@)[i2][j]),
        decreases array@.len() - i,
    {
        let mut row: Vec<Rat> = Vec::new();
        let mut j: usize = 0;
        while j < cols
            invariant
                0 <= i < array@.len(),
                j <= cols,
                row@.len() == j,
                seq_wf(vals(row@)),
                forall|j2: int|
                    0 <= j2 < j ==> c_scale_elem(
                        xv[i as int][j2],
                        params.means()[j2],
                        params.stds()[j2],
                    ) == Some(#[trigger] vals(row@)[j2]),
            decreases cols - j,
        {
            proof {
                assert(vals(array@[i as int]@) == xv[i as int]);
                assert(xv[i as int][j as int] == array@[i as int]@[j as int]@);
                assert(params.means()[j as int] == params.mean@[j as int]@);
                assert(params.stds()[j as int] == params.std_dev@[j as int]@);
            }
            let m = params.mean()[j];
            let s = params.std_dev()[j];
            let e = match scale_elem(array[i][j], m, s) {
                None => {
                    return Err(NumError::Overflow);
                },
                Some(v) => v,
            };
            let ghost pre = vals(row@);
            row.push(e);
            proof {
                assert(vals(row@) =~= pre.push(e@));
            }
            j += 1;
        }
        let ghost prem = mat_vals(out@);
        out.push(row);
        proof {
            assert(mat_vals(out@) =~= prem.push(vals(out@[out@.len() - 1]@)));
        }
        i += 1;
    }
    Ok(out)
}

/// Apply the inverse of standard scaling along columns: multiply by the
/// column standard deviation and add back the column mean. Pure: the input
/// is not mutated.
#[verifier::loop_isolation(false)]
pub fn inv_std_scaler2(array: &Vec<Vec<Rat>>, params: &StdParams) -> (r: Result<
    Vec<Vec<Rat>>,
    NumError,
>)
    requires
        mat_rect(mat_vals(array@), params.means().len() as int),
        mat_wf(mat_vals(array@)),
        params.wf(),
    ensures
        ({
            let xv = mat_vals(array@);
            let cols = params.means().len() as int;
            match r {
                Ok(out) => {
                    &&& out@.len() == array@.len()
                    &&& mat_rect(mat_vals(out@), cols)
                    &&& mat_wf(mat_vals(out@))
                    &&& forall|i: int, j: int|
                        0 <= i < xv.len() && 0 <= j < cols ==> c_unscale_elem(
                            xv[i][j],
                            params.means()[j],
                            params.stds()[j],
                        ) == Some(#[trigger] mat_vals(out@)[i][j])
                },
                Err(e) => e == NumError::Overflow && exists|i: int, j: int|
                    0 <= i < xv.len() && 0 <= j < cols && (#[trigger] c_unscale_elem(
                        xv[i][j],
                        params.means()[j],
                        params.stds()[j],
                    )) is None,
            }
        }),
{
    let ghost xv = mat_vals(array@);
    let cols = params.mean().len();
    let mut out: Vec<Vec<Rat>> = Vec::new();
    let mut i: usize = 0;
    while i < array.len()
        invariant
            i <= array@.len(),
            out@.len() == i,
            forall|i2: int| 0 <= i2 < i ==> (#[trigger] mat_vals(out@)[i2]).len() == cols,
            forall|i2: int| 0 <= i2 < i ==> seq_wf(#[trigger] mat_vals(out@)[i2]),
            forall|i2: int, j: int|
                0 <= i2 < i && 0 <= j < cols ==> c_unscale_elem(
                    xv[i2][j],
                    params.means()[j],
                    params.stds()[j],
                ) == Some(#[trigger] mat_vals(out@)[i2][j]),
        decreases array@.len() - i,
    {
        let mut row: Vec<Rat> = Vec::new();
        let mut j: usize = 0;
        while j < cols
            invariant
                0 <= i < array@.len(),
                j <= cols,
                row@.len() == j,
                seq_wf(vals(row@)),
                forall|j2: int|
                    0 <= j2 < j ==> c_unscale_elem(
                        xv[i as int][j2],
                        params.means()[j2],
                        params.stds()[j2],
                    ) == Some(#[trigger] vals(row@)[j2]),
            decreases cols - j,
        {
            proof {
                assert(vals(array@[i as int]@) == xv[i as int]);
                assert(xv[i as int][j as int] == array@[i as int]@[j as int]@);
                assert(params.means()[j as int] == params.mean@[j as int]@);
                assert(params.stds()[j as int] == params.std_dev@[j as int]@);
            }
            let m = params.mean()[j];
            let s = params.std_dev()[j];
            let e = match unscale_elem(array[i][j], m, s) {
                None => {
                    return Err(NumError::Overflow);
                },
                Some(v) => v,
            };
            let ghost pre = vals(row@);
            row.push(e);
            proof {
                assert(vals(row@) =~= pre.push(e@));
            }
            j += 1;
        }
        let ghost prem = mat_vals(out@);
        out.push(row);
        proof {
            assert(mat_vals(out@) =~= prem.push(vals(out@[out@.len() - 1]@)));
        }
        i += 1;
    }
    Ok(out)
}

/// Compute per-column mean and sample standard deviation over the
/// observation axis. Needs at least two rows (the sample variance divides by
/// `rows - 1`); reports a zero standard deviation as an error, so the
/// returned parameters always admit scaling.
#[verifier::loop_isolation(false)]
pub fn mean_std2(array: &Vec<Vec<Rat>>) -> (r: Result<StdParams, NumError>)
    requires
        array@.len() >= 2,
        mat_rect(mat_vals(array@), ncols(mat_vals(array@))),
        mat_wf(mat_vals(array@)),
    ensures
        ({
            let xv = mat_vals(array@);
            let cols = ncols(xv);
            match r {
                Ok(p) => {
                    &&& p.wf()
                    &&& p.means().len() == cols
                    &&& p.stds().len() == cols
                    &&& params_status_prefix(xv, cols as nat) is Ok
                    &&& forall|j: int|
                        0 <= j < cols ==> c_colmean(xv, j) == Some(#[trigger] p.means()[j])
                    &&& forall|j: int|
                        0 <= j < cols ==> (#[trigger] p.stds()[j]).d == SQRT_SCALE as int
                            && c_scaled_var(xv, j) is Some && is_sqrt(
                            c_scaled_var(xv, j).unwrap(),
                            p.stds()[j].n,
                        )
                },
                Err(e) => params_status_prefix(xv, cols as nat) == Err::<(), NumError>(e),
            }
        }),
{
    let ghost xv = mat_vals(array@);
    let ghost cols_g = ncols(xv);
    let rows = array.len();
    let cols = array[0].len();
    proof {
        assert(vals(array@[0]@) == xv[0]);
        assert(cols as int == cols_g);
    }
    let n_rat = Rat::from_int(rows as i128);
    let n1_rat = Rat::from_int((rows - 1) as i128);
    proof {
        assert(n_rat@ == q_int(rows as int));
        assert(n1_rat@ == q_int(rows as int - 1));
        assert(n_rat@.n != 0);
        assert(n1_rat@.n != 0);
    }
    let mut means: Vec<Rat> = Vec::new();
    let mut stds: Vec<Rat> = Vec::new();
    let mut j: usize = 0;
    while j < cols
        invariant
            j <= cols,
            means@.len() == j,
            stds@.len() == j,
            seq_wf(vals(means@)),
            seq_wf(vals(stds@)),
            params_status_prefix(xv, j as nat) is Ok,
            forall|j2: int| 0 <= j2 < j ==> c_colmean(xv, j2) == Some(#[trigger] vals(means@)[j2]),
            forall|j2: int|
                0 <= j2 < j ==> (#[trigger] vals(stds@)[j2]).d == SQRT_SCALE as int && vals(
                    stds@,
                )[j2].n > 0 && c_scaled_var(xv, j2) is Some && is_sqrt(
                    c_scaled_var(xv, j2).unwrap(),
                    vals(stds@)[j2].n,
                ),
        decreases cols - j,
    {
        let ghost cj = col(xv, j as int);
        // column sum
        let mut s = Rat::zero();
        let mut i: usize = 0;
        while i < rows
            invariant
                i <= rows,
                0 <= j < cols,
                cj == col(xv, j as int),
                s.wf(),
                c_sum_prefix(cj, i as nat) == Some(s@),
            decreases rows - i,
        {
            proof {
                assert(vals(array@[i as int]@) == xv[i as int]);
                assert(cj[i as int] == xv[i as int][j as int]);
                assert(xv[i as int][j as int] == array@[i as int]@[j as int]@);
            }
            let s2 = match s.checked_add(array[i][j]) {
                None => {
                    proof {
                        lemma_c_sum_prefix_none(cj, (i + 1) as nat, cj.len());
                        assert(col_status(xv, j as int) == Err::<(), NumError>(NumError::Overflow));
                        assert(params_status_prefix(xv, (j + 1) as nat) == Err::<(), NumError>(
                            NumError::Overflow,
                        ));
                        lemma_params_status_prefix_err(
                            xv,
                            NumError::Overflow,
                            (j + 1) as nat,
                            cols_g as nat,
                        );
                    }
                    return Err(NumError::Overflow);
                },
                Some(v) => v,
            };
            s = s2;
            i += 1;
        }
        proof {
            assert(cj.len() == xv.len());
            assert(c_sum(cj) == Some(s@));
        }
        let m = match s.checked_div(n_rat) {
            None => {
                proof {
                    assert(col_status(xv, j as int) == Err::<(), NumError>(NumError::Overflow));
                    lemma_params_status_prefix_err(
                        xv,
                        NumError::Overflow,
                        (j + 1) as nat,
                        cols_g as nat,
                    );
                }
                return Err(NumError::Overflow);
            },
            Some(v) => v,
        };
        proof {
            assert(c_colmean(xv, j as int) == Some(m@));
        }
        // sum of squared deviations from the mean
        let mut acc = Rat::zero();
        let mut i2: usize = 0;
        while i2 < rows
            invariant
                i2 <= rows,
                0 <= j < cols,
                m.wf(),
                acc.wf(),
                acc@.n >= 0,
                c_varsum_prefix(xv, j as int, m@, i2 as nat) == Some(acc@),
            decreases rows - i2,
        {
            proof {
                assert(vals(array@[i2 as int]@) == xv[i2 as int]);
                assert(xv[i2 as int][j as int] == array@[i2 as int]@[j as int]@);
            }
            let dc = match array[i2][j].checked_sub(m) {
                None => {
                    proof {
                        lemma_c_varsum_prefix_none(xv, j as int, m@, (i2 + 1) as nat, xv.len());
                        assert(col_status(xv, j as int) == Err::<(), NumError>(NumError::Overflow));
                        lemma_params_status_prefix_err(
                            xv,
                            NumError::Overflow,
                            (j + 1) as nat,
                            cols_g as nat,
                        );
                    }
                    return Err(NumError::Overflow);
                },
                Some(v) => v,
            };
            let sq = match dc.checked_mul(dc) {
                None => {
                    proof {
                        lemma_c_varsum_prefix_none(xv, j as int, m@, (i2 + 1) as nat, xv.len());
                        assert(col_status(xv, j as int) == Err::<(), NumError>(NumError::Overflow));
                        lemma_params_status_prefix_err(
                            xv,
                            NumError::Overflow,
                            (j + 1) as nat,
                            cols_g as nat,
                        );
                    }
                    return Err(NumError::Overflow);
                },
                Some(v) => v,
            };
            proof {
                assert(sq@.n >= 0) by (nonlinear_arith)
                    requires
                        sq@ == q_mul(dc@, dc@),
                ;
            }
            let acc2 = match acc.checked_add(sq) {
                None => {
                    proof {
                        lemma_c_varsum_prefix_none(xv, j as int, m@, (i2 + 1) as nat, xv.len());
                        assert(col_status(xv, j as int) == Err::<(), NumError>(NumError::Overflow));
                        lemma_params_status_prefix_err(
                            xv,
                            NumError::Overflow,
                            (j + 1) as nat,
                            cols_g as nat,
                        );
                    }
                    return Err(NumError::Overflow);
                },
                Some(v) => v,
            };
            proof {
                assert(acc2@.n >= 0) by (nonlinear_arith)
                    requires
                        acc2@ == q_add(acc@, sq@),
                        acc@.n >= 0,
                        sq@.n >= 0,
                        acc@.d > 0,
                        sq@.d > 0,
                ;
            }
            acc = acc2;
            i2 += 1;
        }
        let var = match acc.checked_div(n1_rat) {
            None => {
                proof {
                    assert(col_status(xv, j as int) == Err::<(), NumError>(NumError::Overflow));
                    lemma_params_status_prefix_err(
                        xv,
                        NumError::Overflow,
                        (j + 1) as nat,
                        cols_g as nat,
                    );
                }
                return Err(NumError::Overflow);
            },
            Some(v) => v,
        };
        proof {
            assert(c_colvar(xv, j as int) == Some(var@));
            assert(var@.n == acc@.n && var@.d > 0 || var@.n == 0) by {
                assert(var@ == q_div(acc@, q_int(rows as int - 1)));
            }
            assert(var@.n >= 0);
        }
        // scale the variance by SQRT_SCALE^2 and take the integer square root
        let scaled = match (var.num() as u128).checked_mul(
            1000000000000000000u128,
        ) {
            None => {
                proof {
                    assert(var@.n * SQRT_SCALE * SQRT_SCALE == var@.n * (
                        1000000000000000000int
                    )) by (nonlinear_arith);
                    assert(col_status(xv, j as int) == Err::<(), NumError>(NumError::Overflow));
                    lemma_params_status_prefix_err(
                        xv,
                        NumError::Overflow,
                        (j + 1) as nat,
                        cols_g as nat,
                    );
                }
                return Err(NumError::Overflow);
            },
            Some(v) => v,
        };
        proof {
            assert(var@.n * SQRT_SCALE * SQRT_SCALE == var@.n * (1000000000000000000int))
                by (nonlinear_arith);
        }
        let sv = scaled / (var.den() as u128);
        proof {
            assert(var@.d > 0);
            assert(sv as int == (var@.n * SQRT_SCALE * SQRT_SCALE) / var@.d);
            assert(c_scaled_var(xv, j as int) == Some(sv as int));
        }
        let sd = isqrt_u128(sv);
        if sd == 0 {
            proof {
                assert(sv == 0) by (nonlinear_arith)
                    requires
                        is_sqrt(sv as int, 0),
                ;
                assert(col_status(xv, j as int) == Err::<(), NumError>(NumError::ZeroStdDev));
                lemma_params_status_prefix_err(
                    xv,
                    NumError::ZeroStdDev,
                    (j + 1) as nat,
                    cols_g as nat,
                );
            }
            return Err(NumError::ZeroStdDev);
        }
        proof {
            assert(sd < 18446744073709551616u128) by (nonlinear_arith)
                requires
                    is_sqrt(sv as int, sd as int),
                    sv <= u128::MAX,
            ;
        }
        let ghost prem = vals(means@);
        let ghost pres = vals(stds@);
        means.push(m);
        stds.push(Rat::new(sd as i128, SQRT_SCALE));
        proof {
            assert(vals(means@) =~= prem.push(m@));
            assert(vals(stds@) =~= pres.push(
                Q { n: sd as int, d: SQRT_SCALE as int },
            ));
            assert(sv > 0) by (nonlinear_arith)
                requires
                    is_sqrt(sv as int, sd as int),
                    sd >= 1,
            ;
            assert(col_status(xv, j as int) is Ok);
        }
        j += 1;
    }
    Ok(StdParams { mean: means, std_dev: stds })
}

proof fn lemma_c_varsum_prefix_none(x: Seq<Seq<Q>>, j: int, m: Q, k: nat, k2: nat)
    requires
        c_varsum_prefix(x, j, m, k) is None,
        k <= k2,
    ensures
        c_varsum_prefix(x, j, m, k2) is None,
    decreases k2,
{
    if k < k2 {
        lemma_c_varsum_prefix_none(x, j, m, k, (k2 - 1) as nat);
    }
}

/// Round trip for one value: scaling and then unscaling with the same
/// parameters gives back exactly the value started from, for any mean and
/// any nonzero standard deviation.
pub proof fn lemma_scale_unscale_elem(v: Q, m: Q, s: Q, sc: Q, u: Q)
    requires
        q_wf(v),
        q_wf(m),
        q_wf(s),
        s.n != 0,
        c_scale_elem(v, m, s) == Some(sc),
        c_unscale_elem(sc, m, s) == Some(u),
    ensures
        q_eq(u, v),
{
    let d = q_sub(v, m);
    lemma_sub_raw(v, m);
    assert(sc == q_div(d, s));
    lemma_div_raw(d, s);
    lemma_mul_div_cancel(d, s);
    let p = q_mul(sc, s);
    lemma_mul_raw(sc, s);
    assert(q_eq(p, d));
    lemma_add_congruence_left(p, d, m);
    lemma_add_sub_cancel(v, m);
    lemma_add_raw(p, m);
    lemma_add_raw(d, m);
    lemma_q_eq_trans(q_add(p, m), q_add(d, m), v);
    assert(u == q_add(p, m));
}

/// Round trip for a whole dataset: whenever scaling a table and unscaling
/// the result both succeed with the same parameters, every entry of the
/// final table denotes exactly the entry of the original.
pub proof fn lemma_round_trip(
    x: Seq<Seq<Q>>,
    means: Seq<Q>,
    stds: Seq<Q>,
    scaled: Seq<Seq<Q>>,
    back: Seq<Seq<Q>>,
)
    requires
        mat_wf(x),
        mat_rect(x, means.len() as int),
        seq_wf(means),
        seq_wf(stds),
        stds.len() == means.len(),
        forall|j: int| 0 <= j < stds.len() ==> (#[trigger] stds[j]).n != 0,
        forall|i: int, j: int|
            0 <= i < x.len() && 0 <= j < means.len() ==> c_scale_elem(x[i][j], means[j], stds[j])
                == Some(#[trigger] scaled[i][j]),
        forall|i: int, j: int|
            0 <= i < x.len() && 0 <= j < means.len() ==> c_unscale_elem(
                scaled[i][j],
                means[j],
                stds[j],
            ) == Some(#[trigger] back[i][j]),
    ensures
        forall|i: int, j: int|
            0 <= i < x.len() && 0 <= j < means.len() ==> q_eq(#[trigger] back[i][j], x[i][j]),
{
    assert forall|i: int, j: int|
        0 <= i < x.len() && 0 <= j < means.len() implies q_eq(#[trigger] back[i][j], x[i][j]) by {
        assert(q_wf(x[i][j]));
        lemma_scale_unscale_elem(x[i][j], means[j], stds[j], scaled[i][j], back[i][j]);
    }
}

} // verus!
