//! Linear estimator, mean-squared-error loss gradient, and the batch
//! gradient-descent trainer.
//!
//! Each executable routine mirrors, step for step, a checked specification
//! chain (`c_*`): the routine returns the exact rational result whenever every
//! intermediate fits in the machine range, and reports `Overflow` otherwise.

use vstd::prelude::*;
use crate::rat::{
    Rat, Q, NumError, q_wf, q_zero, q_one, q_int, q_eq, q_lt, q_le, q_add, q_sub, q_mul, q_div,
    c_add, c_sub, c_mul, c_div, c_abs, c_lt, opt_matches, vals, mat_vals, lemma_cancel,
    lemma_mul_raw, lemma_add_raw, lemma_add_congruence_left, lemma_q_eq_trans,
};

verus! {

pub open spec fn seq_wf(v: Seq<Q>) -> bool {
    forall|i: int| 0 <= i < v.len() ==> q_wf(#[trigger] v[i])
}

pub open spec fn mat_wf(x: Seq<Seq<Q>>) -> bool {
    forall|i: int| 0 <= i < x.len() ==> seq_wf(#[trigger] x[i])
}

/// Every row has exactly `cols` entries.
pub open spec fn mat_rect(x: Seq<Seq<Q>>, cols: int) -> bool {
    forall|i: int| 0 <= i < x.len() ==> (#[trigger] x[i]).len() == cols
}

/// Column `j` of a table, top to bottom.
pub open spec fn col(x: Seq<Seq<Q>>, j: int) -> Seq<Q> {
    Seq::new(x.len(), |i: int| x[i][j])
}

/// Checked dot product of the first `k` pairs, folded left to right from zero.
pub open spec fn c_dot_prefix(r: Seq<Q>, w: Seq<Q>, k: nat) -> Option<Q>
    decreases k,
{
    if k == 0 {
        Some(q_zero())
    } else {
        match c_dot_prefix(r, w, (k - 1) as nat) {
            None => None,
            Some(acc) => match c_mul(r[k - 1], w[k - 1]) {
                None => None,
                Some(p) => c_add(acc, p),
            },
        }
    }
}

pub open spec fn c_dot(r: Seq<Q>, w: Seq<Q>) -> Option<Q> {
    c_dot_prefix(r, w, r.len())
}

/// Checked predictions for the first `k` rows.
pub open spec fn c_predict_prefix(x: Seq<Seq<Q>>, w: Seq<Q>, k: nat) -> Option<Seq<Q>>
    decreases k,
{
    if k == 0 {
        Some(Seq::empty())
    } else {
        match c_predict_prefix(x, w, (k - 1) as nat) {
            None => None,
            Some(acc) => match c_dot(x[k - 1], w) {
                None => None,
                Some(e) => Some(acc.push(e)),
            },
        }
    }
}

/// Checked prediction: one dot product of row and weights per observation.
pub open spec fn c_predict(x: Seq<Seq<Q>>, w: Seq<Q>) -> Option<Seq<Q>> {
    c_predict_prefix(x, w, x.len())
}

proof fn lemma_c_dot_prefix_none(r: Seq<Q>, w: Seq<Q>, k: nat, k2: nat)
    requires
        c_dot_prefix(r, w, k) is None,
        k <= k2,
    ensures
        c_dot_prefix(r, w, k2) is None,
    decreases k2,
{
    if k < k2 {
        lemma_c_dot_prefix_none(r, w, k, (k2 - 1) as nat);
    }
}

proof fn lemma_c_predict_prefix_none(x: Seq<Seq<Q>>, w: Seq<Q>, k: nat, k2: nat)
    requires
        c_predict_prefix(x, w, k) is None,
        k <= k2,
    ensures
        c_predict_prefix(x, w, k2) is None,
    decreases k2,
{
    if k < k2 {
        lemma_c_predict_prefix_none(x, w, k, (k2 - 1) as nat);
    }
}

/// A result either carries exactly the vector the checked chain denotes, or
/// reports the overflow that made the chain undefined.
pub open spec fn res_matches(r: Result<Vec<Rat>, NumError>, s: Option<Seq<Q>>) -> bool {
    match r {
        Ok(v) => seq_wf(vals(v@)) && s == Some(vals(v@)),
        Err(e) => e == NumError::Overflow && s is None,
    }
}

/// Dot product of one observation row with the weight vector.
fn dot(row: &Vec<Rat>, w: &Vec<Rat>) -> (r: Option<Rat>)
    requires
        row@.len() == w@.len(),
        seq_wf(vals(row@)),
        seq_wf(vals(w@)),
    ensures
        opt_matches(r, c_dot(vals(row@), vals(w@))),
{
    let ghost rv = vals(row@);
    let ghost wv = vals(w@);
    let mut acc = Rat::zero();
    let mut j: usize = 0;
    while j < row.len()
        invariant
            j <= row@.len(),
            row@.len() == w@.len(),
            seq_wf(rv),
            seq_wf(wv),
            rv == vals(row@),
            wv == vals(w@),
            acc.wf(),
            c_dot_prefix(rv, wv, j as nat) == Some(acc@),
        decreases row@.len() - j,
    {
        proof {
            assert(rv[j as int] == row@[j as int]@);
            assert(wv[j as int] == w@[j as int]@);
        }
        let p = match row[j].checked_mul(w[j]) {
            None => {
                proof {
                    lemma_c_dot_prefix_none(rv, wv, (j + 1) as nat, rv.len());
                }
                return None;
            },
            Some(v) => v,
        };
        let acc2 = match acc.checked_add(p) {
            None => {
                proof {
                    lemma_c_dot_prefix_none(rv, wv, (j + 1) as nat, rv.len());
                }
                return None;
            },
            Some(v) => v,
        };
        acc = acc2;
        j += 1;
    }
    Some(acc)
}

/// Calculates linear estimates across all observations: for each row `i` of
/// `estimators`, the dot product of that row with `weights`.
pub fn linear_estimate(estimators: &Vec<Vec<Rat>>, weights: &Vec<Rat>) -> (r: Result<
    Vec<Rat>,
    NumError,
>)
    requires
        mat_rect(mat_vals(estimators@), weights@.len() as int),
        mat_wf(mat_vals(estimators@)),
        seq_wf(vals(weights@)),
    ensures
        res_matches(r, c_predict(mat_vals(estimators@), vals(weights@))),
        r is Ok ==> r.unwrap()@.len() == estimators@.len(),
{
    let ghost xv = mat_vals(estimators@);
    let ghost wv = vals(weights@);
    let mut estimates: Vec<Rat> = Vec::new();
    let mut i: usize = 0;
    while i < estimators.len()
        invariant
            i <= estimators@.len(),
            xv == mat_vals(estimators@),
            wv == vals(weights@),
            mat_rect(xv, wv.len() as int),
            mat_wf(xv),
            seq_wf(wv),
            estimates@.len() == i,
            seq_wf(vals(estimates@)),
            c_predict_prefix(xv, wv, i as nat) == Some(vals(estimates@)),
        decreases estimators@.len() - i,
    {
        assert(vals(estimators@[i as int]@) == xv[i as int]);
        let e = match dot(&estimators[i], weights) {
            None => {
                proof {
                    lemma_c_predict_prefix_none(xv, wv, (i + 1) as nat, xv.len());
                }
                return Err(NumError::Overflow);
            },
            Some(v) => v,
        };
        let ghost pre = vals(estimates@);
        estimates.push(e);
        proof {
            assert(vals(estimates@) =~= pre.push(e@));
        }
        i += 1;
    }
    proof {
        assert(xv.len() == estimators@.len());
    }
    Ok(estimates)
}

/// Checked elementwise difference of the first `k` entries.
pub open spec fn c_vsub_prefix(a: Seq<Q>, b: Seq<Q>, k: nat) -> Option<Seq<Q>>
    decreases k,
{
    if k == 0 {
        Some(Seq::empty())
    } else {
        match c_vsub_prefix(a, b, (k - 1) as nat) {
            None => None,
            Some(acc) => match c_sub(a[k - 1], b[k - 1]) {
                None => None,
                Some(d) => Some(acc.push(d)),
            },
        }
    }
}

pub open spec fn c_vsub(a: Seq<Q>, b: Seq<Q>) -> Option<Seq<Q>> {
    c_vsub_prefix(a, b, a.len())
}

/// Checked sum of the first `k` entries, folded left to right from zero.
pub open spec fn c_sum_prefix(v: Seq<Q>, k: nat) -> Option<Q>
    decreases k,
{
    if k == 0 {
        Some(q_zero())
    } else {
        match c_sum_prefix(v, (k - 1) as nat) {
            None => None,
            Some(acc) => c_add(acc, v[k - 1]),
        }
    }
}

pub open spec fn c_sum(v: Seq<Q>) -> Option<Q> {
    c_sum_prefix(v, v.len())
}

/// Checked gradient components for feature columns `1 .. k`: the dot product
/// of each column with the residual vector.
pub open spec fn c_coldots_prefix(x: Seq<Seq<Q>>, diff: Seq<Q>, k: nat) -> Option<Seq<Q>>
    decreases k,
{
    if k <= 1 {
        Some(Seq::empty())
    } else {
        match c_coldots_prefix(x, diff, (k - 1) as nat) {
            None => None,
            Some(acc) => match c_dot(col(x, k - 1), diff) {
                None => None,
                Some(g) => Some(acc.push(g)),
            },
        }
    }
}

/// Checked division of the first `k` entries by the integer `m`.
pub open spec fn c_vdiv_prefix(v: Seq<Q>, m: int, k: nat) -> Option<Seq<Q>>
    decreases k,
{
    if k == 0 {
        Some(Seq::empty())
    } else {
        match c_vdiv_prefix(v, m, (k - 1) as nat) {
            None => None,
            Some(acc) => match c_div(v[k - 1], q_int(m)) {
                None => None,
                Some(d) => Some(acc.push(d)),
            },
        }
    }
}

pub open spec fn c_vdiv(v: Seq<Q>, m: int) -> Option<Seq<Q>> {
    c_vdiv_prefix(v, m, v.len())
}

/// Checked gradient of the mean squared error at `w`: residuals are the
/// estimates minus the observations; the bias component is the plain sum of
/// the residuals (the bias feature is the constant one), each feature
/// component is the dot product of its column with the residuals, and every
/// component is divided by the number of observations.
pub open spec fn c_grad(x: Seq<Seq<Q>>, y: Seq<Q>, w: Seq<Q>) -> Option<Seq<Q>> {
    match c_predict(x, w) {
        None => None,
        Some(est) => match c_vsub(est, y) {
            None => None,
            Some(diff) => match c_sum(diff) {
                None => None,
                Some(s0) => match c_coldots_prefix(x, diff, w.len()) {
                    None => None,
                    Some(rest) => c_vdiv(seq![s0] + rest, y.len() as int),
                },
            },
        },
    }
}

proof fn lemma_c_vsub_prefix_none(a: Seq<Q>, b: Seq<Q>, k: nat, k2: nat)
    requires
        c_vsub_prefix(a, b, k) is None,
        k <= k2,
    ensures
        c_vsub_prefix(a, b, k2) is None,
    decreases k2,
{
    if k < k2 {
        lemma_c_vsub_prefix_none(a, b, k, (k2 - 1) as nat);
    }
}

pub(crate) proof fn lemma_c_sum_prefix_none(v: Seq<Q>, k: nat, k2: nat)
    requires
        c_sum_prefix(v, k) is None,
        k <= k2,
    ensures
        c_sum_prefix(v, k2) is None,
    decreases k2,
{
    if k < k2 {
        lemma_c_sum_prefix_none(v, k, (k2 - 1) as nat);
    }
}

proof fn lemma_c_coldots_prefix_none(x: Seq<Seq<Q>>, diff: Seq<Q>, k: nat, k2: nat)
    requires
        c_coldots_prefix(x, diff, k) is None,
        k <= k2,
    ensures
        c_coldots_prefix(x, diff, k2) is None,
    decreases k2,
{
    if k < k2 {
        lemma_c_coldots_prefix_none(x, diff, k, (k2 - 1) as nat);
    }
}

proof fn lemma_c_vdiv_prefix_none(v: Seq<Q>, m: int, k: nat, k2: nat)
    requires
        c_vdiv_prefix(v, m, k) is None,
        k <= k2,
    ensures
        c_vdiv_prefix(v, m, k2) is None,
    decreases k2,
{
    if k < k2 {
        lemma_c_vdiv_prefix_none(v, m, k, (k2 - 1) as nat);
    }
}

/// Elementwise difference of two vectors of the same length.
fn vec_sub(a: &Vec<Rat>, b: &Vec<Rat>) -> (r: Option<Vec<Rat>>)
    requires
        a@.len() == b@.len(),
        seq_wf(vals(a@)),
        seq_wf(vals(b@)),
    ensures
        match r {
            Some(v) => seq_wf(vals(v@)) && v@.len() == a@.len() && c_vsub(vals(a@), vals(b@))
                == Some(vals(v@)),
            None => c_vsub(vals(a@), vals(b@)) is None,
        },
{
    let ghost av = vals(a@);
    let ghost bv = vals(b@);
    let mut out: Vec<Rat> = Vec::new();
    let mut k: usize = 0;
    while k < a.len()
        invariant
            k <= a@.len(),
            a@.len() == b@.len(),
            av == vals(a@),
            bv == vals(b@),
            seq_wf(av),
            seq_wf(bv),
            out@.len() == k,
            seq_wf(vals(out@)),
            c_vsub_prefix(av, bv, k as nat) == Some(vals(out@)),
        decreases a@.len() - k,
    {
        proof {
            assert(av[k as int] == a@[k as int]@);
            assert(bv[k as int] == b@[k as int]@);
        }
        let d = match a[k].checked_sub(b[k]) {
            None => {
                proof {
                    lemma_c_vsub_prefix_none(av, bv, (k + 1) as nat, av.len());
                }
                return None;
            },
            Some(v) => v,
        };
        let ghost pre = vals(out@);
        out.push(d);
        proof {
            assert(vals(out@) =~= pre.push(d@));
        }
        k += 1;
    }
    Some(out)
}

/// Sum of a vector, folded left to right from zero.
fn vec_sum(v: &Vec<Rat>) -> (r: Option<Rat>)
    requires
        seq_wf(vals(v@)),
    ensures
        opt_matches(r, c_sum(vals(v@))),
{
    let ghost vv = vals(v@);
    let mut acc = Rat::zero();
    let mut k: usize = 0;
    while k < v.len()
        invariant
            k <= v@.len(),
            vv == vals(v@),
            seq_wf(vv),
            acc.wf(),
            c_sum_prefix(vv, k as nat) == Some(acc@),
        decreases v@.len() - k,
    {
        proof {
            assert(vv[k as int] == v@[k as int]@);
        }
        let acc2 = match acc.checked_add(v[k]) {
            None => {
                proof {
                    lemma_c_sum_prefix_none(vv, (k + 1) as nat, vv.len());
                }
                return None;
            },
            Some(x) => x,
        };
        acc = acc2;
        k += 1;
    }
    Some(acc)
}

/// Gradient of the mean squared error of the linear estimates with respect to
/// the weights. The bias component is computed as the plain sum of residuals,
/// not as a dot product with the constant bias column: over exact rationals
/// both give identical numbers, and the asymmetric formula is the one kept.
#[verifier::loop_isolation(false)]
pub fn mean_sqsum_loss_gradient(
    estimators: &Vec<Vec<Rat>>,
    observations: &Vec<Rat>,
    weights: &Vec<Rat>,
) -> (r: Result<Vec<Rat>, NumError>)
    requires
        estimators@.len() == observations@.len(),
        estimators@.len() >= 1,
        weights@.len() >= 1,
        mat_rect(mat_vals(estimators@), weights@.len() as int),
        mat_wf(mat_vals(estimators@)),
        seq_wf(vals(observations@)),
        seq_wf(vals(weights@)),
    ensures
        res_matches(r, c_grad(mat_vals(estimators@), vals(observations@), vals(weights@))),
        r is Ok ==> r.unwrap()@.len() == weights@.len(),
{
    let ghost xv = mat_vals(estimators@);
    let ghost yv = vals(observations@);
    let ghost wv = vals(weights@);
    let est = match linear_estimate(estimators, weights) {
        Err(_) => {
            return Err(NumError::Overflow);
        },
        Ok(v) => v,
    };
    let diff = match vec_sub(&est, observations) {
        None => {
            return Err(NumError::Overflow);
        },
        Some(v) => v,
    };
    let ghost dv = vals(diff@);
    let s0 = match vec_sum(&diff) {
        None => {
            return Err(NumError::Overflow);
        },
        Some(v) => v,
    };
    let mut tmp: Vec<Rat> = Vec::new();
    tmp.push(s0);
    proof {
        assert(vals(tmp@) =~= seq![s0@]);
    }
    let mut j: usize = 1;
    while j < weights.len()
        invariant
            1 <= j <= weights@.len(),
            xv == mat_vals(estimators@),
            yv == vals(observations@),
            wv == vals(weights@),
            dv == vals(diff@),
            mat_rect(xv, wv.len() as int),
            mat_wf(xv),
            seq_wf(dv),
            estimators@.len() == diff@.len(),
            estimators@.len() >= 1,
            s0.wf(),
            tmp@.len() == j,
            seq_wf(vals(tmp@)),
            vals(tmp@)[0] == s0@,
            c_coldots_prefix(xv, dv, j as nat) == Some(vals(tmp@).subrange(1, j as int)),
        decreases weights@.len() - j,
    {
        // dot product of column j with the residuals
        let mut acc = Rat::zero();
        let mut i: usize = 0;
        let ghost cj = col(xv, j as int);
        while i < estimators.len()
            invariant
                i <= estimators@.len(),
                estimators@.len() == diff@.len(),
                xv == mat_vals(estimators@),
                dv == vals(diff@),
                cj == col(xv, j as int),
                mat_rect(xv, wv.len() as int),
                mat_wf(xv),
                seq_wf(dv),
                0 <= j < wv.len(),
                acc.wf(),
                c_dot_prefix(cj, dv, i as nat) == Some(acc@),
            decreases estimators@.len() - i,
        {
            proof {
                assert(vals(estimators@[i as int]@) == xv[i as int]);
                assert(cj[i as int] == xv[i as int][j as int]);
                assert(xv[i as int][j as int] == estimators@[i as int]@[j as int]@);
                assert(dv[i as int] == diff@[i as int]@);
            }
            let p = match estimators[i][j].checked_mul(diff[i]) {
                None => {
                    proof {
                        lemma_c_dot_prefix_none(cj, dv, (i + 1) as nat, cj.len());
                        assert(c_dot(cj, dv) is None);
                        assert(c_coldots_prefix(xv, dv, (j + 1) as nat) is None);
                        lemma_c_coldots_prefix_none(xv, dv, (j + 1) as nat, wv.len());
                    }
                    return Err(NumError::Overflow);
                },
                Some(v) => v,
            };
            let acc2 = match acc.checked_add(p) {
                None => {
                    proof {
                        lemma_c_dot_prefix_none(cj, dv, (i + 1) as nat, cj.len());
                        assert(c_dot(cj, dv) is None);
                        assert(c_coldots_prefix(xv, dv, (j + 1) as nat) is None);
                        lemma_c_coldots_prefix_none(xv, dv, (j + 1) as nat, wv.len());
                    }
                    return Err(NumError::Overflow);
                },
                Some(v) => v,
            };
            acc = acc2;
            i += 1;
        }
        proof {
            assert(cj.len() == xv.len() == estimators@.len());
            assert(c_dot(cj, dv) == Some(acc@));
        }
        let ghost pre = vals(tmp@);
        tmp.push(acc);
        proof {
            assert(vals(tmp@) =~= pre.push(acc@));
            assert(vals(tmp@).subrange(1, (j + 1) as int) =~= pre.subrange(1, j as int).push(
                acc@,
            ));
        }
        j += 1;
    }
    proof {
        assert(vals(tmp@) =~= seq![s0@] + vals(tmp@).subrange(1, wv.len() as int));
    }
    // divide every component by the number of observations
    let m = Rat::from_int(observations.len() as i128);
    proof {
        assert(m@ == q_int(observations@.len() as int));
        assert(m@.n != 0);
    }
    let ghost gv = vals(tmp@);
    let mut out: Vec<Rat> = Vec::new();
    let mut k: usize = 0;
    while k < tmp.len()
        invariant
            k <= tmp@.len(),
            gv == vals(tmp@),
            seq_wf(gv),
            m.wf(),
            m@ == q_int(observations@.len() as int),
            m@.n != 0,
            out@.len() == k,
            seq_wf(vals(out@)),
            c_vdiv_prefix(gv, observations@.len() as int, k as nat) == Some(vals(out@)),
        decreases tmp@.len() - k,
    {
        proof {
            assert(gv[k as int] == tmp@[k as int]@);
        }
        let d = match tmp[k].checked_div(m) {
            None => {
                proof {
                    lemma_c_vdiv_prefix_none(
                        gv,
                        observations@.len() as int,
                        (k + 1) as nat,
                        gv.len(),
                    );
                }
                return Err(NumError::Overflow);
            },
            Some(v) => v,
        };
        let ghost pre = vals(out@);
        out.push(d);
        proof {
            assert(vals(out@) =~= pre.push(d@));
        }
        k += 1;
    }
    Ok(out)
}

/// Checked sum of squares of the first `k` entries.
pub open spec fn c_sumsq_prefix(v: Seq<Q>, k: nat) -> Option<Q>
    decreases k,
{
    if k == 0 {
        Some(q_zero())
    } else {
        match c_sumsq_prefix(v, (k - 1) as nat) {
            None => None,
            Some(acc) => match c_mul(v[k - 1], v[k - 1]) {
                None => None,
                Some(s) => c_add(acc, s),
            },
        }
    }
}

/// Checked mean squared error: the mean of the squared residuals.
pub open spec fn c_loss(x: Seq<Seq<Q>>, y: Seq<Q>, w: Seq<Q>) -> Option<Q> {
    match c_predict(x, w) {
        None => None,
        Some(est) => match c_vsub(est, y) {
            None => None,
            Some(diff) => match c_sumsq_prefix(diff, diff.len()) {
                None => None,
                Some(s) => c_div(s, q_int(y.len() as int)),
            },
        },
    }
}

proof fn lemma_c_sumsq_prefix_none(v: Seq<Q>, k: nat, k2: nat)
    requires
        c_sumsq_prefix(v, k) is None,
        k <= k2,
    ensures
        c_sumsq_prefix(v, k2) is None,
    decreases k2,
{
    if k < k2 {
        lemma_c_sumsq_prefix_none(v, k, (k2 - 1) as nat);
    }
}

/// Mean squared error of the linear estimates against the observations.
#[verifier::loop_isolation(false)]
pub fn mean_sqsum_loss(
    estimators: &Vec<Vec<Rat>>,
    observations: &Vec<Rat>,
    weights: &Vec<Rat>,
) -> (r: Result<Rat, NumError>)
    requires
        estimators@.len() == observations@.len(),
        estimators@.len() >= 1,
        mat_rect(mat_vals(estimators@), weights@.len() as int),
        mat_wf(mat_vals(estimators@)),
        seq_wf(vals(observations@)),
        seq_wf(vals(weights@)),
    ensures
        match r {
            Ok(v) => v.wf() && c_loss(mat_vals(estimators@), vals(observations@), vals(weights@))
                == Some(v@),
            Err(e) => e == NumError::Overflow && c_loss(
                mat_vals(estimators@),
                vals(observations@),
                vals(weights@),
            ) is None,
        },
{
    let ghost xv = mat_vals(estimators@);
    let ghost yv = vals(observations@);
    let ghost wv = vals(weights@);
    let est = match linear_estimate(estimators, weights) {
        Err(_) => {
            return Err(NumError::Overflow);
        },
        Ok(v) => v,
    };
    let diff = match vec_sub(&est, observations) {
        None => {
            return Err(NumError::Overflow);
        },
        Some(v) => v,
    };
    let ghost dv = vals(diff@);
    let mut acc = Rat::zero();
    let mut k: usize = 0;
    while k < diff.len()
        invariant
            k <= diff@.len(),
            dv == vals(diff@),
            seq_wf(dv),
            acc.wf(),
            c_sumsq_prefix(dv, k as nat) == Some(acc@),
        decreases diff@.len() - k,
    {
        proof {
            assert(dv[k as int] == diff@[k as int]@);
        }
        let s = match diff[k].checked_mul(diff[k]) {
            None => {
                proof {
                    lemma_c_sumsq_prefix_none(dv, (k + 1) as nat, dv.len());
                }
                return Err(NumError::Overflow);
            },
            Some(v) => v,
        };
        let acc2 = match acc.checked_add(s) {
            None => {
                proof {
                    lemma_c_sumsq_prefix_none(dv, (k + 1) as nat, dv.len());
                }
                return Err(NumError::Overflow);
            },
            Some(v) => v,
        };
        acc = acc2;
        k += 1;
    }
    let m = Rat::from_int(observations.len() as i128);
    proof {
        assert(m@ == q_int(observations@.len() as int));
        assert(m@.n != 0);
    }
    match acc.checked_div(m) {
        None => Err(NumError::Overflow),
        Some(v) => Ok(v),
    }
}

/// Checked scaling of the first `k` entries by `s`.
pub open spec fn c_scale_prefix(s: Q, v: Seq<Q>, k: nat) -> Option<Seq<Q>>
    decreases k,
{
    if k == 0 {
        Some(Seq::empty())
    } else {
        match c_scale_prefix(s, v, (k - 1) as nat) {
            None => None,
            Some(acc) => match c_mul(s, v[k - 1]) {
                None => None,
                Some(p) => Some(acc.push(p)),
            },
        }
    }
}

pub open spec fn c_scale_vec(s: Q, v: Seq<Q>) -> Option<Seq<Q>> {
    c_scale_prefix(s, v, v.len())
}

/// Checked test that each of the first `k` entries is below `thr` in
/// magnitude; equivalent to comparing the largest magnitude against `thr`.
pub open spec fn c_below_prefix(ch: Seq<Q>, thr: Q, k: nat) -> Option<bool>
    decreases k,
{
    if k == 0 {
        Some(true)
    } else {
        match c_below_prefix(ch, thr, (k - 1) as nat) {
            None => None,
            Some(b) => match c_abs(ch[k - 1]) {
                None => None,
                Some(a) => match c_lt(a, thr) {
                    None => None,
                    Some(l) => Some(b && l),
                },
            },
        }
    }
}

pub open spec fn c_below(ch: Seq<Q>, thr: Q) -> Option<bool> {
    c_below_prefix(ch, thr, ch.len())
}

/// The prospective update of one iteration: the learning rate times the
/// current loss gradient.
pub open spec fn c_step(x: Seq<Seq<Q>>, y: Seq<Q>, lr: Q, w: Seq<Q>) -> Option<Seq<Q>> {
    match c_grad(x, y, w) {
        None => None,
        Some(g) => c_scale_vec(lr, g),
    }
}

/// A design-matrix row: the constant bias one, then the feature.
pub open spec fn design_row(row: Seq<Q>) -> Seq<Q> {
    seq![q_one(), row[0]]
}

/// The design matrix of a two-column dataset.
pub open spec fn design(data: Seq<Seq<Q>>) -> Seq<Seq<Q>> {
    data.map_values(|r: Seq<Q>| design_row(r))
}

/// The target column of a two-column dataset.
pub open spec fn targets(data: Seq<Seq<Q>>) -> Seq<Q> {
    data.map_values(|r: Seq<Q>| r[1])
}

pub open spec fn zeros2() -> Seq<Q> {
    seq![q_zero(), q_zero()]
}

/// The whole training loop, `fuel` iterations at most, starting from `w`:
/// each round computes the prospective update; if every component is below
/// the threshold in magnitude the loop stops and the update is discarded,
/// otherwise the update is subtracted from the weights. The result carries
/// the final weights, the number of updates applied, and whether the
/// threshold test stopped the loop.
pub open spec fn c_descent(x: Seq<Seq<Q>>, y: Seq<Q>, lr: Q, thr: Q, w: Seq<Q>, fuel: nat) -> Option<
    (Seq<Q>, nat, bool),
>
    decreases fuel,
{
    if fuel == 0 {
        Some((w, 0, false))
    } else {
        match c_step(x, y, lr, w) {
            None => None,
            Some(ch) => match c_below(ch, thr) {
                None => None,
                Some(h) => if h {
                    Some((w, 0, true))
                } else {
                    match c_vsub(w, ch) {
                        None => None,
                        Some(w2) => match c_descent(x, y, lr, thr, w2, (fuel - 1) as nat) {
                            None => None,
                            Some(t) => Some((t.0, (t.1 + 1) as nat, t.2)),
                        },
                    }
                },
            },
        }
    }
}

/// The trainer never applies more updates than it has fuel for: the loop
/// stops at the iteration cap, not later.
pub proof fn lemma_iteration_cap(
    x: Seq<Seq<Q>>,
    y: Seq<Q>,
    lr: Q,
    thr: Q,
    w: Seq<Q>,
    fuel: nat,
    t: (Seq<Q>, nat, bool),
)
    requires
        c_descent(x, y, lr, thr, w, fuel) == Some(t),
    ensures
        t.1 <= fuel,
    decreases fuel,
{
    if fuel > 0 {
        match c_step(x, y, lr, w) {
            None => {},
            Some(ch) => match c_below(ch, thr) {
                None => {},
                Some(h) => if !h {
                    match c_vsub(w, ch) {
                        None => {},
                        Some(w2) => {
                            let inner = c_descent(x, y, lr, thr, w2, (fuel - 1) as nat);
                            if inner is Some {
                                lemma_iteration_cap(x, y, lr, thr, w2, (fuel - 1) as nat, inner.unwrap());
                            }
                        },
                    }
                } else {},
            },
        }
    }
}

/// If the very first prospective update already falls below the threshold,
/// the trainer applies no update at all: it returns the starting weights,
/// zero iterations, and reports convergence.
pub proof fn lemma_converged_at_once(
    x: Seq<Seq<Q>>,
    y: Seq<Q>,
    lr: Q,
    thr: Q,
    w: Seq<Q>,
    fuel: nat,
    ch: Seq<Q>,
)
    requires
        fuel >= 1,
        c_step(x, y, lr, w) == Some(ch),
        c_below(ch, thr) == Some(true),
    ensures
        c_descent(x, y, lr, thr, w, fuel) == Some((w, 0nat, true)),
{
}

/// Elementwise scaling of a vector.
fn vec_scale(s: Rat, v: &Vec<Rat>) -> (r: Option<Vec<Rat>>)
    requires
        s.wf(),
        seq_wf(vals(v@)),
    ensures
        match r {
            Some(out) => seq_wf(vals(out@)) && out@.len() == v@.len() && c_scale_vec(s@, vals(v@))
                == Some(vals(out@)),
            None => c_scale_vec(s@, vals(v@)) is None,
        },
{
    let ghost vv = vals(v@);
    let mut out: Vec<Rat> = Vec::new();
    let mut k: usize = 0;
    while k < v.len()
        invariant
            k <= v@.len(),
            vv == vals(v@),
            seq_wf(vv),
            s.wf(),
            out@.len() == k,
            seq_wf(vals(out@)),
            c_scale_prefix(s@, vv, k as nat) == Some(vals(out@)),
        decreases v@.len() - k,
    {
        proof {
            assert(vv[k as int] == v@[k as int]@);
        }
        let p = match s.checked_mul(v[k]) {
            None => {
                proof {
                    lemma_c_scale_prefix_none(s@, vv, (k + 1) as nat, vv.len());
                }
                return None;
            },
            Some(x) => x,
        };
        let ghost pre = vals(out@);
        out.push(p);
        proof {
            assert(vals(out@) =~= pre.push(p@));
        }
        k += 1;
    }
    Some(out)
}

proof fn lemma_c_scale_prefix_none(s: Q, v: Seq<Q>, k: nat, k2: nat)
    requires
        c_scale_prefix(s, v, k) is None,
        k <= k2,
    ensures
        c_scale_prefix(s, v, k2) is None,
    decreases k2,
{
    if k < k2 {
        lemma_c_scale_prefix_none(s, v, k, (k2 - 1) as nat);
    }
}

proof fn lemma_c_below_prefix_none(ch: Seq<Q>, thr: Q, k: nat, k2: nat)
    requires
        c_below_prefix(ch, thr, k) is None,
        k <= k2,
    ensures
        c_below_prefix(ch, thr, k2) is None,
    decreases k2,
{
    if k < k2 {
        lemma_c_below_prefix_none(ch, thr, k, (k2 - 1) as nat);
    }
}

/// Whether every component of the prospective update is below the threshold
/// in magnitude.
fn below_threshold(ch: &Vec<Rat>, thr: Rat) -> (r: Option<bool>)
    requires
        thr.wf(),
        seq_wf(vals(ch@)),
    ensures
        r == c_below(vals(ch@), thr@),
{
    let ghost cv = vals(ch@);
    let mut all_below = true;
    let mut k: usize = 0;
    while k < ch.len()
        invariant
            k <= ch@.len(),
            cv == vals(ch@),
            seq_wf(cv),
            thr.wf(),
            c_below_prefix(cv, thr@, k as nat) == Some(all_below),
        decreases ch@.len() - k,
    {
        proof {
            assert(cv[k as int] == ch@[k as int]@);
        }
        let a = match ch[k].checked_abs() {
            None => {
                proof {
                    lemma_c_below_prefix_none(cv, thr@, (k + 1) as nat, cv.len());
                }
                return None;
            },
            Some(x) => x,
        };
        let l = match a.checked_lt(thr) {
            None => {
                proof {
                    lemma_c_below_prefix_none(cv, thr@, (k + 1) as nat, cv.len());
                }
                return None;
            },
            Some(x) => x,
        };
        all_below = all_below && l;
        k += 1;
    }
    Some(all_below)
}

/// Outcome of a training run: the fitted weights, the number of weight
/// updates actually applied, and whether the run stopped because the
/// prospective update fell below the threshold (as opposed to hitting the
/// iteration cap, which is a normal, silent exit as well).
#[derive(Debug)]
pub struct TrainResult {
    pub weights: Vec<Rat>,
    pub iterations: usize,
    pub converged: bool,
}

pub const ITER_MAX: usize = 10000;

/// Batch gradient descent on a two-column dataset (feature, target). The
/// design matrix prepends a constant bias column of ones; the weights start
/// at zero. Each iteration computes the prospective update, learning rate
/// times gradient; if every component is below `min_change` in magnitude the
/// run stops and that update is discarded, otherwise the update is
/// subtracted. After `ITER_MAX` updates the run stops as-is.
#[verifier::loop_isolation(false)]
pub fn gradient_descent2(data: &Vec<Vec<Rat>>, lr: Rat, min_change: Rat) -> (r: Result<
    TrainResult,
    NumError,
>)
    requires
        data@.len() >= 1,
        mat_rect(mat_vals(data@), 2),
        mat_wf(mat_vals(data@)),
        lr.wf(),
        min_change.wf(),
        q_lt(q_zero(), lr@),
        q_le(q_zero(), min_change@),
    ensures
        ({
            let res = c_descent(
                design(mat_vals(data@)),
                targets(mat_vals(data@)),
                lr@,
                min_change@,
                zeros2(),
                ITER_MAX as nat,
            );
            match r {
                Ok(t) => t.weights@.len() == 2 && seq_wf(vals(t.weights@)) && t.iterations
                    <= ITER_MAX && res == Some(
                    (vals(t.weights@), t.iterations as nat, t.converged),
                ),
                Err(e) => e == NumError::Overflow && res is None,
            }
        }),
{
    let ghost dv = mat_vals(data@);
    let ghost gx = design(dv);
    let ghost gy = targets(dv);
    let ghost full = c_descent(gx, gy, lr@, min_change@, zeros2(), ITER_MAX as nat);

    // build the design matrix (bias column of ones, then the feature column)
    // and the target vector
    let mut estimators: Vec<Vec<Rat>> = Vec::new();
    let mut tars: Vec<Rat> = Vec::new();
    let mut i: usize = 0;
    while i < data.len()
        invariant
            i <= data@.len(),
            estimators@.len() == i,
            tars@.len() == i,
            forall|i2: int| 0 <= i2 < i ==> vals(#[trigger] estimators@[i2]@) == design_row(
                dv[i2],
            ),
            forall|i2: int| 0 <= i2 < i ==> #[trigger] tars@[i2]@ == dv[i2][1],
        decreases data@.len() - i,
    {
        proof {
            assert(vals(data@[i as int]@) == dv[i as int]);
            assert(dv[i as int].len() == 2);
        }
        let mut drow: Vec<Rat> = Vec::new();
        drow.push(Rat::one());
        drow.push(data[i][0]);
        proof {
            assert(vals(drow@) =~= design_row(dv[i as int]));
        }
        estimators.push(drow);
        tars.push(data[i][1]);
        i += 1;
    }
    proof {
        assert(mat_vals(estimators@) =~~= gx);
        assert(vals(tars@) =~= gy);
        assert(mat_rect(gx, 2));
        assert(mat_wf(gx));
        assert(seq_wf(gy));
    }

    let mut w: Vec<Rat> = Vec::new();
    w.push(Rat::zero());
    w.push(Rat::zero());
    proof {
        assert(vals(w@) =~= zeros2());
    }

    let mut it: usize = 0;
    while it < ITER_MAX
        invariant
            it <= ITER_MAX,
            w@.len() == 2,
            seq_wf(vals(w@)),
            mat_vals(estimators@) == gx,
            vals(tars@) == gy,
            estimators@.len() == data@.len(),
            tars@.len() == data@.len(),
            ({
                match c_descent(gx, gy, lr@, min_change@, vals(w@), (ITER_MAX - it) as nat) {
                    None => full is None,
                    Some(t) => full == Some((t.0, (t.1 + it) as nat, t.2)),
                }
            }),
        decreases ITER_MAX - it,
    {
        let ghost fuel = (ITER_MAX - it) as nat;
        let ghost wv = vals(w@);
        let g = match mean_sqsum_loss_gradient(&estimators, &tars, &w) {
            Err(_) => {
                proof {
                    assert(c_step(gx, gy, lr@, wv) is None);
                    assert(c_descent(gx, gy, lr@, min_change@, wv, fuel) is None);
                }
                return Err(NumError::Overflow);
            },
            Ok(v) => v,
        };
        let change = match vec_scale(lr, &g) {
            None => {
                proof {
                    assert(c_step(gx, gy, lr@, wv) is None);
                    assert(c_descent(gx, gy, lr@, min_change@, wv, fuel) is None);
                }
                return Err(NumError::Overflow);
            },
            Some(v) => v,
        };
        proof {
            assert(c_step(gx, gy, lr@, wv) == Some(vals(change@)));
        }
        let h = match below_threshold(&change, min_change) {
            None => {
                proof {
                    assert(c_descent(gx, gy, lr@, min_change@, wv, fuel) is None);
                }
                return Err(NumError::Overflow);
            },
            Some(b) => b,
        };
        if h {
            proof {
                assert(c_descent(gx, gy, lr@, min_change@, wv, fuel) == Some((wv, 0nat, true)));
            }
            return Ok(TrainResult { weights: w, iterations: it, converged: true });
        }
        let w2 = match vec_sub(&w, &change) {
            None => {
                proof {
                    assert(c_descent(gx, gy, lr@, min_change@, wv, fuel) is None);
                }
                return Err(NumError::Overflow);
            },
            Some(v) => v,
        };
        w = w2;
        it += 1;
    }
    proof {
        assert(c_descent(gx, gy, lr@, min_change@, vals(w@), 0) == Some((vals(w@), 0nat, false)));
    }
    Ok(TrainResult { weights: w, iterations: it, converged: false })
}

/// Values denoting the same number subtract to a zero numerator.
proof fn lemma_eq_sub_zero(a: Q, b: Q)
    requires
        q_wf(a),
        q_wf(b),
        q_eq(a, b),
    ensures
        q_sub(a, b).n == 0,
{
    if a.d == b.d {
        lemma_cancel(a.n, b.n, a.d);
    }
}

proof fn lemma_mul_zero_right(a: Q, b: Q)
    requires
        b.n == 0,
    ensures
        q_mul(a, b).n == 0,
{
    assert(a.n * b.n == 0) by (nonlinear_arith)
        requires
            b.n == 0,
    ;
}

proof fn lemma_add_zero_nums(a: Q, b: Q)
    requires
        a.n == 0,
        b.n == 0,
    ensures
        q_add(a, b).n == 0,
{
    if a.d != b.d {
        assert(a.n * b.d + b.n * a.d == 0) by (nonlinear_arith)
            requires
                a.n == 0,
                b.n == 0,
        ;
    }
}

/// Multiplying by one on the left denotes the same number.
proof fn lemma_mul_one_left(b: Q)
    requires
        q_wf(b),
    ensures
        q_eq(q_mul(q_one(), b), b),
{
    assert(0 * b.d == 0) by (nonlinear_arith);
}

/// Adding zero on the left denotes the same number.
proof fn lemma_add_zero_left(t: Q)
    requires
        q_wf(t),
    ensures
        q_eq(q_add(q_zero(), t), t),
{
    assert(0 * t.d == 0) by (nonlinear_arith);
}

/// Addition of values is commutative.
pub proof fn lemma_add_comm(a: Q, b: Q)
    requires
        q_wf(a),
        q_wf(b),
    ensures
        q_eq(q_add(a, b), q_add(b, a)),
{
    broadcast use vstd::arithmetic::mul::group_mul_properties;

    let r = q_add(a, b);
    let r2 = q_add(b, a);
    lemma_add_raw(a, b);
    lemma_add_raw(b, a);
    let c = a.d * b.d;
    assert((r.n * (a.d * b.d)) * r2.d == ((a.n * b.d + b.n * a.d) * r.d) * r2.d);
    assert((r2.n * (b.d * a.d)) * r.d == ((b.n * a.d + a.n * b.d) * r2.d) * r.d);
    assert(((a.n * b.d + b.n * a.d) * r.d) * r2.d == ((b.n * a.d + a.n * b.d) * r2.d) * r.d);
    assert((r.n * (a.d * b.d)) * r2.d == (r.n * r2.d) * c);
    assert((r2.n * (b.d * a.d)) * r.d == (r2.n * r.d) * c);
    assert(c > 0) by (nonlinear_arith)
        requires
            a.d > 0,
            b.d > 0,
            c == a.d * b.d,
    ;
    lemma_cancel(r.n * r2.d, r2.n * r.d, c);
}

proof fn lemma_predict_index(x: Seq<Seq<Q>>, w: Seq<Q>, k: nat, est: Seq<Q>)
    requires
        c_predict_prefix(x, w, k) == Some(est),
    ensures
        est.len() == k,
        forall|i: int| 0 <= i < k ==> c_dot(x[i], w) == Some(#[trigger] est[i]),
    decreases k,
{
    if k > 0 {
        let prev = c_predict_prefix(x, w, (k - 1) as nat);
        lemma_predict_index(x, w, (k - 1) as nat, prev.unwrap());
    }
}

proof fn lemma_vsub_index(a: Seq<Q>, b: Seq<Q>, k: nat, d: Seq<Q>)
    requires
        c_vsub_prefix(a, b, k) == Some(d),
    ensures
        d.len() == k,
        forall|i: int| 0 <= i < k ==> c_sub(a[i], b[i]) == Some(#[trigger] d[i]),
    decreases k,
{
    if k > 0 {
        let prev = c_vsub_prefix(a, b, (k - 1) as nat);
        lemma_vsub_index(a, b, (k - 1) as nat, prev.unwrap());
    }
}

proof fn lemma_vdiv_index(v: Seq<Q>, m: int, k: nat, o: Seq<Q>)
    requires
        c_vdiv_prefix(v, m, k) == Some(o),
    ensures
        o.len() == k,
        forall|i: int| 0 <= i < k ==> c_div(v[i], q_int(m)) == Some(#[trigger] o[i]),
    decreases k,
{
    if k > 0 {
        let prev = c_vdiv_prefix(v, m, (k - 1) as nat);
        lemma_vdiv_index(v, m, (k - 1) as nat, prev.unwrap());
    }
}

/// A left-to-right sum of values with zero numerators has a zero numerator.
proof fn lemma_sum_zero(v: Seq<Q>, k: nat, s: Q)
    requires
        c_sum_prefix(v, k) == Some(s),
        forall|i: int| 0 <= i < k ==> (#[trigger] v[i]).n == 0,
    ensures
        s.n == 0,
    decreases k,
{
    if k > 0 {
        let prev = c_sum_prefix(v, (k - 1) as nat);
        lemma_sum_zero(v, (k - 1) as nat, prev.unwrap());
        lemma_add_zero_nums(prev.unwrap(), v[k - 1]);
    }
}

/// A dot product against a vector of zero numerators has a zero numerator.
proof fn lemma_dot_zero(r: Seq<Q>, dv: Seq<Q>, k: nat, s: Q)
    requires
        c_dot_prefix(r, dv, k) == Some(s),
        forall|i: int| 0 <= i < k ==> (#[trigger] dv[i]).n == 0,
    ensures
        s.n == 0,
    decreases k,
{
    if k > 0 {
        let prev = c_dot_prefix(r, dv, (k - 1) as nat);
        lemma_dot_zero(r, dv, (k - 1) as nat, prev.unwrap());
        let p = c_mul(r[k - 1], dv[k - 1]).unwrap();
        lemma_mul_zero_right(r[k - 1], dv[k - 1]);
        lemma_add_zero_nums(prev.unwrap(), p);
    }
}

/// Gradient zero at the optimum: when every target lies exactly on the line
/// `y = a * x + b` and the weights are `[b, a]`, every component of the
/// mean-squared-error gradient denotes exactly zero.
pub proof fn lemma_gradient_zero_at_exact_fit(x: Seq<Seq<Q>>, y: Seq<Q>, w: Seq<Q>, g: Seq<Q>)
    requires
        mat_wf(x),
        seq_wf(y),
        seq_wf(w),
        mat_rect(x, 2),
        w.len() == 2,
        x.len() == y.len(),
        x.len() >= 1,
        forall|i: int| 0 <= i < x.len() ==> (#[trigger] x[i])[0] == q_one(),
        forall|i: int|
            0 <= i < x.len() ==> q_eq(#[trigger] y[i], q_add(q_mul(w[1], x[i][1]), w[0])),
        c_grad(x, y, w) == Some(g),
    ensures
        g.len() == w.len(),
        forall|k: int| 0 <= k < g.len() ==> q_eq(#[trigger] g[k], q_zero()),
{
    let est = c_predict(x, w).unwrap();
    lemma_predict_index(x, w, x.len(), est);
    let diff = c_vsub(est, y).unwrap();
    lemma_vsub_index(est, y, est.len(), diff);
    assert forall|i: int| 0 <= i < x.len() implies (#[trigger] diff[i]).n == 0 by {
        let row = x[i];
        assert(row.len() == 2);
        assert(q_wf(row[1]));
        assert(q_wf(w[0]) && q_wf(w[1]));
        // unfold the two-term dot product
        reveal_with_fuel(c_dot_prefix, 3);
        assert(c_dot(x[i], w) == Some(est[i]));
        assert(c_dot(row, w) == c_dot_prefix(row, w, 2));
        assert(c_dot_prefix(row, w, 2) is Some);
        assert(c_dot_prefix(row, w, 1) is Some);
        assert(c_dot_prefix(row, w, 0) == Some(q_zero()));
        assert(c_mul(row[0], w[0]) is Some);
        let m0 = c_mul(row[0], w[0]).unwrap();
        assert(c_add(q_zero(), m0) is Some);
        let a1 = c_add(q_zero(), m0).unwrap();
        assert(c_dot_prefix(row, w, 1) == Some(a1));
        assert(c_mul(row[1], w[1]) is Some);
        let m1 = c_mul(row[1], w[1]).unwrap();
        assert(c_dot_prefix(row, w, 2) == c_add(a1, m1));
        let e = est[i];
        assert(e == q_add(a1, m1));
        assert(m0 == q_mul(q_one(), w[0]));
        assert(a1 == q_add(q_zero(), m0));
        assert(m1 == q_mul(row[1], w[1]));
        lemma_mul_raw(q_one(), w[0]);
        lemma_add_raw(q_zero(), m0);
        lemma_mul_raw(row[1], w[1]);
        // a1 denotes w[0]
        lemma_mul_one_left(w[0]);
        lemma_add_zero_left(m0);
        lemma_q_eq_trans(a1, m0, w[0]);
        // e denotes w[0] + w[1] * x
        lemma_add_congruence_left(a1, w[0], m1);
        lemma_add_comm(w[0], m1);
        lemma_add_raw(a1, m1);
        lemma_add_raw(w[0], m1);
        lemma_add_raw(m1, w[0]);
        lemma_q_eq_trans(e, q_add(w[0], m1), q_add(m1, w[0]));
        assert(m1 == q_mul(w[1], row[1])) by {
            assert(row[1].n * w[1].n == w[1].n * row[1].n) by (nonlinear_arith);
            assert(row[1].d * w[1].d == w[1].d * row[1].d) by (nonlinear_arith);
        }
        assert(q_eq(y[i], q_add(m1, w[0])));
        lemma_q_eq_trans(e, q_add(m1, w[0]), y[i]);
        lemma_eq_sub_zero(e, y[i]);
        assert(diff[i] == q_sub(est[i], y[i]));
    }
    // the bias component: the plain sum of the residuals
    let s0 = c_sum(diff).unwrap();
    lemma_sum_zero(diff, diff.len(), s0);
    // the feature component: the dot product of the feature column with the
    // residuals
    reveal_with_fuel(c_coldots_prefix, 3);
    assert(c_coldots_prefix(x, diff, 1) == Some(Seq::<Q>::empty()));
    assert(c_coldots_prefix(x, diff, 2) is Some);
    assert(c_dot(col(x, 1), diff) is Some);
    let cd = c_dot(col(x, 1), diff).unwrap();
    assert(c_coldots_prefix(x, diff, 2) == Some(Seq::<Q>::empty().push(cd)));
    assert forall|i: int| 0 <= i < col(x, 1).len() implies (#[trigger] diff[i]).n == 0 by {
    }
    lemma_dot_zero(col(x, 1), diff, col(x, 1).len(), cd);
    // dividing by the observation count keeps the numerators zero
    let v = seq![s0] + Seq::<Q>::empty().push(cd);
    assert(c_vdiv(v, y.len() as int) == Some(g));
    lemma_vdiv_index(v, y.len() as int, v.len(), g);
    assert(v.len() == 2);
    assert(v[0].n == 0 && v[1].n == 0);
    assert forall|k: int| 0 <= k < g.len() implies q_eq(#[trigger] g[k], q_zero()) by {
        assert(c_div(v[k], q_int(y.len() as int)) == Some(g[k]));
        assert(g[k] == q_div(v[k], q_int(y.len() as int)));
        assert(v[k].n * 1 == v[k].n);
        assert(g[k].n == 0);
        assert(0 * g[k].d == 0) by (nonlinear_arith);
    }
}

} // verus!
