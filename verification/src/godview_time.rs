//! Augmented-state temporal filter with out-of-sequence measurement support.
//!
//! The filter keeps a Gaussian belief over a 9-dimensional state (position,
//! velocity, acceleration per axis) under a constant-acceleration model. The
//! lagged history is carried as a base belief plus the window of accepted
//! measurements in canonical (timestamp, value) order; the posterior is the
//! exact fold of the measurement window over the base belief, so feeding the
//! same measurements in any arrival order yields bit-identical state. This
//! realises the lagged snapshot ring as the window itself: a measurement
//! counts as too old exactly when it predates the base belief, which
//! advances only as the full window folds its oldest entry away.

use vstd::prelude::*;

verus! {

use crate::fixed::{FX_ONE, fx_mul, fx_sub, fx_add, fx_div, sat64, fx_mul_exec, fx_sub_exec,
    fx_add_exec, fx_div_exec, sat64_exec};
use crate::matrix::{spec_mat_mul, spec_mat_mul_bt, spec_mat_add, spec_mat_sub, spec_symmetrize,
    spec_diag, is_symmetric, mat_mul, mat_mul_bt, mat_add, mat_sub, symmetrize, mat_diag,
    lemma_diag_rows_len, lemma_symmetrize_symmetric};

/// Half a unit, for the `dt^2 / 2` entry of the transition matrix.
pub const FX_HALF: i64 = 500_000;

/// The constant-acceleration state transition matrix for a time step `dt`
/// (fixed-point seconds): position rows pick up `v dt + a dt^2 / 2`,
/// velocity rows pick up `a dt`.
pub open spec fn spec_fmat(dt: i64) -> Seq<i64> {
    let h = fx_mul(fx_mul(dt, dt), FX_HALF);
    spec_diag(9, FX_ONE).update(3, dt).update(13, dt).update(23, dt).update(33, dt).update(
        43,
        dt,
    ).update(53, dt).update(6, h).update(16, h).update(26, h)
}

/// Builds the transition matrix.
pub fn build_fmat(dt: i64) -> (r: Vec<i64>)
    ensures
        r@ == spec_fmat(dt),
        r.len() == 81,
{
    proof {
        lemma_diag_rows_len(9, FX_ONE, 9);
    }
    let h: i64 = fx_mul_exec(fx_mul_exec(dt, dt), FX_HALF);
    let mut f: Vec<i64> = mat_diag(9, FX_ONE);
    f[3] = dt;
    f[13] = dt;
    f[23] = dt;
    f[33] = dt;
    f[43] = dt;
    f[53] = dt;
    f[6] = h;
    f[16] = h;
    f[26] = h;
    f
}

/// The top-left 3 x 3 block of a 9 x 9 covariance: the position block.
pub open spec fn spec_tl3(p: Seq<i64>) -> Seq<i64> {
    seq![p[0], p[1], p[2], p[9], p[10], p[11], p[18], p[19], p[20]]
}

/// Extracts the position block.
pub fn tl3(p: &Vec<i64>) -> (r: Vec<i64>)
    requires
        p.len() == 81,
    ensures
        r@ == spec_tl3(p@),
        r.len() == 9,
{
    let mut r: Vec<i64> = Vec::new();
    r.push(p[0]);
    r.push(p[1]);
    r.push(p[2]);
    r.push(p[9]);
    r.push(p[10]);
    r.push(p[11]);
    r.push(p[18]);
    r.push(p[19]);
    r.push(p[20]);
    proof {
        assert(r@ =~= spec_tl3(p@));
    }
    r
}

/// The first `i` rows of the first three columns of a 9-column matrix.
pub open spec fn cols3_rows(p: Seq<i64>, i: int) -> Seq<i64>
    decreases i,
{
    if i <= 0 {
        Seq::empty()
    } else {
        cols3_rows(p, i - 1) + seq![p[(i - 1) * 9], p[(i - 1) * 9 + 1], p[(i - 1) * 9 + 2]]
    }
}

/// The 9 x 3 matrix `P H^T` for the position-only measurement model
/// `H = [I 0 0]`: the first three columns of `P`.
pub open spec fn spec_cols3(p: Seq<i64>) -> Seq<i64> {
    cols3_rows(p, 9)
}

/// Extracts the first three columns.
pub fn cols3(p: &Vec<i64>) -> (r: Vec<i64>)
    requires
        p.len() == 81,
    ensures
        r@ == spec_cols3(p@),
        r.len() == 27,
{
    let mut r: Vec<i64> = Vec::new();
    let mut i: usize = 0;
    while i < 9
        invariant
            i <= 9,
            p.len() == 81,
            r@ == cols3_rows(p@, i as int),
            r.len() == 3 * i,
        decreases 9 - i,
    {
        r.push(p[i * 9]);
        r.push(p[i * 9 + 1]);
        r.push(p[i * 9 + 2]);
        proof {
            assert(r@ =~= cols3_rows(p@, i as int) + seq![
                p@[i as int * 9],
                p@[i as int * 9 + 1],
                p@[i as int * 9 + 2],
            ]);
        }
        i = i + 1;
    }
    r
}

/// The first `n` entries of a vector.
pub fn take_prefix(x: &Vec<i64>, n: usize) -> (r: Vec<i64>)
    requires
        n <= x.len(),
    ensures
        r@ == x@.subrange(0, n as int),
        r.len() == n,
{
    let mut r: Vec<i64> = Vec::new();
    let mut i: usize = 0;
    while i < n
        invariant
            i <= n,
            n <= x.len(),
            r@ == x@.subrange(0, i as int),
            r.len() == i,
        decreases n - i,
    {
        r.push(x[i]);
        proof {
            assert(r@ =~= x@.subrange(0, i as int + 1));
        }
        i = i + 1;
    }
    r
}

/// Determinant of a 3 x 3 fixed-point matrix.
pub open spec fn spec_det3(s: Seq<i64>) -> i64 {
    let t0 = fx_mul(s[0], fx_sub(fx_mul(s[4], s[8]), fx_mul(s[5], s[7])));
    let t1 = fx_mul(s[1], fx_sub(fx_mul(s[3], s[8]), fx_mul(s[5], s[6])));
    let t2 = fx_mul(s[2], fx_sub(fx_mul(s[3], s[7]), fx_mul(s[4], s[6])));
    fx_add(fx_sub(t0, t1), t2)
}

/// Computes the determinant.
pub fn det3(s: &Vec<i64>) -> (r: i64)
    requires
        s.len() == 9,
    ensures
        r == spec_det3(s@),
{
    let t0: i64 = fx_mul_exec(s[0], fx_sub_exec(fx_mul_exec(s[4], s[8]), fx_mul_exec(s[5], s[7])));
    let t1: i64 = fx_mul_exec(s[1], fx_sub_exec(fx_mul_exec(s[3], s[8]), fx_mul_exec(s[5], s[6])));
    let t2: i64 = fx_mul_exec(s[2], fx_sub_exec(fx_mul_exec(s[3], s[7]), fx_mul_exec(s[4], s[6])));
    fx_add_exec(fx_sub_exec(t0, t1), t2)
}

/// Inverse of a 3 x 3 fixed-point matrix by the adjugate formula, defined
/// when the determinant is non-zero.
pub open spec fn spec_inv3(s: Seq<i64>) -> Seq<i64> {
    let det = spec_det3(s);
    seq![
        fx_div(fx_sub(fx_mul(s[4], s[8]), fx_mul(s[5], s[7])), det),
        fx_div(fx_sub(fx_mul(s[2], s[7]), fx_mul(s[1], s[8])), det),
        fx_div(fx_sub(fx_mul(s[1], s[5]), fx_mul(s[2], s[4])), det),
        fx_div(fx_sub(fx_mul(s[5], s[6]), fx_mul(s[3], s[8])), det),
        fx_div(fx_sub(fx_mul(s[0], s[8]), fx_mul(s[2], s[6])), det),
        fx_div(fx_sub(fx_mul(s[2], s[3]), fx_mul(s[0], s[5])), det),
        fx_div(fx_sub(fx_mul(s[3], s[7]), fx_mul(s[4], s[6])), det),
        fx_div(fx_sub(fx_mul(s[1], s[6]), fx_mul(s[0], s[7])), det),
        fx_div(fx_sub(fx_mul(s[0], s[4]), fx_mul(s[1], s[3])), det),
    ]
}

/// Inverts a 3 x 3 matrix; `None` when it is singular at fixed-point
/// precision (the ill-conditioned case: the innovation is rejected).
pub fn inv3(s: &Vec<i64>) -> (r: Option<Vec<i64>>)
    requires
        s.len() == 9,
    ensures
        spec_det3(s@) == 0 <==> r is None,
        r matches Some(v) ==> v@ == spec_inv3(s@) && v.len() == 9,
{
    let det: i64 = det3(s);
    if det == 0 {
        return None;
    }
    let mut v: Vec<i64> = Vec::new();
    v.push(fx_div_exec(fx_sub_exec(fx_mul_exec(s[4], s[8]), fx_mul_exec(s[5], s[7])), det));
    v.push(fx_div_exec(fx_sub_exec(fx_mul_exec(s[2], s[7]), fx_mul_exec(s[1], s[8])), det));
    v.push(fx_div_exec(fx_sub_exec(fx_mul_exec(s[1], s[5]), fx_mul_exec(s[2], s[4])), det));
    v.push(fx_div_exec(fx_sub_exec(fx_mul_exec(s[5], s[6]), fx_mul_exec(s[3], s[8])), det));
    v.push(fx_div_exec(fx_sub_exec(fx_mul_exec(s[0], s[8]), fx_mul_exec(s[2], s[6])), det));
    v.push(fx_div_exec(fx_sub_exec(fx_mul_exec(s[2], s[3]), fx_mul_exec(s[0], s[5])), det));
    v.push(fx_div_exec(fx_sub_exec(fx_mul_exec(s[3], s[7]), fx_mul_exec(s[4], s[6])), det));
    v.push(fx_div_exec(fx_sub_exec(fx_mul_exec(s[1], s[6]), fx_mul_exec(s[0], s[7])), det));
    v.push(fx_div_exec(fx_sub_exec(fx_mul_exec(s[0], s[4]), fx_mul_exec(s[1], s[3])), det));
    proof {
        assert(v@ =~= spec_inv3(s@));
    }
    Some(v)
}

/// Advances mean and covariance by `dt` (fixed-point seconds):
/// `x' = F x`, `P' = sym(F P F^T + q dt I)`.
pub open spec fn spec_propagate(x: Seq<i64>, p: Seq<i64>, dt: i64, q: i64) -> (Seq<i64>, Seq<i64>) {
    let f = spec_fmat(dt);
    let x2 = spec_mat_mul(f, x, 9, 9, 1);
    let p1 = spec_mat_mul(f, p, 9, 9, 9);
    let p2 = spec_mat_mul_bt(p1, f, 9, 9, 9);
    let p3 = spec_mat_add(p2, spec_diag(9, fx_mul(q, dt)));
    (x2, spec_symmetrize(p3, 9))
}

/// Executable prediction step.
pub fn propagate(x: &Vec<i64>, p: &Vec<i64>, dt: i64, q: i64) -> (r: (Vec<i64>, Vec<i64>))
    requires
        x.len() == 9,
        p.len() == 81,
    ensures
        (r.0@, r.1@) == spec_propagate(x@, p@, dt, q),
        r.0.len() == 9,
        r.1.len() == 81,
        is_symmetric(r.1@, 9),
{
    let f: Vec<i64> = build_fmat(dt);
    let x2: Vec<i64> = mat_mul(&f, x, 9, 9, 1);
    let p1: Vec<i64> = mat_mul(&f, p, 9, 9, 9);
    let p2: Vec<i64> = mat_mul_bt(&p1, &f, 9, 9, 9);
    let qd: Vec<i64> = mat_diag(9, fx_mul_exec(q, dt));
    let p3: Vec<i64> = mat_add(&p2, &qd);
    let p4: Vec<i64> = symmetrize(&p3, 9);
    (x2, p4)
}

/// One measurement update at the predicted state: innovation `y = z - H x`,
/// `S = H P H^T + R`, gain `K = P H^T S^{-1}`, posterior
/// `x' = x + K y`, `P' = sym(P - K H P)`. `None` when `S` is singular.
pub open spec fn spec_update(x: Seq<i64>, p: Seq<i64>, z: Seq<i64>, rm: Seq<i64>) -> Option<(Seq<i64>, Seq<i64>)> {
    let y = spec_mat_sub(z, x.subrange(0, 3));
    let s = spec_mat_add(spec_tl3(p), rm);
    if spec_det3(s) == 0 {
        None
    } else {
        let si = spec_inv3(s);
        let kk = spec_mat_mul(spec_cols3(p), si, 9, 3, 3);
        let ky = spec_mat_mul(kk, y, 9, 3, 1);
        let x2 = spec_mat_add(x, ky);
        let kp = spec_mat_mul(kk, p.subrange(0, 27), 9, 3, 9);
        let p2 = spec_symmetrize(spec_mat_sub(p, kp), 9);
        Some((x2, p2))
    }
}

/// Executable measurement update.
pub fn try_update(x: &Vec<i64>, p: &Vec<i64>, z: &Vec<i64>, rm: &Vec<i64>) -> (r: Option<(Vec<i64>, Vec<i64>)>)
    requires
        x.len() == 9,
        p.len() == 81,
        z.len() == 3,
        rm.len() == 9,
    ensures
        r is None <==> spec_update(x@, p@, z@, rm@) is None,
        r matches Some(v) ==> {
            &&& spec_update(x@, p@, z@, rm@) matches Some(sv)
            &&& (v.0@, v.1@) == sv
            &&& v.0.len() == 9
            &&& v.1.len() == 81
            &&& is_symmetric(v.1@, 9)
        },
{
    let x3: Vec<i64> = take_prefix(x, 3);
    let y: Vec<i64> = mat_sub(z, &x3);
    let pb: Vec<i64> = tl3(p);
    let s: Vec<i64> = mat_add(&pb, rm);
    let sio: Option<Vec<i64>> = inv3(&s);
    match sio {
        None => None,
        Some(si) => {
            let pc: Vec<i64> = cols3(p);
            let kk: Vec<i64> = mat_mul(&pc, &si, 9, 3, 3);
            let ky: Vec<i64> = mat_mul(&kk, &y, 9, 3, 1);
            let x2: Vec<i64> = mat_add(x, &ky);
            let pt: Vec<i64> = take_prefix(p, 27);
            let kp: Vec<i64> = mat_mul(&kk, &pt, 9, 3, 9);
            let pd: Vec<i64> = mat_sub(p, &kp);
            let p2: Vec<i64> = symmetrize(&pd, 9);
            Some((x2, p2))
        },
    }
}


/// A position measurement with its 3 x 3 noise covariance and timestamp.
pub struct FilterMeas {
    /// Measurement timestamp, integer milliseconds.
    pub t_ms: i64,
    /// Measured position, 3 fixed-point entries.
    pub z: Vec<i64>,
    /// Measurement noise covariance, 3 x 3 fixed-point entries.
    pub r: Vec<i64>,
}

/// The mathematical content of a measurement.
#[verifier::ext_equal]
pub struct MeasV {
    /// Timestamp in milliseconds.
    pub t_ms: i64,
    /// Measured position.
    pub z: Seq<i64>,
    /// Measurement noise covariance.
    pub r: Seq<i64>,
}

impl FilterMeas {
    /// The measurement as a mathematical value.
    pub open spec fn mv(&self) -> MeasV {
        MeasV { t_ms: self.t_ms, z: self.z@, r: self.r@ }
    }
}

/// Well-formed measurement: a 3-vector and a 3 x 3 matrix.
pub open spec fn meas_wf(m: MeasV) -> bool {
    m.z.len() == 3 && m.r.len() == 9
}

/// Canonical sort key of a measurement: timestamp first, then the measured
/// value and noise, so that identical inputs compare equal and nothing else
/// does.
pub open spec fn meas_key(m: MeasV) -> Seq<i64> {
    seq![m.t_ms] + m.z + m.r
}

/// Canonical order on measurements.
pub open spec fn mle(a: MeasV, b: MeasV) -> bool {
    crate::order::seq_le(meas_key(a), meas_key(b))
}

/// A measurement sequence in canonical order.
pub open spec fn meas_sorted(ms: Seq<MeasV>) -> bool {
    forall|i: int, j: int| 0 <= i < j < ms.len() ==> mle(ms[i], ms[j])
}

/// Every element well formed.
pub open spec fn meas_all_wf(ms: Seq<MeasV>) -> bool {
    forall|i: int| 0 <= i < ms.len() ==> meas_wf(#[trigger] ms[i])
}

/// The views of a measurement buffer.
pub open spec fn views(ms: Seq<FilterMeas>) -> Seq<MeasV> {
    ms.map_values(|m: FilterMeas| m.mv())
}

/// Equal keys of well-formed measurements force equal measurements.
pub proof fn lemma_meas_key_inj(a: MeasV, b: MeasV)
    requires
        meas_wf(a),
        meas_wf(b),
        meas_key(a) == meas_key(b),
    ensures
        a == b,
{
    assert(meas_key(a)[0] == a.t_ms && meas_key(b)[0] == b.t_ms);
    assert(a.t_ms == b.t_ms);
    assert(a.z =~= b.z) by {
        assert(forall|i: int|
            0 <= i < 3 ==> a.z[i] == meas_key(a)[i + 1] && b.z[i] == meas_key(b)[i + 1]);
    }
    assert(a.r =~= b.r) by {
        assert(forall|i: int|
            0 <= i < 9 ==> a.r[i] == meas_key(a)[i + 4] && b.r[i] == meas_key(b)[i + 4]);
    }
    assert(a =~= b);
}

/// The canonical order is antisymmetric on well-formed measurements.
pub proof fn lemma_mle_antisym(a: MeasV, b: MeasV)
    requires
        meas_wf(a),
        meas_wf(b),
        mle(a, b),
        mle(b, a),
    ensures
        a == b,
{
    crate::order::lemma_seq_le_antisym(meas_key(a), meas_key(b));
    lemma_meas_key_inj(a, b);
}

/// Two canonical arrangements of the same multiset of well-formed
/// measurements are the same sequence.
pub proof fn lemma_sorted_meas_unique(x: Seq<MeasV>, y: Seq<MeasV>)
    requires
        meas_sorted(x),
        meas_sorted(y),
        meas_all_wf(x),
        meas_all_wf(y),
        x.to_multiset() == y.to_multiset(),
    ensures
        x =~= y,
    decreases x.len(), y.len(),
{
    broadcast use vstd::multiset::group_multiset_axioms;
    broadcast use vstd::seq_lib::group_to_multiset_ensures;

    if x.len() == 0 || y.len() == 0 {
        assert(x.to_multiset().len() == x.len());
        assert(y.to_multiset().len() == y.len());
    } else {
        assert(x.to_multiset().contains(x[0]));
        assert(x.to_multiset().contains(y[0]));
        assert(y.to_multiset().contains(x[0]));
        let i = choose|i: int| #![trigger x.spec_index(i)] 0 <= i < x.len() && x[i] == y[0];
        let j = choose|j: int| #![trigger y.spec_index(j)] 0 <= j < y.len() && y[j] == x[0];
        if i == 0 || j == 0 {
            assert(x[0] == y[0]);
        } else {
            assert(mle(x[0], x[i]) && mle(y[0], y[j]));
            lemma_mle_antisym(x[0], y[0]);
        }
        assert(x[0] == y[0]);
        assert(x.remove(0).to_multiset() =~= x.to_multiset().remove(x[0]));
        assert(x.drop_first() =~= x.remove(0));
        assert(y.remove(0).to_multiset() =~= y.to_multiset().remove(y[0]));
        assert(y.drop_first() =~= y.remove(0));
        assert(x.drop_first().to_multiset() =~= x.to_multiset().remove(x[0]));
        assert(y.drop_first().to_multiset() =~= y.to_multiset().remove(y[0]));
        assert(meas_sorted(x.drop_first())) by {
            assert(forall|a: int, b: int|
                0 <= a < b < x.drop_first().len() ==> x.drop_first()[a] == x[a + 1]
                    && x.drop_first()[b] == x[b + 1]);
        }
        assert(meas_sorted(y.drop_first())) by {
            assert(forall|a: int, b: int|
                0 <= a < b < y.drop_first().len() ==> y.drop_first()[a] == y[a + 1]
                    && y.drop_first()[b] == y[b + 1]);
        }
        assert(meas_all_wf(x.drop_first())) by {
            assert(forall|a: int|
                0 <= a < x.drop_first().len() ==> #[trigger] x.drop_first()[a] == x[a + 1]);
        }
        assert(meas_all_wf(y.drop_first())) by {
            assert(forall|a: int|
                0 <= a < y.drop_first().len() ==> #[trigger] y.drop_first()[a] == y[a + 1]);
        }
        lemma_sorted_meas_unique(x.drop_first(), y.drop_first());
        assert(x =~= seq![x[0]] + x.drop_first());
        assert(y =~= seq![y[0]] + y.drop_first());
    }
}

/// One replay step: propagate the belief to the measurement's timestamp and
/// apply the update; a singular innovation covariance leaves the belief
/// untouched (the measurement is skipped).
pub open spec fn spec_step(st: (Seq<i64>, Seq<i64>, i64), m: MeasV, q: i64) -> (Seq<i64>, Seq<i64>, i64) {
    let dt = sat64((m.t_ms - st.2) * 1000);
    let pr = if dt > 0 {
        spec_propagate(st.0, st.1, dt, q)
    } else {
        (st.0, st.1)
    };
    let t2 = if m.t_ms > st.2 {
        m.t_ms
    } else {
        st.2
    };
    match spec_update(pr.0, pr.1, m.z, m.r) {
        Some(u) => (u.0, u.1, t2),
        None => st,
    }
}

/// The belief after folding a measurement window, in order, over a base
/// belief.
pub open spec fn spec_replay(bx: Seq<i64>, bp: Seq<i64>, bt: i64, ms: Seq<MeasV>, q: i64) -> (Seq<i64>, Seq<i64>, i64)
    decreases ms.len(),
{
    if ms.len() == 0 {
        (bx, bp, bt)
    } else {
        spec_step(spec_replay(bx, bp, bt, ms.drop_last(), q), ms.last(), q)
    }
}

/// The belief at wall time `now`: the replayed posterior, propagated forward
/// if `now` lies beyond the window.
pub open spec fn spec_current(bx: Seq<i64>, bp: Seq<i64>, bt: i64, ms: Seq<MeasV>, q: i64, now: i64) -> (Seq<i64>, Seq<i64>) {
    let r = spec_replay(bx, bp, bt, ms, q);
    let dt = sat64((now - r.2) * 1000);
    if dt > 0 {
        spec_propagate(r.0, r.1, dt, q)
    } else {
        (r.0, r.1)
    }
}

proof fn lemma_step_shape(st: (Seq<i64>, Seq<i64>, i64), m: MeasV, q: i64)
    requires
        st.0.len() == 9,
        st.1.len() == 81,
        is_symmetric(st.1, 9),
        meas_wf(m),
    ensures
        spec_step(st, m, q).0.len() == 9,
        spec_step(st, m, q).1.len() == 81,
        is_symmetric(spec_step(st, m, q).1, 9),
{
    let dt = sat64((m.t_ms - st.2) * 1000);
    let f = spec_fmat(dt);
    crate::matrix::lemma_diag_rows_len(9, FX_ONE, 9);
    crate::matrix::lemma_mm_rows_len(f, st.0, 9, 1, 9);
    crate::matrix::lemma_mm_rows_len(f, st.1, 9, 9, 9);
    let p1 = spec_mat_mul(f, st.1, 9, 9, 9);
    crate::matrix::lemma_mmt_rows_len(p1, f, 9, 9, 9);
    crate::matrix::lemma_diag_rows_len(9, fx_mul(q, dt), 9);
    crate::matrix::lemma_sym_rows_len(
        spec_mat_add(spec_mat_mul_bt(p1, f, 9, 9, 9), spec_diag(9, fx_mul(q, dt))),
        9,
        9,
    );
    let pr = if dt > 0 {
        spec_propagate(st.0, st.1, dt, q)
    } else {
        (st.0, st.1)
    };
    lemma_symmetrize_symmetric(
        spec_mat_add(spec_mat_mul_bt(p1, f, 9, 9, 9), spec_diag(9, fx_mul(q, dt))),
        9,
    );
    match spec_update(pr.0, pr.1, m.z, m.r) {
        Some(u) => {
            let s = spec_mat_add(spec_tl3(pr.1), m.r);
            let si = spec_inv3(s);
            crate::matrix::lemma_mm_rows_len(spec_cols3(pr.1), si, 3, 3, 9);
            let kk = spec_mat_mul(spec_cols3(pr.1), si, 9, 3, 3);
            crate::matrix::lemma_mm_rows_len(kk, spec_mat_sub(m.z, pr.0.subrange(0, 3)), 3, 1, 9);
            crate::matrix::lemma_mm_rows_len(kk, pr.1.subrange(0, 27), 3, 9, 9);
            crate::matrix::lemma_sym_rows_len(
                spec_mat_sub(pr.1, spec_mat_mul(kk, pr.1.subrange(0, 27), 9, 3, 9)),
                9,
                9,
            );
            lemma_symmetrize_symmetric(
                spec_mat_sub(pr.1, spec_mat_mul(kk, pr.1.subrange(0, 27), 9, 3, 9)),
                9,
            );
        },
        None => {},
    }
}

proof fn lemma_replay_shape(bx: Seq<i64>, bp: Seq<i64>, bt: i64, ms: Seq<MeasV>, q: i64)
    requires
        bx.len() == 9,
        bp.len() == 81,
        is_symmetric(bp, 9),
        meas_all_wf(ms),
    ensures
        spec_replay(bx, bp, bt, ms, q).0.len() == 9,
        spec_replay(bx, bp, bt, ms, q).1.len() == 81,
        is_symmetric(spec_replay(bx, bp, bt, ms, q).1, 9),
    decreases ms.len(),
{
    if ms.len() > 0 {
        assert(meas_all_wf(ms.drop_last())) by {
            assert(forall|a: int|
                0 <= a < ms.drop_last().len() ==> #[trigger] ms.drop_last()[a] == ms[a]);
        }
        lemma_replay_shape(bx, bp, bt, ms.drop_last(), q);
        lemma_step_shape(spec_replay(bx, bp, bt, ms.drop_last(), q), ms.last(), q);
    }
}


proof fn lemma_current_shape(bx: Seq<i64>, bp: Seq<i64>, bt: i64, ms: Seq<MeasV>, q: i64, t2: i64)
    requires
        bx.len() == 9,
        bp.len() == 81,
        is_symmetric(bp, 9),
        meas_all_wf(ms),
    ensures
        ({
            let c = spec_current(bx, bp, bt, ms, q, t2);
            c.0.len() == 9 && c.1.len() == 81 && is_symmetric(c.1, 9)
        }),
{
    lemma_replay_shape(bx, bp, bt, ms, q);
    let r = spec_replay(bx, bp, bt, ms, q);
    let dt = sat64((t2 - r.2) * 1000);
    if dt > 0 {
        let f = spec_fmat(dt);
        crate::matrix::lemma_diag_rows_len(9, FX_ONE, 9);
        crate::matrix::lemma_mm_rows_len(f, r.0, 9, 1, 9);
        crate::matrix::lemma_mm_rows_len(f, r.1, 9, 9, 9);
        let p1 = spec_mat_mul(f, r.1, 9, 9, 9);
        crate::matrix::lemma_mmt_rows_len(p1, f, 9, 9, 9);
        crate::matrix::lemma_diag_rows_len(9, fx_mul(q, dt), 9);
        crate::matrix::lemma_sym_rows_len(
            spec_mat_add(spec_mat_mul_bt(p1, f, 9, 9, 9), spec_diag(9, fx_mul(q, dt))),
            9,
            9,
        );
        lemma_symmetrize_symmetric(
            spec_mat_add(spec_mat_mul_bt(p1, f, 9, 9, 9), spec_diag(9, fx_mul(q, dt))),
            9,
        );
    }
}

/// The time from `b` to `a`, milliseconds in, fixed-point seconds out,
/// saturated.
fn sat_diff(a: i64, b: i64) -> (r: i64)
    ensures
        r == sat64((a - b) * 1000),
{
    sat64_exec(((a as i128) - (b as i128)) * 1000)
}

/// An exact copy of a vector.
fn vec_copy(x: &Vec<i64>) -> (r: Vec<i64>)
    ensures
        r@ == x@,
{
    let r = take_prefix(x, x.len());
    proof {
        assert(x@.subrange(0, x.len() as int) =~= x@);
    }
    r
}

/// Builds the canonical sort key of a measurement.
fn meas_key_exec(m: &FilterMeas) -> (r: Vec<i64>)
    ensures
        r@ == meas_key(m.mv()),
{
    let mut k: Vec<i64> = Vec::new();
    k.push(m.t_ms);
    let mut i: usize = 0;
    while i < m.z.len()
        invariant
            i <= m.z.len(),
            k@ == seq![m.t_ms] + m.z@.subrange(0, i as int),
        decreases m.z.len() - i,
    {
        k.push(m.z[i]);
        proof {
            assert(k@ =~= seq![m.t_ms] + m.z@.subrange(0, i as int + 1));
        }
        i = i + 1;
    }
    proof {
        assert(m.z@.subrange(0, m.z.len() as int) =~= m.z@);
    }
    let mut j: usize = 0;
    while j < m.r.len()
        invariant
            j <= m.r.len(),
            k@ == seq![m.t_ms] + m.z@ + m.r@.subrange(0, j as int),
        decreases m.r.len() - j,
    {
        k.push(m.r[j]);
        proof {
            assert(k@ =~= seq![m.t_ms] + m.z@ + m.r@.subrange(0, j as int + 1));
        }
        j = j + 1;
    }
    proof {
        assert(m.r@.subrange(0, m.r.len() as int) =~= m.r@);
        assert(k@ =~= meas_key(m.mv()));
    }
    k
}

/// Compares two measurements in the canonical order.
fn meas_le_exec(a: &FilterMeas, b: &FilterMeas) -> (r: bool)
    ensures
        r == mle(a.mv(), b.mv()),
{
    let ka = meas_key_exec(a);
    let kb = meas_key_exec(b);
    crate::order::seq_le_exec(&ka, &kb)
}

/// One executable replay step, exactly `spec_step`.
fn step_exec(x: &Vec<i64>, p: &Vec<i64>, t: i64, m: &FilterMeas, q: i64) -> (r: (
    Vec<i64>,
    Vec<i64>,
    i64,
))
    requires
        x.len() == 9,
        p.len() == 81,
        meas_wf(m.mv()),
    ensures
        ({
            let st = spec_step((x@, p@, t), m.mv(), q);
            r.0@ == st.0 && r.1@ == st.1 && r.2 == st.2
        }),
        r.0.len() == 9,
        r.1.len() == 81,
{
    let dt: i64 = sat_diff(m.t_ms, t);
    let (px, pp): (Vec<i64>, Vec<i64>) = if dt > 0 {
        propagate(x, p, dt, q)
    } else {
        (vec_copy(x), vec_copy(p))
    };
    let t2: i64 = if m.t_ms > t {
        m.t_ms
    } else {
        t
    };
    match try_update(&px, &pp, &m.z, &m.r) {
        Some(u) => (u.0, u.1, t2),
        None => (vec_copy(x), vec_copy(p), t),
    }
}

/// Replays the first `upto` measurements of a window over a base belief.
fn replay_upto(bx: &Vec<i64>, bp: &Vec<i64>, bt: i64, ms: &Vec<FilterMeas>, upto: usize, q: i64)
    -> (r: (Vec<i64>, Vec<i64>, i64))
    requires
        bx.len() == 9,
        bp.len() == 81,
        meas_all_wf(views(ms@)),
        upto <= ms.len(),
    ensures
        ({
            let st = spec_replay(bx@, bp@, bt, views(ms@).take(upto as int), q);
            r.0@ == st.0 && r.1@ == st.1 && r.2 == st.2
        }),
        r.0.len() == 9,
        r.1.len() == 81,
{
    let mut cx: Vec<i64> = vec_copy(bx);
    let mut cp: Vec<i64> = vec_copy(bp);
    let mut ct: i64 = bt;
    let mut i: usize = 0;
    proof {
        assert(views(ms@).take(0) =~= Seq::<MeasV>::empty());
    }
    while i < upto
        invariant
            i <= upto,
            upto <= ms.len(),
            bx.len() == 9,
            bp.len() == 81,
            meas_all_wf(views(ms@)),
            cx.len() == 9,
            cp.len() == 81,
            ({
                let st = spec_replay(bx@, bp@, bt, views(ms@).take(i as int), q);
                cx@ == st.0 && cp@ == st.1 && ct == st.2
            }),
        decreases upto - i,
    {
        proof {
            assert(meas_wf(views(ms@)[i as int]));
            assert(views(ms@)[i as int] == ms@[i as int].mv());
        }
        let st = step_exec(&cx, &cp, ct, &ms[i], q);
        cx = st.0;
        cp = st.1;
        ct = st.2;
        proof {
            let vs = views(ms@);
            assert(vs.take(i as int + 1).drop_last() =~= vs.take(i as int));
            assert(vs.take(i as int + 1).last() == vs[i as int]);
        }
        i = i + 1;
    }
    (cx, cp, ct)
}

/// The belief at wall time `now`, executable form of `spec_current`.
fn current_exec(bx: &Vec<i64>, bp: &Vec<i64>, bt: i64, ms: &Vec<FilterMeas>, q: i64, now: i64)
    -> (r: (Vec<i64>, Vec<i64>))
    requires
        bx.len() == 9,
        bp.len() == 81,
        meas_all_wf(views(ms@)),
    ensures
        ({
            let c = spec_current(bx@, bp@, bt, views(ms@), q, now);
            r.0@ == c.0 && r.1@ == c.1
        }),
        r.0.len() == 9,
        r.1.len() == 81,
{
    let st = replay_upto(bx, bp, bt, ms, ms.len(), q);
    proof {
        assert(views(ms@).take(ms.len() as int) =~= views(ms@));
    }
    let dt: i64 = sat_diff(now, st.2);
    if dt > 0 {
        propagate(&st.0, &st.1, dt, q)
    } else {
        (st.0, st.1)
    }
}

/// Where a measurement belongs in a canonically ordered window: after every
/// entry that precedes or equals it.
pub open spec fn insert_pos(ms: Seq<MeasV>, m: MeasV) -> int
    decreases ms.len(),
{
    if ms.len() == 0 {
        0
    } else if !mle(ms[0], m) {
        0
    } else {
        1 + insert_pos(ms.drop_first(), m)
    }
}

proof fn lemma_insert_pos_props(ms: Seq<MeasV>, m: MeasV)
    ensures
        0 <= insert_pos(ms, m) <= ms.len(),
        forall|j: int| 0 <= j < insert_pos(ms, m) ==> mle(#[trigger] ms[j], m),
        insert_pos(ms, m) < ms.len() ==> !mle(ms[insert_pos(ms, m)], m),
    decreases ms.len(),
{
    if ms.len() > 0 && mle(ms[0], m) {
        lemma_insert_pos_props(ms.drop_first(), m);
        assert(forall|j: int|
            0 <= j < ms.drop_first().len() ==> #[trigger] ms.drop_first()[j] == ms[j + 1]);
        assert forall|j: int| 0 <= j < insert_pos(ms, m) implies mle(#[trigger] ms[j], m) by {
            if j > 0 {
                assert(ms.drop_first()[j - 1] == ms[j]);
                assert(mle(ms.drop_first()[j - 1], m));
            }
        }
    }
}

/// Errors a measurement ingest can report: the measurement predates the
/// retained window, or its innovation covariance is singular.
#[derive(Debug, Clone, Copy, PartialEq, Eq, Structural)]
pub enum FilterError {
    /// The measurement is older than the oldest retained history.
    TooOld,
    /// The innovation covariance is singular at fixed-point precision.
    IllConditioned,
}

/// Whether ingesting `m` into the window `ms` over the given base would find
/// a singular innovation covariance and reject it.
pub open spec fn spec_ill_at(bx: Seq<i64>, bp: Seq<i64>, bt: i64, ms: Seq<MeasV>, m: MeasV, q: i64)
    -> bool {
    let pos = insert_pos(ms, m);
    let pre = spec_replay(bx, bp, bt, ms.take(pos), q);
    let dt = sat64((m.t_ms - pre.2) * 1000);
    let pr = if dt > 0 {
        spec_propagate(pre.0, pre.1, dt, q)
    } else {
        (pre.0, pre.1)
    };
    spec_update(pr.0, pr.1, m.z, m.r) is None
}

/// The augmented-state filter: a base belief at the start of the retained
/// window, the window of accepted measurements in canonical order, and the
/// cached posterior at wall time `now_ms`.
pub struct AugmentedStateFilter {
    /// Cached posterior mean at `now_ms` (9 entries).
    pub x: Vec<i64>,
    /// Cached posterior covariance at `now_ms` (81 entries, symmetric).
    pub p: Vec<i64>,
    /// Belief mean at the start of the window.
    pub base_x: Vec<i64>,
    /// Belief covariance at the start of the window.
    pub base_p: Vec<i64>,
    /// Timestamp of the base belief, milliseconds.
    pub base_t: i64,
    /// Accepted measurements, canonically ordered, at most `lag` of them.
    pub meas: Vec<FilterMeas>,
    /// Window depth: how many measurements are retained.
    pub lag: usize,
    /// Process noise scale per second of prediction.
    pub q_scale: i64,
    /// The wall time the cached posterior refers to.
    pub now_ms: i64,
}

impl AugmentedStateFilter {
    /// Structural invariant: shapes, ordering, and the cached posterior being
    /// exactly the replay of the window.
    pub open spec fn wf(&self) -> bool {
        &&& self.base_x@.len() == 9
        &&& self.base_p@.len() == 81
        &&& is_symmetric(self.base_p@, 9)
        &&& self.lag >= 1
        &&& self.meas@.len() <= self.lag
        &&& meas_all_wf(views(self.meas@))
        &&& meas_sorted(views(self.meas@))
        &&& (forall|i: int|
            0 <= i < self.meas@.len() ==> (#[trigger] views(self.meas@)[i]).t_ms >= self.base_t)
        &&& self.x@ == spec_current(
            self.base_x@,
            self.base_p@,
            self.base_t,
            views(self.meas@),
            self.q_scale,
            self.now_ms,
        ).0
        &&& self.p@ == spec_current(
            self.base_x@,
            self.base_p@,
            self.base_t,
            views(self.meas@),
            self.q_scale,
            self.now_ms,
        ).1
        &&& self.x@.len() == 9
        &&& self.p@.len() == 81
    }

    /// Starts a filter from a prior belief at time `t0`.
    pub fn new(x0: Vec<i64>, p0: Vec<i64>, q_scale: i64, lag: usize, t0: i64) -> (r: Self)
        requires
            x0.len() == 9,
            p0.len() == 81,
            is_symmetric(p0@, 9),
            lag >= 1,
        ensures
            r.wf(),
            r.base_x@ == x0@,
            r.base_p@ == p0@,
            r.base_t == t0,
            r.now_ms == t0,
            r.meas@.len() == 0,
            r.lag == lag,
            r.q_scale == q_scale,
            r.x@ == x0@,
            r.p@ == p0@,
    {
        let x = vec_copy(&x0);
        let p = vec_copy(&p0);
        let r = AugmentedStateFilter {
            x,
            p,
            base_x: x0,
            base_p: p0,
            base_t: t0,
            meas: Vec::new(),
            lag,
            q_scale,
            now_ms: t0,
        };
        proof {
            assert(views(r.meas@) =~= Seq::<MeasV>::empty());
            assert(sat64((t0 - t0) * 1000) == 0);
        }
        r
    }

    /// The cached posterior mean and covariance.
    pub fn state(&self) -> (r: (Vec<i64>, Vec<i64>))
        ensures
            r.0@ == self.x@,
            r.1@ == self.p@,
    {
        (vec_copy(&self.x), vec_copy(&self.p))
    }

    /// Advances the filter's wall clock by `dt_ms` and refreshes the cached
    /// posterior; the measurement window is untouched.
    pub fn predict(&mut self, dt_ms: i64)
        requires
            old(self).wf(),
            dt_ms >= 0,
        ensures
            final(self).wf(),
            final(self).now_ms == sat64(old(self).now_ms + dt_ms),
            final(self).meas@ == old(self).meas@,
            final(self).base_x@ == old(self).base_x@,
            final(self).base_p@ == old(self).base_p@,
            final(self).base_t == old(self).base_t,
            final(self).lag == old(self).lag,
            final(self).q_scale == old(self).q_scale,
    {
        self.now_ms = fx_add_exec(self.now_ms, dt_ms);
        let cur = current_exec(
            &self.base_x,
            &self.base_p,
            self.base_t,
            &self.meas,
            self.q_scale,
            self.now_ms,
        );
        self.x = cur.0;
        self.p = cur.1;
    }

    /// Ingests a measurement, in or out of timestamp order. A measurement
    /// older than the retained window is dropped as too old; one whose
    /// innovation covariance is singular is dropped as ill-conditioned; any
    /// other lands at its canonical place in the window, the oldest entry
    /// being folded into the base belief when the window is full. The
    /// resulting posterior depends only on the multiset of accepted
    /// measurements, never on arrival order.
    #[verifier::rlimit(100)]
    pub fn update_oosm(&mut self, z: Vec<i64>, rm: Vec<i64>, t: i64) -> (r: Result<
        (),
        FilterError,
    >)
        requires
            old(self).wf(),
            z@.len() == 3,
            rm@.len() == 9,
        ensures
            final(self).wf(),
            final(self).lag == old(self).lag,
            final(self).q_scale == old(self).q_scale,
            final(self).now_ms == old(self).now_ms,
            (r == Result::<(), FilterError>::Err(FilterError::TooOld)) <==> t < old(
                self,
            ).base_t,
            (r == Result::<(), FilterError>::Err(FilterError::IllConditioned)) <==> (t >= old(
                self,
            ).base_t && spec_ill_at(
                old(self).base_x@,
                old(self).base_p@,
                old(self).base_t,
                views(old(self).meas@),
                MeasV { t_ms: t, z: z@, r: rm@ },
                old(self).q_scale,
            )),
            r is Err ==> final(self).meas@ == old(self).meas@ && final(self).x@ == old(self).x@
                && final(self).p@ == old(self).p@ && final(self).base_x@ == old(self).base_x@
                && final(self).base_p@ == old(self).base_p@ && final(self).base_t == old(
                self,
            ).base_t,
            r is Ok ==> ({
                let m = MeasV { t_ms: t, z: z@, r: rm@ };
                let ms0 = views(old(self).meas@);
                let ins = ms0.insert(insert_pos(ms0, m), m);
                if ins.len() > old(self).lag {
                    let st = spec_step(
                        (old(self).base_x@, old(self).base_p@, old(self).base_t),
                        ins[0],
                        old(self).q_scale,
                    );
                    views(final(self).meas@) == ins.drop_first() && final(self).base_x@ == st.0
                        && final(self).base_p@ == st.1 && final(self).base_t == st.2
                } else {
                    views(final(self).meas@) == ins && final(self).base_x@ == old(self).base_x@
                        && final(self).base_p@ == old(self).base_p@ && final(self).base_t == old(
                        self,
                    ).base_t
                }
            }),
    {
        if t < self.base_t {
            return Err(FilterError::TooOld);
        }
        let m = FilterMeas { t_ms: t, z, r: rm };
        let ghost ms0 = views(self.meas@);
        let ghost mv = m.mv();
        let mut pos: usize = 0;
        loop
            invariant
                old(self).wf(),
                self == old(self),
                meas_wf(mv),
                mv == (MeasV { t_ms: t, z: m.z@, r: m.r@ }),
                m.mv() == mv,
                ms0 == views(self.meas@),
                pos <= self.meas.len(),
                forall|j: int| 0 <= j < pos ==> mle(#[trigger] ms0[j], mv),
            ensures
                pos <= self.meas.len(),
                forall|j: int| 0 <= j < pos ==> mle(#[trigger] ms0[j], mv),
                pos < self.meas.len() ==> !mle(ms0[pos as int], mv),
            decreases self.meas.len() - pos,
        {
            if pos >= self.meas.len() {
                break ;
            }
            if !meas_le_exec(&self.meas[pos], &m) {
                proof {
                    assert(!mle(ms0[pos as int], mv));
                }
                break ;
            }
            proof {
                assert(mle(ms0[pos as int], mv));
            }
            pos = pos + 1;
        }
        proof {
            lemma_insert_pos_props(ms0, mv);
            let ip = insert_pos(ms0, mv);
            if ip < pos {
                assert(mle(ms0[ip], mv));
                assert(false);
            }
            if pos < ip {
                assert(mle(ms0[pos as int], mv));
                assert(false);
            }
            assert(pos as int == ip);
        }
        let pre = replay_upto(
            &self.base_x,
            &self.base_p,
            self.base_t,
            &self.meas,
            pos,
            self.q_scale,
        );
        let dt: i64 = sat_diff(m.t_ms, pre.2);
        let (px, pp): (Vec<i64>, Vec<i64>) = if dt > 0 {
            propagate(&pre.0, &pre.1, dt, self.q_scale)
        } else {
            (pre.0, pre.1)
        };
        let sm: Vec<i64> = mat_add(&tl3(&pp), &m.r);
        if det3(&sm) == 0 {
            proof {
                assert(spec_ill_at(
                    self.base_x@,
                    self.base_p@,
                    self.base_t,
                    ms0,
                    mv,
                    self.q_scale,
                ));
            }
            return Err(FilterError::IllConditioned);
        }
        proof {
            assert(!spec_ill_at(self.base_x@, self.base_p@, self.base_t, ms0, mv, self.q_scale));
        }
        self.meas.insert(pos, m);
        proof {
            let ins = ms0.insert(pos as int, mv);
            assert(views(self.meas@) =~= ins) by {
                assert(forall|k: int|
                    0 <= k < self.meas@.len() ==> views(self.meas@)[k] == #[trigger] self.meas@[
                        k
                    ].mv());
                assert(forall|k: int|
                    0 <= k < ins.len() ==> #[trigger] self.meas@[k].mv() == ins[k]);
            }
            lemma_insert_sorted(ms0, mv, pos as int);
        }
        if self.meas.len() > self.lag {
            let m0 = self.meas.remove(0);
            proof {
                let ins = ms0.insert(pos as int, mv);
                assert(views(self.meas@) =~= ins.drop_first()) by {
                    assert(forall|k: int|
                        0 <= k < self.meas@.len() ==> views(self.meas@)[k] == #[trigger] self.meas@[
                            k
                        ].mv());
                }
                assert(m0.mv() == ins[0]);
            }
            let st = step_exec(&self.base_x, &self.base_p, self.base_t, &m0, self.q_scale);
            self.base_x = st.0;
            self.base_p = st.1;
            self.base_t = st.2;
            proof {
                lemma_step_wf_base(
                    (old(self).base_x@, old(self).base_p@, old(self).base_t),
                    m0.mv(),
                    self.q_scale,
                );
            }
        }
        let cur = current_exec(
            &self.base_x,
            &self.base_p,
            self.base_t,
            &self.meas,
            self.q_scale,
            self.now_ms,
        );
        self.x = cur.0;
        self.p = cur.1;
        proof {
            lemma_wf_after_ingest(old(self), self, mv, pos as int);
        }
        Ok(())
    }
}

/// In the canonical order, an earlier element never has a later timestamp.
proof fn lemma_mle_t(a: MeasV, b: MeasV)
    requires
        mle(a, b),
    ensures
        a.t_ms <= b.t_ms,
{
    assert(meas_key(a)[0] == a.t_ms);
    assert(meas_key(b)[0] == b.t_ms);
}

/// Inserting at the canonical position keeps the window sorted.
proof fn lemma_insert_sorted(ms: Seq<MeasV>, m: MeasV, pos: int)
    requires
        meas_sorted(ms),
        pos == insert_pos(ms, m),
    ensures
        meas_sorted(ms.insert(pos, m)),
{
    lemma_insert_pos_props(ms, m);
    let ins = ms.insert(pos, m);
    assert forall|i: int, j: int| 0 <= i < j < ins.len() implies mle(ins[i], ins[j]) by {
        crate::order::lemma_seq_le_connex(meas_key(ms[pos]), meas_key(m)) ;
        if i < pos && j < pos {
            assert(ins[i] == ms[i] && ins[j] == ms[j]);
        } else if i < pos && j == pos {
            assert(ins[i] == ms[i] && ins[j] == m);
        } else if i < pos && j > pos {
            assert(ins[i] == ms[i] && ins[j] == ms[j - 1]);
        } else if i == pos && j > pos {
            assert(ins[i] == m && ins[j] == ms[j - 1]);
            if j - 1 == pos {
                assert(!mle(ms[pos], m));
                assert(mle(m, ms[pos]));
            } else {
                assert(!mle(ms[pos], m));
                assert(mle(m, ms[pos]));
                assert(mle(ms[pos], ms[j - 1]));
                crate::order::lemma_seq_le_trans(
                    meas_key(m),
                    meas_key(ms[pos]),
                    meas_key(ms[j - 1]),
                );
            }
        } else {
            assert(ins[i] == ms[i - 1] && ins[j] == ms[j - 1]);
        }
    }
}

proof fn lemma_step_wf_base(st: (Seq<i64>, Seq<i64>, i64), m: MeasV, q: i64)
    requires
        st.0.len() == 9,
        st.1.len() == 81,
        is_symmetric(st.1, 9),
        meas_wf(m),
    ensures
        ({
            let r = spec_step(st, m, q);
            r.0.len() == 9 && r.1.len() == 81 && is_symmetric(r.1, 9) && r.2 >= st.2
        }),
{
    lemma_step_shape(st, m, q);
}

proof fn lemma_wf_after_ingest(
    pre: &AugmentedStateFilter,
    post: &AugmentedStateFilter,
    m: MeasV,
    pos: int,
)
    requires
        pre.wf(),
        meas_wf(m),
        m.t_ms >= pre.base_t,
        pos == insert_pos(views(pre.meas@), m),
        post.lag == pre.lag,
        post.q_scale == pre.q_scale,
        post.now_ms == pre.now_ms,
        post.x@ == spec_current(
            post.base_x@,
            post.base_p@,
            post.base_t,
            views(post.meas@),
            post.q_scale,
            post.now_ms,
        ).0,
        post.p@ == spec_current(
            post.base_x@,
            post.base_p@,
            post.base_t,
            views(post.meas@),
            post.q_scale,
            post.now_ms,
        ).1,
        ({
            let ms0 = views(pre.meas@);
            let ins = ms0.insert(pos, m);
            if ins.len() > pre.lag {
                let st = spec_step((pre.base_x@, pre.base_p@, pre.base_t), ins[0], pre.q_scale);
                views(post.meas@) == ins.drop_first() && post.base_x@ == st.0 && post.base_p@
                    == st.1 && post.base_t == st.2
            } else {
                views(post.meas@) == ins && post.base_x@ == pre.base_x@ && post.base_p@
                    == pre.base_p@ && post.base_t == pre.base_t
            }
        }),
    ensures
        post.wf(),
{
    let ms0 = views(pre.meas@);
    let ins = ms0.insert(pos, m);
    lemma_insert_pos_props(ms0, m);
    lemma_insert_sorted(ms0, m, pos);
    assert(meas_all_wf(ins)) by {
        assert(forall|k: int| 0 <= k < pos ==> #[trigger] ins[k] == ms0[k]);
        assert(ins[pos] == m);
        assert(forall|k: int| pos < k < ins.len() ==> #[trigger] ins[k] == ms0[k - 1]);
    }
    assert(forall|k: int| 0 <= k < ins.len() ==> (#[trigger] ins[k]).t_ms >= pre.base_t) by {
        assert(forall|k: int| 0 <= k < pos ==> #[trigger] ins[k] == ms0[k]);
        assert(forall|k: int| pos < k < ins.len() ==> #[trigger] ins[k] == ms0[k - 1]);
    }
    if ins.len() > pre.lag {
        let st = spec_step((pre.base_x@, pre.base_p@, pre.base_t), ins[0], pre.q_scale);
        lemma_step_wf_base((pre.base_x@, pre.base_p@, pre.base_t), ins[0], pre.q_scale);
        assert(meas_all_wf(views(post.meas@))) by {
            assert(forall|k: int|
                0 <= k < ins.drop_first().len() ==> #[trigger] ins.drop_first()[k] == ins[k + 1]);
        }
        assert(meas_sorted(views(post.meas@))) by {
            assert(forall|a: int, b: int|
                0 <= a < b < ins.drop_first().len() ==> ins.drop_first()[a] == ins[a + 1]
                    && ins.drop_first()[b] == ins[b + 1]);
        }
        assert(forall|k: int|
            0 <= k < views(post.meas@).len() ==> (#[trigger] views(post.meas@)[k]).t_ms
                >= post.base_t) by {
            assert(forall|k: int|
                0 <= k < ins.drop_first().len() ==> #[trigger] ins.drop_first()[k] == ins[k + 1]);
            assert(forall|k: int|
                1 <= k < ins.len() ==> mle(ins[0], #[trigger] ins[k]));
            assert forall|k: int| 1 <= k < ins.len() implies (#[trigger] ins[k]).t_ms
                >= post.base_t by {
                lemma_mle_t(ins[0], ins[k]);
                let stp = spec_step((pre.base_x@, pre.base_p@, pre.base_t), ins[0], pre.q_scale);
                assert(stp.2 == st.2);
                assert(st.2 <= ins[0].t_ms || st.2 == pre.base_t);
            }
        }
        lemma_current_shape(
            post.base_x@,
            post.base_p@,
            post.base_t,
            views(post.meas@),
            post.q_scale,
            post.now_ms,
        );
    } else {
        lemma_current_shape(
            post.base_x@,
            post.base_p@,
            post.base_t,
            views(post.meas@),
            post.q_scale,
            post.now_ms,
        );
    }
}

/// The posterior depends only on the multiset of accepted measurements:
/// two filters over the same base belief and the same measurements, in
/// whatever order each received them, hold bit-identical state.
pub proof fn lemma_oosm_order_independence(f1: &AugmentedStateFilter, f2: &AugmentedStateFilter)
    requires
        f1.wf(),
        f2.wf(),
        f1.base_x@ == f2.base_x@,
        f1.base_p@ == f2.base_p@,
        f1.base_t == f2.base_t,
        f1.q_scale == f2.q_scale,
        f1.now_ms == f2.now_ms,
        views(f1.meas@).to_multiset() == views(f2.meas@).to_multiset(),
    ensures
        f1.x@ == f2.x@,
        f1.p@ == f2.p@,
{
    lemma_sorted_meas_unique(views(f1.meas@), views(f2.meas@));
}

/// The cached covariance of a well-formed filter is symmetric.
pub proof fn lemma_covariance_symmetric(f: &AugmentedStateFilter)
    requires
        f.wf(),
    ensures
        is_symmetric(f.p@, 9),
{
    lemma_current_shape(f.base_x@, f.base_p@, f.base_t, views(f.meas@), f.q_scale, f.now_ms);
}

} // verus!
