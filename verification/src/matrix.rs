//! Small dense matrices in fixed-point arithmetic.
//!
//! A matrix with `n` rows and `m` columns is a `Vec<i64>` of length `n * m`
//! in row-major order; entry `(i, j)` sits at index `i * m + j`. Every
//! executable operation returns exactly the value of its spec mirror, so
//! filter updates are deterministic functions of their inputs.

use vstd::prelude::*;

verus! {

use crate::fixed::{fx_mul, fx_add, fx_sub, fx_avg, fx_mul_exec, fx_add_exec, fx_sub_exec,
    fx_avg_exec, sat64, sat64_exec};
use vstd::arithmetic::mul::lemma_mul_inequality;

/// Sum of the first `l` fixed-point products of row `i` of `a` (an `n x m`
/// matrix) with column `j` of `b` (an `m x k` matrix).
pub open spec fn mm_acc(a: Seq<i64>, b: Seq<i64>, m: int, k: int, i: int, j: int, l: int) -> int
    decreases l,
{
    if l <= 0 {
        0
    } else {
        mm_acc(a, b, m, k, i, j, l - 1) + fx_mul(a[i * m + (l - 1)], b[(l - 1) * k + j]) as int
    }
}

/// As `mm_acc`, but against row `j` of `b` (an `k x m` matrix), computing a
/// product with the transpose of `b` without materialising it.
pub open spec fn mmt_acc(a: Seq<i64>, b: Seq<i64>, m: int, i: int, j: int, l: int) -> int
    decreases l,
{
    if l <= 0 {
        0
    } else {
        mmt_acc(a, b, m, i, j, l - 1) + fx_mul(a[i * m + (l - 1)], b[j * m + (l - 1)]) as int
    }
}

/// Row `i` of the product, up to column `j`.
pub open spec fn mm_row(a: Seq<i64>, b: Seq<i64>, m: int, k: int, i: int, j: int) -> Seq<i64>
    decreases j,
{
    if j <= 0 {
        Seq::empty()
    } else {
        mm_row(a, b, m, k, i, j - 1).push(sat64(mm_acc(a, b, m, k, i, j - 1, m)))
    }
}

/// The first `i` rows of the product of an `n x m` and an `m x k` matrix.
pub open spec fn mm_rows(a: Seq<i64>, b: Seq<i64>, m: int, k: int, i: int) -> Seq<i64>
    decreases i,
{
    if i <= 0 {
        Seq::empty()
    } else {
        mm_rows(a, b, m, k, i - 1) + mm_row(a, b, m, k, i - 1, k)
    }
}

/// The product of an `n x m` matrix and an `m x k` matrix.
pub open spec fn spec_mat_mul(a: Seq<i64>, b: Seq<i64>, n: int, m: int, k: int) -> Seq<i64> {
    mm_rows(a, b, m, k, n)
}

/// Row `i` of the product with a transpose, up to column `j`.
pub open spec fn mmt_row(a: Seq<i64>, b: Seq<i64>, m: int, i: int, j: int) -> Seq<i64>
    decreases j,
{
    if j <= 0 {
        Seq::empty()
    } else {
        mmt_row(a, b, m, i, j - 1).push(sat64(mmt_acc(a, b, m, i, j - 1, m)))
    }
}

/// The first `i` rows of the product of an `n x m` matrix with the transpose
/// of a `k x m` matrix.
pub open spec fn mmt_rows(a: Seq<i64>, b: Seq<i64>, m: int, k: int, i: int) -> Seq<i64>
    decreases i,
{
    if i <= 0 {
        Seq::empty()
    } else {
        mmt_rows(a, b, m, k, i - 1) + mmt_row(a, b, m, i - 1, k)
    }
}

/// The product `a * transpose(b)` of an `n x m` matrix and a `k x m` matrix.
pub open spec fn spec_mat_mul_bt(a: Seq<i64>, b: Seq<i64>, n: int, m: int, k: int) -> Seq<i64> {
    mmt_rows(a, b, m, k, n)
}

/// Entrywise saturating sum.
pub open spec fn spec_mat_add(a: Seq<i64>, b: Seq<i64>) -> Seq<i64> {
    Seq::new(a.len(), |i: int| fx_add(a[i], b[i]))
}

/// Entrywise saturating difference.
pub open spec fn spec_mat_sub(a: Seq<i64>, b: Seq<i64>) -> Seq<i64> {
    Seq::new(a.len(), |i: int| fx_sub(a[i], b[i]))
}

/// Row `i` of the symmetrised square matrix, up to column `j`.
pub open spec fn sym_row(a: Seq<i64>, n: int, i: int, j: int) -> Seq<i64>
    decreases j,
{
    if j <= 0 {
        Seq::empty()
    } else {
        sym_row(a, n, i, j - 1).push(fx_avg(a[i * n + (j - 1)], a[(j - 1) * n + i]))
    }
}

/// The first `i` rows of the symmetrised matrix.
pub open spec fn sym_rows(a: Seq<i64>, n: int, i: int) -> Seq<i64>
    decreases i,
{
    if i <= 0 {
        Seq::empty()
    } else {
        sym_rows(a, n, i - 1) + sym_row(a, n, i - 1, n)
    }
}

/// `(a + transpose(a)) / 2` for a square `n x n` matrix.
pub open spec fn spec_symmetrize(a: Seq<i64>, n: int) -> Seq<i64> {
    sym_rows(a, n, n)
}

/// A square `n x n` matrix equals its transpose.
pub open spec fn is_symmetric(a: Seq<i64>, n: int) -> bool {
    forall|i: int, j: int|
        0 <= i < n && 0 <= j < n ==> a[i * n + j] == a[#[trigger] (j * n + i)]
}

proof fn lemma_mm_acc_bound(a: Seq<i64>, b: Seq<i64>, m: int, k: int, i: int, j: int, l: int)
    requires
        l >= 0,
    ensures
        -(l * 0x8000_0000_0000_0000) <= mm_acc(a, b, m, k, i, j, l) <= l * 0x8000_0000_0000_0000,
    decreases l,
{
    if l > 0 {
        lemma_mm_acc_bound(a, b, m, k, i, j, l - 1);
    }
}

proof fn lemma_mmt_acc_bound(a: Seq<i64>, b: Seq<i64>, m: int, i: int, j: int, l: int)
    requires
        l >= 0,
    ensures
        -(l * 0x8000_0000_0000_0000) <= mmt_acc(a, b, m, i, j, l) <= l * 0x8000_0000_0000_0000,
    decreases l,
{
    if l > 0 {
        lemma_mmt_acc_bound(a, b, m, i, j, l - 1);
    }
}

proof fn lemma_mm_row_len(a: Seq<i64>, b: Seq<i64>, m: int, k: int, i: int, j: int)
    requires
        j >= 0,
    ensures
        mm_row(a, b, m, k, i, j).len() == j,
    decreases j,
{
    if j > 0 {
        lemma_mm_row_len(a, b, m, k, i, j - 1);
    }
}

pub proof fn lemma_mm_rows_len(a: Seq<i64>, b: Seq<i64>, m: int, k: int, i: int)
    requires
        i >= 0,
        k >= 0,
    ensures
        mm_rows(a, b, m, k, i).len() == i * k,
    decreases i,
{
    if i > 0 {
        lemma_mm_rows_len(a, b, m, k, i - 1);
        lemma_mm_row_len(a, b, m, k, i - 1, k);
        assert(mm_rows(a, b, m, k, i) == mm_rows(a, b, m, k, i - 1) + mm_row(a, b, m, k, i - 1, k));
        assert(mm_rows(a, b, m, k, i).len() == (i - 1) * k + k);
        assert((i - 1) * k + k == i * k) by (nonlinear_arith);
    } else {
        assert(mm_rows(a, b, m, k, i).len() == 0);
        assert(i * k == 0) by (nonlinear_arith)
            requires
                i == 0,
        ;
    }
}

proof fn lemma_mmt_row_len(a: Seq<i64>, b: Seq<i64>, m: int, i: int, j: int)
    requires
        j >= 0,
    ensures
        mmt_row(a, b, m, i, j).len() == j,
    decreases j,
{
    if j > 0 {
        lemma_mmt_row_len(a, b, m, i, j - 1);
    }
}

pub proof fn lemma_mmt_rows_len(a: Seq<i64>, b: Seq<i64>, m: int, k: int, i: int)
    requires
        i >= 0,
        k >= 0,
    ensures
        mmt_rows(a, b, m, k, i).len() == i * k,
    decreases i,
{
    if i > 0 {
        lemma_mmt_rows_len(a, b, m, k, i - 1);
        lemma_mmt_row_len(a, b, m, i - 1, k);
        assert((i - 1) * k + k == i * k) by (nonlinear_arith);
    } else {
        assert(i * k == 0) by (nonlinear_arith)
            requires
                i == 0,
        ;
    }
}

proof fn lemma_sym_row_len(a: Seq<i64>, n: int, i: int, j: int)
    requires
        j >= 0,
    ensures
        sym_row(a, n, i, j).len() == j,
    decreases j,
{
    if j > 0 {
        lemma_sym_row_len(a, n, i, j - 1);
    }
}

pub proof fn lemma_sym_rows_len(a: Seq<i64>, n: int, i: int)
    requires
        i >= 0,
        n >= 0,
    ensures
        sym_rows(a, n, i).len() == i * n,
    decreases i,
{
    if i > 0 {
        lemma_sym_rows_len(a, n, i - 1);
        lemma_sym_row_len(a, n, i - 1, n);
        assert((i - 1) * n + n == i * n) by (nonlinear_arith);
    } else {
        assert(i * n == 0) by (nonlinear_arith)
            requires
                i == 0,
        ;
    }
}

proof fn lemma_mm_row_index(a: Seq<i64>, b: Seq<i64>, m: int, k: int, i: int, j: int, jj: int)
    requires
        0 <= jj < j,
    ensures
        mm_row(a, b, m, k, i, j)[jj] == sat64(mm_acc(a, b, m, k, i, jj, m)),
    decreases j,
{
    lemma_mm_row_len(a, b, m, k, i, j - 1);
    if jj < j - 1 {
        lemma_mm_row_index(a, b, m, k, i, j - 1, jj);
    }
}

/// Entry `(i, j)` of a matrix product.
pub proof fn lemma_mm_index(a: Seq<i64>, b: Seq<i64>, m: int, k: int, rows: int, i: int, j: int)
    requires
        0 <= i < rows,
        0 <= j < k,
    ensures
        mm_rows(a, b, m, k, rows)[i * k + j] == sat64(mm_acc(a, b, m, k, i, j, m)),
    decreases rows,
{
    lemma_mm_rows_len(a, b, m, k, rows - 1);
    lemma_mm_row_len(a, b, m, k, rows - 1, k);
    if i < rows - 1 {
        lemma_mm_index(a, b, m, k, rows - 1, i, j);
        assert((i + 1) * k <= (rows - 1) * k) by (nonlinear_arith)
            requires
                i + 1 <= rows - 1,
                k >= 0,
        ;
        assert(i * k + j < (rows - 1) * k) by (nonlinear_arith)
            requires
                j < k,
                (i + 1) * k <= (rows - 1) * k,
        ;
    } else {
        assert(i * k + j - (rows - 1) * k == j);
        lemma_mm_row_index(a, b, m, k, i, k, j);
    }
}

proof fn lemma_mmt_row_index(a: Seq<i64>, b: Seq<i64>, m: int, i: int, j: int, jj: int)
    requires
        0 <= jj < j,
    ensures
        mmt_row(a, b, m, i, j)[jj] == sat64(mmt_acc(a, b, m, i, jj, m)),
    decreases j,
{
    lemma_mmt_row_len(a, b, m, i, j - 1);
    if jj < j - 1 {
        lemma_mmt_row_index(a, b, m, i, j - 1, jj);
    }
}

/// Entry `(i, j)` of a product with a transpose.
pub proof fn lemma_mmt_index(a: Seq<i64>, b: Seq<i64>, m: int, k: int, rows: int, i: int, j: int)
    requires
        0 <= i < rows,
        0 <= j < k,
    ensures
        mmt_rows(a, b, m, k, rows)[i * k + j] == sat64(mmt_acc(a, b, m, i, j, m)),
    decreases rows,
{
    lemma_mmt_rows_len(a, b, m, k, rows - 1);
    lemma_mmt_row_len(a, b, m, rows - 1, k);
    if i < rows - 1 {
        lemma_mmt_index(a, b, m, k, rows - 1, i, j);
        assert((i + 1) * k <= (rows - 1) * k) by (nonlinear_arith)
            requires
                i + 1 <= rows - 1,
                k >= 0,
        ;
        assert(i * k + j < (rows - 1) * k) by (nonlinear_arith)
            requires
                j < k,
                (i + 1) * k <= (rows - 1) * k,
        ;
    } else {
        assert(i * k + j - (rows - 1) * k == j);
        lemma_mmt_row_index(a, b, m, i, k, j);
    }
}

proof fn lemma_sym_row_index(a: Seq<i64>, n: int, i: int, j: int, jj: int)
    requires
        0 <= jj < j,
    ensures
        sym_row(a, n, i, j)[jj] == fx_avg(a[i * n + jj], a[jj * n + i]),
    decreases j,
{
    lemma_sym_row_len(a, n, i, j - 1);
    if jj < j - 1 {
        lemma_sym_row_index(a, n, i, j - 1, jj);
    }
}

/// Entry `(i, j)` of the symmetrised matrix.
pub proof fn lemma_sym_index(a: Seq<i64>, n: int, rows: int, i: int, j: int)
    requires
        0 <= i < rows,
        0 <= j < n,
    ensures
        sym_rows(a, n, rows)[i * n + j] == fx_avg(a[i * n + j], a[j * n + i]),
    decreases rows,
{
    lemma_sym_rows_len(a, n, rows - 1);
    lemma_sym_row_len(a, n, rows - 1, n);
    if i < rows - 1 {
        lemma_sym_index(a, n, rows - 1, i, j);
        assert((i + 1) * n <= (rows - 1) * n) by (nonlinear_arith)
            requires
                i + 1 <= rows - 1,
                n >= 0,
        ;
        assert(i * n + j < (rows - 1) * n) by (nonlinear_arith)
            requires
                j < n,
                (i + 1) * n <= (rows - 1) * n,
        ;
    } else {
        assert(i * n + j - (rows - 1) * n == j);
        lemma_sym_row_index(a, n, i, n, j);
    }
}

/// The symmetrised matrix is symmetric.
pub proof fn lemma_symmetrize_symmetric(a: Seq<i64>, n: int)
    requires
        n >= 0,
    ensures
        is_symmetric(spec_symmetrize(a, n), n),
{
    let s = spec_symmetrize(a, n);
    assert forall|i: int, j: int| 0 <= i < n && 0 <= j < n implies s[i * n + j] == s[#[trigger] (j
        * n + i)] by {
        lemma_sym_index(a, n, n, i, j);
        lemma_sym_index(a, n, n, j, i);
    }
}

fn flat_index(i: usize, j: usize, cols: usize, rows: usize, len: usize) -> (r: usize)
    requires
        i < rows,
        j < cols,
        len == rows * cols,
    ensures
        r == i * cols + j,
        r < len,
{
    proof {
        assert((i + 1) * cols <= rows * cols) by (nonlinear_arith)
            requires
                i + 1 <= rows,
                cols >= 0,
        ;
        assert(i * cols + j < (i + 1) * cols) by (nonlinear_arith)
            requires
                j < cols,
        ;
        assert(i * cols + j >= 0) by (nonlinear_arith)
            requires
                i >= 0,
                j >= 0,
                cols >= 0,
        ;
    }
    i * cols + j
}

/// Product of an `n x m` matrix and an `m x k` matrix.
pub fn mat_mul(a: &Vec<i64>, b: &Vec<i64>, n: usize, m: usize, k: usize) -> (r: Vec<i64>)
    requires
        a.len() == n * m,
        b.len() == m * k,
        1 <= m <= 16,
        n <= 16,
        k <= 16,
    ensures
        r@ == spec_mat_mul(a@, b@, n as int, m as int, k as int),
        r.len() == n * k,
{
    let mut r: Vec<i64> = Vec::new();
    let mut i: usize = 0;
    while i < n
        invariant
            i <= n,
            a.len() == n * m,
            b.len() == m * k,
            1 <= m <= 16,
            n <= 16,
            k <= 16,
            r@ == mm_rows(a@, b@, m as int, k as int, i as int),
            r.len() == i * k,
        decreases n - i,
    {
        let mut j: usize = 0;
        proof {
            assert(mm_row(a@, b@, m as int, k as int, i as int, 0) == Seq::<i64>::empty());
        }
        while j < k
            invariant
                i < n,
                j <= k,
                a.len() == n * m,
                b.len() == m * k,
                1 <= m <= 16,
                n <= 16,
                k <= 16,
                r@ == mm_rows(a@, b@, m as int, k as int, i as int) + mm_row(
                    a@,
                    b@,
                    m as int,
                    k as int,
                    i as int,
                    j as int,
                ),
                r.len() == i * k + j,
            decreases k - j,
        {
            let mut acc: i128 = 0;
            let mut l: usize = 0;
            while l < m
                invariant
                    i < n,
                    j < k,
                    l <= m,
                    a.len() == n * m,
                    b.len() == m * k,
                    1 <= m <= 16,
                    n <= 16,
                    k <= 16,
                    acc == mm_acc(a@, b@, m as int, k as int, i as int, j as int, l as int),
                    -((l as int) * 0x8000_0000_0000_0000) <= acc <= (l as int)
                        * 0x8000_0000_0000_0000,
                decreases m - l,
            {
                let ai: usize = flat_index(i, l, m, n, a.len());
                let bi: usize = flat_index(l, j, k, m, b.len());
                let t: i64 = fx_mul_exec(a[ai], b[bi]);
                acc = acc + t as i128;
                l = l + 1;
            }
            let e: i64 = sat64_exec(acc);
            r.push(e);
            j = j + 1;
        }
        proof {
            lemma_mm_row_len(a@, b@, m as int, k as int, i as int, k as int);
            assert((i as int + 1) * (k as int) == i as int * (k as int) + k as int)
                by (nonlinear_arith);
        }
        i = i + 1;
    }
    proof {
        lemma_mm_rows_len(a@, b@, m as int, k as int, n as int);
    }
    r
}

/// Product of an `n x m` matrix with the transpose of a `k x m` matrix.
pub fn mat_mul_bt(a: &Vec<i64>, b: &Vec<i64>, n: usize, m: usize, k: usize) -> (r: Vec<i64>)
    requires
        a.len() == n * m,
        b.len() == k * m,
        1 <= m <= 16,
        n <= 16,
        k <= 16,
    ensures
        r@ == spec_mat_mul_bt(a@, b@, n as int, m as int, k as int),
        r.len() == n * k,
{
    let mut r: Vec<i64> = Vec::new();
    let mut i: usize = 0;
    while i < n
        invariant
            i <= n,
            a.len() == n * m,
            b.len() == k * m,
            1 <= m <= 16,
            n <= 16,
            k <= 16,
            r@ == mmt_rows(a@, b@, m as int, k as int, i as int),
            r.len() == i * k,
        decreases n - i,
    {
        let mut j: usize = 0;
        while j < k
            invariant
                i < n,
                j <= k,
                a.len() == n * m,
                b.len() == k * m,
                1 <= m <= 16,
                n <= 16,
                k <= 16,
                r@ == mmt_rows(a@, b@, m as int, k as int, i as int) + mmt_row(
                    a@,
                    b@,
                    m as int,
                    i as int,
                    j as int,
                ),
                r.len() == i * k + j,
            decreases k - j,
        {
            let mut acc: i128 = 0;
            let mut l: usize = 0;
            while l < m
                invariant
                    i < n,
                    j < k,
                    l <= m,
                    a.len() == n * m,
                    b.len() == k * m,
                    1 <= m <= 16,
                    n <= 16,
                    k <= 16,
                    acc == mmt_acc(a@, b@, m as int, i as int, j as int, l as int),
                    -((l as int) * 0x8000_0000_0000_0000) <= acc <= (l as int)
                        * 0x8000_0000_0000_0000,
                decreases m - l,
            {
                let ai: usize = flat_index(i, l, m, n, a.len());
                let bi: usize = flat_index(j, l, m, k, b.len());
                let t: i64 = fx_mul_exec(a[ai], b[bi]);
                acc = acc + t as i128;
                l = l + 1;
            }
            let e: i64 = sat64_exec(acc);
            r.push(e);
            j = j + 1;
        }
        proof {
            lemma_mmt_row_len(a@, b@, m as int, i as int, k as int);
            assert((i as int + 1) * (k as int) == i as int * (k as int) + k as int)
                by (nonlinear_arith);
        }
        i = i + 1;
    }
    proof {
        lemma_mmt_rows_len(a@, b@, m as int, k as int, n as int);
    }
    r
}

/// Entrywise saturating sum of two equally sized matrices.
pub fn mat_add(a: &Vec<i64>, b: &Vec<i64>) -> (r: Vec<i64>)
    requires
        a.len() == b.len(),
    ensures
        r@ == spec_mat_add(a@, b@),
        r.len() == a.len(),
{
    let mut r: Vec<i64> = Vec::new();
    let mut i: usize = 0;
    while i < a.len()
        invariant
            i <= a.len(),
            a.len() == b.len(),
            r.len() == i,
            forall|t: int| 0 <= t < i ==> r@[t] == fx_add(a@[t], b@[t]),
        decreases a.len() - i,
    {
        r.push(fx_add_exec(a[i], b[i]));
        i = i + 1;
    }
    proof {
        assert(r@ =~= spec_mat_add(a@, b@));
    }
    r
}

/// Entrywise saturating difference of two equally sized matrices.
pub fn mat_sub(a: &Vec<i64>, b: &Vec<i64>) -> (r: Vec<i64>)
    requires
        a.len() == b.len(),
    ensures
        r@ == spec_mat_sub(a@, b@),
        r.len() == a.len(),
{
    let mut r: Vec<i64> = Vec::new();
    let mut i: usize = 0;
    while i < a.len()
        invariant
            i <= a.len(),
            a.len() == b.len(),
            r.len() == i,
            forall|t: int| 0 <= t < i ==> r@[t] == fx_sub(a@[t], b@[t]),
        decreases a.len() - i,
    {
        r.push(fx_sub_exec(a[i], b[i]));
        i = i + 1;
    }
    proof {
        assert(r@ =~= spec_mat_sub(a@, b@));
    }
    r
}

/// `(a + transpose(a)) / 2` of a square matrix; the result is symmetric.
pub fn symmetrize(a: &Vec<i64>, n: usize) -> (r: Vec<i64>)
    requires
        a.len() == n * n,
        n <= 16,
    ensures
        r@ == spec_symmetrize(a@, n as int),
        r.len() == n * n,
        is_symmetric(r@, n as int),
{
    let mut r: Vec<i64> = Vec::new();
    let mut i: usize = 0;
    while i < n
        invariant
            i <= n,
            a.len() == n * n,
            n <= 16,
            r@ == sym_rows(a@, n as int, i as int),
            r.len() == i * n,
        decreases n - i,
    {
        let mut j: usize = 0;
        while j < n
            invariant
                i < n,
                j <= n,
                a.len() == n * n,
                n <= 16,
                r@ == sym_rows(a@, n as int, i as int) + sym_row(
                    a@,
                    n as int,
                    i as int,
                    j as int,
                ),
                r.len() == i * n + j,
            decreases n - j,
        {
            let ai: usize = flat_index(i, j, n, n, a.len());
            let bi: usize = flat_index(j, i, n, n, a.len());
            r.push(fx_avg_exec(a[ai], a[bi]));
            j = j + 1;
        }
        proof {
            lemma_sym_row_len(a@, n as int, i as int, n as int);
            assert((i as int + 1) * (n as int) == i as int * (n as int) + n as int)
                by (nonlinear_arith);
        }
        i = i + 1;
    }
    proof {
        lemma_sym_rows_len(a@, n as int, n as int);
        lemma_symmetrize_symmetric(a@, n as int);
    }
    r
}

/// A square matrix with `d` on the diagonal and zero elsewhere, one row at a
/// time.
pub open spec fn diag_rows(n: int, d: i64, i: int) -> Seq<i64>
    decreases i,
{
    if i <= 0 {
        Seq::empty()
    } else {
        diag_rows(n, d, i - 1) + Seq::new(n as nat, |j: int| if j == i - 1 { d } else { 0i64 })
    }
}

/// A square diagonal matrix.
pub open spec fn spec_diag(n: int, d: i64) -> Seq<i64> {
    diag_rows(n, d, n)
}

/// Builds `d * I` for an `n x n` matrix.
pub fn mat_diag(n: usize, d: i64) -> (r: Vec<i64>)
    requires
        n <= 16,
    ensures
        r@ == spec_diag(n as int, d),
        r.len() == n * n,
{
    let mut r: Vec<i64> = Vec::new();
    let mut i: usize = 0;
    while i < n
        invariant
            i <= n,
            n <= 16,
            r@ == diag_rows(n as int, d, i as int),
            r.len() == i * n,
        decreases n - i,
    {
        let mut j: usize = 0;
        while j < n
            invariant
                i < n,
                j <= n,
                n <= 16,
                r@ == diag_rows(n as int, d, i as int) + Seq::new(
                    j as nat,
                    |t: int| if t == i as int { d } else { 0i64 },
                ),
                r.len() == i * n + j,
            decreases n - j,
        {
            if j == i {
                r.push(d);
            } else {
                r.push(0);
            }
            proof {
                assert(Seq::new((j + 1) as nat, |t: int| if t == i as int { d } else { 0i64 })
                    =~= Seq::new(j as nat, |t: int| if t == i as int { d } else { 0i64 }).push(
                    if j as int == i as int { d } else { 0i64 }));
            }
            j = j + 1;
        }
        proof {
            assert(Seq::new(n as nat, |t: int| if t == i as int { d } else { 0i64 }).len()
                == n as int);
            assert((i as int + 1) * (n as int) == i as int * (n as int) + n as int)
                by (nonlinear_arith);
        }
        i = i + 1;
    }
    proof {
        assert((n as int) * (n as int) >= 0) by (nonlinear_arith);
        lemma_diag_rows_len(n as int, d, n as int);
    }
    r
}

pub proof fn lemma_diag_rows_len(n: int, d: i64, i: int)
    requires
        i >= 0,
        n >= 0,
    ensures
        diag_rows(n, d, i).len() == i * n,
    decreases i,
{
    if i > 0 {
        lemma_diag_rows_len(n, d, i - 1);
        assert((i - 1) * n + n == i * n) by (nonlinear_arith);
    } else {
        assert(i * n == 0) by (nonlinear_arith)
            requires
                i == 0,
        ;
    }
}

} // verus!
