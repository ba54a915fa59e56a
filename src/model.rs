//! The mathematical model: column sums, product sums and the covariance
//! numerator of a sequence of records, with the laws they obey.
use vstd::prelude::*;

verus! {

/// Sum of the values at position `i` over all records.
pub open spec fn col_sum(rows: Seq<Seq<int>>, i: int) -> int
    decreases rows.len(),
{
    if rows.len() == 0 {
        0
    } else {
        col_sum(rows.drop_last(), i) + rows.last()[i]
    }
}

/// Sum of the products of the values at positions `i` and `j` over all records.
pub open spec fn prod_sum(rows: Seq<Seq<int>>, i: int, j: int) -> int
    decreases rows.len(),
{
    if rows.len() == 0 {
        0
    } else {
        prod_sum(rows.drop_last(), i, j) + rows.last()[i] * rows.last()[j]
    }
}

/// `n * n` times the population covariance of dimensions `i` and `j`, where
/// `n` is the number of records: `n * sum(x_i x_j) - sum(x_i) * sum(x_j)`.
pub open spec fn cov_numer(rows: Seq<Seq<int>>, i: int, j: int) -> int {
    rows.len() * prod_sum(rows, i, j) - col_sum(rows, i) * col_sum(rows, j)
}

/// Every record has exactly `d` values.
pub open spec fn rows_shaped(rows: Seq<Seq<int>>, d: int) -> bool {
    forall|r: int| 0 <= r < rows.len() ==> #[trigger] rows[r].len() == d
}

/// The records with every value at position `k` multiplied by `c`.
pub open spec fn scale_dim(rows: Seq<Seq<int>>, k: int, c: int) -> Seq<Seq<int>> {
    rows.map_values(|row: Seq<int>| row.update(k, c * row[k]))
}

/// The factor by which scaling dimension `k` by `c` scales dimension `i`.
pub open spec fn factor(i: int, k: int, c: int) -> int {
    if i == k {
        c
    } else {
        1
    }
}

proof fn lemma_prod_sum_symmetric(rows: Seq<Seq<int>>, i: int, j: int)
    ensures
        prod_sum(rows, i, j) == prod_sum(rows, j, i),
    decreases rows.len(),
{
    if rows.len() > 0 {
        lemma_prod_sum_symmetric(rows.drop_last(), i, j);
        assert(rows.last()[i] * rows.last()[j] == rows.last()[j] * rows.last()[i]) by (nonlinear_arith);
    }
}

/// The covariance matrix is symmetric: entry (i, j) equals entry (j, i).
pub proof fn law_symmetric(rows: Seq<Seq<int>>, i: int, j: int)
    ensures
        cov_numer(rows, i, j) == cov_numer(rows, j, i),
{
    lemma_prod_sum_symmetric(rows, i, j);
    assert(col_sum(rows, i) * col_sum(rows, j) == col_sum(rows, j) * col_sum(rows, i)) by (nonlinear_arith);
}

/// The sum of squared deviations from any `x` is non-negative:
/// `sum(y^2) - 2 x sum(y) + n x^2 >= 0`.
proof fn lemma_square_deviation(rows: Seq<Seq<int>>, i: int, x: int)
    ensures
        prod_sum(rows, i, i) - 2 * x * col_sum(rows, i) + rows.len() * x * x >= 0,
    decreases rows.len(),
{
    if rows.len() > 0 {
        let prev = rows.drop_last();
        lemma_square_deviation(prev, i, x);
        let y = rows.last()[i];
        let q = prod_sum(prev, i, i);
        let s = col_sum(prev, i);
        let n = prev.len() as int;
        assert(q + y * y - 2 * x * (s + y) + (n + 1) * x * x == (q - 2 * x * s + n * x * x) + (y
            - x) * (y - x)) by (nonlinear_arith);
        assert((y - x) * (y - x) >= 0) by (nonlinear_arith);
    }
}

/// A variance is never negative: every diagonal entry is at least zero.
pub proof fn law_diagonal_nonnegative(rows: Seq<Seq<int>>, i: int)
    ensures
        cov_numer(rows, i, i) >= 0,
    decreases rows.len(),
{
    if rows.len() > 0 {
        let prev = rows.drop_last();
        law_diagonal_nonnegative(prev, i);
        let y = rows.last()[i];
        lemma_square_deviation(prev, i, y);
        let q = prod_sum(prev, i, i);
        let s = col_sum(prev, i);
        let n = prev.len() as int;
        assert((n + 1) * (q + y * y) - (s + y) * (s + y) == (n * q - s * s) + (q - 2 * y * s + n
            * y * y)) by (nonlinear_arith);
    }
}

/// A single record varies with nothing: its covariance matrix is all zero.
pub proof fn law_single_record_zero(rows: Seq<Seq<int>>, i: int, j: int)
    requires
        rows.len() == 1,
    ensures
        cov_numer(rows, i, j) == 0,
{
    let prev = rows.drop_last();
    assert(prev.len() == 0);
    assert(col_sum(prev, i) == 0 && col_sum(prev, j) == 0 && prod_sum(prev, i, j) == 0);
    assert(col_sum(rows, i) == rows.last()[i]);
    assert(col_sum(rows, j) == rows.last()[j]);
    assert(prod_sum(rows, i, j) == rows.last()[i] * rows.last()[j]);
}

proof fn lemma_scaled_sums(rows: Seq<Seq<int>>, d: int, k: int, c: int, i: int, j: int)
    requires
        rows_shaped(rows, d),
        0 <= k < d,
        0 <= i < d,
        0 <= j < d,
    ensures
        col_sum(scale_dim(rows, k, c), i) == factor(i, k, c) * col_sum(rows, i),
        prod_sum(scale_dim(rows, k, c), i, j) == factor(i, k, c) * factor(j, k, c) * prod_sum(
            rows,
            i,
            j,
        ),
    decreases rows.len(),
{
    let sc = scale_dim(rows, k, c);
    if rows.len() > 0 {
        let prev = rows.drop_last();
        assert(scale_dim(prev, k, c) =~= sc.drop_last());
        lemma_scaled_sums(prev, d, k, c, i, j);
        let row = rows.last();
        assert(rows[rows.len() - 1].len() == d);
        let fi = factor(i, k, c);
        let fj = factor(j, k, c);
        assert(sc.last()[i] == fi * row[i]);
        assert(sc.last()[j] == fj * row[j]);
        let ps = prod_sum(prev, i, j);
        assert(fi * fj * ps + (fi * row[i]) * (fj * row[j]) == fi * fj * (ps + row[i] * row[j]))
            by (nonlinear_arith);
        assert(fi * col_sum(prev, i) + fi * row[i] == fi * (col_sum(prev, i) + row[i]))
            by (nonlinear_arith);
    }
}

proof fn lemma_factor_out(n: int, a: int, b: int, p: int, x: int, y: int)
    ensures
        n * (a * b * p) - (a * x) * (b * y) == a * b * (n * p - x * y),
{
    assert(n * (a * b * p) == a * b * (n * p)) by (nonlinear_arith);
    assert((a * x) * (b * y) == a * b * (x * y)) by (nonlinear_arith);
    assert(a * b * (n * p) - a * b * (x * y) == a * b * (n * p - x * y)) by (nonlinear_arith);
}

/// Scaling every value of dimension `k` by `c` scales row `k` and column `k`
/// of the covariance matrix by `c`, and so entry (k, k) by `c * c`.
pub proof fn law_scale(rows: Seq<Seq<int>>, d: int, k: int, c: int, i: int, j: int)
    requires
        rows_shaped(rows, d),
        0 <= k < d,
        0 <= i < d,
        0 <= j < d,
    ensures
        cov_numer(scale_dim(rows, k, c), i, j) == factor(i, k, c) * factor(j, k, c) * cov_numer(
            rows,
            i,
            j,
        ),
        cov_numer(scale_dim(rows, k, c), k, k) == c * c * cov_numer(rows, k, k),
{
    lemma_scaled_sums(rows, d, k, c, i, j);
    lemma_scaled_sums(rows, d, k, c, k, k);
    lemma_scaled_sums(rows, d, k, c, j, i);
    let n = rows.len() as int;
    assert(scale_dim(rows, k, c).len() == n);
    let fi = factor(i, k, c);
    let fj = factor(j, k, c);
    let (p, si, sj) = (prod_sum(rows, i, j), col_sum(rows, i), col_sum(rows, j));
    let sc = scale_dim(rows, k, c);
    assert(prod_sum(sc, i, j) == fi * fj * p);
    assert(col_sum(sc, i) == fi * si);
    assert(col_sum(sc, j) == fj * sj);
    lemma_factor_out(n, fi, fj, p, si, sj);
    assert(cov_numer(sc, i, j) == n * (fi * fj * p) - (fi * si) * (fj * sj));
    lemma_factor_out(n, c, c, prod_sum(rows, k, k), col_sum(rows, k), col_sum(rows, k));
}

/// Sums over two runs of records add up to the sums over both together.
pub proof fn law_sums_concat(a: Seq<Seq<int>>, b: Seq<Seq<int>>, i: int, j: int)
    ensures
        col_sum(a + b, i) == col_sum(a, i) + col_sum(b, i),
        prod_sum(a + b, i, j) == prod_sum(a, i, j) + prod_sum(b, i, j),
    decreases b.len(),
{
    if b.len() == 0 {
        assert(a + b =~= a);
    } else {
        assert((a + b).drop_last() =~= a + b.drop_last());
        assert((a + b).last() == b.last());
        law_sums_concat(a, b.drop_last(), i, j);
    }
}

} // verus!
