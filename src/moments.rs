//! The moment accumulator: one pass over the records, O(D^2) state.
use vstd::prelude::*;
use crate::CovError;
use crate::model::{col_sum, prod_sum, cov_numer, rows_shaped, law_sums_concat};
use crate::record::{parse_record, record_of};

verus! {

/// The most records one accumulator takes; it keeps every exact sum within `i128`.
pub const MAX_RECORDS: u64 = 2147483647;

/// The largest magnitude of an `i32`.
pub open spec fn value_bound() -> int {
    0x8000_0000
}

/// The integers of a parsed record.
pub open spec fn values_of(rec: Seq<i32>) -> Seq<int> {
    rec.map_values(|v: i32| v as int)
}

/// Every value of every record fits in an `i32`.
pub open spec fn rows_in_range(rows: Seq<Seq<int>>) -> bool {
    forall|r: int, i: int|
        0 <= r < rows.len() && 0 <= i < rows[r].len() ==> -value_bound() <= #[trigger] rows[r][i]
            <= value_bound()
}

proof fn lemma_mul_abs_bound(a: int, b: int, x: int, y: int)
    requires
        -x <= a <= x,
        -y <= b <= y,
    ensures
        -(x * y) <= a * b <= x * y,
{
    assert(-(x * y) <= a * b <= x * y) by (nonlinear_arith)
        requires
            -x <= a <= x,
            -y <= b <= y,
    ;
}

/// Each column sum is at most `n * 2^31` and each product sum at most
/// `n * 2^62` in magnitude.
proof fn lemma_sum_bounds(rows: Seq<Seq<int>>, d: int, i: int, j: int)
    requires
        rows_shaped(rows, d),
        rows_in_range(rows),
        0 <= i < d,
        0 <= j < d,
    ensures
        -(rows.len() * value_bound()) <= col_sum(rows, i) <= rows.len() * value_bound(),
        -(rows.len() * (value_bound() * value_bound())) <= prod_sum(rows, i, j) <= rows.len() * (
        value_bound() * value_bound()),
    decreases rows.len(),
{
    if rows.len() > 0 {
        let prev = rows.drop_last();
        assert(rows_shaped(prev, d));
        assert(rows_in_range(prev));
        lemma_sum_bounds(prev, d, i, j);
        let last = rows.len() - 1;
        assert(rows[last].len() == d);
        assert(-value_bound() <= rows[last][i] <= value_bound());
        assert(-value_bound() <= rows[last][j] <= value_bound());
        lemma_mul_abs_bound(rows[last][i], rows[last][j], value_bound(), value_bound());
        let n = prev.len() as int;
        assert((n + 1) * value_bound() == n * value_bound() + value_bound()) by (nonlinear_arith);
        assert((n + 1) * (value_bound() * value_bound()) == n * (value_bound() * value_bound()) + (
        value_bound() * value_bound())) by (nonlinear_arith);
    }
}

/// With at most `MAX_RECORDS` records the covariance numerator fits in `i128`.
proof fn lemma_covariance_fits(n: int, p: int, si: int, sj: int)
    requires
        0 <= n <= MAX_RECORDS,
        -(n * (value_bound() * value_bound())) <= p <= n * (value_bound() * value_bound()),
        -(n * value_bound()) <= si <= n * value_bound(),
        -(n * value_bound()) <= sj <= n * value_bound(),
    ensures
        -0x2000_0000_0000_0000_0000_0000_0000_0000 <= n * p <= 0x2000_0000_0000_0000_0000_0000_0000_0000,
        -0x2000_0000_0000_0000_0000_0000_0000_0000 <= si * sj <= 0x2000_0000_0000_0000_0000_0000_0000_0000,
{
    let b = 0x8000_0000int;
    assert(value_bound() == b);
    assert(n * b <= b * b) by (nonlinear_arith) requires 0 <= n <= b;
    assert(n * (b * b) <= b * (b * b)) by (nonlinear_arith) requires 0 <= n <= b;
    lemma_mul_abs_bound(n, p, b, n * (b * b));
    assert(b * (n * (b * b)) <= b * (b * (b * b))) by (nonlinear_arith) requires 0 <= n <= b;
    lemma_mul_abs_bound(si, sj, n * b, n * b);
    assert((n * b) * (n * b) <= (b * b) * (b * b)) by (nonlinear_arith) requires 0 <= n <= b;
}

/// A covariance matrix held exactly: entry (i, j) is `numer[i][j] / denom`.
pub struct CovMatrix {
    pub numer: Vec<Vec<i128>>,
    pub denom: i128,
}

impl CovMatrix {
    /// This matrix is the covariance matrix of `rows`, of dimension `d`.
    pub open spec fn holds(&self, rows: Seq<Seq<int>>, d: nat) -> bool {
        &&& self.denom == rows.len() * rows.len()
        &&& self.numer@.len() == d
        &&& forall|i: int| 0 <= i < d ==> #[trigger] self.numer@[i]@.len() == d
        &&& forall|i: int, j: int|
            0 <= i < d && 0 <= j < d ==> #[trigger] self.numer@[i]@[j] == cov_numer(rows, i, j)
    }
}

/// Running sums over the records seen so far.
pub struct Moments {
    dim: usize,
    count: u64,
    sums: Vec<i128>,
    products: Vec<Vec<i128>>,
    rows: Ghost<Seq<Seq<int>>>,
}

impl Moments {
    /// The records accumulated so far.
    pub closed spec fn records(&self) -> Seq<Seq<int>> {
        self.rows@
    }

    /// The number of values in every record.
    pub closed spec fn dimension(&self) -> nat {
        self.dim as nat
    }

    /// The well-formedness invariant: the sums are exactly those of `records()`,
    /// every record has `dimension()` values that fit in an `i32`, and there are
    /// at most `MAX_RECORDS` of them.
    pub closed spec fn wf(&self) -> bool {
        &&& self.count as int == self.rows@.len()
        &&& self.count <= MAX_RECORDS
        &&& rows_shaped(self.rows@, self.dim as int)
        &&& rows_in_range(self.rows@)
        &&& self.sums@.len() == self.dim
        &&& self.products@.len() == self.dim
        &&& forall|i: int| 0 <= i < self.dim ==> #[trigger] self.products@[i]@.len() == self.dim
        &&& forall|i: int| 0 <= i < self.dim ==> #[trigger] self.sums@[i] == col_sum(self.rows@, i)
        &&& forall|i: int, j: int|
            0 <= i < self.dim && 0 <= j < self.dim ==> #[trigger] self.products@[i]@[j] == prod_sum(
                self.rows@,
                i,
                j,
            )
    }

    /// An accumulator for records of `dim` values, with no record yet.
    pub fn new(dim: usize) -> (m: Moments)
        ensures
            m.wf(),
            m.dimension() == dim,
            m.records() == Seq::<Seq<int>>::empty(),
    {
        let mut sums: Vec<i128> = Vec::new();
        let mut products: Vec<Vec<i128>> = Vec::new();
        let mut i: usize = 0;
        while i < dim
            invariant
                i <= dim,
                sums@.len() == i,
                products@.len() == i,
                forall|k: int| 0 <= k < i ==> #[trigger] sums@[k] == 0,
                forall|k: int| 0 <= k < i ==> #[trigger] products@[k]@.len() == dim,
                forall|k: int, j: int| 0 <= k < i && 0 <= j < dim ==> #[trigger] products@[k]@[j] == 0,
            decreases dim - i,
        {
            let mut row: Vec<i128> = Vec::new();
            let mut j: usize = 0;
            while j < dim
                invariant
                    j <= dim,
                    row@.len() == j,
                    forall|k: int| 0 <= k < j ==> #[trigger] row@[k] == 0,
                decreases dim - j,
            {
                row.push(0);
                j = j + 1;
            }
            sums.push(0);
            products.push(row);
            i = i + 1;
        }
        Moments { dim, count: 0, sums, products, rows: Ghost(Seq::empty()) }
    }

    /// Adds one record. It is taken when it has exactly `dimension()` values
    /// and fewer than `MAX_RECORDS` records came before it; otherwise nothing
    /// changes and the error says why.
    pub fn add_record(&mut self, rec: &Vec<i32>) -> (r: Result<(), CovError>)
        requires
            old(self).wf(),
        ensures
            final(self).wf(),
            final(self).dimension() == old(self).dimension(),
            r == (if rec@.len() != old(self).dimension() {
                Err(CovError::ShapeMismatch)
            } else if old(self).records().len() >= MAX_RECORDS {
                Err(CovError::TooManyRecords)
            } else {
                Ok(())
            }),
            final(self).records() == (if r is Ok {
                old(self).records().push(values_of(rec@))
            } else {
                old(self).records()
            }),
    {
        if rec.len() != self.dim {
            return Err(CovError::ShapeMismatch);
        }
        if self.count >= MAX_RECORDS {
            return Err(CovError::TooManyRecords);
        }
        let ghost prev = self.rows@;
        let ghost vals = values_of(rec@);
        let ghost next = prev.push(vals);
        let d = self.dim;
        assert(rows_shaped(next, d as int)) by {
            assert forall|r: int| 0 <= r < next.len() implies #[trigger] next[r].len() == d by {
                if r < prev.len() {
                    assert(next[r] == prev[r]);
                }
            }
        }
        assert(rows_in_range(next)) by {
            assert forall|r: int, i: int| 0 <= r < next.len() && 0 <= i < next[r].len()
                implies -value_bound() <= #[trigger] next[r][i] <= value_bound() by {
                if r < prev.len() {
                    assert(next[r] == prev[r]);
                }
            }
        }
        assert(next.drop_last() =~= prev);
        assert(next.len() <= MAX_RECORDS);
        let mut i: usize = 0;
        while i < d
            invariant
                0 <= i <= d,
                d == self.dim,
                self.rows@ == prev,
                self.count as int == prev.len(),
                self.count < MAX_RECORDS,
                next == prev.push(vals),
                next.drop_last() == prev,
                vals == values_of(rec@),
                rec@.len() == d,
                rows_shaped(prev, d as int),
                rows_in_range(prev),
                rows_shaped(next, d as int),
                rows_in_range(next),
                self.sums@.len() == d,
                self.products@.len() == d,
                forall|k: int| 0 <= k < d ==> #[trigger] self.products@[k]@.len() == d,
                forall|k: int| 0 <= k < d ==> #[trigger] self.sums@[k] == (if k < i {
                    col_sum(next, k)
                } else {
                    col_sum(prev, k)
                }),
                forall|k: int, j: int|
                    0 <= k < d && 0 <= j < d ==> #[trigger] self.products@[k]@[j] == (if k < i {
                        prod_sum(next, k, j)
                    } else {
                        prod_sum(prev, k, j)
                    }),
            decreases d - i,
        {
            let x = rec[i];
            proof {
                lemma_sum_bounds(prev, d as int, i as int, i as int);
                assert(prev.len() * value_bound() <= MAX_RECORDS * value_bound()) by (nonlinear_arith)
                    requires prev.len() <= MAX_RECORDS;
            }
            let s = self.sums[i];
            self.sums.set(i, s + x as i128);
            let mut row: Vec<i128> = Vec::new();
            std::mem::swap(&mut row, &mut self.products[i]);
            let mut j: usize = 0;
            while j < d
                invariant
                    0 <= i < d,
                    0 <= j <= d,
                    d == self.dim,
                    self.rows@ == prev,
                    self.count as int == prev.len(),
                    self.count < MAX_RECORDS,
                    next == prev.push(vals),
                    next.drop_last() == prev,
                    vals == values_of(rec@),
                    x == rec@[i as int],
                    rec@.len() == d,
                    rows_shaped(prev, d as int),
                    rows_in_range(prev),
                    rows_in_range(next),
                    row@.len() == d,
                    forall|k: int| 0 <= k < d ==> #[trigger] row@[k] == (if k < j {
                        prod_sum(next, i as int, k)
                    } else {
                        prod_sum(prev, i as int, k)
                    }),
                decreases d - j,
            {
                let y = rec[j];
                proof {
                    lemma_sum_bounds(prev, d as int, i as int, j as int);
                    let vb2 = value_bound() * value_bound();
                    assert(vb2 == 0x4000_0000_0000_0000);
                    assert(prev.len() * vb2 <= MAX_RECORDS * vb2) by (nonlinear_arith)
                        requires prev.len() <= MAX_RECORDS, vb2 >= 0;
                    lemma_mul_abs_bound(x as int, y as int, value_bound(), value_bound());
                    assert(next.last() == vals);
                }
                let p = row[j];
                let xy = (x as i128) * (y as i128);
                row.set(j, p + xy);
                j = j + 1;
            }
            std::mem::swap(&mut row, &mut self.products[i]);
            i = i + 1;
        }
        self.rows = Ghost(next);
        self.count = self.count + 1;
        Ok(())
    }

    /// Reads one line as a record of `dimension()` values and adds it.
    /// On any error nothing changes.
    pub fn add_line(&mut self, line: &[u8]) -> (r: Result<(), CovError>)
        requires
            old(self).wf(),
            line@.len() < usize::MAX,
        ensures
            final(self).wf(),
            final(self).dimension() == old(self).dimension(),
            r == (match record_of(line@, old(self).dimension()) {
                Err(e) => Err(e),
                Ok(_) => if old(self).records().len() >= MAX_RECORDS {
                    Err(CovError::TooManyRecords)
                } else {
                    Ok(())
                },
            }),
            final(self).records() == (match record_of(line@, old(self).dimension()) {
                Ok(vals) => if r is Ok {
                    old(self).records().push(vals)
                } else {
                    old(self).records()
                },
                Err(_) => old(self).records(),
            }),
    {
        match parse_record(line, self.dim) {
            Err(e) => Err(e),
            Ok(rec) => {
                proof {
                    let f = crate::record::fields(line@);
                    assert(values_of(rec@).len() == rec@.len());
                    assert(f.map_values(|t: Seq<u8>| crate::record::token_value(t)->0).len()
                        == f.len());
                }
                self.add_record(&rec)
            },
        }
    }

    /// Takes in the records of `other`, as if they had been added here after
    /// the records so far; this is how partial accumulators over parts of the
    /// input are reduced to one. Accumulators of different dimensions give
    /// `ShapeMismatch`, and more than `MAX_RECORDS` records together give
    /// `TooManyRecords`; then nothing changes.
    pub fn merge(&mut self, other: &Moments) -> (r: Result<(), CovError>)
        requires
            old(self).wf(),
            other.wf(),
        ensures
            final(self).wf(),
            final(self).dimension() == old(self).dimension(),
            r == (if other.dimension() != old(self).dimension() {
                Err(CovError::ShapeMismatch)
            } else if old(self).records().len() + other.records().len() > MAX_RECORDS {
                Err(CovError::TooManyRecords)
            } else {
                Ok(())
            }),
            final(self).records() == (if r is Ok {
                old(self).records() + other.records()
            } else {
                old(self).records()
            }),
    {
        if other.dim != self.dim {
            return Err(CovError::ShapeMismatch);
        }
        if other.count > MAX_RECORDS - self.count {
            return Err(CovError::TooManyRecords);
        }
        let ghost a = self.rows@;
        let ghost b = other.rows@;
        let ghost both = a + b;
        let d = self.dim;
        assert(rows_shaped(both, d as int)) by {
            assert forall|r: int| 0 <= r < both.len() implies #[trigger] both[r].len() == d by {
                if r < a.len() {
                    assert(both[r] == a[r]);
                } else {
                    assert(both[r] == b[r - a.len()]);
                }
            }
        }
        assert(rows_in_range(both)) by {
            assert forall|r: int, i: int| 0 <= r < both.len() && 0 <= i < both[r].len()
                implies -value_bound() <= #[trigger] both[r][i] <= value_bound() by {
                if r < a.len() {
                    assert(both[r] == a[r]);
                } else {
                    assert(both[r] == b[r - a.len()]);
                }
            }
        }
        let mut i: usize = 0;
        while i < d
            invariant
                0 <= i <= d,
                d == self.dim,
                d == other.dim,
                other.wf(),
                other.rows@ == b,
                self.rows@ == a,
                self.count as int == a.len(),
                both == a + b,
                both.len() <= MAX_RECORDS,
                rows_shaped(a, d as int),
                rows_shaped(both, d as int),
                rows_in_range(both),
                self.sums@.len() == d,
                self.products@.len() == d,
                forall|k: int| 0 <= k < d ==> #[trigger] self.products@[k]@.len() == d,
                forall|k: int| 0 <= k < d ==> #[trigger] self.sums@[k] == (if k < i {
                    col_sum(both, k)
                } else {
                    col_sum(a, k)
                }),
                forall|k: int, j: int|
                    0 <= k < d && 0 <= j < d ==> #[trigger] self.products@[k]@[j] == (if k < i {
                        prod_sum(both, k, j)
                    } else {
                        prod_sum(a, k, j)
                    }),
            decreases d - i,
        {
            proof {
                law_sums_concat(a, b, i as int, i as int);
                lemma_sum_bounds(both, d as int, i as int, i as int);
                assert(both.len() * value_bound() <= MAX_RECORDS * value_bound()) by (nonlinear_arith)
                    requires both.len() <= MAX_RECORDS;
            }
            let s = self.sums[i];
            self.sums.set(i, s + other.sums[i]);
            let mut row: Vec<i128> = Vec::new();
            std::mem::swap(&mut row, &mut self.products[i]);
            let mut j: usize = 0;
            while j < d
                invariant
                    0 <= i < d,
                    0 <= j <= d,
                    d == self.dim,
                    d == other.dim,
                    other.wf(),
                    other.rows@ == b,
                    self.rows@ == a,
                    self.count as int == a.len(),
                    both == a + b,
                    both.len() <= MAX_RECORDS,
                    rows_shaped(both, d as int),
                    rows_in_range(both),
                    row@.len() == d,
                    forall|k: int| 0 <= k < d ==> #[trigger] row@[k] == (if k < j {
                        prod_sum(both, i as int, k)
                    } else {
                        prod_sum(a, i as int, k)
                    }),
                decreases d - j,
            {
                proof {
                    law_sums_concat(a, b, i as int, j as int);
                    lemma_sum_bounds(both, d as int, i as int, j as int);
                    let vb2 = value_bound() * value_bound();
                    assert(vb2 == 0x4000_0000_0000_0000);
                    assert(both.len() * vb2 <= MAX_RECORDS * vb2) by (nonlinear_arith)
                        requires both.len() <= MAX_RECORDS, vb2 >= 0;
                }
                let p = row[j];
                row.set(j, p + other.products[i][j]);
                j = j + 1;
            }
            std::mem::swap(&mut row, &mut self.products[i]);
            i = i + 1;
        }
        self.rows = Ghost(both);
        self.count = self.count + other.count;
        Ok(())
    }

    /// The exact population covariance matrix of the records so far:
    /// `denom == n * n` and `numer[i][j] == cov_numer(records, i, j)`.
    /// With no record it fails with `EmptyInput`, and divides by nothing.
    pub fn covariance(&self) -> (r: Result<CovMatrix, CovError>)
        requires
            self.wf(),
        ensures
            if self.records().len() == 0 {
                r == Err::<CovMatrix, CovError>(CovError::EmptyInput)
            } else {
                r is Ok && r->Ok_0.holds(self.records(), self.dimension())
            },
    {
        if self.count == 0 {
            return Err(CovError::EmptyInput);
        }
        let ghost rows = self.rows@;
        let d = self.dim;
        let n = self.count as i128;
        let mut numer: Vec<Vec<i128>> = Vec::new();
        let mut i: usize = 0;
        while i < d
            invariant
                0 <= i <= d,
                self.wf(),
                d == self.dim,
                rows == self.rows@,
                n == rows.len(),
                numer@.len() == i,
                forall|k: int| 0 <= k < i ==> #[trigger] numer@[k]@.len() == d,
                forall|k: int, j: int|
                    0 <= k < i && 0 <= j < d ==> #[trigger] numer@[k]@[j] == cov_numer(rows, k, j),
            decreases d - i,
        {
            let mut row: Vec<i128> = Vec::new();
            let mut j: usize = 0;
            while j < d
                invariant
                    0 <= i < d,
                    0 <= j <= d,
                    self.wf(),
                    d == self.dim,
                    rows == self.rows@,
                    n == rows.len(),
                    row@.len() == j,
                    forall|k: int| 0 <= k < j ==> #[trigger] row@[k] == cov_numer(rows, i as int, k),
                decreases d - j,
            {
                proof {
                    lemma_sum_bounds(rows, d as int, i as int, j as int);
                    lemma_sum_bounds(rows, d as int, j as int, i as int);
                    lemma_covariance_fits(rows.len() as int, prod_sum(rows, i as int, j as int),
                        col_sum(rows, i as int), col_sum(rows, j as int));
                }
                let c = n * self.products[i][j] - self.sums[i] * self.sums[j];
                row.push(c);
                j = j + 1;
            }
            numer.push(row);
            i = i + 1;
        }
        proof {
            assert(n * n <= 0x4000_0000_0000_0000) by (nonlinear_arith)
                requires 0 <= n <= MAX_RECORDS;
        }
        Ok(CovMatrix { numer, denom: n * n })
    }

    /// The number of values in every record.
    pub fn dim(&self) -> (r: usize)
        ensures
            r == self.dimension(),
    {
        self.dim
    }

    /// The number of records accumulated so far.
    pub fn count(&self) -> (r: u64)
        requires
            self.wf(),
        ensures
            r == self.records().len(),
    {
        self.count
    }
}

} // verus!
