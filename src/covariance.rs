//! A covariance matrix from the lines of a headered, comma-separated file.
use vstd::prelude::*;
use crate::CovError;
use crate::moments::{CovMatrix, Moments, MAX_RECORDS};
use crate::record::{fields, field_count, record_of};

verus! {

/// The records that the data lines yield for dimension `d`, or the first
/// error met, reading the lines in order.
pub open spec fn records_of(lines: Seq<Seq<u8>>, d: nat) -> Result<Seq<Seq<int>>, CovError>
    decreases lines.len(),
{
    if lines.len() == 0 {
        Ok(Seq::empty())
    } else {
        match records_of(lines.drop_last(), d) {
            Err(e) => Err(e),
            Ok(rows) => match record_of(lines.last(), d) {
                Err(e) => Err(e),
                Ok(vals) => if rows.len() >= MAX_RECORDS {
                    Err(CovError::TooManyRecords)
                } else {
                    Ok(rows.push(vals))
                },
            },
        }
    }
}

/// Once a prefix of the lines fails, the whole fails the same way.
proof fn lemma_error_persists(lines: Seq<Seq<u8>>, d: nat, i: int)
    requires
        0 <= i <= lines.len(),
        records_of(lines.subrange(0, i), d) is Err,
    ensures
        records_of(lines, d) == records_of(lines.subrange(0, i), d),
    decreases lines.len(),
{
    if i == lines.len() {
        assert(lines.subrange(0, i) =~= lines);
    } else {
        assert(lines.drop_last().subrange(0, i) =~= lines.subrange(0, i));
        lemma_error_persists(lines.drop_last(), d, i);
    }
}

/// A file of a header line and no data line has no record, so
/// `get_cov_matrix_from_lines` fails on it with `EmptyInput`.
pub proof fn law_header_only_is_empty(lines: Seq<Seq<u8>>)
    requires
        lines.len() == 1,
    ensures
        records_of(data_lines(lines), header_dim(lines)) == Ok::<Seq<Seq<int>>, CovError>(
            Seq::empty(),
        ),
{
    assert(data_lines(lines).len() == 0);
}

/// A data line with more fields than the header, after data lines that are
/// all well-formed records, makes the whole file fail with `ShapeMismatch`.
pub proof fn law_long_record_mismatch(lines: Seq<Seq<u8>>, k: int)
    requires
        0 <= k < data_lines(lines).len(),
        fields(data_lines(lines)[k]).len() > header_dim(lines),
        records_of(data_lines(lines).subrange(0, k), header_dim(lines)) is Ok,
    ensures
        records_of(data_lines(lines), header_dim(lines)) == Err::<Seq<Seq<int>>, CovError>(
            CovError::ShapeMismatch,
        ),
{
    let data = data_lines(lines);
    let d = header_dim(lines);
    let pre = data.subrange(0, k + 1);
    assert(pre.drop_last() =~= data.subrange(0, k));
    assert(pre.last() == data[k]);
    assert(record_of(data[k], d) == Err::<Seq<int>, CovError>(CovError::ShapeMismatch));
    lemma_error_persists(data, d, k + 1);
}

/// The dimension that a file's lines fix: the field count of the first line,
/// or of an empty line when there is none.
pub open spec fn header_dim(lines: Seq<Seq<u8>>) -> nat {
    if lines.len() == 0 {
        1
    } else {
        fields(lines[0]).len()
    }
}

/// The data lines: all but the first.
pub open spec fn data_lines(lines: Seq<Seq<u8>>) -> Seq<Seq<u8>> {
    if lines.len() == 0 {
        lines
    } else {
        lines.drop_first()
    }
}

/// The population covariance matrix of a file given as its lines. The first
/// line only fixes the dimension; every other line is a record. The result is
/// the first error of `records_of`, else `EmptyInput` when there is no
/// record, else the exact matrix of the records.
pub fn get_cov_matrix_from_lines(lines: &Vec<Vec<u8>>) -> (r: Result<CovMatrix, CovError>)
    requires
        forall|k: int| 0 <= k < lines@.len() ==> #[trigger] lines@[k]@.len() < usize::MAX,
    ensures
        ({
            let ls = lines@.map_values(|l: Vec<u8>| l@);
            let d = header_dim(ls);
            match records_of(data_lines(ls), d) {
                Err(e) => r == Err::<CovMatrix, CovError>(e),
                Ok(rows) => if rows.len() == 0 {
                    r == Err::<CovMatrix, CovError>(CovError::EmptyInput)
                } else {
                    r is Ok && r->Ok_0.holds(rows, d)
                },
            }
        }),
{
    let ghost ls = lines@.map_values(|l: Vec<u8>| l@);
    let d: usize = if lines.len() == 0 {
        1
    } else {
        field_count(lines[0].as_slice())
    };
    let mut m = Moments::new(d);
    let mut i: usize = 1;
    proof {
        if lines@.len() == 0 {
            assert(data_lines(ls).len() == 0);
        } else {
            assert(data_lines(ls).subrange(0, 0) =~= Seq::<Seq<u8>>::empty());
        }
    }
    while i < lines.len()
        invariant
            1 <= i,
            i <= lines@.len() || lines@.len() == 0,
            ls == lines@.map_values(|l: Vec<u8>| l@),
            d == header_dim(ls),
            m.wf(),
            m.dimension() == d,
            forall|k: int| 0 <= k < lines@.len() ==> #[trigger] lines@[k]@.len() < usize::MAX,
            lines@.len() == 0 ==> m.records() == Seq::<Seq<int>>::empty(),
            lines@.len() > 0 ==> records_of(data_lines(ls).subrange(0, i - 1), d as nat) == Ok::<
                Seq<Seq<int>>,
                CovError,
            >(m.records()),
        decreases lines@.len() - i,
    {
        let ghost pre = data_lines(ls).subrange(0, i - 1);
        let ghost next = data_lines(ls).subrange(0, i as int);
        proof {
            assert(next.drop_last() =~= pre);
            assert(next.last() == lines@[i as int]@);
        }
        if let Err(e) = m.add_line(lines[i].as_slice()) {
            proof {
                lemma_error_persists(data_lines(ls), d as nat, i as int);
            }
            return Err(e);
        }
        i = i + 1;
    }
    proof {
        if lines@.len() > 0 {
            assert(data_lines(ls).subrange(0, i - 1) =~= data_lines(ls));
        }
    }
    m.covariance()
}

} // verus!
