use cov_matrix::covariance::get_cov_matrix_from_lines;
use cov_matrix::moments::{CovMatrix, Moments};
use cov_matrix::record::{field_count, parse_record, parse_token};
use cov_matrix::text::format_record;
use cov_matrix::CovError;

fn lines(text: &[&str]) -> Vec<Vec<u8>> {
    text.iter().map(|l| l.as_bytes().to_vec()).collect()
}

/// Entry (i, j) equals the fraction p / q.
fn entry_is(m: &CovMatrix, i: usize, j: usize, p: i128, q: i128) -> bool {
    m.numer[i][j] * q == p * m.denom
}

fn assert_matrix(m: &CovMatrix, expected: &[&[(i128, i128)]]) {
    assert_eq!(m.numer.len(), expected.len());
    for (i, row) in expected.iter().enumerate() {
        assert_eq!(m.numer[i].len(), row.len());
        for (j, &(p, q)) in row.iter().enumerate() {
            assert!(entry_is(m, i, j, p, q), "entry ({}, {}) is {}/{}, not {}/{}", i, j, m.numer[i][j], m.denom, p, q);
        }
    }
}

fn fixture_two() -> Vec<Vec<u8>> {
    lines(&[
        "x,y,z",
        "136,136,124",
        "88,100,52",
        "112,100,124",
        "64,88,76",
        "124,124,88",
        "100,88,112",
        "100,88,88",
        "76,76,136",
    ])
}

#[test]
fn test_get_cov_matrix_from_csv() {
    let m = get_cov_matrix_from_lines(&lines(&["a,b", "1,1", "3,3", "5,2"])).unwrap();
    assert_matrix(&m, &[&[(8, 3), (2, 3)], &[(2, 3), (2, 3)]]);

    let m = get_cov_matrix_from_lines(&fixture_two()).unwrap();
    assert_matrix(
        &m,
        &[
            &[(504, 1), (360, 1), (180, 1)],
            &[(360, 1), (360, 1), (0, 1)],
            &[(180, 1), (0, 1), (720, 1)],
        ],
    );
}

#[test]
fn uncorrelated_rows_exact_numerators() {
    let m = get_cov_matrix_from_lines(&lines(&["a,b", "1,2", "3,4", "5,2"])).unwrap();
    assert_eq!(m.denom, 9);
    assert_eq!(m.numer, vec![vec![24, 0], vec![0, 8]]);
    assert_matrix(&m, &[&[(8, 3), (0, 1)], &[(0, 1), (8, 9)]]);
}

#[test]
fn result_is_symmetric() {
    let m = get_cov_matrix_from_lines(&lines(&["a,b,c", "1,-7,3", "4,2,9", "-5,8,0", "6,6,6"])).unwrap();
    for i in 0..3 {
        for j in 0..3 {
            assert_eq!(m.numer[i][j], m.numer[j][i]);
        }
    }
}

#[test]
fn diagonal_is_nonnegative() {
    let m = get_cov_matrix_from_lines(&lines(&["a,b,c", "1,-7,3", "4,2,9", "-5,8,0", "6,6,6", "2,2,2"])).unwrap();
    for i in 0..3 {
        assert!(m.numer[i][i] >= 0);
    }
    let constant = get_cov_matrix_from_lines(&lines(&["a", "7", "7", "7"])).unwrap();
    assert_eq!(constant.numer, vec![vec![0]]);
}

#[test]
fn single_record_gives_zero_matrix() {
    let m = get_cov_matrix_from_lines(&lines(&["a,b,c", "3,-9,12"])).unwrap();
    assert_eq!(m.denom, 1);
    assert_eq!(m.numer, vec![vec![0, 0, 0], vec![0, 0, 0], vec![0, 0, 0]]);
}

#[test]
fn scaling_a_dimension_scales_its_row_and_column() {
    let base = get_cov_matrix_from_lines(&lines(&["a,b,c", "1,2,3", "4,0,-1", "2,5,7"])).unwrap();
    let scaled = get_cov_matrix_from_lines(&lines(&["a,b,c", "1,-6,3", "4,0,-1", "2,-15,7"])).unwrap();
    assert_eq!(base.denom, scaled.denom);
    for i in 0..3 {
        for j in 0..3 {
            let fi = if i == 1 { -3 } else { 1 };
            let fj = if j == 1 { -3 } else { 1 };
            assert_eq!(scaled.numer[i][j], fi * fj * base.numer[i][j]);
        }
    }
    assert_eq!(scaled.numer[1][1], 9 * base.numer[1][1]);
}

#[test]
fn header_only_is_empty_input() {
    assert_eq!(get_cov_matrix_from_lines(&lines(&["a,b"])).err(), Some(CovError::EmptyInput));
}

#[test]
fn no_lines_is_empty_input() {
    assert_eq!(get_cov_matrix_from_lines(&Vec::new()).err(), Some(CovError::EmptyInput));
}

#[test]
fn long_record_is_shape_mismatch() {
    assert_eq!(
        get_cov_matrix_from_lines(&lines(&["a,b", "1,2", "1,2,3"])).err(),
        Some(CovError::ShapeMismatch)
    );
}

#[test]
fn short_record_is_shape_mismatch() {
    assert_eq!(
        get_cov_matrix_from_lines(&lines(&["a,b,c", "1,2,3", "1,2"])).err(),
        Some(CovError::ShapeMismatch)
    );
}

#[test]
fn first_error_wins() {
    assert_eq!(
        get_cov_matrix_from_lines(&lines(&["a,b", "1,x", "1,2,3"])).err(),
        Some(CovError::MalformedInput)
    );
    assert_eq!(
        get_cov_matrix_from_lines(&lines(&["a,b", "1,2,3", "1,x"])).err(),
        Some(CovError::ShapeMismatch)
    );
}

#[test]
fn malformed_token_is_malformed_input() {
    for bad in ["1,abc", "1,1.5", "1,", "1,-", "1,+", "1,2 3", "1,99999999999"] {
        assert_eq!(
            get_cov_matrix_from_lines(&lines(&["a,b", bad])).err(),
            Some(CovError::MalformedInput),
            "line {:?}",
            bad
        );
    }
}

#[test]
fn whitespace_and_signs_are_accepted() {
    let m = get_cov_matrix_from_lines(&lines(&["a , b", " +1 ,\t2\r", "-1, -2 "])).unwrap();
    assert_eq!(m.denom, 4);
    assert_eq!(m.numer, vec![vec![4, 8], vec![8, 16]]);
}

#[test]
fn field_count_counts_commas() {
    assert_eq!(field_count(b""), 1);
    assert_eq!(field_count(b"abc"), 1);
    assert_eq!(field_count(b"a,b,c"), 3);
    assert_eq!(field_count(b",,"), 3);
}

#[test]
fn parse_token_reads_integers() {
    let t = b"  -42 ";
    assert_eq!(parse_token(t, 0, t.len()), Some(-42));
    assert_eq!(parse_token(b"+17", 0, 3), Some(17));
    assert_eq!(parse_token(b"x12y", 1, 3), Some(12));
    assert_eq!(parse_token(b"2147483647", 0, 10), Some(i32::MAX));
    assert_eq!(parse_token(b"-2147483648", 0, 11), Some(i32::MIN));
    assert_eq!(parse_token(b"2147483648", 0, 10), None);
    assert_eq!(parse_token(b"-2147483649", 0, 11), None);
    assert_eq!(parse_token(b"   ", 0, 3), None);
    assert_eq!(parse_token(b"1e3", 0, 3), None);
}

#[test]
fn parse_record_checks_shape_then_tokens() {
    assert_eq!(parse_record(b"1, 2,3", 3), Ok(vec![1, 2, 3]));
    assert_eq!(parse_record(b"1,2", 3), Err(CovError::ShapeMismatch));
    assert_eq!(parse_record(b"1,2,x,4", 3), Err(CovError::ShapeMismatch));
    assert_eq!(parse_record(b"1,x,3", 3), Err(CovError::MalformedInput));
}

#[test]
fn moments_accumulate_records() {
    let mut m = Moments::new(2);
    assert_eq!(m.dim(), 2);
    assert_eq!(m.count(), 0);
    assert_eq!(m.covariance().err(), Some(CovError::EmptyInput));
    assert_eq!(m.add_record(&vec![1, 2]), Ok(()));
    assert_eq!(m.add_record(&vec![1, 2, 3]), Err(CovError::ShapeMismatch));
    assert_eq!(m.add_line(b"3,4"), Ok(()));
    assert_eq!(m.add_line(b"3,q"), Err(CovError::MalformedInput));
    assert_eq!(m.add_line(b"5, 2"), Ok(()));
    assert_eq!(m.count(), 3);
    let c = m.covariance().unwrap();
    assert_eq!(c.denom, 9);
    assert_eq!(c.numer, vec![vec![24, 0], vec![0, 8]]);
}

#[test]
fn extreme_values_stay_exact() {
    let m = get_cov_matrix_from_lines(&lines(&["a,b", "2147483647,-2147483648", "-2147483648,2147483647"])).unwrap();
    let d: i128 = 2147483647 + 2147483648;
    assert_eq!(m.denom, 4);
    assert_eq!(m.numer, vec![vec![d * d, -d * d], vec![-d * d, d * d]]);
}

#[test]
fn format_record_writes_decimal_fields() {
    assert_eq!(format_record(&vec![40, -27, 0, 1000]), b"40,-27,0,1000".to_vec());
    assert_eq!(format_record(&vec![7]), b"7".to_vec());
    assert_eq!(format_record(&vec![]), b"".to_vec());
    assert_eq!(format_record(&vec![i32::MIN, i32::MAX]), b"-2147483648,2147483647".to_vec());
}

#[test]
fn written_record_reads_back() {
    let rows = vec![vec![9, 40, 27], vec![40, 1000, 164], vec![27, 164, 88], vec![i32::MIN, -1, i32::MAX]];
    for row in rows {
        let text = format_record(&row);
        assert_eq!(parse_record(&text, row.len()), Ok(row));
    }
}

#[test]
fn merged_parts_equal_one_pass() {
    let data = fixture_two();
    let whole = get_cov_matrix_from_lines(&data).unwrap();
    let mut left = Moments::new(3);
    let mut right = Moments::new(3);
    for (k, line) in data.iter().enumerate().skip(1) {
        let part = if k % 2 == 0 { &mut left } else { &mut right };
        assert_eq!(part.add_line(line), Ok(()));
    }
    assert_eq!(left.merge(&right), Ok(()));
    assert_eq!(left.count(), 8);
    let merged = left.covariance().unwrap();
    assert_eq!(merged.denom, whole.denom);
    assert_eq!(merged.numer, whole.numer);
}

#[test]
fn merge_of_other_dimension_is_shape_mismatch() {
    let mut a = Moments::new(2);
    let mut b = Moments::new(3);
    assert_eq!(b.add_record(&vec![1, 2, 3]), Ok(()));
    assert_eq!(a.merge(&b), Err(CovError::ShapeMismatch));
    assert_eq!(a.count(), 0);
    let empty = Moments::new(2);
    assert_eq!(a.merge(&empty), Ok(()));
    assert_eq!(a.covariance().err(), Some(CovError::EmptyInput));
}
