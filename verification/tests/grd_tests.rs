use fdm::grd::{
    from_ascii_file, from_binary_file, from_grd_bytes, process_error, process_split,
    process_split_i32, GrdContent, GrdError,
};
use fdm::grid::{TextGrid, ValueGrid};
use fdm::util::{ByteReader, LineError};

fn value_rows(g: &ValueGrid, rows: i32, cols: i32) -> Vec<Vec<u64>> {
    (0..rows as usize).map(|i| (0..cols as usize).map(|j| g.get(i, j)).collect()).collect()
}

fn text_rows(g: &TextGrid, rows: i32, cols: i32) -> Vec<Vec<String>> {
    (0..rows as usize).map(|i| (0..cols as usize).map(|j| g.get(i, j).clone()).collect()).collect()
}

fn binary_file(mark: &[u8; 4], rows: i32, cols: i32, values: &[f64]) -> Vec<u8> {
    let mut b = mark.to_vec();
    b.resize(20, 0);
    b.extend_from_slice(&rows.to_le_bytes());
    b.extend_from_slice(&cols.to_le_bytes());
    for h in [10.0f64, 20.0, 5.0, 2.5, -1.0, 3.0] {
        b.extend_from_slice(&h.to_le_bytes());
    }
    b.resize(100, 0);
    for v in values {
        b.extend_from_slice(&v.to_le_bytes());
    }
    b
}

fn bits(v: &[f64]) -> Vec<u64> {
    v.iter().map(|x| x.to_bits()).collect()
}

#[test]
fn binary_grid_rows_are_stored_bottom_row_first() {
    let b = binary_file(b"DSBB", 2, 3, &[1.0, 2.0, 3.0, 4.0, 5.0, 6.0]);
    match from_grd_bytes(b) {
        Ok(GrdContent::Binary(g)) => {
            assert_eq!(g.mark, "DSBB");
            assert_eq!((g.rows, g.cols), (2, 3));
            assert_eq!(g.xll, 10.0f64.to_bits());
            assert_eq!(g.yll, 20.0f64.to_bits());
            assert_eq!(g.x_size, 5.0f64.to_bits());
            assert_eq!(g.y_size, 2.5f64.to_bits());
            assert_eq!(g.z_min, (-1.0f64).to_bits());
            assert_eq!(g.z_max, 3.0f64.to_bits());
            assert_eq!(
                value_rows(&g.data, g.rows, g.cols),
                vec![bits(&[4.0, 5.0, 6.0]), bits(&[1.0, 2.0, 3.0])]
            );
        }
        _ => panic!("expected a binary grid"),
    }
}

#[test]
fn binary_grid_errors() {
    assert_eq!(from_grd_bytes(vec![1, 2, 3]).err(), Some(GrdError::TooShort));
    let mut short = binary_file(b"DSBB", 1, 1, &[]);
    short.truncate(75);
    assert_eq!(from_grd_bytes(short).err(), Some(GrdError::TooShort));
    let neg = binary_file(b"DSBB", -1, 0, &[]);
    assert_eq!(from_grd_bytes(neg).err(), Some(GrdError::BadShape));
    let missing = binary_file(b"DSBB", 2, 2, &[1.0, 2.0, 3.0]);
    assert_eq!(from_grd_bytes(missing).err(), Some(GrdError::TooShort));
}

#[test]
fn empty_binary_grid_needs_only_the_header() {
    let mut b = binary_file(b"DSBB", 0, 5, &[]);
    b.truncate(76);
    match from_binary_file(ByteReader::new(b), "DSBB".to_string()) {
        Ok(g) => {
            assert_eq!((g.rows, g.cols), (0, 5));
            assert!(value_rows(&g.data, g.rows, g.cols).is_empty());
        }
        Err(e) => panic!("unexpected {:?}", e),
    }
}

#[test]
fn ascii_grid_is_read_row_after_row_from_the_last_line() {
    let text = "DSAA\r\n3 2\r\n0.0 10.0\r\n0.0 5.0\r\n1 6\r\n1 2 3\r\n4 5 6\r\n";
    match from_grd_bytes(text.as_bytes().to_vec()) {
        Ok(GrdContent::Ascii(g)) => {
            assert_eq!(g.mark, "DSAA");
            assert_eq!((g.cols, g.rows), (3, 2));
            assert_eq!((g.xll.as_str(), g.xend.as_str()), ("0.0", "10.0"));
            assert_eq!((g.yll.as_str(), g.yend.as_str()), ("0.0", "5.0"));
            assert_eq!((g.z_min.as_str(), g.z_max.as_str()), ("1", "6"));
            assert_eq!(text_rows(&g.data, g.rows, g.cols), vec![vec!["4", "5", "6"], vec!["1", "2", "3"]]);
        }
        _ => panic!("expected an ASCII grid"),
    }
}

#[test]
fn ascii_grid_errors() {
    let cases: Vec<(&[u8], GrdError)> = vec![
        (b"DSAA\n3 2\n0 1\n0 1\n", GrdError::MissingLine),
        (b"DSAA\n3\n0 1\n0 1\n0 1\n", GrdError::MissingField),
        (b"DSAA\nx 2\n0 1\n0 1\n0 1\n", GrdError::BadInteger),
        (b"DSAA\n3 2\n0 1\n0\n0 1\n", GrdError::MissingField),
        (b"DSAA\n2 1\n0 1\n0 1\n0 1\n1 2 3\n", GrdError::BadShape),
        (b"DSAA\n-2 0\n0 1\n0 1\n0 1\n", GrdError::BadShape),
        (b"DSAA\n1 1\n0 1\n0 1\n0 1\n\xff\n", GrdError::InvalidUtf8),
        (b"DSAA\n1 1\nx 1\n0 1\n0 1\n1\n", GrdError::BadReal),
        (b"DSAA\n1 1\n0 1\n0 1\n0 1.5.2\n1\n", GrdError::BadReal),
        (b"DSAA\n2 1\n0 1\n0 1\n0 1\n1 abc\n", GrdError::BadReal),
        (b"DSAA\n2 1\n0 1\n0 1\n0 1\n1 2 abc\n", GrdError::BadReal),
        (b"DSAA\xff\n1 1\n0 1\n0 1\n0 1\n1\n", GrdError::InvalidUtf8),
    ];
    for (bytes, e) in cases {
        assert_eq!(from_grd_bytes(bytes.to_vec()).err(), Some(e));
    }
}

#[test]
fn ascii_reader_starts_after_the_mark() {
    let mut r = ByteReader::new(b"DSAA tail\n2 1\n0 1\n0 1\n0 1\n7\n8\n".to_vec());
    r.seek_to(4);
    match from_ascii_file(r, "DSAA".to_string()) {
        Ok(g) => {
            assert_eq!(g.mark, "DSAA");
            assert_eq!((g.cols, g.rows), (2, 1));
            assert_eq!(text_rows(&g.data, g.rows, g.cols), vec![vec!["8", "7"]]);
        }
        Err(e) => panic!("unexpected {:?}", e),
    }
}

#[test]
fn process_error_unwraps_a_line() {
    assert_eq!(process_error(None), Err(GrdError::MissingLine));
    assert_eq!(process_error(Some(Err(LineError::InvalidUtf8))), Err(GrdError::InvalidUtf8));
    assert_eq!(process_error(Some(Ok("x".to_string()))), Ok("x".to_string()));
}

#[test]
fn process_split_takes_the_first_two_values() {
    assert_eq!(
        process_split("  159.5 \t -1e3  extra "),
        Ok(("159.5".to_string(), "-1e3".to_string()))
    );
    assert_eq!(process_split("one"), Err(GrdError::MissingField));
    assert_eq!(process_split("1 two"), Err(GrdError::BadReal));
    assert_eq!(process_split_i32(" 159  -160 x"), Ok((159, -160)));
    assert_eq!(process_split_i32("1.5 2"), Err(GrdError::BadInteger));
    assert_eq!(process_split_i32("1"), Err(GrdError::MissingField));
}

#[test]
fn ascii_grid_top_line_becomes_row_zero() {
    let text = "DSAA\n2 2\n0 1\n0 1\n1 4\n1 2\n3 4\n";
    match from_grd_bytes(text.as_bytes().to_vec()) {
        Ok(GrdContent::Ascii(g)) => {
            assert_eq!(g.mark, "DSAA");
            assert_eq!(text_rows(&g.data, g.rows, g.cols), vec![vec!["3", "4"], vec!["1", "2"]]);
        }
        _ => panic!("expected an ASCII grid"),
    }
}

#[test]
fn binary_two_by_two() {
    let b = binary_file(b"DSBB", 2, 2, &[1.0, 2.0, 3.0, 4.0]);
    match from_grd_bytes(b) {
        Ok(GrdContent::Binary(g)) => {
            assert_eq!(value_rows(&g.data, 2, 2), vec![bits(&[3.0, 4.0]), bits(&[1.0, 2.0])]);
        }
        _ => panic!("expected a binary grid"),
    }
}
