use xsv_fill::coalesce::{coalesce_record, named_header};
use xsv_fill::selection::{normalize_selection, resolve_selection, resolve_selector, split_selection, SelectionError};

fn row(r: &[&str]) -> Vec<Vec<u8>> {
    r.iter().map(|f| f.as_bytes().to_vec()).collect()
}

fn simple_rows() -> Vec<Vec<Vec<u8>>> {
    vec![
        row(&["h1", "h2", "h3"]),
        row(&["", "b", "c"]),
        row(&["a", "b", "c"]),
        row(&["", "d", ""]),
        row(&["f", "g", ""]),
        row(&["", "i", "j"]),
    ]
}

fn compare_column(got: &[Vec<Vec<u8>>], expected: &[&str], col: usize) {
    assert_eq!(got.len(), expected.len());
    for (value, value_expected) in got.iter().zip(expected.iter()) {
        assert_eq!(value[col], value_expected.as_bytes().to_vec());
    }
}

#[test]
fn coalesce() {
    let rows = simple_rows();
    let select = vec![0, 2];
    let got: Vec<Vec<Vec<u8>>> = rows.iter().map(|r| coalesce_record(r, &select)).collect();
    compare_column(&got[1..], &["c", "a", "", "f", "j"], 3);
    assert_eq!(got[0], row(&["h1", "h2", "h3", "h1"]));
}

#[test]
fn coalesce_with_name() {
    let rows = simple_rows();
    let select = vec![0, 2];
    let mut got = vec![named_header(&rows[0], &b"h4".to_vec())];
    got.extend(rows[1..].iter().map(|r| coalesce_record(r, &select)));
    compare_column(&got[1..], &["c", "a", "", "f", "j"], 3);
    assert_eq!(got[0][3], b"h4".to_vec());
}

#[test]
fn coalesce_with_empty_selection_appends_empty() {
    assert_eq!(coalesce_record(&row(&["a", "b"]), &vec![]), row(&["a", "b", ""]));
}

#[test]
fn selection_by_number_and_name() {
    let headers = row(&["h1", "h2", "h3"]);
    assert_eq!(resolve_selection(&b"1,3".to_vec(), &headers, true), Ok(vec![0, 2]));
    assert_eq!(resolve_selection(&b"h3,1".to_vec(), &headers, true), Ok(vec![2, 0]));
    assert_eq!(resolve_selection(&b"4".to_vec(), &headers, true), Err(SelectionError::UnknownColumn));
    assert_eq!(resolve_selection(&b"h2".to_vec(), &headers, false), Err(SelectionError::UnknownColumn));
    assert_eq!(resolve_selection(&b"0".to_vec(), &headers, false), Err(SelectionError::UnknownColumn));
    assert_eq!(resolve_selection(&b"2".to_vec(), &headers, false), Ok(vec![1]));
    assert_eq!(resolve_selection(&b"".to_vec(), &headers, true), Err(SelectionError::UnknownColumn));
    assert_eq!(resolve_selection(&b"99999999999999999999999".to_vec(), &headers, false), Err(SelectionError::UnknownColumn));
}

#[test]
fn selection_first_matching_header_wins() {
    let headers = row(&["a", "b", "a"]);
    assert_eq!(resolve_selector(&b"a".to_vec(), &headers, true), Some(0));
    assert_eq!(split_selection(&b"a,,b".to_vec()), vec![b"a".to_vec(), vec![], b"b".to_vec()]);
}

#[test]
fn selection_is_normalized() {
    assert_eq!(normalize_selection(&vec![3, 1, 3, 0, 1]), vec![0, 1, 3]);
    assert_eq!(normalize_selection(&vec![]), Vec::<usize>::new());
}
