use xsv_fill::filler::{FillError, Filler};

fn rows(data: &[&[&str]]) -> Vec<Vec<Vec<u8>>> {
    data.iter()
        .map(|r| r.iter().map(|f| f.as_bytes().to_vec()).collect())
        .collect()
}

fn column(got: &[Vec<Vec<u8>>], column: usize) -> Vec<String> {
    got.iter()
        .map(|r| String::from_utf8(r[column].clone()).unwrap())
        .collect()
}

fn compare_column(got: &[Vec<Vec<u8>>], expected: &[&str], col: usize) {
    assert_eq!(got.len(), expected.len());
    let values = column(got, col);
    for (value, value_expected) in values.iter().zip(expected.iter()) {
        assert_eq!(value, value_expected);
    }
}

fn run(groupby: Option<Vec<usize>>, first: bool, backfill: bool, data: &[&[&str]]) -> Vec<Vec<Vec<u8>>> {
    Filler::new(groupby, vec![0])
        .use_first_value(first)
        .backfill_empty_values(backfill)
        .fill(&rows(data))
        .unwrap()
}

#[test]
fn fill_forward() {
    let data: &[&[&str]] = &[
        &["", "b", "c"],
        &["a", "b", "c"],
        &["", "d", ""],
        &["f", "g", "h"],
        &["", "i", "j"],
    ];
    let got = run(None, false, false, data);
    compare_column(&got, &["", "a", "a", "f", "f"], 0);
    compare_column(&got, &["c", "c", "", "h", "j"], 2);
}

#[test]
fn fill_forward_groupby() {
    let data: &[&[&str]] = &[
        &["", "b", "e"],
        &["a", "b", "c"],
        &["", "b", "e"],
        &["f", "c", "h"],
        &["", "c", "j"],
        &["", "b", "j"],
        &["", "c", "j"],
    ];
    let got = run(Some(vec![1]), false, false, data);
    compare_column(&got, &["", "a", "a", "f", "f", "a", "f"], 0);
}

fn first_rows() -> Vec<Vec<Vec<u8>>> {
    rows(&[
        &["", "b", "e"],
        &["", "c", "j"],
        &["a", "b", "c"],
        &["", "b", "e"],
        &["f", "c", "h"],
        &["", "c", "j"],
        &["", "b", "j"],
        &["", "c", "j"],
    ])
}

#[test]
fn fill_first_groupby() {
    let got = Filler::new(Some(vec![1]), vec![0])
        .use_first_value(true)
        .backfill_empty_values(true)
        .fill(&first_rows())
        .unwrap();
    compare_column(&got, &["a", "a", "a", "f", "f", "f", "a", "f"], 0);
}

#[test]
fn fill_first() {
    let got = Filler::new(None, vec![0])
        .use_first_value(true)
        .backfill_empty_values(true)
        .fill(&first_rows())
        .unwrap();
    compare_column(&got, &["a", "a", "a", "a", "f", "a", "a", "a"], 0);
}

#[test]
fn first_without_backfill_leaves_leading_empties() {
    let got = Filler::new(None, vec![0]).use_first_value(true).fill(&first_rows()).unwrap();
    compare_column(&got, &["", "", "a", "a", "f", "a", "a", "a"], 0);
}

#[test]
fn forward_fill_without_groups() {
    let data: &[&[&str]] = &[&["a", "b", "c"], &["", "d", "e"], &["f", "g", "h"], &["", "i", "j"]];
    let got = run(None, false, false, data);
    assert_eq!(got, rows(&[&["a", "b", "c"], &["a", "d", "e"], &["f", "g", "h"], &["f", "i", "j"]]));
}

#[test]
fn forward_backfill_fills_leading_rows_with_later_value() {
    let data: &[&[&str]] = &[&["", "x"], &["", "y"], &["p", "z"], &["", "w"], &["q", "v"]];
    let got = run(None, false, true, data);
    assert_eq!(got, rows(&[&["p", "x"], &["p", "y"], &["p", "z"], &["p", "w"], &["q", "v"]]));
}

#[test]
fn backfill_reorders_across_groups() {
    // Group "b" resolves at the third row, group "c" only at the fifth: the
    // second row (group "c") leaves after the rows of group "b".
    let got = Filler::new(Some(vec![1]), vec![0])
        .backfill_empty_values(true)
        .fill(&first_rows())
        .unwrap();
    assert_eq!(
        got,
        rows(&[
            &["a", "b", "e"],
            &["a", "b", "c"],
            &["a", "b", "e"],
            &["f", "c", "j"],
            &["f", "c", "h"],
            &["f", "c", "j"],
            &["a", "b", "j"],
            &["f", "c", "j"],
        ])
    );
}

#[test]
fn unresolved_rows_are_flushed_at_end_in_group_order() {
    let data: &[&[&str]] = &[&["", "g1"], &["", "g2"], &["", "g1"]];
    let got = Filler::new(Some(vec![1]), vec![0])
        .backfill_empty_values(true)
        .fill(&rows(data))
        .unwrap();
    assert_eq!(got, rows(&[&["", "g1"], &["", "g1"], &["", "g2"]]));
}

#[test]
fn several_target_columns_wait_for_all() {
    let data: &[&[&str]] = &[&["", "", "k"], &["1", "", "k"], &["", "2", "k"], &["3", "", "k"]];
    let got = Filler::new(None, vec![0, 1])
        .backfill_empty_values(true)
        .fill(&rows(data))
        .unwrap();
    assert_eq!(
        got,
        rows(&[&["1", "2", "k"], &["1", "2", "k"], &["1", "2", "k"], &["3", "2", "k"]])
    );
}

#[test]
fn empty_input_gives_no_rows() {
    let got = run(None, false, true, &[]);
    assert!(got.is_empty());
}

#[test]
fn ragged_rows_keep_their_width() {
    let data: &[&[&str]] = &[&["a"], &["", "x", "y"], &["", "z"]];
    let got = run(None, false, false, data);
    assert_eq!(got, rows(&[&["a"], &["a", "x", "y"], &["a", "z"]]));
}

#[test]
fn short_record_is_refused() {
    let data: &[&[&str]] = &[&["a", "b"], &["c"]];
    let r = Filler::new(Some(vec![1]), vec![0]).fill(&rows(data));
    assert_eq!(r, Err(FillError::RecordTooShort));
    let r = Filler::new(None, vec![2]).fill(&rows(&[&["a", "b"]]));
    assert_eq!(r, Err(FillError::RecordTooShort));
}

#[test]
fn push_buffers_then_releases() {
    let mut f = Filler::new(None, vec![0]).backfill_empty_values(true);
    assert_eq!(f.push(&rows(&[&["", "1"]])[0]), Ok(vec![]));
    assert_eq!(f.push(&rows(&[&["", "2"]])[0]), Ok(vec![]));
    let out = f.push(&rows(&[&["v", "3"]])[0]).unwrap();
    assert_eq!(out, rows(&[&["v", "1"], &["v", "2"], &["v", "3"]]));
    assert_eq!(f.push(&rows(&[&[]])[0]), Err(FillError::RecordTooShort));
    assert_eq!(f.push(&rows(&[&["", "4"]])[0]), Ok(rows(&[&["v", "4"]])));
    assert!(f.finish().is_empty());
}

#[test]
fn finish_releases_pending_rows() {
    let mut f = Filler::new(None, vec![0]).backfill_empty_values(true);
    assert_eq!(f.push(&rows(&[&["", "1"]])[0]), Ok(vec![]));
    assert_eq!(f.finish(), rows(&[&["", "1"]]));
}

#[test]
fn non_empty_target_is_never_changed() {
    let data: &[&[&str]] = &[&["a", "1"], &["b", "2"], &["", "3"]];
    let got = Filler::new(None, vec![0]).use_first_value(true).fill(&rows(data)).unwrap();
    assert_eq!(got, rows(&[&["a", "1"], &["b", "2"], &["a", "3"]]));
}

#[test]
fn row_count_is_kept_in_every_configuration() {
    let input = first_rows();
    for groupby in [None, Some(vec![1])] {
        for first in [false, true] {
            for backfill in [false, true] {
                let got = Filler::new(groupby.clone(), vec![0, 2])
                    .use_first_value(first)
                    .backfill_empty_values(backfill)
                    .fill(&input)
                    .unwrap();
                assert_eq!(got.len(), input.len());
                let mut second: Vec<Vec<u8>> = got.iter().map(|r| r[1].clone()).collect();
                let mut expected: Vec<Vec<u8>> = input.iter().map(|r| r[1].clone()).collect();
                second.sort();
                expected.sort();
                assert_eq!(second, expected);
            }
        }
    }
}
