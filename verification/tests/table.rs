//! Table tracks.

use yata::columns::{fit_table_columns, raise_row_sum, raise_track_sum, table_span, TableColumn};

fn columns(bounds: &[(i32, i32)]) -> Vec<TableColumn> {
    bounds
        .iter()
        .map(|&(min, max)| TableColumn {
            min,
            max,
            used: min,
        })
        .collect()
}

#[test]
fn columns_spend_width_between_intrinsic_bounds_in_document_order() {
    let bounds = columns(&[(2, 2), (1, 1), (5, 17)]);
    assert_eq!(fit_table_columns(&bounds, 20), vec![2, 1, 17]);
    assert_eq!(
        fit_table_columns(&columns(&[(2, 5), (1, 6)]), 8),
        vec![4, 4]
    );
}

#[test]
fn columns_keep_minima_and_share_explicit_surplus() {
    let bounds = columns(&[(2, 2), (1, 1), (5, 8)]);
    assert_eq!(fit_table_columns(&bounds, 1), vec![2, 1, 5]);
    assert_eq!(fit_table_columns(&bounds, 17), vec![4, 3, 10]);
}

#[test]
fn spans_are_positive_bounded_integers_and_deficits_keep_document_order() {
    assert_eq!(table_span(None, 4), 1);
    assert_eq!(table_span(Some("0"), 4), 1);
    assert_eq!(table_span(Some("-2"), 4), 1);
    assert_eq!(table_span(Some("wat"), 4), 1);
    assert_eq!(table_span(Some("999999999999999999999"), 4), 1);
    assert_eq!(table_span(Some("9"), 4), 4);
    let mut tracks = columns(&[(1, 1), (1, 1), (1, 1)]);
    raise_track_sum(&mut tracks, 0, 3, 8, true);
    assert_eq!(
        tracks.iter().map(|t| t.min).collect::<Vec<_>>(),
        vec![3, 3, 2]
    );
    let mut rows = vec![1, 1];
    raise_row_sum(&mut rows, 0, 2, 5);
    assert_eq!(rows, vec![3, 2]);
}
