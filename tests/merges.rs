use frankenframe::column::Column;
use frankenframe::frame::DataFrame;
use frankenframe::index::Index;
use frankenframe::join::{JoinError, JoinType};
use frankenframe::merge::merge_dataframes;
use frankenframe::frame::FrameError;
use frankenframe::frame::Series;
use frankenframe::types::{NullKind, Scalar};

fn frame(cols: Vec<(&str, Vec<Scalar>)>) -> DataFrame {
    let n = cols.first().map(|c| c.1.len()).unwrap_or(0);
    let index = Index::from_i64((0..n as i64).collect());
    let columns = cols
        .into_iter()
        .map(|(name, values)| (name.to_string(), Column::from_values(values).expect("column")))
        .collect();
    DataFrame::new(index, columns).expect("frame")
}

fn ints(v: &[i64]) -> Vec<Scalar> {
    v.iter().map(|x| Scalar::Int64(*x)).collect()
}

fn make_left_df() -> DataFrame {
    frame(vec![("id", ints(&[1, 2, 3])), ("val_a", ints(&[10, 20, 30]))])
}

fn make_right_df() -> DataFrame {
    frame(vec![("id", ints(&[2, 3, 4])), ("val_b", ints(&[200, 300, 400]))])
}

#[test]
fn merge_inner_basic() {
    let merged = merge_dataframes(&make_left_df(), &make_right_df(), "id", JoinType::Inner).unwrap();
    assert_eq!(merged.column("id").unwrap().len(), 2);
    assert_eq!(merged.column("id").unwrap().values(), &ints(&[2, 3])[..]);
    assert_eq!(merged.column("val_a").unwrap().values(), &ints(&[20, 30])[..]);
    assert_eq!(merged.column("val_b").unwrap().values(), &ints(&[200, 300])[..]);
}

#[test]
fn merge_left_preserves_all_left_rows() {
    let merged = merge_dataframes(&make_left_df(), &make_right_df(), "id", JoinType::Left).unwrap();
    assert_eq!(merged.column("id").unwrap().len(), 3);
    assert_eq!(merged.column("val_a").unwrap().values(), &ints(&[10, 20, 30])[..]);
    assert!(merged.column("val_b").unwrap().values()[0].is_missing());
    assert_eq!(merged.column("val_b").unwrap().values()[1], Scalar::Int64(200));
    assert_eq!(merged.column("val_b").unwrap().values()[2], Scalar::Int64(300));
}

#[test]
fn merge_right_preserves_all_right_rows() {
    let merged = merge_dataframes(&make_left_df(), &make_right_df(), "id", JoinType::Right).unwrap();
    assert_eq!(merged.column("id").unwrap().len(), 3);
    assert_eq!(merged.column("id").unwrap().values(), &ints(&[2, 3, 4])[..]);
    assert_eq!(merged.column("val_b").unwrap().values(), &ints(&[200, 300, 400])[..]);
    assert_eq!(merged.column("val_a").unwrap().values()[0], Scalar::Int64(20));
    assert_eq!(merged.column("val_a").unwrap().values()[1], Scalar::Int64(30));
    assert!(merged.column("val_a").unwrap().values()[2].is_missing());
}

#[test]
fn merge_outer_contains_all_rows() {
    let merged = merge_dataframes(&make_left_df(), &make_right_df(), "id", JoinType::Outer).unwrap();
    assert_eq!(merged.column("id").unwrap().len(), 4);
    assert_eq!(merged.column("id").unwrap().values(), &ints(&[1, 2, 3, 4])[..]);
    assert_eq!(merged.index.labels().len(), 4);
}

#[test]
fn merge_column_name_conflict_adds_suffixes() {
    let left = frame(vec![("id", ints(&[1])), ("val", ints(&[10]))]);
    let right = frame(vec![("id", ints(&[1])), ("val", ints(&[99]))]);
    let merged = merge_dataframes(&left, &right, "id", JoinType::Inner).unwrap();
    assert!(merged.column("val_left").is_some());
    assert!(merged.column("val_right").is_some());
    assert!(merged.column("val").is_none());
    assert_eq!(merged.column("val_left").unwrap().values(), &ints(&[10])[..]);
    assert_eq!(merged.column("val_right").unwrap().values(), &ints(&[99])[..]);
}

#[test]
fn merge_missing_key_column_errors() {
    let err = merge_dataframes(&make_left_df(), &make_right_df(), "nonexistent", JoinType::Inner)
        .expect_err("should fail");
    match err {
        JoinError::Frame(FrameError::CompatibilityRejected(msg)) => {
            assert!(msg.contains("nonexistent"));
            assert_eq!(msg, "left DataFrame missing key column 'nonexistent'");
        }
        other => panic!("unexpected {other:?}"),
    }
}

#[test]
fn merge_duplicate_keys_multiply_cardinality() {
    let left = frame(vec![("id", ints(&[1, 1])), ("a", ints(&[10, 20]))]);
    let right = frame(vec![("id", ints(&[1, 1])), ("b", ints(&[100, 200]))]);
    let merged = merge_dataframes(&left, &right, "id", JoinType::Inner).unwrap();
    assert_eq!(merged.column("id").unwrap().len(), 4);
    assert_eq!(merged.column("a").unwrap().values(), &ints(&[10, 10, 20, 20])[..]);
    assert_eq!(merged.column("b").unwrap().values(), &ints(&[100, 200, 100, 200])[..]);
}

#[test]
fn merge_cross_cartesian_product() {
    let merged = merge_dataframes(&make_left_df(), &make_right_df(), "unused_key", JoinType::Cross).unwrap();
    assert_eq!(merged.column("id_left").unwrap().len(), 9);
    assert_eq!(&merged.column("id_left").unwrap().values()[0..3], &ints(&[1, 1, 1])[..]);
    assert_eq!(&merged.column("id_right").unwrap().values()[0..3], &ints(&[2, 3, 4])[..]);
    assert_eq!(&merged.column("val_a").unwrap().values()[0..3], &ints(&[10, 10, 10])[..]);
    assert_eq!(&merged.column("val_b").unwrap().values()[0..3], &ints(&[200, 300, 400])[..]);
}

#[test]
fn merge_cross_does_not_require_on_column() {
    let merged =
        merge_dataframes(&make_left_df(), &make_right_df(), "definitely_missing", JoinType::Cross).unwrap();
    assert_eq!(merged.column("id_left").unwrap().len(), 9);
}

#[test]
fn merge_cross_with_empty_side_yields_empty_rows() {
    let left = frame(vec![("l", ints(&[1, 2]))]);
    let right = frame(vec![("r", vec![])]);
    let merged = merge_dataframes(&left, &right, "ignored", JoinType::Cross).unwrap();
    assert_eq!(merged.index.labels().len(), 0);
    assert!(merged.column("l").unwrap().values().is_empty());
    assert!(merged.column("r").unwrap().values().is_empty());
}

#[test]
fn merge_missing_keys_match_nothing() {
    let left = frame(vec![
        ("k", vec![Scalar::Int64(1), Scalar::Null(NullKind::Null), Scalar::Float64(2.7f64.to_bits())]),
        ("a", ints(&[10, 20, 30])),
    ]);
    let right = frame(vec![
        ("k", vec![Scalar::Null(NullKind::Null), Scalar::Int64(2), Scalar::Int64(1)]),
        ("b", ints(&[100, 200, 300])),
    ]);
    let inner = merge_dataframes(&left, &right, "k", JoinType::Inner).unwrap();
    assert_eq!(inner.column("a").unwrap().values(), &ints(&[10, 30])[..]);
    assert_eq!(inner.column("b").unwrap().values(), &ints(&[300, 200])[..]);
    let outer = merge_dataframes(&left, &right, "k", JoinType::Outer).unwrap();
    assert_eq!(outer.column("a").unwrap().values().len(), 3);
    let right_join = merge_dataframes(&left, &right, "k", JoinType::Right).unwrap();
    assert_eq!(right_join.column("b").unwrap().values(), &ints(&[100, 200, 300])[..]);
    assert!(right_join.column("a").unwrap().values()[0].is_missing());
}

#[test]
fn dataframe_rejects_length_mismatch() {
    let index = Index::from_i64(vec![0, 1]);
    let col = Column::from_values(ints(&[1])).unwrap();
    assert!(matches!(
        DataFrame::new(index, vec![("x".to_string(), col)]),
        Err(FrameError::LengthMismatch { index_len: 2, column_len: 1 })
    ));
}

#[test]
fn dataframe_from_series_reindexes_existing_columns() {
    let s1 = Series::from_values("a".to_string(), vec![1_i64.into(), 2_i64.into()], ints(&[1, 2])).expect("s1");
    let s2 = Series::from_values("b".to_string(), vec![2_i64.into(), 3_i64.into()], ints(&[20, 30])).expect("s2");

    let df = DataFrame::from_series(vec![s1, s2]).expect("frame");
    assert_eq!(df.index().labels(), &[1_i64.into(), 2_i64.into(), 3_i64.into()]);
    assert_eq!(
        df.column("a").expect("a").values(),
        &[Scalar::Int64(1), Scalar::Int64(2), Scalar::Null(NullKind::Null)]
    );
    assert_eq!(
        df.column("b").expect("b").values(),
        &[Scalar::Null(NullKind::Null), Scalar::Int64(20), Scalar::Int64(30)]
    );
}

#[test]
fn dataframe_from_no_series_is_empty() {
    let df = DataFrame::from_series(vec![]).expect("frame");
    assert!(df.index().is_empty());
    assert!(df.columns().is_empty());
}
