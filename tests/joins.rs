use frankenframe::frame::Series;
use frankenframe::join::{
    estimate_intermediate_bytes, estimate_output_rows, join_series, join_series_with_options,
    join_series_with_trace, JoinExecutionOptions, JoinType,
};
use frankenframe::label::IndexLabel;
use frankenframe::types::{NullKind, Scalar};

fn series(name: &str, labels: Vec<IndexLabel>, values: Vec<Scalar>) -> Series {
    Series::from_values(name.to_string(), labels, values).expect("series")
}

#[test]
fn inner_join_multiplies_cardinality_for_duplicates() {
    let left = series(
        "left",
        vec!["k".into(), "k".into(), "x".into()],
        vec![Scalar::Int64(1), Scalar::Int64(2), Scalar::Int64(3)],
    );
    let right = series(
        "right",
        vec!["k".into(), "k".into()],
        vec![Scalar::Int64(10), Scalar::Int64(20)],
    );

    let out = join_series(&left, &right, JoinType::Inner).expect("join");
    assert_eq!(out.index.labels().len(), 4);
    assert_eq!(
        out.left_values.values(),
        &[Scalar::Int64(1), Scalar::Int64(1), Scalar::Int64(2), Scalar::Int64(2)]
    );
    assert_eq!(
        out.right_values.values(),
        &[Scalar::Int64(10), Scalar::Int64(20), Scalar::Int64(10), Scalar::Int64(20)]
    );
}

#[test]
fn left_join_injects_missing_for_unmatched_right_rows() {
    let left = series("left", vec!["a".into(), "b".into()], vec![Scalar::Int64(1), Scalar::Int64(2)]);
    let right = series("right", vec!["a".into()], vec![Scalar::Int64(10)]);

    let out = join_series(&left, &right, JoinType::Left).expect("join");
    assert_eq!(out.right_values.values(), &[Scalar::Int64(10), Scalar::Null(NullKind::Null)]);
}

#[test]
fn arena_join_matches_global_allocator_behavior() {
    let left = series(
        "left",
        vec!["k".into(), "k".into(), "x".into()],
        vec![Scalar::Int64(1), Scalar::Int64(2), Scalar::Int64(3)],
    );
    let right = series(
        "right",
        vec!["k".into(), "k".into()],
        vec![Scalar::Int64(10), Scalar::Int64(20)],
    );

    let global = join_series_with_options(
        &left,
        &right,
        JoinType::Inner,
        JoinExecutionOptions { use_arena: false, arena_budget_bytes: 0 },
    )
    .expect("global join");
    let arena =
        join_series_with_options(&left, &right, JoinType::Inner, JoinExecutionOptions::default())
            .expect("arena join");
    assert_eq!(arena, global);
}

#[test]
fn arena_join_falls_back_when_budget_is_too_small() {
    let left = series(
        "left",
        vec!["a".into(), "a".into(), "a".into()],
        vec![Scalar::Int64(1), Scalar::Int64(2), Scalar::Int64(3)],
    );
    let right = series(
        "right",
        vec!["a".into(), "a".into()],
        vec![Scalar::Int64(10), Scalar::Int64(20)],
    );

    let options = JoinExecutionOptions { use_arena: true, arena_budget_bytes: 1 };
    let (fallback_out, trace) =
        join_series_with_trace(&left, &right, JoinType::Inner, options).expect("fallback join");
    let global_out = join_series_with_options(
        &left,
        &right,
        JoinType::Inner,
        JoinExecutionOptions { use_arena: false, arena_budget_bytes: 0 },
    )
    .expect("global join");

    assert_eq!(fallback_out, global_out);
    assert!(!trace.used_arena);
    assert!(trace.estimated_bytes > options.arena_budget_bytes);
}

#[test]
fn arena_join_is_stable_across_many_small_operations() {
    let left = series("left", vec!["a".into(), "b".into()], vec![Scalar::Int64(1), Scalar::Int64(2)]);
    let right =
        series("right", vec!["a".into(), "b".into()], vec![Scalar::Int64(10), Scalar::Int64(20)]);

    let options = JoinExecutionOptions::default();
    for _ in 0..1_000 {
        let out = join_series_with_options(&left, &right, JoinType::Inner, options).expect("arena join");
        assert_eq!(out.index.labels().len(), 2);
        assert_eq!(out.right_values.values(), &[Scalar::Int64(10), Scalar::Int64(20)]);
    }
}

#[test]
fn arena_large_join_100k_rows() {
    let n = 100_000;
    let labels: Vec<IndexLabel> = (0..n).map(|i| IndexLabel::Int64(i as i64 % 1000)).collect();
    let values: Vec<Scalar> = (0..n).map(|i| Scalar::Int64(i as i64)).collect();

    let left = series("left", labels.clone(), values.clone());
    let right = series("right", labels, values);

    let out =
        join_series_with_options(&left, &right, JoinType::Inner, JoinExecutionOptions::default())
            .expect("100K arena join");
    let out_fallback = join_series_with_options(
        &left,
        &right,
        JoinType::Inner,
        JoinExecutionOptions { use_arena: true, arena_budget_bytes: 1 },
    )
    .expect("100K fallback join");

    assert_eq!(out.index.labels().len(), out_fallback.index.labels().len());
}

#[test]
fn right_join_contains_all_right_labels() {
    let left = series("left", vec!["a".into(), "b".into()], vec![Scalar::Int64(1), Scalar::Int64(2)]);
    let right =
        series("right", vec!["b".into(), "c".into()], vec![Scalar::Int64(20), Scalar::Int64(30)]);

    let out = join_series(&left, &right, JoinType::Right).expect("join");
    assert_eq!(out.index.labels().len(), 2);
    assert_eq!(out.index.labels(), &[IndexLabel::Utf8("b".into()), IndexLabel::Utf8("c".into())]);
    assert_eq!(out.left_values.values(), &[Scalar::Int64(2), Scalar::Null(NullKind::Null)]);
    assert_eq!(out.right_values.values(), &[Scalar::Int64(20), Scalar::Int64(30)]);
}

#[test]
fn right_join_multiplies_cardinality_for_duplicates() {
    let left = series("left", vec!["k".into(), "k".into()], vec![Scalar::Int64(1), Scalar::Int64(2)]);
    let right =
        series("right", vec!["k".into(), "x".into()], vec![Scalar::Int64(10), Scalar::Int64(30)]);

    let out = join_series(&left, &right, JoinType::Right).expect("join");
    assert_eq!(out.index.labels().len(), 3);
    assert_eq!(
        out.right_values.values(),
        &[Scalar::Int64(10), Scalar::Int64(10), Scalar::Int64(30)]
    );
}

#[test]
fn outer_join_contains_all_labels_from_both_sides() {
    let left = series("left", vec!["a".into(), "b".into()], vec![Scalar::Int64(1), Scalar::Int64(2)]);
    let right =
        series("right", vec!["b".into(), "c".into()], vec![Scalar::Int64(20), Scalar::Int64(30)]);

    let out = join_series(&left, &right, JoinType::Outer).expect("join");
    assert_eq!(out.index.labels().len(), 3);
    assert_eq!(
        out.index.labels(),
        &[IndexLabel::Utf8("a".into()), IndexLabel::Utf8("b".into()), IndexLabel::Utf8("c".into())]
    );
    assert_eq!(
        out.left_values.values(),
        &[Scalar::Int64(1), Scalar::Int64(2), Scalar::Null(NullKind::Null)]
    );
    assert_eq!(
        out.right_values.values(),
        &[Scalar::Null(NullKind::Null), Scalar::Int64(20), Scalar::Int64(30)]
    );
}

#[test]
fn outer_join_with_duplicates() {
    let left = series(
        "left",
        vec!["k".into(), "k".into(), "a".into()],
        vec![Scalar::Int64(1), Scalar::Int64(2), Scalar::Int64(3)],
    );
    let right =
        series("right", vec!["k".into(), "z".into()], vec![Scalar::Int64(10), Scalar::Int64(99)]);

    let out = join_series(&left, &right, JoinType::Outer).expect("join");
    assert_eq!(out.index.labels().len(), 4);
}

#[test]
fn arena_right_join_matches_global() {
    let left = series("left", vec!["a".into(), "b".into()], vec![Scalar::Int64(1), Scalar::Int64(2)]);
    let right =
        series("right", vec!["b".into(), "c".into()], vec![Scalar::Int64(20), Scalar::Int64(30)]);

    let global = join_series_with_options(
        &left,
        &right,
        JoinType::Right,
        JoinExecutionOptions { use_arena: false, arena_budget_bytes: 0 },
    )
    .expect("global");
    let arena =
        join_series_with_options(&left, &right, JoinType::Right, JoinExecutionOptions::default())
            .expect("arena");
    assert_eq!(arena, global);
}

#[test]
fn arena_outer_join_matches_global() {
    let left = series("left", vec!["a".into(), "b".into()], vec![Scalar::Int64(1), Scalar::Int64(2)]);
    let right =
        series("right", vec!["b".into(), "c".into()], vec![Scalar::Int64(20), Scalar::Int64(30)]);

    let global = join_series_with_options(
        &left,
        &right,
        JoinType::Outer,
        JoinExecutionOptions { use_arena: false, arena_budget_bytes: 0 },
    )
    .expect("global");
    let arena =
        join_series_with_options(&left, &right, JoinType::Outer, JoinExecutionOptions::default())
            .expect("arena");
    assert_eq!(arena, global);
}

#[test]
fn arena_reset_between_operations() {
    let left = series("left", vec!["a".into(), "b".into()], vec![Scalar::Int64(1), Scalar::Int64(2)]);
    let right =
        series("right", vec!["a".into(), "c".into()], vec![Scalar::Int64(10), Scalar::Int64(30)]);

    let out1 =
        join_series_with_options(&left, &right, JoinType::Inner, JoinExecutionOptions::default())
            .expect("op1");
    assert_eq!(out1.index.labels().len(), 1);

    let out2 =
        join_series_with_options(&left, &right, JoinType::Left, JoinExecutionOptions::default())
            .expect("op2");
    assert_eq!(out2.index.labels().len(), 2);
}

#[test]
fn join_series_cross_cartesian_product() {
    let left = series("left", vec!["a".into(), "b".into()], vec![Scalar::Int64(1), Scalar::Int64(2)]);
    let right =
        series("right", vec!["x".into(), "y".into()], vec![Scalar::Int64(10), Scalar::Int64(20)]);

    let out = join_series(&left, &right, JoinType::Cross).unwrap();
    assert_eq!(out.index.labels().len(), 4);
    assert_eq!(
        out.left_values.values(),
        &[Scalar::Int64(1), Scalar::Int64(1), Scalar::Int64(2), Scalar::Int64(2)]
    );
    assert_eq!(
        out.right_values.values(),
        &[Scalar::Int64(10), Scalar::Int64(20), Scalar::Int64(10), Scalar::Int64(20)]
    );
}

#[test]
fn outer_join_scenario_rows() {
    let left = series("left", vec!["a".into(), "b".into()], vec![Scalar::Int64(1), Scalar::Int64(2)]);
    let right =
        series("right", vec!["b".into(), "c".into()], vec![Scalar::Int64(20), Scalar::Int64(30)]);
    let out = join_series(&left, &right, JoinType::Outer).expect("join");
    let rows: Vec<(IndexLabel, Scalar, Scalar)> = (0..3)
        .map(|k| {
            (
                out.index.labels()[k].clone(),
                out.left_values.values()[k].clone(),
                out.right_values.values()[k].clone(),
            )
        })
        .collect();
    assert_eq!(
        rows,
        vec![
            ("a".into(), Scalar::Int64(1), Scalar::Null(NullKind::Null)),
            ("b".into(), Scalar::Int64(2), Scalar::Int64(20)),
            ("c".into(), Scalar::Null(NullKind::Null), Scalar::Int64(30)),
        ]
    );
}

#[test]
fn output_row_estimates_are_exact() {
    let left = series(
        "left",
        vec!["k".into(), "k".into(), "x".into()],
        vec![Scalar::Int64(1), Scalar::Int64(2), Scalar::Int64(3)],
    );
    let right =
        series("right", vec!["k".into(), "z".into()], vec![Scalar::Int64(10), Scalar::Int64(20)]);
    assert_eq!(estimate_output_rows(left.index(), right.index(), JoinType::Inner), 2);
    assert_eq!(estimate_output_rows(left.index(), right.index(), JoinType::Left), 3);
    assert_eq!(estimate_output_rows(left.index(), right.index(), JoinType::Right), 3);
    assert_eq!(estimate_output_rows(left.index(), right.index(), JoinType::Outer), 4);
    assert_eq!(estimate_output_rows(left.index(), right.index(), JoinType::Cross), 6);
    let per_row = 2 * std::mem::size_of::<Option<usize>>() + std::mem::size_of::<IndexLabel>();
    assert_eq!(estimate_intermediate_bytes(3), 3 * per_row);
    assert_eq!(estimate_intermediate_bytes(usize::MAX), usize::MAX);
}

#[test]
fn cross_join_with_empty_side_is_empty() {
    let left = series("left", vec!["a".into()], vec![Scalar::Int64(1)]);
    let right = series("right", vec![], vec![]);
    let out = join_series(&left, &right, JoinType::Cross).expect("join");
    assert!(out.index.is_empty());
    assert!(out.left_values.is_empty());
}

#[test]
fn arena_and_heap_agree_for_every_join_type() {
    let left = series(
        "left",
        vec!["k".into(), 3_i64.into(), "k".into(), "q".into()],
        vec![Scalar::Int64(1), Scalar::Null(NullKind::Null), Scalar::Int64(3), Scalar::Int64(4)],
    );
    let right = series(
        "right",
        vec!["k".into(), "z".into(), 3_i64.into()],
        vec![Scalar::Utf8("u".into()), Scalar::Utf8("v".into()), Scalar::Utf8("w".into())],
    );
    for t in [JoinType::Inner, JoinType::Left, JoinType::Right, JoinType::Outer, JoinType::Cross] {
        let heap = join_series_with_options(
            &left,
            &right,
            t,
            JoinExecutionOptions { use_arena: false, arena_budget_bytes: 0 },
        )
        .expect("heap");
        let arena = join_series_with_options(
            &left,
            &right,
            t,
            JoinExecutionOptions { use_arena: true, arena_budget_bytes: usize::MAX },
        )
        .expect("arena");
        assert_eq!(heap, arena);
    }
}
