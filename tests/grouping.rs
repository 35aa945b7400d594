use frankenframe::frame::Series;
use frankenframe::groupby::{group_label, groupby_sum_plan, groupby_sum_plan_generic, GroupByOptions, GroupSumPlan};
use frankenframe::label::IndexLabel;
use frankenframe::types::{NullKind, Scalar};

fn series(name: &str, labels: Vec<IndexLabel>, values: Vec<Scalar>) -> Series {
    Series::from_values(name.to_string(), labels, values).expect("series")
}

fn sums(plan: &GroupSumPlan) -> Vec<f64> {
    plan.members
        .iter()
        .map(|rows| {
            rows.iter()
                .map(|&r| match &plan.values.values()[r] {
                    Scalar::Bool(b) => f64::from(u8::from(*b)),
                    Scalar::Int64(v) => *v as f64,
                    Scalar::Float64(bits) => f64::from_bits(*bits),
                    other => panic!("not numeric: {other:?}"),
                })
                .fold(0.0, |a, b| a + b)
        })
        .collect()
}

fn labels(plan: &GroupSumPlan) -> Vec<IndexLabel> {
    plan.keys.iter().map(|k| group_label(k).expect("label")).collect()
}

#[test]
fn groupby_sum_respects_first_seen_key_order() {
    let keys = series(
        "key",
        vec![0_i64.into(), 1_i64.into(), 2_i64.into(), 3_i64.into()],
        vec![Scalar::Utf8("b".into()), Scalar::Utf8("a".into()), Scalar::Utf8("b".into()), Scalar::Utf8("a".into())],
    );
    let values = series(
        "value",
        vec![0_i64.into(), 1_i64.into(), 2_i64.into(), 3_i64.into()],
        vec![Scalar::Int64(1), Scalar::Int64(2), Scalar::Int64(3), Scalar::Int64(4)],
    );
    let plan = groupby_sum_plan(&keys, &values, GroupByOptions::default()).expect("groupby");
    assert_eq!(labels(&plan), vec!["b".into(), "a".into()]);
    assert_eq!(sums(&plan), vec![4.0, 6.0]);
}

#[test]
fn groupby_sum_duplicate_equal_index_preserves_alignment_behavior() {
    let keys = series(
        "key",
        vec!["a".into(), "a".into(), "b".into()],
        vec![Scalar::Utf8("x".into()), Scalar::Utf8("y".into()), Scalar::Utf8("x".into())],
    );
    let values = series(
        "value",
        vec!["a".into(), "a".into(), "b".into()],
        vec![Scalar::Int64(1), Scalar::Int64(2), Scalar::Int64(4)],
    );
    let plan = groupby_sum_plan(&keys, &values, GroupByOptions::default()).expect("groupby");
    assert_eq!(labels(&plan), vec!["x".into()]);
    assert_eq!(sums(&plan), vec![6.0]);
}

#[test]
fn groupby_sum_int_dense_path_preserves_first_seen_order() {
    let keys = series(
        "key",
        vec![0_i64.into(), 1_i64.into(), 2_i64.into(), 3_i64.into()],
        vec![Scalar::Int64(10), Scalar::Int64(5), Scalar::Int64(10), Scalar::Int64(-2)],
    );
    let values = series(
        "value",
        vec![0_i64.into(), 1_i64.into(), 2_i64.into(), 3_i64.into()],
        vec![Scalar::Int64(1), Scalar::Int64(2), Scalar::Int64(3), Scalar::Int64(4)],
    );
    let plan = groupby_sum_plan(&keys, &values, GroupByOptions::default()).expect("groupby");
    assert_eq!(labels(&plan), vec![10_i64.into(), 5_i64.into(), (-2_i64).into()]);
    assert_eq!(sums(&plan), vec![4.0, 2.0, 4.0]);
}

#[test]
fn groupby_sum_dropna_false_keeps_null_group_via_generic_fallback() {
    let keys = series(
        "key",
        vec![0_i64.into(), 1_i64.into(), 2_i64.into()],
        vec![Scalar::Int64(10), Scalar::Null(NullKind::Null), Scalar::Int64(10)],
    );
    let values = series(
        "value",
        vec![0_i64.into(), 1_i64.into(), 2_i64.into()],
        vec![Scalar::Int64(1), Scalar::Int64(2), Scalar::Int64(3)],
    );
    let plan = groupby_sum_plan(&keys, &values, GroupByOptions { dropna: false }).expect("groupby");
    assert_eq!(labels(&plan), vec![10_i64.into(), "<null>".into()]);
    assert_eq!(sums(&plan), vec![4.0, 2.0]);
}

#[test]
fn dense_and_generic_plans_agree() {
    let keys = series(
        "key",
        (0..8_i64).map(IndexLabel::from).collect(),
        vec![
            Scalar::Int64(3),
            Scalar::Int64(-65_000),
            Scalar::Null(NullKind::Null),
            Scalar::Int64(3),
            Scalar::Int64(100),
            Scalar::Int64(-65_000),
            Scalar::Int64(7),
            Scalar::Int64(100),
        ],
    );
    let values = series(
        "value",
        (0..8_i64).map(IndexLabel::from).collect(),
        vec![
            Scalar::Int64(1),
            Scalar::Null(NullKind::Null),
            Scalar::Int64(5),
            Scalar::Int64(2),
            Scalar::Int64(4),
            Scalar::Int64(8),
            Scalar::Int64(16),
            Scalar::Int64(32),
        ],
    );
    let dense = groupby_sum_plan(&keys, &values, GroupByOptions::default()).expect("dense");
    let generic = groupby_sum_plan_generic(&keys, &values, GroupByOptions::default()).expect("generic");
    assert_eq!(dense.keys, generic.keys);
    assert_eq!(dense.members, generic.members);
    assert_eq!(labels(&dense), vec![3_i64.into(), (-65_000_i64).into(), 100_i64.into(), 7_i64.into()]);
    assert_eq!(dense.members, vec![vec![0, 3], vec![5], vec![4, 7], vec![6]]);
    assert_eq!(sums(&dense), vec![3.0, 8.0, 36.0, 16.0]);
}

#[test]
fn wide_key_span_uses_general_table() {
    let keys = series(
        "key",
        vec![0_i64.into(), 1_i64.into()],
        vec![Scalar::Int64(0), Scalar::Int64(70_000)],
    );
    let values = series("value", vec![0_i64.into(), 1_i64.into()], vec![Scalar::Int64(1), Scalar::Int64(2)]);
    let plan = groupby_sum_plan(&keys, &values, GroupByOptions::default()).expect("plan");
    assert_eq!(labels(&plan), vec![0_i64.into(), 70_000_i64.into()]);
    assert_eq!(sums(&plan), vec![1.0, 2.0]);
}

#[test]
fn misaligned_indexes_are_aligned_on_the_union() {
    let keys = series("key", vec!["r1".into(), "r2".into()], vec![Scalar::Utf8("g".into()), Scalar::Utf8("h".into())]);
    let values = series("value", vec!["r2".into(), "r3".into()], vec![Scalar::Int64(5), Scalar::Int64(7)]);
    let plan = groupby_sum_plan(&keys, &values, GroupByOptions::default()).expect("plan");
    // Union rows r1, r2, r3: keys g, h, missing; values missing, 5, 7.
    assert_eq!(labels(&plan), vec!["g".into(), "h".into()]);
    assert_eq!(sums(&plan), vec![0.0, 5.0]);
}

#[test]
fn nan_keys_fold_into_one_group() {
    let nan_a = Scalar::Float64(f64::NAN.to_bits());
    let nan_b = Scalar::Float64(f64::NAN.to_bits() | 1);
    let keys = series("key", vec![0_i64.into(), 1_i64.into(), 2_i64.into()], vec![nan_a, Scalar::Float64(1.5f64.to_bits()), nan_b]);
    let values = series("value", vec![0_i64.into(), 1_i64.into(), 2_i64.into()], vec![Scalar::Int64(1), Scalar::Int64(2), Scalar::Int64(4)]);
    let plan = groupby_sum_plan(&keys, &values, GroupByOptions { dropna: false }).expect("plan");
    assert_eq!(plan.members, vec![vec![0, 2], vec![1]]);
    assert_eq!(group_label(&plan.keys[0]), Some("<null>".into()));
    assert_eq!(group_label(&plan.keys[1]), None);
    let dropped = groupby_sum_plan(&keys, &values, GroupByOptions::default()).expect("plan");
    assert_eq!(dropped.members, vec![vec![1]]);
}

#[test]
fn group_labels_of_key_kinds() {
    assert_eq!(group_label(&Scalar::Bool(true)), Some("true".into()));
    assert_eq!(group_label(&Scalar::Null(NullKind::NaN)), Some("<null>".into()));
    assert_eq!(group_label(&Scalar::Int64(-4)), Some(IndexLabel::Int64(-4)));
}

#[test]
fn every_missing_key_joins_one_null_group() {
    let keys = series(
        "key",
        (0..5_i64).map(IndexLabel::from).collect(),
        vec![
            Scalar::Float64(f64::NAN.to_bits()),
            Scalar::Float64(4.0f64.to_bits()),
            Scalar::Null(NullKind::Null),
            Scalar::Null(NullKind::NaN),
            Scalar::Float64(2.5f64.to_bits()),
        ],
    );
    let values = series(
        "value",
        (0..5_i64).map(IndexLabel::from).collect(),
        vec![Scalar::Int64(1), Scalar::Int64(2), Scalar::Int64(4), Scalar::Int64(8), Scalar::Int64(16)],
    );
    let plan = groupby_sum_plan(&keys, &values, GroupByOptions { dropna: false }).expect("plan");
    assert_eq!(plan.members, vec![vec![0, 2, 3], vec![1], vec![4]]);
    assert_eq!(group_label(&plan.keys[0]), Some("<null>".into()));
    assert_eq!(plan.keys[1], Scalar::Float64(4.0f64.to_bits()));
    assert_eq!(group_label(&plan.keys[1]), None);
    assert_eq!(group_label(&plan.keys[2]), None);
    assert_eq!(sums(&plan), vec![13.0, 2.0, 16.0]);
    let dropped = groupby_sum_plan(&keys, &values, GroupByOptions::default()).expect("plan");
    assert_eq!(dropped.members, vec![vec![1], vec![4]]);
}
