use frankenframe::align::{align, align_inner, align_left, align_union, validate_alignment_plan, AlignMode};
use frankenframe::index::Index;
use frankenframe::label::IndexLabel;

#[test]
fn union_alignment_preserves_left_then_right_unseen_order() {
    let left = Index::new(vec![1_i64.into(), 2_i64.into(), 4_i64.into()]);
    let right = Index::new(vec![2_i64.into(), 3_i64.into(), 4_i64.into()]);

    let plan = align_union(&left, &right);
    assert_eq!(
        plan.union_index.labels(),
        &[
            IndexLabel::Int64(1),
            IndexLabel::Int64(2),
            IndexLabel::Int64(4),
            IndexLabel::Int64(3),
        ]
    );
    assert_eq!(plan.left_positions, vec![Some(0), Some(1), Some(2), None]);
    assert_eq!(plan.right_positions, vec![None, Some(0), Some(2), Some(1)]);
    validate_alignment_plan(&plan).expect("plan must be valid");
}

#[test]
fn duplicate_detection_matches_index_surface() {
    let index = Index::new(vec!["a".into(), "a".into(), "b".into()]);
    assert!(index.has_duplicates());
}

#[test]
fn index_equality_ignores_duplicate_cache_state() {
    let index_with_cache = Index::new(vec!["a".into(), "a".into(), "b".into()]);
    assert!(index_with_cache.has_duplicates());

    let fresh_index = Index::new(vec!["a".into(), "a".into(), "b".into()]);
    assert_eq!(index_with_cache, fresh_index);
}

#[test]
fn sorted_int64_index_detected() {
    let index = Index::from_i64(vec![1, 2, 3, 4, 5]);
    assert!(index.is_sorted());
}

#[test]
fn unsorted_int64_index_detected() {
    let index = Index::from_i64(vec![3, 1, 2]);
    assert!(!index.is_sorted());
}

#[test]
fn sorted_utf8_index_detected() {
    let index = Index::from_utf8(vec!["a".into(), "b".into(), "c".into()]);
    assert!(index.is_sorted());
}

#[test]
fn unsorted_utf8_index_detected() {
    let index = Index::from_utf8(vec!["c".into(), "a".into(), "b".into()]);
    assert!(!index.is_sorted());
}

#[test]
fn duplicate_int64_is_not_sorted() {
    let index = Index::from_i64(vec![1, 2, 2, 3]);
    assert!(!index.is_sorted());
}

#[test]
fn empty_index_is_sorted() {
    let index = Index::new(vec![]);
    assert!(index.is_sorted());
}

#[test]
fn single_element_is_sorted() {
    let index = Index::from_i64(vec![42]);
    assert!(index.is_sorted());
}

#[test]
fn binary_search_position_sorted_int64() {
    let index = Index::from_i64(vec![10, 20, 30, 40, 50]);
    assert_eq!(index.position(&IndexLabel::Int64(10)), Some(0));
    assert_eq!(index.position(&IndexLabel::Int64(30)), Some(2));
    assert_eq!(index.position(&IndexLabel::Int64(50)), Some(4));
    assert_eq!(index.position(&IndexLabel::Int64(25)), None);
    assert_eq!(index.position(&IndexLabel::Int64(0)), None);
    assert_eq!(index.position(&IndexLabel::Int64(100)), None);
}

#[test]
fn binary_search_position_sorted_utf8() {
    let index = Index::from_utf8(vec!["apple".into(), "banana".into(), "cherry".into()]);
    assert_eq!(index.position(&IndexLabel::Utf8("apple".into())), Some(0));
    assert_eq!(index.position(&IndexLabel::Utf8("banana".into())), Some(1));
    assert_eq!(index.position(&IndexLabel::Utf8("cherry".into())), Some(2));
    assert_eq!(index.position(&IndexLabel::Utf8("date".into())), None);
}

#[test]
fn type_mismatch_returns_none() {
    let int_index = Index::from_i64(vec![1, 2, 3]);
    assert_eq!(int_index.position(&IndexLabel::Utf8("1".into())), None);

    let utf8_index = Index::from_utf8(vec!["a".into(), "b".into()]);
    assert_eq!(utf8_index.position(&IndexLabel::Int64(1)), None);
}

#[test]
fn linear_fallback_for_unsorted_index() {
    let index = Index::from_i64(vec![30, 10, 20]);
    assert!(!index.is_sorted());
    assert_eq!(index.position(&IndexLabel::Int64(30)), Some(0));
    assert_eq!(index.position(&IndexLabel::Int64(10)), Some(1));
    assert_eq!(index.position(&IndexLabel::Int64(20)), Some(2));
    assert_eq!(index.position(&IndexLabel::Int64(99)), None);
}

#[test]
fn binary_search_large_sorted_index() {
    let labels: Vec<i64> = (0..10_000).collect();
    let index = Index::from_i64(labels);
    assert!(index.is_sorted());

    assert_eq!(index.position(&IndexLabel::Int64(0)), Some(0));
    assert_eq!(index.position(&IndexLabel::Int64(5000)), Some(5000));
    assert_eq!(index.position(&IndexLabel::Int64(9999)), Some(9999));
    assert_eq!(index.position(&IndexLabel::Int64(10_000)), None);
    assert_eq!(index.position(&IndexLabel::Int64(-1)), None);
}

#[test]
fn sort_detection_is_cached() {
    let index = Index::from_i64(vec![1, 2, 3]);
    assert!(index.is_sorted());
    assert!(index.is_sorted());
}

#[test]
fn mixed_label_types_are_unsorted() {
    let index = Index::new(vec![IndexLabel::Int64(1), IndexLabel::Utf8("a".into())]);
    assert!(!index.is_sorted());
}

#[test]
fn position_consistent_sorted_vs_unsorted() {
    let sorted = Index::from_i64(vec![5, 10, 15, 20, 25]);
    assert!(sorted.is_sorted());

    for &target in &[5, 10, 15, 20, 25, 0, 12, 30] {
        let needle = IndexLabel::Int64(target);
        let expected = sorted.labels().iter().position(|l| l == &needle);
        assert_eq!(sorted.position(&needle), expected, "mismatch for target={target}");
    }
}

#[test]
fn align_inner_keeps_only_overlapping_labels() {
    let left = Index::new(vec![1_i64.into(), 2_i64.into(), 3_i64.into()]);
    let right = Index::new(vec![2_i64.into(), 3_i64.into(), 4_i64.into()]);

    let plan = align_inner(&left, &right);
    assert_eq!(plan.union_index.labels(), &[IndexLabel::Int64(2), IndexLabel::Int64(3)]);
    assert_eq!(plan.left_positions, vec![Some(1), Some(2)]);
    assert_eq!(plan.right_positions, vec![Some(0), Some(1)]);
    validate_alignment_plan(&plan).expect("valid");
}

#[test]
fn align_inner_disjoint_yields_empty() {
    let left = Index::new(vec![1_i64.into(), 2_i64.into()]);
    let right = Index::new(vec![3_i64.into(), 4_i64.into()]);

    let plan = align_inner(&left, &right);
    assert!(plan.union_index.is_empty());
    assert!(plan.left_positions.is_empty());
    assert!(plan.right_positions.is_empty());
}

#[test]
fn align_left_preserves_all_left_labels() {
    let left = Index::new(vec!["a".into(), "b".into(), "c".into()]);
    let right = Index::new(vec!["b".into(), "d".into()]);

    let plan = align_left(&left, &right);
    assert_eq!(plan.union_index.labels(), &["a".into(), "b".into(), "c".into()]);
    assert_eq!(plan.left_positions, vec![Some(0), Some(1), Some(2)]);
    assert_eq!(plan.right_positions, vec![None, Some(0), None]);
    validate_alignment_plan(&plan).expect("valid");
}

#[test]
fn align_right_preserves_all_right_labels() {
    let left = Index::new(vec!["a".into(), "b".into()]);
    let right = Index::new(vec!["b".into(), "c".into(), "d".into()]);

    let plan = align(&left, &right, AlignMode::Right);
    assert_eq!(plan.union_index.labels(), &["b".into(), "c".into(), "d".into()]);
    assert_eq!(plan.left_positions, vec![Some(1), None, None]);
    assert_eq!(plan.right_positions, vec![Some(0), Some(1), Some(2)]);
}

#[test]
fn align_mode_outer_matches_union() {
    let left = Index::new(vec![1_i64.into(), 2_i64.into()]);
    let right = Index::new(vec![2_i64.into(), 3_i64.into()]);

    let plan_outer = align(&left, &right, AlignMode::Outer);
    let plan_union = align_union(&left, &right);
    assert_eq!(plan_outer, plan_union);
}

#[test]
fn align_inner_identical_indexes() {
    let left = Index::new(vec!["x".into(), "y".into()]);
    let right = Index::new(vec!["x".into(), "y".into()]);

    let plan = align_inner(&left, &right);
    assert_eq!(plan.union_index.labels(), &["x".into(), "y".into()]);
    assert_eq!(plan.left_positions, vec![Some(0), Some(1)]);
    assert_eq!(plan.right_positions, vec![Some(0), Some(1)]);
}

#[test]
fn align_left_identical_indexes() {
    let left = Index::new(vec![1_i64.into(), 2_i64.into()]);
    let right = Index::new(vec![1_i64.into(), 2_i64.into()]);

    let plan = align_left(&left, &right);
    assert_eq!(plan.union_index.labels(), left.labels());
    assert_eq!(plan.left_positions, vec![Some(0), Some(1)]);
    assert_eq!(plan.right_positions, vec![Some(0), Some(1)]);
}

#[test]
fn align_inner_empty_input() {
    let left = Index::new(Vec::new());
    let right = Index::new(vec![1_i64.into()]);

    let plan = align_inner(&left, &right);
    assert!(plan.union_index.is_empty());
}

#[test]
fn align_left_empty_left() {
    let left = Index::new(Vec::new());
    let right = Index::new(vec![1_i64.into()]);

    let plan = align_left(&left, &right);
    assert!(plan.union_index.is_empty());
}

#[test]
fn outer_alignment_keeps_left_duplicates_and_first_matches() {
    let left = Index::new(vec!["a".into(), "a".into(), "b".into()]);
    let right = Index::new(vec!["c".into(), "a".into(), "c".into()]);

    let plan = align(&left, &right, AlignMode::Outer);
    assert_eq!(
        plan.union_index.labels(),
        &["a".into(), "a".into(), "b".into(), "c".into(), "c".into()]
    );
    assert_eq!(plan.left_positions, vec![Some(0), Some(0), Some(2), None, None]);
    assert_eq!(plan.right_positions, vec![Some(1), Some(1), None, Some(0), Some(0)]);
}

#[test]
fn every_alignment_mode_has_equal_lengths() {
    let left = Index::new(vec!["a".into(), "b".into(), "b".into()]);
    let right = Index::new(vec!["b".into(), "z".into()]);
    for mode in [AlignMode::Inner, AlignMode::Left, AlignMode::Right, AlignMode::Outer] {
        let plan = align(&left, &right, mode);
        assert_eq!(plan.left_positions.len(), plan.union_index.len());
        assert_eq!(plan.right_positions.len(), plan.union_index.len());
        assert!(validate_alignment_plan(&plan).is_ok());
    }
}

#[test]
fn position_map_first_lists_first_rows() {
    let index = Index::new(vec!["b".into(), "a".into(), "b".into(), 7_i64.into()]);
    let map = index.position_map_first();
    assert_eq!(
        map,
        vec![("b".into(), 0), ("a".into(), 1), (IndexLabel::Int64(7), 3)]
    );
}

#[test]
fn unsorted_utf8_position_scans() {
    let index = Index::new(vec!["b".into(), "a".into(), "b".into()]);
    assert_eq!(index.position(&IndexLabel::Utf8("b".into())), Some(0));
    assert_eq!(index.position(&IndexLabel::Utf8("a".into())), Some(1));
    assert!(index.has_duplicates());
}

#[test]
fn sorted_utf8_orders_by_bytes() {
    let index = Index::from_utf8(vec!["B".into(), "a".into(), "ab".into(), "\u{e9}".into()]);
    assert!(index.is_sorted());
    assert_eq!(index.position(&IndexLabel::Utf8("\u{e9}".into())), Some(3));
    assert_eq!(index.position(&IndexLabel::Utf8("b".into())), None);
}

#[test]
fn labels_as_text() {
    assert_eq!(IndexLabel::Int64(-12).to_text(), "-12");
    assert_eq!(IndexLabel::Utf8("k".into()).to_text(), "k");
}
