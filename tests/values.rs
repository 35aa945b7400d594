use frankenframe::column::{ArithmeticOp, CellPlan, Column, ColumnError};
use frankenframe::types::{cast_scalar, common_dtype, infer_dtype, DType, NullKind, Scalar, TypeError};

fn f(x: f64) -> Scalar {
    Scalar::Float64(x.to_bits())
}

#[test]
fn dtype_inference_coerces_numeric_values() {
    let values = vec![Scalar::Bool(true), Scalar::Int64(7), f(3.5)];
    assert_eq!(infer_dtype(&values).expect("dtype should infer"), DType::Float64);
}

#[test]
fn missing_values_get_target_missing_marker() {
    let missing = Scalar::Null(NullKind::Null);
    let cast = cast_scalar(&missing, DType::Float64).expect("missing casts");
    assert_eq!(cast, Scalar::Null(NullKind::NaN));
}

#[test]
fn semantic_eq_treats_nan_as_equal() {
    let left = f(f64::NAN);
    let right = Scalar::Null(NullKind::NaN);
    assert!(left.semantic_eq(&right));
}

#[test]
fn common_dtype_rejects_string_numeric_mix() {
    let err = common_dtype(DType::Utf8, DType::Int64).expect_err("must fail");
    assert_eq!(err.message(), "dtype coercion from Utf8 to Int64 has no compatible common type");
}

#[test]
fn reindex_injects_missing_values() {
    let column = Column::from_values(vec![Scalar::Int64(10), Scalar::Int64(20)]).expect("column should build");
    let out = column.reindex_by_positions(&[Some(1), None, Some(0)]).expect("reindex should work");
    assert_eq!(out.values(), &[Scalar::Int64(20), Scalar::Null(NullKind::Null), Scalar::Int64(10)]);
}

#[test]
fn numeric_plan_propagates_missing() {
    let left = Column::from_values(vec![Scalar::Int64(1), Scalar::Null(NullKind::Null), f(f64::NAN)]).expect("left");
    let right = Column::from_values(vec![Scalar::Int64(2), Scalar::Int64(5), Scalar::Int64(3)]).expect("right");
    assert_eq!(left.dtype(), DType::Float64);
    assert_eq!(left.values()[0], f(1.0));

    let plan = left.binary_numeric_plan(&right, ArithmeticOp::Add).expect("plan");
    assert_eq!(plan.out_dtype, DType::Float64);
    assert!(matches!(plan.cells[0], CellPlan::Compute));
    assert!(matches!(&plan.cells[1], CellPlan::Fill(Scalar::Null(NullKind::NaN))));
    assert!(matches!(&plan.cells[2], CellPlan::Fill(Scalar::Null(NullKind::NaN))));
}

#[test]
fn numeric_plan_dtypes() {
    let b = Column::from_values(vec![Scalar::Bool(true), Scalar::Bool(false)]).expect("bools");
    let i = Column::from_values(vec![Scalar::Int64(1), Scalar::Null(NullKind::Null)]).expect("ints");
    assert_eq!(b.binary_numeric_plan(&b, ArithmeticOp::Add).expect("plan").out_dtype, DType::Int64);
    assert_eq!(i.binary_numeric_plan(&i, ArithmeticOp::Div).expect("plan").out_dtype, DType::Float64);
    let plan = i.binary_numeric_plan(&b, ArithmeticOp::Mul).expect("plan");
    assert_eq!(plan.out_dtype, DType::Int64);
    assert!(matches!(&plan.cells[1], CellPlan::Fill(Scalar::Null(NullKind::Null))));
}

#[test]
fn numeric_plan_errors() {
    let a = Column::from_values(vec![Scalar::Int64(1)]).expect("a");
    let b = Column::from_values(vec![Scalar::Int64(1), Scalar::Int64(2)]).expect("b");
    match a.binary_numeric_plan(&b, ArithmeticOp::Add) {
        Err(ColumnError::LengthMismatch { left, right }) => {
            assert_eq!((left, right), (1, 2));
        }
        other => panic!("unexpected {other:?}"),
    }
    let s = Column::from_values(vec![Scalar::Utf8("x".into())]).expect("s");
    match a.binary_numeric_plan(&s, ArithmeticOp::Add) {
        Err(ColumnError::Type(TypeError::IncompatibleDtypes { left, right })) => {
            assert_eq!((left, right), (DType::Int64, DType::Utf8));
        }
        other => panic!("unexpected {other:?}"),
    }
    match s.binary_numeric_plan(&s, ArithmeticOp::Sub) {
        Err(ColumnError::Type(TypeError::NonNumericValue { value, dtype })) => {
            assert_eq!(value, "x");
            assert_eq!(dtype, DType::Utf8);
        }
        other => panic!("unexpected {other:?}"),
    }
}

#[test]
fn common_dtype_lattice() {
    assert_eq!(common_dtype(DType::Null, DType::Utf8).unwrap(), DType::Utf8);
    assert_eq!(common_dtype(DType::Bool, DType::Int64).unwrap(), DType::Int64);
    assert_eq!(common_dtype(DType::Int64, DType::Float64).unwrap(), DType::Float64);
    assert_eq!(common_dtype(DType::Bool, DType::Float64).unwrap(), DType::Float64);
    assert_eq!(common_dtype(DType::Utf8, DType::Utf8).unwrap(), DType::Utf8);
    assert!(common_dtype(DType::Bool, DType::Utf8).is_err());
    assert_eq!(infer_dtype(&[]).unwrap(), DType::Null);
    assert!(infer_dtype(&[Scalar::Int64(1), Scalar::Utf8("a".into())]).is_err());
}

#[test]
fn casts_between_integers_and_doubles_are_exact() {
    for v in [0_i64, 1, -1, 7, 1 << 53, (1 << 53) + 1, i64::MAX, i64::MIN, -123_456_789_012_345] {
        let cast = cast_scalar(&Scalar::Int64(v), DType::Float64).expect("int to float");
        assert_eq!(cast, f(v as f64), "value {v}");
    }
    for x in [0.0, -0.0, 3.0, -42.0, 9.007199254740992e15, -9.223372036854775808e18] {
        let cast = cast_scalar(&f(x), DType::Int64).expect("float to int");
        assert_eq!(cast, Scalar::Int64(x as i64), "value {x}");
    }
    for x in [0.5, f64::NAN, f64::INFINITY, 9.223372036854775808e18, 1e300, -1e-300] {
        assert!(matches!(
            cast_scalar(&f(x), DType::Int64),
            Err(TypeError::LossyFloatToInt { .. })
        ));
    }
}

#[test]
fn casts_to_bool() {
    assert_eq!(cast_scalar(&Scalar::Int64(1), DType::Bool).unwrap(), Scalar::Bool(true));
    assert_eq!(cast_scalar(&f(-0.0), DType::Bool).unwrap(), Scalar::Bool(false));
    assert_eq!(cast_scalar(&Scalar::Int64(2), DType::Bool).unwrap_err(), TypeError::InvalidBoolInt { value: 2 });
    assert!(matches!(cast_scalar(&f(0.5), DType::Bool), Err(TypeError::InvalidBoolFloat { .. })));
    assert_eq!(cast_scalar(&Scalar::Bool(true), DType::Float64).unwrap(), f(1.0));
    assert_eq!(
        cast_scalar(&Scalar::Utf8("a".into()), DType::Int64).unwrap_err(),
        TypeError::InvalidCast { from: DType::Utf8, to: DType::Int64 }
    );
}

#[test]
fn column_new_reports_first_failing_cast() {
    match Column::new(DType::Int64, vec![Scalar::Int64(1), f(1.5), Scalar::Utf8("x".into())]) {
        Err(ColumnError::Type(TypeError::LossyFloatToInt { value })) => assert_eq!(value, 1.5f64.to_bits()),
        other => panic!("unexpected {other:?}"),
    }
    let c = Column::new(DType::Float64, vec![Scalar::Null(NullKind::Null), Scalar::Int64(2)]).expect("column");
    assert_eq!(c.values(), &[Scalar::Null(NullKind::NaN), f(2.0)]);
    assert_eq!(c.validity().bits(), &[false, true]);
}

#[test]
fn scalar_predicates() {
    assert!(f(f64::NAN).is_missing());
    assert!(f(f64::NAN).is_nan());
    assert!(!Scalar::Null(NullKind::Null).is_nan());
    assert!(Scalar::Null(NullKind::NaT).is_missing());
    assert!(!Scalar::Int64(0).is_missing());
    assert_eq!(Scalar::missing_for_dtype(DType::Float64), Scalar::Null(NullKind::NaN));
    assert_eq!(Scalar::missing_for_dtype(DType::Utf8), Scalar::Null(NullKind::Null));
    assert_ne!(f(f64::NAN), f(f64::NAN));
    assert_eq!(f(0.0), f(-0.0));
    assert!(f(f64::NAN).semantic_eq(&f(f64::NAN)));
}

#[test]
fn identity_reindex_round_trips() {
    let column = Column::from_values(vec![Scalar::Utf8("a".into()), Scalar::Null(NullKind::Null), Scalar::Utf8("c".into())]).expect("column");
    let out = column.reindex_by_positions(&[Some(0), Some(1), Some(2)]).expect("reindex");
    assert_eq!(out, column);
    assert!(out.semantic_eq(&column));
}

#[test]
fn reindex_out_of_bounds_is_missing() {
    let column = Column::from_values(vec![f(1.0)]).expect("column");
    let out = column.reindex_by_positions(&[Some(5), Some(0)]).expect("reindex");
    assert_eq!(out.values(), &[Scalar::Null(NullKind::NaN), f(1.0)]);
}
