use vstd::prelude::*;

use crate::float_bits::{
    f64_bits_of_int, f64_bits_to_i64, f64_int_value, f64_is_nan, f64_is_zero, i64_to_f64_bits,
    is_nan_bits, is_zero_bits, ONE_BITS,
};

verus! {

/// The closed set of value types.
#[derive(Debug, Clone, Copy, PartialEq, Eq, Hash, Structural)]
pub enum DType {
    Null,
    Bool,
    Int64,
    Float64,
    Utf8,
}

/// Kinds of absence: a generic null, a float not-a-number, a time absence.
#[derive(Debug, Clone, Copy, PartialEq, Eq, Hash, Structural)]
pub enum NullKind {
    Null,
    NaN,
    NaT,
}

/// A tagged value. A `Float64` holds the IEEE-754 bits of the double.
#[derive(Debug)]
pub enum Scalar {
    Null(NullKind),
    Bool(bool),
    Int64(i64),
    Float64(u64),
    Utf8(String),
}

/// The mathematical value of a `Scalar`.
pub enum ScalarView {
    Null(NullKind),
    Bool(bool),
    Int64(i64),
    Float64(u64),
    Utf8(Seq<char>),
}

impl View for Scalar {
    type V = ScalarView;

    open spec fn view(&self) -> ScalarView {
        match self {
            Scalar::Null(k) => ScalarView::Null(*k),
            Scalar::Bool(b) => ScalarView::Bool(*b),
            Scalar::Int64(v) => ScalarView::Int64(*v),
            Scalar::Float64(b) => ScalarView::Float64(*b),
            Scalar::Utf8(s) => ScalarView::Utf8(s@),
        }
    }
}

pub open spec fn dtype_of(v: ScalarView) -> DType {
    match v {
        ScalarView::Null(_) => DType::Null,
        ScalarView::Bool(_) => DType::Bool,
        ScalarView::Int64(_) => DType::Int64,
        ScalarView::Float64(_) => DType::Float64,
        ScalarView::Utf8(_) => DType::Utf8,
    }
}

/// Any null, and a float NaN, are missing.
pub open spec fn is_missing(v: ScalarView) -> bool {
    match v {
        ScalarView::Null(_) => true,
        ScalarView::Float64(b) => f64_is_nan(b),
        _ => false,
    }
}

/// A NaN null, or a float NaN.
pub open spec fn is_nan(v: ScalarView) -> bool {
    match v {
        ScalarView::Null(NullKind::NaN) => true,
        ScalarView::Float64(b) => f64_is_nan(b),
        _ => false,
    }
}

/// The missing marker of a dtype.
pub open spec fn missing_for(d: DType) -> ScalarView {
    match d {
        DType::Float64 => ScalarView::Null(NullKind::NaN),
        _ => ScalarView::Null(NullKind::Null),
    }
}

/// IEEE equality of two doubles: NaN equals nothing, the two zeros are equal.
pub open spec fn float_eq(a: u64, b: u64) -> bool {
    !f64_is_nan(a) && !f64_is_nan(b) && (a == b || (f64_is_zero(a) && f64_is_zero(b)))
}

/// Ordinary equality: same variant and equal payload, doubles compared as IEEE values.
pub open spec fn scalar_eq(a: ScalarView, b: ScalarView) -> bool {
    match (a, b) {
        (ScalarView::Float64(x), ScalarView::Float64(y)) => float_eq(x, y),
        _ => a == b,
    }
}

/// Equality in which every NaN representation equals every other.
pub open spec fn semantic_eq(a: ScalarView, b: ScalarView) -> bool {
    match (a, b) {
        (ScalarView::Float64(x), ScalarView::Float64(y)) => (f64_is_nan(x) && f64_is_nan(y))
            || float_eq(x, y),
        (ScalarView::Null(NullKind::NaN), ScalarView::Float64(v)) => f64_is_nan(v),
        (ScalarView::Float64(v), ScalarView::Null(NullKind::NaN)) => f64_is_nan(v),
        _ => scalar_eq(a, b),
    }
}

impl Clone for Scalar {
    fn clone(&self) -> (r: Self)
        ensures
            r == *self,
    {
        match self {
            Scalar::Null(k) => Scalar::Null(*k),
            Scalar::Bool(b) => Scalar::Bool(*b),
            Scalar::Int64(v) => Scalar::Int64(*v),
            Scalar::Float64(b) => Scalar::Float64(*b),
            Scalar::Utf8(s) => Scalar::Utf8(s.clone()),
        }
    }
}

impl PartialEq for Scalar {
    fn eq(&self, other: &Scalar) -> (r: bool)
        ensures
            r == scalar_eq(self@, other@),
    {
        match (self, other) {
            (Scalar::Null(a), Scalar::Null(b)) => *a == *b,
            (Scalar::Bool(a), Scalar::Bool(b)) => *a == *b,
            (Scalar::Int64(a), Scalar::Int64(b)) => *a == *b,
            (Scalar::Float64(a), Scalar::Float64(b)) => float_equal(*a, *b),
            (Scalar::Utf8(a), Scalar::Utf8(b)) => a.eq(b),
            _ => false,
        }
    }
}

impl vstd::std_specs::cmp::PartialEqSpecImpl for Scalar {
    open spec fn obeys_eq_spec() -> bool {
        true
    }

    open spec fn eq_spec(&self, other: &Scalar) -> bool {
        scalar_eq(self@, other@)
    }
}

/// IEEE equality of two doubles given by their bits.
pub fn float_equal(a: u64, b: u64) -> (r: bool)
    ensures
        r == float_eq(a, b),
{
    !is_nan_bits(a) && !is_nan_bits(b) && (a == b || (is_zero_bits(a) && is_zero_bits(b)))
}

impl Scalar {
    pub fn dtype(&self) -> (r: DType)
        ensures
            r == dtype_of(self@),
    {
        match self {
            Scalar::Null(_) => DType::Null,
            Scalar::Bool(_) => DType::Bool,
            Scalar::Int64(_) => DType::Int64,
            Scalar::Float64(_) => DType::Float64,
            Scalar::Utf8(_) => DType::Utf8,
        }
    }

    pub fn is_missing(&self) -> (r: bool)
        ensures
            r == is_missing(self@),
    {
        match self {
            Scalar::Null(_) => true,
            Scalar::Float64(b) => is_nan_bits(*b),
            _ => false,
        }
    }

    pub fn is_nan(&self) -> (r: bool)
        ensures
            r == is_nan(self@),
    {
        match self {
            Scalar::Null(NullKind::NaN) => true,
            Scalar::Float64(b) => is_nan_bits(*b),
            _ => false,
        }
    }

    pub fn missing_for_dtype(dtype: DType) -> (r: Scalar)
        ensures
            r@ == missing_for(dtype),
    {
        match dtype {
            DType::Float64 => Scalar::Null(NullKind::NaN),
            _ => Scalar::Null(NullKind::Null),
        }
    }

    pub fn semantic_eq(&self, other: &Scalar) -> (r: bool)
        ensures
            r == semantic_eq(self@, other@),
    {
        match (self, other) {
            (Scalar::Float64(a), Scalar::Float64(b)) => (is_nan_bits(*a) && is_nan_bits(*b))
                || float_equal(*a, *b),
            (Scalar::Null(NullKind::NaN), Scalar::Float64(v)) => is_nan_bits(*v),
            (Scalar::Float64(v), Scalar::Null(NullKind::NaN)) => is_nan_bits(*v),
            _ => self.eq(other),
        }
    }
}

/// Errors of dtype promotion and casting.
#[allow(inconsistent_fields)]
#[derive(Debug, PartialEq)]
pub enum TypeError {
    IncompatibleDtypes { left: DType, right: DType },
    InvalidCast { from: DType, to: DType },
    /// A double, by its bits, that no `i64` holds exactly.
    LossyFloatToInt { value: u64 },
    InvalidBoolInt { value: i64 },
    /// A double, by its bits, other than 0 and 1.
    InvalidBoolFloat { value: u64 },
    NonNumericValue { value: String, dtype: DType },
    ValueIsMissing { kind: NullKind },
}

impl Clone for TypeError {
    fn clone(&self) -> (r: Self)
        ensures
            r == *self,
    {
        match self {
            TypeError::IncompatibleDtypes { left, right } => TypeError::IncompatibleDtypes {
                left: *left,
                right: *right,
            },
            TypeError::InvalidCast { from, to } => TypeError::InvalidCast { from: *from, to: *to },
            TypeError::LossyFloatToInt { value } => TypeError::LossyFloatToInt { value: *value },
            TypeError::InvalidBoolInt { value } => TypeError::InvalidBoolInt { value: *value },
            TypeError::InvalidBoolFloat { value } => TypeError::InvalidBoolFloat { value: *value },
            TypeError::NonNumericValue { value, dtype } => TypeError::NonNumericValue {
                value: value.clone(),
                dtype: *dtype,
            },
            TypeError::ValueIsMissing { kind } => TypeError::ValueIsMissing { kind: *kind },
        }
    }
}

pub fn dtype_name(d: DType) -> (r: &'static str) {
    match d {
        DType::Null => "Null",
        DType::Bool => "Bool",
        DType::Int64 => "Int64",
        DType::Float64 => "Float64",
        DType::Utf8 => "Utf8",
    }
}

pub fn null_kind_name(k: NullKind) -> (r: &'static str) {
    match k {
        NullKind::Null => "Null",
        NullKind::NaN => "NaN",
        NullKind::NaT => "NaT",
    }
}

impl TypeError {
    /// A description of the error for people.
    pub fn message(&self) -> String {
        match self {
            TypeError::IncompatibleDtypes { left, right } => {
                let s = "dtype coercion from ".to_string();
                let s = s.concat(dtype_name(*left));
                let s = s.concat(" to ");
                let s = s.concat(dtype_name(*right));
                s.concat(" has no compatible common type")
            },
            TypeError::InvalidCast { from, to } => {
                let s = "cannot cast scalar of dtype ".to_string();
                let s = s.concat(dtype_name(*from));
                let s = s.concat(" to ");
                s.concat(dtype_name(*to))
            },
            TypeError::LossyFloatToInt { value } => {
                let s = "cannot cast float with bits ".to_string();
                let s = s.concat(value.to_string().as_str());
                s.concat(" to int64 without loss")
            },
            TypeError::InvalidBoolInt { value } => {
                let s = "expected 0/1 for bool cast from int64 but found ".to_string();
                s.concat(value.to_string().as_str())
            },
            TypeError::InvalidBoolFloat { value } => {
                let s = "expected 0.0/1.0 for bool cast from float64 but found the float with bits ".to_string();
                s.concat(value.to_string().as_str())
            },
            TypeError::NonNumericValue { value, dtype } => {
                let s = "value \"".to_string();
                let s = s.concat(value.as_str());
                let s = s.concat("\" has non-numeric dtype ");
                s.concat(dtype_name(*dtype))
            },
            TypeError::ValueIsMissing { kind } => {
                let s = "value is missing (".to_string();
                let s = s.concat(null_kind_name(*kind));
                s.concat(")")
            },
        }
    }
}

/// The promotion lattice.
pub open spec fn common_dtype_spec(left: DType, right: DType) -> Result<DType, TypeError> {
    if left == right {
        Ok(left)
    } else if left == DType::Null {
        Ok(right)
    } else if right == DType::Null {
        Ok(left)
    } else {
        match (left, right) {
            (DType::Bool, DType::Int64) | (DType::Int64, DType::Bool) => Ok(DType::Int64),
            (DType::Bool, DType::Float64) | (DType::Float64, DType::Bool) => Ok(DType::Float64),
            (DType::Int64, DType::Float64) | (DType::Float64, DType::Int64) => Ok(DType::Float64),
            _ => Err(TypeError::IncompatibleDtypes { left, right }),
        }
    }
}

pub fn common_dtype(left: DType, right: DType) -> (r: Result<DType, TypeError>)
    ensures
        r == common_dtype_spec(left, right),
{
    if left == right {
        return Ok(left);
    }
    match (left, right) {
        (DType::Null, other) | (other, DType::Null) => Ok(other),
        (DType::Bool, DType::Int64) | (DType::Int64, DType::Bool) => Ok(DType::Int64),
        (DType::Bool, DType::Float64) | (DType::Float64, DType::Bool) => Ok(DType::Float64),
        (DType::Int64, DType::Float64) | (DType::Float64, DType::Int64) => Ok(DType::Float64),
        _ => Err(TypeError::IncompatibleDtypes { left, right }),
    }
}

/// The dtype of the first `n` values: promotion folded from `Null`.
pub open spec fn infer_prefix(values: Seq<ScalarView>, n: int) -> Result<DType, TypeError>
    decreases n,
{
    if n <= 0 {
        Ok(DType::Null)
    } else {
        match infer_prefix(values, n - 1) {
            Ok(d) => common_dtype_spec(d, dtype_of(values[n - 1])),
            Err(e) => Err(e),
        }
    }
}

pub open spec fn scalar_views(values: Seq<Scalar>) -> Seq<ScalarView> {
    values.map_values(|v: Scalar| v@)
}

proof fn lemma_infer_error_sticks(s: Seq<ScalarView>, k: int, n: int)
    requires
        0 <= k <= n,
        infer_prefix(s, k) is Err,
    ensures
        infer_prefix(s, n) == infer_prefix(s, k),
    decreases n - k,
{
    if n > k {
        lemma_infer_error_sticks(s, k, n - 1);
    }
}

pub fn infer_dtype(values: &[Scalar]) -> (r: Result<DType, TypeError>)
    ensures
        r == infer_prefix(scalar_views(values@), values@.len() as int),
{
    let ghost s = scalar_views(values@);
    let mut current = DType::Null;
    let mut i: usize = 0;
    while i < values.len()
        invariant
            s == scalar_views(values@),
            i <= values@.len(),
            infer_prefix(s, i as int) == Ok::<DType, TypeError>(current),
        decreases values@.len() - i,
    {
        assert(s[i as int] == values@[i as int]@);
        match common_dtype(current, values[i].dtype()) {
            Ok(d) => {
                current = d;
            },
            Err(e) => {
                proof {
                    lemma_infer_error_sticks(s, i + 1, values@.len() as int);
                }
                return Err(e);
            },
        }
        i = i + 1;
    }
    Ok(current)
}

/// The value `v` cast to `target`.
pub open spec fn cast_spec(v: ScalarView, target: DType) -> Result<ScalarView, TypeError> {
    let from = dtype_of(v);
    if v is Null {
        Ok(missing_for(target))
    } else if from == target {
        Ok(v)
    } else {
        match target {
            DType::Null => Ok(ScalarView::Null(NullKind::Null)),
            DType::Bool => match v {
                ScalarView::Int64(i) => if i == 0 {
                    Ok(ScalarView::Bool(false))
                } else if i == 1 {
                    Ok(ScalarView::Bool(true))
                } else {
                    Err(TypeError::InvalidBoolInt { value: i })
                },
                ScalarView::Float64(b) => if float_eq(b, 0) {
                    Ok(ScalarView::Bool(false))
                } else if float_eq(b, ONE_BITS) {
                    Ok(ScalarView::Bool(true))
                } else {
                    Err(TypeError::InvalidBoolFloat { value: b })
                },
                _ => Err(TypeError::InvalidCast { from, to: target }),
            },
            DType::Int64 => match v {
                ScalarView::Bool(b) => Ok(
                    ScalarView::Int64(
                        if b {
                            1
                        } else {
                            0
                        },
                    ),
                ),
                ScalarView::Float64(b) => match f64_int_value(b) {
                    Some(x) => if i64::MIN <= x <= i64::MAX {
                        Ok(ScalarView::Int64(x as i64))
                    } else {
                        Err(TypeError::LossyFloatToInt { value: b })
                    },
                    None => Err(TypeError::LossyFloatToInt { value: b }),
                },
                _ => Err(TypeError::InvalidCast { from, to: target }),
            },
            DType::Float64 => match v {
                ScalarView::Bool(b) => Ok(
                    ScalarView::Float64(
                        if b {
                            ONE_BITS
                        } else {
                            0
                        },
                    ),
                ),
                ScalarView::Int64(i) => Ok(ScalarView::Float64(f64_bits_of_int(i as int) as u64)),
                _ => Err(TypeError::InvalidCast { from, to: target }),
            },
            DType::Utf8 => Err(TypeError::InvalidCast { from, to: target }),
        }
    }
}

/// A cast result and its specification agree: equal values, or equal errors.
pub open spec fn cast_matches(r: Result<Scalar, TypeError>, s: Result<ScalarView, TypeError>) -> bool {
    match (r, s) {
        (Ok(x), Ok(y)) => x@ == y,
        (Err(e), Err(f)) => e == f,
        _ => false,
    }
}

pub fn cast_scalar(value: &Scalar, target: DType) -> (r: Result<Scalar, TypeError>)
    ensures
        cast_matches(r, cast_spec(value@, target)),
{
    let from = value.dtype();
    if let Scalar::Null(_) = value {
        return Ok(Scalar::missing_for_dtype(target));
    }
    if from == target {
        return Ok(value.clone());
    }
    match target {
        DType::Null => Ok(Scalar::Null(NullKind::Null)),
        DType::Bool => match value {
            Scalar::Int64(v) => {
                if *v == 0 {
                    Ok(Scalar::Bool(false))
                } else if *v == 1 {
                    Ok(Scalar::Bool(true))
                } else {
                    Err(TypeError::InvalidBoolInt { value: *v })
                }
            },
            Scalar::Float64(v) => {
                if float_equal(*v, 0) {
                    Ok(Scalar::Bool(false))
                } else if float_equal(*v, ONE_BITS) {
                    Ok(Scalar::Bool(true))
                } else {
                    Err(TypeError::InvalidBoolFloat { value: *v })
                }
            },
            _ => Err(TypeError::InvalidCast { from, to: target }),
        },
        DType::Int64 => match value {
            Scalar::Bool(v) => Ok(
                Scalar::Int64(
                    if *v {
                        1
                    } else {
                        0
                    },
                ),
            ),
            Scalar::Float64(v) => match f64_bits_to_i64(*v) {
                Some(i) => Ok(Scalar::Int64(i)),
                None => Err(TypeError::LossyFloatToInt { value: *v }),
            },
            _ => Err(TypeError::InvalidCast { from, to: target }),
        },
        DType::Float64 => match value {
            Scalar::Bool(v) => Ok(
                Scalar::Float64(
                    if *v {
                        ONE_BITS
                    } else {
                        0
                    },
                ),
            ),
            Scalar::Int64(v) => Ok(Scalar::Float64(i64_to_f64_bits(*v))),
            _ => Err(TypeError::InvalidCast { from, to: target }),
        },
        DType::Utf8 => Err(TypeError::InvalidCast { from, to: target }),
    }
}

} // verus!
