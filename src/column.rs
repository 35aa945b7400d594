use vstd::prelude::*;

use crate::types::{
    cast_scalar, cast_spec, common_dtype, common_dtype_spec, dtype_of, infer_dtype, infer_prefix,
    is_missing, is_nan, missing_for, scalar_eq, scalar_views, semantic_eq, DType, NullKind, Scalar,
    ScalarView, TypeError,
};

verus! {

/// One flag per value: true where the value is present.
#[derive(Debug)]
pub struct ValidityMask {
    bits: Vec<bool>,
}

impl View for ValidityMask {
    type V = Seq<bool>;

    closed spec fn view(&self) -> Seq<bool> {
        self.bits@
    }
}

/// The validity flags of a value sequence.
pub open spec fn validity_of(values: Seq<ScalarView>) -> Seq<bool> {
    values.map_values(|v: ScalarView| !is_missing(v))
}

impl ValidityMask {
    pub fn from_values(values: &[Scalar]) -> (r: ValidityMask)
        ensures
            r@ == validity_of(scalar_views(values@)),
    {
        let ghost s = scalar_views(values@);
        let mut bits: Vec<bool> = Vec::new();
        let mut i: usize = 0;
        while i < values.len()
            invariant
                s == scalar_views(values@),
                i <= values@.len(),
                bits@ == validity_of(s).take(i as int),
            decreases values@.len() - i,
        {
            assert(s[i as int] == values@[i as int]@);
            bits.push(!values[i].is_missing());
            assert(bits@ =~= validity_of(s).take(i + 1));
            i = i + 1;
        }
        assert(validity_of(s).take(values@.len() as int) =~= validity_of(s));
        ValidityMask { bits }
    }

    pub fn duplicate(&self) -> (r: ValidityMask)
        ensures
            r@ == self@,
    {
        ValidityMask { bits: self.bits.clone() }
    }

    pub fn bits(&self) -> (r: &[bool])
        ensures
            r@ == self@,
    {
        self.bits.as_slice()
    }
}

/// A column value fits the dtype: a value of that dtype, or the dtype's missing marker.
pub open spec fn conforms(v: ScalarView, d: DType) -> bool {
    if v is Null {
        v == missing_for(d)
    } else {
        dtype_of(v) == d
    }
}

/// A typed, fixed-length vector of values with its validity mask.
#[derive(Debug)]
pub struct Column {
    dtype: DType,
    values: Vec<Scalar>,
    validity: ValidityMask,
}

#[derive(Clone, Copy, Debug, PartialEq, Eq, Structural)]
pub enum ArithmeticOp {
    Add,
    Sub,
    Mul,
    Div,
}

#[derive(Debug)]
pub enum ColumnError {
    LengthMismatch { left: usize, right: usize },
    Type(TypeError),
}

impl ColumnError {
    pub fn message(&self) -> String {
        match self {
            ColumnError::LengthMismatch { left, right } => {
                let s = "column length mismatch: left=".to_string();
                let s = s.concat(left.to_string().as_str());
                let s = s.concat(", right=");
                s.concat(right.to_string().as_str())
            },
            ColumnError::Type(e) => e.message(),
        }
    }
}

impl View for Column {
    type V = Seq<ScalarView>;

    closed spec fn view(&self) -> Seq<ScalarView> {
        scalar_views(self.values@)
    }
}

/// Every value cast to `d`, when all casts succeed.
pub open spec fn all_cast_ok(values: Seq<ScalarView>, d: DType) -> bool {
    forall|i: int| 0 <= i < values.len() ==> (#[trigger] cast_spec(values[i], d)) is Ok
}

/// `e` is the error of the first value of `values` that does not cast to `d`.
pub open spec fn first_cast_error(values: Seq<ScalarView>, d: DType, e: TypeError) -> bool {
    exists|i: int|
        0 <= i < values.len() && cast_spec(values[i], d) == Err::<ScalarView, TypeError>(e) && all_cast_ok(
            values.take(i),
            d,
        )
}

/// The values taken at `positions`: the source value in bounds, the missing marker elsewhere.
pub open spec fn reindexed(
    values: Seq<ScalarView>,
    d: DType,
    positions: Seq<Option<usize>>,
) -> Seq<ScalarView> {
    Seq::new(
        positions.len(),
        |k: int|
            match positions[k] {
                Some(i) => if i < values.len() {
                    values[i as int]
                } else {
                    missing_for(d)
                },
                None => missing_for(d),
            },
    )
}

/// Reindexing by the identity positions `[Some(0), Some(1), ...]` gives back the values.
pub proof fn lemma_identity_reindex(
    values: Seq<ScalarView>,
    d: DType,
    positions: Seq<Option<usize>>,
)
    requires
        positions.len() == values.len(),
        values.len() <= usize::MAX,
        forall|k: int| 0 <= k < positions.len() ==> #[trigger] positions[k] == Some(k as usize),
    ensures
        reindexed(values, d, positions) == values,
{
    assert(reindexed(values, d, positions) =~= values);
}

/// `a` sits below `d` in the promotion lattice.
pub open spec fn promotes_to(a: DType, d: DType) -> bool {
    common_dtype_spec(a, d) == Ok::<DType, TypeError>(d)
}

proof fn lemma_promotes_step(a: DType, b: DType, c: DType, d: DType)
    requires
        promotes_to(a, b),
        common_dtype_spec(b, c) == Ok::<DType, TypeError>(d),
    ensures
        promotes_to(a, d),
        promotes_to(c, d),
{
}

/// Every value promotes to the dtype inferred for the values.
proof fn lemma_infer_bounds(values: Seq<ScalarView>, n: int)
    requires
        0 <= n <= values.len(),
        infer_prefix(values, n) is Ok,
    ensures
        forall|i: int|
            0 <= i < n ==> promotes_to(dtype_of(#[trigger] values[i]), infer_prefix(values, n)->Ok_0),
        promotes_to(DType::Null, infer_prefix(values, n)->Ok_0),
    decreases n,
{
    if n > 0 {
        lemma_infer_bounds(values, n - 1);
        let b = infer_prefix(values, n - 1)->Ok_0;
        let d = infer_prefix(values, n)->Ok_0;
        lemma_promotes_step(DType::Null, b, dtype_of(values[n - 1]), d);
        assert forall|i: int| 0 <= i < n implies promotes_to(
            dtype_of(#[trigger] values[i]),
            d,
        ) by {
            if i < n - 1 {
                lemma_promotes_step(dtype_of(values[i]), b, dtype_of(values[n - 1]), d);
            } else {
                lemma_promotes_step(DType::Null, b, dtype_of(values[n - 1]), d);
            }
        }
    }
}

/// A value casts to every dtype it promotes to.
proof fn lemma_promoted_cast(v: ScalarView, d: DType)
    requires
        promotes_to(dtype_of(v), d),
    ensures
        cast_spec(v, d) is Ok,
{
}

/// Casting values to their inferred dtype never fails.
pub proof fn lemma_inferred_casts_succeed(values: Seq<ScalarView>)
    requires
        infer_prefix(values, values.len() as int) is Ok,
    ensures
        all_cast_ok(values, infer_prefix(values, values.len() as int)->Ok_0),
{
    lemma_infer_bounds(values, values.len() as int);
    let d = infer_prefix(values, values.len() as int)->Ok_0;
    assert forall|i: int| 0 <= i < values.len() implies (#[trigger] cast_spec(values[i], d)) is Ok by {
        lemma_promoted_cast(values[i], d);
    }
}

pub proof fn lemma_cast_conforms(v: ScalarView, d: DType)
    ensures
        cast_spec(v, d) matches Ok(x) ==> conforms(x, d),
        conforms(v, d) ==> cast_spec(v, d) == Ok::<ScalarView, TypeError>(v),
{
}

impl Column {
    #[verifier::type_invariant]
    spec fn inv(&self) -> bool {
        &&& self.validity@ == validity_of(self@)
        &&& forall|i: int| 0 <= i < self@.len() ==> conforms(#[trigger] self@[i], self.dtype)
    }

    /// The column's dtype.
    pub closed spec fn spec_dtype(&self) -> DType {
        self.dtype
    }

    /// Builds a column of `dtype`, casting every value to it; the first failing cast is the error.
    pub fn new(dtype: DType, values: Vec<Scalar>) -> (r: Result<Column, ColumnError>)
        ensures
            match r {
                Ok(c) => {
                    &&& all_cast_ok(scalar_views(values@), dtype)
                    &&& c.spec_dtype() == dtype
                    &&& c@.len() == values@.len()
                    &&& forall|i: int|
                        0 <= i < values@.len() ==> Ok::<ScalarView, TypeError>(#[trigger] c@[i])
                            == cast_spec(values@[i]@, dtype)
                },
                Err(ColumnError::Type(e)) => first_cast_error(scalar_views(values@), dtype, e),
                Err(ColumnError::LengthMismatch { .. }) => false,
            },
    {
        let ghost s = scalar_views(values@);
        let mut out: Vec<Scalar> = Vec::new();
        let mut i: usize = 0;
        while i < values.len()
            invariant
                s == scalar_views(values@),
                i <= values@.len(),
                out@.len() == i,
                all_cast_ok(s.take(i as int), dtype),
                forall|k: int|
                    0 <= k < i ==> Ok::<ScalarView, TypeError>(#[trigger] out@[k]@) == cast_spec(
                        s[k],
                        dtype,
                    ) && conforms(out@[k]@, dtype),
            decreases values@.len() - i,
        {
            assert(s[i as int] == values@[i as int]@);
            match cast_scalar(&values[i], dtype) {
                Ok(v) => {
                    proof {
                        lemma_cast_conforms(s[i as int], dtype);
                        assert forall|k: int| 0 <= k < i + 1 implies (#[trigger] cast_spec(
                            s.take(i + 1)[k],
                            dtype,
                        )) is Ok by {
                            if k < i {
                                assert(s.take(i as int)[k] == s.take(i + 1)[k]);
                            }
                        }
                    }
                    out.push(v);
                },
                Err(e) => {
                    proof {
                        assert(first_cast_error(s, dtype, e));
                    }
                    return Err(ColumnError::Type(e));
                },
            }
            i = i + 1;
        }
        proof {
            assert(s.take(values@.len() as int) =~= s);
        }
        let validity = ValidityMask::from_values(out.as_slice());
        proof {
            assert(scalar_views(out@) =~= scalar_views(out@));
            assert forall|k: int| 0 <= k < out@.len() implies conforms(
                #[trigger] scalar_views(out@)[k],
                dtype,
            ) by {}
        }
        let c = Column { dtype, values: out, validity };
        proof {
            assert forall|k: int| 0 <= k < values@.len() implies Ok::<ScalarView, TypeError>(
                #[trigger] c@[k],
            ) == cast_spec(values@[k]@, dtype) by {
                assert(c@[k] == out@[k]@);
            }
        }
        Ok(c)
    }

    /// Builds a column of the dtype inferred from the values.
    pub fn from_values(values: Vec<Scalar>) -> (r: Result<Column, ColumnError>)
        ensures
            r is Ok <==> infer_prefix(scalar_views(values@), values@.len() as int) is Ok,
            match infer_prefix(scalar_views(values@), values@.len() as int) {
                Err(e) => r matches Err(ColumnError::Type(f)) && f == e,
                Ok(d) => match r {
                    Ok(c) => {
                        &&& all_cast_ok(scalar_views(values@), d)
                        &&& c.spec_dtype() == d
                        &&& c@.len() == values@.len()
                        &&& forall|i: int|
                            0 <= i < values@.len() ==> Ok::<ScalarView, TypeError>(
                                #[trigger] c@[i],
                            ) == cast_spec(values@[i]@, d)
                    },
                    Err(ColumnError::Type(e)) => first_cast_error(scalar_views(values@), d, e),
                    Err(ColumnError::LengthMismatch { .. }) => false,
                },
            },
    {
        let dtype = match infer_dtype(values.as_slice()) {
            Ok(d) => d,
            Err(e) => {
                return Err(ColumnError::Type(e));
            },
        };
        proof {
            lemma_inferred_casts_succeed(scalar_views(values@));
        }
        Column::new(dtype, values)
    }

    pub fn dtype(&self) -> (r: DType)
        ensures
            r == self.spec_dtype(),
    {
        self.dtype
    }

    pub fn len(&self) -> (r: usize)
        ensures
            r == self@.len(),
    {
        self.values.len()
    }

    pub fn is_empty(&self) -> (r: bool)
        ensures
            r == (self@.len() == 0),
    {
        self.values.len() == 0
    }

    pub fn values(&self) -> (r: &[Scalar])
        ensures
            scalar_views(r@) == self@,
    {
        self.values.as_slice()
    }

    pub fn value(&self, idx: usize) -> (r: Option<&Scalar>)
        ensures
            match r {
                Some(v) => idx < self@.len() && v@ == self@[idx as int],
                None => idx >= self@.len(),
            },
    {
        if idx < self.values.len() {
            Some(&self.values[idx])
        } else {
            None
        }
    }

    pub fn validity(&self) -> (r: &ValidityMask)
        ensures
            r@ == validity_of(self@),
    {
        proof {
            use_type_invariant(self);
        }
        &self.validity
    }

    /// A new column whose row `k` is the value at `positions[k]`, or the missing
    /// marker where that is `None` or out of bounds.
    pub fn reindex_by_positions(&self, positions: &[Option<usize>]) -> (r: Result<
        Column,
        ColumnError,
    >)
        ensures
            r matches Ok(c) && c.spec_dtype() == self.spec_dtype() && c@ == reindexed(
                self@,
                self.spec_dtype(),
                positions@,
            ),
    {
        proof {
            use_type_invariant(self);
        }
        let ghost want = reindexed(self@, self.dtype, positions@);
        let mut out: Vec<Scalar> = Vec::new();
        let mut k: usize = 0;
        while k < positions.len()
            invariant
                want == reindexed(self@, self.dtype, positions@),
                forall|i: int| 0 <= i < self@.len() ==> conforms(#[trigger] self@[i], self.dtype),
                k <= positions@.len(),
                out@.len() == k,
                forall|m: int| 0 <= m < k ==> (#[trigger] out@[m])@ == want[m],
            decreases positions@.len() - k,
        {
            let v = match positions[k] {
                Some(i) => {
                    if i < self.values.len() {
                        assert(self@[i as int] == self.values@[i as int]@);
                        self.values[i].clone()
                    } else {
                        Scalar::missing_for_dtype(self.dtype)
                    }
                },
                None => Scalar::missing_for_dtype(self.dtype),
            };
            out.push(v);
            k = k + 1;
        }
        proof {
            assert forall|m: int| 0 <= m < out@.len() implies cast_spec(
                #[trigger] scalar_views(out@)[m],
                self.dtype,
            ) is Ok by {
                lemma_cast_conforms(want[m], self.dtype);
            }
            assert forall|m: int| 0 <= m < out@.len() implies cast_spec(
                #[trigger] out@[m]@,
                self.dtype,
            ) == Ok::<ScalarView, TypeError>(want[m]) by {
                lemma_cast_conforms(want[m], self.dtype);
            }
        }
        let ghost before = out@;
        let r = Column::new(self.dtype, out);
        match r {
            Ok(c) => {
                proof {
                    assert(c@ =~= want) by {
                        assert forall|m: int| 0 <= m < want.len() implies c@[m] == want[m] by {
                            assert(Ok::<ScalarView, TypeError>(c@[m]) == cast_spec(
                                before[m]@,
                                self.dtype,
                            ));
                        }
                    }
                }
                Ok(c)
            },
            Err(e) => {
                proof {
                    assert(all_cast_ok(scalar_views(before), self.dtype));
                }
                Err(e)
            },
        }
    }

    /// Same dtype and pairwise equal values (doubles compared as IEEE values).
    pub open spec fn same_spec(&self, other: &Column) -> bool {
        &&& self.spec_dtype() == other.spec_dtype()
        &&& self@.len() == other@.len()
        &&& forall|i: int| 0 <= i < self@.len() ==> scalar_eq(#[trigger] self@[i], other@[i])
    }

    pub fn same_as(&self, other: &Column) -> (r: bool)
        ensures
            r == self.same_spec(other),
    {
        if self.dtype != other.dtype || self.values.len() != other.values.len() {
            return false;
        }
        let mut i: usize = 0;
        while i < self.values.len()
            invariant
                i <= self@.len(),
                self@.len() == other@.len(),
                forall|k: int| 0 <= k < i ==> scalar_eq(#[trigger] self@[k], other@[k]),
            decreases self@.len() - i,
        {
            assert(self@[i as int] == self.values@[i as int]@);
            assert(other@[i as int] == other.values@[i as int]@);
            if !self.values[i].eq(&other.values[i]) {
                return false;
            }
            i = i + 1;
        }
        true
    }

    /// Same dtype, same length, and values equal with every NaN equal to every other.
    pub fn semantic_eq(&self, other: &Column) -> (r: bool)
        ensures
            r == (self.spec_dtype() == other.spec_dtype() && self@.len() == other@.len() && forall|
                i: int,
            |
                0 <= i < self@.len() ==> semantic_eq(#[trigger] self@[i], other@[i])),
    {
        if self.dtype != other.dtype || self.values.len() != other.values.len() {
            return false;
        }
        let mut i: usize = 0;
        while i < self.values.len()
            invariant
                i <= self@.len(),
                self@.len() == other@.len(),
                forall|k: int| 0 <= k < i ==> semantic_eq(#[trigger] self@[k], other@[k]),
            decreases self@.len() - i,
        {
            assert(self@[i as int] == self.values@[i as int]@);
            assert(other@[i as int] == other.values@[i as int]@);
            if !self.values[i].semantic_eq(&other.values[i]) {
                return false;
            }
            i = i + 1;
        }
        true
    }
}

impl PartialEq for Column {
    fn eq(&self, other: &Column) -> (r: bool)
        ensures
            r == self.same_spec(other),
    {
        self.same_as(other)
    }
}

impl vstd::std_specs::cmp::PartialEqSpecImpl for Column {
    open spec fn obeys_eq_spec() -> bool {
        true
    }

    open spec fn eq_spec(&self, other: &Column) -> bool {
        self.same_spec(other)
    }
}

impl Clone for Column {
    fn clone(&self) -> (r: Self)
        ensures
            r@ == self@,
            r.spec_dtype() == self.spec_dtype(),
    {
        proof {
            use_type_invariant(self);
        }
        let mut values: Vec<Scalar> = Vec::new();
        let mut i: usize = 0;
        while i < self.values.len()
            invariant
                i <= self.values@.len(),
                values@.len() == i,
                forall|k: int| 0 <= k < i ==> values@[k] == self.values@[k],
            decreases self.values@.len() - i,
        {
            values.push(self.values[i].clone());
            i = i + 1;
        }
        proof {
            assert(scalar_views(values@) =~= scalar_views(self.values@));
        }
        let validity = self.validity.duplicate();
        Column { dtype: self.dtype, values, validity }
    }
}

/// A row of an arithmetic result before the arithmetic: a fill value, or a row to compute.
#[derive(Debug)]
pub enum CellPlan {
    Fill(Scalar),
    Compute,
}

/// What `binary_numeric_plan` decides for a row.
pub enum CellSpec {
    Fill(ScalarView),
    Compute,
    NonNumeric(Seq<char>),
}

/// The rows of an arithmetic result: its dtype and, row by row, a fill value or a computation.
#[derive(Debug)]
pub struct NumericPlan {
    pub out_dtype: DType,
    pub cells: Vec<CellPlan>,
}

/// The dtype of an arithmetic result: booleans promote to integers, division gives floats.
pub open spec fn arithmetic_dtype(common: DType, op: ArithmeticOp) -> DType {
    if op == ArithmeticOp::Div {
        DType::Float64
    } else if common == DType::Bool {
        DType::Int64
    } else {
        common
    }
}

/// A missing operand gives a missing result (a NaN null where either side is NaN); a
/// string operand cannot be computed.
pub open spec fn cell_spec(a: ScalarView, b: ScalarView, out: DType) -> CellSpec {
    if is_missing(a) || is_missing(b) {
        CellSpec::Fill(
            if is_nan(a) || is_nan(b) {
                ScalarView::Null(NullKind::NaN)
            } else {
                missing_for(out)
            },
        )
    } else if a is Utf8 {
        CellSpec::NonNumeric(a->Utf8_0)
    } else if b is Utf8 {
        CellSpec::NonNumeric(b->Utf8_0)
    } else {
        CellSpec::Compute
    }
}

pub open spec fn cell_matches(c: CellPlan, s: CellSpec) -> bool {
    match (c, s) {
        (CellPlan::Fill(v), CellSpec::Fill(w)) => v@ == w,
        (CellPlan::Compute, CellSpec::Compute) => true,
        _ => false,
    }
}

/// Arithmetic never turns a missing operand into a present value: the row is filled
/// with a missing value, and building the result column keeps it missing.
pub proof fn lemma_missing_operand_gives_missing(a: ScalarView, b: ScalarView, out: DType)
    requires
        is_missing(a) || is_missing(b),
    ensures
        cell_spec(a, b, out) is Fill,
        is_missing(cell_spec(a, b, out)->Fill_0),
        cast_spec(cell_spec(a, b, out)->Fill_0, out) is Ok,
        is_missing(cast_spec(cell_spec(a, b, out)->Fill_0, out)->Ok_0),
{
}

impl Column {
    /// Plans `self op right` row by row: the dtype of the result, and which rows are
    /// missing and which are to be computed. The arithmetic itself is on doubles.
    pub fn binary_numeric_plan(&self, right: &Column, op: ArithmeticOp) -> (r: Result<
        NumericPlan,
        ColumnError,
    >)
        ensures
            self@.len() != right@.len() ==> (r matches Err(ColumnError::LengthMismatch { left, right: rl })
                && left == self@.len() && rl == right@.len()),
            self@.len() == right@.len() ==> match common_dtype_spec(
                self.spec_dtype(),
                right.spec_dtype(),
            ) {
                Err(e) => r matches Err(ColumnError::Type(f)) && f == e,
                Ok(c) => {
                    let out = arithmetic_dtype(c, op);
                    match r {
                        Ok(p) => {
                            &&& p.out_dtype == out
                            &&& p.cells@.len() == self@.len()
                            &&& forall|k: int|
                                0 <= k < self@.len() ==> cell_matches(
                                    #[trigger] p.cells@[k],
                                    cell_spec(self@[k], right@[k], out),
                                )
                        },
                        Err(ColumnError::Type(TypeError::NonNumericValue { value, dtype })) => {
                            &&& dtype == DType::Utf8
                            &&& exists|k: int|
                                0 <= k < self@.len() && cell_spec(self@[k], right@[k], out)
                                    == CellSpec::NonNumeric(value@) && forall|j: int|
                                    0 <= j < k ==> !(cell_spec(self@[j], right@[j], out) is NonNumeric)
                        },
                        _ => false,
                    }
                },
            },
    {
        if self.values.len() != right.values.len() {
            return Err(ColumnError::LengthMismatch { left: self.values.len(), right: right.values.len() });
        }
        let common = match common_dtype(self.dtype, right.dtype) {
            Ok(d) => d,
            Err(e) => {
                return Err(ColumnError::Type(e));
            },
        };
        let out_dtype = if let ArithmeticOp::Div = op {
            DType::Float64
        } else if let DType::Bool = common {
            DType::Int64
        } else {
            common
        };
        let ghost l = self@;
        let ghost rv = right@;
        let mut cells: Vec<CellPlan> = Vec::new();
        let mut k: usize = 0;
        while k < self.values.len()
            invariant
                l == self@,
                rv == right@,
                l.len() == rv.len(),
                out_dtype == arithmetic_dtype(common, op),
                common_dtype_spec(self.spec_dtype(), right.spec_dtype()) == Ok::<DType, TypeError>(
                    common,
                ),
                k <= l.len(),
                cells@.len() == k,
                forall|m: int|
                    0 <= m < k ==> cell_matches(#[trigger] cells@[m], cell_spec(l[m], rv[m], out_dtype)),
                forall|m: int| 0 <= m < k ==> !(#[trigger] cell_spec(l[m], rv[m], out_dtype) is NonNumeric),
            decreases l.len() - k,
        {
            let a = &self.values[k];
            let b = &right.values[k];
            assert(l[k as int] == a@);
            assert(rv[k as int] == b@);
            if a.is_missing() || b.is_missing() {
                let fill = if a.is_nan() || b.is_nan() {
                    Scalar::Null(NullKind::NaN)
                } else {
                    Scalar::missing_for_dtype(out_dtype)
                };
                cells.push(CellPlan::Fill(fill));
            } else {
                match (a, b) {
                    (Scalar::Utf8(s), _) | (_, Scalar::Utf8(s)) => {
                        let value = s.clone();
                        proof {
                            assert(cell_spec(l[k as int], rv[k as int], out_dtype)
                                == CellSpec::NonNumeric(value@));
                            assert(exists|j: int|
                                0 <= j < l.len() && cell_spec(l[j], rv[j], out_dtype)
                                    == CellSpec::NonNumeric(value@) && forall|i: int|
                                    0 <= i < j ==> !(cell_spec(l[i], rv[i], out_dtype) is NonNumeric));
                        }
                        return Err(
                            ColumnError::Type(TypeError::NonNumericValue { value, dtype: DType::Utf8 }),
                        );
                    },
                    _ => {
                        cells.push(CellPlan::Compute);
                    },
                }
            }
            k = k + 1;
        }
        Ok(NumericPlan { out_dtype, cells })
    }
}

} // verus!
