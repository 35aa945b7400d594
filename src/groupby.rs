use vstd::prelude::*;

use crate::align::{align_union, right_only, IndexError};
use crate::column::{reindexed, Column, ColumnError};
use crate::float_bits::{f64_is_nan, is_nan_bits};
use crate::frame::{FrameError, Series};
use crate::groups::{
    distinct_prefix, first_index, key_views, lemma_distinct_prefix, lemma_first_index,
    lemma_occurrences, occurrences, Groups, KeyEq,
};
use crate::index::has_repeat;
use crate::label::{IndexLabel, LabelView};
use crate::types::{is_missing, scalar_views, Scalar, ScalarView};

verus! {

/// Whether rows with a missing key are dropped (otherwise they form a group of their own).
#[derive(Debug, Clone, Copy, PartialEq, Eq, Structural)]
pub struct GroupByOptions {
    pub dropna: bool,
}

impl Default for GroupByOptions {
    fn default() -> (r: Self)
        ensures
            r.dropna,
    {
        GroupByOptions { dropna: true }
    }
}

#[derive(Debug)]
pub enum GroupByError {
    Frame(FrameError),
    Index(IndexError),
    Column(ColumnError),
}

/// The identity of a group: a key value, with every missing value (any null, any NaN)
/// folded into one group.
#[derive(Debug)]
pub enum GroupKey {
    Bool(bool),
    Int64(i64),
    FloatBits(u64),
    Utf8(String),
    Missing,
}

pub enum GroupKeyView {
    Bool(bool),
    Int64(i64),
    FloatBits(u64),
    Utf8(Seq<char>),
    Missing,
}

impl View for GroupKey {
    type V = GroupKeyView;

    open spec fn view(&self) -> GroupKeyView {
        match self {
            GroupKey::Bool(b) => GroupKeyView::Bool(*b),
            GroupKey::Int64(v) => GroupKeyView::Int64(*v),
            GroupKey::FloatBits(b) => GroupKeyView::FloatBits(*b),
            GroupKey::Utf8(s) => GroupKeyView::Utf8(s@),
            GroupKey::Missing => GroupKeyView::Missing,
        }
    }
}

impl KeyEq for GroupKey {
    fn key_eq(&self, other: &Self) -> (r: bool) {
        match (self, other) {
            (GroupKey::Bool(a), GroupKey::Bool(b)) => *a == *b,
            (GroupKey::Int64(a), GroupKey::Int64(b)) => *a == *b,
            (GroupKey::FloatBits(a), GroupKey::FloatBits(b)) => *a == *b,
            (GroupKey::Utf8(a), GroupKey::Utf8(b)) => a.eq(b),
            (GroupKey::Missing, GroupKey::Missing) => true,
            _ => false,
        }
    }

    fn key_clone(&self) -> (r: Self) {
        match self {
            GroupKey::Bool(b) => GroupKey::Bool(*b),
            GroupKey::Int64(v) => GroupKey::Int64(*v),
            GroupKey::FloatBits(b) => GroupKey::FloatBits(*b),
            GroupKey::Utf8(s) => GroupKey::Utf8(s.clone()),
            GroupKey::Missing => GroupKey::Missing,
        }
    }
}

/// The group of a key value.
pub open spec fn key_of(v: ScalarView) -> GroupKeyView {
    match v {
        ScalarView::Bool(b) => GroupKeyView::Bool(b),
        ScalarView::Int64(x) => GroupKeyView::Int64(x),
        ScalarView::Float64(b) => if f64_is_nan(b) {
            GroupKeyView::Missing
        } else {
            GroupKeyView::FloatBits(b)
        },
        ScalarView::Utf8(s) => GroupKeyView::Utf8(s),
        ScalarView::Null(_) => GroupKeyView::Missing,
    }
}

fn group_key(v: &Scalar) -> (r: GroupKey)
    ensures
        r@ == key_of(v@),
{
    match v {
        Scalar::Bool(b) => GroupKey::Bool(*b),
        Scalar::Int64(x) => GroupKey::Int64(*x),
        Scalar::Float64(b) => if is_nan_bits(*b) {
            GroupKey::Missing
        } else {
            GroupKey::FloatBits(*b)
        },
        Scalar::Utf8(s) => GroupKey::Utf8(s.clone()),
        Scalar::Null(_) => GroupKey::Missing,
    }
}

/// The rows among the first `n` whose key takes part in the grouping.
pub open spec fn kept_rows(ks: Seq<ScalarView>, dropna: bool, n: int) -> Seq<usize>
    decreases n,
{
    if n <= 0 {
        Seq::empty()
    } else if dropna && is_missing(ks[n - 1]) {
        kept_rows(ks, dropna, n - 1)
    } else {
        kept_rows(ks, dropna, n - 1).push((n - 1) as usize)
    }
}

/// The group of each kept row, in row order.
pub open spec fn kept_keys(ks: Seq<ScalarView>, dropna: bool) -> Seq<GroupKeyView> {
    kept_rows(ks, dropna, ks.len() as int).map_values(|i: usize| key_of(ks[i as int]))
}

/// The rows of group `g`, in row order.
pub open spec fn group_rows(ks: Seq<ScalarView>, dropna: bool, g: GroupKeyView) -> Seq<usize> {
    let kr = kept_rows(ks, dropna, ks.len() as int);
    occurrences(kept_keys(ks, dropna), g, kr.len() as int).map_values(|p: usize| kr[p as int])
}

/// A value adds to its group's sum: it is present and numeric.
pub open spec fn contributes(v: ScalarView) -> bool {
    !is_missing(v) && (v is Bool || v is Int64 || v is Float64)
}

/// The first `n` of `rows` whose value contributes.
pub open spec fn contributing(rows: Seq<usize>, vs: Seq<ScalarView>, n: int) -> Seq<usize>
    decreases n,
{
    if n <= 0 {
        Seq::empty()
    } else if contributes(vs[rows[n - 1] as int]) {
        contributing(rows, vs, n - 1).push(rows[n - 1])
    } else {
        contributing(rows, vs, n - 1)
    }
}

/// The groups of `ks` in order of first appearance: each with its first key value and the
/// rows whose values add to its sum.
pub open spec fn is_group_plan(
    keys: Seq<ScalarView>,
    members: Seq<Seq<usize>>,
    ks: Seq<ScalarView>,
    vs: Seq<ScalarView>,
    dropna: bool,
) -> bool {
    let kk = kept_keys(ks, dropna);
    let d = distinct_prefix(kk, kk.len() as int);
    &&& keys.len() == d.len()
    &&& members.len() == d.len()
    &&& forall|g: int|
        0 <= g < d.len() ==> {
            let rows = group_rows(ks, dropna, d[g]);
            &&& key_of(#[trigger] keys[g]) == d[g]
            &&& rows.len() > 0
            &&& keys[g] == ks[rows[0] as int]
            &&& members[g] == contributing(rows, vs, rows.len() as int)
        }
}

/// The result of a group-by before summation: the groups' first keys, the rows that
/// add to each sum, and the aligned values those rows index.
#[derive(Debug)]
pub struct GroupSumPlan {
    pub keys: Vec<Scalar>,
    pub members: Vec<Vec<usize>>,
    pub values: Column,
}

pub open spec fn member_views(m: Seq<Vec<usize>>) -> Seq<Seq<usize>> {
    m.map_values(|v: Vec<usize>| v@)
}

proof fn lemma_kept_rows(ks: Seq<ScalarView>, dropna: bool, n: int)
    requires
        0 <= n <= ks.len(),
        ks.len() <= usize::MAX,
    ensures
        kept_rows(ks, dropna, n).len() <= n,
        forall|k: int|
            0 <= k < kept_rows(ks, dropna, n).len() ==> #[trigger] kept_rows(ks, dropna, n)[k] < n,
    decreases n,
{
    if n > 0 {
        lemma_kept_rows(ks, dropna, n - 1);
    }
}

/// The kept rows and their group keys.
fn collect_kept(keys: &[Scalar], dropna: bool) -> (r: (Vec<usize>, Vec<GroupKey>))
    ensures
        r.0@ == kept_rows(scalar_views(keys@), dropna, keys@.len() as int),
        key_views(r.1@) == kept_keys(scalar_views(keys@), dropna),
{
    let ghost ks = scalar_views(keys@);
    let mut rows: Vec<usize> = Vec::new();
    let mut gkeys: Vec<GroupKey> = Vec::new();
    let mut i: usize = 0;
    while i < keys.len()
        invariant
            ks == scalar_views(keys@),
            i <= keys@.len(),
            rows@ == kept_rows(ks, dropna, i as int),
            key_views(gkeys@) == kept_rows(ks, dropna, i as int).map_values(
                |j: usize| key_of(ks[j as int]),
            ),
        decreases keys@.len() - i,
    {
        assert(ks[i as int] == keys@[i as int]@);
        if !(dropna && keys[i].is_missing()) {
            let ghost before = gkeys@;
            rows.push(i);
            gkeys.push(group_key(&keys[i]));
            proof {
                assert(key_views(gkeys@) =~= key_views(before).push(key_of(ks[i as int])));
                assert(kept_rows(ks, dropna, i + 1).map_values(|j: usize| key_of(ks[j as int]))
                    =~= kept_rows(ks, dropna, i as int).map_values(|j: usize| key_of(ks[j as int])).push(
                    key_of(ks[i as int]),
                ));
            }
        }
        i = i + 1;
    }
    (rows, gkeys)
}

pub const DENSE_KEY_SPAN_LIMIT: i128 = 65536;

/// Every integer key lies in `lo..=hi`.
pub open spec fn keys_within(s: Seq<GroupKeyView>, lo: int, hi: int) -> bool {
    forall|j: int| 0 <= j < s.len() ==> lo <= (#[trigger] s[j])->Int64_0 <= hi
}

/// Every key is an integer, and some range of at most `DENSE_KEY_SPAN_LIMIT` integers holds them all.
pub open spec fn dense_eligible(s: Seq<GroupKeyView>) -> bool {
    &&& forall|j: int| 0 <= j < s.len() ==> (#[trigger] s[j]) is Int64
    &&& exists|lo: int, hi: int| hi - lo + 1 <= DENSE_KEY_SPAN_LIMIT && #[trigger] keys_within(s, lo, hi)
}

/// The group table built with one bucket per integer in the keys' range. It is built
/// exactly when every key is an integer and the range spans at most
/// `DENSE_KEY_SPAN_LIMIT` values.
fn dense_table(gkeys: &Vec<GroupKey>) -> (r: Option<Groups<GroupKey>>)
    ensures
        r is Some <==> dense_eligible(key_views(gkeys@)),
        r matches Some(t) ==> t.describes(key_views(gkeys@), gkeys@.len() as int),
{
    let ghost s = key_views(gkeys@);
    let n = gkeys.len();
    if n == 0 {
        proof {
            assert(keys_within(s, 0, 0));
        }
        return Some(Groups::empty());
    }
    let mut min_key: i64 = i64::MAX;
    let mut max_key: i64 = i64::MIN;
    let ghost mut jmin: int = 0;
    let ghost mut jmax: int = 0;
    let mut i: usize = 0;
    while i < n
        invariant
            n == gkeys@.len(),
            s == key_views(gkeys@),
            i <= n,
            forall|j: int|
                0 <= j < i ==> ((#[trigger] gkeys@[j]) matches GroupKey::Int64(v) && min_key <= v
                    <= max_key),
            i > 0 ==> min_key <= max_key,
            i > 0 ==> 0 <= jmin < i && gkeys@[jmin] == GroupKey::Int64(min_key),
            i > 0 ==> 0 <= jmax < i && gkeys@[jmax] == GroupKey::Int64(max_key),
        decreases n - i,
    {
        assert(s[i as int] == gkeys@[i as int]@);
        match &gkeys[i] {
            GroupKey::Int64(v) => {
                if *v < min_key || i == 0 {
                    min_key = *v;
                    proof {
                        jmin = i as int;
                    }
                }
                if *v > max_key || i == 0 {
                    max_key = *v;
                    proof {
                        jmax = i as int;
                    }
                }
            },
            _ => {
                return None;
            },
        }
        i = i + 1;
    }
    proof {
        assert forall|j: int| 0 <= j < s.len() implies (#[trigger] s[j]) is Int64 && min_key <= s[j]->Int64_0
            <= max_key by {
            assert(s[j] == gkeys@[j]@);
        }
        assert(s[jmin] == gkeys@[jmin]@);
        assert(s[jmax] == gkeys@[jmax]@);
    }
    let span: i128 = max_key as i128 - min_key as i128 + 1;
    if span > DENSE_KEY_SPAN_LIMIT {
        proof {
            if dense_eligible(s) {
                let (lo, hi) = choose|lo: int, hi: int|
                    hi - lo + 1 <= DENSE_KEY_SPAN_LIMIT && #[trigger] keys_within(s, lo, hi);
                assert(lo <= s[jmin]->Int64_0);
                assert(s[jmax]->Int64_0 <= hi);
            }
        }
        return None;
    }
    proof {
        assert(keys_within(s, min_key as int, max_key as int));
        assert(max_key - min_key + 1 <= DENSE_KEY_SPAN_LIMIT);
    }
    let span = span as usize;
    let mut slot: Vec<usize> = vec![0; span];
    let mut table: Groups<GroupKey> = Groups::empty();
    let mut i: usize = 0;
    while i < n
        invariant
            n == gkeys@.len(),
            s == key_views(gkeys@),
            span == max_key - min_key + 1,
            i <= n,
            forall|j: int|
                0 <= j < n ==> ((#[trigger] gkeys@[j]) matches GroupKey::Int64(v) && min_key <= v
                    <= max_key),
            table.describes(s, i as int),
            table.keys@.len() <= i,
            slot@.len() == span,
            forall|b: int|
                0 <= b < span ==> {
                    &&& (#[trigger] slot@[b] == 0) == !key_views(table.keys@).contains(
                        GroupKeyView::Int64((min_key + b) as i64),
                    )
                    &&& slot@[b] > 0 ==> slot@[b] - 1 < table.keys@.len() && table.keys@[slot@[b]
                        - 1]@ == GroupKeyView::Int64((min_key + b) as i64)
                },
            forall|g: int|
                0 <= g < table.keys@.len() ==> (#[trigger] table.keys@[g])@ is Int64 && min_key
                    <= table.keys@[g]@->Int64_0 <= max_key,
        decreases n - i,
    {
        let v = match &gkeys[i] {
            GroupKey::Int64(v) => *v,
            _ => {
                return None;
            },
        };
        assert(s[i as int] == gkeys@[i as int]@);
        let b = (v as i128 - min_key as i128) as usize;
        let found = if slot[b] == 0 {
            None
        } else {
            Some(slot[b] - 1)
        };
        proof {
            if found is None {
                assert(!key_views(table.keys@).contains(GroupKeyView::Int64(v)));
            }
        }
        let ghost before = table.keys@;
        let g = table.keys.len();
        table.add_row(&gkeys[i], i, found, Ghost(s));
        if found.is_none() {
            slot.set(b, g + 1);
        }
        proof {
            assert forall|c: int| 0 <= c < span implies {
                &&& (#[trigger] slot@[c] == 0) == !key_views(table.keys@).contains(
                    GroupKeyView::Int64((min_key + c) as i64),
                )
                &&& slot@[c] > 0 ==> slot@[c] - 1 < table.keys@.len() && table.keys@[slot@[c]
                    - 1]@ == GroupKeyView::Int64((min_key + c) as i64)
            } by {
                if found is None {
                    assert(key_views(table.keys@) =~= key_views(before).push(GroupKeyView::Int64(v)));
                    if c != b {
                        assert(GroupKeyView::Int64((min_key + c) as i64) != GroupKeyView::Int64(v));
                        if key_views(before).contains(GroupKeyView::Int64((min_key + c) as i64)) {
                            let h = choose|h: int|
                                0 <= h < key_views(before).len() && key_views(before)[h]
                                    == GroupKeyView::Int64((min_key + c) as i64);
                            assert(key_views(table.keys@)[h] == key_views(before)[h]);
                        }
                    } else {
                        assert(key_views(table.keys@)[g as int] == GroupKeyView::Int64(v));
                    }
                } else {
                    assert(key_views(table.keys@) =~= key_views(before));
                }
            }
            assert forall|h: int| 0 <= h < table.keys@.len() implies (#[trigger] table.keys@[h])@ is Int64
                && min_key <= table.keys@[h]@->Int64_0 <= max_key by {
                if h < before.len() {
                    assert(table.keys@[h]@ == before[h]@);
                }
            }
        }
        i = i + 1;
    }
    Some(table)
}

/// The group plan from a table of the kept keys.
fn plan_from_table(
    table: &Groups<GroupKey>,
    rows: &Vec<usize>,
    keys: &[Scalar],
    values: &[Scalar],
    dropna: bool,
) -> (r: (Vec<Scalar>, Vec<Vec<usize>>))
    requires
        rows@ == kept_rows(scalar_views(keys@), dropna, keys@.len() as int),
        table.describes(
            kept_keys(scalar_views(keys@), dropna),
            kept_keys(scalar_views(keys@), dropna).len() as int,
        ),
        values@.len() == keys@.len(),
    ensures
        is_group_plan(
            scalar_views(r.0@),
            member_views(r.1@),
            scalar_views(keys@),
            scalar_views(values@),
            dropna,
        ),
{
    let ghost ks = scalar_views(keys@);
    let ghost vs = scalar_views(values@);
    let ghost kk = kept_keys(ks, dropna);
    let ghost d = distinct_prefix(kk, kk.len() as int);
    let kn = keys.len();
    let rn = rows.len();
    proof {
        lemma_kept_rows(ks, dropna, ks.len() as int);
        lemma_distinct_prefix(kk, kk.len() as int);
    }
    let mut out_keys: Vec<Scalar> = Vec::new();
    let mut members: Vec<Vec<usize>> = Vec::new();
    let mut g: usize = 0;
    while g < table.keys.len()
        invariant
            ks == scalar_views(keys@),
            vs == scalar_views(values@),
            kk == kept_keys(ks, dropna),
            d == distinct_prefix(kk, kk.len() as int),
            rows@ == kept_rows(ks, dropna, ks.len() as int),
            kk.len() == rows@.len(),
            rn == rows@.len(),
            table.describes(kk, kk.len() as int),
            values@.len() == keys@.len(),
            forall|k: int| 0 <= k < rows@.len() ==> #[trigger] rows@[k] < ks.len(),
            forall|x: GroupKeyView| #[trigger]
                d.contains(x) <==> exists|j: int| 0 <= j < kk.len() && kk[j] == x,
            g <= d.len(),
            out_keys@.len() == g,
            members@.len() == g,
            forall|h: int|
                0 <= h < g ==> {
                    let grows = group_rows(ks, dropna, d[h]);
                    &&& key_of(#[trigger] scalar_views(out_keys@)[h]) == d[h]
                    &&& grows.len() > 0
                    &&& scalar_views(out_keys@)[h] == ks[grows[0] as int]
                    &&& member_views(members@)[h] == contributing(grows, vs, grows.len() as int)
                },
        decreases d.len() - g,
    {
        let pos = &table.rows[g];
        let ghost x = d[g as int];
        proof {
            assert(key_views(table.keys@)[g as int] == table.keys@[g as int]@);
            assert(d.contains(x));
            let j = choose|j: int| 0 <= j < kk.len() && kk[j] == x;
            lemma_occurrences(kk, x, kk.len() as int);
            assert(occurrences(kk, x, kk.len() as int).contains(j as usize));
        }
        let ghost grows = group_rows(ks, dropna, x);
        assert(pos@ == occurrences(kk, x, kk.len() as int));
        assert(grows.len() == pos@.len());
        let first = rows[pos[0]];
        assert(first == grows[0]);
        assert(ks[first as int] == keys@[first as int]@);
        assert(key_of(ks[first as int]) == x) by {
            assert(kk[pos@[0] as int] == x);
        }
        let ghost before_keys = out_keys@;
        out_keys.push(keys[first].clone());
        proof {
            assert(scalar_views(out_keys@) =~= scalar_views(before_keys).push(ks[first as int]));
        }
        let mut m: Vec<usize> = Vec::new();
        let mut q: usize = 0;
        while q < pos.len()
            invariant
                ks == scalar_views(keys@),
                vs == scalar_views(values@),
                kk == kept_keys(ks, dropna),
                rows@ == kept_rows(ks, dropna, ks.len() as int),
                kk.len() == rows@.len(),
                rn == rows@.len(),
                values@.len() == keys@.len(),
                forall|k: int| 0 <= k < rows@.len() ==> #[trigger] rows@[k] < ks.len(),
                pos@ == occurrences(kk, x, kk.len() as int),
                grows == group_rows(ks, dropna, x),
                grows.len() == pos@.len(),
                q <= pos@.len(),
                m@ == contributing(grows, vs, q as int),
            decreases pos@.len() - q,
        {
            proof {
                lemma_occurrences(kk, x, kk.len() as int);
            }
            let row = rows[pos[q]];
            assert(row == grows[q as int]);
            assert(vs[row as int] == values@[row as int]@);
            let v = &values[row];
            let keep = match v {
                Scalar::Bool(_) | Scalar::Int64(_) => true,
                Scalar::Float64(b) => !is_nan_bits(*b),
                _ => false,
            };
            if keep {
                m.push(row);
            }
            q = q + 1;
        }
        let ghost before_members = members@;
        members.push(m);
        proof {
            assert(member_views(members@) =~= member_views(before_members).push(
                contributing(grows, vs, grows.len() as int),
            ));
        }
        g = g + 1;
    }
    proof {
        assert(key_views(table.keys@).len() == d.len());
    }
    (out_keys, members)
}

/// The union labels of two indexes.
pub open spec fn union_labels(l: Seq<LabelView>, r: Seq<LabelView>) -> Seq<LabelView> {
    l + right_only(l, r, r.len() as int)
}

/// The key values aligned with the value rows: as they are when both indexes are equal
/// and free of duplicates, else reindexed onto the union of the two indexes.
pub open spec fn aligned_keys(keys: Series, values: Series) -> Seq<ScalarView> {
    let ki = keys.spec_index()@;
    let vi = values.spec_index()@;
    if ki == vi && !has_repeat(ki) {
        keys.spec_column()@
    } else {
        reindexed(
            keys.spec_column()@,
            keys.spec_column().spec_dtype(),
            union_labels(ki, vi).map_values(|x: LabelView| first_index(ki, x)),
        )
    }
}

/// The values aligned with the key rows (see `aligned_keys`).
pub open spec fn aligned_values(keys: Series, values: Series) -> Seq<ScalarView> {
    let ki = keys.spec_index()@;
    let vi = values.spec_index()@;
    if ki == vi && !has_repeat(ki) {
        values.spec_column()@
    } else {
        reindexed(
            values.spec_column()@,
            values.spec_column().spec_dtype(),
            union_labels(ki, vi).map_values(|x: LabelView| first_index(vi, x)),
        )
    }
}

/// Aligns the key and value columns.
fn align_inputs(keys: &Series, values: &Series) -> (r: (Column, Column))
    ensures
        r.0@ == aligned_keys(*keys, *values),
        r.1@ == aligned_values(*keys, *values),
        r.0@.len() == r.1@.len(),
{
    let ki = keys.index();
    let vi = values.index();
    if ki.eq(vi) && !ki.has_duplicates() {
        let kc = keys.column().clone();
        let vc = values.column().clone();
        return (kc, vc);
    }
    let plan = align_union(ki, vi);
    let ghost u = union_labels(ki@, vi@);
    proof {
        assert(plan.left_positions@ =~= u.map_values(|x: LabelView| first_index(ki@, x))) by {
            assert forall|k: int| 0 <= k < u.len() implies plan.left_positions@[k] == first_index(
                ki@,
                u[k],
            ) by {
                lemma_first_index(ki@, u[k], plan.left_positions@[k]);
            }
        }
        assert(plan.right_positions@ =~= u.map_values(|x: LabelView| first_index(vi@, x))) by {
            assert forall|k: int| 0 <= k < u.len() implies plan.right_positions@[k] == first_index(
                vi@,
                u[k],
            ) by {
                assert(plan.first_matches(ki@, vi@));
                assert(plan.left_positions@[k] == plan.left_positions@[k]);
                lemma_first_index(vi@, u[k], plan.right_positions@[k]);
            }
        }
    }
    let kc = match keys.column().reindex_by_positions(plan.left_positions.as_slice()) {
        Ok(c) => c,
        Err(_) => {
            proof {
                assert(false);
            }
            keys.column().clone()
        },
    };
    let vc = match values.column().reindex_by_positions(plan.right_positions.as_slice()) {
        Ok(c) => c,
        Err(_) => {
            proof {
                assert(false);
            }
            values.column().clone()
        },
    };
    (kc, vc)
}

/// Groups `values` by `keys` (aligned by label first) and plans the sums: the dense
/// bucket table when every kept key is an integer in a small range, the general table otherwise.
pub fn groupby_sum_plan(keys: &Series, values: &Series, options: GroupByOptions) -> (r: Result<
    GroupSumPlan,
    GroupByError,
>)
    ensures
        r matches Ok(p) && p.values@ == aligned_values(*keys, *values) && is_group_plan(
            scalar_views(p.keys@),
            member_views(p.members@),
            aligned_keys(*keys, *values),
            aligned_values(*keys, *values),
            options.dropna,
        ),
{
    groupby_plan_with(keys, values, options, true)
}

/// As `groupby_sum_plan`, always with the general table.
pub fn groupby_sum_plan_generic(
    keys: &Series,
    values: &Series,
    options: GroupByOptions,
) -> (r: Result<GroupSumPlan, GroupByError>)
    ensures
        r matches Ok(p) && p.values@ == aligned_values(*keys, *values) && is_group_plan(
            scalar_views(p.keys@),
            member_views(p.members@),
            aligned_keys(*keys, *values),
            aligned_values(*keys, *values),
            options.dropna,
        ),
{
    groupby_plan_with(keys, values, options, false)
}

fn groupby_plan_with(
    keys: &Series,
    values: &Series,
    options: GroupByOptions,
    allow_dense: bool,
) -> (r: Result<GroupSumPlan, GroupByError>)
    ensures
        r matches Ok(p) && p.values@ == aligned_values(*keys, *values) && is_group_plan(
            scalar_views(p.keys@),
            member_views(p.members@),
            aligned_keys(*keys, *values),
            aligned_values(*keys, *values),
            options.dropna,
        ),
{
    let (kc, vc) = align_inputs(keys, values);
    let kvals = kc.values();
    let vvals = vc.values();
    let (rows, gkeys) = collect_kept(kvals, options.dropna);
    let dense = if allow_dense {
        dense_table(&gkeys)
    } else {
        None
    };
    let table = match dense {
        Some(t) => t,
        None => Groups::build(&gkeys),
    };
    let (out_keys, members) = plan_from_table(&table, &rows, kvals, vvals, options.dropna);
    Ok(GroupSumPlan { keys: out_keys, members, values: vc })
}

/// Two plans of the same grouping are identical: the dense and the general table agree.
pub proof fn lemma_group_plan_unique(
    k1: Seq<ScalarView>,
    m1: Seq<Seq<usize>>,
    k2: Seq<ScalarView>,
    m2: Seq<Seq<usize>>,
    ks: Seq<ScalarView>,
    vs: Seq<ScalarView>,
    dropna: bool,
)
    requires
        is_group_plan(k1, m1, ks, vs, dropna),
        is_group_plan(k2, m2, ks, vs, dropna),
    ensures
        k1 == k2,
        m1 == m2,
{
    let kk = kept_keys(ks, dropna);
    let d = distinct_prefix(kk, kk.len() as int);
    assert forall|g: int| 0 <= g < d.len() implies k1[g] == k2[g] && m1[g] == m2[g] by {
        assert(key_of(k1[g]) == d[g]);
        assert(key_of(k2[g]) == d[g]);
    }
    assert(k1 =~= k2);
    assert(m1 =~= m2);
}

/// The label of a group's key: `<null>` for the group of missing keys; `None` for a
/// present double, whose label is its decimal text.
pub fn group_label(key: &Scalar) -> (r: Option<IndexLabel>)
    ensures
        r is None <==> (key@ is Float64 && !is_missing(key@)),
        key@ matches ScalarView::Int64(v) ==> r == Some(IndexLabel::Int64(v)),
        key@ matches ScalarView::Utf8(s) ==> r matches Some(l) && l@ == LabelView::Utf8(s),
        key@ matches ScalarView::Bool(b) ==> (r matches Some(l) && l@ == LabelView::Utf8(
            if b {
                "true"@
            } else {
                "false"@
            },
        )),
        is_missing(key@) ==> (r matches Some(l) && l@ == LabelView::Utf8("<null>"@)),
{
    match key {
        Scalar::Int64(v) => Some(IndexLabel::Int64(*v)),
        Scalar::Utf8(s) => Some(IndexLabel::Utf8(s.clone())),
        Scalar::Bool(b) => {
            if *b {
                Some(IndexLabel::Utf8(String::from_str("true")))
            } else {
                Some(IndexLabel::Utf8(String::from_str("false")))
            }
        },
        Scalar::Null(_) => Some(IndexLabel::Utf8(String::from_str("<null>"))),
        Scalar::Float64(b) => {
            if is_nan_bits(*b) {
                Some(IndexLabel::Utf8(String::from_str("<null>")))
            } else {
                None
            }
        },
    }
}

} // verus!
