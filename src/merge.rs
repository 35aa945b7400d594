use vstd::prelude::*;

use crate::column::{reindexed, Column};
use crate::float_bits::{f64_as_i64, f64_bits_as_i64, f64_is_nan, is_nan_bits};
use crate::frame::{
    column_entries, find_column, lemma_name_pos, name_pos, unique_names, upsert, upsert_column,
    ColumnView, DataFrame, FrameError,
};
use crate::groups::{key_views, occurrences, Groups, KeyEq};
use crate::index::Index;
use crate::join::{concat_segments, lemma_segment_entry, JoinError, JoinType};
use crate::label::{compare_text, IndexLabel, LabelView};
use crate::types::{cast_spec, infer_prefix, scalar_views, DType, Scalar, ScalarView, TypeError};

verus! {

/// A row's join key: a label, or nothing for a missing value (which matches no row).
#[derive(Debug)]
pub enum JoinKey {
    Missing,
    Present(IndexLabel),
}

impl View for JoinKey {
    type V = Option<LabelView>;

    open spec fn view(&self) -> Option<LabelView> {
        match self {
            JoinKey::Missing => None,
            JoinKey::Present(l) => Some(l@),
        }
    }
}

impl KeyEq for JoinKey {
    fn key_eq(&self, other: &Self) -> (r: bool) {
        match (self, other) {
            (JoinKey::Missing, JoinKey::Missing) => true,
            (JoinKey::Present(a), JoinKey::Present(b)) => a.same_as(b),
            _ => false,
        }
    }

    fn key_clone(&self) -> (r: Self) {
        match self {
            JoinKey::Missing => JoinKey::Missing,
            JoinKey::Present(l) => JoinKey::Present(l.clone()),
        }
    }
}

/// The join key of a key-column value: integers, booleans as 0/1, doubles by their
/// integer part, strings as they are; missing values have none.
pub open spec fn merge_key(v: ScalarView) -> Option<LabelView> {
    match v {
        ScalarView::Int64(x) => Some(LabelView::Int64(x)),
        ScalarView::Float64(b) => if f64_is_nan(b) {
            None
        } else {
            Some(LabelView::Int64(f64_as_i64(b)))
        },
        ScalarView::Utf8(s) => Some(LabelView::Utf8(s)),
        ScalarView::Bool(b) => Some(
            LabelView::Int64(
                if b {
                    1
                } else {
                    0
                },
            ),
        ),
        ScalarView::Null(_) => None,
    }
}

pub open spec fn merge_keys(vs: Seq<ScalarView>) -> Seq<Option<LabelView>> {
    vs.map_values(|v: ScalarView| merge_key(v))
}

fn scalar_to_key(v: &Scalar) -> (r: JoinKey)
    ensures
        r@ == merge_key(v@),
{
    match v {
        Scalar::Int64(x) => JoinKey::Present(IndexLabel::Int64(*x)),
        Scalar::Float64(b) => {
            if is_nan_bits(*b) {
                JoinKey::Missing
            } else {
                JoinKey::Present(IndexLabel::Int64(f64_bits_as_i64(*b)))
            }
        },
        Scalar::Utf8(s) => JoinKey::Present(IndexLabel::Utf8(s.clone())),
        Scalar::Bool(b) => JoinKey::Present(
            IndexLabel::Int64(
                if *b {
                    1
                } else {
                    0
                },
            ),
        ),
        Scalar::Null(_) => JoinKey::Missing,
    }
}

fn keys_of(values: &[Scalar]) -> (r: Vec<JoinKey>)
    ensures
        key_views(r@) == merge_keys(scalar_views(values@)),
{
    let mut out: Vec<JoinKey> = Vec::new();
    let mut i: usize = 0;
    while i < values.len()
        invariant
            i <= values@.len(),
            key_views(out@) == merge_keys(scalar_views(values@)).take(i as int),
        decreases values@.len() - i,
    {
        let k = scalar_to_key(&values[i]);
        let ghost before = out@;
        out.push(k);
        proof {
            assert(key_views(out@) =~= key_views(before).push(merge_key(values@[i as int]@)));
            assert(merge_keys(scalar_views(values@)).take(i + 1) =~= merge_keys(
                scalar_views(values@),
            ).take(i as int).push(merge_key(values@[i as int]@)));
        }
        i = i + 1;
    }
    assert(merge_keys(scalar_views(values@)).take(values@.len() as int) =~= merge_keys(
        scalar_views(values@),
    ));
    out
}

/// A merged row: the source row on each side.
pub type MergeRow = (Option<usize>, Option<usize>);

/// The rows of `other` whose key equals `k`; none for a missing key.
pub open spec fn key_matches(other: Seq<Option<LabelView>>, k: Option<LabelView>) -> Seq<usize> {
    match k {
        Some(x) => occurrences(other, Some(x), other.len() as int),
        None => Seq::empty(),
    }
}

pub open spec fn merge_left_segment(
    lk: Seq<Option<LabelView>>,
    rk: Seq<Option<LabelView>>,
    t: JoinType,
    i: int,
) -> Seq<MergeRow> {
    let o = key_matches(rk, lk[i]);
    if o.len() > 0 {
        o.map_values(|p: usize| (Some(i as usize), Some(p)))
    } else if t == JoinType::Left || t == JoinType::Outer {
        seq![(Some(i as usize), None::<usize>)]
    } else {
        Seq::empty()
    }
}

/// A right row with a present key that no left row holds.
pub open spec fn merge_unmatched_segment(
    lk: Seq<Option<LabelView>>,
    rk: Seq<Option<LabelView>>,
    j: int,
) -> Seq<MergeRow> {
    if rk[j] is Some && !lk.contains(rk[j]) {
        seq![(None::<usize>, Some(j as usize))]
    } else {
        Seq::empty()
    }
}

pub open spec fn merge_right_segment(
    lk: Seq<Option<LabelView>>,
    rk: Seq<Option<LabelView>>,
    j: int,
) -> Seq<MergeRow> {
    let o = key_matches(lk, rk[j]);
    if o.len() > 0 {
        o.map_values(|p: usize| (Some(p), Some(j as usize)))
    } else {
        seq![(None::<usize>, Some(j as usize))]
    }
}

pub open spec fn merge_cross_segment(nl: int, nr: int, i: int) -> Seq<MergeRow> {
    Seq::new(nr as nat, |j: int| (Some(i as usize), Some(j as usize)))
}

/// The merged rows of the key sequences `lk` and `rk`.
pub open spec fn merge_rows(lk: Seq<Option<LabelView>>, rk: Seq<Option<LabelView>>, t: JoinType) -> Seq<
    MergeRow,
> {
    let lefts = concat_segments(|i: int| merge_left_segment(lk, rk, t, i), lk.len() as int);
    match t {
        JoinType::Inner | JoinType::Left => lefts,
        JoinType::Outer => lefts + concat_segments(
            |j: int| merge_unmatched_segment(lk, rk, j),
            rk.len() as int,
        ),
        JoinType::Right => concat_segments(|j: int| merge_right_segment(lk, rk, j), rk.len() as int),
        JoinType::Cross => concat_segments(
            |i: int| merge_cross_segment(lk.len() as int, rk.len() as int, i),
            lk.len() as int,
        ),
    }
}

pub open spec fn pushed_rows(lp: Seq<Option<usize>>, rp: Seq<Option<usize>>, rows: Seq<MergeRow>, k: int) -> bool {
    &&& lp.len() == k
    &&& rp.len() == k
    &&& k <= rows.len()
    &&& forall|m: int| 0 <= m < k ==> (#[trigger] lp[m]) == rows[m].0 && rp[m] == rows[m].1
}

/// The merged row positions, in order.
fn merge_positions(lkeys: &Vec<JoinKey>, rkeys: &Vec<JoinKey>, t: JoinType) -> (r: (
    Vec<Option<usize>>,
    Vec<Option<usize>>,
))
    ensures
        pushed_rows(
            r.0@,
            r.1@,
            merge_rows(key_views(lkeys@), key_views(rkeys@), t),
            merge_rows(key_views(lkeys@), key_views(rkeys@), t).len() as int,
        ),
{
    let ghost lk = key_views(lkeys@);
    let ghost rk = key_views(rkeys@);
    let ghost target = merge_rows(lk, rk, t);
    let ln = lkeys.len();
    let rn = rkeys.len();
    let ghost fl = |i: int| merge_left_segment(lk, rk, t, i);
    let ghost fu = |j: int| merge_unmatched_segment(lk, rk, j);
    let ghost fr = |j: int| merge_right_segment(lk, rk, j);
    let ghost fc = |i: int| merge_cross_segment(lk.len() as int, rk.len() as int, i);
    let ghost empty = Seq::<MergeRow>::empty();
    let mut lp: Vec<Option<usize>> = Vec::new();
    let mut rp: Vec<Option<usize>> = Vec::new();
    match t {
        JoinType::Inner | JoinType::Left | JoinType::Outer => {
            let right_groups = Groups::build(rkeys);
            let ghost post = if t == JoinType::Outer {
                concat_segments(fu, rk.len() as int)
            } else {
                empty
            };
            assert(target =~= empty + concat_segments(fl, lk.len() as int) + post);
            let mut i: usize = 0;
            while i < ln
                invariant
                    lk == key_views(lkeys@),
                    rk == key_views(rkeys@),
                    ln == lk.len(),
                    rn == rk.len(),
                    right_groups.describes(rk, rk.len() as int),
                    fl == (|i: int| merge_left_segment(lk, rk, t, i)),
                    target == empty + concat_segments(fl, lk.len() as int) + post,
                    empty.len() == 0,
                    t == JoinType::Inner || t == JoinType::Left || t == JoinType::Outer,
                    i <= lk.len(),
                    pushed_rows(lp@, rp@, target, concat_segments(fl, i as int).len() as int),
                decreases lk.len() - i,
            {
                let key = &lkeys[i];
                assert(lk[i as int] == key@);
                let ghost base = lp@.len() as int;
                let found = match key {
                    JoinKey::Present(_) => right_groups.rows_of(key, Ghost(rk)),
                    JoinKey::Missing => None,
                };
                match found {
                    Some(v) => {
                        let mut q: usize = 0;
                        while q < v.len()
                            invariant
                                fl == (|i: int| merge_left_segment(lk, rk, t, i)),
                                target == empty + concat_segments(fl, lk.len() as int) + post,
                                empty.len() == 0,
                                i < lk.len(),
                                v@ == key_matches(rk, lk[i as int]),
                                v@.len() > 0,
                                base == concat_segments(fl, i as int).len(),
                                q <= v@.len(),
                                pushed_rows(lp@, rp@, target, base + q),
                            decreases v@.len() - q,
                        {
                            proof {
                                assert(fl(i as int)[q as int] == (Some(i), Some(v@[q as int])));
                                lemma_segment_entry(empty, fl, lk.len() as int, post, i as int, q as int);
                            }
                            lp.push(Some(i));
                            rp.push(Some(v[q]));
                            q = q + 1;
                        }
                    },
                    None => {
                        proof {
                            assert(key_matches(rk, lk[i as int]).len() == 0);
                        }
                        if let JoinType::Inner = t {
                        } else {
                            proof {
                                assert(fl(i as int) =~= seq![(Some(i), None::<usize>)]);
                                lemma_segment_entry(empty, fl, lk.len() as int, post, i as int, 0);
                            }
                            lp.push(Some(i));
                            rp.push(None);
                        }
                    },
                }
                assert(concat_segments(fl, i + 1) == concat_segments(fl, i as int) + fl(i as int));
                i = i + 1;
            }
            if let JoinType::Outer = t {
                let left_groups = Groups::build(lkeys);
                let ghost pre = concat_segments(fl, lk.len() as int);
                assert(target =~= pre + concat_segments(fu, rk.len() as int) + empty);
                let mut j: usize = 0;
                while j < rn
                    invariant
                        lk == key_views(lkeys@),
                        rk == key_views(rkeys@),
                        ln == lk.len(),
                        rn == rk.len(),
                        left_groups.describes(lk, lk.len() as int),
                        fu == (|j: int| merge_unmatched_segment(lk, rk, j)),
                        target == pre + concat_segments(fu, rk.len() as int) + empty,
                        empty.len() == 0,
                        j <= rk.len(),
                        pushed_rows(lp@, rp@, target, (pre.len() + concat_segments(fu, j as int).len()) as int),
                    decreases rk.len() - j,
                {
                    let key = &rkeys[j];
                    assert(rk[j as int] == key@);
                    let unmatched = match key {
                        JoinKey::Present(_) => left_groups.rows_of(key, Ghost(lk)).is_none(),
                        JoinKey::Missing => false,
                    };
                    if unmatched {
                        proof {
                            assert(!lk.contains(key@));
                            lemma_segment_entry(pre, fu, rk.len() as int, empty, j as int, 0);
                        }
                        lp.push(None);
                        rp.push(Some(j));
                    } else {
                        proof {
                            if key@ is Some {
                                let p = choose|p: int| 0 <= p < lk.len() && lk[p] == key@;
                                assert(lk.contains(key@));
                            }
                        }
                    }
                    assert(concat_segments(fu, j + 1) == concat_segments(fu, j as int) + fu(j as int));
                    j = j + 1;
                }
            }
        },
        JoinType::Right => {
            let left_groups = Groups::build(lkeys);
            assert(target =~= empty + concat_segments(fr, rk.len() as int) + empty);
            let mut j: usize = 0;
            while j < rn
                invariant
                    lk == key_views(lkeys@),
                    rk == key_views(rkeys@),
                    ln == lk.len(),
                    rn == rk.len(),
                    left_groups.describes(lk, lk.len() as int),
                    fr == (|j: int| merge_right_segment(lk, rk, j)),
                    target == empty + concat_segments(fr, rk.len() as int) + empty,
                    empty.len() == 0,
                    j <= rk.len(),
                    pushed_rows(lp@, rp@, target, concat_segments(fr, j as int).len() as int),
                decreases rk.len() - j,
            {
                let key = &rkeys[j];
                assert(rk[j as int] == key@);
                let ghost base = lp@.len() as int;
                let found = match key {
                    JoinKey::Present(_) => left_groups.rows_of(key, Ghost(lk)),
                    JoinKey::Missing => None,
                };
                match found {
                    Some(v) => {
                        let mut q: usize = 0;
                        while q < v.len()
                            invariant
                                fr == (|j: int| merge_right_segment(lk, rk, j)),
                                target == empty + concat_segments(fr, rk.len() as int) + empty,
                                empty.len() == 0,
                                j < rk.len(),
                                v@ == key_matches(lk, rk[j as int]),
                                v@.len() > 0,
                                base == concat_segments(fr, j as int).len(),
                                q <= v@.len(),
                                pushed_rows(lp@, rp@, target, base + q),
                            decreases v@.len() - q,
                        {
                            proof {
                                assert(fr(j as int)[q as int] == (Some(v@[q as int]), Some(j)));
                                lemma_segment_entry(empty, fr, rk.len() as int, empty, j as int, q as int);
                            }
                            lp.push(Some(v[q]));
                            rp.push(Some(j));
                            q = q + 1;
                        }
                    },
                    None => {
                        proof {
                            assert(key_matches(lk, rk[j as int]).len() == 0);
                            assert(fr(j as int) =~= seq![(None::<usize>, Some(j))]);
                            lemma_segment_entry(empty, fr, rk.len() as int, empty, j as int, 0);
                        }
                        lp.push(None);
                        rp.push(Some(j));
                    },
                }
                assert(concat_segments(fr, j + 1) == concat_segments(fr, j as int) + fr(j as int));
                j = j + 1;
            }
        },
        JoinType::Cross => {
            assert(target =~= empty + concat_segments(fc, lk.len() as int) + empty);
            let mut i: usize = 0;
            while i < ln
                invariant
                    ln == lk.len(),
                    rn == rk.len(),
                    fc == (|i: int| merge_cross_segment(lk.len() as int, rk.len() as int, i)),
                    target == empty + concat_segments(fc, lk.len() as int) + empty,
                    empty.len() == 0,
                    i <= lk.len(),
                    pushed_rows(lp@, rp@, target, concat_segments(fc, i as int).len() as int),
                decreases lk.len() - i,
            {
                let ghost base = lp@.len() as int;
                let mut j: usize = 0;
                while j < rn
                    invariant
                        rn == rk.len(),
                        fc == (|i: int| merge_cross_segment(lk.len() as int, rk.len() as int, i)),
                        target == empty + concat_segments(fc, lk.len() as int) + empty,
                        empty.len() == 0,
                        i < lk.len(),
                        base == concat_segments(fc, i as int).len(),
                        j <= rk.len(),
                        pushed_rows(lp@, rp@, target, base + j),
                    decreases rk.len() - j,
                {
                    proof {
                        lemma_segment_entry(empty, fc, lk.len() as int, empty, i as int, j as int);
                    }
                    lp.push(Some(i));
                    rp.push(Some(j));
                    j = j + 1;
                }
                assert(concat_segments(fc, i + 1) == concat_segments(fc, i as int) + fc(i as int));
                i = i + 1;
            }
        },
    }
    (lp, rp)
}

/// The positions of one side in the merged rows.
pub open spec fn left_positions(rows: Seq<MergeRow>) -> Seq<Option<usize>> {
    rows.map_values(|x: MergeRow| x.0)
}

pub open spec fn right_positions(rows: Seq<MergeRow>) -> Seq<Option<usize>> {
    rows.map_values(|x: MergeRow| x.1)
}

/// The key value a merged row shows: the right key in a right join or where no left row
/// contributes, the left key otherwise.
pub open spec fn merged_key_value(
    t: JoinType,
    lvals: Seq<ScalarView>,
    rvals: Seq<ScalarView>,
    row: MergeRow,
) -> ScalarView {
    if t == JoinType::Right || row.0 is None {
        rvals[row.1->Some_0 as int]
    } else {
        lvals[row.0->Some_0 as int]
    }
}

pub open spec fn merged_key_values(
    t: JoinType,
    lvals: Seq<ScalarView>,
    rvals: Seq<ScalarView>,
    rows: Seq<MergeRow>,
) -> Seq<ScalarView> {
    rows.map_values(|x: MergeRow| merged_key_value(t, lvals, rvals, x))
}

/// The first `n` columns of one side added to `acc`, reindexed by `positions`, each but
/// `skip`; a name the other side also has takes `suffix`.
pub open spec fn side_entries(
    acc: Seq<(Seq<char>, ColumnView)>,
    side: Seq<(Seq<char>, ColumnView)>,
    other: Seq<(Seq<char>, ColumnView)>,
    skip: Option<Seq<char>>,
    suffix: Seq<char>,
    positions: Seq<Option<usize>>,
    n: int,
) -> Seq<(Seq<char>, ColumnView)>
    decreases n,
{
    if n <= 0 {
        acc
    } else {
        let prev = side_entries(acc, side, other, skip, suffix, positions, n - 1);
        let e = side[n - 1];
        if skip == Some(e.0) {
            prev
        } else {
            let name = if name_pos(other, e.0) >= 0 {
                e.0 + suffix
            } else {
                e.0
            };
            upsert(prev, name, (e.1.0, reindexed(e.1.1, e.1.0, positions)))
        }
    }
}

/// Row labels `0, 1, ..., n - 1`.
pub open spec fn range_labels(n: int) -> Seq<LabelView> {
    Seq::new(n as nat, |i: int| LabelView::Int64(i as i64))
}

/// The merged rows of two frames, with their columns by name.
#[derive(Debug)]
pub struct MergedDataFrame {
    pub index: Index,
    pub columns: Vec<(String, Column)>,
}

impl MergedDataFrame {
    /// The column named `name`.
    pub fn column(&self, name: &str) -> (r: Option<&Column>)
        ensures
            match r {
                Some(c) => exists|i: int|
                    0 <= i < self.columns@.len() && column_entries(self.columns@)[i].0 == name@
                        && column_entries(self.columns@)[i].1 == (c.spec_dtype(), c@),
                None => forall|i: int|
                    0 <= i < self.columns@.len() ==> (#[trigger] column_entries(self.columns@)[i]).0
                        != name@,
            },
    {
        find_column(&self.columns, name)
    }
}

/// Adds the columns of one side, reindexed, to `out`.
fn add_side(
    out: &mut Vec<(String, Column)>,
    side: &[(String, Column)],
    other: &[(String, Column)],
    skip: Option<&str>,
    suffix: &str,
    positions: &[Option<usize>],
)
    requires
        unique_names(column_entries(old(out)@)),
    ensures
        unique_names(column_entries(final(out)@)),
        column_entries(final(out)@) == side_entries(
            column_entries(old(out)@),
            column_entries(side@),
            column_entries(other@),
            match skip {
                Some(k) => Some(k@),
                None => None,
            },
            suffix@,
            positions@,
            side@.len() as int,
        ),
{
    let ghost acc = column_entries(out@);
    let ghost se = column_entries(side@);
    let ghost oe = column_entries(other@);
    let ghost sk = match skip {
        Some(k) => Some(k@),
        None => None,
    };
    let mut i: usize = 0;
    while i < side.len()
        invariant
            i <= side@.len(),
            se == column_entries(side@),
            oe == column_entries(other@),
            sk == match skip {
                Some(k) => Some(k@),
                None => None::<Seq<char>>,
            },
            unique_names(column_entries(out@)),
            column_entries(out@) == side_entries(acc, se, oe, sk, suffix@, positions@, i as int),
        decreases side@.len() - i,
    {
        let name = &side[i].0;
        let col = &side[i].1;
        assert(se[i as int] == (name@, (col.spec_dtype(), col@)));
        let skipped = match skip {
            Some(k) => compare_text(name.as_str(), k) == 0,
            None => false,
        };
        if !skipped {
            let mut present = false;
            let mut j: usize = 0;
            while j < other.len()
                invariant
                    j <= other@.len(),
                    oe == column_entries(other@),
                    present == exists|m: int| 0 <= m < j && (#[trigger] oe[m]).0 == name@,
                decreases other@.len() - j,
            {
                if !present && compare_text(other[j].0.as_str(), name.as_str()) == 0 {
                    assert(oe[j as int].0 == name@);
                    present = true;
                }
                j = j + 1;
            }
            proof {
                lemma_name_pos(oe, name@);
                if present {
                    let m = choose|m: int| 0 <= m < other@.len() && (#[trigger] oe[m]).0 == name@;
                }
                if name_pos(oe, name@) >= 0 {
                    assert(oe[name_pos(oe, name@)].0 == name@);
                }
            }
            let out_name = if present {
                name.clone().concat(suffix)
            } else {
                name.clone()
            };
            let reindexed_col = match col.reindex_by_positions(positions) {
                Ok(c) => c,
                Err(_) => {
                    proof {
                        assert(false);
                    }
                    col.clone()
                },
            };
            let ghost prev = column_entries(out@);
            let ghost x = (reindexed_col.spec_dtype(), reindexed_col@);
            let ghost nm = out_name@;
            upsert_column(out, out_name, reindexed_col);
            proof {
                assert(x == (se[i as int].1.0, reindexed(se[i as int].1.1, se[i as int].1.0, positions@)));
                assert(nm == if name_pos(oe, se[i as int].0) >= 0 {
                    se[i as int].0 + suffix@
                } else {
                    se[i as int].0
                });
                assert(sk != Some(se[i as int].0));
            }
        } else {
            proof {
                assert(sk == Some(se[i as int].0));
            }
        }
        i = i + 1;
    }
}

fn missing_key_message(side: &str, on: &str) -> (r: String)
    ensures
        r@ == side@ + " DataFrame missing key column '"@ + on@ + "'"@,
{
    let s = String::from_str(side);
    let s = s.concat(" DataFrame missing key column '");
    let s = s.concat(on);
    s.concat("'")
}

fn range_index(n: usize) -> (r: Index)
    ensures
        r@ == range_labels(n as int),
{
    let mut values: Vec<i64> = Vec::new();
    let mut i: usize = 0;
    while i < n
        invariant
            i <= n,
            values@.len() == i,
            forall|k: int| 0 <= k < i ==> values@[k] == k as i64,
        decreases n - i,
    {
        values.push(i as i64);
        i = i + 1;
    }
    let r = Index::from_i64(values);
    assert(r@ =~= range_labels(n as int));
    r
}

/// Every row of a segment sequence satisfies `p` when every row of every segment does.
pub proof fn lemma_segments_all<T>(f: spec_fn(int) -> Seq<T>, n: int, p: spec_fn(T) -> bool)
    requires
        forall|i: int, q: int| 0 <= i < n && 0 <= q < f(i).len() ==> #[trigger] p(f(i)[q]),
    ensures
        forall|m: int| 0 <= m < concat_segments(f, n).len() ==> #[trigger] p(concat_segments(f, n)[m]),
    decreases n,
{
    if n > 0 {
        lemma_segments_all(f, n - 1, p);
        let prev = concat_segments(f, n - 1);
        assert forall|m: int| 0 <= m < concat_segments(f, n).len() implies #[trigger] p(
            concat_segments(f, n)[m],
        ) by {
            if m >= prev.len() {
                assert(concat_segments(f, n)[m] == f(n - 1)[m - prev.len()]);
            } else {
                assert(concat_segments(f, n)[m] == prev[m]);
            }
        }
    }
}

/// A merged row's positions are in bounds, and some side always contributes (the right
/// side in a right join).
pub open spec fn row_ok(row: MergeRow, nl: int, nr: int, t: JoinType) -> bool {
    &&& (row.0 matches Some(i) ==> i < nl)
    &&& (row.1 matches Some(j) ==> j < nr)
    &&& (row.0 is None ==> row.1 is Some)
    &&& (t == JoinType::Right ==> row.1 is Some)
}

proof fn lemma_merge_rows_ok(lk: Seq<Option<LabelView>>, rk: Seq<Option<LabelView>>, t: JoinType)
    requires
        lk.len() <= usize::MAX,
        rk.len() <= usize::MAX,
    ensures
        forall|m: int|
            0 <= m < merge_rows(lk, rk, t).len() ==> row_ok(
                #[trigger] merge_rows(lk, rk, t)[m],
                lk.len() as int,
                rk.len() as int,
                t,
            ),
{
    let nl = lk.len() as int;
    let nr = rk.len() as int;
    let p = |x: MergeRow| row_ok(x, nl, nr, t);
    let fl = |i: int| merge_left_segment(lk, rk, t, i);
    let fu = |j: int| merge_unmatched_segment(lk, rk, j);
    let fr = |j: int| merge_right_segment(lk, rk, j);
    let fc = |i: int| merge_cross_segment(nl, nr, i);
    assert forall|i: int, q: int| 0 <= i < nl && 0 <= q < fl(i).len() implies #[trigger] p(fl(i)[q]) by {
        if lk[i] is Some {
            crate::groups::lemma_occurrences(rk, lk[i], nr);
        }
    }
    assert forall|i: int, q: int| 0 <= i < nr && 0 <= q < fr(i).len() implies #[trigger] p(fr(i)[q]) by {
        if rk[i] is Some {
            crate::groups::lemma_occurrences(lk, rk[i], nl);
        }
    }
    assert forall|i: int, q: int| 0 <= i < nr && 0 <= q < fu(i).len() implies #[trigger] p(fu(i)[q]) by {}
    assert forall|i: int, q: int| 0 <= i < nl && 0 <= q < fc(i).len() implies #[trigger] p(fc(i)[q]) by {}
    lemma_segments_all(fl, nl, p);
    lemma_segments_all(fu, nr, p);
    lemma_segments_all(fr, nr, p);
    lemma_segments_all(fc, nl, p);
    let a = concat_segments(fl, nl);
    let b = concat_segments(fu, nr);
    assert forall|m: int| 0 <= m < merge_rows(lk, rk, t).len() implies row_ok(
        #[trigger] merge_rows(lk, rk, t)[m],
        nl,
        nr,
        t,
    ) by {
        match t {
            JoinType::Inner | JoinType::Left => {
                assert(merge_rows(lk, rk, t) == a);
                assert(p(a[m]));
            },
            JoinType::Outer => {
                assert(merge_rows(lk, rk, t) == a + b);
                if m < a.len() {
                    assert((a + b)[m] == a[m]);
                    assert(p(a[m]));
                } else {
                    assert((a + b)[m] == b[m - a.len()]);
                    assert(p(b[m - a.len()]));
                }
            },
            JoinType::Right => {
                assert(merge_rows(lk, rk, t) == concat_segments(fr, nr));
                assert(p(concat_segments(fr, nr)[m]));
            },
            JoinType::Cross => {
                assert(merge_rows(lk, rk, t) == concat_segments(fc, nl));
                assert(p(concat_segments(fc, nl)[m]));
            },
        }
    }
}

/// The first position of `name` among the columns.
fn name_position(cols: &[(String, Column)], name: &str) -> (r: Option<usize>)
    ensures
        match r {
            Some(i) => i as int == name_pos(column_entries(cols@), name@),
            None => name_pos(column_entries(cols@), name@) == -1,
        },
{
    let ghost e = column_entries(cols@);
    proof {
        lemma_name_pos(e, name@);
    }
    let mut i: usize = 0;
    while i < cols.len()
        invariant
            e == column_entries(cols@),
            i <= cols@.len(),
            forall|j: int| 0 <= j < i ==> (#[trigger] e[j]).0 != name@,
            name_pos(e, name@) == -1 ==> forall|j: int| 0 <= j < e.len() ==> (#[trigger] e[j]).0 != name@,
            name_pos(e, name@) != -1 ==> 0 <= name_pos(e, name@) < e.len() && e[name_pos(e, name@)].0 == name@
                && forall|j: int| 0 <= j < name_pos(e, name@) ==> (#[trigger] e[j]).0 != name@,
        decreases cols@.len() - i,
    {
        if compare_text(cols[i].0.as_str(), name) == 0 {
            assert(e[i as int].0 == name@);
            return Some(i);
        }
        i = i + 1;
    }
    None
}

/// The key values of the merged rows, when both frames have the key column.
pub open spec fn merged_keys_of(left: DataFrame, right: DataFrame, on: Seq<char>, t: JoinType) -> Seq<
    ScalarView,
> {
    let le = left.entries();
    let re = right.entries();
    let lv = le[name_pos(le, on)].1.1;
    let rv = re[name_pos(re, on)].1.1;
    merged_key_values(t, lv, rv, merge_rows(merge_keys(lv), merge_keys(rv), t))
}

/// The merge that `merge_dataframes` gives when both frames have the key column.
pub open spec fn is_merge_of(
    m: MergedDataFrame,
    left: DataFrame,
    right: DataFrame,
    on: Seq<char>,
    t: JoinType,
) -> bool {
    let le = left.entries();
    let re = right.entries();
    let lv = le[name_pos(le, on)].1.1;
    let rv = re[name_pos(re, on)].1.1;
    let rows = merge_rows(merge_keys(lv), merge_keys(rv), t);
    let kv = merged_key_values(t, lv, rv, rows);
    &&& m.index@ == range_labels(rows.len() as int)
    &&& exists|d: DType, vals: Seq<ScalarView>|
        infer_prefix(kv, kv.len() as int) == Ok::<DType, TypeError>(d) && vals.len() == kv.len()
            && (forall|i: int|
            0 <= i < kv.len() ==> Ok::<ScalarView, TypeError>(#[trigger] vals[i]) == cast_spec(
                kv[i],
                d,
            )) && column_entries(m.columns@) == side_entries(
            side_entries(
                seq![(on, (d, vals))],
                le,
                re,
                Some(on),
                "_left"@,
                left_positions(rows),
                le.len() as int,
            ),
            re,
            le,
            Some(on),
            "_right"@,
            right_positions(rows),
            re.len() as int,
        )
}

/// The Cartesian merge: every left row with every right row, all columns kept.
pub open spec fn is_cross_merge_of(m: MergedDataFrame, left: DataFrame, right: DataFrame) -> bool {
    let le = left.entries();
    let re = right.entries();
    let nl = left.spec_index()@.len() as int;
    let nr = right.spec_index()@.len() as int;
    let rows = concat_segments(|i: int| merge_cross_segment(nl, nr, i), nl);
    &&& m.index@ == range_labels(rows.len() as int)
    &&& column_entries(m.columns@) == side_entries(
        side_entries(Seq::empty(), le, re, None, "_left"@, left_positions(rows), le.len() as int),
        re,
        le,
        None,
        "_right"@,
        right_positions(rows),
        re.len() as int,
    )
}

/// Merges two frames on the column `on`, as a relational join of its values (missing
/// keys match nothing); a cross merge ignores `on`. Colliding column names take
/// `_left` / `_right`; the rows are labelled `0, 1, ...`.
pub fn merge_dataframes(left: &DataFrame, right: &DataFrame, on: &str, join_type: JoinType) -> (r:
    Result<MergedDataFrame, JoinError>)
    ensures
        join_type == JoinType::Cross ==> (r matches Ok(m) && is_cross_merge_of(m, *left, *right)),
        join_type != JoinType::Cross && name_pos(left.entries(), on@) == -1 ==> (r matches Err(
            JoinError::Frame(FrameError::CompatibilityRejected(msg)),
        ) && msg@ == "left"@ + " DataFrame missing key column '"@ + on@ + "'"@),
        join_type != JoinType::Cross && name_pos(left.entries(), on@) != -1 && name_pos(
            right.entries(),
            on@,
        ) == -1 ==> (r matches Err(JoinError::Frame(FrameError::CompatibilityRejected(msg)))
            && msg@ == "right"@ + " DataFrame missing key column '"@ + on@ + "'"@),
        join_type != JoinType::Cross && r is Ok ==> is_merge_of(r->Ok_0, *left, *right, on@, join_type),
        join_type != JoinType::Cross && name_pos(left.entries(), on@) != -1 && name_pos(
            right.entries(),
            on@,
        ) != -1 ==> (r is Ok <==> infer_prefix(
            merged_keys_of(*left, *right, on@, join_type),
            merged_keys_of(*left, *right, on@, join_type).len() as int,
        ) is Ok),
        r matches Err(JoinError::Column(_)) ==> join_type != JoinType::Cross,
{
    if let JoinType::Cross = join_type {
        return Ok(merge_dataframes_cross(left, right));
    }
    let lcols = left.columns();
    let rcols = right.columns();
    let lpos = match name_position(lcols, on) {
        Some(i) => i,
        None => {
            return Err(JoinError::Frame(FrameError::CompatibilityRejected(missing_key_message("left", on))));
        },
    };
    let rpos = match name_position(rcols, on) {
        Some(i) => i,
        None => {
            return Err(JoinError::Frame(FrameError::CompatibilityRejected(missing_key_message("right", on))));
        },
    };
    proof {
        lemma_name_pos(column_entries(lcols@), on@);
        lemma_name_pos(column_entries(rcols@), on@);
    }
    let lkey = &lcols[lpos].1;
    let rkey = &rcols[rpos].1;
    let ghost lv = lkey@;
    let ghost rv = rkey@;
    assert(lv == left.entries()[name_pos(left.entries(), on@)].1.1);
    assert(rv == right.entries()[name_pos(right.entries(), on@)].1.1);
    let lvals = lkey.values();
    let rvals = rkey.values();
    let lkeys = keys_of(lvals);
    let rkeys = keys_of(rvals);
    let (lp, rp) = merge_positions(&lkeys, &rkeys, join_type);
    let ghost rows = merge_rows(merge_keys(lv), merge_keys(rv), join_type);
    let lnv = lvals.len();
    let rnv = rvals.len();
    assert(merge_keys(lv).len() == lnv && merge_keys(rv).len() == rnv);
    proof {
        lemma_merge_rows_ok(merge_keys(lv), merge_keys(rv), join_type);
    }
    let n = lp.len();
    let mut out_keys: Vec<Scalar> = Vec::new();
    let mut m: usize = 0;
    while m < n
        invariant
            n == lp@.len(),
            pushed_rows(lp@, rp@, rows, rows.len() as int),
            rows == merge_rows(merge_keys(lv), merge_keys(rv), join_type),
            forall|k: int|
                0 <= k < rows.len() ==> row_ok(
                    #[trigger] rows[k],
                    merge_keys(lv).len() as int,
                    merge_keys(rv).len() as int,
                    join_type,
                ),
            scalar_views(lvals@) == lv,
            scalar_views(rvals@) == rv,
            m <= n,
            scalar_views(out_keys@) == merged_key_values(join_type, lv, rv, rows).take(m as int),
        decreases n - m,
    {
        assert(row_ok(rows[m as int], merge_keys(lv).len() as int, merge_keys(rv).len() as int, join_type));
        let v = match (join_type, lp[m], rp[m]) {
            (JoinType::Right, _, Some(j)) | (_, None, Some(j)) => {
                assert(rv[j as int] == rvals@[j as int]@);
                rvals[j].clone()
            },
            (_, Some(i), _) => {
                assert(lv[i as int] == lvals@[i as int]@);
                lvals[i].clone()
            },
            _ => {
                proof {
                    assert(false);
                }
                Scalar::Null(crate::types::NullKind::Null)
            },
        };
        let ghost before = out_keys@;
        out_keys.push(v);
        proof {
            assert(scalar_views(out_keys@) =~= scalar_views(before).push(v@));
            assert(merged_key_values(join_type, lv, rv, rows).take(m + 1) =~= merged_key_values(
                join_type,
                lv,
                rv,
                rows,
            ).take(m as int).push(merged_key_value(join_type, lv, rv, rows[m as int])));
        }
        m = m + 1;
    }
    let ghost kv = merged_key_values(join_type, lv, rv, rows);
    assert(kv.take(n as int) =~= kv);
    let key_col = match Column::from_values(out_keys) {
        Ok(c) => c,
        Err(e) => {
            return Err(JoinError::Column(e));
        },
    };
    let index = range_index(n);
    let mut columns: Vec<(String, Column)> = Vec::new();
    let ghost d = key_col.spec_dtype();
    let ghost vals = key_col@;
    upsert_column(&mut columns, String::from_str(on), key_col);
    proof {
        assert(column_entries(columns@) =~= seq![(on@, (d, vals))]);
        assert forall|k: int| 0 <= k < rows.len() implies rp@[k] == rows[k].1 by {
            assert(lp@[k] == rows[k].0);
        }
        assert(left_positions(rows) =~= lp@);
        assert(right_positions(rows) =~= rp@);
    }
    add_side(&mut columns, lcols, rcols, Some(on), "_left", lp.as_slice());
    add_side(&mut columns, rcols, lcols, Some(on), "_right", rp.as_slice());
    Ok(MergedDataFrame { index, columns })
}

/// Every left row with every right row, all columns kept.
fn merge_dataframes_cross(left: &DataFrame, right: &DataFrame) -> (r: MergedDataFrame)
    ensures
        is_cross_merge_of(r, *left, *right),
{
    let nl = left.index().len();
    let nr = right.index().len();
    let mut lkeys: Vec<JoinKey> = Vec::new();
    let mut rkeys: Vec<JoinKey> = Vec::new();
    let mut i: usize = 0;
    while i < nl
        invariant
            i <= nl,
            lkeys@.len() == i,
        decreases nl - i,
    {
        lkeys.push(JoinKey::Missing);
        i = i + 1;
    }
    let mut j: usize = 0;
    while j < nr
        invariant
            j <= nr,
            rkeys@.len() == j,
        decreases nr - j,
    {
        rkeys.push(JoinKey::Missing);
        j = j + 1;
    }
    let (lp, rp) = merge_positions(&lkeys, &rkeys, JoinType::Cross);
    let ghost rows = merge_rows(key_views(lkeys@), key_views(rkeys@), JoinType::Cross);
    proof {
        assert forall|k: int| 0 <= k < rows.len() implies rp@[k] == rows[k].1 by {
            assert(lp@[k] == rows[k].0);
        }
        assert(left_positions(rows) =~= lp@);
        assert(right_positions(rows) =~= rp@);
    }
    let index = range_index(lp.len());
    let mut columns: Vec<(String, Column)> = Vec::new();
    assert(column_entries(columns@) =~= Seq::<(Seq<char>, ColumnView)>::empty());
    add_side(&mut columns, left.columns(), right.columns(), None, "_left", lp.as_slice());
    add_side(&mut columns, right.columns(), left.columns(), None, "_right", rp.as_slice());
    MergedDataFrame { index, columns }
}

} // verus!
