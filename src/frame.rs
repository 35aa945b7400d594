use vstd::prelude::*;

use crate::align::{align_union, right_only, IndexError};
use crate::column::{reindexed, Column, ColumnError};
use crate::groups::{first_index, first_match, key_views, lemma_first_index};
use crate::index::Index;
use crate::label::{IndexLabel, LabelView};
use crate::label::compare_text;
use crate::types::{cast_spec, infer_prefix, scalar_views, DType, Scalar, ScalarView};

verus! {

#[derive(Debug)]
pub enum FrameError {
    LengthMismatch { index_len: usize, column_len: usize },
    DuplicateIndexUnsupported,
    CompatibilityRejected(String),
    Column(ColumnError),
    Index(IndexError),
}

impl FrameError {
    pub fn message(&self) -> String {
        match self {
            FrameError::LengthMismatch { index_len, column_len } => {
                let s = "index length (".to_string();
                let s = s.concat(index_len.to_string().as_str());
                let s = s.concat(") does not match column length (");
                let s = s.concat(column_len.to_string().as_str());
                s.concat(")")
            },
            FrameError::DuplicateIndexUnsupported => {
                "duplicate index labels are unsupported in strict mode".to_string()
            },
            FrameError::CompatibilityRejected(m) => {
                let s = "compatibility gate rejected operation: ".to_string();
                s.concat(m.as_str())
            },
            FrameError::Column(e) => e.message(),
            FrameError::Index(e) => e.message(),
        }
    }
}

/// A named column with one label per row.
#[derive(Debug)]
pub struct Series {
    name: String,
    index: Index,
    column: Column,
}

impl Series {
    #[verifier::type_invariant]
    spec fn inv(&self) -> bool {
        self.index@.len() == self.column@.len()
    }

    pub closed spec fn spec_name(&self) -> Seq<char> {
        self.name@
    }

    pub closed spec fn spec_index(&self) -> Index {
        self.index
    }

    pub closed spec fn spec_column(&self) -> Column {
        self.column
    }

    pub fn new(name: String, index: Index, column: Column) -> (r: Result<Series, FrameError>)
        ensures
            index@.len() != column@.len() ==> (r matches Err(
                FrameError::LengthMismatch { index_len, column_len },
            ) && index_len == index@.len() && column_len == column@.len()),
            index@.len() == column@.len() ==> (r matches Ok(s) && s.spec_name() == name@
                && s.spec_index() == index && s.spec_column() == column),
    {
        if index.len() != column.len() {
            return Err(FrameError::LengthMismatch { index_len: index.len(), column_len: column.len() });
        }
        Ok(Series { name, index, column })
    }

    /// A series over `index_labels` whose column is inferred from `values`.
    pub fn from_values(name: String, index_labels: Vec<IndexLabel>, values: Vec<Scalar>) -> (r:
        Result<Series, FrameError>)
        ensures
            r matches Ok(s) ==> s.spec_name() == name@ && s.spec_index()@ == key_views(index_labels@)
                && s.spec_column()@.len() == values@.len(),
            r matches Ok(s) ==> (infer_prefix(scalar_views(values@), values@.len() as int) matches Ok(
                d,
            ) && s.spec_column().spec_dtype() == d && forall|i: int|
                0 <= i < values@.len() ==> Ok::<ScalarView, crate::types::TypeError>(
                    #[trigger] s.spec_column()@[i],
                ) == cast_spec(values@[i]@, d)),
            infer_prefix(scalar_views(values@), values@.len() as int) is Err ==> r matches Err(
                FrameError::Column(_),
            ),
            infer_prefix(scalar_views(values@), values@.len() as int) is Ok ==> (r is Ok
                <==> index_labels@.len() == values@.len()),
    {
        let index = Index::new(index_labels);
        let column = match Column::from_values(values) {
            Ok(c) => c,
            Err(e) => {
                return Err(FrameError::Column(e));
            },
        };
        Series::new(name, index, column)
    }

    pub fn name(&self) -> (r: &str)
        ensures
            r@ == self.spec_name(),
    {
        self.name.as_str()
    }

    pub fn index(&self) -> (r: &Index)
        ensures
            *r == self.spec_index(),
            r@.len() == self.spec_column()@.len(),
    {
        proof {
            use_type_invariant(self);
        }
        &self.index
    }

    pub fn column(&self) -> (r: &Column)
        ensures
            *r == self.spec_column(),
            r@.len() == self.spec_index()@.len(),
    {
        proof {
            use_type_invariant(self);
        }
        &self.column
    }

    pub fn values(&self) -> (r: &[Scalar])
        ensures
            crate::types::scalar_views(r@) == self.spec_column()@,
    {
        self.column.values()
    }
}

/// A named column's value: its dtype and values.
pub type ColumnView = (DType, Seq<ScalarView>);

/// The first position of `name` in `entries`, or -1.
pub open spec fn name_pos<X>(entries: Seq<(Seq<char>, X)>, name: Seq<char>) -> int
    decreases entries.len(),
{
    if entries.len() == 0 {
        -1
    } else if name_pos(entries.drop_last(), name) >= 0 {
        name_pos(entries.drop_last(), name)
    } else if entries.last().0 == name {
        entries.len() - 1
    } else {
        -1
    }
}

pub proof fn lemma_name_pos<X>(entries: Seq<(Seq<char>, X)>, name: Seq<char>)
    ensures
        name_pos(entries, name) == -1 ==> forall|j: int|
            0 <= j < entries.len() ==> (#[trigger] entries[j]).0 != name,
        name_pos(entries, name) != -1 ==> {
            let p = name_pos(entries, name);
            &&& 0 <= p < entries.len()
            &&& entries[p].0 == name
            &&& forall|j: int| 0 <= j < p ==> (#[trigger] entries[j]).0 != name
        },
    decreases entries.len(),
{
    if entries.len() > 0 {
        let d = entries.drop_last();
        lemma_name_pos(d, name);
        let pd = name_pos(d, name);
        if pd >= 0 {
            assert(entries[pd] == d[pd]);
            assert forall|j: int| 0 <= j < pd implies (#[trigger] entries[j]).0 != name by {
                assert(entries[j] == d[j]);
            }
        } else if entries.last().0 == name {
            assert forall|j: int| 0 <= j < entries.len() - 1 implies (#[trigger] entries[j]).0
                != name by {
                assert(entries[j] == d[j]);
            }
        } else {
            assert forall|j: int| 0 <= j < entries.len() implies (#[trigger] entries[j]).0 != name by {
                if j < d.len() {
                    assert(entries[j] == d[j]);
                }
            }
        }
    }
}

/// `entries` with `name` bound to `x`: in place when the name is there, appended otherwise.
pub open spec fn upsert<X>(entries: Seq<(Seq<char>, X)>, name: Seq<char>, x: X) -> Seq<
    (Seq<char>, X),
> {
    let p = name_pos(entries, name);
    if p >= 0 {
        entries.update(p, (name, x))
    } else {
        entries.push((name, x))
    }
}

/// No name appears twice.
pub open spec fn unique_names<X>(entries: Seq<(Seq<char>, X)>) -> bool {
    forall|i: int, j: int|
        0 <= i < j < entries.len() ==> (#[trigger] entries[i]).0 != (#[trigger] entries[j]).0
}

pub open spec fn column_entries(cols: Seq<(String, Column)>) -> Seq<(Seq<char>, ColumnView)> {
    cols.map_values(|e: (String, Column)| (e.0@, (e.1.spec_dtype(), e.1@)))
}

/// Binds `name` to `col` in `cols`, keeping names unique.
pub fn upsert_column(cols: &mut Vec<(String, Column)>, name: String, col: Column)
    requires
        unique_names(column_entries(old(cols)@)),
    ensures
        column_entries(final(cols)@) == upsert(
            column_entries(old(cols)@),
            name@,
            (col.spec_dtype(), col@),
        ),
        unique_names(column_entries(final(cols)@)),
{
    let ghost before = column_entries(cols@);
    let ghost x = (col.spec_dtype(), col@);
    let mut i: usize = 0;
    while i < cols.len()
        invariant
            before == column_entries(cols@),
            cols@ == old(cols)@,
            unique_names(before),
            x == (col.spec_dtype(), col@),
            i <= cols@.len(),
            forall|j: int| 0 <= j < i ==> (#[trigger] cols@[j]).0@ != name@,
        decreases cols@.len() - i,
    {
        if compare_text(cols[i].0.as_str(), name.as_str()) == 0 {
            proof {
                assert(before[i as int].0 == name@);
                lemma_name_pos(before, name@);
                let p = name_pos(before, name@);
                if p == -1 {
                    assert(before[i as int].0 != name@);
                } else if p != i {
                    if p < i {
                        assert(cols@[p].0@ != name@);
                    } else {
                        assert(before[i as int].0 != name@);
                    }
                }
            }
            let ghost nm = name@;
            let ghost old_cols = cols@;
            let mut entry = (name, col);
            let ghost ev = entry;
            cols.set_and_swap(i, &mut entry);
            proof {
                assert(cols@ == old_cols.update(i as int, ev));
                assert(column_entries(cols@)[i as int] == (nm, x));
                assert(column_entries(cols@) =~= before.update(i as int, (nm, x)));
                assert forall|a: int, b: int| 0 <= a < b < column_entries(cols@).len() implies (
                #[trigger] column_entries(cols@)[a]).0 != (#[trigger] column_entries(cols@)[b]).0 by {
                    assert(before[a].0 == column_entries(cols@)[a].0);
                    assert(before[b].0 == column_entries(cols@)[b].0);
                    assert(before[a].0 != before[b].0);
                }
            }
            return;
        }
        i = i + 1;
    }
    proof {
        lemma_name_pos(before, name@);
        if name_pos(before, name@) != -1 {
            let p = name_pos(before, name@);
            assert(cols@[p].0@ == name@);
        }
    }
    cols.push((name, col));
    proof {
        assert(column_entries(cols@) =~= before.push((name@, x)));
    }
}

/// Labelled rows holding named columns of one length; names are unique.
#[derive(Debug)]
pub struct DataFrame {
    index: Index,
    columns: Vec<(String, Column)>,
}

impl DataFrame {
    #[verifier::type_invariant]
    spec fn inv(&self) -> bool {
        &&& unique_names(column_entries(self.columns@))
        &&& forall|c: int|
            0 <= c < self.columns@.len() ==> (#[trigger] self.columns@[c]).1@.len() == self.index@.len()
    }

    pub closed spec fn spec_index(&self) -> Index {
        self.index
    }

    /// The columns, by name, in the order they were first added.
    pub closed spec fn entries(&self) -> Seq<(Seq<char>, ColumnView)> {
        column_entries(self.columns@)
    }

    /// A frame over `index`; a later column replaces an earlier one of the same name.
    pub fn new(index: Index, columns: Vec<(String, Column)>) -> (r: Result<DataFrame, FrameError>)
        ensures
            (forall|c: int| 0 <= c < columns@.len() ==> (#[trigger] columns@[c]).1@.len() == index@.len())
                ==> (r matches Ok(df) && df.spec_index() == index && df.entries() == upsert_all(
                column_entries(columns@),
                columns@.len() as int,
            )),
            (exists|c: int| 0 <= c < columns@.len() && (#[trigger] columns@[c]).1@.len() != index@.len())
                ==> r matches Err(FrameError::LengthMismatch { .. }),
    {
        let n = index.len();
        let mut i: usize = 0;
        while i < columns.len()
            invariant
                n == index@.len(),
                i <= columns@.len(),
                forall|c: int| 0 <= c < i ==> (#[trigger] columns@[c]).1@.len() == n,
            decreases columns@.len() - i,
        {
            let len = columns[i].1.len();
            if len != n {
                return Err(FrameError::LengthMismatch { index_len: n, column_len: len });
            }
            i = i + 1;
        }
        let ghost all = columns@;
        let mut rest = columns;
        let mut cols: Vec<(String, Column)> = Vec::new();
        let ghost mut k: int = 0;
        assert(column_entries(cols@) =~= upsert_all(column_entries(all), 0));
        while rest.len() > 0
            invariant
                0 <= k <= all.len(),
                rest@ == all.subrange(k, all.len() as int),
                n == index@.len(),
                forall|c: int| 0 <= c < all.len() ==> (#[trigger] all[c]).1@.len() == n,
                unique_names(column_entries(cols@)),
                column_entries(cols@) == upsert_all(column_entries(all), k),
                forall|c: int|
                    0 <= c < column_entries(cols@).len() ==> (#[trigger] column_entries(cols@)[c]).1.1.len()
                        == n,
            decreases rest@.len(),
        {
            let (name, col) = rest.remove(0);
            assert(all[k] == (name, col));
            assert(column_entries(all)[k] == (name@, (col.spec_dtype(), col@)));
            let ghost before = column_entries(cols@);
            let ghost x = (col.spec_dtype(), col@);
            let ghost nm = name@;
            upsert_column(&mut cols, name, col);
            proof {
                lemma_upsert_len(before, nm, x, n as int);
                k = k + 1;
                assert(rest@ =~= all.subrange(k, all.len() as int));
            }
        }
        assert(k == all.len());
        proof {
            assert forall|c: int| 0 <= c < cols@.len() implies (#[trigger] cols@[c]).1@.len() == index@.len() by {
                assert(column_entries(cols@)[c].1.1 == cols@[c].1@);
            }
        }
        Ok(DataFrame { index, columns: cols })
    }

    pub fn index(&self) -> (r: &Index)
        ensures
            *r == self.spec_index(),
    {
        &self.index
    }

    pub fn columns(&self) -> (r: &[(String, Column)])
        ensures
            column_entries(r@) == self.entries(),
    {
        self.columns.as_slice()
    }

    /// The column named `name`.
    pub fn column(&self, name: &str) -> (r: Option<&Column>)
        ensures
            match r {
                Some(c) => exists|i: int|
                    0 <= i < self.entries().len() && self.entries()[i].0 == name@ && self.entries()[i].1
                        == (c.spec_dtype(), c@),
                None => forall|i: int|
                    0 <= i < self.entries().len() ==> (#[trigger] self.entries()[i]).0 != name@,
            },
    {
        let r = find_column(&self.columns, name);
        assert(self.entries() == column_entries(self.columns@));
        r
    }
}

/// The column named `name` in `cols`.
pub fn find_column<'a>(cols: &'a Vec<(String, Column)>, name: &str) -> (r: Option<&'a Column>)
    ensures
        match r {
            Some(c) => exists|i: int|
                0 <= i < cols@.len() && column_entries(cols@)[i].0 == name@ && column_entries(cols@)[i].1
                    == (c.spec_dtype(), c@),
            None => forall|i: int|
                0 <= i < cols@.len() ==> (#[trigger] column_entries(cols@)[i]).0 != name@,
        },
{
    let mut i: usize = 0;
    while i < cols.len()
        invariant
            i <= cols@.len(),
            forall|j: int| 0 <= j < i ==> (#[trigger] column_entries(cols@)[j]).0 != name@,
        decreases cols@.len() - i,
    {
        if compare_text(cols[i].0.as_str(), name) == 0 {
            assert(column_entries(cols@)[i as int].0 == name@);
            return Some(&cols[i].1);
        }
        i = i + 1;
    }
    None
}

/// The entries bound one after the other.
pub open spec fn upsert_all<X>(entries: Seq<(Seq<char>, X)>, n: int) -> Seq<(Seq<char>, X)>
    decreases n,
{
    if n <= 0 {
        Seq::empty()
    } else {
        let prev = upsert_all(entries, n - 1);
        upsert(prev, entries[n - 1].0, entries[n - 1].1)
    }
}

proof fn lemma_upsert_len(e: Seq<(Seq<char>, ColumnView)>, name: Seq<char>, x: ColumnView, n: int)
    requires
        forall|c: int| 0 <= c < e.len() ==> (#[trigger] e[c]).1.1.len() == n,
        x.1.len() == n,
    ensures
        forall|c: int|
            0 <= c < upsert(e, name, x).len() ==> (#[trigger] upsert(e, name, x)[c]).1.1.len() == n,
{
    lemma_name_pos(e, name);
    let u = upsert(e, name, x);
    assert forall|c: int| 0 <= c < u.len() implies (#[trigger] u[c]).1.1.len() == n by {
        if c < e.len() && c != name_pos(e, name) {
            assert(u[c] == e[c]);
        }
    }
}

/// The index and columns of a frame built from the first `n` series: each series'
/// labels joined onto the union so far, the columns so far reindexed onto it.
pub open spec fn series_frame(ss: Seq<Series>, n: int) -> (Seq<LabelView>, Seq<(Seq<char>, ColumnView)>)
    decreases n,
{
    if n <= 0 {
        (Seq::empty(), Seq::empty())
    } else if n == 1 {
        (
            ss[0].spec_index()@,
            seq![(ss[0].spec_name(), (ss[0].spec_column().spec_dtype(), ss[0].spec_column()@))],
        )
    } else {
        let prev = series_frame(ss, n - 1);
        let u = prev.0;
        let s = ss[n - 1];
        let vi = s.spec_index()@;
        let u2 = u + right_only(u, vi, vi.len() as int);
        let lp = u2.map_values(|x: LabelView| first_index(u, x));
        let rp = u2.map_values(|x: LabelView| first_index(vi, x));
        let moved = prev.1.map_values(
            |e: (Seq<char>, ColumnView)| (e.0, (e.1.0, reindexed(e.1.1, e.1.0, lp))),
        );
        (
            u2,
            upsert(
                moved,
                s.spec_name(),
                (s.spec_column().spec_dtype(), reindexed(s.spec_column()@, s.spec_column().spec_dtype(), rp)),
            ),
        )
    }
}

impl DataFrame {
    /// A frame of the series, aligned on the union of their labels in order; a later
    /// series replaces an earlier one of the same name.
    pub fn from_series(series_list: Vec<Series>) -> (r: Result<DataFrame, FrameError>)
        ensures
            r matches Ok(df) && df.spec_index()@ == series_frame(series_list@, series_list@.len() as int).0
                && df.entries() == series_frame(series_list@, series_list@.len() as int).1,
    {
        let ghost all = series_list@;
        let mut rest = series_list;
        if rest.len() == 0 {
            let index = Index::new(Vec::new());
            let df = DataFrame { index, columns: Vec::new() };
            assert(df.spec_index()@ =~= Seq::<LabelView>::empty());
            assert(df.entries() =~= Seq::<(Seq<char>, ColumnView)>::empty());
            return Ok(df);
        }
        let first = rest.remove(0);
        proof {
            use_type_invariant(&first);
        }
        let Series { name, index, column } = first;
        let mut union_index = index;
        let mut columns: Vec<(String, Column)> = Vec::new();
        columns.push((name, column));
        let ghost mut k: int = 1;
        proof {
            assert(rest@ =~= all.subrange(1, all.len() as int));
            assert(column_entries(columns@) =~= series_frame(all, 1).1);
        }
        while rest.len() > 0
            invariant
                1 <= k <= all.len(),
                rest@ == all.subrange(k, all.len() as int),
                union_index@ == series_frame(all, k).0,
                column_entries(columns@) == series_frame(all, k).1,
                unique_names(column_entries(columns@)),
                forall|c: int| 0 <= c < columns@.len() ==> (#[trigger] columns@[c]).1@.len() == union_index@.len(),
            decreases rest@.len(),
        {
            let s = rest.remove(0);
            assert(all[k] == s);
            proof {
                use_type_invariant(&s);
            }
            let plan = align_union(&union_index, &s.index);
            let ghost u = union_index@;
            let ghost vi = s.index@;
            let ghost u2 = plan.union_index@;
            let ghost lp = u2.map_values(|x: LabelView| first_index(u, x));
            let ghost rp = u2.map_values(|x: LabelView| first_index(vi, x));
            proof {
                assert(plan.left_positions@ =~= lp) by {
                    assert forall|m: int| 0 <= m < u2.len() implies plan.left_positions@[m] == lp[m] by {
                        lemma_first_index(u, u2[m], plan.left_positions@[m]);
                    }
                }
                assert(plan.right_positions@ =~= rp) by {
                    assert forall|m: int| 0 <= m < u2.len() implies plan.right_positions@[m] == rp[m] by {
                        assert(plan.first_matches(u, vi));
                        assert(first_match(u, u2[m], plan.left_positions@[m]));
                        lemma_first_index(vi, u2[m], plan.right_positions@[m]);
                    }
                }
            }
            let mut next: Vec<(String, Column)> = Vec::new();
            let ghost prev = column_entries(columns@);
            let mut c: usize = 0;
            while c < columns.len()
                invariant
                    c <= columns@.len(),
                    prev == column_entries(columns@),
                    plan.left_positions@ == lp,
                    lp.len() == u2.len(),
                    column_entries(next@) == prev.take(c as int).map_values(
                        |e: (Seq<char>, ColumnView)| (e.0, (e.1.0, reindexed(e.1.1, e.1.0, lp))),
                    ),
                    forall|j: int| 0 <= j < next@.len() ==> (#[trigger] next@[j]).1@.len() == u2.len(),
                decreases columns@.len() - c,
            {
                let moved = match columns[c].1.reindex_by_positions(plan.left_positions.as_slice()) {
                    Ok(col) => col,
                    Err(_) => {
                        proof {
                            assert(false);
                        }
                        columns[c].1.clone()
                    },
                };
                let ghost before = next@;
                next.push((columns[c].0.clone(), moved));
                proof {
                    assert(column_entries(next@) =~= prev.take(c + 1).map_values(
                        |e: (Seq<char>, ColumnView)| (e.0, (e.1.0, reindexed(e.1.1, e.1.0, lp))),
                    )) by {
                        assert(prev[c as int] == (columns@[c as int].0@, (
                            columns@[c as int].1.spec_dtype(),
                            columns@[c as int].1@,
                        )));
                        assert(column_entries(next@) =~= column_entries(before).push(
                            (columns@[c as int].0@, (columns@[c as int].1.spec_dtype(), moved@)),
                        ));
                    }
                }
                c = c + 1;
            }
            proof {
                assert(prev.take(prev.len() as int) =~= prev);
                assert forall|a: int, b: int| 0 <= a < b < column_entries(next@).len() implies (
                #[trigger] column_entries(next@)[a]).0 != (#[trigger] column_entries(next@)[b]).0 by {
                    assert(column_entries(next@)[a].0 == prev[a].0);
                    assert(column_entries(next@)[b].0 == prev[b].0);
                }
            }
            let Series { name, index: _, column } = s;
            let aligned = match column.reindex_by_positions(plan.right_positions.as_slice()) {
                Ok(col) => col,
                Err(_) => {
                    proof {
                        assert(false);
                    }
                    column.clone()
                },
            };
            let ghost moved_entries = column_entries(next@);
            let ghost x = (aligned.spec_dtype(), aligned@);
            let ghost nm = name@;
            upsert_column(&mut next, name, aligned);
            proof {
                lemma_upsert_len(moved_entries, nm, x, u2.len() as int);
                assert forall|j: int| 0 <= j < next@.len() implies (#[trigger] next@[j]).1@.len() == u2.len() by {
                    assert(column_entries(next@)[j].1.1 == next@[j].1@);
                }
                assert forall|j: int| 0 <= j < moved_entries.len() implies (#[trigger] moved_entries[j]).1.1.len()
                    == u2.len() by {
                }
                k = k + 1;
                assert(rest@ =~= all.subrange(k, all.len() as int));
            }
            columns = next;
            union_index = plan.union_index;
        }
        Ok(DataFrame { index: union_index, columns })
    }
}

} // verus!
