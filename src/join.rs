use vstd::prelude::*;

use crate::column::{reindexed, Column, ColumnError};
use crate::frame::{FrameError, Series};
use crate::groups::{key_views, occurrences};
use crate::index::Index;
use crate::label::{IndexLabel, LabelView};

verus! {

#[verifier::external_type_specification]
#[verifier::external_body]
pub struct ExBump<const MIN_ALIGN: usize>(bumpalo::Bump<MIN_ALIGN>);

/// Relies on `bumpalo::Bump::new`: a fresh, empty arena, freed when dropped.
#[verifier::external_body]
fn new_arena() -> (r: bumpalo::Bump) {
    bumpalo::Bump::new()
}

/// Relies on `bumpalo::Bump::alloc_slice_fill_copy`: `n` copies of `None` allocated in
/// the arena (it panics only when the allocator cannot reserve the memory).
#[verifier::external_body]
fn arena_slots<'a>(arena: &'a bumpalo::Bump, n: usize) -> (r: &'a mut [Option<usize>])
    ensures
        r@ == Seq::new(n as nat, |i: int| None::<usize>),
{
    arena.alloc_slice_fill_copy(n, None)
}

#[derive(Debug, Clone, Copy, PartialEq, Eq, Structural)]
pub enum JoinType {
    Inner,
    Left,
    Right,
    Outer,
    Cross,
}

/// The joined labels with the two sides' values reindexed onto them.
#[derive(Debug)]
pub struct JoinedSeries {
    pub index: Index,
    pub left_values: Column,
    pub right_values: Column,
}

impl PartialEq for JoinedSeries {
    fn eq(&self, other: &JoinedSeries) -> (r: bool)
        ensures
            r == (self.index@ == other.index@ && self.left_values.same_spec(&other.left_values)
                && self.right_values.same_spec(&other.right_values)),
    {
        self.index.eq(&other.index) && self.left_values.same_as(&other.left_values)
            && self.right_values.same_as(&other.right_values)
    }
}

impl vstd::std_specs::cmp::PartialEqSpecImpl for JoinedSeries {
    open spec fn obeys_eq_spec() -> bool {
        true
    }

    open spec fn eq_spec(&self, other: &JoinedSeries) -> bool {
        self.index@ == other.index@ && self.left_values.same_spec(&other.left_values)
            && self.right_values.same_spec(&other.right_values)
    }
}

#[derive(Debug)]
pub enum JoinError {
    Frame(FrameError),
    Column(ColumnError),
}

pub const DEFAULT_ARENA_BUDGET_BYTES: usize = 268435456;

/// Whether the position buffers may live in a scoped arena, and how large it may grow.
#[derive(Debug, Clone, Copy, PartialEq, Eq, Structural)]
pub struct JoinExecutionOptions {
    pub use_arena: bool,
    pub arena_budget_bytes: usize,
}

impl Default for JoinExecutionOptions {
    fn default() -> (r: Self)
        ensures
            r.use_arena && r.arena_budget_bytes == DEFAULT_ARENA_BUDGET_BYTES,
    {
        JoinExecutionOptions { use_arena: true, arena_budget_bytes: DEFAULT_ARENA_BUDGET_BYTES }
    }
}

/// An output row: its label and the source row on each side.
pub type JoinRow = (LabelView, Option<usize>, Option<usize>);

/// The segments `f(0)`, ..., `f(n - 1)` one after the other.
pub open spec fn concat_segments<T>(f: spec_fn(int) -> Seq<T>, n: int) -> Seq<T>
    decreases n,
{
    if n <= 0 {
        Seq::empty()
    } else {
        concat_segments(f, n - 1) + f(n - 1)
    }
}

/// The rows for left row `i`: one per right match; an unmatched row is kept by left and outer joins.
pub open spec fn left_segment(l: Seq<LabelView>, r: Seq<LabelView>, t: JoinType, i: int) -> Seq<
    JoinRow,
> {
    let o = occurrences(r, l[i], r.len() as int);
    if o.len() > 0 {
        o.map_values(|p: usize| (l[i], Some(i as usize), Some(p)))
    } else if t == JoinType::Left || t == JoinType::Outer {
        seq![(l[i], Some(i as usize), None::<usize>)]
    } else {
        Seq::empty()
    }
}

/// The row for right row `j` in an outer join when no left row has its label.
pub open spec fn unmatched_segment(l: Seq<LabelView>, r: Seq<LabelView>, j: int) -> Seq<JoinRow> {
    if l.contains(r[j]) {
        Seq::empty()
    } else {
        seq![(r[j], None::<usize>, Some(j as usize))]
    }
}

/// The rows for right row `j` in a right join.
pub open spec fn right_segment(l: Seq<LabelView>, r: Seq<LabelView>, j: int) -> Seq<JoinRow> {
    let o = occurrences(l, r[j], l.len() as int);
    if o.len() > 0 {
        o.map_values(|p: usize| (r[j], Some(p), Some(j as usize)))
    } else {
        seq![(r[j], None::<usize>, Some(j as usize))]
    }
}

/// The rows for left row `i` in a cross join: every right row.
pub open spec fn cross_segment(l: Seq<LabelView>, r: Seq<LabelView>, i: int) -> Seq<JoinRow> {
    Seq::new(r.len(), |j: int| (l[i], Some(i as usize), Some(j as usize)))
}

/// The output rows of a join of label sequences `l` and `r`.
pub open spec fn join_rows(l: Seq<LabelView>, r: Seq<LabelView>, t: JoinType) -> Seq<JoinRow> {
    let lefts = concat_segments(|i: int| left_segment(l, r, t, i), l.len() as int);
    match t {
        JoinType::Inner | JoinType::Left => lefts,
        JoinType::Outer => lefts + concat_segments(|j: int| unmatched_segment(l, r, j), r.len() as int),
        JoinType::Right => concat_segments(|j: int| right_segment(l, r, j), r.len() as int),
        JoinType::Cross => concat_segments(|i: int| cross_segment(l, r, i), l.len() as int),
    }
}

pub open spec fn row_labels(rows: Seq<JoinRow>) -> Seq<LabelView> {
    rows.map_values(|x: JoinRow| x.0)
}

pub open spec fn row_lefts(rows: Seq<JoinRow>) -> Seq<Option<usize>> {
    rows.map_values(|x: JoinRow| x.1)
}

pub open spec fn row_rights(rows: Seq<JoinRow>) -> Seq<Option<usize>> {
    rows.map_values(|x: JoinRow| x.2)
}

/// The first `k` output rows are written.
pub open spec fn written(
    labels: Seq<IndexLabel>,
    lp: Seq<Option<usize>>,
    rp: Seq<Option<usize>>,
    target: Seq<JoinRow>,
    k: int,
) -> bool {
    &&& labels.len() == k
    &&& k <= target.len()
    &&& lp.len() == target.len()
    &&& rp.len() == target.len()
    &&& forall|m: int|
        0 <= m < k ==> #[trigger] labels[m]@ == target[m].0 && lp[m] == target[m].1 && rp[m]
            == target[m].2
}

pub proof fn lemma_segments_prefix<T>(f: spec_fn(int) -> Seq<T>, i: int, n: int)
    requires
        0 <= i <= n,
    ensures
        concat_segments(f, i).len() <= concat_segments(f, n).len(),
        forall|m: int|
            0 <= m < concat_segments(f, i).len() ==> #[trigger] concat_segments(f, n)[m]
                == concat_segments(f, i)[m],
    decreases n - i,
{
    if i < n {
        lemma_segments_prefix(f, i, n - 1);
    }
}

/// Where row `q` of segment `i` stands among all rows, and that it is there.
pub proof fn lemma_segment_entry<T>(
    pre: Seq<T>,
    f: spec_fn(int) -> Seq<T>,
    n: int,
    post: Seq<T>,
    i: int,
    q: int,
)
    requires
        0 <= i < n,
        0 <= q < f(i).len(),
    ensures
        pre.len() + concat_segments(f, i).len() + q < (pre + concat_segments(f, n) + post).len(),
        (pre + concat_segments(f, n) + post)[pre.len() + concat_segments(f, i).len() + q] == f(i)[q],
{
    lemma_segments_prefix(f, i + 1, n);
    let m = concat_segments(f, i).len() + q;
    assert(concat_segments(f, i + 1)[m] == f(i)[q]);
}

/// Writes one output row.
fn put(
    labels: &mut Vec<IndexLabel>,
    lp: &mut [Option<usize>],
    rp: &mut [Option<usize>],
    k: usize,
    label: IndexLabel,
    a: Option<usize>,
    b: Option<usize>,
    Ghost(target): Ghost<Seq<JoinRow>>,
)
    requires
        written(old(labels)@, old(lp)@, old(rp)@, target, k as int),
        k < target.len(),
        target[k as int] == (label@, a, b),
    ensures
        written(final(labels)@, final(lp)@, final(rp)@, target, k + 1),
{
    labels.push(label);
    lp[k] = a;
    rp[k] = b;
}

/// Writes every output row of the join of `left` and `right`.
fn fill_rows(
    left: &Index,
    right: &Index,
    t: JoinType,
    labels: &mut Vec<IndexLabel>,
    lp: &mut [Option<usize>],
    rp: &mut [Option<usize>],
)
    requires
        old(labels)@.len() == 0,
        old(lp)@.len() == join_rows(left@, right@, t).len(),
        old(rp)@.len() == join_rows(left@, right@, t).len(),
    ensures
        written(
            final(labels)@,
            final(lp)@,
            final(rp)@,
            join_rows(left@, right@, t),
            join_rows(left@, right@, t).len() as int,
        ),
{
    let ghost l = left@;
    let ghost r = right@;
    let ghost target = join_rows(l, r, t);
    let total = lp.len();
    let left_labels = left.labels();
    let right_labels = right.labels();
    let ln = left.len();
    let rn = right.len();
    let left_groups = left.groups();
    let right_groups = right.groups();
    let mut k: usize = 0;
    let ghost fl = |i: int| left_segment(l, r, t, i);
    let ghost fu = |j: int| unmatched_segment(l, r, j);
    let ghost fr = |j: int| right_segment(l, r, j);
    let ghost fc = |i: int| cross_segment(l, r, i);
    let ghost empty = Seq::<JoinRow>::empty();
    match t {
        JoinType::Inner | JoinType::Left | JoinType::Outer => {
            let ghost post = if t == JoinType::Outer {
                concat_segments(fu, r.len() as int)
            } else {
                empty
            };
            assert(target =~= empty + concat_segments(fl, l.len() as int) + post);
            let mut i: usize = 0;
            while i < ln
                invariant
                    l == left@,
                    r == right@,
                    ln == l.len(),
                    rn == r.len(),
                    key_views(left_labels@) == l,
                    right_groups.describes(r, r.len() as int),
                    fl == (|i: int| left_segment(l, r, t, i)),
                    target == empty + concat_segments(fl, l.len() as int) + post,
                    empty.len() == 0,
                    t == JoinType::Inner || t == JoinType::Left || t == JoinType::Outer,
                    i <= l.len(),
                    k == concat_segments(fl, i as int).len(),
                    written(labels@, lp@, rp@, target, k as int),
                    total == target.len(),
                total == target.len(),
                decreases l.len() - i,
            {
                let label = &left_labels[i];
                assert(l[i as int] == label@);
                let ghost base = k as int;
                match right_groups.rows_of(label, Ghost(r)) {
                    Some(v) => {
                        let mut q: usize = 0;
                        while q < v.len()
                            invariant
                                fl == (|i: int| left_segment(l, r, t, i)),
                                target == empty + concat_segments(fl, l.len() as int) + post,
                                empty.len() == 0,
                                i < l.len(),
                                l[i as int] == label@,
                                v@ == occurrences(r, label@, r.len() as int),
                                v@.len() > 0,
                                base == concat_segments(fl, i as int).len(),
                                q <= v@.len(),
                                k == base + q,
                                written(labels@, lp@, rp@, target, k as int),
                                total == target.len(),
                        total == target.len(),
                    total == target.len(),
                total == target.len(),
                            decreases v@.len() - q,
                        {
                            proof {
                                assert(fl(i as int)[q as int] == (label@, Some(i), Some(v@[q as int])));
                                lemma_segment_entry(empty, fl, l.len() as int, post, i as int, q as int);
                            }
                            put(labels, lp, rp, k, label.clone(), Some(i), Some(v[q]), Ghost(target));
                            k = k + 1;
                            q = q + 1;
                        }
                    },
                    None => {
                        if let JoinType::Inner = t {
                        } else {
                            proof {
                                assert(fl(i as int) =~= seq![(label@, Some(i), None::<usize>)]);
                                lemma_segment_entry(empty, fl, l.len() as int, post, i as int, 0);
                            }
                            put(labels, lp, rp, k, label.clone(), Some(i), None, Ghost(target));
                            k = k + 1;
                        }
                    },
                }
                assert(concat_segments(fl, i + 1) == concat_segments(fl, i as int) + fl(i as int));
                i = i + 1;
            }
            if let JoinType::Outer = t {
                let ghost pre = concat_segments(fl, l.len() as int);
                assert(target =~= pre + concat_segments(fu, r.len() as int) + empty);
                let mut j: usize = 0;
                while j < rn
                    invariant
                        l == left@,
                        r == right@,
                        ln == l.len(),
                        rn == r.len(),
                        key_views(right_labels@) == r,
                        left_groups.describes(l, l.len() as int),
                        fu == (|j: int| unmatched_segment(l, r, j)),
                        target == pre + concat_segments(fu, r.len() as int) + empty,
                        empty.len() == 0,
                        j <= r.len(),
                        k == pre.len() + concat_segments(fu, j as int).len(),
                        written(labels@, lp@, rp@, target, k as int),
                        total == target.len(),
                    total == target.len(),
                total == target.len(),
                    decreases r.len() - j,
                {
                    let label = &right_labels[j];
                    assert(r[j as int] == label@);
                    if left_groups.rows_of(label, Ghost(l)).is_none() {
                        proof {
                            assert(!l.contains(label@));
                            lemma_segment_entry(pre, fu, r.len() as int, empty, j as int, 0);
                        }
                        put(labels, lp, rp, k, label.clone(), None, Some(j), Ghost(target));
                        k = k + 1;
                    } else {
                        proof {
                            let p = choose|p: int| 0 <= p < l.len() && l[p] == label@;
                            assert(l.contains(label@));
                        }
                    }
                    assert(concat_segments(fu, j + 1) == concat_segments(fu, j as int) + fu(j as int));
                    j = j + 1;
                }
            }
        },
        JoinType::Right => {
            assert(target =~= empty + concat_segments(fr, r.len() as int) + empty);
            let mut j: usize = 0;
            while j < rn
                invariant
                    l == left@,
                    r == right@,
                    ln == l.len(),
                    rn == r.len(),
                    key_views(right_labels@) == r,
                    left_groups.describes(l, l.len() as int),
                    fr == (|j: int| right_segment(l, r, j)),
                    target == empty + concat_segments(fr, r.len() as int) + empty,
                    empty.len() == 0,
                    j <= r.len(),
                    k == concat_segments(fr, j as int).len(),
                    written(labels@, lp@, rp@, target, k as int),
                    total == target.len(),
                total == target.len(),
                decreases r.len() - j,
            {
                let label = &right_labels[j];
                assert(r[j as int] == label@);
                let ghost base = k as int;
                match left_groups.rows_of(label, Ghost(l)) {
                    Some(v) => {
                        let mut q: usize = 0;
                        while q < v.len()
                            invariant
                                fr == (|j: int| right_segment(l, r, j)),
                                target == empty + concat_segments(fr, r.len() as int) + empty,
                                empty.len() == 0,
                                j < r.len(),
                                r[j as int] == label@,
                                v@ == occurrences(l, label@, l.len() as int),
                                v@.len() > 0,
                                base == concat_segments(fr, j as int).len(),
                                q <= v@.len(),
                                k == base + q,
                                written(labels@, lp@, rp@, target, k as int),
                                total == target.len(),
                        total == target.len(),
                    total == target.len(),
                total == target.len(),
                            decreases v@.len() - q,
                        {
                            proof {
                                assert(fr(j as int)[q as int] == (label@, Some(v@[q as int]), Some(j)));
                                lemma_segment_entry(empty, fr, r.len() as int, empty, j as int, q as int);
                            }
                            put(labels, lp, rp, k, label.clone(), Some(v[q]), Some(j), Ghost(target));
                            k = k + 1;
                            q = q + 1;
                        }
                    },
                    None => {
                        proof {
                            lemma_segment_entry(empty, fr, r.len() as int, empty, j as int, 0);
                        }
                        put(labels, lp, rp, k, label.clone(), None, Some(j), Ghost(target));
                        k = k + 1;
                    },
                }
                assert(concat_segments(fr, j + 1) == concat_segments(fr, j as int) + fr(j as int));
                j = j + 1;
            }
        },
        JoinType::Cross => {
            assert(target =~= empty + concat_segments(fc, l.len() as int) + empty);
            let mut i: usize = 0;
            while i < ln
                invariant
                    l == left@,
                    r == right@,
                    ln == l.len(),
                    rn == r.len(),
                    key_views(left_labels@) == l,
                    fc == (|i: int| cross_segment(l, r, i)),
                    target == empty + concat_segments(fc, l.len() as int) + empty,
                    empty.len() == 0,
                    i <= l.len(),
                    k == concat_segments(fc, i as int).len(),
                    written(labels@, lp@, rp@, target, k as int),
                    total == target.len(),
                total == target.len(),
                decreases l.len() - i,
            {
                let label = &left_labels[i];
                assert(l[i as int] == label@);
                let ghost base = k as int;
                let mut j: usize = 0;
                while j < rn
                    invariant
                        fc == (|i: int| cross_segment(l, r, i)),
                        target == empty + concat_segments(fc, l.len() as int) + empty,
                        empty.len() == 0,
                        rn == r.len(),
                        i < l.len(),
                        l[i as int] == label@,
                        base == concat_segments(fc, i as int).len(),
                        j <= r.len(),
                        k == base + j,
                        written(labels@, lp@, rp@, target, k as int),
                        total == target.len(),
                    total == target.len(),
                total == target.len(),
                    decreases r.len() - j,
                {
                    proof {
                        lemma_segment_entry(empty, fc, l.len() as int, empty, i as int, j as int);
                    }
                    put(labels, lp, rp, k, label.clone(), Some(i), Some(j), Ghost(target));
                    k = k + 1;
                    j = j + 1;
                }
                assert(concat_segments(fc, i + 1) == concat_segments(fc, i as int) + fc(i as int));
                i = i + 1;
            }
        },
    }
}

proof fn lemma_cross_len(
    l: Seq<LabelView>,
    r: Seq<LabelView>,
    f: spec_fn(int) -> Seq<JoinRow>,
    n: int,
)
    requires
        0 <= n,
        f == (|i: int| cross_segment(l, r, i)),
    ensures
        concat_segments(f, n).len() == n * r.len(),
    decreases n,
{
    if n > 0 {
        lemma_cross_len(l, r, f, n - 1);
        assert(f(n - 1).len() == r.len());
        assert(concat_segments(f, n) == concat_segments(f, n - 1) + f(n - 1));
        assert(n * r.len() == (n - 1) * r.len() + r.len()) by (nonlinear_arith);
    } else {
        assert(n * r.len() == 0) by (nonlinear_arith)
            requires
                n == 0,
        ;
    }
}

/// `a + b`, or `usize::MAX` when that does not fit.
fn add_saturating(a: usize, b: usize) -> (r: usize)
    ensures
        r == if a + b > usize::MAX {
            usize::MAX as int
        } else {
            a + b
        },
{
    a.saturating_add(b)
}

/// `a * b`, or `usize::MAX` when that does not fit.
fn mul_saturating(a: usize, b: usize) -> (r: usize)
    ensures
        r == if a * b > usize::MAX {
            usize::MAX as int
        } else {
            a * b
        },
{
    match a.checked_mul(b) {
        Some(p) => p,
        None => usize::MAX,
    }
}

pub open spec fn saturated(n: int) -> int {
    if n > usize::MAX {
        usize::MAX as int
    } else {
        n
    }
}

/// The number of output rows of the join, saturated at `usize::MAX`.
pub fn estimate_output_rows(left: &Index, right: &Index, join_type: JoinType) -> (r: usize)
    ensures
        r == saturated(join_rows(left@, right@, join_type).len() as int),
{
    let ghost l = left@;
    let ghost r = right@;
    let t = join_type;
    let ghost fl = |i: int| left_segment(l, r, t, i);
    let ghost fu = |j: int| unmatched_segment(l, r, j);
    let ghost fr = |j: int| right_segment(l, r, j);
    let ghost fc = |i: int| cross_segment(l, r, i);
    let left_labels = left.labels();
    let right_labels = right.labels();
    let ln = left.len();
    let rn = right.len();
    match t {
        JoinType::Cross => {
            proof {
                lemma_cross_len(l, r, fc, l.len() as int);
            }
            mul_saturating(ln, rn)
        },
        JoinType::Right => {
            let left_groups = left.groups();
            let mut acc: usize = 0;
            let mut j: usize = 0;
            while j < rn
                invariant
                    l == left@,
                    r == right@,
                    ln == l.len(),
                    rn == r.len(),
                    key_views(right_labels@) == r,
                    left_groups.describes(l, l.len() as int),
                    fr == (|j: int| right_segment(l, r, j)),
                    j <= r.len(),
                    acc == saturated(concat_segments(fr, j as int).len() as int),
                decreases r.len() - j,
            {
                let label = &right_labels[j];
                assert(r[j as int] == label@);
                let seg: usize = match left_groups.rows_of(label, Ghost(l)) {
                    Some(v) => v.len(),
                    None => 1,
                };
                assert(seg == fr(j as int).len());
                acc = add_saturating(acc, seg);
                assert(concat_segments(fr, j + 1) == concat_segments(fr, j as int) + fr(j as int));
                j = j + 1;
            }
            acc
        },
        _ => {
            let right_groups = right.groups();
            let mut acc: usize = 0;
            let mut i: usize = 0;
            while i < ln
                invariant
                    l == left@,
                    r == right@,
                    ln == l.len(),
                    rn == r.len(),
                    key_views(left_labels@) == l,
                    right_groups.describes(r, r.len() as int),
                    fl == (|i: int| left_segment(l, r, t, i)),
                    t == JoinType::Inner || t == JoinType::Left || t == JoinType::Outer,
                    i <= l.len(),
                    acc == saturated(concat_segments(fl, i as int).len() as int),
                decreases l.len() - i,
            {
                let label = &left_labels[i];
                assert(l[i as int] == label@);
                let seg: usize = match right_groups.rows_of(label, Ghost(r)) {
                    Some(v) => v.len(),
                    None => match t {
                        JoinType::Inner => 0,
                        _ => 1,
                    },
                };
                assert(seg == fl(i as int).len());
                acc = add_saturating(acc, seg);
                assert(concat_segments(fl, i + 1) == concat_segments(fl, i as int) + fl(i as int));
                i = i + 1;
            }
            if let JoinType::Outer = t {
                let left_groups = left.groups();
                let ghost lefts = concat_segments(fl, l.len() as int);
                let mut j: usize = 0;
                while j < rn
                    invariant
                        l == left@,
                        r == right@,
                        ln == l.len(),
                        rn == r.len(),
                        key_views(right_labels@) == r,
                        left_groups.describes(l, l.len() as int),
                        fu == (|j: int| unmatched_segment(l, r, j)),
                        j <= r.len(),
                        acc == saturated((lefts.len() + concat_segments(fu, j as int).len()) as int),
                    decreases r.len() - j,
                {
                    let label = &right_labels[j];
                    assert(r[j as int] == label@);
                    let seg: usize = if left_groups.rows_of(label, Ghost(l)).is_none() {
                        1
                    } else {
                        0
                    };
                    proof {
                        if seg == 0 {
                            let p = choose|p: int| 0 <= p < l.len() && l[p] == label@;
                            assert(l.contains(label@));
                        }
                    }
                    assert(seg == fu(j as int).len());
                    acc = add_saturating(acc, seg);
                    assert(concat_segments(fu, j + 1) == concat_segments(fu, j as int) + fu(j as int));
                    j = j + 1;
                }
            }
            acc
        },
    }
}

pub open spec fn bytes_per_row() -> int {
    saturated(
        saturated((vstd::layout::size_of::<Option<usize>>() * 2) as int)
            + vstd::layout::size_of::<IndexLabel>(),
    )
}

/// Bytes that the position buffers and labels of `output_rows` rows take, saturated.
pub fn estimate_intermediate_bytes(output_rows: usize) -> (r: usize)
    ensures
        r == saturated(output_rows * bytes_per_row()),
{
    let pos = core::mem::size_of::<Option<usize>>();
    let label = core::mem::size_of::<IndexLabel>();
    let per_row = add_saturating(mul_saturating(pos, 2), label);
    mul_saturating(output_rows, per_row)
}

/// The joined series that `join_type` gives: the output labels, and each side's
/// column reindexed by its source rows.
pub open spec fn is_join_of(js: JoinedSeries, left: Series, right: Series, t: JoinType) -> bool {
    let rows = join_rows(left.spec_index()@, right.spec_index()@, t);
    &&& js.index@ == row_labels(rows)
    &&& js.left_values.spec_dtype() == left.spec_column().spec_dtype()
    &&& js.left_values@ == reindexed(
        left.spec_column()@,
        left.spec_column().spec_dtype(),
        row_lefts(rows),
    )
    &&& js.right_values.spec_dtype() == right.spec_column().spec_dtype()
    &&& js.right_values@ == reindexed(
        right.spec_column()@,
        right.spec_column().spec_dtype(),
        row_rights(rows),
    )
}

/// Builds the joined series from the written rows.
fn assemble(
    left: &Series,
    right: &Series,
    t: JoinType,
    labels: Vec<IndexLabel>,
    lp: &[Option<usize>],
    rp: &[Option<usize>],
) -> (r: JoinedSeries)
    requires
        written(
            labels@,
            lp@,
            rp@,
            join_rows(left.spec_index()@, right.spec_index()@, t),
            join_rows(left.spec_index()@, right.spec_index()@, t).len() as int,
        ),
    ensures
        is_join_of(r, *left, *right, t),
{
    let ghost rows = join_rows(left.spec_index()@, right.spec_index()@, t);
    let ghost lv = labels@;
    let index = Index::new(labels);
    proof {
        assert(index@ =~= row_labels(rows)) by {
            assert forall|m: int| 0 <= m < rows.len() implies index@[m] == row_labels(rows)[m] by {
                assert(key_views(lv)[m] == lv[m]@);
                assert(lv[m]@ == rows[m].0);
            }
        }
        assert forall|m: int| 0 <= m < rows.len() implies lp@[m] == row_lefts(rows)[m] && rp@[m]
            == row_rights(rows)[m] by {
            assert(lv[m]@ == rows[m].0);
        }
        assert(lp@ =~= row_lefts(rows));
        assert(rp@ =~= row_rights(rows));
    }
    let left_values = match left.column().reindex_by_positions(lp) {
        Ok(c) => c,
        Err(_) => {
            proof {
                assert(false);
            }
            left.column().clone()
        },
    };
    let right_values = match right.column().reindex_by_positions(rp) {
        Ok(c) => c,
        Err(_) => {
            proof {
                assert(false);
            }
            right.column().clone()
        },
    };
    JoinedSeries { index, left_values, right_values }
}

/// The join with its position buffers on the heap.
fn join_on_heap(left: &Series, right: &Series, t: JoinType, output_rows: usize) -> (r: JoinedSeries)
    requires
        output_rows == join_rows(left.spec_index()@, right.spec_index()@, t).len(),
    ensures
        is_join_of(r, *left, *right, t),
{
    let mut labels: Vec<IndexLabel> = Vec::new();
    let mut lp: Vec<Option<usize>> = vec![None; output_rows];
    let mut rp: Vec<Option<usize>> = vec![None; output_rows];
    fill_rows(left.index(), right.index(), t, &mut labels, lp.as_mut_slice(), rp.as_mut_slice());
    assemble(left, right, t, labels, lp.as_slice(), rp.as_slice())
}

/// The join with its position buffers in an arena that is freed on return.
fn join_in_arena(left: &Series, right: &Series, t: JoinType, output_rows: usize) -> (r: JoinedSeries)
    requires
        output_rows == join_rows(left.spec_index()@, right.spec_index()@, t).len(),
    ensures
        is_join_of(r, *left, *right, t),
{
    let arena = new_arena();
    let mut labels: Vec<IndexLabel> = Vec::new();
    let lp = arena_slots(&arena, output_rows);
    let rp = arena_slots(&arena, output_rows);
    fill_rows(left.index(), right.index(), t, &mut labels, lp, rp);
    assemble(left, right, t, labels, lp, rp)
}

/// How a join ran: whether the arena held the buffers, the output rows, and the
/// estimated bytes that decided it.
#[derive(Debug, Clone, Copy, PartialEq, Eq, Structural)]
pub struct JoinExecutionTrace {
    pub used_arena: bool,
    pub output_rows: usize,
    pub estimated_bytes: usize,
}

/// Joins two series by label and reports how. The arena holds the position buffers when
/// it is enabled and the estimated bytes fit its budget; the result is the same either way.
pub fn join_series_with_trace(
    left: &Series,
    right: &Series,
    join_type: JoinType,
    options: JoinExecutionOptions,
) -> (r: Result<(JoinedSeries, JoinExecutionTrace), JoinError>)
    requires
        join_rows(left.spec_index()@, right.spec_index()@, join_type).len() < usize::MAX,
    ensures
        r matches Ok((js, trace)) && is_join_of(js, *left, *right, join_type) && trace.output_rows
            == join_rows(left.spec_index()@, right.spec_index()@, join_type).len()
            && trace.estimated_bytes == saturated(trace.output_rows * bytes_per_row())
            && trace.used_arena == (options.use_arena && trace.estimated_bytes
            <= options.arena_budget_bytes),
{
    let output_rows = estimate_output_rows(left.index(), right.index(), join_type);
    let estimated_bytes = estimate_intermediate_bytes(output_rows);
    let use_arena = options.use_arena && estimated_bytes <= options.arena_budget_bytes;
    let joined = if use_arena {
        join_in_arena(left, right, join_type, output_rows)
    } else {
        join_on_heap(left, right, join_type, output_rows)
    };
    Ok((joined, JoinExecutionTrace { used_arena: use_arena, output_rows, estimated_bytes }))
}

/// Joins two series by label. The output is the same whichever allocator holds the
/// position buffers.
pub fn join_series_with_options(
    left: &Series,
    right: &Series,
    join_type: JoinType,
    options: JoinExecutionOptions,
) -> (r: Result<JoinedSeries, JoinError>)
    requires
        join_rows(left.spec_index()@, right.spec_index()@, join_type).len() < usize::MAX,
    ensures
        r matches Ok(js) && is_join_of(js, *left, *right, join_type),
{
    match join_series_with_trace(left, right, join_type, options) {
        Ok((joined, _)) => Ok(joined),
        Err(e) => Err(e),
    }
}

/// Joins two series by label with the default options.
pub fn join_series(left: &Series, right: &Series, join_type: JoinType) -> (r: Result<
    JoinedSeries,
    JoinError,
>)
    requires
        join_rows(left.spec_index()@, right.spec_index()@, join_type).len() < usize::MAX,
    ensures
        r matches Ok(js) && is_join_of(js, *left, *right, join_type),
{
    join_series_with_options(left, right, join_type, JoinExecutionOptions::default())
}

/// A join result is determined by its inputs: two results of the same join, for
/// instance one built in the arena and one on the heap, are identical.
pub proof fn lemma_join_result_unique(
    a: JoinedSeries,
    b: JoinedSeries,
    left: Series,
    right: Series,
    t: JoinType,
)
    requires
        is_join_of(a, left, right, t),
        is_join_of(b, left, right, t),
    ensures
        a.index@ == b.index@,
        a.left_values@ == b.left_values@,
        a.right_values@ == b.right_values@,
        a.left_values.spec_dtype() == b.left_values.spec_dtype(),
        a.right_values.spec_dtype() == b.right_values.spec_dtype(),
{
}

} // verus!
