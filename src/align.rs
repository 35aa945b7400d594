use vstd::prelude::*;

use crate::groups::{first_match, key_views};
use crate::index::Index;
use crate::label::{IndexLabel, LabelView};

verus! {

/// Output rows with, for each, the source row on either side (`None`: no row contributes).
#[derive(Debug)]
pub struct AlignmentPlan {
    pub union_index: Index,
    pub left_positions: Vec<Option<usize>>,
    pub right_positions: Vec<Option<usize>>,
}

impl PartialEq for AlignmentPlan {
    fn eq(&self, other: &AlignmentPlan) -> (r: bool)
        ensures
            r == (self.union_index@ == other.union_index@ && self.left_positions@
                == other.left_positions@ && self.right_positions@ == other.right_positions@),
    {
        let same_index = self.union_index.eq(&other.union_index);
        let same_left = positions_equal(&self.left_positions, &other.left_positions);
        let same_right = positions_equal(&self.right_positions, &other.right_positions);
        same_index && same_left && same_right
    }
}

impl vstd::std_specs::cmp::PartialEqSpecImpl for AlignmentPlan {
    open spec fn obeys_eq_spec() -> bool {
        true
    }

    open spec fn eq_spec(&self, other: &AlignmentPlan) -> bool {
        self.union_index@ == other.union_index@ && self.left_positions@ == other.left_positions@
            && self.right_positions@ == other.right_positions@
    }
}

fn positions_equal(a: &Vec<Option<usize>>, b: &Vec<Option<usize>>) -> (r: bool)
    ensures
        r == (a@ == b@),
{
    if a.len() != b.len() {
        return false;
    }
    let mut i: usize = 0;
    while i < a.len()
        invariant
            i <= a@.len(),
            a@.len() == b@.len(),
            forall|k: int| 0 <= k < i ==> a@[k] == b@[k],
        decreases a@.len() - i,
    {
        let same = match (a[i], b[i]) {
            (Some(x), Some(y)) => x == y,
            (None, None) => true,
            _ => false,
        };
        if !same {
            return false;
        }
        i = i + 1;
    }
    assert(a@ =~= b@);
    true
}

#[derive(Debug, Clone, Copy, PartialEq, Eq, Structural)]
pub enum IndexError {
    InvalidAlignmentVectors,
}

impl IndexError {
    pub fn message(&self) -> (r: String) {
        match self {
            IndexError::InvalidAlignmentVectors => "alignment vectors must have equal lengths".to_string(),
        }
    }
}

/// Alignment mode for index-level join semantics.
#[derive(Debug, Clone, Copy, PartialEq, Eq, Structural)]
pub enum AlignMode {
    /// Only labels present in both indexes.
    Inner,
    /// All left labels; right fills with `None` for missing.
    Left,
    /// All right labels; left fills with `None` for missing.
    Right,
    /// All labels from both indexes.
    Outer,
}

/// The left rows, among the first `n`, whose label occurs on the right.
pub open spec fn inner_rows(l: Seq<LabelView>, r: Seq<LabelView>, n: int) -> Seq<usize>
    decreases n,
{
    if n <= 0 {
        Seq::empty()
    } else {
        let p = inner_rows(l, r, n - 1);
        if r.contains(l[n - 1]) {
            p.push((n - 1) as usize)
        } else {
            p
        }
    }
}

/// The labels, among the first `n` of `r`, that do not occur in `l`, in `r`'s order.
pub open spec fn right_only(l: Seq<LabelView>, r: Seq<LabelView>, n: int) -> Seq<LabelView>
    decreases n,
{
    if n <= 0 {
        Seq::empty()
    } else {
        let p = right_only(l, r, n - 1);
        if l.contains(r[n - 1]) {
            p
        } else {
            p.push(r[n - 1])
        }
    }
}

impl AlignmentPlan {
    /// The three sequences have one entry per output row.
    pub open spec fn complete(&self) -> bool {
        &&& self.left_positions@.len() == self.union_index@.len()
        &&& self.right_positions@.len() == self.union_index@.len()
    }

    /// Every output row takes, on each side, the first row that holds its label.
    pub open spec fn first_matches(&self, l: Seq<LabelView>, r: Seq<LabelView>) -> bool {
        forall|k: int|
            0 <= k < self.union_index@.len() ==> {
                &&& first_match(l, self.union_index@[k], #[trigger] self.left_positions@[k])
                &&& first_match(r, self.union_index@[k], self.right_positions@[k])
            }
    }

    /// An inner alignment of `l` and `r`.
    pub open spec fn is_inner(&self, l: Seq<LabelView>, r: Seq<LabelView>) -> bool {
        let rows = inner_rows(l, r, l.len() as int);
        &&& self.complete()
        &&& self.union_index@.len() == rows.len()
        &&& forall|k: int|
            0 <= k < rows.len() ==> #[trigger] self.left_positions@[k] == Some(rows[k])
                && self.union_index@[k] == l[rows[k] as int] && first_match(
                r,
                self.union_index@[k],
                self.right_positions@[k],
            )
    }

    /// A left alignment of `l` and `r`.
    pub open spec fn is_left(&self, l: Seq<LabelView>, r: Seq<LabelView>) -> bool {
        &&& self.complete()
        &&& self.union_index@ == l
        &&& forall|k: int|
            0 <= k < l.len() ==> #[trigger] self.left_positions@[k] == Some(k as usize)
                && first_match(r, l[k], self.right_positions@[k])
    }

    /// A right alignment of `l` and `r`.
    pub open spec fn is_right(&self, l: Seq<LabelView>, r: Seq<LabelView>) -> bool {
        &&& self.complete()
        &&& self.union_index@ == r
        &&& forall|k: int|
            0 <= k < r.len() ==> #[trigger] self.right_positions@[k] == Some(k as usize)
                && first_match(l, r[k], self.left_positions@[k])
    }

    /// The union alignment: every left label, then the right labels that the left lacks.
    pub open spec fn is_union(&self, l: Seq<LabelView>, r: Seq<LabelView>) -> bool {
        &&& self.complete()
        &&& self.union_index@ == l + right_only(l, r, r.len() as int)
        &&& self.first_matches(l, r)
    }

    /// The plan that `align` gives for `mode`.
    pub open spec fn is_alignment(
        &self,
        l: Seq<LabelView>,
        r: Seq<LabelView>,
        mode: AlignMode,
    ) -> bool {
        match mode {
            AlignMode::Inner => self.is_inner(l, r),
            AlignMode::Left => self.is_left(l, r),
            AlignMode::Right => self.is_right(l, r),
            AlignMode::Outer => self.is_union(l, r),
        }
    }
}

/// Aligns two indexes under `mode`.
pub fn align(left: &Index, right: &Index, mode: AlignMode) -> (plan: AlignmentPlan)
    ensures
        plan.is_alignment(left@, right@, mode),
        plan.complete(),
{
    match mode {
        AlignMode::Inner => align_inner(left, right),
        AlignMode::Left => align_left(left, right),
        AlignMode::Right => {
            let plan = align_left(right, left);
            AlignmentPlan {
                union_index: plan.union_index,
                left_positions: plan.right_positions,
                right_positions: plan.left_positions,
            }
        },
        AlignMode::Outer => align_union(left, right),
    }
}

/// Inner alignment: left rows, in order, whose label has a match on the right.
pub fn align_inner(left: &Index, right: &Index) -> (plan: AlignmentPlan)
    ensures
        plan.is_inner(left@, right@),
{
    let ghost l = left@;
    let ghost r = right@;
    let right_groups = right.groups();
    let left_labels = left.labels();
    let rn = right.len();
    let mut labels: Vec<IndexLabel> = Vec::new();
    let mut left_positions: Vec<Option<usize>> = Vec::new();
    let mut right_positions: Vec<Option<usize>> = Vec::new();
    let mut i: usize = 0;
    while i < left_labels.len()
        invariant
            l == left@,
            r == right@,
            rn == r.len(),
            key_views(left_labels@) == l,
            right_groups.describes(r, r.len() as int),
            i <= l.len(),
            labels@.len() == left_positions@.len(),
            labels@.len() == right_positions@.len(),
            labels@.len() == inner_rows(l, r, i as int).len(),
            forall|k: int|
                0 <= k < labels@.len() ==> {
                    let row = inner_rows(l, r, i as int)[k];
                    &&& #[trigger] left_positions@[k] == Some(row)
                    &&& row < i
                    &&& labels@[k]@ == l[row as int]
                    &&& first_match(r, labels@[k]@, right_positions@[k])
                },
        decreases l.len() - i,
    {
        let label = &left_labels[i];
        assert(l[i as int] == label@);
        let found = right_groups.first_row(label, Ghost(r));
        match found {
            Some(p) => {
                assert(r.contains(label@));
                labels.push(label.clone());
                left_positions.push(Some(i));
                right_positions.push(Some(p));
            },
            None => {
                assert(!r.contains(label@));
            },
        }
        i = i + 1;
    }
    let ghost lv = labels@;
    let union_index = Index::new(labels);
    proof {
        assert forall|k: int| 0 <= k < lv.len() implies union_index@[k] == lv[k]@ by {
            assert(key_views(lv)[k] == lv[k]@);
        }
    }
    AlignmentPlan { union_index, left_positions, right_positions }
}

/// Left alignment: every left row, with the first right row of its label.
pub fn align_left(left: &Index, right: &Index) -> (plan: AlignmentPlan)
    ensures
        plan.is_left(left@, right@),
{
    let ghost l = left@;
    let ghost r = right@;
    let right_groups = right.groups();
    let left_labels = left.labels();
    let rn = right.len();
    let mut left_positions: Vec<Option<usize>> = Vec::new();
    let mut right_positions: Vec<Option<usize>> = Vec::new();
    let mut i: usize = 0;
    while i < left_labels.len()
        invariant
            l == left@,
            r == right@,
            rn == r.len(),
            key_views(left_labels@) == l,
            right_groups.describes(r, r.len() as int),
            i <= l.len(),
            left_positions@.len() == i,
            right_positions@.len() == i,
            forall|k: int|
                0 <= k < i ==> #[trigger] left_positions@[k] == Some(k as usize) && first_match(
                    r,
                    l[k],
                    right_positions@[k],
                ),
        decreases l.len() - i,
    {
        assert(l[i as int] == left_labels@[i as int]@);
        let found = right_groups.first_row(&left_labels[i], Ghost(r));
        left_positions.push(Some(i));
        right_positions.push(found);
        i = i + 1;
    }
    AlignmentPlan { union_index: left.clone(), left_positions, right_positions }
}

/// Union alignment: all left rows in order, then the right rows whose label the left lacks.
pub fn align_union(left: &Index, right: &Index) -> (plan: AlignmentPlan)
    ensures
        plan.is_union(left@, right@),
{
    let ghost l = left@;
    let ghost r = right@;
    let left_groups = left.groups();
    let right_groups = right.groups();
    let left_labels = left.labels();
    let right_labels = right.labels();
    let ln = left.len();
    let rn = right.len();
    let mut labels: Vec<IndexLabel> = Vec::new();
    let mut i: usize = 0;
    while i < left_labels.len()
        invariant
            key_views(left_labels@) == l,
            i <= l.len(),
            key_views(labels@) == l.take(i as int),
        decreases l.len() - i,
    {
        assert(l[i as int] == left_labels@[i as int]@);
        let c = left_labels[i].clone();
        let ghost before = labels@;
        labels.push(c);
        proof {
            assert(key_views(labels@) =~= key_views(before).push(c@));
            assert(key_views(labels@) =~= l.take(i + 1));
        }
        i = i + 1;
    }
    assert(l.take(l.len() as int) =~= l);
    let mut j: usize = 0;
    assert(l + right_only(l, r, 0) =~= l);
    while j < right_labels.len()
        invariant
            key_views(right_labels@) == r,
            l == left@,
            ln == l.len(),
            left_groups.describes(l, l.len() as int),
            j <= r.len(),
            key_views(labels@) == l + right_only(l, r, j as int),
        decreases r.len() - j,
    {
        assert(r[j as int] == right_labels@[j as int]@);
        let found = left_groups.rows_of(&right_labels[j], Ghost(l));
        if found.is_none() {
            let c = right_labels[j].clone();
            let ghost before = labels@;
            labels.push(c);
            proof {
                assert(key_views(labels@) =~= key_views(before).push(c@));
                assert(!l.contains(r[j as int]));
                assert(key_views(labels@) =~= l + right_only(l, r, j + 1));
            }
        } else {
            proof {
                let k = choose|k: int| 0 <= k < l.len() && l[k] == r[j as int];
                assert(l.contains(r[j as int]));
            }
        }
        j = j + 1;
    }
    let ghost u = key_views(labels@);
    let mut left_positions: Vec<Option<usize>> = Vec::new();
    let mut right_positions: Vec<Option<usize>> = Vec::new();
    let mut k: usize = 0;
    while k < labels.len()
        invariant
            u == key_views(labels@),
            u == l + right_only(l, r, r.len() as int),
            l == left@,
            r == right@,
            ln == l.len(),
            rn == r.len(),
            left_groups.describes(l, l.len() as int),
            right_groups.describes(r, r.len() as int),
            k <= u.len(),
            left_positions@.len() == k,
            right_positions@.len() == k,
            forall|m: int|
                0 <= m < k ==> first_match(l, u[m], #[trigger] left_positions@[m]) && first_match(
                    r,
                    u[m],
                    right_positions@[m],
                ),
        decreases u.len() - k,
    {
        assert(u[k as int] == labels@[k as int]@);
        let lp = left_groups.first_row(&labels[k], Ghost(l));
        let rp = right_groups.first_row(&labels[k], Ghost(r));
        left_positions.push(lp);
        right_positions.push(rp);
        k = k + 1;
    }
    let union_index = Index::new(labels);
    assert(union_index@ == u);
    assert(left_positions@.len() == u.len());
    assert(u == l + right_only(l, r, r.len() as int));
    AlignmentPlan { union_index, left_positions, right_positions }
}

/// Checks that the three sequences of a plan have equal lengths.
pub fn validate_alignment_plan(plan: &AlignmentPlan) -> (r: Result<(), IndexError>)
    ensures
        r is Ok <==> plan.complete(),
{
    if plan.left_positions.len() != plan.right_positions.len() || plan.left_positions.len()
        != plan.union_index.len() {
        return Err(IndexError::InvalidAlignmentVectors);
    }
    Ok(())
}

/// The right-only part holds exactly the right labels that the left lacks, so the union
/// alignment's index holds every label of either side, and the left labels come first.
pub proof fn lemma_union_covers_both_sides(l: Seq<LabelView>, r: Seq<LabelView>, n: int)
    requires
        0 <= n <= r.len(),
    ensures
        forall|x: LabelView| #[trigger]
            right_only(l, r, n).contains(x) <==> (!l.contains(x) && r.take(n).contains(x)),
        forall|x: LabelView| #[trigger]
            (l + right_only(l, r, n)).contains(x) <==> (l.contains(x) || r.take(n).contains(x)),
        (l + right_only(l, r, n)).take(l.len() as int) == l,
    decreases n,
{
    if n > 0 {
        lemma_union_covers_both_sides(l, r, n - 1);
        assert(r.take(n) =~= r.take(n - 1).push(r[n - 1]));
        assert forall|x: LabelView| #[trigger]
            right_only(l, r, n).contains(x) <==> (!l.contains(x) && r.take(n).contains(x)) by {
            let p = right_only(l, r, n - 1);
            if r.take(n).contains(x) && !r.take(n - 1).contains(x) {
                assert(x == r[n - 1]) by {
                    let k = choose|k: int| 0 <= k < n && r.take(n)[k] == x;
                    if k < n - 1 {
                        assert(r.take(n - 1)[k] == x);
                    }
                }
            }
            if right_only(l, r, n).contains(x) && !p.contains(x) {
                let k = choose|k: int| 0 <= k < right_only(l, r, n).len() && right_only(l, r, n)[k] == x;
                assert(x == r[n - 1]);
                assert(r.take(n)[n - 1] == x);
            }
            if !l.contains(x) && r.take(n).contains(x) && !l.contains(r[n - 1]) {
                if p.contains(x) {
                    let k = choose|k: int| 0 <= k < p.len() && p[k] == x;
                    assert(right_only(l, r, n)[k] == x);
                } else {
                    assert(right_only(l, r, n)[p.len() as int] == x);
                }
            }
        }
        assert forall|x: LabelView| #[trigger]
            (l + right_only(l, r, n)).contains(x) <==> (l.contains(x) || r.take(n).contains(x)) by {
            let u = l + right_only(l, r, n);
            if u.contains(x) {
                let k = choose|k: int| 0 <= k < u.len() && u[k] == x;
                if k >= l.len() {
                    assert(right_only(l, r, n)[k - l.len()] == x);
                    assert(right_only(l, r, n).contains(x));
                } else {
                    assert(l[k] == x);
                }
            }
            if l.contains(x) {
                let k = choose|k: int| 0 <= k < l.len() && l[k] == x;
                assert(u[k] == x);
            } else if r.take(n).contains(x) {
                assert(right_only(l, r, n).contains(x));
                let k = choose|k: int| 0 <= k < right_only(l, r, n).len() && right_only(l, r, n)[k] == x;
                assert(u[l.len() + k] == x);
            }
        }
    } else {
        assert(right_only(l, r, n) =~= Seq::<LabelView>::empty());
        assert(r.take(n) =~= Seq::<LabelView>::empty());
        assert forall|x: LabelView| #[trigger]
            (l + right_only(l, r, n)).contains(x) <==> (l.contains(x) || r.take(n).contains(x)) by {
            assert(l + right_only(l, r, n) =~= l);
            if r.take(n).contains(x) {
                let k = choose|k: int| 0 <= k < r.take(n).len() && r.take(n)[k] == x;
            }
        }
    }
    assert((l + right_only(l, r, n)).take(l.len() as int) =~= l);
}

} // verus!
