use vstd::prelude::*;

use crate::groups::{
    distinct_prefix, first_match, key_views, lemma_distinct_prefix, lemma_occurrences, occurrences,
    Groups, KeyEq,
};
use crate::label::{compare_text, lemma_text_lt_irreflexive, lemma_text_lt_transitive, text_lt};
use crate::label::{IndexLabel, LabelView};

verus! {

impl KeyEq for IndexLabel {
    fn key_eq(&self, other: &Self) -> (r: bool) {
        self.same_as(other)
    }

    fn key_clone(&self) -> (r: Self) {
        self.clone()
    }
}

/// How the labels of an index are ordered.
#[derive(Debug, Clone, Copy, PartialEq, Eq, Structural)]
pub enum SortOrder {
    /// Not in a recognized order.
    Unsorted,
    /// All labels are integers, strictly ascending.
    AscendingInt64,
    /// All labels are strings, strictly ascending.
    AscendingUtf8,
}

/// `a` is an integer label below the integer label `b`.
pub open spec fn int_lt(a: LabelView, b: LabelView) -> bool {
    match (a, b) {
        (LabelView::Int64(x), LabelView::Int64(y)) => x < y,
        _ => false,
    }
}

/// `a` is a string label below the string label `b`.
pub open spec fn utf8_lt(a: LabelView, b: LabelView) -> bool {
    match (a, b) {
        (LabelView::Utf8(x), LabelView::Utf8(y)) => text_lt(x, y),
        _ => false,
    }
}

pub open spec fn int_ascending(s: Seq<LabelView>) -> bool {
    forall|i: int| 0 <= i < s.len() - 1 ==> int_lt(#[trigger] s[i], s[i + 1])
}

pub open spec fn utf8_ascending(s: Seq<LabelView>) -> bool {
    forall|i: int| 0 <= i < s.len() - 1 ==> utf8_lt(#[trigger] s[i], s[i + 1])
}

/// The sort order of a label sequence. An empty index counts as ascending integers.
pub open spec fn sort_order_of(s: Seq<LabelView>) -> SortOrder {
    if s.len() <= 1 {
        if s.len() == 1 && s[0] is Utf8 {
            SortOrder::AscendingUtf8
        } else {
            SortOrder::AscendingInt64
        }
    } else if int_ascending(s) {
        SortOrder::AscendingInt64
    } else if utf8_ascending(s) {
        SortOrder::AscendingUtf8
    } else {
        SortOrder::Unsorted
    }
}

/// Some label appears twice.
pub open spec fn has_repeat(s: Seq<LabelView>) -> bool {
    exists|i: int, j: int| 0 <= i < j < s.len() && s[i] == s[j]
}

proof fn lemma_int_ascending_pairwise(s: Seq<LabelView>)
    requires
        int_ascending(s),
        s.len() >= 2,
    ensures
        forall|i: int, j: int| 0 <= i < j < s.len() ==> int_lt(#[trigger] s[i], #[trigger] s[j]),
{
    assert forall|i: int, j: int| 0 <= i < j < s.len() implies int_lt(
        #[trigger] s[i],
        #[trigger] s[j],
    ) by {
        lemma_int_chain(s, i, j);
    }
}

proof fn lemma_int_chain(s: Seq<LabelView>, i: int, j: int)
    requires
        int_ascending(s),
        0 <= i < j < s.len(),
    ensures
        int_lt(s[i], s[j]),
    decreases j - i,
{
    assert(int_lt(s[j - 1], s[j]));
    if j - 1 > i {
        lemma_int_chain(s, i, j - 1);
    }
}

proof fn lemma_utf8_chain(s: Seq<LabelView>, i: int, j: int)
    requires
        utf8_ascending(s),
        0 <= i < j < s.len(),
    ensures
        utf8_lt(s[i], s[j]),
    decreases j - i,
{
    assert(utf8_lt(s[j - 1], s[j]));
    if j - 1 > i {
        lemma_utf8_chain(s, i, j - 1);
        lemma_text_lt_transitive(s[i]->Utf8_0, s[j - 1]->Utf8_0, s[j]->Utf8_0);
    }
}

proof fn lemma_utf8_ascending_pairwise(s: Seq<LabelView>)
    requires
        utf8_ascending(s),
        s.len() >= 2,
    ensures
        forall|i: int, j: int| 0 <= i < j < s.len() ==> utf8_lt(#[trigger] s[i], #[trigger] s[j]),
{
    assert forall|i: int, j: int| 0 <= i < j < s.len() implies utf8_lt(
        #[trigger] s[i],
        #[trigger] s[j],
    ) by {
        lemma_utf8_chain(s, i, j);
    }
}

/// A sorted sequence has no label twice.
proof fn lemma_sorted_distinct(s: Seq<LabelView>)
    requires
        sort_order_of(s) != SortOrder::Unsorted,
    ensures
        !has_repeat(s),
{
    if s.len() >= 2 {
        if int_ascending(s) {
            lemma_int_ascending_pairwise(s);
        } else {
            lemma_utf8_ascending_pairwise(s);
            assert forall|i: int, j: int| 0 <= i < j < s.len() implies s[i] != s[j] by {
                if s[i] == s[j] {
                    lemma_text_lt_irreflexive(s[i]->Utf8_0);
                }
            }
        }
    }
}

/// Detects the sort order of the labels.
pub fn detect_sort_order(labels: &Vec<IndexLabel>) -> (r: SortOrder)
    ensures
        r == sort_order_of(key_views(labels@)),
{
    let ghost s = key_views(labels@);
    let n = labels.len();
    if n <= 1 {
        if n == 1 {
            match &labels[0] {
                IndexLabel::Utf8(_) => {
                    return SortOrder::AscendingUtf8;
                },
                IndexLabel::Int64(_) => {},
            }
        }
        return SortOrder::AscendingInt64;
    }
    let mut ints = true;
    let mut i: usize = 0;
    while i + 1 < n
        invariant
            n == labels@.len(),
            s == key_views(labels@),
            i + 1 <= n,
            ints ==> forall|k: int| 0 <= k < i ==> int_lt(#[trigger] s[k], s[k + 1]),
            !ints ==> !int_ascending(s),
        decreases n - i,
    {
        if ints {
            match (&labels[i], &labels[i + 1]) {
                (IndexLabel::Int64(a), IndexLabel::Int64(b)) => {
                    if !(*a < *b) {
                        ints = false;
                        assert(!int_lt(s[i as int], s[i + 1]));
                    }
                },
                _ => {
                    ints = false;
                    assert(!int_lt(s[i as int], s[i + 1]));
                },
            }
        }
        i = i + 1;
    }
    if ints {
        return SortOrder::AscendingInt64;
    }
    let mut texts = true;
    let mut i: usize = 0;
    while i + 1 < n
        invariant
            n == labels@.len(),
            s == key_views(labels@),
            i + 1 <= n,
            texts ==> forall|k: int| 0 <= k < i ==> utf8_lt(#[trigger] s[k], s[k + 1]),
            !texts ==> !utf8_ascending(s),
        decreases n - i,
    {
        if texts {
            match (&labels[i], &labels[i + 1]) {
                (IndexLabel::Utf8(a), IndexLabel::Utf8(b)) => {
                    if compare_text(a.as_str(), b.as_str()) >= 0 {
                        texts = false;
                        assert(!utf8_lt(s[i as int], s[i + 1]));
                    }
                },
                _ => {
                    texts = false;
                    assert(!utf8_lt(s[i as int], s[i + 1]));
                },
            }
        }
        i = i + 1;
    }
    if texts {
        SortOrder::AscendingUtf8
    } else {
        SortOrder::Unsorted
    }
}

/// Whether some label appears twice.
pub fn detect_duplicates(labels: &Vec<IndexLabel>) -> (r: bool)
    ensures
        r == has_repeat(key_views(labels@)),
{
    let ghost s = key_views(labels@);
    let n = labels.len();
    assert(s.len() == n);
    let groups = Groups::build(labels);
    let mut g: usize = 0;
    while g < groups.rows.len()
        invariant
            groups.describes(s, s.len() as int),
            s == key_views(labels@),
            s.len() == n,
            g <= groups.rows@.len(),
            forall|h: int| 0 <= h < g ==> (#[trigger] groups.rows@[h])@.len() <= 1,
        decreases groups.rows@.len() - g,
    {
        if groups.rows[g].len() > 1 {
            proof {
                let x = groups.keys@[g as int]@;
                lemma_occurrences(s, x, s.len() as int);
                let o = occurrences(s, x, s.len() as int);
                assert(o[0] < o[1]);
                assert(s[o[0] as int] == s[o[1] as int]);
            }
            return true;
        }
        g = g + 1;
    }
    proof {
        if has_repeat(s) {
            let (i, j) = choose|i: int, j: int| 0 <= i < j < s.len() && s[i] == s[j];
            lemma_distinct_prefix(s, s.len() as int);
            assert(distinct_prefix(s, s.len() as int).contains(s[i]));
            let h = choose|h: int|
                0 <= h < distinct_prefix(s, s.len() as int).len() && distinct_prefix(
                    s,
                    s.len() as int,
                )[h] == s[i];
            assert(key_views(groups.keys@)[h] == groups.keys@[h]@);
            lemma_occurrences(s, s[i], s.len() as int);
            let o = occurrences(s, s[i], s.len() as int);
            assert(o.contains(i as usize));
            assert(o.contains(j as usize));
            assert(groups.rows@[h]@ == o);
            assert(o.len() <= 1);
            let a = choose|a: int| 0 <= a < o.len() && o[a] == i as usize;
            let b = choose|b: int| 0 <= b < o.len() && o[b] == j as usize;
            assert(a == b);
        }
    }
    false
}

/// An ordered sequence of row labels, not required to be unique.
///
/// The sort order is worked out once, when the index is built, and kept beside the
/// labels; whether a label repeats is worked out when asked (at once for a sorted index).
/// Neither takes part in equality, which compares the labels alone.
#[derive(Debug)]
pub struct Index {
    labels: Vec<IndexLabel>,
    order: SortOrder,
}

impl View for Index {
    type V = Seq<LabelView>;

    closed spec fn view(&self) -> Seq<LabelView> {
        key_views(self.labels@)
    }
}

impl Index {
    /// The order field always matches the labels.
    #[verifier::type_invariant]
    spec fn wf(&self) -> bool {
        self.order == sort_order_of(self@)
    }

    pub fn new(labels: Vec<IndexLabel>) -> (r: Index)
        ensures
            r@ == key_views(labels@),
    {
        let order = detect_sort_order(&labels);
        Index { labels, order }
    }

    pub fn from_i64(values: Vec<i64>) -> (r: Index)
        ensures
            r@.len() == values@.len(),
            forall|i: int| 0 <= i < values@.len() ==> r@[i] == LabelView::Int64(values@[i]),
    {
        let mut labels: Vec<IndexLabel> = Vec::new();
        let mut i: usize = 0;
        while i < values.len()
            invariant
                i <= values@.len(),
                labels@.len() == i,
                forall|k: int| 0 <= k < i ==> labels@[k]@ == LabelView::Int64(values@[k]),
            decreases values@.len() - i,
        {
            labels.push(IndexLabel::Int64(values[i]));
            i = i + 1;
        }
        Index::new(labels)
    }

    pub fn from_utf8(values: Vec<String>) -> (r: Index)
        ensures
            r@.len() == values@.len(),
            forall|i: int| 0 <= i < values@.len() ==> r@[i] == LabelView::Utf8(values@[i]@),
    {
        let mut labels: Vec<IndexLabel> = Vec::new();
        let mut i: usize = 0;
        while i < values.len()
            invariant
                i <= values@.len(),
                labels@.len() == i,
                forall|k: int| 0 <= k < i ==> labels@[k]@ == LabelView::Utf8(values@[k]@),
            decreases values@.len() - i,
        {
            labels.push(IndexLabel::Utf8(values[i].clone()));
            i = i + 1;
        }
        Index::new(labels)
    }

    pub fn len(&self) -> (r: usize)
        ensures
            r == self@.len(),
    {
        self.labels.len()
    }

    pub fn is_empty(&self) -> (r: bool)
        ensures
            r == (self@.len() == 0),
    {
        self.labels.len() == 0
    }

    pub fn labels(&self) -> (r: &[IndexLabel])
        ensures
            key_views(r@) == self@,
    {
        self.labels.as_slice()
    }

    /// Whether some label appears twice.
    pub fn has_duplicates(&self) -> (r: bool)
        ensures
            r == has_repeat(self@),
    {
        proof {
            use_type_invariant(self);
        }
        match self.order {
            SortOrder::Unsorted => detect_duplicates(&self.labels),
            _ => {
                proof {
                    lemma_sorted_distinct(self@);
                }
                false
            },
        }
    }

    /// The detected sort order.
    pub fn sort_order(&self) -> (r: SortOrder)
        ensures
            r == sort_order_of(self@),
    {
        proof {
            use_type_invariant(self);
        }
        self.order
    }

    /// Whether the labels are strictly ascending and all of one kind.
    pub fn is_sorted(&self) -> (r: bool)
        ensures
            r == (sort_order_of(self@) != SortOrder::Unsorted),
    {
        proof {
            use_type_invariant(self);
        }
        !matches!(self.order, SortOrder::Unsorted)
    }

    /// The first row holding `needle`: by binary search on a sorted index whose
    /// kind matches the needle's, by a scan otherwise.
    pub fn position(&self, needle: &IndexLabel) -> (r: Option<usize>)
        ensures
            first_match(self@, needle@, r),
    {
        proof {
            use_type_invariant(self);
        }
        let ghost s = self@;
        match self.order {
            SortOrder::AscendingInt64 => {
                match needle {
                    IndexLabel::Int64(target) => self.search_int(*target),
                    IndexLabel::Utf8(_) => {
                        proof {
                            if s.len() >= 2 {
                                assert forall|j: int| 0 <= j < s.len() implies s[j] is Int64 by {
                                    if j < s.len() - 1 {
                                        assert(int_lt(s[j], s[j + 1]));
                                    } else {
                                        assert(int_lt(s[j - 1], s[j]));
                                    }
                                }
                            }
                        }
                        None
                    },
                }
            },
            SortOrder::AscendingUtf8 => {
                match needle {
                    IndexLabel::Utf8(target) => self.search_utf8(target.as_str()),
                    IndexLabel::Int64(_) => {
                        proof {
                            if s.len() >= 2 {
                                assert forall|j: int| 0 <= j < s.len() implies s[j] is Utf8 by {
                                    if j < s.len() - 1 {
                                        assert(utf8_lt(s[j], s[j + 1]));
                                    } else {
                                        assert(utf8_lt(s[j - 1], s[j]));
                                    }
                                }
                            }
                        }
                        None
                    },
                }
            },
            SortOrder::Unsorted => self.scan(needle),
        }
    }

    fn scan(&self, needle: &IndexLabel) -> (r: Option<usize>)
        ensures
            first_match(self@, needle@, r),
    {
        let mut i: usize = 0;
        while i < self.labels.len()
            invariant
                i <= self@.len(),
                forall|j: int| 0 <= j < i ==> self@[j] != needle@,
            decreases self@.len() - i,
        {
            if self.labels[i].same_as(needle) {
                return Some(i);
            }
            i = i + 1;
        }
        None
    }

    fn search_int(&self, target: i64) -> (r: Option<usize>)
        requires
            sort_order_of(self@) == SortOrder::AscendingInt64,
        ensures
            first_match(self@, LabelView::Int64(target), r),
    {
        let ghost s = self@;
        let ghost x = LabelView::Int64(target);
        if self.labels.len() == 1 {
            return self.scan(&IndexLabel::Int64(target));
        }
        proof {
            if s.len() >= 2 {
                lemma_int_ascending_pairwise(s);
            }
        }
        let mut lo: usize = 0;
        let mut hi: usize = self.labels.len();
        while lo < hi
            invariant
                s == self@,
                x == LabelView::Int64(target),
                s.len() != 1,
                s.len() >= 2 ==> forall|i: int, j: int|
                    0 <= i < j < s.len() ==> int_lt(#[trigger] s[i], #[trigger] s[j]),
                lo <= hi <= s.len(),
                forall|j: int| 0 <= j < lo ==> int_lt(#[trigger] s[j], x),
                forall|j: int| hi <= j < s.len() ==> int_lt(x, #[trigger] s[j]),
            decreases hi - lo,
        {
            let mid = lo + (hi - lo) / 2;
            assert(s[mid as int] == self.labels@[mid as int]@);
            match &self.labels[mid] {
                IndexLabel::Int64(v) => {
                    if *v < target {
                        proof {
                            assert forall|j: int| 0 <= j < mid + 1 implies int_lt(
                                #[trigger] s[j],
                                x,
                            ) by {
                                if j < mid {
                                    assert(int_lt(s[j], s[mid as int]));
                                }
                            }
                        }
                        lo = mid + 1;
                    } else if *v > target {
                        proof {
                            assert forall|j: int| mid <= j < s.len() implies int_lt(
                                x,
                                #[trigger] s[j],
                            ) by {
                                if j > mid {
                                    assert(int_lt(s[mid as int], s[j]));
                                }
                            }
                        }
                        hi = mid;
                    } else {
                        proof {
                            assert forall|j: int| 0 <= j < mid implies s[j] != x by {
                                assert(int_lt(s[j], s[mid as int]));
                            }
                        }
                        return Some(mid);
                    }
                },
                IndexLabel::Utf8(_) => {
                    proof {
                        if mid + 1 < s.len() {
                            assert(int_lt(s[mid as int], s[mid + 1]));
                        } else {
                            assert(int_lt(s[mid - 1], s[mid as int]));
                        }
                    }
                    return None;
                },
            }
        }
        None
    }

    fn search_utf8(&self, target: &str) -> (r: Option<usize>)
        requires
            sort_order_of(self@) == SortOrder::AscendingUtf8,
        ensures
            first_match(self@, LabelView::Utf8(target@), r),
    {
        let ghost s = self@;
        let ghost x = LabelView::Utf8(target@);
        if self.labels.len() <= 1 {
            return self.scan(&IndexLabel::Utf8(target.to_owned()));
        }
        proof {
            lemma_utf8_ascending_pairwise(s);
        }
        let mut lo: usize = 0;
        let mut hi: usize = self.labels.len();
        while lo < hi
            invariant
                s == self@,
                x == LabelView::Utf8(target@),
                s.len() >= 2,
                forall|i: int, j: int|
                    0 <= i < j < s.len() ==> utf8_lt(#[trigger] s[i], #[trigger] s[j]),
                lo <= hi <= s.len(),
                forall|j: int| 0 <= j < lo ==> utf8_lt(#[trigger] s[j], x),
                forall|j: int| hi <= j < s.len() ==> utf8_lt(x, #[trigger] s[j]),
            decreases hi - lo,
        {
            let mid = lo + (hi - lo) / 2;
            assert(s[mid as int] == self.labels@[mid as int]@);
            match &self.labels[mid] {
                IndexLabel::Utf8(v) => {
                    let c = compare_text(v.as_str(), target);
                    if c < 0 {
                        proof {
                            assert forall|j: int| 0 <= j < mid + 1 implies utf8_lt(
                                #[trigger] s[j],
                                x,
                            ) by {
                                if j < mid {
                                    assert(utf8_lt(s[j], s[mid as int]));
                                    lemma_text_lt_transitive(s[j]->Utf8_0, v@, target@);
                                }
                            }
                        }
                        lo = mid + 1;
                    } else if c > 0 {
                        proof {
                            assert forall|j: int| mid <= j < s.len() implies utf8_lt(
                                x,
                                #[trigger] s[j],
                            ) by {
                                if j > mid {
                                    assert(utf8_lt(s[mid as int], s[j]));
                                    lemma_text_lt_transitive(target@, v@, s[j]->Utf8_0);
                                }
                            }
                        }
                        hi = mid;
                    } else {
                        proof {
                            assert forall|j: int| 0 <= j < mid implies s[j] != x by {
                                assert(utf8_lt(s[j], s[mid as int]));
                                lemma_text_lt_irreflexive(target@);
                            }
                        }
                        return Some(mid);
                    }
                },
                IndexLabel::Int64(_) => {
                    proof {
                        if mid + 1 < s.len() {
                            assert(utf8_lt(s[mid as int], s[mid + 1]));
                        } else {
                            assert(utf8_lt(s[mid - 1], s[mid as int]));
                        }
                    }
                    return None;
                },
            }
        }
        proof {
            assert forall|j: int| 0 <= j < s.len() implies s[j] != x by {
                if s[j] == x {
                    lemma_text_lt_irreflexive(target@);
                }
            }
        }
        None
    }

    /// Each distinct label with the row of its first occurrence, in order of first appearance:
    /// a later duplicate of a label is not reachable through it.
    pub fn position_map_first(&self) -> (r: Vec<(IndexLabel, usize)>)
        ensures
            r@.len() == distinct_prefix(self@, self@.len() as int).len(),
            forall|k: int|
                0 <= k < r@.len() ==> {
                    &&& (#[trigger] r@[k]).0@ == distinct_prefix(self@, self@.len() as int)[k]
                    &&& first_match(self@, r@[k].0@, Some(r@[k].1))
                },
    {
        let ghost s = self@;
        let n = self.labels.len();
        assert(s.len() == n);
        let groups = self.groups();
        let mut out: Vec<(IndexLabel, usize)> = Vec::new();
        let mut g: usize = 0;
        while g < groups.keys.len()
            invariant
                groups.describes(s, s.len() as int),
                s == self@,
                s.len() == n,
                g <= groups.keys@.len(),
                out@.len() == g,
                forall|k: int|
                    0 <= k < g ==> {
                        &&& (#[trigger] out@[k]).0@ == distinct_prefix(s, s.len() as int)[k]
                        &&& first_match(s, out@[k].0@, Some(out@[k].1))
                    },
            decreases groups.keys@.len() - g,
        {
            let key = groups.keys[g].clone();
            let first = groups.first_row(&key, Ghost(s));
            proof {
                assert(key_views(groups.keys@)[g as int] == groups.keys@[g as int]@);
                lemma_distinct_prefix(s, s.len() as int);
                assert(distinct_prefix(s, s.len() as int).contains(key@));
            }
            match first {
                Some(p) => {
                    out.push((key, p));
                },
                None => {
                    proof {
                        let j = choose|j: int| 0 <= j < s.len() && s[j] == key@;
                    }
                    return out;
                },
            }
            g = g + 1;
        }
        out
    }

    /// The rows of each distinct label.
    pub fn groups(&self) -> (r: Groups<IndexLabel>)
        ensures
            r.describes(self@, self@.len() as int),
    {
        Groups::build(&self.labels)
    }
}

impl Clone for Index {
    fn clone(&self) -> (r: Self)
        ensures
            r@ == self@,
    {
        let mut labels: Vec<IndexLabel> = Vec::new();
        let mut i: usize = 0;
        while i < self.labels.len()
            invariant
                i <= self.labels@.len(),
                labels@.len() == i,
                forall|k: int| 0 <= k < i ==> labels@[k] == self.labels@[k],
            decreases self.labels@.len() - i,
        {
            labels.push(self.labels[i].clone());
            i = i + 1;
        }
        proof {
            assert(key_views(labels@) =~= key_views(self.labels@));
        }
        proof {
            use_type_invariant(self);
        }
        Index { labels, order: self.order }
    }
}

impl PartialEq for Index {
    fn eq(&self, other: &Index) -> (r: bool)
        ensures
            r == (self@ == other@),
    {
        if self.labels.len() != other.labels.len() {
            assert(self@.len() != other@.len());
            return false;
        }
        let mut i: usize = 0;
        while i < self.labels.len()
            invariant
                i <= self@.len(),
                self@.len() == other@.len(),
                forall|k: int| 0 <= k < i ==> self@[k] == other@[k],
            decreases self@.len() - i,
        {
            assert(self@[i as int] == self.labels@[i as int]@);
            assert(other@[i as int] == other.labels@[i as int]@);
            if !self.labels[i].same_as(&other.labels[i]) {
                return false;
            }
            i = i + 1;
        }
        assert(self@ =~= other@);
        true
    }
}

impl vstd::std_specs::cmp::PartialEqSpecImpl for Index {
    open spec fn obeys_eq_spec() -> bool {
        true
    }

    open spec fn eq_spec(&self, other: &Index) -> bool {
        self@ == other@
    }
}

impl Eq for Index {
}

} // verus!
