use vstd::prelude::*;

verus! {

/// A key that can be compared and copied by its value.
pub trait KeyEq: View + Sized {
    fn key_eq(&self, other: &Self) -> (r: bool)
        ensures
            r == (self@ == other@),
    ;

    fn key_clone(&self) -> (r: Self)
        ensures
            r@ == self@,
    ;
}

/// The rows among the first `n` of `s` that hold `x`, in increasing order.
pub open spec fn occurrences<V>(s: Seq<V>, x: V, n: int) -> Seq<usize>
    decreases n,
{
    if n <= 0 {
        Seq::empty()
    } else {
        let o = occurrences(s, x, n - 1);
        if s[n - 1] == x {
            o.push((n - 1) as usize)
        } else {
            o
        }
    }
}

/// The distinct values among the first `n` of `s`, in order of first appearance.
pub open spec fn distinct_prefix<V>(s: Seq<V>, n: int) -> Seq<V>
    decreases n,
{
    if n <= 0 {
        Seq::empty()
    } else {
        let d = distinct_prefix(s, n - 1);
        if d.contains(s[n - 1]) {
            d
        } else {
            d.push(s[n - 1])
        }
    }
}

/// `r` is the first row of `s` that holds `x`, or `None` when no row does.
pub open spec fn first_match<V>(s: Seq<V>, x: V, r: Option<usize>) -> bool {
    match r {
        Some(i) => i < s.len() && s[i as int] == x && forall|j: int|
            0 <= j < i ==> s[j] != x,
        None => forall|j: int| 0 <= j < s.len() ==> s[j] != x,
    }
}

/// The first row of `s` that holds `x`.
pub open spec fn first_index<V>(s: Seq<V>, x: V) -> Option<usize> {
    if exists|i: usize| first_match(s, x, Some(i)) {
        Some(choose|i: usize| first_match(s, x, Some(i)))
    } else {
        None
    }
}

/// `first_match` names exactly one result.
pub proof fn lemma_first_index<V>(s: Seq<V>, x: V, r: Option<usize>)
    requires
        first_match(s, x, r),
    ensures
        r == first_index(s, x),
{
    match r {
        Some(i) => {
            let j = choose|j: usize| first_match(s, x, Some(j));
            if j < i {
                assert(s[j as int] == x);
            } else if i < j {
                assert(s[i as int] == x);
            }
        },
        None => {
            if exists|i: usize| first_match(s, x, Some(i)) {
                let i = choose|i: usize| first_match(s, x, Some(i));
                assert(s[i as int] == x);
            }
        },
    }
}

/// What `occurrences` holds: exactly the matching rows, strictly increasing.
pub proof fn lemma_occurrences<V>(s: Seq<V>, x: V, n: int)
    requires
        0 <= n <= s.len(),
        n <= usize::MAX + 1,
    ensures
        forall|k: int|
            0 <= k < occurrences(s, x, n).len() ==> {
                let p = #[trigger] occurrences(s, x, n)[k];
                p < n && s[p as int] == x
            },
        forall|k: int, l: int|
            0 <= k < l < occurrences(s, x, n).len() ==> occurrences(s, x, n)[k] < occurrences(
                s,
                x,
                n,
            )[l],
        forall|p: int|
            0 <= p < n && s[p] == x ==> #[trigger] occurrences(s, x, n).contains(p as usize),
    decreases n,
{
    if n > 0 {
        lemma_occurrences(s, x, n - 1);
        let o = occurrences(s, x, n - 1);
        if s[n - 1] == x {
            assert forall|p: int| 0 <= p < n && s[p] == x implies #[trigger] occurrences(
                s,
                x,
                n,
            ).contains(p as usize) by {
                if p < n - 1 {
                    assert(o.contains(p as usize));
                    let k = choose|k: int| 0 <= k < o.len() && o[k] == p as usize;
                    assert(occurrences(s, x, n)[k] == p as usize);
                } else {
                    assert(occurrences(s, x, n)[o.len() as int] == p as usize);
                }
            }
        }
    }
}

/// The first of the occurrences is the first match, and there are none exactly when no row matches.
pub proof fn lemma_occurrences_first<V>(s: Seq<V>, x: V)
    requires
        s.len() <= usize::MAX,
    ensures
        occurrences(s, x, s.len() as int).len() == 0 ==> first_match(s, x, None),
        occurrences(s, x, s.len() as int).len() > 0 ==> first_match(
            s,
            x,
            Some(occurrences(s, x, s.len() as int)[0]),
        ),
{
    let n = s.len() as int;
    lemma_occurrences(s, x, n);
    let o = occurrences(s, x, n);
    if o.len() == 0 {
        assert forall|j: int| 0 <= j < s.len() implies s[j] != x by {
            if s[j] == x {
                assert(o.contains(j as usize));
            }
        }
    } else {
        assert forall|j: int| 0 <= j < o[0] implies s[j] != x by {
            if s[j] == x {
                assert(o.contains(j as usize));
                let k = choose|k: int| 0 <= k < o.len() && o[k] == j as usize;
                if k > 0 {
                    assert(o[0] < o[k]);
                }
            }
        }
    }
}

/// A value appears among the distinct values exactly when some row holds it.
pub proof fn lemma_distinct_prefix<V>(s: Seq<V>, n: int)
    requires
        0 <= n <= s.len(),
    ensures
        distinct_prefix(s, n).no_duplicates(),
        forall|x: V| #[trigger]
            distinct_prefix(s, n).contains(x) <==> exists|j: int| 0 <= j < n && s[j] == x,
    decreases n,
{
    if n > 0 {
        lemma_distinct_prefix(s, n - 1);
        let d = distinct_prefix(s, n - 1);
        assert forall|x: V| #[trigger]
            distinct_prefix(s, n).contains(x) <==> exists|j: int| 0 <= j < n && s[j] == x by {
            if distinct_prefix(s, n).contains(x) {
                if d.contains(x) {
                    let j = choose|j: int| 0 <= j < n - 1 && s[j] == x;
                    assert(0 <= j < n && s[j] == x);
                } else {
                    assert(x == s[n - 1]);
                }
            }
            if exists|j: int| 0 <= j < n && s[j] == x {
                let j = choose|j: int| 0 <= j < n && s[j] == x;
                if j < n - 1 {
                    assert(d.contains(x));
                    if !d.contains(s[n - 1]) {
                        let k = choose|k: int| 0 <= k < d.len() && d[k] == x;
                        assert(distinct_prefix(s, n)[k] == x);
                    }
                } else if !d.contains(s[n - 1]) {
                    assert(distinct_prefix(s, n)[d.len() as int] == x);
                }
            }
        }
    }
}

/// The distinct values of `s` with the rows that hold each, in order of first appearance.
pub struct Groups<K> {
    pub keys: Vec<K>,
    pub rows: Vec<Vec<usize>>,
}

pub open spec fn key_views<K: View>(keys: Seq<K>) -> Seq<K::V> {
    keys.map_values(|k: K| k@)
}

impl<K: KeyEq> Groups<K> {
    /// The table describes the first `n` values of `s`.
    pub open spec fn describes(&self, s: Seq<K::V>, n: int) -> bool {
        &&& self.keys@.len() == self.rows@.len()
        &&& key_views(self.keys@) == distinct_prefix(s, n)
        &&& forall|g: int|
            0 <= g < self.rows@.len() ==> #[trigger] self.rows@[g]@ == occurrences(
                s,
                self.keys@[g]@,
                n,
            )
    }

    /// Groups the values of `items`.
    pub fn build(items: &Vec<K>) -> (r: Self)
        ensures
            r.describes(key_views(items@), items@.len() as int),
    {
        let ghost s = key_views(items@);
        let mut g = Groups { keys: Vec::new(), rows: Vec::new() };
        let mut i: usize = 0;
        assert(key_views(g.keys@) =~= distinct_prefix(s, 0));
        while i < items.len()
            invariant
                i <= items@.len(),
                s == key_views(items@),
                g.describes(s, i as int),
            decreases items@.len() - i,
        {
            assert(s[i as int] == items@[i as int]@);
            let found = g.find(&items[i]);
            g.add_row(&items[i], i, found, Ghost(s));
            i = i + 1;
        }
        g
    }

    /// An empty table.
    pub fn empty() -> (r: Self)
        ensures
            forall|s: Seq<K::V>| r.describes(s, 0),
            r.keys@.len() == 0,
    {
        let g = Groups { keys: Vec::new(), rows: Vec::new() };
        assert forall|s: Seq<K::V>| g.describes(s, 0) by {
            assert(key_views(g.keys@) =~= distinct_prefix(s, 0));
        }
        g
    }

    /// Records row `i`, holding `x`, given the group that already holds `x` (if any).
    pub fn add_row(&mut self, x: &K, i: usize, found: Option<usize>, Ghost(s): Ghost<Seq<K::V>>)
        requires
            old(self).describes(s, i as int),
            i < s.len(),
            s[i as int] == x@,
            match found {
                Some(g) => g < old(self).keys@.len() && old(self).keys@[g as int]@ == x@,
                None => !key_views(old(self).keys@).contains(x@),
            },
        ensures
            final(self).describes(s, i + 1),
            final(self).keys@.len() == old(self).keys@.len() + (if found is None {
                1int
            } else {
                0
            }),
            found is None ==> final(self).keys@.last()@ == x@ && final(self).keys@.len() - 1
                == old(self).keys@.len(),
            forall|h: int| 0 <= h < old(self).keys@.len() ==> (#[trigger] final(self).keys@[h])@ == old(self).keys@[h]@,
    {
        proof {
            lemma_distinct_prefix(s, i as int);
        }
        let ghost old_keys = self.keys@;
        match found {
            Some(k) => {
                let mut row: Vec<usize> = Vec::new();
                self.rows.set_and_swap(k, &mut row);
                row.push(i);
                self.rows.set(k, row);
                proof {
                    assert(distinct_prefix(s, i as int).contains(s[i as int])) by {
                        assert(key_views(self.keys@)[k as int] == self.keys@[k as int]@);
                    }
                    assert forall|h: int| 0 <= h < self.rows@.len() implies #[trigger] self.rows@[h]@
                        == occurrences(s, self.keys@[h]@, i + 1) by {
                        assert(key_views(self.keys@)[h] == self.keys@[h]@);
                        if h != k {
                            assert(distinct_prefix(s, i as int).no_duplicates());
                            assert(key_views(self.keys@)[k as int] == self.keys@[k as int]@);
                        }
                    }
                }
            },
            None => {
                let key = x.key_clone();
                self.keys.push(key);
                let mut row = Vec::new();
                row.push(i);
                self.rows.push(row);
                proof {
                    assert(!distinct_prefix(s, i as int).contains(s[i as int]));
                    assert(key_views(self.keys@) =~= distinct_prefix(s, i + 1)) by {
                        assert(key_views(self.keys@) =~= key_views(old_keys).push(x@));
                    }
                    assert forall|h: int| 0 <= h < self.rows@.len() implies #[trigger] self.rows@[h]@
                        == occurrences(s, self.keys@[h]@, i + 1) by {
                        assert(key_views(self.keys@)[h] == self.keys@[h]@);
                        if h == self.rows@.len() - 1 {
                            assert(occurrences(s, s[i as int], i as int).len() == 0) by {
                                lemma_occurrences(s, s[i as int], i as int);
                                if occurrences(s, s[i as int], i as int).len() > 0 {
                                    let p = occurrences(s, s[i as int], i as int)[0];
                                    assert(distinct_prefix(s, i as int).contains(s[i as int]));
                                }
                            }
                            assert(self.rows@[h]@ =~= occurrences(s, self.keys@[h]@, i + 1));
                        }
                    }
                }
            },
        }
    }

    /// The group that holds `x`, if any.
    pub fn find(&self, x: &K) -> (r: Option<usize>)
        requires
            self.keys@.len() == self.rows@.len(),
        ensures
            match r {
                Some(g) => g < self.keys@.len() && self.keys@[g as int]@ == x@,
                None => !key_views(self.keys@).contains(x@),
            },
    {
        let mut g: usize = 0;
        while g < self.keys.len()
            invariant
                g <= self.keys@.len(),
                forall|h: int| 0 <= h < g ==> self.keys@[h]@ != x@,
            decreases self.keys@.len() - g,
        {
            if self.keys[g].key_eq(x) {
                return Some(g);
            }
            g = g + 1;
        }
        proof {
            if key_views(self.keys@).contains(x@) {
                let h = choose|h: int|
                    0 <= h < key_views(self.keys@).len() && key_views(self.keys@)[h] == x@;
                assert(self.keys@[h]@ == x@);
            }
        }
        None
    }
}


impl<K: KeyEq> Groups<K> {
    /// The rows that hold `x`, or `None` when no row does.
    pub fn rows_of(&self, x: &K, Ghost(s): Ghost<Seq<K::V>>) -> (r: Option<&Vec<usize>>)
        requires
            self.describes(s, s.len() as int),
            s.len() <= usize::MAX,
        ensures
            match r {
                Some(v) => v@ == occurrences(s, x@, s.len() as int) && v@.len() > 0,
                None => occurrences(s, x@, s.len() as int).len() == 0,
            },
            r is None <==> (forall|j: int| 0 <= j < s.len() ==> s[j] != x@),
    {
        proof {
            lemma_distinct_prefix(s, s.len() as int);
            lemma_occurrences_first(s, x@);
        }
        match self.find(x) {
            Some(g) => {
                proof {
                    assert(key_views(self.keys@)[g as int] == x@);
                    assert(distinct_prefix(s, s.len() as int).contains(x@));
                    let j = choose|j: int| 0 <= j < s.len() && s[j] == x@;
                    lemma_occurrences(s, x@, s.len() as int);
                    assert(occurrences(s, x@, s.len() as int).contains(j as usize));
                }
                Some(&self.rows[g])
            },
            None => {
                proof {
                    if occurrences(s, x@, s.len() as int).len() > 0 {
                        lemma_occurrences(s, x@, s.len() as int);
                        let p = occurrences(s, x@, s.len() as int)[0];
                        assert(s[p as int] == x@);
                    }
                }
                None
            },
        }
    }

    /// The first row that holds `x`.
    pub fn first_row(&self, x: &K, Ghost(s): Ghost<Seq<K::V>>) -> (r: Option<usize>)
        requires
            self.describes(s, s.len() as int),
            s.len() <= usize::MAX,
        ensures
            first_match(s, x@, r),
    {
        proof {
            lemma_occurrences_first(s, x@);
        }
        match self.rows_of(x, Ghost(s)) {
            Some(v) => Some(v[0]),
            None => None,
        }
    }
}

} // verus!
