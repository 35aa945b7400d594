use vstd::prelude::*;
use vstd::utf8::{encode_utf8, encode_utf8_decode_utf8};

verus! {

/// The mathematical value of a row label.
pub enum LabelView {
    Int64(i64),
    Utf8(Seq<char>),
}

/// A row label: an integer or a string.
#[derive(Debug, Eq, Hash, PartialOrd, Ord)]
pub enum IndexLabel {
    Int64(i64),
    Utf8(String),
}

impl View for IndexLabel {
    type V = LabelView;

    open spec fn view(&self) -> LabelView {
        match self {
            IndexLabel::Int64(v) => LabelView::Int64(*v),
            IndexLabel::Utf8(s) => LabelView::Utf8(s@),
        }
    }
}

impl Clone for IndexLabel {
    fn clone(&self) -> (r: Self)
        ensures
            r == *self,
    {
        match self {
            IndexLabel::Int64(v) => IndexLabel::Int64(*v),
            IndexLabel::Utf8(s) => IndexLabel::Utf8(s.clone()),
        }
    }
}

impl PartialEq for IndexLabel {
    fn eq(&self, other: &IndexLabel) -> (r: bool)
        ensures
            r == (self@ == other@),
    {
        match (self, other) {
            (IndexLabel::Int64(a), IndexLabel::Int64(b)) => *a == *b,
            (IndexLabel::Utf8(a), IndexLabel::Utf8(b)) => a.eq(b),
            _ => false,
        }
    }
}

impl vstd::std_specs::cmp::PartialEqSpecImpl for IndexLabel {
    open spec fn obeys_eq_spec() -> bool {
        true
    }

    open spec fn eq_spec(&self, other: &IndexLabel) -> bool {
        self@ == other@
    }
}

impl From<i64> for IndexLabel {
    fn from(value: i64) -> (r: IndexLabel) {
        IndexLabel::Int64(value)
    }
}

impl vstd::std_specs::convert::FromSpecImpl<i64> for IndexLabel {
    open spec fn obeys_from_spec() -> bool {
        true
    }

    open spec fn from_spec(v: i64) -> IndexLabel {
        IndexLabel::Int64(v)
    }
}

impl From<String> for IndexLabel {
    fn from(value: String) -> (r: IndexLabel) {
        IndexLabel::Utf8(value)
    }
}

impl vstd::std_specs::convert::FromSpecImpl<String> for IndexLabel {
    open spec fn obeys_from_spec() -> bool {
        true
    }

    open spec fn from_spec(v: String) -> IndexLabel {
        IndexLabel::Utf8(v)
    }
}

impl<'a> From<&'a str> for IndexLabel {
    fn from(value: &'a str) -> (r: IndexLabel) {
        IndexLabel::Utf8(value.to_owned())
    }
}

impl<'a> vstd::std_specs::convert::FromSpecImpl<&'a str> for IndexLabel {
    /// A `String` made from a `str` has no spec-level constructor to name.
    open spec fn obeys_from_spec() -> bool {
        false
    }

    open spec fn from_spec(v: &'a str) -> IndexLabel {
        IndexLabel::Int64(0)
    }
}

impl IndexLabel {
    /// Label equality, usable from verified callers.
    pub fn same_as(&self, other: &IndexLabel) -> (r: bool)
        ensures
            r == (self@ == other@),
    {
        self.eq(other)
    }

    /// The label as text: an integer in decimal, a string as it is.
    pub fn to_text(&self) -> (r: String)
        ensures
            self@ matches LabelView::Utf8(t) ==> r@ == t,
    {
        match self {
            IndexLabel::Int64(v) => v.to_string(),
            IndexLabel::Utf8(s) => s.clone(),
        }
    }
}

/// Lexicographic order of byte strings: the order of `str` in std.
pub open spec fn bytes_lt(a: Seq<u8>, b: Seq<u8>) -> bool
    decreases a.len(),
{
    if a.len() == 0 {
        b.len() > 0
    } else if b.len() == 0 {
        false
    } else if a[0] != b[0] {
        a[0] < b[0]
    } else {
        bytes_lt(a.drop_first(), b.drop_first())
    }
}

/// Strict order of two texts: by their UTF-8 bytes.
pub open spec fn text_lt(a: Seq<char>, b: Seq<char>) -> bool {
    bytes_lt(encode_utf8(a), encode_utf8(b))
}

pub proof fn lemma_bytes_lt_irreflexive(a: Seq<u8>)
    ensures
        !bytes_lt(a, a),
    decreases a.len(),
{
    if a.len() > 0 {
        lemma_bytes_lt_irreflexive(a.drop_first());
    }
}

pub proof fn lemma_bytes_lt_transitive(a: Seq<u8>, b: Seq<u8>, c: Seq<u8>)
    requires
        bytes_lt(a, b),
        bytes_lt(b, c),
    ensures
        bytes_lt(a, c),
    decreases a.len(),
{
    if a.len() > 0 && b.len() > 0 && c.len() > 0 && a[0] == b[0] && b[0] == c[0] {
        lemma_bytes_lt_transitive(a.drop_first(), b.drop_first(), c.drop_first());
    }
}

pub proof fn lemma_bytes_lt_total(a: Seq<u8>, b: Seq<u8>)
    ensures
        bytes_lt(a, b) || bytes_lt(b, a) || a == b,
    decreases a.len(),
{
    if a.len() > 0 && b.len() > 0 && a[0] == b[0] {
        lemma_bytes_lt_total(a.drop_first(), b.drop_first());
        if a.drop_first() == b.drop_first() {
            assert(a =~= seq![a[0]] + a.drop_first());
            assert(b =~= seq![b[0]] + b.drop_first());
        }
    } else if a.len() == 0 && b.len() == 0 {
        assert(a =~= b);
    }
}

pub proof fn lemma_text_lt_transitive(a: Seq<char>, b: Seq<char>, c: Seq<char>)
    requires
        text_lt(a, b),
        text_lt(b, c),
    ensures
        text_lt(a, c),
{
    lemma_bytes_lt_transitive(encode_utf8(a), encode_utf8(b), encode_utf8(c));
}

pub proof fn lemma_text_lt_irreflexive(a: Seq<char>)
    ensures
        !text_lt(a, a),
{
    lemma_bytes_lt_irreflexive(encode_utf8(a));
}

/// Two texts with equal encodings are equal.
pub proof fn lemma_text_encoding_injective(a: Seq<char>, b: Seq<char>)
    requires
        encode_utf8(a) == encode_utf8(b),
    ensures
        a == b,
{
    encode_utf8_decode_utf8(a);
    encode_utf8_decode_utf8(b);
}

/// Three-way comparison of two byte strings, in the order `bytes_lt`.
fn compare_bytes(a: &[u8], b: &[u8]) -> (r: i8)
    ensures
        r < 0 <==> bytes_lt(a@, b@),
        r == 0 <==> a@ == b@,
        r > 0 <==> bytes_lt(b@, a@),
{
    let mut i: usize = 0;
    while i < a.len() && i < b.len() && a[i] == b[i]
        invariant
            i <= a@.len(),
            i <= b@.len(),
            a@.take(i as int) == b@.take(i as int),
        decreases a@.len() - i,
    {
        assert(a@.take(i as int + 1) =~= a@.take(i as int).push(a@[i as int]));
        assert(b@.take(i as int + 1) =~= b@.take(i as int).push(b@[i as int]));
        i = i + 1;
    }
    proof {
        lemma_bytes_lt_skip_prefix(a@, b@, i as int);
        lemma_bytes_lt_skip_prefix(b@, a@, i as int);
        lemma_bytes_lt_irreflexive(a@);
    }
    if i == a.len() && i == b.len() {
        assert(a@ =~= a@.take(i as int));
        assert(b@ =~= b@.take(i as int));
        0
    } else if i == a.len() {
        proof {
            lemma_bytes_lt_total(a@, b@);
            assert(a@ =~= a@.take(i as int));
        }
        -1
    } else if i == b.len() {
        proof {
            assert(b@ =~= b@.take(i as int));
        }
        1
    } else if a[i] < b[i] {
        proof {
            assert(a@[i as int] != b@[i as int]);
        }
        -1
    } else {
        proof {
            assert(a@[i as int] != b@[i as int]);
        }
        1
    }
}

/// Order of two byte strings that share their first `k` bytes is decided after them.
proof fn lemma_bytes_lt_skip_prefix(a: Seq<u8>, b: Seq<u8>, k: int)
    requires
        0 <= k <= a.len(),
        k <= b.len(),
        a.take(k) == b.take(k),
    ensures
        bytes_lt(a, b) == bytes_lt(a.skip(k), b.skip(k)),
    decreases k,
{
    if k > 0 {
        assert(a[0] == a.take(k)[0]);
        assert(b[0] == b.take(k)[0]);
        assert(a.drop_first().take(k - 1) =~= a.take(k).drop_first());
        assert(b.drop_first().take(k - 1) =~= b.take(k).drop_first());
        lemma_bytes_lt_skip_prefix(a.drop_first(), b.drop_first(), k - 1);
        assert(a.drop_first().skip(k - 1) =~= a.skip(k));
        assert(b.drop_first().skip(k - 1) =~= b.skip(k));
    } else {
        assert(a.skip(0) =~= a);
        assert(b.skip(0) =~= b);
    }
}

/// Three-way comparison of two texts, in the order of `str`.
pub fn compare_text(a: &str, b: &str) -> (r: i8)
    ensures
        r < 0 <==> text_lt(a@, b@),
        r == 0 <==> a@ == b@,
        r > 0 <==> text_lt(b@, a@),
{
    let ab = a.as_bytes();
    let bb = b.as_bytes();
    let r = compare_bytes(ab, bb);
    proof {
        if r == 0 {
            lemma_text_encoding_injective(a@, b@);
        }
    }
    r
}

} // verus!
