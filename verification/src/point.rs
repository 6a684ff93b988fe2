//! The ingestion unit: a named measurement with tags and field values, and
//! its decomposition into one series identifier per field.
//!
//! Tags and fields are kept sorted by key, so a point's series identifiers
//! are canonical: they depend on which tags and fields the point carries,
//! never on the order in which a producer added them.

use vstd::prelude::*;

use crate::value::ValueView;
use crate::ValueType;
use vstd::string::StrSliceExecFns;
use vstd::string::StringExecFns;

verus! {

/// One field value as a producer hands it in.
///
/// The floating-point kind carries the IEEE-754 bit pattern of its sample:
/// the buffer never interprets the number, it only stores and moves it.
pub enum FieldValue {
    F64(u64),
    I64(i64),
    U64(u64),
    Bool(bool),
    Str(String),
}

impl View for FieldValue {
    type V = ValueView;

    open spec fn view(&self) -> ValueView {
        match self {
            FieldValue::F64(b) => ValueView::F64(*b),
            FieldValue::I64(v) => ValueView::I64(*v),
            FieldValue::U64(v) => ValueView::U64(*v),
            FieldValue::Bool(v) => ValueView::Bool(*v),
            FieldValue::Str(s) => ValueView::Str(s@),
        }
    }
}

impl FieldValue {
    /// The kind tag of this field value.
    pub fn value_type(&self) -> (t: ValueType)
        ensures
            t == self@.kind(),
    {
        match self {
            FieldValue::F64(_) => ValueType::F64,
            FieldValue::I64(_) => ValueType::I64,
            FieldValue::U64(_) => ValueType::U64,
            FieldValue::Bool(_) => ValueType::Bool,
            FieldValue::Str(_) => ValueType::Str,
        }
    }
}

impl Clone for FieldValue {
    fn clone(&self) -> (res: Self)
        ensures
            res@ == self@,
    {
        match self {
            FieldValue::F64(b) => FieldValue::F64(*b),
            FieldValue::I64(v) => FieldValue::I64(*v),
            FieldValue::U64(v) => FieldValue::U64(*v),
            FieldValue::Bool(v) => FieldValue::Bool(*v),
            FieldValue::Str(s) => FieldValue::Str(s.clone()),
        }
    }
}

/// Strict lexicographic order on character sequences, by code point; the
/// order in which tag and field keys are kept.
pub open spec fn lex_lt(a: Seq<char>, b: Seq<char>) -> bool
    decreases a.len(),
{
    if b.len() == 0 {
        false
    } else if a.len() == 0 {
        true
    } else if a[0] != b[0] {
        (a[0] as u32) < (b[0] as u32)
    } else {
        lex_lt(a.skip(1), b.skip(1))
    }
}

/// Character casts to code points are injective.
proof fn lemma_char_cast_inj(x: char, y: char)
    requires
        x as u32 == y as u32,
    ensures
        x == y,
{
}

/// No sequence is below itself.
pub proof fn lemma_lex_lt_irrefl(a: Seq<char>)
    ensures
        !lex_lt(a, a),
    decreases a.len(),
{
    if a.len() > 0 {
        lemma_lex_lt_irrefl(a.skip(1));
    }
}

/// The order is transitive.
pub proof fn lemma_lex_lt_trans(a: Seq<char>, b: Seq<char>, c: Seq<char>)
    requires
        lex_lt(a, b),
        lex_lt(b, c),
    ensures
        lex_lt(a, c),
    decreases a.len() + b.len() + c.len(),
{
    if a.len() > 0 && b.len() > 0 && c.len() > 0 && a[0] == b[0] && b[0] == c[0] {
        lemma_lex_lt_trans(a.skip(1), b.skip(1), c.skip(1));
    }
}

/// Two sequences neither of which is below the other are equal.
pub proof fn lemma_lex_lt_connected(a: Seq<char>, b: Seq<char>)
    requires
        !lex_lt(a, b),
        !lex_lt(b, a),
    ensures
        a == b,
    decreases a.len(),
{
    if a.len() == 0 || b.len() == 0 {
        assert(a =~= b);
    } else {
        if a[0] != b[0] {
            assert(!((a[0] as u32) < (b[0] as u32)));
            assert(!((b[0] as u32) < (a[0] as u32)));
            assert((a[0] as u32) == (b[0] as u32));
            lemma_char_cast_inj(a[0], b[0]);
            assert(false);
        }
        lemma_lex_lt_connected(a.skip(1), b.skip(1));
        assert(a.len() == b.len());
        assert forall|m: int| 0 <= m < a.len() implies a[m] == b[m] by {
            if m > 0 {
                assert(a.skip(1)[m - 1] == a[m]);
                assert(b.skip(1)[m - 1] == b[m]);
            }
        }
        assert(a =~= b);
    }
}

/// Whether a sequence of key/value pairs is strictly sorted by key; strict,
/// so it also says that every key occurs at most once.
pub open spec fn sorted_by_key<T>(s: Seq<(Seq<char>, T)>) -> bool {
    forall|i: int, j: int| 0 <= i < j < s.len() ==> lex_lt(#[trigger] s[i].0, #[trigger] s[j].0)
}

/// Insertion into a key-sorted pair sequence: the map semantics of the tag
/// set and the field set. An existing pair under the same key is replaced;
/// otherwise the new pair lands at its ordered position.
pub open spec fn insert_by_key<T>(s: Seq<(Seq<char>, T)>, k: Seq<char>, v: T) -> Seq<
    (Seq<char>, T),
>
    decreases s.len(),
{
    if s.len() == 0 {
        seq![(k, v)]
    } else if lex_lt(k, s[0].0) {
        seq![(k, v)] + s
    } else if k == s[0].0 {
        seq![(k, v)] + s.skip(1)
    } else {
        seq![s[0]] + insert_by_key(s.skip(1), k, v)
    }
}

/// Insertion keeps the sequence sorted, and changes its members exactly as
/// a map insertion would: the new pair is present, pairs under other keys
/// are untouched, and any pair previously under the same key is gone.
pub proof fn lemma_insert_by_key_members<T>(s: Seq<(Seq<char>, T)>, k: Seq<char>, v: T)
    requires
        sorted_by_key(s),
    ensures
        sorted_by_key(insert_by_key(s, k, v)),
        forall|p: (Seq<char>, T)| #![trigger insert_by_key(s, k, v).contains(p)]
            insert_by_key(s, k, v).contains(p) <==> (p == (k, v) || (s.contains(p) && p.0 != k)),
    decreases s.len(),
{
    let out = insert_by_key(s, k, v);
    if s.len() == 0 {
        assert forall|p: (Seq<char>, T)|
            out.contains(p) <==> (p == (k, v) || (s.contains(p) && p.0 != k)) by {
            if out.contains(p) {
                let i = choose|i: int| 0 <= i < out.len() && out[i] == p;
                assert(p == (k, v));
            }
            if p == (k, v) {
                assert(out[0] == p);
            }
        }
    } else if lex_lt(k, s[0].0) {
        assert forall|i: int, j: int| 0 <= i < j < out.len() implies lex_lt(
            #[trigger] out[i].0,
            #[trigger] out[j].0,
        ) by {
            if i == 0 {
                if j > 1 {
                    lemma_lex_lt_trans(k, s[0].0, s[j - 1].0);
                }
            }
        }
        assert forall|p: (Seq<char>, T)|
            out.contains(p) <==> (p == (k, v) || (s.contains(p) && p.0 != k)) by {
            lemma_lex_lt_irrefl(k);
            if out.contains(p) {
                let i = choose|i: int| 0 <= i < out.len() && out[i] == p;
                if i == 0 {
                    assert(p == (k, v));
                } else {
                    assert(s[i - 1] == p);
                    assert(s.contains(p));
                    if p.0 == k {
                        if i - 1 > 0 {
                            lemma_lex_lt_trans(k, s[0].0, s[i - 1].0);
                        }
                        assert(lex_lt(k, p.0));
                        assert(false);
                    }
                }
            }
            if p == (k, v) {
                assert(out[0] == p);
                assert(out.contains(p));
            }
            if s.contains(p) && p.0 != k {
                let i = choose|i: int| 0 <= i < s.len() && s[i] == p;
                assert(out[i + 1] == p);
                assert(out.contains(p));
            }
        }
    } else if k == s[0].0 {
        assert forall|i: int, j: int| 0 <= i < j < out.len() implies lex_lt(
            #[trigger] out[i].0,
            #[trigger] out[j].0,
        ) by {
            if i == 0 {
                assert(out[j] == s[j]);
                assert(lex_lt(s[0].0, s[j].0));
            } else {
                assert(out[i] == s[i] && out[j] == s[j]);
            }
        }
        assert forall|p: (Seq<char>, T)|
            out.contains(p) <==> (p == (k, v) || (s.contains(p) && p.0 != k)) by {
            if out.contains(p) {
                let i = choose|i: int| 0 <= i < out.len() && out[i] == p;
                if i == 0 {
                    assert(p == (k, v));
                } else {
                    assert(s[i] == p);
                    assert(s.contains(p));
                    if p.0 == k {
                        assert(lex_lt(s[0].0, s[i].0));
                        lemma_lex_lt_irrefl(k);
                        assert(false);
                    }
                }
            }
            if p == (k, v) {
                assert(out[0] == p);
                assert(out.contains(p));
            }
            if s.contains(p) && p.0 != k {
                let i = choose|i: int| 0 <= i < s.len() && s[i] == p;
                assert(i != 0);
                assert(out[i] == p);
                assert(out.contains(p));
            }
        }
    } else {
        // s[0].0 is below k: the head stays and the insertion goes into the
        // tail.
        lemma_lex_lt_irrefl(k);
        if !lex_lt(s[0].0, k) {
            lemma_lex_lt_connected(k, s[0].0);
        }
        assert(lex_lt(s[0].0, k));
        assert(sorted_by_key(s.skip(1))) by {
            assert forall|i: int, j: int| 0 <= i < j < s.skip(1).len() implies lex_lt(
                #[trigger] s.skip(1)[i].0,
                #[trigger] s.skip(1)[j].0,
            ) by {
                assert(s.skip(1)[i] == s[i + 1] && s.skip(1)[j] == s[j + 1]);
            }
        }
        lemma_insert_by_key_members(s.skip(1), k, v);
        let tail = insert_by_key(s.skip(1), k, v);
        assert forall|i: int, j: int| 0 <= i < j < out.len() implies lex_lt(
            #[trigger] out[i].0,
            #[trigger] out[j].0,
        ) by {
            if i == 0 {
                assert(out[j] == tail[j - 1]);
                assert(tail.contains(tail[j - 1]));
                let p = tail[j - 1];
                if p == (k, v) {
                    assert(lex_lt(s[0].0, k));
                } else {
                    assert(s.skip(1).contains(p));
                    let m = choose|m: int| 0 <= m < s.skip(1).len() && s.skip(1)[m] == p;
                    assert(s[m + 1] == p);
                    assert(lex_lt(s[0].0, s[m + 1].0));
                }
            } else {
                assert(out[i] == tail[i - 1] && out[j] == tail[j - 1]);
            }
        }
        assert forall|p: (Seq<char>, T)|
            out.contains(p) <==> (p == (k, v) || (s.contains(p) && p.0 != k)) by {
            if out.contains(p) {
                let i = choose|i: int| 0 <= i < out.len() && out[i] == p;
                if i == 0 {
                    assert(p == s[0]);
                    assert(s.contains(p));
                } else {
                    assert(tail[i - 1] == p);
                    assert(tail.contains(p));
                    if p != (k, v) {
                        assert(s.skip(1).contains(p));
                        let m = choose|m: int| 0 <= m < s.skip(1).len() && s.skip(1)[m] == p;
                        assert(s[m + 1] == p);
                        assert(s.contains(p));
                    }
                }
            }
            if p == (k, v) {
                assert(tail.contains(p));
                let m = choose|m: int| 0 <= m < tail.len() && tail[m] == p;
                assert(out[m + 1] == p);
                assert(out.contains(p));
            }
            if s.contains(p) && p.0 != k {
                let i = choose|i: int| 0 <= i < s.len() && s[i] == p;
                if i == 0 {
                    assert(out[0] == p);
                    assert(out.contains(p));
                } else {
                    assert(s.skip(1)[i - 1] == p);
                    assert(s.skip(1).contains(p));
                    assert(tail.contains(p));
                    let m = choose|m: int| 0 <= m < tail.len() && tail[m] == p;
                    assert(out[m + 1] == p);
                    assert(out.contains(p));
                }
            }
        }
    }
}

/// Two key-sorted pair sequences with the same members are the same
/// sequence: a sorted tag or field set has exactly one representation.
pub proof fn lemma_sorted_same_members_equal<T>(
    s1: Seq<(Seq<char>, T)>,
    s2: Seq<(Seq<char>, T)>,
)
    requires
        sorted_by_key(s1),
        sorted_by_key(s2),
        forall|p: (Seq<char>, T)| s1.contains(p) <==> s2.contains(p),
    ensures
        s1 == s2,
    decreases s1.len(),
{
    if s1.len() == 0 {
        if s2.len() > 0 {
            assert(s2.contains(s2[0]));
            assert(s1.contains(s2[0]));
            assert(false);
        }
        assert(s1 =~= s2);
    } else {
        assert(s1.contains(s1[0]));
        assert(s2.contains(s1[0]));
        let j = choose|j: int| 0 <= j < s2.len() && s2[j] == s1[0];
        assert(s2.contains(s2[0]));
        assert(s1.contains(s2[0]));
        let i = choose|i: int| 0 <= i < s1.len() && s1[i] == s2[0];
        if i > 0 && j > 0 {
            assert(lex_lt(s1[0].0, s1[i].0));
            assert(lex_lt(s2[0].0, s2[j].0));
            lemma_lex_lt_trans(s1[0].0, s2[0].0, s1[0].0);
            lemma_lex_lt_irrefl(s1[0].0);
            assert(false);
        }
        assert(s1[0] == s2[0]);
        let t1 = s1.skip(1);
        let t2 = s2.skip(1);
        assert(sorted_by_key(t1)) by {
            assert forall|a: int, b: int| 0 <= a < b < t1.len() implies lex_lt(
                #[trigger] t1[a].0,
                #[trigger] t1[b].0,
            ) by {
                assert(t1[a] == s1[a + 1] && t1[b] == s1[b + 1]);
            }
        }
        assert(sorted_by_key(t2)) by {
            assert forall|a: int, b: int| 0 <= a < b < t2.len() implies lex_lt(
                #[trigger] t2[a].0,
                #[trigger] t2[b].0,
            ) by {
                assert(t2[a] == s2[a + 1] && t2[b] == s2[b + 1]);
            }
        }
        assert forall|p: (Seq<char>, T)| t1.contains(p) <==> t2.contains(p) by {
            if t1.contains(p) {
                let a = choose|a: int| 0 <= a < t1.len() && t1[a] == p;
                assert(s1[a + 1] == p);
                assert(lex_lt(s1[0].0, p.0));
                assert(s1.contains(p));
                assert(s2.contains(p));
                let b = choose|b: int| 0 <= b < s2.len() && s2[b] == p;
                if b == 0 {
                    lemma_lex_lt_irrefl(p.0);
                    assert(false);
                }
                assert(t2[b - 1] == p);
                assert(t2.contains(p));
            }
            if t2.contains(p) {
                let a = choose|a: int| 0 <= a < t2.len() && t2[a] == p;
                assert(s2[a + 1] == p);
                assert(lex_lt(s2[0].0, p.0));
                assert(s2.contains(p));
                assert(s1.contains(p));
                let b = choose|b: int| 0 <= b < s1.len() && s1[b] == p;
                if b == 0 {
                    lemma_lex_lt_irrefl(p.0);
                    assert(false);
                }
                assert(t1[b - 1] == p);
                assert(t1.contains(p));
            }
        }
        lemma_sorted_same_members_equal(t1, t2);
        assert(s1.len() == s2.len());
        assert forall|m: int| 0 <= m < s1.len() implies s1[m] == s2[m] by {
            if m > 0 {
                assert(t1[m - 1] == s1[m]);
                assert(t2[m - 1] == s2[m]);
            }
        }
        assert(s1 =~= s2);
    }
}

/// Whether `a` comes strictly before `b` in key order.
pub fn str_lt(a: &str, b: &str) -> (r: bool)
    ensures
        r == lex_lt(a@, b@),
{
    let alen = a.unicode_len();
    let blen = b.unicode_len();
    let mut i: usize = 0;
    proof {
        assert(a@.skip(0) =~= a@);
        assert(b@.skip(0) =~= b@);
    }
    while i < alen && i < blen
        invariant
            alen == a@.len(),
            blen == b@.len(),
            i <= alen,
            i <= blen,
            lex_lt(a@, b@) == lex_lt(a@.skip(i as int), b@.skip(i as int)),
        decreases alen - i,
    {
        let ca = a.get_char(i);
        let cb = b.get_char(i);
        if (ca as u32) < (cb as u32) {
            return true;
        }
        if (ca as u32) > (cb as u32) {
            return false;
        }
        proof {
            assert(a@.skip(i as int).skip(1) =~= a@.skip(i as int + 1));
            assert(b@.skip(i as int).skip(1) =~= b@.skip(i as int + 1));
        }
        i += 1;
    }
    i < blen
}

/// The view of a key/value vector: each key and value replaced by its
/// ghost image.
pub open spec fn kv_view<T: View>(s: Seq<(String, T)>) -> Seq<(Seq<char>, T::V)> {
    s.map_values(|p: (String, T)| (p.0@, p.1@))
}

/// Sorted insertion into a key/value vector, the exec side of
/// [`insert_by_key`]: scans for the key's position, replaces the pair under
/// an equal key, and otherwise splices the new pair in.
fn insert_sorted<T: View>(v: &mut Vec<(String, T)>, key: String, val: T)
    requires
        sorted_by_key(kv_view(old(v)@)),
    ensures
        kv_view(final(v)@) == insert_by_key(kv_view(old(v)@), key@, val@),
        sorted_by_key(kv_view(final(v)@)),
{
    let ghost s = kv_view(v@);
    let mut pos: usize = 0;
    while pos < v.len() && str_lt(v[pos].0.as_str(), key.as_str())
        invariant
            v == old(v),
            s == kv_view(v@),
            pos <= v@.len(),
            forall|j: int| 0 <= j < pos ==> lex_lt(#[trigger] s[j].0, key@),
        decreases v@.len() - pos,
    {
        assert(s[pos as int].0 == v@[pos as int].0@);
        pos += 1;
    }
    proof {
        if (pos as int) < s.len() {
            assert(s[pos as int].0 == v@[pos as int].0@);
            assert(!lex_lt(s[pos as int].0, key@));
        }
    }
    if pos < v.len() && v[pos].0 == key {
        let _replaced = v.remove(pos);
        v.insert(pos, (key, val));
        proof {
            assert(kv_view(v@) =~= s.update(pos as int, (key@, val@)));
        }
    } else {
        v.insert(pos, (key, val));
        proof {
            assert(kv_view(v@) =~= s.insert(pos as int, (key@, val@)));
        }
    }
    proof {
        lemma_insert_at_position(s, key@, val@, pos as int);
        lemma_insert_by_key_members(s, key@, val@);
    }
}

/// Where the recursive insertion lands, for a scan that stopped at `pos`:
/// at `pos`, replacing the pair there when its key is equal.
proof fn lemma_insert_at_position<T>(s: Seq<(Seq<char>, T)>, k: Seq<char>, v: T, pos: int)
    requires
        sorted_by_key(s),
        0 <= pos <= s.len(),
        forall|j: int| 0 <= j < pos ==> lex_lt(#[trigger] s[j].0, k),
        pos < s.len() ==> !lex_lt(s[pos].0, k),
    ensures
        insert_by_key(s, k, v) == if pos < s.len() && s[pos].0 == k {
            s.update(pos, (k, v))
        } else {
            s.insert(pos, (k, v))
        },
    decreases pos,
{
    if s.len() == 0 {
        assert(insert_by_key(s, k, v) =~= s.insert(0, (k, v)));
    } else if pos == 0 {
        if s[0].0 == k {
            assert(!lex_lt(k, s[0].0)) by {
                lemma_lex_lt_irrefl(k);
            }
            assert(insert_by_key(s, k, v) =~= s.update(0, (k, v)));
        } else {
            if !lex_lt(k, s[0].0) {
                lemma_lex_lt_connected(k, s[0].0);
            }
            assert(lex_lt(k, s[0].0));
            assert(insert_by_key(s, k, v) =~= s.insert(0, (k, v)));
        }
    } else {
        assert(lex_lt(s[0].0, k));
        assert(k != s[0].0) by {
            lemma_lex_lt_irrefl(k);
        }
        assert(!lex_lt(k, s[0].0)) by {
            if lex_lt(k, s[0].0) {
                lemma_lex_lt_trans(k, s[0].0, k);
                lemma_lex_lt_irrefl(k);
            }
        }
        let t = s.skip(1);
        assert(sorted_by_key(t)) by {
            assert forall|a: int, b: int| 0 <= a < b < t.len() implies lex_lt(
                #[trigger] t[a].0,
                #[trigger] t[b].0,
            ) by {
                assert(t[a] == s[a + 1] && t[b] == s[b + 1]);
            }
        }
        assert forall|j: int| 0 <= j < pos - 1 implies lex_lt(#[trigger] t[j].0, k) by {
            assert(t[j] == s[j + 1]);
        }
        assert(pos - 1 < t.len() ==> !lex_lt(t[pos - 1].0, k)) by {
            if pos - 1 < t.len() {
                assert(t[pos - 1] == s[pos]);
            }
        }
        lemma_insert_at_position(t, k, v, pos - 1);
        if pos < s.len() && s[pos].0 == k {
            assert(t[pos - 1] == s[pos]);
            assert(insert_by_key(s, k, v) =~= s.update(pos, (k, v)));
        } else {
            assert(insert_by_key(s, k, v) =~= s.insert(pos, (k, v)));
        }
    }
}

/// The separator between the series key and the field name in a series
/// identifier: a literal unlikely to collide with measurement, tag or
/// field content.
pub open spec fn field_separator() -> Seq<char> {
    seq!['#', '!', '~', '#']
}

/// The sorted tag set rendered as `k1=v1,k2=v2,...`.
pub open spec fn tags_joined(tags: Seq<(Seq<char>, Seq<char>)>) -> Seq<char>
    decreases tags.len(),
{
    if tags.len() == 0 {
        Seq::empty()
    } else if tags.len() == 1 {
        tags[0].0 + seq!['='] + tags[0].1
    } else {
        tags_joined(tags.drop_last()) + seq![','] + tags.last().0 + seq!['='] + tags.last().1
    }
}

/// The canonical series key of a measurement and its tag set: the
/// measurement, a comma, and the tag pairs in key order.
pub open spec fn series_key(measurement: Seq<char>, tags: Seq<(Seq<char>, Seq<char>)>) -> Seq<
    char,
> {
    measurement + seq![','] + tags_joined(tags)
}

/// The canonical identifier of one series: the series key, the separator,
/// and the field name.
pub open spec fn series_id(
    measurement: Seq<char>,
    tags: Seq<(Seq<char>, Seq<char>)>,
    field_name: Seq<char>,
) -> Seq<char> {
    series_key(measurement, tags) + field_separator() + field_name
}

/// Ghost image of a point.
pub struct PointView {
    pub measurement: Seq<char>,
    pub tags: Seq<(Seq<char>, Seq<char>)>,
    pub time: i128,
    pub field: Seq<(Seq<char>, ValueView)>,
}

/// All (series identifier, value) pairs of a point, one per field, in
/// field order.
pub open spec fn spec_fields(p: PointView) -> Seq<(Seq<char>, ValueView)> {
    Seq::new(
        p.field.len(),
        |i: int| (series_id(p.measurement, p.tags, p.field[i].0), p.field[i].1),
    )
}

/// One (series identifier, value) pair produced by decomposing a point.
pub struct Field {
    pub series_id: String,
    pub value: FieldValue,
}

impl View for Field {
    type V = (Seq<char>, ValueView);

    open spec fn view(&self) -> (Seq<char>, ValueView) {
        (self.series_id@, self.value@)
    }
}

/// One ingestion unit: a named measurement, a tag set, a timestamp in
/// nanoseconds since the epoch (signed, so observations before the epoch
/// are representable), and the field values sampled then. Tags
/// and fields are key-sorted maps, so the point's series identifiers do
/// not depend on insertion order.
pub struct Point {
    measurement: String,
    tags: Vec<(String, String)>,
    time: i128,
    field: Vec<(String, FieldValue)>,
}

impl View for Point {
    type V = PointView;

    closed spec fn view(&self) -> PointView {
        PointView {
            measurement: self.measurement@,
            tags: kv_view(self.tags@),
            time: self.time,
            field: kv_view(self.field@),
        }
    }
}

impl Point {
    /// Whether the tag set and the field set are in canonical (key-sorted)
    /// form; the constructor establishes it and insertions keep it.
    pub open spec fn wf(self) -> bool {
        sorted_by_key(self@.tags) && sorted_by_key(self@.field)
    }

    pub fn new(measurement: String, unix_nano: i128) -> (p: Point)
        ensures
            p@.measurement == measurement@,
            p@.time == unix_nano,
            p@.tags == Seq::<(Seq<char>, Seq<char>)>::empty(),
            p@.field == Seq::<(Seq<char>, ValueView)>::empty(),
            p.wf(),
    {
        let p = Point { measurement, tags: Vec::new(), time: unix_nano, field: Vec::new() };
        proof {
            assert(p@.tags =~= Seq::<(Seq<char>, Seq<char>)>::empty());
            assert(p@.field =~= Seq::<(Seq<char>, ValueView)>::empty());
        }
        p
    }

    /// Sets the tag `key` to `value`; an existing tag under the same key
    /// is replaced, as in a map insertion.
    pub fn add_tag(&mut self, key: String, value: String)
        requires
            old(self).wf(),
        ensures
            final(self).wf(),
            final(self)@.measurement == old(self)@.measurement,
            final(self)@.time == old(self)@.time,
            final(self)@.field == old(self)@.field,
            final(self)@.tags == insert_by_key(old(self)@.tags, key@, value@),
    {
        insert_sorted(&mut self.tags, key, value);
    }

    /// Sets the field `name` to `value`; an existing field under the same
    /// name is replaced, as in a map insertion.
    pub fn add_field(&mut self, name: String, value: FieldValue)
        requires
            old(self).wf(),
        ensures
            final(self).wf(),
            final(self)@.measurement == old(self)@.measurement,
            final(self)@.time == old(self)@.time,
            final(self)@.tags == old(self)@.tags,
            final(self)@.field == insert_by_key(old(self)@.field, name@, value@),
    {
        insert_sorted(&mut self.field, name, value);
    }

    /// The point's timestamp, in nanoseconds since the epoch.
    pub fn unix_nano(&self) -> (t: i128)
        ensures
            t == self@.time,
    {
        self.time
    }

    /// Decomposes the point into one (series identifier, value) pair per
    /// field, in field order: the canonical bridge from the point model to
    /// per-series storage. A point without fields yields nothing.
    pub fn fields(&self) -> (out: Vec<Field>)
        ensures
            out@.len() == self@.field.len(),
            forall|k: int|
                0 <= k < out@.len() ==> (#[trigger] out@[k])@ == spec_fields(self@)[k],
    {
        let ghost pv = self@;
        let mut series: String = self.measurement.clone();
        series.append(",");
        proof {
            reveal_strlit(",");
            assert(","@ =~= seq![',']);
            assert(pv.tags.take(0) =~= Seq::<(Seq<char>, Seq<char>)>::empty());
            assert(series@ =~= pv.measurement + seq![','] + tags_joined(pv.tags.take(0)));
        }
        let n: usize = self.tags.len();
        let mut i: usize = 0;
        while i < n
            invariant
                n == self.tags@.len(),
                pv == self@,
                pv.tags.len() == n,
                i <= n,
                series@ == pv.measurement + seq![','] + tags_joined(pv.tags.take(i as int)),
            decreases n - i,
        {
            if i > 0 {
                series.append(",");
            }
            series.append(self.tags[i].0.as_str());
            series.append("=");
            series.append(self.tags[i].1.as_str());
            proof {
                reveal_strlit(",");
                reveal_strlit("=");
                assert(","@ =~= seq![',']);
                assert("="@ =~= seq!['=']);
                assert(pv.tags[i as int] == (self.tags@[i as int].0@, self.tags@[i as int].1@));
                assert(pv.tags.take(i as int + 1).drop_last() =~= pv.tags.take(i as int));
                assert(pv.tags.take(i as int + 1).last() == pv.tags[i as int]);
                assert(series@ =~= pv.measurement + seq![','] + tags_joined(
                    pv.tags.take(i as int + 1),
                ));
            }
            i += 1;
        }
        proof {
            assert(pv.tags.take(n as int) =~= pv.tags);
        }
        let mut out: Vec<Field> = Vec::new();
        let m: usize = self.field.len();
        let mut j: usize = 0;
        while j < m
            invariant
                m == self.field@.len(),
                pv == self@,
                pv.field.len() == m,
                j <= m,
                series@ == series_key(pv.measurement, pv.tags),
                out@.len() == j,
                forall|k: int| 0 <= k < j ==> (#[trigger] out@[k])@ == spec_fields(pv)[k],
            decreases m - j,
        {
            let mut id = series.clone();
            id.append("#!~#");
            id.append(self.field[j].0.as_str());
            let value = self.field[j].1.clone();
            proof {
                reveal_strlit("#!~#");
                assert("#!~#"@ =~= field_separator());
                assert(pv.field[j as int] == (
                    self.field@[j as int].0@,
                    self.field@[j as int].1@,
                ));
                assert(id@ =~= series_id(pv.measurement, pv.tags, pv.field[j as int].0));
            }
            out.push(Field { series_id: id, value });
            j += 1;
        }
        out
    }
}

/// Canonical identifiers: two points that carry the same measurement and
/// the same set of tags and fields — in whatever order those were added —
/// decompose to exactly the same (series identifier, value) pairs.
pub proof fn lemma_fields_canonical(p1: PointView, p2: PointView)
    requires
        p1.measurement == p2.measurement,
        sorted_by_key(p1.tags),
        sorted_by_key(p2.tags),
        forall|t: (Seq<char>, Seq<char>)| p1.tags.contains(t) <==> p2.tags.contains(t),
        sorted_by_key(p1.field),
        sorted_by_key(p2.field),
        forall|f: (Seq<char>, ValueView)| p1.field.contains(f) <==> p2.field.contains(f),
    ensures
        spec_fields(p1) == spec_fields(p2),
{
    lemma_sorted_same_members_equal(p1.tags, p2.tags);
    lemma_sorted_same_members_equal(p1.field, p2.field);
    assert(spec_fields(p1) =~= spec_fields(p2));
}

} // verus!
