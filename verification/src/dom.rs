//! The document tree model: nodes, elements, attributes and their query
//! helpers.  Attributes are an association list kept strictly sorted by key,
//! so equal attribute sets have equal representations no matter the order
//! the parser wrote them in.

use vstd::prelude::*;

use crate::text::{lemma_scan_end_eq, scan_end, str_eq};

verus! {

// ------------------------------------------------------------------
// Lexicographic order on text, used to keep attribute keys sorted.
// ------------------------------------------------------------------
/// Strict lexicographic order by character code point.
pub open spec fn lex_lt(a: Seq<char>, b: Seq<char>) -> bool
    decreases a.len(),
{
    if b.len() == 0 {
        false
    } else if a.len() == 0 {
        true
    } else if a[0] != b[0] {
        a[0] < b[0]
    } else {
        lex_lt(a.drop_first(), b.drop_first())
    }
}

pub proof fn lemma_lex_irrefl(a: Seq<char>)
    ensures
        !lex_lt(a, a),
    decreases a.len(),
{
    if a.len() > 0 {
        lemma_lex_irrefl(a.drop_first());
    }
}

/// Exactly one of `a < b`, `b < a`, `a == b` holds.
pub proof fn lemma_lex_trichotomy(a: Seq<char>, b: Seq<char>)
    ensures
        lex_lt(a, b) || lex_lt(b, a) || a == b,
        lex_lt(a, b) ==> !lex_lt(b, a) && a != b,
    decreases a.len(),
{
    lemma_lex_irrefl(a);
    lemma_lex_irrefl(b);
    if a.len() > 0 && b.len() > 0 && a[0] == b[0] {
        lemma_lex_trichotomy(a.drop_first(), b.drop_first());
        if a.drop_first() == b.drop_first() {
            assert forall|i: int| 0 <= i < a.len() implies a[i] == b[i] by {
                if i > 0 {
                    assert(a.drop_first()[i - 1] == a[i]);
                    assert(b.drop_first()[i - 1] == b[i]);
                }
            }
            assert(a =~= b);
        }
    }
}

pub proof fn lemma_lex_trans(a: Seq<char>, b: Seq<char>, c: Seq<char>)
    requires
        lex_lt(a, b),
        lex_lt(b, c),
    ensures
        lex_lt(a, c),
    decreases a.len(),
{
    if c.len() > 0 && a.len() > 0 && b.len() > 0 {
        if a[0] == b[0] && b[0] == c[0] {
            lemma_lex_trans(a.drop_first(), b.drop_first(), c.drop_first());
        }
    }
}

/// Decide `lex_lt` on two pieces of text.
pub fn str_lex_lt(a: &str, b: &str) -> (r: bool)
    ensures
        r == lex_lt(a@, b@),
{
    let n: usize = a.unicode_len();
    let m: usize = b.unicode_len();
    proof {
        assert(a@.skip(0) =~= a@);
        assert(b@.skip(0) =~= b@);
    }
    let mut i: usize = 0;
    while i < n && i < m && a.get_char(i) == b.get_char(i)
        invariant
            0 <= i <= n,
            i <= m,
            n == a@.len(),
            m == b@.len(),
            lex_lt(a@, b@) == lex_lt(a@.skip(i as int), b@.skip(i as int)),
        decreases n - i,
    {
        proof {
            assert(a@.skip(i as int).drop_first() =~= a@.skip(i as int + 1));
            assert(b@.skip(i as int).drop_first() =~= b@.skip(i as int + 1));
        }
        i += 1;
    }
    if i >= m {
        false
    } else if i >= n {
        true
    } else {
        a.get_char(i) < b.get_char(i)
    }
}

// ------------------------------------------------------------------
// Association sequences of (key, value) pairs.
// ------------------------------------------------------------------
/// The model of an attribute mapping: ordered (key, value) pairs.
pub type AttrsV = Seq<(Seq<char>, Seq<char>)>;

/// The value bound to `k`, taking the first matching pair.
pub open spec fn amap_get<V>(m: Seq<(Seq<char>, V)>, k: Seq<char>) -> Option<V>
    decreases m.len(),
{
    if m.len() == 0 {
        None
    } else if m[0].0 == k {
        Some(m[0].1)
    } else {
        amap_get(m.drop_first(), k)
    }
}

/// Keys appear in strictly ascending lexicographic order.
pub open spec fn amap_sorted<V>(m: Seq<(Seq<char>, V)>) -> bool {
    forall|i: int, j: int| 0 <= i < j < m.len() ==> lex_lt(#[trigger] m[i].0, #[trigger] m[j].0)
}

pub proof fn lemma_amap_absent<V>(m: Seq<(Seq<char>, V)>, k: Seq<char>)
    requires
        forall|i: int| 0 <= i < m.len() ==> (#[trigger] m[i]).0 != k,
    ensures
        amap_get(m, k) == None::<V>,
    decreases m.len(),
{
    if m.len() > 0 {
        assert forall|i: int| 0 <= i < m.drop_first().len() implies (#[trigger] m.drop_first()[
            i
        ]).0 != k by {
            assert(m.drop_first()[i] == m[i + 1]);
        }
        lemma_amap_absent(m.drop_first(), k);
    }
}

pub proof fn lemma_amap_first_match<V>(m: Seq<(Seq<char>, V)>, k: Seq<char>, j: int)
    requires
        0 <= j < m.len(),
        m[j].0 == k,
        forall|i: int| 0 <= i < j ==> (#[trigger] m[i]).0 != k,
    ensures
        amap_get(m, k) == Some(m[j].1),
    decreases j,
{
    if j > 0 {
        assert forall|i: int| 0 <= i < j - 1 implies (#[trigger] m.drop_first()[i]).0 != k by {
            assert(m.drop_first()[i] == m[i + 1]);
        }
        assert(m.drop_first()[j - 1] == m[j]);
        lemma_amap_first_match(m.drop_first(), k, j - 1);
    }
}

pub proof fn lemma_amap_concat<V>(a: Seq<(Seq<char>, V)>, b: Seq<(Seq<char>, V)>, k: Seq<char>)
    ensures
        amap_get(a + b, k) == (match amap_get(a, k) {
            Some(v) => Some(v),
            None => amap_get(b, k),
        }),
    decreases a.len(),
{
    if a.len() == 0 {
        assert(a + b =~= b);
    } else {
        assert((a + b)[0] == a[0]);
        if a[0].0 == k {
        } else {
            assert((a + b).drop_first() =~= a.drop_first() + b);
            lemma_amap_concat(a.drop_first(), b, k);
        }
    }
}

/// Sorted insertion of a binding, replacing an equal key.
pub open spec fn amap_put<V>(m: Seq<(Seq<char>, V)>, k: Seq<char>, v: V) -> Seq<(Seq<char>, V)>
    decreases m.len(),
{
    if m.len() == 0 {
        seq![(k, v)]
    } else if lex_lt(m[0].0, k) {
        seq![m[0]] + amap_put(m.drop_first(), k, v)
    } else if m[0].0 == k {
        seq![(k, v)] + m.drop_first()
    } else {
        seq![(k, v)] + m
    }
}

/// On a sorted sequence, `amap_put` works at the position where the scan
/// for the first key not below `k` stops.
pub proof fn lemma_amap_put_at<V>(m: Seq<(Seq<char>, V)>, k: Seq<char>, v: V, idx: int)
    requires
        amap_sorted(m),
        0 <= idx <= m.len(),
        forall|i: int| 0 <= i < idx ==> lex_lt((#[trigger] m[i]).0, k),
        idx < m.len() ==> !lex_lt(m[idx].0, k),
    ensures
        amap_put(m, k, v) == (if idx < m.len() && m[idx].0 == k {
            m.take(idx) + seq![(k, v)] + m.skip(idx + 1)
        } else {
            m.take(idx) + seq![(k, v)] + m.skip(idx)
        }),
    decreases idx,
{
    if idx == 0 {
        if m.len() == 0 {
            assert(amap_put(m, k, v) =~= m.take(0) + seq![(k, v)] + m.skip(0));
        } else if m[0].0 == k {
            assert(seq![(k, v)] + m.drop_first() =~= m.take(0) + seq![(k, v)] + m.skip(1));
        } else {
            assert(seq![(k, v)] + m =~= m.take(0) + seq![(k, v)] + m.skip(0));
        }
    } else {
        let d = m.drop_first();
        assert forall|i: int, j: int| 0 <= i < j < d.len() implies lex_lt(
            (#[trigger] d[i]).0,
            (#[trigger] d[j]).0,
        ) by {
            assert(d[i] == m[i + 1] && d[j] == m[j + 1]);
        }
        assert forall|i: int| 0 <= i < idx - 1 implies lex_lt((#[trigger] d[i]).0, k) by {
            assert(d[i] == m[i + 1]);
        }
        if idx - 1 < d.len() {
            assert(d[idx - 1] == m[idx]);
        }
        lemma_amap_put_at(d, k, v, idx - 1);
        if idx < m.len() && m[idx].0 == k {
            assert(seq![m[0]] + (d.take(idx - 1) + seq![(k, v)] + d.skip(idx)) =~= m.take(idx)
                + seq![(k, v)] + m.skip(idx + 1));
        } else {
            assert(seq![m[0]] + (d.take(idx - 1) + seq![(k, v)] + d.skip(idx - 1)) =~= m.take(idx)
                + seq![(k, v)] + m.skip(idx));
        }
    }
}

/// `amap_put` keeps the keys sorted and changes only the binding of `k`.
pub proof fn lemma_amap_put_props<V>(m: Seq<(Seq<char>, V)>, k: Seq<char>, v: V)
    requires
        amap_sorted(m),
    ensures
        amap_sorted(amap_put(m, k, v)),
        forall|k2: Seq<char>|
            amap_get(amap_put(m, k, v), k2) == (if k2 == k {
                Some(v)
            } else {
                amap_get(m, k2)
            }),
        forall|i: int|
            0 <= i < amap_put(m, k, v).len() ==> ((#[trigger] amap_put(m, k, v)[i]).0 == k
                || exists|j: int| 0 <= j < m.len() && m[j].0 == amap_put(m, k, v)[i].0),
    decreases m.len(),
{
    reveal_with_fuel(amap_get, 4);
    let put = amap_put(m, k, v);
    lemma_lex_irrefl(k);
    if m.len() == 0 {
        assert(put =~= seq![(k, v)]);
        assert forall|k2: Seq<char>|
            amap_get(put, k2) == (if k2 == k {
                Some(v)
            } else {
                amap_get(m, k2)
            }) by {
            assert(put[0] == (k, v));
            if k2 != k {
                assert(put.drop_first() =~= Seq::<(Seq<char>, V)>::empty());
            }
        }
    } else if lex_lt(m[0].0, k) {
        let d = m.drop_first();
        assert forall|i: int, j: int| 0 <= i < j < d.len() implies lex_lt(
            (#[trigger] d[i]).0,
            (#[trigger] d[j]).0,
        ) by {
            assert(d[i] == m[i + 1] && d[j] == m[j + 1]);
        }
        lemma_amap_put_props(d, k, v);
        let pd = amap_put(d, k, v);
        assert(put == seq![m[0]] + pd);
        // the head key is below every key of the tail
        assert forall|i: int| 0 <= i < pd.len() implies lex_lt(m[0].0, (#[trigger] pd[i]).0) by {
            if pd[i].0 == k {
            } else {
                let j = choose|j: int| 0 <= j < d.len() && d[j].0 == pd[i].0;
                assert(d[j] == m[j + 1]);
            }
        }
        assert forall|i: int, j: int| 0 <= i < j < put.len() implies lex_lt(
            (#[trigger] put[i]).0,
            (#[trigger] put[j]).0,
        ) by {
            if i == 0 {
                assert(put[j] == pd[j - 1]);
            } else {
                assert(put[i] == pd[i - 1] && put[j] == pd[j - 1]);
            }
        }
        assert forall|k2: Seq<char>|
            amap_get(put, k2) == (if k2 == k {
                Some(v)
            } else {
                amap_get(m, k2)
            }) by {
            assert(put[0] == m[0]);
            lemma_lex_trichotomy(m[0].0, k);
            if m[0].0 == k2 {
                assert(amap_get(put, k2) == Some(m[0].1));
                assert(amap_get(m, k2) == Some(m[0].1));
            } else {
                assert(put.drop_first() =~= pd);
                assert(amap_get(put, k2) == amap_get(pd, k2));
                if k2 == k {
                    assert(amap_get(pd, k2) == Some(v));
                } else {
                    assert(amap_get(pd, k2) == amap_get(d, k2));
                    assert(amap_get(m, k2) == amap_get(d, k2));
                }
            }
        }
        assert forall|i: int| 0 <= i < put.len() implies ((#[trigger] put[i]).0 == k || exists|
            j: int,
        | 0 <= j < m.len() && m[j].0 == put[i].0) by {
            if i == 0 {
                assert(m[0].0 == put[0].0);
            } else {
                assert(put[i] == pd[i - 1]);
                if pd[i - 1].0 != k {
                    let j = choose|j: int| 0 <= j < d.len() && d[j].0 == pd[i - 1].0;
                    assert(m[j + 1].0 == put[i].0);
                }
            }
        }
    } else if m[0].0 == k {
        let d = m.drop_first();
        assert(put == seq![(k, v)] + d);
        assert forall|i: int, j: int| 0 <= i < j < put.len() implies lex_lt(
            (#[trigger] put[i]).0,
            (#[trigger] put[j]).0,
        ) by {
            if i == 0 {
                assert(put[j] == m[j]);
                assert(lex_lt(m[0].0, m[j].0));
            } else {
                assert(put[i] == m[i] && put[j] == m[j]);
            }
        }
        assert forall|k2: Seq<char>|
            amap_get(put, k2) == (if k2 == k {
                Some(v)
            } else {
                amap_get(m, k2)
            }) by {
            assert(put[0] == (k, v));
            if k2 != k {
                assert(put.drop_first() =~= d);
            }
        }
        assert forall|i: int| 0 <= i < put.len() implies ((#[trigger] put[i]).0 == k || exists|
            j: int,
        | 0 <= j < m.len() && m[j].0 == put[i].0) by {
            if i > 0 {
                assert(m[i].0 == put[i].0);
            }
        }
    } else {
        lemma_lex_trichotomy(m[0].0, k);
        assert(lex_lt(k, m[0].0));
        assert(put == seq![(k, v)] + m);
        assert forall|i: int, j: int| 0 <= i < j < put.len() implies lex_lt(
            (#[trigger] put[i]).0,
            (#[trigger] put[j]).0,
        ) by {
            if i == 0 {
                assert(put[j] == m[j - 1]);
                if j - 1 > 0 {
                    lemma_lex_trans(k, m[0].0, m[j - 1].0);
                }
            } else {
                assert(put[i] == m[i - 1] && put[j] == m[j - 1]);
            }
        }
        assert forall|k2: Seq<char>|
            amap_get(put, k2) == (if k2 == k {
                Some(v)
            } else {
                amap_get(m, k2)
            }) by {
            assert(put[0] == (k, v));
            if k2 != k {
                assert(put.drop_first() =~= m);
            }
        }
        assert forall|i: int| 0 <= i < put.len() implies ((#[trigger] put[i]).0 == k || exists|
            j: int,
        | 0 <= j < m.len() && m[j].0 == put[i].0) by {
            if i > 0 {
                assert(m[i - 1].0 == put[i].0);
            }
        }
    }
}

/// Two sorted mappings that bind every key alike are the same sequence.
pub proof fn lemma_amap_ext<V>(a: Seq<(Seq<char>, V)>, b: Seq<(Seq<char>, V)>)
    requires
        amap_sorted(a),
        amap_sorted(b),
        forall|k: Seq<char>| #[trigger] amap_get(a, k) == amap_get(b, k),
    ensures
        a == b,
    decreases a.len(),
{
    if a.len() == 0 && b.len() == 0 {
        assert(a =~= b);
    } else if a.len() == 0 {
        assert(amap_get(b, b[0].0) == Some(b[0].1));
        assert(amap_get(a, b[0].0) == None::<V>);
    } else if b.len() == 0 {
        assert(amap_get(a, a[0].0) == Some(a[0].1));
        assert(amap_get(b, a[0].0) == None::<V>);
    } else {
        lemma_lex_trichotomy(a[0].0, b[0].0);
        if lex_lt(a[0].0, b[0].0) {
            assert forall|i: int| 0 <= i < b.len() implies (#[trigger] b[i]).0 != a[0].0 by {
                if i > 0 {
                    lemma_lex_trans(a[0].0, b[0].0, b[i].0);
                }
                lemma_lex_trichotomy(a[0].0, b[i].0);
            }
            lemma_amap_absent(b, a[0].0);
            assert(amap_get(a, a[0].0) == Some(a[0].1));
            assert(false);
        }
        if lex_lt(b[0].0, a[0].0) {
            assert forall|i: int| 0 <= i < a.len() implies (#[trigger] a[i]).0 != b[0].0 by {
                if i > 0 {
                    lemma_lex_trans(b[0].0, a[0].0, a[i].0);
                }
                lemma_lex_trichotomy(b[0].0, a[i].0);
            }
            lemma_amap_absent(a, b[0].0);
            assert(amap_get(b, b[0].0) == Some(b[0].1));
            assert(false);
        }
        assert(a[0].0 == b[0].0);
        assert(amap_get(a, a[0].0) == Some(a[0].1));
        assert(amap_get(b, b[0].0) == Some(b[0].1));
        assert(a[0].1 == b[0].1);
        let da = a.drop_first();
        let db = b.drop_first();
        assert forall|i: int, j: int| 0 <= i < j < da.len() implies lex_lt(
            (#[trigger] da[i]).0,
            (#[trigger] da[j]).0,
        ) by {
            assert(da[i] == a[i + 1] && da[j] == a[j + 1]);
        }
        assert forall|i: int, j: int| 0 <= i < j < db.len() implies lex_lt(
            (#[trigger] db[i]).0,
            (#[trigger] db[j]).0,
        ) by {
            assert(db[i] == b[i + 1] && db[j] == b[j + 1]);
        }
        assert forall|k: Seq<char>| #[trigger] amap_get(da, k) == amap_get(db, k) by {
            if k == a[0].0 {
                assert forall|i: int| 0 <= i < da.len() implies (#[trigger] da[i]).0 != k by {
                    assert(da[i] == a[i + 1]);
                    assert(lex_lt(a[0].0, a[i + 1].0));
                    lemma_lex_trichotomy(a[0].0, a[i + 1].0);
                }
                assert forall|i: int| 0 <= i < db.len() implies (#[trigger] db[i]).0 != k by {
                    assert(db[i] == b[i + 1]);
                    assert(lex_lt(b[0].0, b[i + 1].0));
                    lemma_lex_trichotomy(b[0].0, b[i + 1].0);
                }
                lemma_amap_absent(da, k);
                lemma_amap_absent(db, k);
            } else {
                assert(amap_get(a, k) == amap_get(da, k));
                assert(amap_get(b, k) == amap_get(db, k));
            }
        }
        lemma_amap_ext(da, db);
        assert forall|i: int| 0 <= i < a.len() implies a[i] == b[i] by {
            if i > 0 {
                assert(da[i - 1] == a[i] && db[i - 1] == b[i]);
            }
        }
        assert(a =~= b);
    }
}

/// Writing two attributes with different names yields the same mapping in
/// either order: the parser's result does not depend on attribute order.
pub proof fn lemma_amap_put_commutes<V>(
    m: Seq<(Seq<char>, V)>,
    k1: Seq<char>,
    v1: V,
    k2: Seq<char>,
    v2: V,
)
    requires
        amap_sorted(m),
        k1 != k2,
    ensures
        amap_put(amap_put(m, k1, v1), k2, v2) == amap_put(amap_put(m, k2, v2), k1, v1),
{
    lemma_amap_put_props(m, k1, v1);
    lemma_amap_put_props(amap_put(m, k1, v1), k2, v2);
    lemma_amap_put_props(m, k2, v2);
    lemma_amap_put_props(amap_put(m, k2, v2), k1, v1);
    assert forall|k: Seq<char>|
        #[trigger] amap_get(amap_put(amap_put(m, k1, v1), k2, v2), k) == amap_get(
            amap_put(amap_put(m, k2, v2), k1, v1),
            k,
        ) by {}
    lemma_amap_ext(amap_put(amap_put(m, k1, v1), k2, v2), amap_put(amap_put(m, k2, v2), k1, v1));
}

// ------------------------------------------------------------------
// The executable attribute mapping.
// ------------------------------------------------------------------
/// A mapping from attribute names to values with unique keys, kept in
/// ascending lexicographic key order.
#[derive(Debug, Clone, PartialEq)]
pub struct AttributeMap {
    pub entries: Vec<(String, String)>,
}

impl View for AttributeMap {
    type V = AttrsV;

    open spec fn view(&self) -> AttrsV {
        self.entries@.map_values(|p: (String, String)| (p.0@, p.1@))
    }
}

impl AttributeMap {
    /// The keys stand in strictly ascending order.
    pub open spec fn wf(&self) -> bool {
        amap_sorted(self@)
    }

    pub open spec fn spec_get(&self, k: Seq<char>) -> Option<Seq<char>> {
        amap_get(self@, k)
    }

    pub fn new() -> (r: AttributeMap)
        ensures
            r@ == Seq::<(Seq<char>, Seq<char>)>::empty(),
            r.wf(),
    {
        let r = AttributeMap { entries: Vec::new() };
        proof {
            assert(r@ =~= Seq::<(Seq<char>, Seq<char>)>::empty());
        }
        r
    }

    /// The number of attributes.
    pub fn len(&self) -> (n: usize)
        ensures
            n == self@.len(),
    {
        self.entries.len()
    }

    /// Bind `name` to `value`, replacing any earlier binding of `name`.
    pub fn insert(&mut self, name: String, value: String)
        requires
            old(self).wf(),
        ensures
            final(self).wf(),
            final(self)@ == amap_put(old(self)@, name@, value@),
            forall|k: Seq<char>|
                final(self).spec_get(k) == (if k == name@ {
                    Some(value@)
                } else {
                    old(self).spec_get(k)
                }),
    {
        let ghost m0: AttrsV = self@;
        let mut idx: usize = 0;
        while idx < self.entries.len() && str_lex_lt(self.entries[idx].0.as_str(), name.as_str())
            invariant
                *self == *old(self),
                0 <= idx <= self.entries@.len(),
                forall|i: int| 0 <= i < idx ==> lex_lt((#[trigger] self@[i]).0, name@),
            decreases self.entries@.len() - idx,
        {
            idx += 1;
        }
        let replace: bool = idx < self.entries.len() && str_eq(
            self.entries[idx].0.as_str(),
            name.as_str(),
        );
        let ghost pre: AttrsV = m0.take(idx as int);
        let ghost suf: AttrsV = if replace {
            m0.skip(idx as int + 1)
        } else {
            m0.skip(idx as int)
        };
        if replace {
            self.entries.remove(idx);
        }
        self.entries.insert(idx, (name, value));
        proof {
            let m1 = self@;
            let name_s = name@;
            let value_s = value@;
            assert(m1 =~= pre + (seq![(name_s, value_s)] + suf));
            lemma_amap_put_at(m0, name_s, value_s, idx as int);
            if replace {
                assert(m1 =~= m0.take(idx as int) + seq![(name_s, value_s)] + m0.skip(
                    idx as int + 1,
                ));
            } else {
                assert(m1 =~= m0.take(idx as int) + seq![(name_s, value_s)] + m0.skip(idx as int));
            }
            // every key in `pre` is below `name`, every key in `suf` above
            assert forall|i: int| 0 <= i < pre.len() implies lex_lt(
                (#[trigger] pre[i]).0,
                name_s,
            ) by {
                assert(pre[i] == m0[i]);
            }
            assert forall|i: int| 0 <= i < suf.len() implies lex_lt(
                name_s,
                (#[trigger] suf[i]).0,
            ) by {
                if replace {
                    assert(suf[i] == m0[idx + 1 + i]);
                    assert(lex_lt(m0[idx as int].0, m0[idx + 1 + i].0));
                    assert(m0[idx as int].0 == name_s);
                } else {
                    assert(suf[i] == m0[idx + i]);
                    if idx + i > idx {
                        lemma_lex_trichotomy(m0[idx as int].0, name_s);
                        assert(lex_lt(name_s, m0[idx as int].0));
                        assert(lex_lt(m0[idx as int].0, m0[idx + i].0));
                        lemma_lex_trans(name_s, m0[idx as int].0, m0[idx + i].0);
                    } else {
                        lemma_lex_trichotomy(m0[idx as int].0, name_s);
                    }
                }
            }
            // sortedness of the new sequence
            assert forall|i: int, j: int| 0 <= i < j < m1.len() implies lex_lt(
                (#[trigger] m1[i]).0,
                (#[trigger] m1[j]).0,
            ) by {
                let key = |q: int|
                    if q < pre.len() {
                        pre[q].0
                    } else if q == pre.len() {
                        name_s
                    } else {
                        suf[q - pre.len() - 1].0
                    };
                assert(m1[i].0 == key(i));
                assert(m1[j].0 == key(j));
                if i < pre.len() && j < pre.len() {
                    assert(pre[i] == m0[i] && pre[j] == m0[j]);
                } else if i < pre.len() && j == pre.len() {
                } else if i == pre.len() && j > pre.len() {
                } else if i < pre.len() && j > pre.len() {
                    lemma_lex_trans(pre[i].0, name_s, suf[j - pre.len() - 1].0);
                } else {
                    let bi = i - pre.len() - 1;
                    let bj = j - pre.len() - 1;
                    if replace {
                        assert(suf[bi] == m0[idx + 1 + bi] && suf[bj] == m0[idx + 1 + bj]);
                    } else {
                        assert(suf[bi] == m0[idx + bi] && suf[bj] == m0[idx + bj]);
                    }
                }
            }
            // the get-relation for every key
            assert forall|k: Seq<char>|
                amap_get(m1, k) == (if k == name_s {
                    Some(value_s)
                } else {
                    amap_get(m0, k)
                }) by {
                lemma_amap_concat(pre, seq![(name_s, value_s)] + suf, k);
                assert((seq![(name_s, value_s)] + suf)[0] == (name_s, value_s));
                if k == name_s {
                    assert forall|i: int| 0 <= i < pre.len() implies (#[trigger] pre[i]).0
                        != k by {
                        lemma_lex_trichotomy(pre[i].0, k);
                    }
                    lemma_amap_absent(pre, k);
                    assert(amap_get(seq![(name_s, value_s)] + suf, k) == Some(value_s));
                } else {
                    assert((seq![(name_s, value_s)] + suf).drop_first() =~= suf);
                    assert(amap_get(seq![(name_s, value_s)] + suf, k) == amap_get(suf, k));
                    if replace {
                        assert(m0 =~= pre + (seq![m0[idx as int]] + suf));
                        lemma_amap_concat(pre, seq![m0[idx as int]] + suf, k);
                        assert((seq![m0[idx as int]] + suf)[0] == m0[idx as int]);
                        assert((seq![m0[idx as int]] + suf).drop_first() =~= suf);
                        assert(m0[idx as int].0 == name_s);
                        assert(amap_get(seq![m0[idx as int]] + suf, k) == amap_get(suf, k));
                    } else {
                        assert(m0 =~= pre + suf);
                        lemma_amap_concat(pre, suf, k);
                    }
                }
            }
        }
    }

    /// Look a name up.
    pub fn get(&self, name: &str) -> (r: Option<&String>)
        ensures
            match r {
                Some(v) => self.spec_get(name@) == Some(v@),
                None => self.spec_get(name@) == None::<Seq<char>>,
            },
    {
        let mut i: usize = 0;
        while i < self.entries.len()
            invariant
                0 <= i <= self.entries@.len(),
                forall|q: int| 0 <= q < i ==> (#[trigger] self@[q]).0 != name@,
            decreases self.entries@.len() - i,
        {
            if str_eq(self.entries[i].0.as_str(), name) {
                proof {
                    lemma_amap_first_match(self@, name@, i as int);
                }
                return Some(&self.entries[i].1);
            }
            i += 1;
        }
        proof {
            lemma_amap_absent(self@, name@);
        }
        None
    }

    /// Is a name bound?
    pub fn contains_key(&self, name: &str) -> (r: bool)
        ensures
            r == (self.spec_get(name@) is Some),
    {
        match self.get(name) {
            Some(_) => true,
            None => false,
        }
    }
}

// ------------------------------------------------------------------
// Splitting a class attribute on single spaces.
// ------------------------------------------------------------------
pub open spec fn pred_not_sp() -> spec_fn(char) -> bool {
    |c: char| c != ' '
}

/// The pieces of `s` between single spaces, empty pieces kept.
pub open spec fn split_sp(s: Seq<char>) -> Seq<Seq<char>>
    decreases s.len(),
{
    let j = scan_end(s, 0, pred_not_sp());
    if 0 <= j < s.len() {
        seq![s.take(j)] + split_sp(s.skip(j + 1))
    } else {
        seq![s]
    }
}

/// The views of a sequence of owned strings.
pub open spec fn strs_view(v: Seq<String>) -> Seq<Seq<char>> {
    v.map_values(|x: String| x@)
}

/// Split `s` on single spaces, keeping empty pieces, as `split_sp` says.
pub fn split_spaces(s: &str) -> (r: Vec<String>)
    ensures
        strs_view(r@) == split_sp(s@),
{
    let len: usize = s.unicode_len();
    let mut out: Vec<String> = Vec::new();
    let mut start: usize = 0;
    let mut i: usize = 0;
    proof {
        assert(s@.skip(0) =~= s@);
        assert(strs_view(out@) + split_sp(s@.skip(0)) =~= split_sp(s@));
    }
    while i < len
        invariant
            0 <= start <= i <= len,
            len == s@.len(),
            strs_view(out@) + split_sp(s@.skip(start as int)) == split_sp(s@),
            forall|q: int| start <= q < i ==> s@[q] != ' ',
        decreases len - i,
    {
        if s.get_char(i) == ' ' {
            let piece: String = s.substring_char(start, i).to_owned();
            proof {
                let tail = s@.skip(start as int);
                assert forall|q: int| 0 <= q < i - start implies pred_not_sp()(tail[q]) by {
                    assert(tail[q] == s@[start + q]);
                }
                assert(tail[i - start as int] == s@[i as int]);
                assert(!pred_not_sp()(tail[i - start as int]));
                lemma_scan_end_eq(tail, 0, i - start as int, pred_not_sp());
                assert(tail.take(i - start as int) =~= s@.subrange(start as int, i as int));
                assert(tail.skip(i - start as int + 1) =~= s@.skip(i as int + 1));
                assert(split_sp(tail) == seq![s@.subrange(start as int, i as int)] + split_sp(
                    s@.skip(i as int + 1),
                ));
                assert(strs_view(out@.push(piece)) =~= strs_view(out@) + seq![piece@]);
                assert(strs_view(out@.push(piece)) + split_sp(s@.skip(i as int + 1)) =~= strs_view(
                    out@,
                ) + split_sp(tail));
            }
            out.push(piece);
            start = i + 1;
        }
        i += 1;
    }
    let piece: String = s.substring_char(start, len).to_owned();
    proof {
        let tail = s@.skip(start as int);
        assert forall|q: int| 0 <= q < len - start implies pred_not_sp()(tail[q]) by {
            assert(tail[q] == s@[start + q]);
        }
        lemma_scan_end_eq(tail, 0, len - start as int, pred_not_sp());
        assert(split_sp(tail) == seq![tail]);
        assert(tail =~= s@.subrange(start as int, len as int));
        assert(strs_view(out@.push(piece)) =~= strs_view(out@) + seq![piece@]);
        assert(strs_view(out@.push(piece)) =~= strs_view(out@) + split_sp(tail));
    }
    out.push(piece);
    out
}

/// The distinct pieces of `v[i..]`, appended to `acc` in first-occurrence
/// order.
pub open spec fn dedup_acc(v: Seq<Seq<char>>, i: int, acc: Seq<Seq<char>>) -> Seq<Seq<char>>
    decreases v.len() - i,
{
    if i < 0 || i >= v.len() {
        acc
    } else if acc.contains(v[i]) {
        dedup_acc(v, i + 1, acc)
    } else {
        dedup_acc(v, i + 1, acc.push(v[i]))
    }
}

/// The distinct pieces of `v`, each kept at its first occurrence.
pub open spec fn dedup(v: Seq<Seq<char>>) -> Seq<Seq<char>> {
    dedup_acc(v, 0, Seq::empty())
}

pub proof fn lemma_dedup_acc_contains(v: Seq<Seq<char>>, i: int, acc: Seq<Seq<char>>)
    requires
        0 <= i <= v.len(),
    ensures
        forall|x: Seq<char>|
            #[trigger] dedup_acc(v, i, acc).contains(x) <==> (acc.contains(x) || exists|j: int|
                i <= j < v.len() && v[j] == x),
    decreases v.len() - i,
{
    if i < v.len() {
        let acc2 = if acc.contains(v[i]) {
            acc
        } else {
            acc.push(v[i])
        };
        lemma_dedup_acc_contains(v, i + 1, acc2);
        assert forall|x: Seq<char>|
            #[trigger] dedup_acc(v, i, acc).contains(x) <==> (acc.contains(x) || exists|j: int|
                i <= j < v.len() && v[j] == x) by {
            assert(dedup_acc(v, i, acc) == dedup_acc(v, i + 1, acc2));
            assert(dedup_acc(v, i + 1, acc2).contains(x) <==> (acc2.contains(x) || exists|j: int|
                i + 1 <= j < v.len() && v[j] == x));
            assert(acc2.contains(x) <==> (acc.contains(x) || x == v[i])) by {
                if acc.contains(x) {
                    let w = choose|w: int| 0 <= w < acc.len() && acc[w] == x;
                    assert(acc2[w] == x);
                }
                if x == v[i] && !acc.contains(v[i]) {
                    assert(acc2[acc.len() as int] == x);
                }
                if acc2.contains(x) && acc2 != acc {
                    let w = choose|w: int| 0 <= w < acc2.len() && acc2[w] == x;
                    if w < acc.len() {
                        assert(acc[w] == x);
                    }
                }
            }
            if x == v[i] {
                assert(i <= i < v.len() && v[i] == x);
            }
            if exists|j: int| i <= j < v.len() && v[j] == x {
                let j = choose|j: int| i <= j < v.len() && v[j] == x;
                if j != i {
                    assert(i + 1 <= j < v.len() && v[j] == x);
                }
            }
        }
    }
}

/// Keeping first occurrences changes no membership.
pub proof fn lemma_dedup_contains(v: Seq<Seq<char>>)
    ensures
        forall|x: Seq<char>| #[trigger] dedup(v).contains(x) <==> v.contains(x),
{
    lemma_dedup_acc_contains(v, 0, Seq::empty());
    assert forall|x: Seq<char>| #[trigger] dedup(v).contains(x) <==> v.contains(x) by {
        assert(!Seq::<Seq<char>>::empty().contains(x));
        if exists|j: int| 0 <= j < v.len() && v[j] == x {
            let j = choose|j: int| 0 <= j < v.len() && v[j] == x;
            assert(v.contains(x));
        }
        if v.contains(x) {
            let j = choose|j: int| 0 <= j < v.len() && v[j] == x;
            assert(0 <= j < v.len() && v[j] == x);
        }
    }
}

/// Keep each string's first occurrence only.
fn dedup_strings(v: Vec<String>) -> (r: Vec<String>)
    ensures
        strs_view(r@) == dedup(strs_view(v@)),
{
    let ghost sv = strs_view(v@);
    let mut out: Vec<String> = Vec::new();
    proof {
        assert(strs_view(out@) =~= Seq::<Seq<char>>::empty());
    }
    let mut i: usize = 0;
    while i < v.len()
        invariant
            0 <= i <= v@.len(),
            sv == strs_view(v@),
            sv.len() == v@.len(),
            dedup(sv) == dedup_acc(sv, i as int, strs_view(out@)),
        decreases v@.len() - i,
    {
        let mut found: bool = false;
        let mut j: usize = 0;
        while j < out.len()
            invariant
                0 <= j <= out@.len(),
                i < v@.len(),
                sv == strs_view(v@),
                found ==> strs_view(out@).contains(sv[i as int]),
                !found ==> forall|q: int| 0 <= q < j ==> strs_view(out@)[q] != sv[i as int],
            decreases out@.len() - j,
        {
            if str_eq(out[j].as_str(), v[i].as_str()) {
                proof {
                    assert(strs_view(out@)[j as int] == sv[i as int]);
                }
                found = true;
            }
            j += 1;
        }
        proof {
            if !found {
                assert(!strs_view(out@).contains(sv[i as int]));
            }
            assert(found == strs_view(out@).contains(sv[i as int]));
        }
        if !found {
            let piece: String = v[i].clone();
            proof {
                assert(strs_view(out@.push(piece)) =~= strs_view(out@).push(sv[i as int]));
            }
            out.push(piece);
        }
        i += 1;
    }
    out
}

// ------------------------------------------------------------------
// The tree itself.
// ------------------------------------------------------------------
/// Model of an element: its tag and its attribute mapping.
pub struct ElementV {
    pub tag_name: Seq<char>,
    pub atributes: AttrsV,
}

/// Model of a node's payload.
pub enum NodeTypeV {
    Text(Seq<char>),
    Element(ElementV),
}

/// Model of a node: payload plus ordered children.
pub struct NodeV {
    pub children: Seq<NodeV>,
    pub node_type: NodeTypeV,
}

/// An element: a tag name and its attributes.
#[derive(Debug, PartialEq)]
pub struct Element {
    pub tag_name: String,
    pub atributes: AttributeMap,
}

impl View for Element {
    type V = ElementV;

    open spec fn view(&self) -> ElementV {
        ElementV { tag_name: self.tag_name@, atributes: self.atributes@ }
    }
}

/// A node's payload: raw text or an element.
#[derive(Debug, PartialEq)]
pub enum NodeType {
    Text(String),
    Element(Element),
}

impl View for NodeType {
    type V = NodeTypeV;

    open spec fn view(&self) -> NodeTypeV {
        match self {
            NodeType::Text(t) => NodeTypeV::Text(t@),
            NodeType::Element(e) => NodeTypeV::Element(e@),
        }
    }
}

/// A tree node: ordered children and a payload.
#[derive(Debug, PartialEq)]
pub struct Node {
    pub children: Vec<Node>,
    pub node_type: NodeType,
}

impl View for Node {
    type V = NodeV;

    open spec fn view(&self) -> NodeV {
        node_view(*self)
    }
}

/// The model of a node, children modelled recursively.
pub open spec fn node_view(n: Node) -> NodeV
    decreases n,
{
    NodeV { children: nodes_view(n.children@), node_type: n.node_type@ }
}

/// The models of a sequence of nodes.
pub open spec fn nodes_view(v: Seq<Node>) -> Seq<NodeV>
    decreases v,
{
    if v.len() == 0 {
        Seq::empty()
    } else {
        seq![node_view(v[0])] + nodes_view(v.drop_first())
    }
}

/// `nodes_view` is the element-wise model.
pub proof fn lemma_nodes_view(v: Seq<Node>)
    ensures
        nodes_view(v).len() == v.len(),
        forall|i: int| 0 <= i < v.len() ==> #[trigger] nodes_view(v)[i] == node_view(v[i]),
    decreases v.len(),
{
    if v.len() > 0 {
        lemma_nodes_view(v.drop_first());
        assert forall|i: int| 0 <= i < v.len() implies #[trigger] nodes_view(v)[i] == node_view(
            v[i],
        ) by {
            if i > 0 {
                assert(v.drop_first()[i - 1] == v[i]);
                assert(nodes_view(v)[i] == nodes_view(v.drop_first())[i - 1]);
            }
        }
    }
}

/// Make a text node with no children.
pub fn create_text(text: String) -> (r: Node)
    ensures
        r@ == (NodeV { children: Seq::empty(), node_type: NodeTypeV::Text(text@) }),
{
    let r = Node { children: Vec::new(), node_type: NodeType::Text(text) };
    proof {
        assert(r@.children =~= Seq::<NodeV>::empty());
    }
    r
}

/// Make an element node.
pub fn create_element(tag_name: String, atributes: AttributeMap, children: Vec<Node>) -> (r: Node)
    ensures
        r@.node_type == NodeTypeV::Element(
            ElementV { tag_name: tag_name@, atributes: atributes@ },
        ),
        r@.children == nodes_view(children@),
{
    Node { children, node_type: NodeType::Element(Element { tag_name, atributes }) }
}

/// A deep copy of a node.
pub fn copy_node(n: &Node) -> (r: Node)
    ensures
        r@ == n@,
    decreases *n,
{
    let mut kids: Vec<Node> = Vec::new();
    let mut i: usize = 0;
    while i < n.children.len()
        invariant
            0 <= i <= n.children@.len(),
            kids@.len() == i,
            forall|q: int| 0 <= q < i ==> (#[trigger] kids@[q])@ == n.children@[q]@,
        decreases n.children@.len() - i,
    {
        let k: Node = copy_node(&n.children[i]);
        kids.push(k);
        i += 1;
    }
    let nt: NodeType = match &n.node_type {
        NodeType::Text(t) => NodeType::Text(t.clone()),
        NodeType::Element(e) => NodeType::Element(
            Element { tag_name: e.tag_name.clone(), atributes: copy_attrs(&e.atributes) },
        ),
    };
    proof {
        lemma_nodes_view(kids@);
        lemma_nodes_view(n.children@);
        assert(nodes_view(kids@) =~= nodes_view(n.children@));
    }
    let ghost kv = kids@;
    let r = Node { children: kids, node_type: nt };
    proof {
        assert(r.children@ == kv);
    }
    r
}

/// A copy of an attribute mapping.
pub fn copy_attrs(m: &AttributeMap) -> (r: AttributeMap)
    ensures
        r@ == m@,
{
    let mut entries: Vec<(String, String)> = Vec::new();
    let mut i: usize = 0;
    while i < m.entries.len()
        invariant
            0 <= i <= m.entries@.len(),
            entries@.len() == i,
            forall|q: int| 0 <= q < i ==> entries@[q] == m.entries@[q],
        decreases m.entries@.len() - i,
    {
        let name: String = m.entries[i].0.clone();
        let value: String = m.entries[i].1.clone();
        entries.push((name, value));
        i += 1;
    }
    let r = AttributeMap { entries };
    proof {
        assert(r.entries@ =~= m.entries@);
    }
    r
}

impl Element {
    /// The value of the `id` attribute, if there is one.
    pub fn id(&self) -> (r: Option<String>)
        ensures
            match r {
                Some(v) => amap_get(self@.atributes, "id"@) == Some(v@),
                None => amap_get(self@.atributes, "id"@) == None::<Seq<char>>,
            },
    {
        match self.atributes.get("id") {
            Some(v) => Some(v.clone()),
            None => None,
        }
    }

    /// The class names this element carries.
    pub open spec fn spec_classes(ev: ElementV) -> Seq<Seq<char>> {
        match amap_get(ev.atributes, "class"@) {
            Some(v) => split_sp(v),
            None => Seq::empty(),
        }
    }

    /// The `class` attribute split on spaces, as a set of names: each
    /// distinct name once, at its first occurrence; empty when absent.
    pub fn classes(&self) -> (r: Vec<String>)
        ensures
            strs_view(r@) == dedup(Element::spec_classes(self@)),
    {
        match self.atributes.get("class") {
            Some(v) => dedup_strings(split_spaces(v.as_str())),
            None => {
                let r: Vec<String> = Vec::new();
                proof {
                    assert(strs_view(r@) =~= Seq::<Seq<char>>::empty());
                    assert(dedup(Element::spec_classes(self@))
                        == Seq::<Seq<char>>::empty());
                }
                r
            },
        }
    }

    /// Does this element carry the class `class_name`?
    pub fn has_class(&self, class_name: &str) -> (r: bool)
        ensures
            r == Element::spec_classes(self@).contains(class_name@),
    {
        proof {
            lemma_dedup_contains(Element::spec_classes(self@));
        }
        let cs: Vec<String> = self.classes();
        let mut i: usize = 0;
        while i < cs.len()
            invariant
                0 <= i <= cs@.len(),
                strs_view(cs@) == dedup(Element::spec_classes(self@)),
                forall|x: Seq<char>|
                    #[trigger] dedup(Element::spec_classes(self@)).contains(x)
                        <==> Element::spec_classes(self@).contains(x),
                forall|q: int| 0 <= q < i ==> strs_view(cs@)[q] != class_name@,
            decreases cs@.len() - i,
        {
            if str_eq(cs[i].as_str(), class_name) {
                assert(strs_view(cs@)[i as int] == class_name@);
                assert(strs_view(cs@).contains(class_name@));
                return true;
            }
            i += 1;
        }
        assert(forall|q: int| 0 <= q < strs_view(cs@).len() ==> strs_view(cs@)[q] != class_name@);
        assert(!strs_view(cs@).contains(class_name@));
        false
    }
}

impl Node {
    /// The element's tag, or empty text for a text node.
    pub fn tag_name(&self) -> (r: String)
        ensures
            r@ == (match self@.node_type {
                NodeTypeV::Text(_) => Seq::<char>::empty(),
                NodeTypeV::Element(e) => e.tag_name,
            }),
    {
        match &self.node_type {
            NodeType::Text(_) => String::new(),
            NodeType::Element(element) => element.tag_name.clone(),
        }
    }

    /// The text of a text node.
    pub fn text(&self) -> (r: Option<String>)
        ensures
            match self@.node_type {
                NodeTypeV::Text(t) => r is Some && r.unwrap()@ == t,
                NodeTypeV::Element(_) => r is None,
            },
    {
        match &self.node_type {
            NodeType::Text(text) => Some(text.clone()),
            NodeType::Element(_) => None,
        }
    }

    /// A copy of the ordered children.
    pub fn get_children(&self) -> (r: Vec<Node>)
        ensures
            nodes_view(r@) == self@.children,
    {
        let mut out: Vec<Node> = Vec::new();
        let mut i: usize = 0;
        while i < self.children.len()
            invariant
                0 <= i <= self.children@.len(),
                out@.len() == i,
                forall|q: int|
                    0 <= q < i ==> node_view(#[trigger] out@[q]) == node_view(self.children@[q]),
            decreases self.children@.len() - i,
        {
            let k: Node = copy_node(&self.children[i]);
            out.push(k);
            i += 1;
        }
        proof {
            lemma_nodes_view(out@);
            lemma_nodes_view(self.children@);
            assert(nodes_view(out@) =~= nodes_view(self.children@));
        }
        out
    }
}

// ------------------------------------------------------------------
// Document roots.
// ------------------------------------------------------------------
/// Model of a doctype declaration.
pub struct DoctypeV {
    pub name: Seq<char>,
    pub public_id: Option<Seq<char>>,
    pub system_id: Option<Seq<char>>,
}

/// A doctype declaration: a name and optional public/system identifiers.
#[derive(Debug, PartialEq)]
pub struct Doctype {
    pub name: String,
    pub public_id: Option<String>,
    pub system_id: Option<String>,
}

impl View for Doctype {
    type V = DoctypeV;

    open spec fn view(&self) -> DoctypeV {
        DoctypeV {
            name: self.name@,
            public_id: match self.public_id {
                Some(p) => Some(p@),
                None => None,
            },
            system_id: match self.system_id {
                Some(p) => Some(p@),
                None => None,
            },
        }
    }
}

/// Model of a parsed document root.
pub struct HtmlRootV {
    pub doctype: Option<DoctypeV>,
    pub children: Seq<NodeV>,
}

/// A parsed document: an optional doctype and the top-level nodes.
#[derive(Debug, PartialEq)]
pub struct HtmlRoot {
    pub doctype: Option<Doctype>,
    pub children: Vec<Node>,
}

impl View for HtmlRoot {
    type V = HtmlRootV;

    open spec fn view(&self) -> HtmlRootV {
        HtmlRootV {
            doctype: match self.doctype {
                Some(d) => Some(d@),
                None => None,
            },
            children: nodes_view(self.children@),
        }
    }
}

} // verus!
