//! Text-keyed maps and sets kept in ascending key order.
//!
//! A `StrMap` is modelled by the sequence of its `(key, value)` entries,
//! keys as character sequences and values by their deep view; lookups and
//! updates are stated over that model.

use vstd::prelude::*;
use crate::text::{chars_of, chars_eq};

verus! {

/// Lexicographic order on character sequences (the order of `str`).
pub open spec fn seq_lt(a: Seq<char>, b: Seq<char>) -> bool
    decreases a.len(),
{
    if b.len() == 0 {
        false
    } else if a.len() == 0 {
        true
    } else if a[0] != b[0] {
        (a[0] as u32) < (b[0] as u32)
    } else {
        seq_lt(a.drop_first(), b.drop_first())
    }
}

pub fn chars_lt(a: &Vec<char>, b: &Vec<char>) -> (r: bool)
    ensures
        r == seq_lt(a@, b@),
{
    let mut i: usize = 0;
    assert(a@.skip(0) =~= a@);
    assert(b@.skip(0) =~= b@);
    while i < a.len() && i < b.len() && a[i] == b[i]
        invariant
            i <= a@.len(),
            i <= b@.len(),
            seq_lt(a@.skip(i as int), b@.skip(i as int)) == seq_lt(a@, b@),
        decreases a.len() - i,
    {
        assert(a@.skip(i as int).drop_first() =~= a@.skip(i + 1));
        assert(b@.skip(i as int).drop_first() =~= b@.skip(i + 1));
        i += 1;
    }
    assert(i < a@.len() ==> a@.skip(i as int)[0] == a@[i as int]);
    assert(i < b@.len() ==> b@.skip(i as int)[0] == b@[i as int]);
    if i == b.len() {
        false
    } else if i == a.len() {
        true
    } else {
        (a[i] as u32) < (b[i] as u32)
    }
}

pub open spec fn m_get<W>(m: Seq<(Seq<char>, W)>, k: Seq<char>) -> Option<W>
    decreases m.len(),
{
    if m.len() == 0 {
        None
    } else if m[0].0 == k {
        Some(m[0].1)
    } else {
        m_get(m.drop_first(), k)
    }
}

pub open spec fn m_has<W>(m: Seq<(Seq<char>, W)>, k: Seq<char>) -> bool {
    m_get(m, k) is Some
}

/// Insert or overwrite `k`, keeping ascending key order.
pub open spec fn m_insert<W>(m: Seq<(Seq<char>, W)>, k: Seq<char>, v: W) -> Seq<(Seq<char>, W)>
    decreases m.len(),
{
    if m.len() == 0 {
        seq![(k, v)]
    } else if m[0].0 == k {
        seq![(k, v)] + m.drop_first()
    } else if seq_lt(k, m[0].0) {
        seq![(k, v)] + m
    } else {
        seq![m[0]] + m_insert(m.drop_first(), k, v)
    }
}

pub open spec fn m_remove<W>(m: Seq<(Seq<char>, W)>, k: Seq<char>) -> Seq<(Seq<char>, W)>
    decreases m.len(),
{
    if m.len() == 0 {
        m
    } else if m[0].0 == k {
        m.drop_first()
    } else {
        seq![m[0]] + m_remove(m.drop_first(), k)
    }
}

/// `m_insert` of every key in turn, all with the same value.
pub open spec fn m_insert_all<W>(m: Seq<(Seq<char>, W)>, keys: Seq<Seq<char>>, v: W) -> Seq<
    (Seq<char>, W),
>
    decreases keys.len(),
{
    if keys.len() == 0 {
        m
    } else {
        m_insert(m_insert_all(m, keys.drop_last(), v), keys.last(), v)
    }
}

/// `m_insert` of every pair in turn.
pub open spec fn m_insert_all_pairs<W>(m: Seq<(Seq<char>, W)>, ps: Seq<(Seq<char>, W)>) -> Seq<(Seq<char>, W)>
    decreases ps.len(),
{
    if ps.len() == 0 {
        m
    } else {
        m_insert(m_insert_all_pairs(m, ps.drop_last()), ps.last().0, ps.last().1)
    }
}

/// `m_remove` of every key in turn.
pub open spec fn m_remove_all<W>(m: Seq<(Seq<char>, W)>, keys: Seq<Seq<char>>) -> Seq<
    (Seq<char>, W),
>
    decreases keys.len(),
{
    if keys.len() == 0 {
        m
    } else {
        m_remove(m_remove_all(m, keys.drop_last()), keys.last())
    }
}

pub open spec fn m_keys<W>(m: Seq<(Seq<char>, W)>) -> Seq<Seq<char>> {
    m.map_values(|e: (Seq<char>, W)| e.0)
}

/// Keys strictly ascending.
pub open spec fn m_sorted<W>(m: Seq<(Seq<char>, W)>) -> bool {
    forall|i: int, j: int| 0 <= i < j < m.len() ==> seq_lt(#[trigger] m[i].0, #[trigger] m[j].0)
}

/// The position where `k` sits or would be inserted: every earlier key is
/// neither `k` nor after it.
pub open spec fn m_slot<W>(m: Seq<(Seq<char>, W)>, k: Seq<char>, p: int) -> bool {
    &&& 0 <= p <= m.len()
    &&& forall|j: int| 0 <= j < p ==> #[trigger] m[j].0 != k && !seq_lt(k, m[j].0)
    &&& p < m.len() ==> (m[p].0 == k || seq_lt(k, m[p].0))
}

pub proof fn lemma_m_get_slot<W>(m: Seq<(Seq<char>, W)>, k: Seq<char>, p: int)
    requires
        0 <= p <= m.len(),
        forall|j: int| 0 <= j < p ==> #[trigger] m[j].0 != k,
    ensures
        m_get(m, k) == m_get(m.skip(p), k),
    decreases p,
{
    if p > 0 {
        assert(m.drop_first().skip(p - 1) =~= m.skip(p));
        assert forall|j: int| 0 <= j < p - 1 implies #[trigger] m.drop_first()[j].0 != k by {
            assert(m.drop_first()[j] == m[j + 1]);
        }
        lemma_m_get_slot(m.drop_first(), k, p - 1);
    } else {
        assert(m.skip(0) =~= m);
    }
}

pub proof fn lemma_m_insert_slot<W>(m: Seq<(Seq<char>, W)>, k: Seq<char>, v: W, p: int)
    requires
        m_slot(m, k, p),
    ensures
        p < m.len() && m[p].0 == k ==> m_insert(m, k, v) == m.update(p, (k, v)),
        !(p < m.len() && m[p].0 == k) ==> m_insert(m, k, v) == m.insert(p, (k, v)),
    decreases p,
{
    if p == 0 {
        if m.len() > 0 && m[0].0 == k {
            assert(seq![(k, v)] + m.drop_first() =~= m.update(0, (k, v)));
        } else if m.len() > 0 {
            assert(seq![(k, v)] + m =~= m.insert(0, (k, v)));
        } else {
            assert(seq![(k, v)] =~= m.insert(0, (k, v)));
        }
    } else {
        let t = m.drop_first();
        assert forall|j: int| 0 <= j < p - 1 implies #[trigger] t[j].0 != k && !seq_lt(k, t[j].0) by {
            assert(t[j] == m[j + 1]);
        }
        assert(m[0].0 != k && !seq_lt(k, m[0].0));
        lemma_m_insert_slot(t, k, v, p - 1);
        if p < m.len() && m[p].0 == k {
            assert(seq![m[0]] + t.update(p - 1, (k, v)) =~= m.update(p, (k, v)));
        } else {
            assert(seq![m[0]] + t.insert(p - 1, (k, v)) =~= m.insert(p, (k, v)));
        }
    }
}

pub proof fn lemma_m_remove_slot<W>(m: Seq<(Seq<char>, W)>, k: Seq<char>, p: int)
    requires
        0 <= p <= m.len(),
        forall|j: int| 0 <= j < p ==> #[trigger] m[j].0 != k,
    ensures
        p < m.len() && m[p].0 == k ==> m_remove(m, k) == m.remove(p),
        p == m.len() ==> m_remove(m, k) == m,
    decreases p,
{
    if p == 0 {
        if m.len() > 0 && m[0].0 == k {
            assert(m.drop_first() =~= m.remove(0));
        }
    } else {
        let t = m.drop_first();
        assert forall|j: int| 0 <= j < p - 1 implies #[trigger] t[j].0 != k by {
            assert(t[j] == m[j + 1]);
        }
        lemma_m_remove_slot(t, k, p - 1);
        if p < m.len() && m[p].0 == k {
            assert(seq![m[0]] + t.remove(p - 1) =~= m.remove(p));
        } else if p == m.len() {
            assert(seq![m[0]] + t =~= m);
        }
    }
}

/// After inserting `k` with `v`, `k` reads `v` and every other key reads
/// what it read before.
pub proof fn lemma_m_insert_get<W>(m: Seq<(Seq<char>, W)>, k: Seq<char>, v: W, j: Seq<char>)
    ensures
        m_get(m_insert(m, k, v), j) == (if j == k {
            Some(v)
        } else {
            m_get(m, j)
        }),
    decreases m.len(),
{
    let r = m_insert(m, k, v);
    if m.len() == 0 {
        assert(r == seq![(k, v)]);
        assert(r[0] == (k, v));
        assert(r.drop_first() =~= Seq::<(Seq<char>, W)>::empty());
        assert(m_get(r.drop_first(), j) is None);
    } else if m[0].0 == k {
        assert(r == seq![(k, v)] + m.drop_first());
        assert(r[0] == (k, v));
        assert(r.drop_first() =~= m.drop_first());
        if j != k {
            assert(m_get(r, j) == m_get(r.drop_first(), j));
            assert(m_get(m, j) == m_get(m.drop_first(), j));
        }
    } else if seq_lt(k, m[0].0) {
        assert(r == seq![(k, v)] + m);
        assert(r[0] == (k, v));
        assert(r.drop_first() =~= m);
    } else {
        lemma_m_insert_get(m.drop_first(), k, v, j);
        assert(r == seq![m[0]] + m_insert(m.drop_first(), k, v));
        assert(r[0] == m[0]);
        assert(r.drop_first() =~= m_insert(m.drop_first(), k, v));
    }
}

/// `m` with the value of the first entry for `k` replaced by `v`; without
/// such an entry, `m` itself.
pub open spec fn m_set<W>(m: Seq<(Seq<char>, W)>, k: Seq<char>, v: W) -> Seq<(Seq<char>, W)>
    decreases m.len(),
{
    if m.len() == 0 {
        m
    } else if m[0].0 == k {
        seq![(k, v)] + m.drop_first()
    } else {
        seq![m[0]] + m_set(m.drop_first(), k, v)
    }
}

/// `m_set` replaces the entry at the first index holding `k`.
pub proof fn lemma_m_set_index<W>(m: Seq<(Seq<char>, W)>, k: Seq<char>, v: W, i: int)
    requires
        0 <= i < m.len(),
        m[i].0 == k,
        forall|j: int| 0 <= j < i ==> #[trigger] m[j].0 != k,
    ensures
        m_set(m, k, v) == m.update(i, (k, v)),
    decreases i,
{
    if i == 0 {
        assert(seq![(k, v)] + m.drop_first() =~= m.update(0, (k, v)));
    } else {
        let t = m.drop_first();
        assert forall|j: int| 0 <= j < i - 1 implies #[trigger] t[j].0 != k by {
            assert(t[j] == m[j + 1]);
        }
        assert(m[0].0 != k);
        lemma_m_set_index(t, k, v, i - 1);
        assert(seq![m[0]] + t.update(i - 1, (k, v)) =~= m.update(i, (k, v)));
    }
}

/// `m_set` keeps the length, and every entry is an old one or `(k, v)`.
pub proof fn lemma_m_set_entries<W>(m: Seq<(Seq<char>, W)>, k: Seq<char>, v: W)
    ensures
        m_set(m, k, v).len() == m.len(),
        forall|i: int|
            0 <= i < m.len() ==> #[trigger] m_set(m, k, v)[i] == m[i] || m_set(m, k, v)[i] == (k, v),
    decreases m.len(),
{
    if m.len() > 0 && m[0].0 != k {
        let t = m.drop_first();
        lemma_m_set_entries(t, k, v);
        let r = m_set(m, k, v);
        assert forall|i: int| 0 <= i < m.len() implies #[trigger] r[i] == m[i] || r[i] == (k, v) by {
            if i > 0 {
                assert(r[i] == m_set(t, k, v)[i - 1]);
                assert(m[i] == t[i - 1]);
            }
        }
    } else if m.len() > 0 {
        let r = m_set(m, k, v);
        assert forall|i: int| 0 <= i < m.len() implies #[trigger] r[i] == m[i] || r[i] == (k, v) by {
            if i > 0 {
                assert(r[i] == m.drop_first()[i - 1]);
            }
        }
    }
}

// ─── ascending maps ─────────────────────────────────────────────────────────

pub proof fn lemma_lt_irrefl(a: Seq<char>)
    ensures
        !seq_lt(a, a),
{
    crate::project::lemma_lt_asym(a, a);
}

/// Every key of `m` is after `lb`.
pub open spec fn all_after<W>(m: Seq<(Seq<char>, W)>, lb: Seq<char>) -> bool {
    forall|i: int| 0 <= i < m.len() ==> seq_lt(lb, #[trigger] m[i].0)
}

pub proof fn lemma_has_cons<W>(x: (Seq<char>, W), t: Seq<(Seq<char>, W)>, j: Seq<char>)
    ensures
        m_has(seq![x] + t, j) == (x.0 == j || m_has(t, j)),
{
    let u = seq![x] + t;
    assert(u[0] == x);
    assert(u.drop_first() =~= t);
}

pub proof fn lemma_insert_after<W>(m: Seq<(Seq<char>, W)>, k: Seq<char>, v: W, lb: Seq<char>)
    requires
        all_after(m, lb),
        seq_lt(lb, k),
    ensures
        all_after(m_insert(m, k, v), lb),
    decreases m.len(),
{
    if m.len() > 0 && m[0].0 != k && !seq_lt(k, m[0].0) {
        assert(all_after(m.drop_first(), lb)) by {
            assert forall|i: int| 0 <= i < m.drop_first().len() implies seq_lt(lb, #[trigger] m.drop_first()[i].0) by {
                assert(m.drop_first()[i] == m[i + 1]);
            }
        }
        lemma_insert_after(m.drop_first(), k, v, lb);
        let r = m_insert(m, k, v);
        let t = m_insert(m.drop_first(), k, v);
        assert(r == seq![m[0]] + t);
        assert forall|i: int| 0 <= i < r.len() implies seq_lt(lb, #[trigger] r[i].0) by {
            if i > 0 {
                assert(r[i] == t[i - 1]);
            }
        }
    } else if m.len() > 0 && m[0].0 == k {
        let r = m_insert(m, k, v);
        assert forall|i: int| 0 <= i < r.len() implies seq_lt(lb, #[trigger] r[i].0) by {
            if i > 0 {
                assert(r[i] == m[i]);
            }
        }
    } else if m.len() > 0 {
        let r = m_insert(m, k, v);
        assert forall|i: int| 0 <= i < r.len() implies seq_lt(lb, #[trigger] r[i].0) by {
            if i > 0 {
                assert(r[i] == m[i - 1]);
            }
        }
    }
}

/// Inserting keeps the keys ascending; the keys are the old ones and `k`.
pub proof fn lemma_insert_sorted<W>(m: Seq<(Seq<char>, W)>, k: Seq<char>, v: W, j: Seq<char>)
    requires
        m_sorted(m),
    ensures
        m_sorted(m_insert(m, k, v)),
        m_has(m_insert(m, k, v), j) == (j == k || m_has(m, j)),
    decreases m.len(),
{
    crate::maps::lemma_m_insert_get(m, k, v, j);
    let r = m_insert(m, k, v);
    if m.len() == 0 {
    } else if m[0].0 == k {
        assert forall|a: int, b: int| 0 <= a < b < r.len() implies seq_lt(#[trigger] r[a].0, #[trigger] r[b].0) by {
            assert(r[a].0 == m[a].0 && r[b].0 == m[b].0);
        }
    } else if seq_lt(k, m[0].0) {
        assert forall|a: int, b: int| 0 <= a < b < r.len() implies seq_lt(#[trigger] r[a].0, #[trigger] r[b].0) by {
            if a == 0 {
                if b > 1 {
                    assert(seq_lt(m[0].0, m[b - 1].0));
                    crate::project::lemma_lt_trans(k, m[0].0, m[b - 1].0);
                }
            } else {
                assert(r[a] == m[a - 1] && r[b] == m[b - 1]);
            }
        }
    } else {
        let t = m.drop_first();
        assert(m_sorted(t)) by {
            assert forall|a: int, b: int| 0 <= a < b < t.len() implies seq_lt(#[trigger] t[a].0, #[trigger] t[b].0) by {
                assert(t[a] == m[a + 1] && t[b] == m[b + 1]);
            }
        }
        lemma_insert_sorted(t, k, v, j);
        crate::project::lemma_lt_total(k, m[0].0);
        assert(all_after(t, m[0].0)) by {
            assert forall|i: int| 0 <= i < t.len() implies seq_lt(m[0].0, #[trigger] t[i].0) by {
                assert(t[i] == m[i + 1]);
            }
        }
        lemma_insert_after(t, k, v, m[0].0);
        let ti = m_insert(t, k, v);
        assert(r == seq![m[0]] + ti);
        assert forall|a: int, b: int| 0 <= a < b < r.len() implies seq_lt(#[trigger] r[a].0, #[trigger] r[b].0) by {
            if a == 0 {
                assert(r[b] == ti[b - 1]);
            } else {
                assert(r[a] == ti[a - 1] && r[b] == ti[b - 1]);
            }
        }
    }
}

/// Removing from an ascending map keeps it ascending and drops exactly `k`.
pub proof fn lemma_remove_sorted<W>(m: Seq<(Seq<char>, W)>, k: Seq<char>, j: Seq<char>)
    requires
        m_sorted(m),
    ensures
        m_sorted(m_remove(m, k)),
        m_has(m_remove(m, k), j) == (j != k && m_has(m, j)),
        all_after(m, j) ==> all_after(m_remove(m, k), j),
    decreases m.len(),
{
    if m.len() > 0 {
        let t = m.drop_first();
        assert(m_sorted(t)) by {
            assert forall|a: int, b: int| 0 <= a < b < t.len() implies seq_lt(#[trigger] t[a].0, #[trigger] t[b].0) by {
                assert(t[a] == m[a + 1] && t[b] == m[b + 1]);
            }
        }
        assert(all_after(t, m[0].0)) by {
            assert forall|i: int| 0 <= i < t.len() implies seq_lt(m[0].0, #[trigger] t[i].0) by {
                assert(t[i] == m[i + 1]);
            }
        }
        assert(all_after(m, j) ==> all_after(t, j)) by {
            if all_after(m, j) {
                assert forall|i: int| 0 <= i < t.len() implies seq_lt(j, #[trigger] t[i].0) by {
                    assert(t[i] == m[i + 1]);
                }
            }
        }
        if m[0].0 == k {
            // `k` is not among the later keys: they are all after it.
            assert(!m_has(t, k)) by {
                lemma_not_has_after(t, k);
            }
        } else {
            lemma_remove_sorted(t, k, j);
            lemma_remove_sorted(t, k, m[0].0);
            let rt = m_remove(t, k);
            let r = m_remove(m, k);
            assert(r == seq![m[0]] + rt);
            lemma_has_cons(m[0], rt, j);
            assert forall|a: int, b: int| 0 <= a < b < r.len() implies seq_lt(#[trigger] r[a].0, #[trigger] r[b].0) by {
                if a == 0 {
                    assert(r[b] == rt[b - 1]);
                } else {
                    assert(r[a] == rt[a - 1] && r[b] == rt[b - 1]);
                }
            }
            if all_after(m, j) {
                lemma_remove_sorted(t, k, j);
                assert forall|i: int| 0 <= i < r.len() implies seq_lt(j, #[trigger] r[i].0) by {
                    if i > 0 {
                        assert(r[i] == rt[i - 1]);
                    }
                }
            }
        }
    }
}


pub proof fn lemma_not_has_after<W>(m: Seq<(Seq<char>, W)>, k: Seq<char>)
    requires
        all_after(m, k),
    ensures
        !m_has(m, k),
    decreases m.len(),
{
    if m.len() > 0 {
        lemma_lt_irrefl(k);
        assert(seq_lt(k, m[0].0));
        assert(all_after(m.drop_first(), k)) by {
            assert forall|i: int| 0 <= i < m.drop_first().len() implies seq_lt(k, #[trigger] m.drop_first()[i].0) by {
                assert(m.drop_first()[i] == m[i + 1]);
            }
        }
        lemma_not_has_after(m.drop_first(), k);
    }
}

/// In an ascending map the entry at `p` is what its key reads.
pub proof fn lemma_sorted_get_at<W>(m: Seq<(Seq<char>, W)>, p: int)
    requires
        m_sorted(m),
        0 <= p < m.len(),
    ensures
        m_get(m, m[p].0) == Some(m[p].1),
    decreases p,
{
    if p > 0 {
        let t = m.drop_first();
        assert(seq_lt(m[0].0, m[p].0));
        lemma_lt_irrefl(m[p].0);
        assert forall|a: int, b: int| 0 <= a < b < t.len() implies seq_lt(#[trigger] t[a].0, #[trigger] t[b].0) by {
            assert(t[a] == m[a + 1] && t[b] == m[b + 1]);
        }
        assert(t[p - 1] == m[p]);
        lemma_sorted_get_at(t, p - 1);
    }
}

/// A map from text keys to values, entries in ascending key order.
#[derive(Debug)]
pub struct StrMap<V> {
    pub(crate) entries: Vec<(String, V)>,
}

/// The keys of `es` strictly ascending.
pub open spec fn keys_up<V>(es: Seq<(String, V)>) -> bool {
    forall|i: int, j: int| 0 <= i < j < es.len() ==> seq_lt(#[trigger] es[i].0@, #[trigger] es[j].0@)
}

impl<V> StrMap<V> {
    /// Every map keeps its keys strictly ascending, so no key occurs twice.
    #[verifier::type_invariant]
    pub closed spec fn well_formed(self) -> bool {
        keys_up(self.entries@)
    }
}

pub proof fn lemma_keys_up<V: DeepView>(es: Vec<(String, V)>)
    ensures
        keys_up(es@) <==> m_sorted(es.deep_view()),
{
    assert forall|i: int| 0 <= i < es@.len() implies (#[trigger] es.deep_view()[i]).0 == es@[i].0@ by {}
    if keys_up(es@) {
        assert forall|i: int, j: int| 0 <= i < j < es.deep_view().len() implies seq_lt(
            #[trigger] es.deep_view()[i].0,
            #[trigger] es.deep_view()[j].0,
        ) by {
            assert(es.deep_view()[i].0 == es@[i].0@);
            assert(es.deep_view()[j].0 == es@[j].0@);
        }
    }
    if m_sorted(es.deep_view()) {
        assert forall|i: int, j: int| 0 <= i < j < es@.len() implies seq_lt(#[trigger] es@[i].0@, #[trigger] es@[j].0@) by {
            assert(es.deep_view()[i].0 == es@[i].0@);
            assert(es.deep_view()[j].0 == es@[j].0@);
        }
    }
}

impl<V: DeepView> StrMap<V> {
    /// The entries, keys as character sequences and values by deep view.
    pub closed spec fn model(&self) -> Seq<(Seq<char>, V::V)> {
        self.entries.deep_view()
    }

    /// What the type invariant says of the model: keys strictly ascending.
    pub proof fn lemma_sorted(&self)
        requires
            self.well_formed(),
        ensures
            m_sorted(self.model()),
    {
        lemma_keys_up(self.entries);
    }

    /// A map of entries whose keys already ascend.
    pub fn from_sorted(entries: Vec<(String, V)>) -> (r: Self)
        requires
            m_sorted(entries.deep_view()),
        ensures
            r.model() == entries.deep_view(),
    {
        proof {
            lemma_keys_up(entries);
        }
        StrMap { entries }
    }

    /// The entries, in ascending key order, given up.
    pub fn into_entries(self) -> (r: Vec<(String, V)>)
        ensures
            r.deep_view() == self.model(),
            m_sorted(self.model()),
    {
        proof {
            use_type_invariant(&self);
            self.lemma_sorted();
        }
        self.entries
    }

    /// The entries, in ascending key order.
    pub fn entries(&self) -> (r: &Vec<(String, V)>)
        ensures
            r.deep_view() == self.model(),
            m_sorted(self.model()),
    {
        proof {
            use_type_invariant(self);
            self.lemma_sorted();
        }
        &self.entries
    }

    pub fn new() -> (r: Self)
        ensures
            r.model() == Seq::<(Seq<char>, V::V)>::empty(),
    {
        let r = StrMap { entries: Vec::new() };
        assert(r.model() =~= Seq::<(Seq<char>, V::V)>::empty());
        r
    }

    pub fn len(&self) -> (r: usize)
        ensures
            r == self.model().len(),
    {
        self.entries.len()
    }

    pub fn is_empty(&self) -> (r: bool)
        ensures
            r == (self.model().len() == 0),
    {
        self.entries.len() == 0
    }

    /// Where `k` is stored or would go.
    fn slot(&self, k: &Vec<char>) -> (r: (usize, bool))
        ensures
            m_slot(self.model(), k@, r.0 as int),
            r.1 == (r.0 < self.model().len() && self.model()[r.0 as int].0 == k@),
    {
        let ghost m = self.model();
        let mut i: usize = 0;
        while i < self.entries.len()
            invariant
                m == self.model(),
                m.len() == self.entries@.len(),
                i <= m.len(),
                forall|j: int| 0 <= j < i ==> #[trigger] m[j].0 != k@ && !seq_lt(k@, m[j].0),
            decreases self.entries.len() - i,
        {
            let key = chars_of(self.entries[i].0.as_str());
            assert(m[i as int].0 == self.entries@[i as int].0@);
            if chars_eq(&key, k) {
                return (i, true);
            }
            if chars_lt(k, &key) {
                return (i, false);
            }
            i += 1;
        }
        (i, false)
    }

    /// The first entry holding `k`.
    fn find_eq(&self, k: &Vec<char>) -> (r: Option<usize>)
        ensures
            match r {
                Some(i) => i < self.model().len() && self.model()[i as int].0 == k@
                    && forall|j: int| 0 <= j < i ==> #[trigger] self.model()[j].0 != k@,
                None => forall|j: int| 0 <= j < self.model().len() ==> #[trigger] self.model()[j].0 != k@,
            },
    {
        let ghost m = self.model();
        let mut i: usize = 0;
        while i < self.entries.len()
            invariant
                m == self.model(),
                m.len() == self.entries@.len(),
                i <= m.len(),
                forall|j: int| 0 <= j < i ==> #[trigger] m[j].0 != k@,
            decreases self.entries.len() - i,
        {
            let key = chars_of(self.entries[i].0.as_str());
            assert(m[i as int].0 == self.entries@[i as int].0@);
            if chars_eq(&key, k) {
                return Some(i);
            }
            i += 1;
        }
        None
    }

    pub fn index_of(&self, k: &str) -> (r: Option<usize>)
        ensures
            match r {
                Some(i) => i < self.model().len() && self.model()[i as int].0 == k@ && m_get(
                    self.model(),
                    k@,
                ) == Some(self.model()[i as int].1) && forall|j: int|
                    0 <= j < i ==> #[trigger] self.model()[j].0 != k@,
                None => !m_has(self.model(), k@),
            },
    {
        let kc = chars_of(k);
        let r = self.find_eq(&kc);
        proof {
            let m = self.model();
            match r {
                Some(i) => {
                    lemma_m_get_slot(m, k@, i as int);
                    assert(m.skip(i as int)[0] == m[i as int]);
                },
                None => {
                    lemma_m_get_slot(m, k@, m.len() as int);
                    assert(m.skip(m.len() as int).len() == 0);
                },
            }
        }
        r
    }

    pub fn contains_key(&self, k: &str) -> (r: bool)
        ensures
            r == m_has(self.model(), k@),
    {
        self.index_of(k).is_some()
    }

    pub fn get(&self, k: &str) -> (r: Option<&V>)
        ensures
            match r {
                Some(v) => m_get(self.model(), k@) == Some(v.deep_view()),
                None => !m_has(self.model(), k@),
            },
    {
        match self.index_of(k) {
            Some(i) => Some(&self.entries[i].1),
            None => None,
        }
    }

    pub fn insert(&mut self, k: String, v: V)
        ensures
            final(self).model() == m_insert(old(self).model(), k@, v.deep_view()),
    {
        proof {
            use_type_invariant(&*self);
            self.lemma_sorted();
        }
        let kc = chars_of(k.as_str());
        let (p, found) = self.slot(&kc);
        let ghost m = self.model();
        proof {
            lemma_m_insert_slot(m, k@, v.deep_view(), p as int);
            lemma_insert_sorted(m, k@, v.deep_view(), k@);
        }
        let ghost kv = (k, v);
        let mut es: Vec<(String, V)> = Vec::new();
        std::mem::swap(&mut es, &mut self.entries);
        if found {
            es.set(p, (k, v));
            assert(es.deep_view() =~= m.update(p as int, (kv.0@, kv.1.deep_view())));
        } else {
            es.insert(p, (k, v));
            assert(es.deep_view() =~= m.insert(p as int, (kv.0@, kv.1.deep_view())));
        }
        proof {
            lemma_keys_up(es);
        }
        self.entries = es;
    }

    pub fn remove(&mut self, k: &str)
        ensures
            final(self).model() == m_remove(old(self).model(), k@),
    {
        proof {
            use_type_invariant(&*self);
            self.lemma_sorted();
        }
        let kc = chars_of(k);
        let r = self.find_eq(&kc);
        let ghost m = self.model();
        match r {
            Some(p) => {
                proof {
                    lemma_m_remove_slot(m, k@, p as int);
                    lemma_remove_sorted(m, k@, k@);
                }
                let mut es: Vec<(String, V)> = Vec::new();
                std::mem::swap(&mut es, &mut self.entries);
                es.remove(p);
                assert(es.deep_view() =~= m.remove(p as int));
                proof {
                    lemma_keys_up(es);
                }
                self.entries = es;
            },
            None => {
                proof {
                    lemma_m_remove_slot(m, k@, m.len() as int);
                }
            },
        }
    }

    pub fn key_at(&self, i: usize) -> (r: &String)
        requires
            i < self.model().len(),
        ensures
            r@ == self.model()[i as int].0,
    {
        &self.entries[i].0
    }

    pub fn value_at(&self, i: usize) -> (r: &V)
        requires
            i < self.model().len(),
        ensures
            r.deep_view() == self.model()[i as int].1,
    {
        &self.entries[i].1
    }

    /// Replace the value of entry `i`, keeping its key.
    pub fn set_value_at(&mut self, i: usize, v: V)
        requires
            i < old(self).model().len(),
        ensures
            final(self).model() == old(self).model().update(
                i as int,
                (old(self).model()[i as int].0, v.deep_view()),
            ),
    {
        proof {
            use_type_invariant(&*self);
            self.lemma_sorted();
        }
        let ghost m = self.model();
        let k = self.entries[i].0.clone();
        let ghost vd = v.deep_view();
        let mut es: Vec<(String, V)> = Vec::new();
        std::mem::swap(&mut es, &mut self.entries);
        es.set(i, (k, v));
        assert(es.deep_view() =~= m.update(i as int, (m[i as int].0, vd)));
        proof {
            let u = es.deep_view();
            assert forall|a: int, b: int| 0 <= a < b < u.len() implies seq_lt(#[trigger] u[a].0, #[trigger] u[b].0) by {
                assert(u[a].0 == m[a].0 && u[b].0 == m[b].0);
            }
            lemma_keys_up(es);
        }
        self.entries = es;
    }
}

} // verus!

verus! {

/// The arrays a map holds are each at most `usize::MAX` long, as vectors
/// are.
pub proof fn lemma_vec_lengths_fit(m: &StrMap<Vec<i64>>)
    ensures
        forall|i: int| 0 <= i < m.model().len() ==> (#[trigger] m.model()[i]).1.len() <= usize::MAX,
{
    assert forall|i: int| 0 <= i < m.model().len() implies (#[trigger] m.model()[i]).1.len() <= usize::MAX by {
        let v = m.entries@[i].1;
        assert(m.model()[i].1 == v.deep_view());
        assert(v.deep_view().len() == v@.len());
        assert(v.len() == v@.len());
    }
}

} // verus!

verus! {

/// A set of texts, in ascending order.
#[derive(Debug)]
pub struct StrSet {
    pub map: StrMap<()>,
}

impl StrSet {
    pub open spec fn model(&self) -> Seq<Seq<char>> {
        m_keys(self.map.model())
    }

    pub open spec fn has(&self, k: Seq<char>) -> bool {
        m_has(self.map.model(), k)
    }

    pub fn new() -> (r: Self)
        ensures
            r.map.model().len() == 0,
    {
        StrSet { map: StrMap::new() }
    }

    pub fn len(&self) -> (r: usize)
        ensures
            r == self.map.model().len(),
    {
        self.map.len()
    }

    pub fn is_empty(&self) -> (r: bool)
        ensures
            r == (self.map.model().len() == 0),
    {
        self.map.is_empty()
    }

    pub fn contains(&self, k: &str) -> (r: bool)
        ensures
            r == self.has(k@),
    {
        self.map.contains_key(k)
    }

    pub fn insert(&mut self, k: String)
        ensures
            final(self).map.model() == m_insert(old(self).map.model(), k@, ()),
    {
        self.map.insert(k, ());
    }

    pub fn item_at(&self, i: usize) -> (r: &String)
        requires
            i < self.map.model().len(),
        ensures
            r@ == self.map.model()[i as int].0,
    {
        self.map.key_at(i)
    }
}

pub open spec fn pair_view(p: (String, String)) -> (Seq<char>, Seq<char>) {
    (p.0@, p.1@)
}

/// Adds `p` at the end unless already present.
pub open spec fn pairs_add(s: Seq<(Seq<char>, Seq<char>)>, p: (Seq<char>, Seq<char>)) -> Seq<
    (Seq<char>, Seq<char>),
> {
    if s.contains(p) {
        s
    } else {
        s.push(p)
    }
}

/// A set of ordered pairs of texts, in insertion order.
#[derive(Debug)]
pub struct PairSet {
    pub items: Vec<(String, String)>,
}

impl PairSet {
    pub open spec fn model(&self) -> Seq<(Seq<char>, Seq<char>)> {
        self.items@.map_values(|p: (String, String)| pair_view(p))
    }

    pub fn new() -> (r: Self)
        ensures
            r.model().len() == 0,
    {
        PairSet { items: Vec::new() }
    }

    pub fn len(&self) -> (r: usize)
        ensures
            r == self.model().len(),
    {
        self.items.len()
    }

    pub fn is_empty(&self) -> (r: bool)
        ensures
            r == (self.model().len() == 0),
    {
        self.items.len() == 0
    }

    fn has_pair(&self, a: &Vec<char>, b: &Vec<char>) -> (r: bool)
        ensures
            r == self.model().contains((a@, b@)),
    {
        let ghost m = self.model();
        let mut i: usize = 0;
        while i < self.items.len()
            invariant
                m == self.model(),
                m.len() == self.items@.len(),
                i <= m.len(),
                forall|j: int| 0 <= j < i ==> #[trigger] m[j] != (a@, b@),
            decreases self.items.len() - i,
        {
            let x = chars_of(self.items[i].0.as_str());
            let y = chars_of(self.items[i].1.as_str());
            assert(m[i as int] == pair_view(self.items@[i as int]));
            if chars_eq(&x, a) && chars_eq(&y, b) {
                return true;
            }
            i += 1;
        }
        false
    }

    pub fn contains(&self, p: &(String, String)) -> (r: bool)
        ensures
            r == self.model().contains(pair_view(*p)),
    {
        let a = chars_of(p.0.as_str());
        let b = chars_of(p.1.as_str());
        self.has_pair(&a, &b)
    }

    pub fn insert(&mut self, p: (String, String))
        ensures
            final(self).model() == pairs_add(old(self).model(), pair_view(p)),
    {
        let a = chars_of(p.0.as_str());
        let b = chars_of(p.1.as_str());
        if !self.has_pair(&a, &b) {
            let ghost m = self.model();
            let ghost pv = pair_view(p);
            self.items.push(p);
            assert(self.model() =~= m.push(pv));
        }
    }
}

} // verus!
