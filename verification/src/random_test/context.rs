//! The values generated so far, and how a repeated block's values are
//! dropped again when the block ends.

use vstd::prelude::*;
use crate::maps::{m_get, m_has, m_sorted, seq_lt, StrMap, StrSet};

verus! {

/// Generated scalars, strings and arrays by name.
#[derive(Debug)]
pub struct RenderContext {
    pub scalars: StrMap<i64>,
    pub strings: StrMap<String>,
    pub arrays: StrMap<Vec<i64>>,
}

/// The names a context held, and its arrays' lengths, at one moment.
#[derive(Debug)]
pub struct ContextCheckpoint {
    pub scalar_names: StrSet,
    pub array_names: StrSet,
    pub string_names: StrSet,
    pub array_lens: StrMap<usize>,
}

/// The entries whose key is in `keep`, in order.
pub open spec fn filter_keys<W>(m: Seq<(Seq<char>, W)>, keep: Seq<(Seq<char>, ())>) -> Seq<
    (Seq<char>, W),
>
    decreases m.len(),
{
    if m.len() == 0 {
        m
    } else {
        let p = filter_keys(m.drop_last(), keep);
        if m_has(keep, m.last().0) {
            p.push(m.last())
        } else {
            p
        }
    }
}

/// The arrays that have a recorded length, each cut to that length.
pub open spec fn cut_arrays(m: Seq<(Seq<char>, Seq<i64>)>, lens: Seq<(Seq<char>, usize)>) -> Seq<
    (Seq<char>, Seq<i64>),
>
    decreases m.len(),
{
    if m.len() == 0 {
        m
    } else {
        let p = cut_arrays(m.drop_last(), lens);
        match m_get(lens, m.last().0) {
            Some(l) => p.push(
                (
                    m.last().0,
                    if l < m.last().1.len() {
                        m.last().1.take(l as int)
                    } else {
                        m.last().1
                    },
                ),
            ),
            None => p,
        }
    }
}

pub open spec fn unit_keys<W>(m: Seq<(Seq<char>, W)>) -> Seq<(Seq<char>, ())> {
    m.map_values(|e: (Seq<char>, W)| (e.0, ()))
}

pub open spec fn array_lens(m: Seq<(Seq<char>, Seq<i64>)>) -> Seq<(Seq<char>, usize)> {
    m.map_values(|e: (Seq<char>, Seq<i64>)| (e.0, e.1.len() as usize))
}

fn keys_of<V: DeepView>(m: &StrMap<V>) -> (r: StrSet)
    ensures
        r.map.model() == unit_keys(m.model()),
{
    let es = m.entries();
    let mut entries: Vec<(String, ())> = Vec::new();
    let mut i: usize = 0;
    while i < es.len()
        invariant
            i <= m.model().len(),
            es.deep_view() == m.model(),
            m.model().len() == es@.len(),
            entries.deep_view() == unit_keys(m.model()).take(i as int),
        decreases es.len() - i,
    {
        let k = es[i].0.clone();
        assert(m.model()[i as int].0 == es@[i as int].0@);
        let ghost e0 = entries.deep_view();
        entries.push((k, ()));
        assert(entries.deep_view() =~= e0.push((k@, ())));
        assert(unit_keys(m.model()).take(i + 1) =~= unit_keys(m.model()).take(i as int).push(
            (m.model()[i as int].0, ()),
        ));
        i += 1;
    }
    assert(unit_keys(m.model()).take(m.model().len() as int) =~= unit_keys(m.model()));
    proof {
        use_type_invariant(m);
        m.lemma_sorted();
        lemma_same_keys_sorted(m.model(), unit_keys(m.model()));
    }
    StrSet { map: StrMap::from_sorted(entries) }
}

fn lens_of(m: &StrMap<Vec<i64>>) -> (r: StrMap<usize>)
    ensures
        r.model() == array_lens(m.model()),
{
    let es = m.entries();
    let mut entries: Vec<(String, usize)> = Vec::new();
    let mut i: usize = 0;
    while i < es.len()
        invariant
            i <= m.model().len(),
            es.deep_view() == m.model(),
            m.model().len() == es@.len(),
            entries.deep_view() == array_lens(m.model()).take(i as int),
        decreases es.len() - i,
    {
        let k = es[i].0.clone();
        let l = es[i].1.len();
        assert(m.model()[i as int].0 == es@[i as int].0@);
        assert(m.model()[i as int].1 =~= es@[i as int].1@);
        let ghost e0 = entries.deep_view();
        entries.push((k, l));
        assert(entries.deep_view() =~= e0.push((k@, l)));
        assert(unit_keys(m.model()).len() == m.model().len());
        assert(array_lens(m.model()).take(i + 1) =~= array_lens(m.model()).take(i as int).push(
            (m.model()[i as int].0, l),
        ));
        i += 1;
    }
    assert(array_lens(m.model()).take(m.model().len() as int) =~= array_lens(m.model()));
    proof {
        use_type_invariant(m);
        m.lemma_sorted();
        lemma_same_keys_sorted(m.model(), array_lens(m.model()));
    }
    StrMap::from_sorted(entries)
}

fn retain_keys<V: DeepView>(m: &mut StrMap<V>, keep: &StrSet)
    ensures
        final(m).model() == filter_keys(old(m).model(), keep.map.model()),
{
    proof {
        use_type_invariant(&*m);
        m.lemma_sorted();
    }
    let ghost m0 = m.model();
    let mut taken: StrMap<V> = StrMap::new();
    std::mem::swap(&mut taken, m);
    let mut rest = taken.into_entries();
    let n = rest.len();
    let mut out: Vec<(String, V)> = Vec::new();
    let mut i: usize = 0;
    assert(m0.take(0) =~= Seq::<(Seq<char>, V::V)>::empty());
    while rest.len() > 0
        invariant
            n == m0.len(),
            i + rest@.len() == n,
            rest.deep_view() =~= m0.subrange(i as int, n as int),
            out.deep_view() == filter_keys(m0.take(i as int), keep.map.model()),
        decreases rest.len(),
    {
        let ghost r0 = rest.deep_view();
        let e = rest.remove(0);
        assert(r0[0] == (e.0@, e.1.deep_view()));
        assert(rest.deep_view() =~= r0.drop_first());
        assert(m0.take(i + 1).drop_last() =~= m0.take(i as int));
        assert(m0.take(i + 1).last() == m0[i as int]);
        assert(m0[i as int] == r0[0]);
        if keep.contains(e.0.as_str()) {
            let ghost o = out.deep_view();
            out.push(e);
            assert(out.deep_view() =~= o.push(m0[i as int]));
        }
        i += 1;
    }
    assert(m0.take(n as int) =~= m0);
    proof {
        lemma_filter_get(m0, keep.map.model(), seq![]);
    }
    *m = StrMap::from_sorted(out);
}

fn retain_cut(m: &mut StrMap<Vec<i64>>, lens: &StrMap<usize>)
    ensures
        final(m).model() == cut_arrays(old(m).model(), lens.model()),
{
    proof {
        use_type_invariant(&*m);
        m.lemma_sorted();
    }
    let ghost m0 = m.model();
    let mut taken: StrMap<Vec<i64>> = StrMap::new();
    std::mem::swap(&mut taken, m);
    let mut rest = taken.into_entries();
    let n = rest.len();
    let mut out: Vec<(String, Vec<i64>)> = Vec::new();
    let mut i: usize = 0;
    assert(m0.take(0) =~= Seq::<(Seq<char>, Seq<i64>)>::empty());
    while rest.len() > 0
        invariant
            n == m0.len(),
            i + rest@.len() == n,
            rest.deep_view() =~= m0.subrange(i as int, n as int),
            out.deep_view() == cut_arrays(m0.take(i as int), lens.model()),
        decreases rest.len(),
    {
        let ghost r0 = rest.deep_view();
        let e = rest.remove(0);
        assert(r0[0] == (e.0@, e.1.deep_view()));
        assert(e.1.deep_view() =~= e.1@);
        assert(rest.deep_view() =~= r0.drop_first());
        assert(m0.take(i + 1).drop_last() =~= m0.take(i as int));
        assert(m0.take(i + 1).last() == m0[i as int]);
        match lens.get(e.0.as_str()) {
            Some(l) => {
                let mut v = e.1;
                let len = *l;
                if len < v.len() {
                    v.truncate(len);
                }
                let ghost o = out.deep_view();
                out.push((e.0, v));
                assert(v.deep_view() =~= v@);
                assert(out.deep_view() =~= o.push(
                    (
                        m0[i as int].0,
                        if len < m0[i as int].1.len() {
                            m0[i as int].1.take(len as int)
                        } else {
                            m0[i as int].1
                        },
                    ),
                ));
            },
            None => {},
        }
        i += 1;
    }
    assert(m0.take(n as int) =~= m0);
    proof {
        lemma_cut_get(m0, lens.model(), seq![]);
    }
    *m = StrMap::from_sorted(out);
}

/// Entries with the keys of an ascending map, in its order, ascend too.
proof fn lemma_same_keys_sorted<W, U>(m: Seq<(Seq<char>, W)>, n: Seq<(Seq<char>, U)>)
    requires
        m_sorted(m),
        n.len() == m.len(),
        forall|i: int| 0 <= i < m.len() ==> #[trigger] n[i].0 == m[i].0,
    ensures
        m_sorted(n),
{
    assert forall|a: int, b: int| 0 <= a < b < n.len() implies seq_lt(#[trigger] n[a].0, #[trigger] n[b].0) by {
        assert(n[a].0 == m[a].0);
        assert(n[b].0 == m[b].0);
    }
}

proof fn lemma_m_has_at<W>(m: Seq<(Seq<char>, W)>, i: int)
    requires
        0 <= i < m.len(),
    ensures
        m_has(m, m[i].0),
    decreases m.len(),
{
    if m[0].0 != m[i].0 {
        lemma_m_has_at(m.drop_first(), i - 1);
    }
}

proof fn lemma_filter_all_kept<W>(m: Seq<(Seq<char>, W)>, keep: Seq<(Seq<char>, ())>)
    requires
        forall|i: int| 0 <= i < m.len() ==> m_has(keep, #[trigger] m[i].0),
    ensures
        filter_keys(m, keep) == m,
    decreases m.len(),
{
    if m.len() > 0 {
        assert forall|i: int| 0 <= i < m.drop_last().len() implies m_has(
            keep,
            #[trigger] m.drop_last()[i].0,
        ) by {
            assert(m.drop_last()[i] == m[i]);
        }
        lemma_filter_all_kept(m.drop_last(), keep);
        assert(m_has(keep, m[m.len() - 1].0));
        assert(m.drop_last().push(m.last()) =~= m);
    }
}

proof fn lemma_get_unique<W>(m: Seq<(Seq<char>, W)>, i: int)
    requires
        0 <= i < m.len(),
        forall|a: int, b: int| 0 <= a < b < m.len() ==> #[trigger] m[a].0 != #[trigger] m[b].0,
    ensures
        m_get(m, m[i].0) == Some(m[i].1),
    decreases m.len(),
{
    if i > 0 {
        assert(m[0].0 != m[i].0);
        assert forall|a: int, b: int|
            0 <= a < b < m.drop_first().len() implies #[trigger] m.drop_first()[a].0
            != #[trigger] m.drop_first()[b].0 by {
            assert(m.drop_first()[a] == m[a + 1]);
            assert(m.drop_first()[b] == m[b + 1]);
        }
        lemma_get_unique(m.drop_first(), i - 1);
    }
}

proof fn lemma_cut_own_lengths(m: Seq<(Seq<char>, Seq<i64>)>, lens: Seq<(Seq<char>, usize)>)
    requires
        forall|i: int| 0 <= i < m.len() ==> m_get(lens, #[trigger] m[i].0) == Some(
            m[i].1.len() as usize,
        ),
        forall|i: int| 0 <= i < m.len() ==> (#[trigger] m[i]).1.len() <= usize::MAX,
    ensures
        cut_arrays(m, lens) == m,
    decreases m.len(),
{
    if m.len() > 0 {
        assert forall|i: int| 0 <= i < m.drop_last().len() implies m_get(
            lens,
            #[trigger] m.drop_last()[i].0,
        ) == Some(m.drop_last()[i].1.len() as usize) by {
            assert(m.drop_last()[i] == m[i]);
        }
        assert forall|i: int| 0 <= i < m.drop_last().len() implies (
        #[trigger] m.drop_last()[i]).1.len() <= usize::MAX by {
            assert(m.drop_last()[i] == m[i]);
        }
        lemma_cut_own_lengths(m.drop_last(), lens);
        assert(m_get(lens, m[m.len() - 1].0) == Some(m[m.len() - 1].1.len() as usize));
        assert(m.drop_last().push(m.last()) =~= m);
    }
}

/// Restoring the checkpoint taken of a context gives the context back:
/// every name is kept and no array is cut (names distinct, as a map's are).
pub proof fn lemma_restore_own_checkpoint(
    scalars: Seq<(Seq<char>, i64)>,
    strings: Seq<(Seq<char>, Seq<char>)>,
    arrays: Seq<(Seq<char>, Seq<i64>)>,
)
    requires
        forall|a: int, b: int|
            0 <= a < b < arrays.len() ==> #[trigger] arrays[a].0 != #[trigger] arrays[b].0,
        forall|i: int| 0 <= i < arrays.len() ==> (#[trigger] arrays[i]).1.len() <= usize::MAX,
    ensures
        filter_keys(scalars, unit_keys(scalars)) == scalars,
        filter_keys(strings, unit_keys(strings)) == strings,
        cut_arrays(arrays, array_lens(arrays)) == arrays,
{
    assert forall|i: int| 0 <= i < scalars.len() implies m_has(
        unit_keys(scalars),
        #[trigger] scalars[i].0,
    ) by {
        lemma_m_has_at(unit_keys(scalars), i);
    }
    lemma_filter_all_kept(scalars, unit_keys(scalars));
    assert forall|i: int| 0 <= i < strings.len() implies m_has(
        unit_keys(strings),
        #[trigger] strings[i].0,
    ) by {
        lemma_m_has_at(unit_keys(strings), i);
    }
    lemma_filter_all_kept(strings, unit_keys(strings));
    let lens = array_lens(arrays);
    assert forall|a: int, b: int| 0 <= a < b < lens.len() implies #[trigger] lens[a].0
        != #[trigger] lens[b].0 by {
        assert(lens[a].0 == arrays[a].0);
        assert(lens[b].0 == arrays[b].0);
    }
    assert forall|i: int| 0 <= i < arrays.len() implies m_get(lens, #[trigger] arrays[i].0) == Some(
        arrays[i].1.len() as usize,
    ) by {
        lemma_get_unique(lens, i);
    }
    lemma_cut_own_lengths(arrays, lens);
}

// ─── restoring after a repeated block ───────────────────────────────────────

pub proof fn lemma_has_index<W>(m: Seq<(Seq<char>, W)>, k: Seq<char>) -> (i: int)
    requires
        m_has(m, k),
    ensures
        0 <= i < m.len(),
        m[i].0 == k,
        m_get(m, k) == Some(m[i].1),
        forall|j: int| 0 <= j < i ==> (#[trigger] m[j]).0 != k,
    decreases m.len(),
{
    if m[0].0 == k {
        0
    } else {
        let i = lemma_has_index(m.drop_first(), k);
        assert forall|j: int| 0 <= j < i + 1 implies (#[trigger] m[j]).0 != k by {
            if j > 0 {
                assert(m[j] == m.drop_first()[j - 1]);
            }
        }
        i + 1
    }
}

proof fn lemma_get_push<W>(p: Seq<(Seq<char>, W)>, x: (Seq<char>, W), j: Seq<char>)
    ensures
        m_get(p.push(x), j) == (if m_has(p, j) {
            m_get(p, j)
        } else if x.0 == j {
            Some(x.1)
        } else {
            None
        }),
    decreases p.len(),
{
    let q = p.push(x);
    if p.len() > 0 {
        assert(q[0] == p[0]);
        assert(q.drop_first() =~= p.drop_first().push(x));
        lemma_get_push(p.drop_first(), x, j);
        if p[0].0 != j {
            assert(m_get(q, j) == m_get(q.drop_first(), j));
            assert(m_get(p, j) == m_get(p.drop_first(), j));
        }
    } else {
        assert(q[0] == x);
        assert(q.drop_first() =~= Seq::<(Seq<char>, W)>::empty());
        assert(m_get(q.drop_first(), j) is None);
    }
}

proof fn lemma_sorted_drop_last<W>(m: Seq<(Seq<char>, W)>)
    requires
        m_sorted(m),
        m.len() > 0,
    ensures
        m_sorted(m.drop_last()),
        forall|i: int| 0 <= i < m.len() - 1 ==> crate::maps::seq_lt(#[trigger] m.drop_last()[i].0, m.last().0),
{
    assert forall|a: int, b: int| 0 <= a < b < m.drop_last().len() implies crate::maps::seq_lt(
        #[trigger] m.drop_last()[a].0,
        #[trigger] m.drop_last()[b].0,
    ) by {
        assert(m.drop_last()[a] == m[a] && m.drop_last()[b] == m[b]);
    }
    assert forall|i: int| 0 <= i < m.len() - 1 implies crate::maps::seq_lt(#[trigger] m.drop_last()[i].0, m.last().0) by {
        assert(m.drop_last()[i] == m[i]);
    }
}

proof fn lemma_push_sorted<W>(p: Seq<(Seq<char>, W)>, x: (Seq<char>, W), t: Seq<(Seq<char>, W)>)
    requires
        m_sorted(p),
        m_sorted(t),
        t.len() > 0,
        x.0 == t.last().0,
        forall|i: int| 0 <= i < p.len() ==> m_has(t.drop_last(), #[trigger] p[i].0),
    ensures
        m_sorted(p.push(x)),
{
    lemma_sorted_drop_last(t);
    let q = p.push(x);
    assert forall|a: int, b: int| 0 <= a < b < q.len() implies crate::maps::seq_lt(#[trigger] q[a].0, #[trigger] q[b].0) by {
        if b == p.len() {
            assert(m_has(t.drop_last(), p[a].0));
            let i = lemma_has_index(t.drop_last(), p[a].0);
            assert(q[a] == p[a]);
        } else {
            assert(q[a] == p[a] && q[b] == p[b]);
        }
    }
}

/// Keeping the keys of `keep` out of an ascending map: still ascending, and
/// each key reads as before if kept, not at all otherwise.
proof fn lemma_filter_get<W>(t: Seq<(Seq<char>, W)>, keep: Seq<(Seq<char>, ())>, j: Seq<char>)
    requires
        m_sorted(t),
    ensures
        m_sorted(filter_keys(t, keep)),
        m_get(filter_keys(t, keep), j) == (if m_has(keep, j) { m_get(t, j) } else { None }),
        forall|i: int| 0 <= i < filter_keys(t, keep).len() ==> m_has(t, #[trigger] filter_keys(t, keep)[i].0),
    decreases t.len(),
{
    if t.len() > 0 {
        lemma_sorted_drop_last(t);
        let d = t.drop_last();
        lemma_filter_get(d, keep, j);
        lemma_filter_get(d, keep, t.last().0);
        let p = filter_keys(d, keep);
        lemma_get_push(d, t.last(), j);
        assert(t == d.push(t.last()));
        // the last key is not among the earlier ones
        assert(!m_has(d, t.last().0)) by {
            if m_has(d, t.last().0) {
                let i = lemma_has_index(d, t.last().0);
                crate::project::lemma_lt_asym(d[i].0, t.last().0);
            }
        }
        if m_has(keep, t.last().0) {
            lemma_push_sorted(p, t.last(), t);
            lemma_get_push(p, t.last(), j);
            let q = p.push(t.last());
            assert forall|i: int| 0 <= i < q.len() implies m_has(t, #[trigger] q[i].0) by {
                if i < p.len() {
                    assert(q[i] == p[i]);
                    assert(m_has(d, p[i].0));
                    lemma_get_push(d, t.last(), p[i].0);
                } else {
                    lemma_get_push(d, t.last(), t.last().0);
                }
            }
            if m_has(p, j) {
                assert(m_has(d, j));
            }
        } else {
            assert forall|i: int| 0 <= i < p.len() implies m_has(t, #[trigger] p[i].0) by {
                assert(m_has(d, p[i].0));
                lemma_get_push(d, t.last(), p[i].0);
            }
        }
    }
}

/// Two ascending maps that read the same for every key are equal.
proof fn lemma_sorted_ext<W>(a: Seq<(Seq<char>, W)>, b: Seq<(Seq<char>, W)>)
    requires
        m_sorted(a),
        m_sorted(b),
        forall|j: Seq<char>| m_get(a, j) == m_get(b, j),
    ensures
        a == b,
    decreases a.len() + b.len(),
{
    if a.len() == 0 && b.len() > 0 {
        assert(m_get(b, b[0].0) is Some);
        assert(m_get(a, b[0].0) is None);
    } else if a.len() > 0 && b.len() == 0 {
        assert(m_get(a, a[0].0) is Some);
    } else if a.len() > 0 {
        // the first keys agree: each is the least key of both
        assert(m_get(a, a[0].0) == Some(a[0].1));
        let i = lemma_has_index(b, a[0].0);
        assert(m_get(b, b[0].0) == Some(b[0].1));
        let k = lemma_has_index(a, b[0].0);
        if i > 0 {
            assert(crate::maps::seq_lt(b[0].0, b[i].0));
            if k > 0 {
                assert(crate::maps::seq_lt(a[0].0, a[k].0));
                crate::project::lemma_lt_asym(b[0].0, a[0].0);
            }
            crate::project::lemma_lt_asym(b[0].0, b[0].0);
        }
        assert(a[0] == b[0]);
        let a2 = a.drop_first();
        let b2 = b.drop_first();
        assert(m_sorted(a2)) by {
            assert forall|x: int, y: int| 0 <= x < y < a2.len() implies crate::maps::seq_lt(
                #[trigger] a2[x].0,
                #[trigger] a2[y].0,
            ) by {
                assert(a2[x] == a[x + 1] && a2[y] == a[y + 1]);
            }
        }
        assert(m_sorted(b2)) by {
            assert forall|x: int, y: int| 0 <= x < y < b2.len() implies crate::maps::seq_lt(
                #[trigger] b2[x].0,
                #[trigger] b2[y].0,
            ) by {
                assert(b2[x] == b[x + 1] && b2[y] == b[y + 1]);
            }
        }
        assert forall|j: Seq<char>| m_get(a2, j) == m_get(b2, j) by {
            if j == a[0].0 {
                if m_has(a2, j) {
                    let x = lemma_has_index(a2, j);
                    assert(a2[x] == a[x + 1]);
                    crate::project::lemma_lt_asym(j, j);
                }
                if m_has(b2, j) {
                    let x = lemma_has_index(b2, j);
                    assert(b2[x] == b[x + 1]);
                    crate::project::lemma_lt_asym(j, j);
                }
            } else {
                assert(m_get(a, j) == m_get(a2, j));
                assert(m_get(b, j) == m_get(b2, j));
            }
        }
        lemma_sorted_ext(a2, b2);
        assert(a =~= seq![a[0]] + a2);
        assert(b =~= seq![b[0]] + b2);
    }
}

pub proof fn lemma_unit_keys_has<W>(m: Seq<(Seq<char>, W)>, j: Seq<char>)
    ensures
        m_has(unit_keys(m), j) == m_has(m, j),
    decreases m.len(),
{
    if m.len() > 0 {
        assert(unit_keys(m)[0].0 == m[0].0);
        assert(unit_keys(m).drop_first() =~= unit_keys(m.drop_first()));
        lemma_unit_keys_has(m.drop_first(), j);
    }
}

/// What a repeated block may do to the values known before it: add names
/// of its own, and leave the earlier ones as they were.
pub open spec fn only_added<W>(before: Seq<(Seq<char>, W)>, after: Seq<(Seq<char>, W)>) -> bool {
    forall|k: Seq<char>| m_has(before, k) ==> #[trigger] m_get(after, k) == m_get(before, k)
}

/// Restoring a checkpoint after a repeated block gives the names and
/// values known at the checkpoint back, whatever names the block added:
/// for scalars and strings (ascending maps, as the context keeps them).
pub proof fn lemma_restore_after_additions<W>(before: Seq<(Seq<char>, W)>, after: Seq<(Seq<char>, W)>)
    requires
        m_sorted(before),
        m_sorted(after),
        only_added(before, after),
    ensures
        filter_keys(after, unit_keys(before)) == before,
{
    let f = filter_keys(after, unit_keys(before));
    lemma_filter_get(after, unit_keys(before), seq![]);
    assert forall|j: Seq<char>| m_get(f, j) == m_get(before, j) by {
        lemma_filter_get(after, unit_keys(before), j);
        lemma_unit_keys_has(before, j);
    }
    lemma_sorted_ext(f, before);
}

pub open spec fn cut_to(v: Seq<i64>, l: usize) -> Seq<i64> {
    if l < v.len() {
        v.take(l as int)
    } else {
        v
    }
}

proof fn lemma_cut_get(t: Seq<(Seq<char>, Seq<i64>)>, lens: Seq<(Seq<char>, usize)>, j: Seq<char>)
    requires
        m_sorted(t),
    ensures
        m_sorted(cut_arrays(t, lens)),
        m_get(cut_arrays(t, lens), j) == match m_get(lens, j) {
            Some(l) => match m_get(t, j) {
                Some(v) => Some(cut_to(v, l)),
                None => None,
            },
            None => None,
        },
        forall|i: int| 0 <= i < cut_arrays(t, lens).len() ==> m_has(t, #[trigger] cut_arrays(t, lens)[i].0),
    decreases t.len(),
{
    if t.len() > 0 {
        lemma_sorted_drop_last(t);
        let d = t.drop_last();
        lemma_cut_get(d, lens, j);
        let p = cut_arrays(d, lens);
        lemma_get_push(d, t.last(), j);
        assert(t == d.push(t.last()));
        assert(!m_has(d, t.last().0)) by {
            if m_has(d, t.last().0) {
                let i = lemma_has_index(d, t.last().0);
                crate::project::lemma_lt_asym(d[i].0, t.last().0);
            }
        }
        match m_get(lens, t.last().0) {
            Some(l) => {
                let x = (t.last().0, cut_to(t.last().1, l));
                assert(cut_arrays(t, lens) == p.push(x));
                lemma_push_sorted(p, x, t);
                lemma_get_push(p, x, j);
                let q = p.push(x);
                assert forall|i: int| 0 <= i < q.len() implies m_has(t, #[trigger] q[i].0) by {
                    if i < p.len() {
                        assert(q[i] == p[i]);
                        assert(m_has(d, p[i].0));
                        lemma_get_push(d, t.last(), p[i].0);
                    } else {
                        lemma_get_push(d, t.last(), t.last().0);
                    }
                }
                if m_has(p, j) {
                    assert(m_has(d, j));
                }
            },
            None => {
                assert forall|i: int| 0 <= i < p.len() implies m_has(t, #[trigger] p[i].0) by {
                    assert(m_has(d, p[i].0));
                    lemma_get_push(d, t.last(), p[i].0);
                }
            },
        }
    }
}

proof fn lemma_lens_get(m: Seq<(Seq<char>, Seq<i64>)>, j: Seq<char>)
    ensures
        m_get(array_lens(m), j) == match m_get(m, j) {
            Some(v) => Some(v.len() as usize),
            None => None,
        },
    decreases m.len(),
{
    if m.len() > 0 {
        assert(array_lens(m)[0] == (m[0].0, m[0].1.len() as usize));
        assert(array_lens(m).drop_first() =~= array_lens(m.drop_first()));
        lemma_lens_get(m.drop_first(), j);
    }
}

/// What a repeated block may do to the arrays known before it: add arrays
/// of its own and append to the earlier ones.
pub open spec fn only_appended(before: Seq<(Seq<char>, Seq<i64>)>, after: Seq<(Seq<char>, Seq<i64>)>) -> bool {
    forall|k: Seq<char>|
        #[trigger] m_get(before, k) matches Some(a) ==> (m_get(after, k) matches Some(b) && a.len() <= b.len()
            && b.take(a.len() as int) == a)
}

/// Restoring a checkpoint after a repeated block gives the arrays known at
/// the checkpoint back, whatever the block added or appended.
pub proof fn lemma_restore_arrays_after_appends(before: Seq<(Seq<char>, Seq<i64>)>, after: Seq<(Seq<char>, Seq<i64>)>)
    requires
        m_sorted(before),
        m_sorted(after),
        only_appended(before, after),
        forall|i: int| 0 <= i < before.len() ==> (#[trigger] before[i]).1.len() <= usize::MAX,
    ensures
        cut_arrays(after, array_lens(before)) == before,
{
    let f = cut_arrays(after, array_lens(before));
    lemma_cut_get(after, array_lens(before), seq![]);
    assert forall|j: Seq<char>| m_get(f, j) == m_get(before, j) by {
        lemma_cut_get(after, array_lens(before), j);
        lemma_lens_get(before, j);
        if m_has(before, j) {
            let i = lemma_has_index(before, j);
            let a = before[i].1;
            assert(a.len() <= usize::MAX);
            let b = m_get(after, j)->0;
            assert(b.take(a.len() as int) == a);
            if a.len() == b.len() {
                assert(b =~= b.take(a.len() as int));
            }
        }
    }
    lemma_sorted_ext(f, before);
}

impl RenderContext {
    pub fn new() -> (r: RenderContext)
        ensures
            r.scalars.model().len() == 0,
            r.strings.model().len() == 0,
            r.arrays.model().len() == 0,
    {
        RenderContext { scalars: StrMap::new(), strings: StrMap::new(), arrays: StrMap::new() }
    }

    /// The names held now, and each array's length.
    pub fn checkpoint(&self) -> (r: ContextCheckpoint)
        ensures
            r.scalar_names.map.model() == unit_keys(self.scalars.model()),
            r.string_names.map.model() == unit_keys(self.strings.model()),
            r.array_names.map.model() == unit_keys(self.arrays.model()),
            r.array_lens.model() == array_lens(self.arrays.model()),
    {
        ContextCheckpoint {
            scalar_names: keys_of(&self.scalars),
            string_names: keys_of(&self.strings),
            array_names: keys_of(&self.arrays),
            array_lens: lens_of(&self.arrays),
        }
    }

    /// Drop what a repeated block generated: names the checkpoint did not
    /// hold go, and arrays are cut back to their recorded length.
    pub fn restore(&mut self, checkpoint: &ContextCheckpoint)
        ensures
            final(self).scalars.model() == filter_keys(
                old(self).scalars.model(),
                checkpoint.scalar_names.map.model(),
            ),
            final(self).strings.model() == filter_keys(
                old(self).strings.model(),
                checkpoint.string_names.map.model(),
            ),
            final(self).arrays.model() == cut_arrays(
                old(self).arrays.model(),
                checkpoint.array_lens.model(),
            ),
            // restoring after a block that only added names gives the
            // scalars and strings of the checkpoint's moment back
            forall|s: Seq<(Seq<char>, i64)>|
                #![trigger only_added(s, old(self).scalars.model())]
                unit_keys(s) == checkpoint.scalar_names.map.model() && only_added(s, old(self).scalars.model())
                    ==> final(self).scalars.model() == s,
            forall|s: Seq<(Seq<char>, Seq<char>)>|
                #![trigger only_added(s, old(self).strings.model())]
                unit_keys(s) == checkpoint.string_names.map.model() && only_added(s, old(self).strings.model())
                    ==> final(self).strings.model() == s,
            // and, after a block that only added arrays or appended to
            // them, the arrays of that moment
            forall|s: Seq<(Seq<char>, Seq<i64>)>|
                #![trigger only_appended(s, old(self).arrays.model())]
                array_lens(s) == checkpoint.array_lens.model() && only_appended(s, old(self).arrays.model())
                    ==> final(self).arrays.model() == s,
            // nothing comes back that was not there: kept names read as
            // before, kept arrays are prefixes of what they were
            forall|k: Seq<char>|
                #[trigger] m_has(final(self).scalars.model(), k) ==> m_get(final(self).scalars.model(), k) == m_get(
                    old(self).scalars.model(),
                    k,
                ),
            forall|k: Seq<char>|
                #[trigger] m_has(final(self).strings.model(), k) ==> m_get(final(self).strings.model(), k) == m_get(
                    old(self).strings.model(),
                    k,
                ),
            // the names the checkpoint holds stay, the others go
            forall|k: Seq<char>|
                #[trigger] m_has(final(self).scalars.model(), k) ==> m_has(checkpoint.scalar_names.map.model(), k),
            forall|k: Seq<char>|
                m_has(checkpoint.scalar_names.map.model(), k) && #[trigger] m_has(old(self).scalars.model(), k) ==> m_get(
                    final(self).scalars.model(),
                    k,
                ) == m_get(old(self).scalars.model(), k),
            forall|k: Seq<char>|
                #[trigger] m_has(final(self).arrays.model(), k) ==> m_has(old(self).arrays.model(), k) && m_get(
                    final(self).arrays.model(),
                    k,
                )->0.len() <= m_get(old(self).arrays.model(), k)->0.len() && m_get(final(self).arrays.model(), k)->0
                    == m_get(old(self).arrays.model(), k)->0.take(m_get(final(self).arrays.model(), k)->0.len() as int),
    {
        let ghost sc0 = self.scalars.model();
        let ghost st0 = self.strings.model();
        let ghost ar0 = self.arrays.model();
        proof {
            crate::maps::lemma_vec_lengths_fit(&self.arrays);
            use_type_invariant(&self.scalars);
            use_type_invariant(&self.strings);
            use_type_invariant(&self.arrays);
            use_type_invariant(&checkpoint.scalar_names.map);
            use_type_invariant(&checkpoint.string_names.map);
            use_type_invariant(&checkpoint.array_lens);
            self.scalars.lemma_sorted();
            self.strings.lemma_sorted();
            self.arrays.lemma_sorted();
            checkpoint.scalar_names.map.lemma_sorted();
            checkpoint.string_names.map.lemma_sorted();
            checkpoint.array_lens.lemma_sorted();
        }
        retain_keys(&mut self.scalars, &checkpoint.scalar_names);
        retain_keys(&mut self.strings, &checkpoint.string_names);
        retain_cut(&mut self.arrays, &checkpoint.array_lens);
        proof {
            assert forall|s: Seq<(Seq<char>, i64)>|
                unit_keys(s) == checkpoint.scalar_names.map.model() && #[trigger] only_added(s, sc0)
                implies self.scalars.model() == s by {
                lemma_same_keys_sorted(unit_keys(s), s);
                lemma_restore_after_additions(s, sc0);
            }
            assert forall|s: Seq<(Seq<char>, Seq<char>)>|
                unit_keys(s) == checkpoint.string_names.map.model() && #[trigger] only_added(s, st0)
                implies self.strings.model() == s by {
                lemma_same_keys_sorted(unit_keys(s), s);
                lemma_restore_after_additions(s, st0);
            }
            assert forall|s: Seq<(Seq<char>, Seq<i64>)>|
                array_lens(s) == checkpoint.array_lens.model() && #[trigger] only_appended(s, ar0)
                implies self.arrays.model() == s by {
                lemma_same_keys_sorted(array_lens(s), s);
                // each array then was a prefix of one the context held, so
                // its length fits as a vector's does
                assert forall|i: int| 0 <= i < s.len() implies (#[trigger] s[i]).1.len() <= usize::MAX by {
                    crate::maps::lemma_sorted_get_at(s, i);
                    assert(m_get(s, s[i].0) == Some(s[i].1));
                    let j = lemma_has_index(ar0, s[i].0);
                    assert(ar0[j].1.len() <= usize::MAX);
                }
                lemma_restore_arrays_after_appends(s, ar0);
            }
            assert forall|k: Seq<char>| #[trigger] m_has(self.scalars.model(), k) implies m_get(self.scalars.model(), k)
                == m_get(sc0, k) by {
                lemma_filter_get(sc0, checkpoint.scalar_names.map.model(), k);
            }
            assert forall|k: Seq<char>| #[trigger] m_has(self.scalars.model(), k) implies m_has(
                checkpoint.scalar_names.map.model(),
                k,
            ) by {
                lemma_filter_get(sc0, checkpoint.scalar_names.map.model(), k);
            }
            assert forall|k: Seq<char>| m_has(checkpoint.scalar_names.map.model(), k) && #[trigger] m_has(sc0, k) implies m_get(
                self.scalars.model(),
                k,
            ) == m_get(sc0, k) by {
                lemma_filter_get(sc0, checkpoint.scalar_names.map.model(), k);
            }
            assert forall|k: Seq<char>| #[trigger] m_has(self.strings.model(), k) implies m_get(self.strings.model(), k)
                == m_get(st0, k) by {
                lemma_filter_get(st0, checkpoint.string_names.map.model(), k);
            }
            assert forall|k: Seq<char>| #[trigger] m_has(self.arrays.model(), k) implies m_has(ar0, k) && m_get(
                self.arrays.model(),
                k,
            )->0.len() <= m_get(ar0, k)->0.len() && m_get(self.arrays.model(), k)->0 == m_get(ar0, k)->0.take(
                m_get(self.arrays.model(), k)->0.len() as int,
            ) by {
                lemma_cut_get(ar0, checkpoint.array_lens.model(), k);
                let v = m_get(ar0, k)->0;
                if m_get(self.arrays.model(), k)->0.len() == v.len() {
                    assert(v.take(v.len() as int) =~= v);
                }
            }
        }
    }
}

} // verus!
