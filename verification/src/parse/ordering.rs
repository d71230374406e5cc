//! Orderings between variables: their transitive closure, and pairs in
//! sorted order.

use vstd::prelude::*;
use crate::maps::{chars_lt, pair_view, pairs_add, seq_lt, PairSet};
use crate::text::chars_of;
use crate::parse::normalize::push_new;

verus! {

// ─── transitive closure ─────────────────────────────────────────────────────

/// The endpoints of the pairs, in order of first appearance.
pub open spec fn nodes_of(ps: Seq<(Seq<char>, Seq<char>)>) -> Seq<Seq<char>>
    decreases ps.len(),
{
    if ps.len() == 0 {
        seq![]
    } else {
        push_new(push_new(nodes_of(ps.drop_last()), ps.last().0), ps.last().1)
    }
}

/// `(i, j)` for every `(k, j)` among the first `b` pairs of `cur`, `j` not
/// `k` or `i`.
pub open spec fn row_add(
    r: Seq<(Seq<char>, Seq<char>)>,
    cur: Seq<(Seq<char>, Seq<char>)>,
    i: Seq<char>,
    k: Seq<char>,
    b: int,
) -> Seq<(Seq<char>, Seq<char>)>
    decreases b,
{
    if b <= 0 {
        r
    } else {
        let p = row_add(r, cur, i, k, b - 1);
        let q = cur[b - 1];
        if q.0 == k && q.1 != k && q.1 != i {
            pairs_add(p, (i, q.1))
        } else {
            p
        }
    }
}

/// Every path `i -> k -> j` through `k` among the first `a` pairs of `cur`
/// added as `(i, j)`.
pub open spec fn via_step(
    r: Seq<(Seq<char>, Seq<char>)>,
    cur: Seq<(Seq<char>, Seq<char>)>,
    k: Seq<char>,
    a: int,
) -> Seq<(Seq<char>, Seq<char>)>
    decreases a,
{
    if a <= 0 {
        r
    } else {
        let p = via_step(r, cur, k, a - 1);
        let e = cur[a - 1];
        if e.1 == k && e.0 != k {
            row_add(p, cur, e.0, k, cur.len() as int)
        } else {
            p
        }
    }
}

/// The pairs after the first `n` nodes have served as intermediates.
pub open spec fn closure_upto(ps: Seq<(Seq<char>, Seq<char>)>, nodes: Seq<Seq<char>>, n: int) -> Seq<
    (Seq<char>, Seq<char>),
>
    decreases n,
{
    if n <= 0 {
        ps
    } else {
        let r = closure_upto(ps, nodes, n - 1);
        via_step(r, r, nodes[n - 1], r.len() as int)
    }
}

/// The pairs with every `(a, c)` added for which a path `a -> … -> c` of
/// pairs with distinct ends exists, `a != c` (Warshall's order).
pub open spec fn spec_transitive_closure(ps: Seq<(Seq<char>, Seq<char>)>) -> Seq<(Seq<char>, Seq<char>)> {
    closure_upto(ps, nodes_of(ps), nodes_of(ps).len() as int)
}

fn contains_string(v: &Vec<String>, x: &String) -> (r: bool)
    ensures
        r == crate::text::sv(v@).contains(x@),
{
    let mut i: usize = 0;
    while i < v.len()
        invariant
            i <= v@.len(),
            forall|j: int| 0 <= j < i ==> crate::text::sv(v@)[j] != x@,
        decreases v.len() - i,
    {
        if crate::text::str_eq(v[i].as_str(), x.as_str()) {
            assert(crate::text::sv(v@)[i as int] == x@);
            return true;
        }
        i += 1;
    }
    false
}

fn push_new_exec(v: &mut Vec<String>, x: &String)
    ensures
        crate::text::sv(final(v)@) == push_new(crate::text::sv(old(v)@), x@),
{
    if !contains_string(v, x) {
        let c = x.clone();
        proof {
            crate::text::lemma_sv_push(v@, c);
        }
        v.push(c);
    }
}

fn nodes_exec(ps: &PairSet) -> (r: Vec<String>)
    ensures
        crate::text::sv(r@) == nodes_of(ps.model()),
{
    let ghost m = ps.model();
    let mut out: Vec<String> = Vec::new();
    let mut i: usize = 0;
    assert(m.take(0) =~= Seq::<(Seq<char>, Seq<char>)>::empty());
    assert(crate::text::sv(out@) =~= Seq::<Seq<char>>::empty());
    while i < ps.items.len()
        invariant
            m == ps.model(),
            i <= m.len(),
            crate::text::sv(out@) == nodes_of(m.take(i as int)),
        decreases m.len() - i,
    {
        assert(m.take(i + 1).drop_last() =~= m.take(i as int));
        assert(m.take(i + 1).last() == pair_view(ps.items@[i as int]));
        push_new_exec(&mut out, &ps.items[i].0);
        push_new_exec(&mut out, &ps.items[i].1);
        i += 1;
    }
    assert(m.take(m.len() as int) =~= m);
    out
}

pub fn copy_pairs(ps: &PairSet) -> (r: PairSet)
    ensures
        r.model() == ps.model(),
{
    let mut items: Vec<(String, String)> = Vec::new();
    let mut i: usize = 0;
    while i < ps.items.len()
        invariant
            i <= ps.items@.len(),
            items@.map_values(|p: (String, String)| pair_view(p)) == ps.model().take(i as int),
        decreases ps.items.len() - i,
    {
        let p = (ps.items[i].0.clone(), ps.items[i].1.clone());
        let ghost o = items@;
        items.push(p);
        assert(items@.map_values(|p: (String, String)| pair_view(p)) =~= o.map_values(
            |p: (String, String)| pair_view(p),
        ).push(pair_view(p)));
        assert(ps.model().take(i + 1) =~= ps.model().take(i as int).push(ps.model()[i as int]));
        i += 1;
    }
    assert(ps.model().take(ps.items@.len() as int) =~= ps.model());
    PairSet { items }
}

fn via_step_exec(r: &mut PairSet, cur: &PairSet, k: &String)
    ensures
        final(r).model() == via_step(old(r).model(), cur.model(), k@, cur.model().len() as int),
{
    let ghost c = cur.model();
    let ghost r0 = r.model();
    let mut a: usize = 0;
    while a < cur.items.len()
        invariant
            c == cur.model(),
            a <= c.len(),
            r.model() == via_step(r0, c, k@, a as int),
        decreases c.len() - a,
    {
        assert(c[a as int] == pair_view(cur.items@[a as int]));
        let e0 = &cur.items[a].0;
        let e1 = &cur.items[a].1;
        if crate::text::str_eq(e1.as_str(), k.as_str()) && !crate::text::str_eq(e0.as_str(), k.as_str()) {
            let ghost p = r.model();
            let mut b: usize = 0;
            while b < cur.items.len()
                invariant
                    c == cur.model(),
                    a < c.len(),
                    b <= c.len(),
                    r.model() == row_add(p, c, e0@, k@, b as int),
                decreases c.len() - b,
            {
                assert(c[b as int] == pair_view(cur.items@[b as int]));
                let q0 = &cur.items[b].0;
                let q1 = &cur.items[b].1;
                if crate::text::str_eq(q0.as_str(), k.as_str()) && !crate::text::str_eq(q1.as_str(), k.as_str())
                    && !crate::text::str_eq(q1.as_str(), e0.as_str()) {
                    r.insert((e0.clone(), q1.clone()));
                }
                b += 1;
            }
        }
        a += 1;
    }
}

/// The pairs with every pair `(a, c)`, `a != c`, added that a path of
/// pairs with distinct ends joins.
pub fn transitive_closure_ordering(ordering: PairSet) -> (r: PairSet)
    ensures
        r.model() == spec_transitive_closure(ordering.model()),
{
    let nodes = nodes_exec(&ordering);
    let ghost ns = crate::text::sv(nodes@);
    let ghost p0 = ordering.model();
    let mut r = ordering;
    let mut n: usize = 0;
    while n < nodes.len()
        invariant
            ns == crate::text::sv(nodes@),
            ns == nodes_of(p0),
            n <= ns.len(),
            r.model() == closure_upto(p0, ns, n as int),
        decreases ns.len() - n,
    {
        let cur = copy_pairs(&r);
        assert(ns[n as int] == nodes@[n as int]@);
        via_step_exec(&mut r, &cur, &nodes[n]);
        n += 1;
    }
    r
}

// ─── laws of the closure ────────────────────────────────────────────────────

/// `(x, y)` is joined through `k`: `(x, k)` among the first `a` pairs of
/// `cur`, `(k, y)` among all of them, the three ends distinct.
pub open spec fn joined_via(cur: Seq<(Seq<char>, Seq<char>)>, k: Seq<char>, a: int, x: Seq<char>, y: Seq<char>) -> bool {
    &&& x != k
    &&& y != k
    &&& y != x
    &&& cur.take(a).contains((x, k))
    &&& cur.contains((k, y))
}

proof fn lemma_pairs_add_has(s: Seq<(Seq<char>, Seq<char>)>, p: (Seq<char>, Seq<char>), q: (Seq<char>, Seq<char>))
    ensures
        pairs_add(s, p).contains(q) == (s.contains(q) || q == p),
{
    if !s.contains(p) {
        if s.push(p).contains(q) {
            let i = choose|i: int| 0 <= i < s.push(p).len() && s.push(p)[i] == q;
            if i < s.len() {
                assert(s[i] == q);
            }
        }
        if s.contains(q) {
            let i = choose|i: int| 0 <= i < s.len() && s[i] == q;
            assert(s.push(p)[i] == q);
        }
        assert(s.push(p)[s.len() as int] == p);
    }
}

proof fn lemma_row_add_has(
    r: Seq<(Seq<char>, Seq<char>)>,
    cur: Seq<(Seq<char>, Seq<char>)>,
    i: Seq<char>,
    k: Seq<char>,
    b: int,
    q: (Seq<char>, Seq<char>),
)
    requires
        0 <= b <= cur.len(),
    ensures
        row_add(r, cur, i, k, b).contains(q) == (r.contains(q) || (q.0 == i && q.1 != k && q.1 != i
            && cur.take(b).contains((k, q.1)))),
    decreases b,
{
    if b > 0 {
        lemma_row_add_has(r, cur, i, k, b - 1, q);
        let p = row_add(r, cur, i, k, b - 1);
        let e = cur[b - 1];
        assert(cur.take(b) == cur.take(b - 1).push(e));
        if e.0 == k && e.1 != k && e.1 != i {
            lemma_pairs_add_has(p, (i, e.1), q);
        }
        // what the last pair adds to `take`
        let t0 = cur.take(b - 1);
        let t1 = cur.take(b);
        if t1.contains((k, q.1)) {
            let j = choose|j: int| 0 <= j < t1.len() && t1[j] == (k, q.1);
            if j < b - 1 {
                assert(t0[j] == (k, q.1));
            }
        }
        if t0.contains((k, q.1)) {
            let j = choose|j: int| 0 <= j < t0.len() && t0[j] == (k, q.1);
            assert(t1[j] == (k, q.1));
        }
        assert(t1[b - 1] == e);
    } else {
        assert(cur.take(0).len() == 0);
    }
}

proof fn lemma_via_step_has(
    r: Seq<(Seq<char>, Seq<char>)>,
    cur: Seq<(Seq<char>, Seq<char>)>,
    k: Seq<char>,
    a: int,
    q: (Seq<char>, Seq<char>),
)
    requires
        0 <= a <= cur.len(),
    ensures
        via_step(r, cur, k, a).contains(q) == (r.contains(q) || joined_via(cur, k, a, q.0, q.1)),
    decreases a,
{
    if a > 0 {
        lemma_via_step_has(r, cur, k, a - 1, q);
        let p = via_step(r, cur, k, a - 1);
        let e = cur[a - 1];
        assert(cur.take(a) == cur.take(a - 1).push(e));
        assert(cur.take(a)[a - 1] == e);
        assert(cur.take(cur.len() as int) =~= cur);
        if e.1 == k && e.0 != k {
            lemma_row_add_has(p, cur, e.0, k, cur.len() as int, q);
        }
        let t0 = cur.take(a - 1);
        let t1 = cur.take(a);
        if t1.contains((q.0, k)) {
            let j = choose|j: int| 0 <= j < t1.len() && t1[j] == (q.0, k);
            if j < a - 1 {
                assert(t0[j] == (q.0, k));
            }
        }
        if t0.contains((q.0, k)) {
            let j = choose|j: int| 0 <= j < t0.len() && t0[j] == (q.0, k);
            assert(t1[j] == (q.0, k));
        }
    } else {
        assert(cur.take(0).len() == 0);
    }
}

/// One closure step keeps every pair and adds exactly the pairs joined
/// through `k`.
proof fn lemma_step_has(r: Seq<(Seq<char>, Seq<char>)>, k: Seq<char>, x: Seq<char>, y: Seq<char>)
    ensures
        via_step(r, r, k, r.len() as int).contains((x, y)) == (r.contains((x, y)) || (x != k && y != k && y != x
            && r.contains((x, k)) && r.contains((k, y)))),
{
    lemma_via_step_has(r, r, k, r.len() as int, (x, y));
    assert(r.take(r.len() as int) =~= r);
}

/// Every pair through a node among the first `n` closes: `(a, b)` and
/// `(b, c)` give `(a, c)`.
pub open spec fn closed_through(r: Seq<(Seq<char>, Seq<char>)>, nodes: Seq<Seq<char>>, n: int) -> bool {
    forall|a: Seq<char>, b: Seq<char>, c: Seq<char>|
        #![trigger r.contains((a, b)), r.contains((b, c))]
        nodes.take(n).contains(b) && r.contains((a, b)) && r.contains((b, c)) && a != c ==> r.contains((a, c))
}

proof fn lemma_closure_closed(ps: Seq<(Seq<char>, Seq<char>)>, nodes: Seq<Seq<char>>, n: int)
    requires
        0 <= n <= nodes.len(),
    ensures
        closed_through(closure_upto(ps, nodes, n), nodes, n),
    decreases n,
{
    if n == 0 {
        assert(nodes.take(0).len() == 0);
    } else {
        lemma_closure_closed(ps, nodes, n - 1);
        let r = closure_upto(ps, nodes, n - 1);
        let k = nodes[n - 1];
        let r2 = closure_upto(ps, nodes, n);
        assert(r2 == via_step(r, r, k, r.len() as int));
        assert(nodes.take(n) == nodes.take(n - 1).push(k));
        assert forall|a: Seq<char>, b: Seq<char>, c: Seq<char>|
            nodes.take(n).contains(b) && #[trigger] r2.contains((a, b)) && #[trigger] r2.contains((b, c)) && a != c
            implies r2.contains((a, c)) by {
            lemma_step_has(r, k, a, b);
            lemma_step_has(r, k, b, c);
            lemma_step_has(r, k, a, c);
            lemma_step_has(r, k, a, k);
            lemma_step_has(r, k, k, c);
            // through `k` itself both pairs were there before the step
            if b != k {
                let t0 = nodes.take(n - 1);
                let t1 = nodes.take(n);
                let j = choose|j: int| 0 <= j < t1.len() && t1[j] == b;
                assert(t1[n - 1] == k);
                assert(j < n - 1);
                assert(t0[j] == b);
                assert(t0.contains(b));
                if r.contains((a, b)) && !r.contains((b, c)) {
                    // (b, k) and (k, c) were there: (a, k) closes through b
                    if a != k {
                        assert(r.contains((a, k)));
                    }
                } else if !r.contains((a, b)) && r.contains((b, c)) {
                    // (a, k) and (k, b) were there: (k, c) closes through b
                    if c != k {
                        assert(r.contains((k, c)));
                    }
                }
            }
        }
    }
}

/// Every end of a pair of `s` is one of `nodes`.
pub open spec fn ends_in(s: Seq<(Seq<char>, Seq<char>)>, nodes: Seq<Seq<char>>) -> bool {
    forall|x: Seq<char>, y: Seq<char>| #[trigger] s.contains((x, y)) ==> nodes.contains(x) && nodes.contains(y)
}

proof fn lemma_nodes_of_ends(ps: Seq<(Seq<char>, Seq<char>)>)
    ensures
        ends_in(ps, nodes_of(ps)),
    decreases ps.len(),
{
    if ps.len() > 0 {
        let d = ps.drop_last();
        lemma_nodes_of_ends(d);
        let n0 = nodes_of(d);
        let n1 = push_new(n0, ps.last().0);
        let n2 = push_new(n1, ps.last().1);
        assert(nodes_of(ps) == n2);
        assert forall|z: Seq<char>| n0.contains(z) implies #[trigger] n2.contains(z) by {
            let i = choose|i: int| 0 <= i < n0.len() && n0[i] == z;
            if !n0.contains(ps.last().0) {
                assert(n0.push(ps.last().0)[i] == z);
            }
            assert(n1.contains(z));
            let j = choose|j: int| 0 <= j < n1.len() && n1[j] == z;
            if !n1.contains(ps.last().1) {
                assert(n1.push(ps.last().1)[j] == z);
            }
        }
        assert(n1.contains(ps.last().0)) by {
            if !n0.contains(ps.last().0) {
                assert(n0.push(ps.last().0)[n0.len() as int] == ps.last().0);
            }
        }
        assert(n2.contains(ps.last().0)) by {
            let j = choose|j: int| 0 <= j < n1.len() && n1[j] == ps.last().0;
            if !n1.contains(ps.last().1) {
                assert(n1.push(ps.last().1)[j] == ps.last().0);
            }
        }
        assert(n2.contains(ps.last().1)) by {
            if !n1.contains(ps.last().1) {
                assert(n1.push(ps.last().1)[n1.len() as int] == ps.last().1);
            }
        }
        assert forall|x: Seq<char>, y: Seq<char>| #[trigger] ps.contains((x, y)) implies n2.contains(x) && n2.contains(y) by {
            let i = choose|i: int| 0 <= i < ps.len() && ps[i] == (x, y);
            if i < ps.len() - 1 {
                assert(d[i] == (x, y));
                assert(d.contains((x, y)));
            }
        }
    }
}

proof fn lemma_closure_ends(ps: Seq<(Seq<char>, Seq<char>)>, nodes: Seq<Seq<char>>, n: int)
    requires
        0 <= n <= nodes.len(),
        ends_in(ps, nodes),
    ensures
        ends_in(closure_upto(ps, nodes, n), nodes),
        forall|q: (Seq<char>, Seq<char>)| #[trigger] ps.contains(q) ==> closure_upto(ps, nodes, n).contains(q),
    decreases n,
{
    if n > 0 {
        lemma_closure_ends(ps, nodes, n - 1);
        let r = closure_upto(ps, nodes, n - 1);
        let k = nodes[n - 1];
        let r2 = closure_upto(ps, nodes, n);
        assert forall|x: Seq<char>, y: Seq<char>| #[trigger] r2.contains((x, y)) implies nodes.contains(x) && nodes.contains(y) by {
            lemma_step_has(r, k, x, y);
        }
        assert forall|q: (Seq<char>, Seq<char>)| #[trigger] ps.contains(q) implies r2.contains(q) by {
            lemma_step_has(r, k, q.0, q.1);
        }
    }
}

proof fn lemma_closure_within(
    ps: Seq<(Seq<char>, Seq<char>)>,
    nodes: Seq<Seq<char>>,
    n: int,
    t: Seq<(Seq<char>, Seq<char>)>,
)
    requires
        0 <= n <= nodes.len(),
        forall|q: (Seq<char>, Seq<char>)| #[trigger] ps.contains(q) ==> t.contains(q),
        forall|a: Seq<char>, b: Seq<char>, c: Seq<char>|
            #![trigger t.contains((a, b)), t.contains((b, c))]
            t.contains((a, b)) && t.contains((b, c)) && a != c ==> t.contains((a, c)),
    ensures
        forall|q: (Seq<char>, Seq<char>)| #[trigger] closure_upto(ps, nodes, n).contains(q) ==> t.contains(q),
    decreases n,
{
    if n > 0 {
        lemma_closure_within(ps, nodes, n - 1, t);
        let r = closure_upto(ps, nodes, n - 1);
        let k = nodes[n - 1];
        assert forall|q: (Seq<char>, Seq<char>)| #[trigger] closure_upto(ps, nodes, n).contains(q) implies t.contains(q) by {
            lemma_step_has(r, k, q.0, q.1);
            if !r.contains(q) {
                assert(r.contains((q.0, k)) && r.contains((k, q.1)));
                assert(t.contains((q.0, k)) && t.contains((k, q.1)));
            }
        }
    }
}

/// The closure is the least such set of pairs: any set that holds the
/// given pairs and is transitive (for distinct ends) holds every pair of
/// the closure.
pub proof fn lemma_transitive_closure_least(ps: Seq<(Seq<char>, Seq<char>)>, t: Seq<(Seq<char>, Seq<char>)>)
    requires
        forall|q: (Seq<char>, Seq<char>)| #[trigger] ps.contains(q) ==> t.contains(q),
        forall|a: Seq<char>, b: Seq<char>, c: Seq<char>|
            #![trigger t.contains((a, b)), t.contains((b, c))]
            t.contains((a, b)) && t.contains((b, c)) && a != c ==> t.contains((a, c)),
    ensures
        forall|q: (Seq<char>, Seq<char>)| #[trigger] spec_transitive_closure(ps).contains(q) ==> t.contains(q),
{
    lemma_closure_within(ps, nodes_of(ps), nodes_of(ps).len() as int, t);
}

/// The closure keeps every given pair, and is transitive: pairs
/// `(a, b)` and `(b, c)` of it, `a != c`, give the pair `(a, c)`.
pub proof fn lemma_transitive_closure_laws(
    ps: Seq<(Seq<char>, Seq<char>)>,
    a: Seq<char>,
    b: Seq<char>,
    c: Seq<char>,
)
    ensures
        forall|q: (Seq<char>, Seq<char>)| #[trigger] ps.contains(q) ==> spec_transitive_closure(ps).contains(q),
        spec_transitive_closure(ps).contains((a, b)) && spec_transitive_closure(ps).contains((b, c)) && a != c
            ==> spec_transitive_closure(ps).contains((a, c)),
{
    let ns = nodes_of(ps);
    lemma_nodes_of_ends(ps);
    lemma_closure_ends(ps, ns, ns.len() as int);
    lemma_closure_closed(ps, ns, ns.len() as int);
    let t = spec_transitive_closure(ps);
    assert(ns.take(ns.len() as int) =~= ns);
    if t.contains((a, b)) && t.contains((b, c)) && a != c {
        assert(ns.contains(b));
    }
}

// ─── sorted pairs ───────────────────────────────────────────────────────────

/// Lexicographic order on pairs of texts.
pub open spec fn pair_lt(p: (Seq<char>, Seq<char>), q: (Seq<char>, Seq<char>)) -> bool {
    seq_lt(p.0, q.0) || (p.0 == q.0 && seq_lt(p.1, q.1))
}

/// `p` inserted into an ascending list before the first larger pair; a pair
/// already there is not added again.
pub open spec fn p_insert(s: Seq<(Seq<char>, Seq<char>)>, p: (Seq<char>, Seq<char>)) -> Seq<
    (Seq<char>, Seq<char>),
>
    decreases s.len(),
{
    if s.len() == 0 {
        seq![p]
    } else if s[0] == p {
        s
    } else if pair_lt(p, s[0]) {
        seq![p] + s
    } else {
        seq![s[0]] + p_insert(s.drop_first(), p)
    }
}

pub open spec fn sort_pairs(ps: Seq<(Seq<char>, Seq<char>)>) -> Seq<(Seq<char>, Seq<char>)>
    decreases ps.len(),
{
    if ps.len() == 0 {
        seq![]
    } else {
        p_insert(sort_pairs(ps.drop_last()), ps.last())
    }
}

pub open spec fn arrays_view(v: Seq<[String; 2]>) -> Seq<(Seq<char>, Seq<char>)> {
    crate::parse::types::pairs2_view(v)
}

fn pair_lt_exec(a0: &String, a1: &String, b0: &String, b1: &String) -> (r: bool)
    ensures
        r == pair_lt((a0@, a1@), (b0@, b1@)),
{
    let x0 = chars_of(a0.as_str());
    let y0 = chars_of(b0.as_str());
    if chars_lt(&x0, &y0) {
        return true;
    }
    if !crate::text::chars_eq(&x0, &y0) {
        return false;
    }
    chars_lt(&chars_of(a1.as_str()), &chars_of(b1.as_str()))
}

proof fn lemma_p_insert_at(s: Seq<(Seq<char>, Seq<char>)>, p: (Seq<char>, Seq<char>), i: int)
    requires
        0 <= i <= s.len(),
        forall|j: int| 0 <= j < i ==> #[trigger] s[j] != p && !pair_lt(p, s[j]),
        i < s.len() ==> (s[i] == p || pair_lt(p, s[i])),
    ensures
        i < s.len() && s[i] == p ==> p_insert(s, p) == s,
        !(i < s.len() && s[i] == p) ==> p_insert(s, p) == s.insert(i, p),
    decreases i,
{
    if i == 0 {
        if s.len() > 0 && s[0] != p {
            assert(seq![p] + s =~= s.insert(0, p));
        } else if s.len() == 0 {
            assert(seq![p] =~= s.insert(0, p));
        }
    } else {
        let t = s.drop_first();
        assert forall|j: int| 0 <= j < i - 1 implies #[trigger] t[j] != p && !pair_lt(p, t[j]) by {
            assert(t[j] == s[j + 1]);
        }
        assert(s[0] != p && !pair_lt(p, s[0]));
        lemma_p_insert_at(t, p, i - 1);
        if i < s.len() && s[i] == p {
            assert(seq![s[0]] + t =~= s);
        } else {
            assert(seq![s[0]] + t.insert(i - 1, p) =~= s.insert(i, p));
        }
    }
}

fn p_insert_exec(out: &mut Vec<[String; 2]>, a: &String, b: &String)
    ensures
        arrays_view(final(out)@) == p_insert(arrays_view(old(out)@), (a@, b@)),
{
    let ghost s = arrays_view(out@);
    let mut i: usize = 0;
    while i < out.len()
        invariant
            s == arrays_view(out@),
            i <= s.len(),
            forall|j: int| 0 <= j < i ==> #[trigger] s[j] != (a@, b@) && !pair_lt((a@, b@), s[j]),
        ensures
            s == arrays_view(out@),
            i <= s.len(),
            forall|j: int| 0 <= j < i ==> #[trigger] s[j] != (a@, b@) && !pair_lt((a@, b@), s[j]),
            i < s.len() ==> (s[i as int] != (a@, b@) && pair_lt((a@, b@), s[i as int])),
        decreases out.len() - i,
    {
        assert(s[i as int] == (out@[i as int]@[0]@, out@[i as int]@[1]@));
        let x0 = &out[i][0];
        let x1 = &out[i][1];
        if crate::text::str_eq(x0.as_str(), a.as_str()) && crate::text::str_eq(x1.as_str(), b.as_str()) {
            proof {
                lemma_p_insert_at(s, (a@, b@), i as int);
            }
            return;
        }
        if pair_lt_exec(a, b, x0, x1) {
            break;
        }
        i += 1;
    }
    proof {
        lemma_p_insert_at(s, (a@, b@), i as int);
    }
    let item = [a.clone(), b.clone()];
    assert(crate::parse::types::pair2_view(item) == (a@, b@));
    let ghost o = out@;
    out.insert(i, item);
    assert(out@ =~= o.insert(i as int, item));
    assert(arrays_view(out@) =~= s.insert(i as int, (a@, b@)));
}

/// The pairs as `[a, b]` items in ascending order.
pub fn sorted_pairs(ps: &PairSet) -> (r: Vec<[String; 2]>)
    ensures
        arrays_view(r@) == sort_pairs(ps.model()),
{
    let ghost m = ps.model();
    let mut out: Vec<[String; 2]> = Vec::new();
    let mut i: usize = 0;
    assert(m.take(0) =~= Seq::<(Seq<char>, Seq<char>)>::empty());
    assert(arrays_view(out@) =~= Seq::<(Seq<char>, Seq<char>)>::empty());
    while i < ps.items.len()
        invariant
            m == ps.model(),
            i <= m.len(),
            arrays_view(out@) == sort_pairs(m.take(i as int)),
        decreases m.len() - i,
    {
        assert(m.take(i + 1).drop_last() =~= m.take(i as int));
        assert(m.take(i + 1).last() == pair_view(ps.items@[i as int]));
        p_insert_exec(&mut out, &ps.items[i].0, &ps.items[i].1);
        i += 1;
    }
    assert(m.take(m.len() as int) =~= m);
    out
}

} // verus!
