//! Tightening numeric ranges along the persisted `a <= b` relations.
//!
//! For `a <= b`, a literal upper end of `b` caps `a`, and a literal lower
//! end of `a` raises `b`. Passes are repeated until one changes nothing.
//! Every bound written is a literal already present among the ranges, and
//! each change moves a bound strictly inward, which bounds the passes.

use vstd::prelude::*;
use crate::maps::{lemma_m_set_entries, lemma_m_set_index, m_get, m_set, StrMap};
use crate::parse::types::{
    pairs2_view, BoundRepr, BoundReprM, RandomTestSection, SectionM, VarConstraint,
    VarConstraintM,
};

verus! {

pub open spec fn lit_of(b: BoundReprM) -> Option<i64> {
    match b {
        BoundReprM::Lit(n) => Some(n),
        BoundReprM::Expr(_) => None,
    }
}

/// The range of `n` as it stands in `snap`.
pub open spec fn snap_range(snap: Seq<(Seq<char>, VarConstraintM)>, n: Seq<char>) -> Option<
    (BoundReprM, BoundReprM),
> {
    match m_get(snap, n) {
        Some(v) => v.range,
        None => None,
    }
}

/// `hi` narrows the upper end `up`: `up` is no literal, or a larger one.
pub open spec fn tighter_hi(up: BoundReprM, hi: i64) -> bool {
    match up {
        BoundReprM::Lit(old) => hi < old,
        BoundReprM::Expr(_) => true,
    }
}

/// `lo` narrows the lower end `down`: `down` is no literal, or a smaller one.
pub open spec fn tighter_lo(down: BoundReprM, lo: i64) -> bool {
    match down {
        BoundReprM::Lit(old) => lo > old,
        BoundReprM::Expr(_) => true,
    }
}

/// Cap the upper end of `name` at `hi` where that narrows it.
pub open spec fn lower_hi(
    acc: (Seq<(Seq<char>, VarConstraintM)>, bool),
    name: Seq<char>,
    hi: i64,
) -> (Seq<(Seq<char>, VarConstraintM)>, bool) {
    match m_get(acc.0, name) {
        Some(v) => match v.range {
            Some((lo, up)) => if tighter_hi(up, hi) {
                (m_set(acc.0, name, VarConstraintM { range: Some((lo, BoundReprM::Lit(hi))), ..v }), true)
            } else {
                acc
            },
            None => acc,
        },
        None => acc,
    }
}

/// Raise the lower end of `name` to `lo` where that narrows it.
pub open spec fn raise_lo(
    acc: (Seq<(Seq<char>, VarConstraintM)>, bool),
    name: Seq<char>,
    lo: i64,
) -> (Seq<(Seq<char>, VarConstraintM)>, bool) {
    match m_get(acc.0, name) {
        Some(v) => match v.range {
            Some((down, up)) => if tighter_lo(down, lo) {
                (m_set(acc.0, name, VarConstraintM { range: Some((BoundReprM::Lit(lo), up)), ..v }), true)
            } else {
                acc
            },
            None => acc,
        },
        None => acc,
    }
}

/// One relation `p.0 <= p.1`, its bounds read from `snap`; both sides must
/// have a range there.
pub open spec fn tighten(
    acc: (Seq<(Seq<char>, VarConstraintM)>, bool),
    snap: Seq<(Seq<char>, VarConstraintM)>,
    p: (Seq<char>, Seq<char>),
) -> (Seq<(Seq<char>, VarConstraintM)>, bool) {
    match (snap_range(snap, p.0), snap_range(snap, p.1)) {
        (Some(lr), Some(ur)) => {
            let a1 = match lit_of(ur.1) {
                Some(hi) => lower_hi(acc, p.0, hi),
                None => acc,
            };
            match lit_of(lr.0) {
                Some(lo) => raise_lo(a1, p.1, lo),
                None => a1,
            }
        },
        _ => acc,
    }
}

pub open spec fn tighten_all(
    acc: (Seq<(Seq<char>, VarConstraintM)>, bool),
    snap: Seq<(Seq<char>, VarConstraintM)>,
    ps: Seq<(Seq<char>, Seq<char>)>,
) -> (Seq<(Seq<char>, VarConstraintM)>, bool)
    decreases ps.len(),
{
    if ps.len() == 0 {
        acc
    } else {
        tighten(tighten_all(acc, snap, ps.drop_last()), snap, ps.last())
    }
}

/// One pass over the relations in order, every bound read from the ranges
/// as they stood before the pass; the flag says whether a range changed.
pub open spec fn tighten_round(vars: Seq<(Seq<char>, VarConstraintM)>, ps: Seq<(Seq<char>, Seq<char>)>) -> (
    Seq<(Seq<char>, VarConstraintM)>,
    bool,
) {
    tighten_all((vars, false), vars, ps)
}

/// The ranges after `n` passes.
pub open spec fn tighten_rounds(
    vars: Seq<(Seq<char>, VarConstraintM)>,
    ps: Seq<(Seq<char>, Seq<char>)>,
    n: nat,
) -> Seq<(Seq<char>, VarConstraintM)>
    decreases n,
{
    if n == 0 {
        vars
    } else {
        tighten_round(tighten_rounds(vars, ps, (n - 1) as nat), ps).0
    }
}

// ─── the measure that bounds the passes ─────────────────────────────────────

pub open spec fn count_lt(l: Seq<i64>, h: i64) -> nat
    decreases l.len(),
{
    if l.len() == 0 {
        0
    } else {
        count_lt(l.drop_last(), h) + if l.last() < h {
            1nat
        } else {
            0nat
        }
    }
}

pub open spec fn count_gt(l: Seq<i64>, h: i64) -> nat
    decreases l.len(),
{
    if l.len() == 0 {
        0
    } else {
        count_gt(l.drop_last(), h) + if l.last() > h {
            1nat
        } else {
            0nat
        }
    }
}

pub open spec fn hi_rank(l: Seq<i64>, b: BoundReprM) -> nat {
    match b {
        BoundReprM::Lit(h) => count_lt(l, h),
        BoundReprM::Expr(_) => l.len(),
    }
}

pub open spec fn lo_rank(l: Seq<i64>, b: BoundReprM) -> nat {
    match b {
        BoundReprM::Lit(x) => count_gt(l, x),
        BoundReprM::Expr(_) => l.len(),
    }
}

pub open spec fn entry_rank(l: Seq<i64>, v: VarConstraintM) -> nat {
    match v.range {
        Some((lo, hi)) => lo_rank(l, lo) + hi_rank(l, hi),
        None => 0,
    }
}

pub open spec fn vars_rank(l: Seq<i64>, m: Seq<(Seq<char>, VarConstraintM)>) -> nat
    decreases m.len(),
{
    if m.len() == 0 {
        0
    } else {
        entry_rank(l, m[0].1) + vars_rank(l, m.drop_first())
    }
}

pub open spec fn bound_in(l: Seq<i64>, b: BoundReprM) -> bool {
    match b {
        BoundReprM::Lit(n) => l.contains(n),
        BoundReprM::Expr(_) => true,
    }
}

pub open spec fn entry_in(l: Seq<i64>, v: VarConstraintM) -> bool {
    match v.range {
        Some((lo, hi)) => bound_in(l, lo) && bound_in(l, hi),
        None => true,
    }
}

/// Every literal end of every range is in `l`.
pub open spec fn vars_in(l: Seq<i64>, m: Seq<(Seq<char>, VarConstraintM)>) -> bool {
    forall|i: int| 0 <= i < m.len() ==> entry_in(l, #[trigger] m[i].1)
}

pub open spec fn bound_lits(b: BoundReprM) -> Seq<i64> {
    match b {
        BoundReprM::Lit(n) => seq![n],
        BoundReprM::Expr(_) => seq![],
    }
}

pub open spec fn entry_lits(v: VarConstraintM) -> Seq<i64> {
    match v.range {
        Some((lo, hi)) => bound_lits(lo) + bound_lits(hi),
        None => seq![],
    }
}

/// The literal ends of all ranges.
pub open spec fn range_lits(m: Seq<(Seq<char>, VarConstraintM)>) -> Seq<i64>
    decreases m.len(),
{
    if m.len() == 0 {
        seq![]
    } else {
        entry_lits(m[0].1) + range_lits(m.drop_first())
    }
}

proof fn lemma_count_lt(l: Seq<i64>, a: i64, b: i64)
    requires
        a < b,
    ensures
        count_lt(l, a) <= count_lt(l, b),
        l.contains(a) ==> count_lt(l, a) < count_lt(l, b),
    decreases l.len(),
{
    if l.len() > 0 {
        let t = l.drop_last();
        lemma_count_lt(t, a, b);
        if l.contains(a) && l.last() != a {
            let i = choose|i: int| 0 <= i < l.len() && l[i] == a;
            assert(t[i] == a);
        }
    }
}

proof fn lemma_count_gt(l: Seq<i64>, a: i64, b: i64)
    requires
        a > b,
    ensures
        count_gt(l, a) <= count_gt(l, b),
        l.contains(a) ==> count_gt(l, a) < count_gt(l, b),
    decreases l.len(),
{
    if l.len() > 0 {
        let t = l.drop_last();
        lemma_count_gt(t, a, b);
        if l.contains(a) && l.last() != a {
            let i = choose|i: int| 0 <= i < l.len() && l[i] == a;
            assert(t[i] == a);
        }
    }
}

proof fn lemma_count_below_len(l: Seq<i64>, h: i64)
    ensures
        count_lt(l, h) <= l.len(),
        count_gt(l, h) <= l.len(),
        l.contains(h) ==> count_lt(l, h) < l.len() && count_gt(l, h) < l.len(),
    decreases l.len(),
{
    if l.len() > 0 {
        let t = l.drop_last();
        lemma_count_below_len(t, h);
        if l.contains(h) && l.last() != h {
            let i = choose|i: int| 0 <= i < l.len() && l[i] == h;
            assert(t[i] == h);
        }
    }
}

proof fn lemma_rank_set(l: Seq<i64>, m: Seq<(Seq<char>, VarConstraintM)>, k: Seq<char>, w: VarConstraintM)
    requires
        m_get(m, k) is Some,
    ensures
        vars_rank(l, m_set(m, k, w)) + entry_rank(l, m_get(m, k).unwrap()) == vars_rank(l, m) + entry_rank(
            l,
            w,
        ),
    decreases m.len(),
{
    let r = m_set(m, k, w);
    if m[0].0 == k {
        assert(r.drop_first() =~= m.drop_first());
    } else {
        lemma_rank_set(l, m.drop_first(), k, w);
        assert(r.drop_first() =~= m_set(m.drop_first(), k, w));
    }
}

proof fn lemma_in_get(l: Seq<i64>, m: Seq<(Seq<char>, VarConstraintM)>, k: Seq<char>)
    requires
        vars_in(l, m),
        m_get(m, k) is Some,
    ensures
        entry_in(l, m_get(m, k).unwrap()),
    decreases m.len(),
{
    if m[0].0 != k {
        let t = m.drop_first();
        assert forall|i: int| 0 <= i < t.len() implies entry_in(l, #[trigger] t[i].1) by {
            assert(t[i] == m[i + 1]);
        }
        lemma_in_get(l, t, k);
    } else {
        assert(entry_in(l, m[0].1));
    }
}

proof fn lemma_in_set(l: Seq<i64>, m: Seq<(Seq<char>, VarConstraintM)>, k: Seq<char>, w: VarConstraintM)
    requires
        vars_in(l, m),
        entry_in(l, w),
    ensures
        vars_in(l, m_set(m, k, w)),
{
    lemma_m_set_entries(m, k, w);
    let r = m_set(m, k, w);
    assert forall|i: int| 0 <= i < r.len() implies entry_in(l, #[trigger] r[i].1) by {
        assert(r[i] == m[i] || r[i] == (k, w));
    }
}

proof fn lemma_contains_concat(a: Seq<i64>, b: Seq<i64>, x: i64)
    ensures
        a.contains(x) ==> (a + b).contains(x),
        b.contains(x) ==> (a + b).contains(x),
{
    if a.contains(x) {
        let i = choose|i: int| 0 <= i < a.len() && a[i] == x;
        assert((a + b)[i] == x);
    }
    if b.contains(x) {
        let i = choose|i: int| 0 <= i < b.len() && b[i] == x;
        assert((a + b)[a.len() + i] == x);
    }
}

/// The literal ends collected by `range_lits` cover every range.
proof fn lemma_range_lits(m: Seq<(Seq<char>, VarConstraintM)>)
    ensures
        vars_in(range_lits(m), m),
    decreases m.len(),
{
    if m.len() > 0 {
        let t = m.drop_first();
        lemma_range_lits(t);
        let e = entry_lits(m[0].1);
        let l = range_lits(m);
        assert(l == e + range_lits(t));
        assert forall|i: int| 0 <= i < m.len() implies entry_in(l, #[trigger] m[i].1) by {
            match m[i].1.range {
                Some((lo, hi)) => {
                    if i == 0 {
                        match lo {
                            BoundReprM::Lit(n) => {
                                assert(e[0] == n);
                                lemma_contains_concat(e, range_lits(t), n);
                            },
                            _ => {},
                        }
                        match hi {
                            BoundReprM::Lit(n) => {
                                assert(e[bound_lits(lo).len() as int] == n);
                                lemma_contains_concat(e, range_lits(t), n);
                            },
                            _ => {},
                        }
                    } else {
                        assert(t[i - 1] == m[i]);
                        assert(entry_in(range_lits(t), t[i - 1].1));
                        match lo {
                            BoundReprM::Lit(n) => lemma_contains_concat(e, range_lits(t), n),
                            _ => {},
                        }
                        match hi {
                            BoundReprM::Lit(n) => lemma_contains_concat(e, range_lits(t), n),
                            _ => {},
                        }
                    }
                },
                None => {},
            }
        }
    }
}

/// A step either leaves the state as it is, or sets the flag and strictly
/// lowers the measure; literals stay within `l`.
pub open spec fn step_ok(
    l: Seq<i64>,
    before: (Seq<(Seq<char>, VarConstraintM)>, bool),
    after: (Seq<(Seq<char>, VarConstraintM)>, bool),
) -> bool {
    &&& vars_in(l, after.0)
    &&& (after == before || (after.1 && vars_rank(l, after.0) < vars_rank(l, before.0)))
}

proof fn lemma_lower_hi(l: Seq<i64>, acc: (Seq<(Seq<char>, VarConstraintM)>, bool), name: Seq<char>, hi: i64)
    requires
        vars_in(l, acc.0),
        l.contains(hi),
    ensures
        step_ok(l, acc, lower_hi(acc, name, hi)),
{
    match m_get(acc.0, name) {
        Some(v) => match v.range {
            Some((lo, up)) => if tighter_hi(up, hi) {
                let w = VarConstraintM { range: Some((lo, BoundReprM::Lit(hi))), ..v };
                lemma_in_get(l, acc.0, name);
                lemma_in_set(l, acc.0, name, w);
                lemma_rank_set(l, acc.0, name, w);
                lemma_count_below_len(l, hi);
                match up {
                    BoundReprM::Lit(old) => lemma_count_lt(l, hi, old),
                    _ => {},
                }
            },
            None => {},
        },
        None => {},
    }
}

proof fn lemma_raise_lo(l: Seq<i64>, acc: (Seq<(Seq<char>, VarConstraintM)>, bool), name: Seq<char>, lo: i64)
    requires
        vars_in(l, acc.0),
        l.contains(lo),
    ensures
        step_ok(l, acc, raise_lo(acc, name, lo)),
{
    match m_get(acc.0, name) {
        Some(v) => match v.range {
            Some((down, up)) => if tighter_lo(down, lo) {
                let w = VarConstraintM { range: Some((BoundReprM::Lit(lo), up)), ..v };
                lemma_in_get(l, acc.0, name);
                lemma_in_set(l, acc.0, name, w);
                lemma_rank_set(l, acc.0, name, w);
                lemma_count_below_len(l, lo);
                match down {
                    BoundReprM::Lit(old) => lemma_count_gt(l, lo, old),
                    _ => {},
                }
            },
            None => {},
        },
        None => {},
    }
}

proof fn lemma_tighten(
    l: Seq<i64>,
    acc: (Seq<(Seq<char>, VarConstraintM)>, bool),
    snap: Seq<(Seq<char>, VarConstraintM)>,
    p: (Seq<char>, Seq<char>),
)
    requires
        vars_in(l, acc.0),
        vars_in(l, snap),
    ensures
        step_ok(l, acc, tighten(acc, snap, p)),
{
    match (snap_range(snap, p.0), snap_range(snap, p.1)) {
        (Some(lr), Some(ur)) => {
            lemma_in_get(l, snap, p.0);
            lemma_in_get(l, snap, p.1);
            let a1 = match lit_of(ur.1) {
                Some(hi) => {
                    lemma_lower_hi(l, acc, p.0, hi);
                    lower_hi(acc, p.0, hi)
                },
                None => acc,
            };
            match lit_of(lr.0) {
                Some(lo) => lemma_raise_lo(l, a1, p.1, lo),
                None => {},
            }
        },
        _ => {},
    }
}

proof fn lemma_tighten_all(
    l: Seq<i64>,
    acc: (Seq<(Seq<char>, VarConstraintM)>, bool),
    snap: Seq<(Seq<char>, VarConstraintM)>,
    ps: Seq<(Seq<char>, Seq<char>)>,
)
    requires
        vars_in(l, acc.0),
        vars_in(l, snap),
    ensures
        step_ok(l, acc, tighten_all(acc, snap, ps)),
    decreases ps.len(),
{
    if ps.len() > 0 {
        lemma_tighten_all(l, acc, snap, ps.drop_last());
        lemma_tighten(l, tighten_all(acc, snap, ps.drop_last()), snap, ps.last());
    }
}

// ─── executable passes ──────────────────────────────────────────────────────

fn copy_vars(m: &StrMap<VarConstraint>) -> (r: StrMap<VarConstraint>)
    ensures
        r.model() == m.model(),
{
    let es = m.entries();
    let mut entries: Vec<(String, VarConstraint)> = Vec::new();
    let mut i: usize = 0;
    while i < es.len()
        invariant
            i <= es@.len(),
            entries.deep_view() == es.deep_view().take(i as int),
        decreases es.len() - i,
    {
        let e = (es[i].0.clone(), es[i].1.clone_constraint());
        let ghost before = entries.deep_view();
        entries.push(e);
        assert(entries.deep_view() =~= before.push(e.deep_view()));
        assert(es.deep_view().take(i + 1) =~= es.deep_view().take(i as int).push(
            es.deep_view()[i as int],
        ));
        i += 1;
    }
    assert(es.deep_view().take(es@.len() as int) =~= es.deep_view());
    StrMap::from_sorted(entries)
}

fn lit_of_exec(b: &BoundRepr) -> (r: Option<i64>)
    ensures
        r == lit_of(crate::parse::types::repr_view(*b)),
{
    match b {
        BoundRepr::Lit(n) => Some(*n),
        BoundRepr::Expr(_) => None,
    }
}

fn snap_lits(snap: &StrMap<VarConstraint>, name: &String) -> (r: Option<(Option<i64>, Option<i64>)>)
    ensures
        r == (match snap_range(snap.model(), name@) {
            Some(rg) => Some((lit_of(rg.0), lit_of(rg.1))),
            None => None,
        }),
{
    match snap.get(name.as_str()) {
        Some(v) => match &v.range {
            Some(rg) => Some((lit_of_exec(&rg[0]), lit_of_exec(&rg[1]))),
            None => None,
        },
        None => None,
    }
}

fn lower_hi_exec(vars: &mut StrMap<VarConstraint>, name: &String, hi: i64, changed: &mut bool)
    ensures
        (final(vars).model(), *final(changed)) == lower_hi((old(vars).model(), *old(changed)), name@, hi),
{
    let i = match vars.index_of(name.as_str()) {
        Some(i) => i,
        None => return,
    };
    let c = {
        let v = vars.value_at(i);
        match &v.range {
            Some(rg) => {
                let t = match &rg[1] {
                    BoundRepr::Lit(old) => hi < *old,
                    BoundRepr::Expr(_) => true,
                };
                if t {
                    let mut c = v.clone_constraint();
                    c.range = Some([rg[0].duplicate(), BoundRepr::Lit(hi)]);
                    Some(c)
                } else {
                    None
                }
            },
            None => None,
        }
    };
    match c {
        Some(c) => {
            let ghost m = vars.model();
            let ghost w = c.deep_view();
            vars.set_value_at(i, c);
            proof {
                lemma_m_set_index(m, name@, w, i as int);
            }
            *changed = true;
        },
        None => {},
    }
}

fn raise_lo_exec(vars: &mut StrMap<VarConstraint>, name: &String, lo: i64, changed: &mut bool)
    ensures
        (final(vars).model(), *final(changed)) == raise_lo((old(vars).model(), *old(changed)), name@, lo),
{
    let i = match vars.index_of(name.as_str()) {
        Some(i) => i,
        None => return,
    };
    let c = {
        let v = vars.value_at(i);
        match &v.range {
            Some(rg) => {
                let t = match &rg[0] {
                    BoundRepr::Lit(old) => lo > *old,
                    BoundRepr::Expr(_) => true,
                };
                if t {
                    let mut c = v.clone_constraint();
                    c.range = Some([BoundRepr::Lit(lo), rg[1].duplicate()]);
                    Some(c)
                } else {
                    None
                }
            },
            None => None,
        }
    };
    match c {
        Some(c) => {
            let ghost m = vars.model();
            let ghost w = c.deep_view();
            vars.set_value_at(i, c);
            proof {
                lemma_m_set_index(m, name@, w, i as int);
            }
            *changed = true;
        },
        None => {},
    }
}

fn tighten_exec(
    vars: &mut StrMap<VarConstraint>,
    snap: &StrMap<VarConstraint>,
    a: &String,
    b: &String,
    changed: &mut bool,
)
    ensures
        (final(vars).model(), *final(changed)) == tighten((old(vars).model(), *old(changed)), snap.model(), (a@, b@)),
{
    let lr = snap_lits(snap, a);
    let ur = snap_lits(snap, b);
    match (lr, ur) {
        (Some((llo, _)), Some((_, uhi))) => {
            match uhi {
                Some(hi) => lower_hi_exec(vars, a, hi, changed),
                None => {},
            }
            match llo {
                Some(lo) => raise_lo_exec(vars, b, lo, changed),
                None => {},
            }
        },
        _ => {},
    }
}

fn tighten_round_exec(vars: &mut StrMap<VarConstraint>, ord: &Vec<[String; 2]>) -> (changed: bool)
    ensures
        (final(vars).model(), changed) == tighten_round(old(vars).model(), pairs2_view(ord@)),
{
    let snap = copy_vars(vars);
    let ghost v0 = vars.model();
    let ghost ps = pairs2_view(ord@);
    let mut changed = false;
    let mut i: usize = 0;
    while i < ord.len()
        invariant
            snap.model() == v0,
            ps == pairs2_view(ord@),
            i <= ord@.len(),
            (vars.model(), changed) == tighten_all((v0, false), v0, ps.take(i as int)),
        decreases ord.len() - i,
    {
        assert(ps.take(i + 1).drop_last() =~= ps.take(i as int));
        assert(ps.take(i + 1).last() == (ord@[i as int]@[0]@, ord@[i as int]@[1]@));
        tighten_exec(vars, &snap, &ord[i][0], &ord[i][1], &mut changed);
        i += 1;
    }
    assert(ps.take(ord@.len() as int) =~= ps);
    changed
}

/// Tighten numeric ranges along `ordering` until a pass changes nothing:
/// for `a <= b`, a literal upper end of `b` caps `a` and a literal lower
/// end of `a` raises `b`.
pub fn apply_ordering_range_bounds(section: &mut RandomTestSection)
    ensures
        exists|n: nat|
            final(section).model().vars == tighten_rounds(
                old(section).model().vars,
                old(section).model().ordering,
                n,
            ),
        !tighten_round(final(section).model().vars, old(section).model().ordering).1,
        final(section).model() == (SectionM { vars: final(section).model().vars, ..old(section).model() }),
        // the settled ranges respect every relation `a <= b` whose sides
        // both have ranges: a literal upper end of `b` bounds `a`'s from
        // above, a literal lower end of `a` bounds `b`'s from below
        forall|k: int|
            #![trigger old(section).model().ordering[k]]
            0 <= k < old(section).model().ordering.len() && snap_range(
                final(section).model().vars,
                old(section).model().ordering[k].0,
            ) is Some && snap_range(final(section).model().vars, old(section).model().ordering[k].1) is Some
                ==> {
                let v = final(section).model().vars;
                let p = old(section).model().ordering[k];
                &&& lit_of(snap_range(v, p.1).unwrap().1) matches Some(h) ==> (lit_of(
                    snap_range(v, p.0).unwrap().1,
                ) matches Some(x) && x <= h)
                &&& lit_of(snap_range(v, p.0).unwrap().0) matches Some(lo) ==> (lit_of(
                    snap_range(v, p.1).unwrap().0,
                ) matches Some(y) && y >= lo)
            },
{
    let ghost s0 = section.model();
    let ghost v0 = section.vars.model();
    let ghost ps = s0.ordering;
    let ghost l = range_lits(v0);
    let ghost mut n: nat = 0;
    proof {
        lemma_range_lits(v0);
    }
    loop
        invariant
            s0 == old(section).model(),
            ps == s0.ordering,
            vars_in(l, section.vars.model()),
            section.vars.model() == tighten_rounds(v0, ps, n),
            section.model() == (SectionM { vars: section.vars.model(), ..s0 }),
        ensures
            section.vars.model() == tighten_rounds(v0, ps, n),
            !tighten_round(section.vars.model(), ps).1,
            section.model() == (SectionM { vars: section.vars.model(), ..s0 }),
        decreases vars_rank(l, section.vars.model()),
    {
        let ghost before = section.vars.model();
        let changed = tighten_round_exec(&mut section.vars, &section.ordering);
        proof {
            lemma_tighten_all(l, (before, false), before, ps);
            n = n + 1;
            assert(tighten_rounds(v0, ps, n) == tighten_round(tighten_rounds(v0, ps, (n - 1) as nat), ps).0);
        }
        if !changed {
            assert(section.vars.model() == before);
            break;
        }
    }
    assert(section.vars.model() == tighten_rounds(old(section).model().vars, old(section).model().ordering, n));
    proof {
        let v = section.vars.model();
        assert forall|k: int|
            0 <= k < ps.len() && snap_range(v, #[trigger] ps[k].0) is Some && snap_range(v, ps[k].1) is Some implies {
            &&& lit_of(snap_range(v, ps[k].1).unwrap().1) matches Some(h) ==> (lit_of(
                snap_range(v, ps[k].0).unwrap().1,
            ) matches Some(x) && x <= h)
            &&& lit_of(snap_range(v, ps[k].0).unwrap().0) matches Some(lo) ==> (lit_of(
                snap_range(v, ps[k].1).unwrap().0,
            ) matches Some(y) && y >= lo)
        } by {
            lemma_settled_ranges_respect_ordering(v, ps, k);
        }
    }
}

/// After tightening, every relation `a <= b` whose sides both have ranges
/// holds between the literal ends: `a`'s upper end is a literal no larger
/// than a literal upper end of `b`, and `b`'s lower end a literal no
/// smaller than a literal lower end of `a`.
pub proof fn lemma_settled_ranges_respect_ordering(
    vars: Seq<(Seq<char>, VarConstraintM)>,
    ps: Seq<(Seq<char>, Seq<char>)>,
    k: int,
)
    requires
        !tighten_round(vars, ps).1,
        0 <= k < ps.len(),
        snap_range(vars, ps[k].0) is Some,
        snap_range(vars, ps[k].1) is Some,
    ensures
        lit_of(snap_range(vars, ps[k].1).unwrap().1) matches Some(h) ==> (lit_of(
            snap_range(vars, ps[k].0).unwrap().1,
        ) matches Some(x) && x <= h),
        lit_of(snap_range(vars, ps[k].0).unwrap().0) matches Some(lo) ==> (lit_of(
            snap_range(vars, ps[k].1).unwrap().0,
        ) matches Some(y) && y >= lo),
{
    lemma_unchanged_prefix(vars, ps, ps.len() as int);
    lemma_unchanged_prefix(vars, ps, k + 1);
    lemma_unchanged_prefix(vars, ps, k);
    assert(ps.take(k + 1).drop_last() =~= ps.take(k));
    assert(ps.take(k + 1).last() == ps[k]);
}

/// A pass whose flag stays down changed nothing at any relation.
proof fn lemma_unchanged_prefix(vars: Seq<(Seq<char>, VarConstraintM)>, ps: Seq<(Seq<char>, Seq<char>)>, i: int)
    requires
        !tighten_round(vars, ps).1,
        0 <= i <= ps.len(),
    ensures
        tighten_all((vars, false), vars, ps.take(i)) == (vars, false),
    decreases ps.len() - i,
{
    lemma_flag_sticks(vars, ps, i, ps.len() as int);
    lemma_flag_sticks(vars, ps, i, i);
    assert(ps.take(ps.len() as int) =~= ps);
}

/// Once raised, the flag stays raised; while it is down nothing changed.
proof fn lemma_flag_sticks(vars: Seq<(Seq<char>, VarConstraintM)>, ps: Seq<(Seq<char>, Seq<char>)>, i: int, j: int)
    requires
        0 <= i <= j <= ps.len(),
    ensures
        tighten_all((vars, false), vars, ps.take(i)).1 ==> tighten_all((vars, false), vars, ps.take(j)).1,
        !tighten_all((vars, false), vars, ps.take(j)).1 ==> tighten_all((vars, false), vars, ps.take(j))
            == (vars, false),
    decreases j,
{
    if j > 0 {
        assert(ps.take(j).drop_last() =~= ps.take(j - 1));
        lemma_flag_sticks(vars, ps, if i == j { j - 1 } else { i }, j - 1);
        let acc = tighten_all((vars, false), vars, ps.take(j - 1));
        lemma_tighten_flag(acc, vars, ps.take(j).last());
    } else {
        assert(ps.take(0) =~= Seq::<(Seq<char>, Seq<char>)>::empty());
    }
}

/// A relation step never lowers the flag, and leaves the state alone when
/// it does not raise it.
proof fn lemma_tighten_flag(
    acc: (Seq<(Seq<char>, VarConstraintM)>, bool),
    snap: Seq<(Seq<char>, VarConstraintM)>,
    p: (Seq<char>, Seq<char>),
)
    ensures
        acc.1 ==> tighten(acc, snap, p).1,
        !tighten(acc, snap, p).1 ==> tighten(acc, snap, p) == acc,
{
}

} // verus!
