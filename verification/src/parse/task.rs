//! From a task section to its `random_test:` section: variables and their
//! ranges, the format tree, orderings, inequalities and skipped items.

use vstd::prelude::*;
use crate::maps::{m_get, m_has, m_insert, m_keys, PairSet, StrMap, StrSet};
use crate::text::{chars_of, lemma_sv_push, string_of, sv};
use crate::parse::bounds::{
    resolve_lit, spec_resolve_lit, BoundExpr, BoundM, NumBound, NumBoundM, Side,
};
use crate::parse::constraint_parse::{ConstraintParse, StrSpec, StrSpecM};
use crate::parse::types::{
    block_view, blocks_view, branches_view, default_constraint, lemma_blocks_view_push, range_view,
    repr_view, BoundRepr, BoundReprM, FormatBlock, FormatBlockM, RandomTestSection, SectionM,
    VarConstraint, VarConstraintM, VarType,
};

verus! {

// ─── resolving a variable's range ───────────────────────────────────────────

pub open spec fn placeholder() -> BoundReprM {
    BoundReprM::Expr("_"@)
}

/// `[lo, hi]` of a bound, each resolved to a literal or left as the
/// placeholder `_`; a `usize` without a lower bound starts at `0`.
pub open spec fn spec_resolve_or_placeholder(
    bound: NumBoundM,
    ctx: Seq<(Seq<char>, NumBoundM)>,
    var_type: VarType,
) -> (BoundReprM, BoundReprM) {
    let lo_default = if var_type == VarType::Usize {
        BoundReprM::Lit(0)
    } else {
        placeholder()
    };
    let lo = match bound.0 {
        Some(e) => match spec_resolve_lit(e, ctx, Side::Lo) {
            Some(n) => BoundReprM::Lit(n),
            None => lo_default,
        },
        None => lo_default,
    };
    let hi = match bound.1 {
        Some(e) => match spec_resolve_lit(e, ctx, Side::Hi) {
            Some(n) => BoundReprM::Lit(n),
            None => placeholder(),
        },
        None => placeholder(),
    };
    (lo, hi)
}

pub fn resolve_or_placeholder(bound: &NumBound, ctx: &StrMap<NumBound>, var_type: VarType) -> (r:
    [BoundRepr; 2])
    ensures
        (repr_view(r@[0]), repr_view(r@[1])) == spec_resolve_or_placeholder(
            bound.deep_view(),
            ctx.model(),
            var_type,
        ),
{
    let lo_default = if var_type == VarType::Usize {
        BoundRepr::Lit(0)
    } else {
        BoundRepr::Expr("_".to_string())
    };
    let lo = match &bound.lo {
        Some(e) => match resolve_lit(e, ctx, Side::Lo) {
            Some(n) => BoundRepr::Lit(n),
            None => lo_default,
        },
        None => lo_default,
    };
    let hi = match &bound.hi {
        Some(e) => match resolve_lit(e, ctx, Side::Hi) {
            Some(n) => BoundRepr::Lit(n),
            None => BoundRepr::Expr("_".to_string()),
        },
        None => BoundRepr::Expr("_".to_string()),
    };
    [lo, hi]
}

// ─── the length of a string variable ────────────────────────────────────────

/// How a string's length is written in the section.
#[derive(Debug, PartialEq, Eq)]
pub enum LenResolution {
    /// The length is a variable: both bounds name it with no offset.
    DirectRef(String),
    /// The length is a literal: both bounds are that literal.
    FixedLit(i64),
    /// The length is its own variable `|name|`, ranged by the bounds.
    Synthetic(String),
    /// Nothing is known of the length.
    Unknown,
}

pub enum LenResolutionM {
    DirectRef(Seq<char>),
    FixedLit(i64),
    Synthetic(Seq<char>),
    Unknown,
}

pub open spec fn len_resolution_view(r: LenResolution) -> LenResolutionM {
    match r {
        LenResolution::DirectRef(s) => LenResolutionM::DirectRef(s@),
        LenResolution::FixedLit(n) => LenResolutionM::FixedLit(n),
        LenResolution::Synthetic(s) => LenResolutionM::Synthetic(s@),
        LenResolution::Unknown => LenResolutionM::Unknown,
    }
}

pub open spec fn spec_resolve_len_kind(var_name: Seq<char>, spec: StrSpecM) -> LenResolutionM {
    match (spec.1, spec.2) {
        (Some(BoundM::Var(ln, 0)), Some(BoundM::Var(hn, 0))) if ln == hn => LenResolutionM::DirectRef(
            ln,
        ),
        (Some(BoundM::Lit(a)), Some(BoundM::Lit(b))) if a == b => LenResolutionM::FixedLit(a),
        _ => if spec.1 is Some || spec.2 is Some {
            LenResolutionM::Synthetic(seq!['|'] + var_name + seq!['|'])
        } else {
            LenResolutionM::Unknown
        },
    }
}

pub fn resolve_len_kind(var_name: &str, spec: &StrSpec) -> (r: LenResolution)
    ensures
        len_resolution_view(r) == spec_resolve_len_kind(var_name@, spec.deep_view()),
{
    match (&spec.len_lo, &spec.len_hi) {
        (Some(BoundExpr::Var { name: ln, offset: lo_off }), Some(BoundExpr::Var { name: hn, offset: hi_off })) => {
            if crate::text::str_eq(ln.as_str(), hn.as_str()) && *lo_off == 0 && *hi_off == 0 {
                return LenResolution::DirectRef(ln.clone());
            }
        },
        (Some(BoundExpr::Lit(a)), Some(BoundExpr::Lit(b))) => {
            if *a == *b {
                return LenResolution::FixedLit(*a);
            }
        },
        _ => {},
    }
    if spec.len_lo.is_some() || spec.len_hi.is_some() {
        let mut c: Vec<char> = Vec::new();
        c.push('|');
        crate::text::append_chars(&mut c, &chars_of(var_name));
        c.push('|');
        assert(c@ =~= seq!['|'] + var_name@ + seq!['|']);
        return LenResolution::Synthetic(string_of(&c));
    }
    LenResolution::Unknown
}

// ─── count bounds entailed by sum limits ────────────────────────────────────

/// Division rounding toward zero, as `i64` divides.
pub open spec fn trunc_div(a: int, b: int) -> int {
    if a >= 0 {
        a / b
    } else {
        -((-a) / b)
    }
}

pub open spec fn min_i64(a: i64, b: i64) -> i64 {
    if a <= b {
        a
    } else {
        b
    }
}

/// The bound a sum-limited size variable puts on the count of its
/// repetitions: `floor(limit / lo)` when its lower bound is a literal `>= 1`,
/// the smaller bound kept.
pub open spec fn consider(
    out: Seq<(Seq<char>, i64)>,
    vars: Seq<(Seq<char>, VarConstraintM)>,
    count: Seq<char>,
    size: Seq<char>,
) -> Seq<(Seq<char>, i64)> {
    match m_get(vars, size) {
        None => out,
        Some(s) => match s.sum_limit {
            None => out,
            Some(limit) => match s.range {
                Some((BoundReprM::Lit(lo), _)) => if lo < 1 {
                    out
                } else {
                    let cand = trunc_div(limit as int, lo as int) as i64;
                    match m_get(out, count) {
                        Some(e) => m_insert(out, count, min_i64(e, cand)),
                        None => m_insert(out, count, cand),
                    }
                },
                _ => out,
            },
        },
    }
}

pub open spec fn consider_all(
    out: Seq<(Seq<char>, i64)>,
    vars: Seq<(Seq<char>, VarConstraintM)>,
    count: Seq<char>,
    names: Seq<Seq<char>>,
) -> Seq<(Seq<char>, i64)>
    decreases names.len(),
{
    if names.len() == 0 {
        out
    } else {
        consider(consider_all(out, vars, count, names.drop_last()), vars, count, names.last())
    }
}

pub open spec fn sum_block(
    out: Seq<(Seq<char>, i64)>,
    vars: Seq<(Seq<char>, VarConstraintM)>,
    b: FormatBlockM,
) -> Seq<(Seq<char>, i64)>
    decreases b,
{
    match b {
        FormatBlockM::TestCases { count, format } => {
            let inner = crate::parse::analysis::analyze_blocks(
                crate::parse::analysis::empty_analysis(),
                format,
            );
            sum_blocks(consider_all(out, vars, count, m_keys(inner.referenced)), vars, format)
        },
        FormatBlockM::Array { base, len, height, count, jagged } => if jagged {
            match (count, len) {
                (Some(c), Some(l)) => consider(out, vars, c, l),
                _ => out,
            }
        } else {
            out
        },
        FormatBlockM::Queries { count, discriminator, types } => sum_branches(out, vars, types),
        _ => out,
    }
}

pub open spec fn sum_blocks(
    out: Seq<(Seq<char>, i64)>,
    vars: Seq<(Seq<char>, VarConstraintM)>,
    bs: Seq<FormatBlockM>,
) -> Seq<(Seq<char>, i64)>
    decreases bs,
{
    if bs.len() == 0 {
        out
    } else {
        sum_block(sum_blocks(out, vars, bs.subrange(0, bs.len() - 1)), vars, bs[bs.len() - 1])
    }
}

pub open spec fn sum_branches(
    out: Seq<(Seq<char>, i64)>,
    vars: Seq<(Seq<char>, VarConstraintM)>,
    qs: Seq<(Seq<char>, Seq<FormatBlockM>)>,
) -> Seq<(Seq<char>, i64)>
    decreases qs,
{
    if qs.len() == 0 {
        out
    } else {
        sum_blocks(sum_branches(out, vars, qs.subrange(0, qs.len() - 1)), vars, qs[qs.len() - 1].1)
    }
}

fn consider_exec(out: &mut StrMap<i64>, vars: &StrMap<VarConstraint>, count: &String, size: &String)
    ensures
        final(out).model() == consider(old(out).model(), vars.model(), count@, size@),
{
    let s = match vars.get(size.as_str()) {
        Some(s) => s,
        None => return,
    };
    let limit = match s.sum_limit {
        Some(l) => l,
        None => return,
    };
    let lo = match &s.range {
        Some(rg) => match &rg[0] {
            BoundRepr::Lit(lo) => *lo,
            _ => return,
        },
        None => return,
    };
    if lo < 1 {
        return;
    }
    let cand: i64 = if limit >= 0 {
        limit / lo
    } else {
        let a = (-(limit as i128)) / (lo as i128);
        (-a) as i64
    };
    match out.get(count.as_str()) {
        Some(e) => {
            let m = if *e <= cand {
                *e
            } else {
                cand
            };
            out.insert(count.clone(), m);
        },
        None => {
            out.insert(count.clone(), cand);
        },
    }
}

proof fn lemma_sum_blocks_push(
    out: Seq<(Seq<char>, i64)>,
    vars: Seq<(Seq<char>, VarConstraintM)>,
    bs: Seq<FormatBlockM>,
    b: FormatBlockM,
)
    ensures
        sum_blocks(out, vars, bs.push(b)) == sum_block(sum_blocks(out, vars, bs), vars, b),
{
    assert(bs.push(b).subrange(0, bs.len() as int) =~= bs);
}

fn sum_block_exec(b: &FormatBlock, vars: &StrMap<VarConstraint>, out: &mut StrMap<i64>)
    ensures
        final(out).model() == sum_block(old(out).model(), vars.model(), block_view(*b)),
    decreases b,
{
    match b {
        FormatBlock::TestCases(tc) => {
            let inner = crate::parse::analysis::analyze_format(&tc.format);
            let ghost names = m_keys(inner.referenced_names.map.model());
            let ghost o0 = out.model();
            let mut i: usize = 0;
            assert(names.take(0) =~= Seq::<Seq<char>>::empty());
            while i < inner.referenced_names.len()
                invariant
                    names == m_keys(inner.referenced_names.map.model()),
                    i <= names.len(),
                    out.model() == consider_all(o0, vars.model(), tc.count@, names.take(i as int)),
                decreases names.len() - i,
            {
                assert(names.take(i + 1).drop_last() =~= names.take(i as int));
                let name = inner.referenced_names.item_at(i);
                assert(names.take(i + 1).last() == name@);
                consider_exec(out, vars, &tc.count, name);
                i += 1;
            }
            assert(names.take(names.len() as int) =~= names);
            sum_blocks_exec(&tc.format, vars, out);
        },
        FormatBlock::Array(ab) => {
            if ab.jagged {
                match (&ab.count, &ab.len) {
                    (Some(c), Some(l)) => consider_exec(out, vars, c, l),
                    _ => {},
                }
            }
        },
        FormatBlock::Queries(q) => {
            let ghost o0 = out.model();
            let ghost qs = q.types@;
            let mut j: usize = 0;
            while j < q.types.len()
                invariant
                    *b == FormatBlock::Queries(*q),
                    qs == q.types@,
                    j <= qs.len(),
                    out.model() == sum_branches(o0, vars.model(), branches_view(qs.subrange(0, j as int))),
                decreases q.types.len() - j,
            {
                proof {
                    assert(qs.subrange(0, j + 1).subrange(0, j as int) =~= qs.subrange(0, j as int));
                    let bv = branches_view(qs.subrange(0, j + 1));
                    crate::parse::types::lemma_branches_view_index(qs.subrange(0, j + 1), j as int);
                    assert(bv.subrange(0, bv.len() - 1) =~= branches_view(qs.subrange(0, j as int)));
                    assert((*b)->Queries_0 == *q);
                    assert(decreases_to!(*b => (*b)->Queries_0));
                    assert(decreases_to!(*q => q.types));
                    assert(decreases_to!(q.types => q.types@));
                    assert(decreases_to!(q.types@ => q.types@[j as int]));
                    assert(decreases_to!(q.types@[j as int] => q.types@[j as int].format));
                }
                sum_blocks_exec(&q.types[j].format, vars, out);
                j += 1;
            }
            assert(qs.subrange(0, qs.len() as int) =~= qs);
        },
        _ => {},
    }
}

fn sum_blocks_exec(blocks: &Vec<FormatBlock>, vars: &StrMap<VarConstraint>, out: &mut StrMap<i64>)
    ensures
        final(out).model() == sum_blocks(old(out).model(), vars.model(), blocks_view(blocks@)),
    decreases blocks,
{
    let ghost o0 = out.model();
    let ghost bs = blocks@;
    let mut i: usize = 0;
    while i < blocks.len()
        invariant
            bs == blocks@,
            i <= bs.len(),
            out.model() == sum_blocks(o0, vars.model(), blocks_view(bs.subrange(0, i as int))),
        decreases blocks.len() - i,
    {
        proof {
            assert(bs.subrange(0, i + 1) =~= bs.subrange(0, i as int).push(bs[i as int]));
            lemma_blocks_view_push(bs.subrange(0, i as int), bs[i as int]);
            lemma_sum_blocks_push(
                o0,
                vars.model(),
                blocks_view(bs.subrange(0, i as int)),
                block_view(bs[i as int]),
            );
        }
        sum_block_exec(&blocks[i], vars, out);
        i += 1;
    }
    assert(bs.subrange(0, bs.len() as int) =~= bs);
}

/// Per count variable, the tightest upper bound the sum-limited size
/// variables it repeats entail: test-case counts over the variables of
/// their body, jagged row counts over their row length.
pub fn collect_sum_count_bounds(blocks: &Vec<FormatBlock>, vars: &StrMap<VarConstraint>, out: &mut StrMap<i64>)
    ensures
        final(out).model() == sum_blocks(old(out).model(), vars.model(), blocks_view(blocks@)),
{
    sum_blocks_exec(blocks, vars, out);
}

/// The range a count bound `hi` gives a variable: a new `[0, hi]`, or the
/// placeholder upper end replaced unless that would reverse the range; a
/// stated upper bound is kept.
pub open spec fn apply_count(vars: Seq<(Seq<char>, VarConstraintM)>, c: Seq<char>, hi: i64) -> Seq<
    (Seq<char>, VarConstraintM),
> {
    if hi < 1 {
        vars
    } else {
        match m_get(vars, c) {
            None => vars,
            Some(v) => match v.range {
                None => m_insert(
                    vars,
                    c,
                    VarConstraintM { range: Some((BoundReprM::Lit(0), BoundReprM::Lit(hi))), ..v },
                ),
                Some((lo, up)) => if up == placeholder() {
                    match lo {
                        BoundReprM::Lit(lc) => if hi < lc {
                            vars
                        } else {
                            m_insert(vars, c, VarConstraintM { range: Some((lo, BoundReprM::Lit(hi))), ..v })
                        },
                        _ => m_insert(vars, c, VarConstraintM { range: Some((lo, BoundReprM::Lit(hi))), ..v }),
                    }
                } else {
                    vars
                },
            },
        }
    }
}

pub open spec fn apply_counts(vars: Seq<(Seq<char>, VarConstraintM)>, derived: Seq<(Seq<char>, i64)>) -> Seq<
    (Seq<char>, VarConstraintM),
>
    decreases derived.len(),
{
    if derived.len() == 0 {
        vars
    } else {
        apply_count(apply_counts(vars, derived.drop_last()), derived.last().0, derived.last().1)
    }
}

fn is_placeholder(b: &BoundRepr) -> (r: bool)
    ensures
        r == (repr_view(*b) == placeholder()),
{
    match b {
        BoundRepr::Expr(s) => crate::text::str_eq(s.as_str(), "_"),
        BoundRepr::Lit(_) => false,
    }
}

fn apply_count_exec(vars: &mut StrMap<VarConstraint>, c: &String, hi: i64)
    ensures
        final(vars).model() == apply_count(old(vars).model(), c@, hi),
{
    if hi < 1 {
        return;
    }
    let v = match vars.get(c.as_str()) {
        Some(v) => v.clone_constraint(),
        None => return,
    };
    let new_range = match &v.range {
        None => Some([BoundRepr::Lit(0), BoundRepr::Lit(hi)]),
        Some(rg) => {
            if is_placeholder(&rg[1]) {
                match &rg[0] {
                    BoundRepr::Lit(lc) => {
                        if hi < *lc {
                            None
                        } else {
                            Some([BoundRepr::Lit(*lc), BoundRepr::Lit(hi)])
                        }
                    },
                    BoundRepr::Expr(p) => Some([BoundRepr::Expr(p.clone()), BoundRepr::Lit(hi)]),
                }
            } else {
                None
            }
        },
    };
    match new_range {
        Some(r) => {
            let mut v2 = v;
            v2.range = Some(r);
            vars.insert(c.clone(), v2);
        },
        None => {},
    }
}

/// Give each sum-limit count variable without a stated upper bound the
/// bound its sum limits entail.
pub fn apply_sum_count_bounds(section: &mut RandomTestSection)
    ensures
        final(section).model() == (SectionM {
            vars: apply_counts(
                old(section).model().vars,
                sum_blocks(seq![], old(section).model().vars, old(section).model().format),
            ),
            ..old(section).model()
        }),
{
    let mut derived: StrMap<i64> = StrMap::new();
    collect_sum_count_bounds(&section.format, &section.vars, &mut derived);
    let ghost d = derived.model();
    let ghost v0 = section.vars.model();
    let ghost s0 = section.model();
    let mut i: usize = 0;
    assert(d.take(0) =~= Seq::<(Seq<char>, i64)>::empty());
    while i < derived.len()
        invariant
            d == derived.model(),
            i <= d.len(),
            section.model() == (SectionM { vars: apply_counts(v0, d.take(i as int)), ..s0 }),
        decreases d.len() - i,
    {
        assert(d.take(i + 1).drop_last() =~= d.take(i as int));
        let c = derived.key_at(i);
        let hi = *derived.value_at(i);
        assert(d.take(i + 1).last() == (c@, hi));
        apply_count_exec(&mut section.vars, c, hi);
        i += 1;
    }
    assert(d.take(d.len() as int) =~= d);
}

} // verus!

verus! {

// ─── the section's skeleton: variables and format ───────────────────────────

pub open spec fn char_strings(cs: Seq<char>) -> Seq<Seq<char>> {
    cs.map_values(|c: char| seq![c])
}

pub open spec fn chars_constraint(cs: Seq<char>) -> VarConstraintM {
    VarConstraintM { var_type: VarType::Chars, values: Some(char_strings(cs)), ..default_constraint() }
}

/// Every string variable as `Chars` with its alphabet as values.
pub open spec fn string_vars(m: Seq<(Seq<char>, VarConstraintM)>, sv: Seq<(Seq<char>, StrSpecM)>) -> Seq<
    (Seq<char>, VarConstraintM),
>
    decreases sv.len(),
{
    if sv.len() == 0 {
        m
    } else {
        m_insert(string_vars(m, sv.drop_last()), sv.last().0, chars_constraint(sv.last().1.0))
    }
}

/// Every numeric variable that is not a string, as `usize`.
pub open spec fn numeric_vars(m: Seq<(Seq<char>, VarConstraintM)>, nv: Seq<(Seq<char>, NumBoundM)>) -> Seq<
    (Seq<char>, VarConstraintM),
>
    decreases nv.len(),
{
    if nv.len() == 0 {
        m
    } else {
        let p = numeric_vars(m, nv.drop_last());
        if m_has(p, nv.last().0) {
            p
        } else {
            m_insert(p, nv.last().0, default_constraint())
        }
    }
}

pub open spec fn spec_initial_vars(parsed: crate::parse::constraint_parse::ConstraintParseM) -> Seq<
    (Seq<char>, VarConstraintM),
> {
    numeric_vars(string_vars(seq![], parsed.str_vars), parsed.num_vars)
}

fn char_strings_exec(cs: &Vec<char>) -> (r: Vec<String>)
    ensures
        sv(r@) == char_strings(cs@),
{
    let mut out: Vec<String> = Vec::new();
    let mut i: usize = 0;
    while i < cs.len()
        invariant
            i <= cs@.len(),
            sv(out@) == char_strings(cs@).take(i as int),
        decreases cs.len() - i,
    {
        let mut v: Vec<char> = Vec::new();
        v.push(cs[i]);
        let s = string_of(&v);
        proof {
            lemma_sv_push(out@, s);
            assert(v@ =~= seq![cs@[i as int]]);
            assert(char_strings(cs@).take(i + 1) =~= char_strings(cs@).take(i as int).push(s@));
        }
        out.push(s);
        i += 1;
    }
    assert(char_strings(cs@).take(cs@.len() as int) =~= char_strings(cs@));
    out
}

/// The variables a constraint parse declares: strings as `Chars` with
/// their alphabet, other variables as `usize`.
pub fn initial_vars(parsed: &ConstraintParse) -> (r: StrMap<VarConstraint>)
    ensures
        r.model() == spec_initial_vars(parsed.model()),
{
    let mut vars: StrMap<VarConstraint> = StrMap::new();
    let ghost s = parsed.str_vars.model();
    let mut i: usize = 0;
    assert(s.take(0) =~= Seq::<(Seq<char>, StrSpecM)>::empty());
    while i < parsed.str_vars.len()
        invariant
            s == parsed.str_vars.model(),
            i <= s.len(),
            vars.model() == string_vars(seq![], s.take(i as int)),
        decreases s.len() - i,
    {
        assert(s.take(i + 1).drop_last() =~= s.take(i as int));
        let name = parsed.str_vars.key_at(i);
        let spec = parsed.str_vars.value_at(i);
        assert(s.take(i + 1).last() == (name@, spec.deep_view()));
        let vc = VarConstraint {
            var_type: VarType::Chars,
            range: None,
            values: Some(char_strings_exec(&spec.charset)),
            len: None,
            sum_limit: None,
            all_distinct: false,
        };
        vars.insert(name.clone(), vc);
        i += 1;
    }
    assert(s.take(s.len() as int) =~= s);
    let ghost n = parsed.num_vars.model();
    let ghost v1 = vars.model();
    let mut j: usize = 0;
    assert(n.take(0) =~= Seq::<(Seq<char>, NumBoundM)>::empty());
    while j < parsed.num_vars.len()
        invariant
            n == parsed.num_vars.model(),
            j <= n.len(),
            vars.model() == numeric_vars(v1, n.take(j as int)),
        decreases n.len() - j,
    {
        assert(n.take(j + 1).drop_last() =~= n.take(j as int));
        let name = parsed.num_vars.key_at(j);
        assert(n.take(j + 1).last().0 == name@);
        if !vars.contains_key(name.as_str()) {
            vars.insert(name.clone(), VarConstraint::new());
        }
        j += 1;
    }
    assert(n.take(n.len() as int) =~= n);
    vars
}

/// The lines of all blocks, in order.
pub open spec fn flat_lines(blocks: Seq<Seq<Seq<char>>>) -> Seq<Seq<char>>
    decreases blocks.len(),
{
    if blocks.len() == 0 {
        seq![]
    } else {
        flat_lines(blocks.drop_last()) + blocks.last()
    }
}

pub open spec fn blocks_lines(b: Seq<Vec<String>>) -> Seq<Seq<Seq<char>>> {
    b.map_values(|v: Vec<String>| sv(v@))
}

fn flat_lines_exec(blocks: &Vec<Vec<String>>) -> (r: Vec<String>)
    ensures
        sv(r@) == flat_lines(blocks_lines(blocks@)),
{
    let ghost bl = blocks_lines(blocks@);
    let mut out: Vec<String> = Vec::new();
    let mut i: usize = 0;
    assert(bl.take(0) =~= Seq::<Seq<Seq<char>>>::empty());
    assert(sv(out@) =~= Seq::<Seq<char>>::empty());
    while i < blocks.len()
        invariant
            bl == blocks_lines(blocks@),
            i <= blocks@.len(),
            sv(out@) == flat_lines(bl.take(i as int)),
        decreases blocks.len() - i,
    {
        assert(bl.take(i + 1).drop_last() =~= bl.take(i as int));
        assert(bl.take(i + 1).last() == sv(blocks@[i as int]@));
        let mut k: usize = 0;
        let ghost o = sv(out@);
        while k < blocks[i].len()
            invariant
                i < blocks@.len(),
                k <= blocks@[i as int]@.len(),
                sv(out@) == o + sv(blocks@[i as int]@).take(k as int),
            decreases blocks@[i as int]@.len() - k,
        {
            let s = blocks[i][k].clone();
            proof {
                lemma_sv_push(out@, s);
                assert(o + sv(blocks@[i as int]@).take(k + 1) =~= (o + sv(blocks@[i as int]@).take(
                    k as int,
                )).push(s@));
            }
            out.push(s);
            k += 1;
        }
        assert(sv(blocks@[i as int]@).take(blocks@[i as int]@.len() as int) =~= sv(
            blocks@[i as int]@,
        ));
        i += 1;
    }
    assert(bl.take(blocks@.len() as int) =~= bl);
    out
}

/// The subscript of the first placeholder line (`case`, or `query` when
/// `query`) that names one.
pub open spec fn first_subscript(lines: Seq<Seq<char>>, query: bool) -> Option<Seq<char>>
    decreases lines.len(),
{
    if lines.len() == 0 {
        None
    } else {
        let l = lines[0];
        let found = if query {
            if crate::parse::normalize::spec_is_query_placeholder_line(l) {
                crate::parse::normalize::spec_extract_keyword_subscript(l, "query"@)
            } else {
                None
            }
        } else {
            if crate::parse::normalize::spec_is_case_placeholder_line(l) {
                crate::parse::normalize::spec_extract_keyword_subscript(l, "case"@)
            } else {
                None
            }
        };
        match found {
            Some(s) => Some(s),
            None => first_subscript(lines.drop_first(), query),
        }
    }
}

fn first_subscript_exec(lines: &Vec<String>, query: bool) -> (r: Option<String>)
    ensures
        match r {
            Some(s) => first_subscript(sv(lines@), query) == Some(s@),
            None => first_subscript(sv(lines@), query) is None,
        },
{
    let ghost ls = sv(lines@);
    let mut i: usize = 0;
    assert(ls.skip(0) =~= ls);
    while i < lines.len()
        invariant
            ls == sv(lines@),
            i <= ls.len(),
            first_subscript(ls.skip(i as int), query) == first_subscript(ls, query),
        decreases lines.len() - i,
    {
        assert(ls.skip(i as int)[0] == lines@[i as int]@);
        assert(ls.skip(i as int).drop_first() =~= ls.skip(i + 1));
        let l = lines[i].as_str();
        let found = if query {
            if crate::parse::normalize::is_query_placeholder_line(l) {
                crate::parse::normalize::extract_query_subscript(l)
            } else {
                None
            }
        } else {
            if crate::parse::normalize::is_case_placeholder_line(l) {
                crate::parse::normalize::extract_case_subscript(l)
            } else {
                None
            }
        };
        match found {
            Some(s) => return Some(s),
            None => {},
        }
        i += 1;
    }
    assert(ls.skip(i as int).len() == 0);
    None
}

pub open spec fn any_case_line(lines: Seq<Seq<char>>) -> bool {
    exists|i: int| 0 <= i < lines.len() && crate::parse::normalize::spec_is_case_placeholder_line(
        #[trigger] lines[i],
    )
}

pub open spec fn any_query_line(lines: Seq<Seq<char>>) -> bool {
    exists|i: int| 0 <= i < lines.len() && crate::parse::normalize::spec_is_query_placeholder_line(
        #[trigger] lines[i],
    )
}

fn any_placeholder(lines: &Vec<String>, query: bool) -> (r: bool)
    ensures
        r == if query {
            any_query_line(sv(lines@))
        } else {
            any_case_line(sv(lines@))
        },
{
    let ghost ls = sv(lines@);
    let mut i: usize = 0;
    while i < lines.len()
        invariant
            ls == sv(lines@),
            i <= ls.len(),
            forall|j: int|
                0 <= j < i ==> !(if query {
                    crate::parse::normalize::spec_is_query_placeholder_line(#[trigger] ls[j])
                } else {
                    crate::parse::normalize::spec_is_case_placeholder_line(ls[j])
                }),
        decreases lines.len() - i,
    {
        assert(ls[i as int] == lines@[i as int]@);
        let hit = if query {
            crate::parse::normalize::is_query_placeholder_line(lines[i].as_str())
        } else {
            crate::parse::normalize::is_case_placeholder_line(lines[i].as_str())
        };
        if hit {
            return true;
        }
        i += 1;
    }
    false
}

} // verus!

verus! {

// ─── query branches ─────────────────────────────────────────────────────────

/// A query operand's variable: its base when it has one, else its snake
/// case.
pub open spec fn operand_name(t: Seq<char>) -> Seq<char> {
    match crate::parse::normalize::spec_base_var(t) {
        Some(b) => b,
        None => crate::parse::normalize::spec_snake(t),
    }
}

pub open spec fn operand_names(ts: Seq<Seq<char>>) -> Seq<Seq<char>> {
    ts.map_values(|t: Seq<char>| operand_name(t))
}

/// Query blocks seen so far: numbered branches, symbol-named ones, the
/// first symbol, and whether the symbols differ.
pub struct QueryScanM {
    pub numeric: Seq<(Seq<char>, Seq<FormatBlockM>)>,
    pub sym: Seq<(Seq<char>, Seq<Seq<char>>)>,
    pub sym_name: Option<Seq<char>>,
    pub mixed: bool,
}

pub open spec fn query_scan_step(acc: QueryScanM, b: Seq<Seq<char>>) -> QueryScanM {
    if b.len() != 1 {
        acc
    } else {
        let toks = crate::text::spec_split_ws(b[0]);
        if toks.len() == 0 {
            acc
        } else if crate::text::spec_parse_i32(toks[0]) is Some {
            let fmt = if toks.len() > 1 {
                seq![FormatBlockM::Scalars(operand_names(toks.skip(1)))]
            } else {
                Seq::<FormatBlockM>::empty()
            };
            QueryScanM { numeric: acc.numeric.push((toks[0], fmt)), ..acc }
        } else {
            let name = crate::parse::normalize::spec_snake(toks[0]);
            let (sym_name, mixed) = match acc.sym_name {
                Some(p) => (Some(p), acc.mixed || p != name),
                None => (Some(name), acc.mixed),
            };
            QueryScanM {
                sym: acc.sym.push((name, operand_names(toks.skip(1)))),
                sym_name,
                mixed,
                ..acc
            }
        }
    }
}

/// The blocks after the first, scanned in order.
pub open spec fn query_scan(blocks: Seq<Seq<Seq<char>>>, k: int) -> QueryScanM
    decreases k,
{
    if k <= 1 {
        QueryScanM { numeric: seq![], sym: seq![], sym_name: None, mixed: false }
    } else {
        query_scan_step(query_scan(blocks, k - 1), blocks[k - 1])
    }
}

pub open spec fn sym_branches(sym: Seq<(Seq<char>, Seq<Seq<char>>)>) -> Seq<(Seq<char>, Seq<FormatBlockM>)> {
    Seq::new(
        sym.len(),
        |i: int|
            (
                crate::text::spec_int_chars(i + 1),
                if sym[i].1.len() == 0 {
                    Seq::<FormatBlockM>::empty()
                } else {
                    seq![FormatBlockM::Scalars(sym[i].1)]
                },
            ),
    )
}

/// The discriminator and branches of a multi-block query section, and
/// whether they could not be told apart.
pub open spec fn spec_query_branches(blocks: Seq<Seq<Seq<char>>>) -> (
    Option<Seq<char>>,
    Seq<(Seq<char>, Seq<FormatBlockM>)>,
    bool,
) {
    let s = query_scan(blocks, blocks.len() as int);
    if s.numeric.len() > 0 {
        (None, s.numeric, false)
    } else if s.sym.len() > 0 && !s.mixed {
        (s.sym_name, sym_branches(s.sym), false)
    } else {
        (s.sym_name, seq![], true)
    }
}

fn operand_names_exec(toks: &Vec<Vec<char>>, from: usize) -> (r: Vec<String>)
    requires
        from <= toks@.len(),
    ensures
        sv(r@) == operand_names(crate::text::vv(toks@).skip(from as int)),
{
    let ghost ts = crate::text::vv(toks@).skip(from as int);
    let mut out: Vec<String> = Vec::new();
    let mut i = from;
    while i < toks.len()
        invariant
            ts == crate::text::vv(toks@).skip(from as int),
            from <= i <= toks@.len(),
            sv(out@) == operand_names(ts).take(i - from),
        decreases toks.len() - i,
    {
        let t = string_of(&toks[i]);
        let name = match crate::parse::normalize::base_var(t.as_str()) {
            Some(b) => b,
            None => crate::parse::normalize::snake(t.as_str()),
        };
        proof {
            lemma_sv_push(out@, name);
            assert(ts[i - from] == toks@[i as int]@);
            assert(operand_names(ts).take(i - from + 1) =~= operand_names(ts).take(i - from).push(
                name@,
            ));
        }
        out.push(name);
        i += 1;
    }
    assert(operand_names(ts).take(toks@.len() - from) =~= operand_names(ts));
    out
}

pub open spec fn numeric_view(v: Seq<crate::parse::types::QueryBranch>) -> Seq<(Seq<char>, Seq<FormatBlockM>)> {
    branches_view(v)
}

pub open spec fn sym_view(v: Seq<(String, Vec<String>)>) -> Seq<(Seq<char>, Seq<Seq<char>>)> {
    v.map_values(|p: (String, Vec<String>)| (p.0@, sv(p.1@)))
}

#[verifier::rlimit(30)]
pub fn query_branches(blocks: &Vec<Vec<String>>) -> (r: (Option<String>, Vec<crate::parse::types::QueryBranch>, bool))
    ensures
        (crate::regex_ops::opt_view(r.0), branches_view(r.1@), r.2) == spec_query_branches(
            blocks_lines(blocks@),
        ),
{
    let ghost bl = blocks_lines(blocks@);
    let mut numeric: Vec<crate::parse::types::QueryBranch> = Vec::new();
    let mut sym: Vec<(String, Vec<String>)> = Vec::new();
    let mut sym_name: Option<String> = None;
    let mut mixed = false;
    let mut i: usize = 1;
    assert(branches_view(numeric@) =~= Seq::<(Seq<char>, Seq<FormatBlockM>)>::empty());
    assert(sym_view(sym@) =~= Seq::<(Seq<char>, Seq<Seq<char>>)>::empty());
    while i < blocks.len()
        invariant
            bl == blocks_lines(blocks@),
            1 <= i,
            i <= blocks@.len() || (blocks@.len() == 0 && i == 1),
            query_scan(bl, i as int) == (QueryScanM {
                numeric: branches_view(numeric@),
                sym: sym_view(sym@),
                sym_name: crate::regex_ops::opt_view(sym_name),
                mixed,
            }),
        decreases blocks.len() - i,
    {
        assert(bl[i as int] == sv(blocks@[i as int]@));
        let b = &blocks[i];
        if b.len() == 1 {
            assert(sv(b@)[0] == b@[0]@);
            let toks = crate::text::split_ws(&chars_of(b[0].as_str()));
            if toks.len() > 0 {
                assert(crate::text::vv(toks@)[0] == toks@[0]@);
                let t0 = string_of(&toks[0]);
                if crate::text::parse_i32(&toks[0]).is_some() {
                    let mut fmt: Vec<FormatBlock> = Vec::new();
                    if toks.len() > 1 {
                        let vars = operand_names_exec(&toks, 1);
                        let blk = FormatBlock::Scalars(crate::parse::types::ScalarsBlock { vars });
                        proof {
                            lemma_blocks_view_push(fmt@, blk);
                        }
                        fmt.push(blk);
                    }
                    assert(blocks_view(fmt@) == (if toks@.len() > 1 {
                        seq![FormatBlockM::Scalars(operand_names(crate::text::vv(toks@).skip(1)))]
                    } else {
                        Seq::<FormatBlockM>::empty()
                    })) by {
                        if toks@.len() <= 1 {
                            assert(blocks_view(fmt@) =~= Seq::<FormatBlockM>::empty());
                        }
                    }
                    let br = crate::parse::types::QueryBranch { id: t0, format: fmt };
                    let ghost n0 = numeric@;
                    numeric.push(br);
                    proof {
                        assert(numeric@ =~= n0.push(br));
                        assert(numeric@.subrange(0, n0.len() as int) =~= n0);
                    }
                } else {
                    let name = crate::parse::normalize::snake(t0.as_str());
                    match &sym_name {
                        Some(p) => {
                            if !crate::text::str_eq(p.as_str(), name.as_str()) {
                                mixed = true;
                            }
                        },
                        None => {
                            sym_name = Some(name.clone());
                        },
                    }
                    let rest = operand_names_exec(&toks, 1);
                    let ghost s0 = sym@;
                    let ghost entry = (name, rest);
                    sym.push((name, rest));
                    assert(sym_view(sym@) =~= sym_view(s0).push((entry.0@, sv(entry.1@))));
                }
            }
        }
        i += 1;
    }
    proof {
        if bl.len() == 0 {
            assert(query_scan(bl, 0) == query_scan(bl, i as int));
        }
        crate::parse::types::lemma_branches_view_len(numeric@);
    }
    if numeric.len() > 0 {
        return (None, numeric, false);
    }
    if sym.len() > 0 && !mixed {
        let mut types: Vec<crate::parse::types::QueryBranch> = Vec::new();
        let mut k: usize = 0;
        let ghost sv0 = sym_view(sym@);
        assert(branches_view(types@) =~= sym_branches(sv0).take(0));
        while k < sym.len()
            invariant
                sv0 == sym_view(sym@),
                k <= sym@.len(),
                branches_view(types@) == sym_branches(sv0).take(k as int),
            decreases sym.len() - k,
        {
            let id = string_of(&crate::text::int_chars((k as i128) + 1));
            let mut fmt: Vec<FormatBlock> = Vec::new();
            if sym[k].1.len() > 0 {
                let blk = FormatBlock::Scalars(crate::parse::types::ScalarsBlock {
                    vars: crate::text::clone_strings(&sym[k].1),
                });
                proof {
                    lemma_blocks_view_push(fmt@, blk);
                }
                fmt.push(blk);
            }
            assert(sv0[k as int] == (sym@[k as int].0@, sv(sym@[k as int].1@)));
            assert(blocks_view(fmt@) == sym_branches(sv0)[k as int].1) by {
                if sym@[k as int].1@.len() == 0 {
                    assert(blocks_view(fmt@) =~= Seq::<FormatBlockM>::empty());
                }
            }
            let br = crate::parse::types::QueryBranch { id, format: fmt };
            let ghost t0 = types@;
            types.push(br);
            proof {
                assert(types@ =~= t0.push(br));
                assert(types@.subrange(0, t0.len() as int) =~= t0);
                assert(sym_branches(sv0).take(k + 1) =~= sym_branches(sv0).take(k as int).push(
                    sym_branches(sv0)[k as int],
                ));
            }
            k += 1;
        }
        assert(sym_branches(sv0).take(sym@.len() as int) =~= sym_branches(sv0));
        return (sym_name, types, false);
    }
    let types: Vec<crate::parse::types::QueryBranch> = Vec::new();
    assert(branches_view(types@) =~= Seq::<(Seq<char>, Seq<FormatBlockM>)>::empty());
    (sym_name, types, true)
}

} // verus!

verus! {

pub open spec fn ltfb(lines: Seq<Seq<char>>) -> (Seq<FormatBlockM>, Seq<Seq<char>>) {
    crate::parse::format_parse::spec_lines_to_format_blocks(lines)
}

pub open spec fn section_of(
    vars: Seq<(Seq<char>, VarConstraintM)>,
    format: Seq<FormatBlockM>,
    skipped: Seq<Seq<char>>,
) -> SectionM {
    SectionM {
        vars: crate::parse::format_parse::add_defaults(
            vars,
            crate::parse::format_parse::blocks_names(format),
        ),
        format,
        ordering: seq![],
        not_equal: seq![],
        skipped,
    }
}

/// The body read once per repetition (`blocks[1]`), or an empty body and a
/// note in the skipped list.
pub open spec fn repeated_body(blocks: Seq<Seq<Seq<char>>>, skipped: Seq<Seq<char>>, missing: Seq<char>) -> (
    Seq<FormatBlockM>,
    Seq<Seq<char>>,
) {
    if blocks.len() > 1 {
        let r = ltfb(blocks[1]);
        (r.0, skipped + r.1)
    } else {
        (seq![], skipped.push(missing))
    }
}

/// The section's variables, format and skipped lines before constraints
/// are applied: a plain format, one with test cases (`case` lines), or one
/// with queries (`query` lines), each repeated body read from the next
/// format block.
pub open spec fn spec_build_section(blocks: Seq<Seq<Seq<char>>>, parsed: crate::parse::constraint_parse::ConstraintParseM) -> SectionM {
    let vars = spec_initial_vars(parsed);
    let all = flat_lines(blocks);
    if blocks.len() == 0 {
        SectionM { vars, format: seq![], ordering: seq![], not_equal: seq![], skipped: seq![] }
    } else if !any_case_line(all) && !any_query_line(all) {
        let r = ltfb(blocks[0]);
        section_of(vars, r.0, r.1)
    } else if any_case_line(all) {
        let h = ltfb(blocks[0]);
        let body = repeated_body(blocks, h.1, "per-testcase fields"@);
        let count = match first_subscript(all, false) {
            Some(c) => c,
            None => "t"@,
        };
        section_of(vars, h.0.push(FormatBlockM::TestCases { count, format: body.0 }), body.1)
    } else {
        let h = ltfb(blocks[0]);
        let count = match first_subscript(all, true) {
            Some(c) => c,
            None => "q"@,
        };
        if blocks.len() <= 2 {
            let body = repeated_body(blocks, h.1, "per-query fields"@);
            section_of(vars, h.0.push(FormatBlockM::TestCases { count, format: body.0 }), body.1)
        } else {
            let q = spec_query_branches(blocks);
            let skipped = if q.2 {
                h.1.push("per-query fields"@)
            } else {
                h.1
            };
            section_of(
                vars,
                h.0.push(FormatBlockM::Queries { count, discriminator: q.0, types: q.1 }),
                skipped,
            )
        }
    }
}

fn repeated_body_exec(blocks: &Vec<Vec<String>>, skipped: &mut Vec<String>, missing: &str) -> (r: Vec<FormatBlock>)
    ensures
        (blocks_view(r@), sv(final(skipped)@)) == repeated_body(
            blocks_lines(blocks@),
            sv(old(skipped)@),
            missing@,
        ),
{
    if blocks.len() > 1 {
        assert(blocks_lines(blocks@)[1] == sv(blocks@[1]@));
        crate::parse::format_parse::lines_to_format_blocks_inner(&blocks[1], skipped)
    } else {
        let m = missing.to_string();
        proof {
            lemma_sv_push(skipped@, m);
        }
        skipped.push(m);
        let v: Vec<FormatBlock> = Vec::new();
        assert(blocks_view(v@) =~= Seq::<FormatBlockM>::empty());
        v
    }
}

fn finish_section(vars: StrMap<VarConstraint>, format: Vec<FormatBlock>, skipped: Vec<String>) -> (r: RandomTestSection)
    ensures
        r.model() == section_of(vars.model(), blocks_view(format@), sv(skipped@)),
{
    let mut vars = vars;
    crate::parse::format_parse::add_missing_usize_vars(&mut vars, &format);
    let r = RandomTestSection { vars, format, ordering: Vec::new(), not_equal: Vec::new(), skipped };
    assert(r.model().ordering =~= Seq::<(Seq<char>, Seq<char>)>::empty());
    assert(r.model().not_equal =~= Seq::<(Seq<char>, Seq<char>)>::empty());
    r
}

fn push_block(blocks: &mut Vec<FormatBlock>, b: FormatBlock)
    ensures
        blocks_view(final(blocks)@) == blocks_view(old(blocks)@).push(block_view(b)),
{
    proof {
        lemma_blocks_view_push(blocks@, b);
    }
    blocks.push(b);
}

/// The variables, format and skipped lines of a task section before its
/// constraints are applied (see `spec_build_section`).
#[verifier::rlimit(40)]
pub fn build_section(task: &crate::parse::types::TaskSection, parsed: &ConstraintParse) -> (r: RandomTestSection)
    ensures
        r.model() == spec_build_section(blocks_lines(task.input_blocks@), parsed.model()),
{
    let vars = initial_vars(parsed);
    let all = flat_lines_exec(&task.input_blocks);
    let has_cases = any_placeholder(&all, false);
    let has_queries = any_placeholder(&all, true);
    if task.input_blocks.len() == 0 {
        let r = RandomTestSection {
            vars,
            format: Vec::new(),
            ordering: Vec::new(),
            not_equal: Vec::new(),
            skipped: Vec::new(),
        };
        assert(r.model().format =~= Seq::<FormatBlockM>::empty());
        assert(r.model().ordering =~= Seq::<(Seq<char>, Seq<char>)>::empty());
        assert(r.model().not_equal =~= Seq::<(Seq<char>, Seq<char>)>::empty());
        assert(r.model().skipped =~= Seq::<Seq<char>>::empty());
        return r;
    }
    let first = &task.input_blocks[0];
    assert(blocks_lines(task.input_blocks@)[0] == sv(first@));
    let mut skipped: Vec<String> = Vec::new();
    assert(sv(skipped@) =~= Seq::<Seq<char>>::empty());
    let mut header = crate::parse::format_parse::lines_to_format_blocks_inner(first, &mut skipped);
    assert(Seq::<Seq<char>>::empty() + ltfb(sv(first@)).1 =~= ltfb(sv(first@)).1);
    if !has_cases && !has_queries {
        return finish_section(vars, header, skipped);
    }
    if has_cases {
        let inner = repeated_body_exec(&task.input_blocks, &mut skipped, "per-testcase fields");
        let count = match first_subscript_exec(&all, false) {
            Some(c) => c,
            None => "t".to_string(),
        };
        let tc = FormatBlock::TestCases(crate::parse::types::TestCasesBlock { count, format: inner });
        push_block(&mut header, tc);
        return finish_section(vars, header, skipped);
    }
    let count = match first_subscript_exec(&all, true) {
        Some(c) => c,
        None => "q".to_string(),
    };
    if task.input_blocks.len() <= 2 {
        let inner = repeated_body_exec(&task.input_blocks, &mut skipped, "per-query fields");
        let tc = FormatBlock::TestCases(crate::parse::types::TestCasesBlock { count, format: inner });
        push_block(&mut header, tc);
        return finish_section(vars, header, skipped);
    }
    let (discriminator, types, failed) = query_branches(&task.input_blocks);
    if failed {
        let m = "per-query fields".to_string();
        proof {
            lemma_sv_push(skipped@, m);
        }
        skipped.push(m);
    }
    let qb = FormatBlock::Queries(crate::parse::types::QueriesBlock { count, discriminator, types });
    push_block(&mut header, qb);
    finish_section(vars, header, skipped)
}

} // verus!

verus! {

// ─── applying the constraints ───────────────────────────────────────────────

pub open spec fn int_strings(v: Seq<i64>) -> Seq<Seq<char>> {
    v.map_values(|n: i64| crate::text::spec_int_chars(n as int))
}

pub open spec fn with_enum_values(
    vars: Seq<(Seq<char>, VarConstraintM)>,
    ev: Seq<(Seq<char>, Seq<i64>)>,
) -> Seq<(Seq<char>, VarConstraintM)>
    decreases ev.len(),
{
    if ev.len() == 0 {
        vars
    } else {
        let p = with_enum_values(vars, ev.drop_last());
        match m_get(p, ev.last().0) {
            Some(v) => m_insert(p, ev.last().0, VarConstraintM { values: Some(int_strings(ev.last().1)), ..v }),
            None => p,
        }
    }
}

pub open spec fn with_sum_limits(vars: Seq<(Seq<char>, VarConstraintM)>, sl: Seq<(Seq<char>, i64)>) -> Seq<
    (Seq<char>, VarConstraintM),
>
    decreases sl.len(),
{
    if sl.len() == 0 {
        vars
    } else {
        let p = with_sum_limits(vars, sl.drop_last());
        let v = match m_get(p, sl.last().0) {
            Some(v) => v,
            None => default_constraint(),
        };
        m_insert(p, sl.last().0, VarConstraintM { sum_limit: Some(sl.last().1), ..v })
    }
}

pub open spec fn with_all_distinct(vars: Seq<(Seq<char>, VarConstraintM)>, ad: Seq<(Seq<char>, ())>) -> Seq<
    (Seq<char>, VarConstraintM),
>
    decreases ad.len(),
{
    if ad.len() == 0 {
        vars
    } else {
        let p = with_all_distinct(vars, ad.drop_last());
        match m_get(p, ad.last().0) {
            Some(v) => m_insert(p, ad.last().0, VarConstraintM { all_distinct: true, ..v }),
            None => p,
        }
    }
}

fn int_strings_exec(v: &Vec<i64>) -> (r: Vec<String>)
    ensures
        sv(r@) == int_strings(v@),
{
    let mut out: Vec<String> = Vec::new();
    let mut i: usize = 0;
    while i < v.len()
        invariant
            i <= v@.len(),
            sv(out@) == int_strings(v@).take(i as int),
        decreases v.len() - i,
    {
        let s = crate::text::int_string(v[i]);
        proof {
            lemma_sv_push(out@, s);
            assert(int_strings(v@).take(i + 1) =~= int_strings(v@).take(i as int).push(s@));
        }
        out.push(s);
        i += 1;
    }
    assert(int_strings(v@).take(v@.len() as int) =~= int_strings(v@));
    out
}

/// Steps 1 to 3: enumerated values, sum limits (a variable created where
/// needed), and distinctness.
pub fn apply_value_constraints(vars: &mut StrMap<VarConstraint>, parsed: &ConstraintParse)
    ensures
        final(vars).model() == with_all_distinct(
            with_sum_limits(
                with_enum_values(old(vars).model(), parsed.model().enum_values),
                parsed.model().sum_limits,
            ),
            parsed.model().all_distinct,
        ),
{
    let ghost v0 = vars.model();
    let ghost ev = parsed.enum_values.model();
    let mut i: usize = 0;
    assert(ev.take(0) =~= Seq::<(Seq<char>, Seq<i64>)>::empty());
    while i < parsed.enum_values.len()
        invariant
            ev == parsed.enum_values.model(),
            i <= ev.len(),
            vars.model() == with_enum_values(v0, ev.take(i as int)),
        decreases ev.len() - i,
    {
        assert(ev.take(i + 1).drop_last() =~= ev.take(i as int));
        let name = parsed.enum_values.key_at(i);
        let vals = parsed.enum_values.value_at(i);
        assert(vals.deep_view() =~= vals@);
        assert(ev.take(i + 1).last() == (name@, vals@));
        let updated = match vars.get(name.as_str()) {
            Some(v) => {
                let mut c = v.clone_constraint();
                c.values = Some(int_strings_exec(vals));
                Some(c)
            },
            None => None,
        };
        match updated {
            Some(c) => vars.insert(name.clone(), c),
            None => {},
        }
        i += 1;
    }
    assert(ev.take(ev.len() as int) =~= ev);
    let ghost v1 = vars.model();
    let ghost sl = parsed.sum_limits.model();
    let mut j: usize = 0;
    assert(sl.take(0) =~= Seq::<(Seq<char>, i64)>::empty());
    while j < parsed.sum_limits.len()
        invariant
            sl == parsed.sum_limits.model(),
            j <= sl.len(),
            vars.model() == with_sum_limits(v1, sl.take(j as int)),
        decreases sl.len() - j,
    {
        assert(sl.take(j + 1).drop_last() =~= sl.take(j as int));
        let name = parsed.sum_limits.key_at(j);
        let limit = *parsed.sum_limits.value_at(j);
        assert(sl.take(j + 1).last() == (name@, limit));
        let mut c = match vars.get(name.as_str()) {
            Some(v) => v.clone_constraint(),
            None => VarConstraint::new(),
        };
        c.sum_limit = Some(limit);
        vars.insert(name.clone(), c);
        j += 1;
    }
    assert(sl.take(sl.len() as int) =~= sl);
    let ghost v2 = vars.model();
    let ghost ad = parsed.all_distinct.map.model();
    let mut k: usize = 0;
    assert(ad.take(0) =~= Seq::<(Seq<char>, ())>::empty());
    while k < parsed.all_distinct.len()
        invariant
            ad == parsed.all_distinct.map.model(),
            k <= ad.len(),
            vars.model() == with_all_distinct(v2, ad.take(k as int)),
        decreases ad.len() - k,
    {
        assert(ad.take(k + 1).drop_last() =~= ad.take(k as int));
        let name = parsed.all_distinct.item_at(k);
        assert(ad.take(k + 1).last().0 == name@);
        let updated = match vars.get(name.as_str()) {
            Some(v) => {
                let mut c = v.clone_constraint();
                c.all_distinct = true;
                Some(c)
            },
            None => None,
        };
        match updated {
            Some(c) => vars.insert(name.clone(), c),
            None => {},
        }
        k += 1;
    }
    assert(ad.take(ad.len() as int) =~= ad);
}

/// What the string lengths add: the variables, the bounds of synthetic
/// length variables, and orderings between them and their bound.
pub struct LengthsM {
    pub vars: Seq<(Seq<char>, VarConstraintM)>,
    pub synthetic: Seq<(Seq<char>, NumBoundM)>,
    pub extra: Seq<(Seq<char>, Seq<char>)>,
}

pub open spec fn set_len(vars: Seq<(Seq<char>, VarConstraintM)>, name: Seq<char>, len: Seq<char>) -> Seq<
    (Seq<char>, VarConstraintM),
> {
    match m_get(vars, name) {
        Some(v) => m_insert(vars, name, VarConstraintM { len: Some(BoundReprM::Expr(len)), ..v }),
        None => vars,
    }
}

pub open spec fn length_step(acc: LengthsM, name: Seq<char>, spec: StrSpecM) -> LengthsM {
    if !m_has(acc.vars, name) {
        acc
    } else {
        match spec_resolve_len_kind(name, spec) {
            LenResolutionM::DirectRef(v) => LengthsM { vars: set_len(acc.vars, name, v), ..acc },
            LenResolutionM::FixedLit(n) => LengthsM {
                vars: set_len(acc.vars, name, crate::text::spec_int_chars(n as int)),
                ..acc
            },
            LenResolutionM::Synthetic(syn) => {
                let v1 = set_len(acc.vars, name, syn);
                let v2 = if m_has(v1, syn) {
                    v1
                } else {
                    m_insert(v1, syn, default_constraint())
                };
                LengthsM {
                    vars: v2,
                    synthetic: m_insert(acc.synthetic, syn, (spec.1, spec.2)),
                    extra: match spec.2 {
                        Some(BoundM::Var(dep, _)) => acc.extra.push((syn, dep)),
                        _ => acc.extra,
                    },
                }
            },
            LenResolutionM::Unknown => acc,
        }
    }
}

pub open spec fn lengths_upto(acc: LengthsM, svs: Seq<(Seq<char>, StrSpecM)>) -> LengthsM
    decreases svs.len(),
{
    if svs.len() == 0 {
        acc
    } else {
        let p = lengths_upto(acc, svs.drop_last());
        length_step(p, svs.last().0, svs.last().1)
    }
}

fn set_len_exec(vars: &mut StrMap<VarConstraint>, name: &String, len: String)
    ensures
        final(vars).model() == set_len(old(vars).model(), name@, len@),
{
    let updated = match vars.get(name.as_str()) {
        Some(v) => {
            let mut c = v.clone_constraint();
            c.len = Some(BoundRepr::Expr(len));
            Some(c)
        },
        None => None,
    };
    match updated {
        Some(c) => vars.insert(name.clone(), c),
        None => {},
    }
}

pub open spec fn extra_view(v: Seq<(String, String)>) -> Seq<(Seq<char>, Seq<char>)> {
    v.map_values(|p: (String, String)| crate::maps::pair_view(p))
}

/// Step 4: each string's length: a variable, a literal, or a synthetic
/// `|name|` variable with the length bounds.
#[verifier::rlimit(30)]
pub fn apply_lengths(vars: &mut StrMap<VarConstraint>, parsed: &ConstraintParse) -> (r: (StrMap<NumBound>, Vec<(String, String)>))
    ensures
        lengths_upto(LengthsM { vars: old(vars).model(), synthetic: seq![], extra: seq![] }, parsed.model().str_vars)
            == (LengthsM { vars: final(vars).model(), synthetic: r.0.model(), extra: extra_view(r.1@) }),
{
    let ghost s = parsed.str_vars.model();
    let ghost v0 = vars.model();
    let mut synthetic: StrMap<NumBound> = StrMap::new();
    let mut extra: Vec<(String, String)> = Vec::new();
    let mut i: usize = 0;
    assert(s.take(0) =~= Seq::<(Seq<char>, StrSpecM)>::empty());
    assert(extra_view(extra@) =~= Seq::<(Seq<char>, Seq<char>)>::empty());
    while i < parsed.str_vars.len()
        invariant
            s == parsed.str_vars.model(),
            i <= s.len(),
            lengths_upto(LengthsM { vars: v0, synthetic: seq![], extra: seq![] }, s.take(i as int))
                == (LengthsM { vars: vars.model(), synthetic: synthetic.model(), extra: extra_view(extra@) }),
        decreases s.len() - i,
    {
        assert(s.take(i + 1).drop_last() =~= s.take(i as int));
        let name = parsed.str_vars.key_at(i);
        let spec = parsed.str_vars.value_at(i);
        assert(s.take(i + 1).last() == (name@, spec.deep_view()));
        if vars.contains_key(name.as_str()) {
            match resolve_len_kind(name.as_str(), spec) {
                LenResolution::DirectRef(v) => set_len_exec(vars, name, v),
                LenResolution::FixedLit(n) => set_len_exec(vars, name, crate::text::int_string(n)),
                LenResolution::Synthetic(syn) => {
                    set_len_exec(vars, name, syn.clone());
                    if !vars.contains_key(syn.as_str()) {
                        vars.insert(syn.clone(), VarConstraint::new());
                    }
                    synthetic.insert(
                        syn.clone(),
                        NumBound {
                            lo: crate::parse::bounds::duplicate_opt(&spec.len_lo),
                            hi: crate::parse::bounds::duplicate_opt(&spec.len_hi),
                        },
                    );
                    match &spec.len_hi {
                        Some(BoundExpr::Var { name: dep, .. }) => {
                            let ghost e0 = extra@;
                            let p = (syn, dep.clone());
                            extra.push(p);
                            assert(extra_view(extra@) =~= extra_view(e0).push(crate::maps::pair_view(p)));
                        },
                        _ => {},
                    }
                },
                LenResolution::Unknown => {},
            }
        }
        i += 1;
    }
    assert(s.take(s.len() as int) =~= s);
    (synthetic, extra)
}

} // verus!
