//! Adding what the constraints say to a section built from the input
//! format: values, sum limits, distinctness, string lengths, resolved
//! ranges, orderings, inequalities and skipped items; then the count bounds
//! and the range tightening that follow from them.

use vstd::prelude::*;
use crate::maps::{m_get, m_insert, pair_view, pairs_add, PairSet, StrMap};
use crate::text::sv;
use crate::parse::analysis::{analyze_blocks, analyze_format, empty_analysis, AnalysisM, FormatAnalysis, VarShape};
use crate::parse::bounds::{BoundExpr, BoundM, NumBound, NumBoundM};
use crate::parse::constraint_parse::{ConstraintParse, ConstraintParseM};
use crate::parse::ordering::{copy_pairs, sort_pairs, sorted_pairs, spec_transitive_closure, transitive_closure_ordering};
use crate::parse::range_bounds::{apply_ordering_range_bounds, tighten_round, tighten_rounds};
use crate::parse::task::{
    apply_counts, apply_lengths, apply_sum_count_bounds, apply_value_constraints, extra_view, lengths_upto,
    resolve_or_placeholder, spec_resolve_or_placeholder, sum_blocks, with_all_distinct, with_enum_values,
    with_sum_limits, LengthsM,
};
use crate::parse::types::{
    blocks_view, BoundRepr, BoundReprM, FormatBlock, RandomTestSection, SectionM, TaskSection, VarConstraint,
    VarConstraintM, VarType,
};
use crate::parse::constraint_parse::{parse_constraints, spec_parse_constraints};
use crate::parse::format_lowering::{lower_blocks, lower_typed_format_dimensions};
use crate::parse::task::{blocks_lines, build_section, spec_build_section};

verus! {

// ─── step 5: ranges ─────────────────────────────────────────────────────────

/// The constraint bounds with the synthetic length bounds laid over them.
pub open spec fn overlay(num: Seq<(Seq<char>, NumBoundM)>, syn: Seq<(Seq<char>, NumBoundM)>) -> Seq<
    (Seq<char>, NumBoundM),
>
    decreases syn.len(),
{
    if syn.len() == 0 {
        num
    } else {
        m_insert(overlay(num, syn.drop_last()), syn.last().0, syn.last().1)
    }
}

/// A numeric variable without enumerated values gets a range.
pub open spec fn needs_range(v: VarConstraintM) -> bool {
    v.var_type != VarType::Chars && v.values is None
}

pub open spec fn bound_of(ctx: Seq<(Seq<char>, NumBoundM)>, name: Seq<char>) -> NumBoundM {
    match m_get(ctx, name) {
        Some(b) => b,
        None => (None, None),
    }
}

/// The resolved range of a variable; a `usize` whose lower end resolves
/// below zero becomes `i64`, resolved again as such.
pub open spec fn ranged(v: VarConstraintM, name: Seq<char>, ctx: Seq<(Seq<char>, NumBoundM)>) -> VarConstraintM {
    let b = bound_of(ctx, name);
    let r = spec_resolve_or_placeholder(b, ctx, v.var_type);
    if v.var_type == VarType::Usize && (r.0 matches BoundReprM::Lit(n) && n < 0) {
        VarConstraintM {
            var_type: VarType::I64,
            range: Some(spec_resolve_or_placeholder(b, ctx, VarType::I64)),
            ..v
        }
    } else {
        VarConstraintM { range: Some(r), ..v }
    }
}

pub open spec fn range_entry(e: (Seq<char>, VarConstraintM), ctx: Seq<(Seq<char>, NumBoundM)>) -> (
    Seq<char>,
    VarConstraintM,
) {
    if needs_range(e.1) {
        (e.0, ranged(e.1, e.0, ctx))
    } else {
        e
    }
}

pub open spec fn with_ranges(
    vars: Seq<(Seq<char>, VarConstraintM)>,
    ctx: Seq<(Seq<char>, NumBoundM)>,
) -> Seq<(Seq<char>, VarConstraintM)> {
    vars.map_values(|e: (Seq<char>, VarConstraintM)| range_entry(e, ctx))
}

fn combined_bounds(num: &StrMap<NumBound>, syn: &StrMap<NumBound>) -> (r: StrMap<NumBound>)
    ensures
        r.model() == overlay(num.model(), syn.model()),
{
    let es = num.entries();
    let mut entries: Vec<(String, NumBound)> = Vec::new();
    let mut i: usize = 0;
    while i < es.len()
        invariant
            i <= es@.len(),
            entries.deep_view() == es.deep_view().take(i as int),
        decreases es.len() - i,
    {
        let e = (es[i].0.clone(), es[i].1.duplicate());
        let ghost before = entries.deep_view();
        entries.push(e);
        assert(entries.deep_view() =~= before.push(e.deep_view()));
        assert(es.deep_view().take(i + 1) =~= es.deep_view().take(i as int).push(
            es.deep_view()[i as int],
        ));
        i += 1;
    }
    assert(es.deep_view().take(es@.len() as int) =~= es.deep_view());
    let mut r = StrMap::from_sorted(entries);
    let ghost s = syn.model();
    let mut j: usize = 0;
    assert(s.take(0) =~= Seq::<(Seq<char>, NumBoundM)>::empty());
    while j < syn.len()
        invariant
            s == syn.model(),
            j <= s.len(),
            r.model() == overlay(num.model(), s.take(j as int)),
        decreases s.len() - j,
    {
        assert(s.take(j + 1).drop_last() =~= s.take(j as int));
        assert(s.take(j + 1).last() == s[j as int]);
        r.insert(syn.key_at(j).clone(), syn.value_at(j).duplicate());
        j += 1;
    }
    assert(s.take(s.len() as int) =~= s);
    r
}

fn ranged_exec(v: &VarConstraint, name: &String, ctx: &StrMap<NumBound>) -> (r: VarConstraint)
    ensures
        r.deep_view() == ranged(v.deep_view(), name@, ctx.model()),
{
    let b = match ctx.get(name.as_str()) {
        Some(b) => b.duplicate(),
        None => NumBound::new(),
    };
    let r = resolve_or_placeholder(&b, ctx, v.var_type);
    let negative = match &r[0] {
        BoundRepr::Lit(n) => *n < 0,
        BoundRepr::Expr(_) => false,
    };
    let mut c = v.clone_constraint();
    if v.var_type == VarType::Usize && negative {
        c.var_type = VarType::I64;
        c.range = Some(resolve_or_placeholder(&b, ctx, VarType::I64));
    } else {
        c.range = Some(r);
    }
    c
}

/// Step 5: resolve the range of every numeric variable without enumerated
/// values against the combined bounds.
pub fn resolve_ranges(vars: &mut StrMap<VarConstraint>, ctx: &StrMap<NumBound>)
    ensures
        final(vars).model() == with_ranges(old(vars).model(), ctx.model()),
{
    let ghost v0 = vars.model();
    let mut i: usize = 0;
    while i < vars.len()
        invariant
            vars.model().len() == v0.len(),
            i <= v0.len(),
            forall|j: int| 0 <= j < i ==> #[trigger] vars.model()[j] == range_entry(v0[j], ctx.model()),
            forall|j: int| i <= j < v0.len() ==> #[trigger] vars.model()[j] == v0[j],
        decreases v0.len() - i,
    {
        let c = {
            let v = vars.value_at(i);
            let needs = v.var_type != VarType::Chars && v.values.is_none();
            if needs {
                Some(ranged_exec(v, vars.key_at(i), ctx))
            } else {
                None
            }
        };
        match c {
            Some(c) => {
                vars.set_value_at(i, c);
            },
            None => {},
        }
        i += 1;
    }
    assert(vars.model() =~= with_ranges(v0, ctx.model()));
}

// ─── steps 6 and 7: orderings and inequalities ──────────────────────────────

/// `(name, dep)` for every bound whose upper end is the variable `dep`.
pub open spec fn hi_var_pairs(ctx: Seq<(Seq<char>, NumBoundM)>) -> Seq<(Seq<char>, Seq<char>)>
    decreases ctx.len(),
{
    if ctx.len() == 0 {
        seq![]
    } else {
        let p = hi_var_pairs(ctx.drop_last());
        match ctx.last().1.1 {
            Some(BoundM::Var(dep, _)) => p.push((ctx.last().0, dep)),
            _ => p,
        }
    }
}

/// `pairs_add` of each pair in turn.
pub open spec fn add_pairs(acc: Seq<(Seq<char>, Seq<char>)>, ps: Seq<(Seq<char>, Seq<char>)>) -> Seq<
    (Seq<char>, Seq<char>),
>
    decreases ps.len(),
{
    if ps.len() == 0 {
        acc
    } else {
        pairs_add(add_pairs(acc, ps.drop_last()), ps.last())
    }
}

/// Which pairs a filter keeps.
#[derive(Clone, Copy, Debug, PartialEq, Eq, Structural)]
pub enum PairRule {
    /// Two distinct numeric variables, neither read as jagged rows.
    LessEq,
    /// As for orderings, or two distinct string scalars.
    NotEqual,
    /// Two distinct names.
    Distinct,
}

pub open spec fn is_numeric(vars: Seq<(Seq<char>, VarConstraintM)>, n: Seq<char>) -> bool {
    match m_get(vars, n) {
        Some(v) => v.var_type == VarType::Usize || v.var_type == VarType::I64,
        None => false,
    }
}

pub open spec fn is_chars(vars: Seq<(Seq<char>, VarConstraintM)>, n: Seq<char>) -> bool {
    match m_get(vars, n) {
        Some(v) => v.var_type == VarType::Chars,
        None => false,
    }
}

pub open spec fn shape_in(a: AnalysisM, n: Seq<char>) -> VarShape {
    match m_get(a.shapes, n) {
        Some(s) => s,
        None => VarShape::Scalar,
    }
}

pub open spec fn plain_numeric(vars: Seq<(Seq<char>, VarConstraintM)>, a: AnalysisM, n: Seq<char>) -> bool {
    is_numeric(vars, n) && shape_in(a, n) != VarShape::Jagged
}

pub open spec fn chars_scalar(vars: Seq<(Seq<char>, VarConstraintM)>, a: AnalysisM, n: Seq<char>) -> bool {
    is_chars(vars, n) && shape_in(a, n) == VarShape::Scalar
}

pub open spec fn pair_allowed(
    rule: PairRule,
    vars: Seq<(Seq<char>, VarConstraintM)>,
    a: AnalysisM,
    p: (Seq<char>, Seq<char>),
) -> bool {
    let numeric = plain_numeric(vars, a, p.0) && plain_numeric(vars, a, p.1);
    p.0 != p.1 && match rule {
        PairRule::LessEq => numeric,
        PairRule::NotEqual => numeric || (chars_scalar(vars, a, p.0) && chars_scalar(vars, a, p.1)),
        PairRule::Distinct => true,
    }
}

pub open spec fn keep_pairs(
    ps: Seq<(Seq<char>, Seq<char>)>,
    rule: PairRule,
    vars: Seq<(Seq<char>, VarConstraintM)>,
    a: AnalysisM,
) -> Seq<(Seq<char>, Seq<char>)>
    decreases ps.len(),
{
    if ps.len() == 0 {
        seq![]
    } else {
        let k = keep_pairs(ps.drop_last(), rule, vars, a);
        if pair_allowed(rule, vars, a, ps.last()) {
            pairs_add(k, ps.last())
        } else {
            k
        }
    }
}

fn plain_numeric_exec(vars: &StrMap<VarConstraint>, an: &FormatAnalysis, n: &String) -> (r: bool)
    ensures
        r == plain_numeric(vars.model(), an.model(), n@),
{
    let numeric = match vars.get(n.as_str()) {
        Some(v) => v.var_type == VarType::Usize || v.var_type == VarType::I64,
        None => false,
    };
    numeric && an.shape_of(n.as_str()) != VarShape::Jagged
}

fn chars_scalar_exec(vars: &StrMap<VarConstraint>, an: &FormatAnalysis, n: &String) -> (r: bool)
    ensures
        r == chars_scalar(vars.model(), an.model(), n@),
{
    let chars = match vars.get(n.as_str()) {
        Some(v) => v.var_type == VarType::Chars,
        None => false,
    };
    chars && an.shape_of(n.as_str()) == VarShape::Scalar
}

fn pair_allowed_exec(
    rule: PairRule,
    vars: &StrMap<VarConstraint>,
    an: &FormatAnalysis,
    p: &(String, String),
) -> (r: bool)
    ensures
        r == pair_allowed(rule, vars.model(), an.model(), pair_view(*p)),
{
    if crate::text::str_eq(p.0.as_str(), p.1.as_str()) {
        return false;
    }
    let numeric = plain_numeric_exec(vars, an, &p.0) && plain_numeric_exec(vars, an, &p.1);
    match rule {
        PairRule::LessEq => numeric,
        PairRule::NotEqual => numeric || (chars_scalar_exec(vars, an, &p.0) && chars_scalar_exec(vars, an, &p.1)),
        PairRule::Distinct => true,
    }
}

/// The pairs of `ps` that `rule` allows.
pub fn keep_pairs_exec(ps: &PairSet, rule: PairRule, vars: &StrMap<VarConstraint>, an: &FormatAnalysis) -> (r: PairSet)
    ensures
        r.model() == keep_pairs(ps.model(), rule, vars.model(), an.model()),
{
    let ghost m = ps.model();
    let mut out = PairSet::new();
    let mut i: usize = 0;
    assert(m.take(0) =~= Seq::<(Seq<char>, Seq<char>)>::empty());
    assert(out.model() =~= Seq::<(Seq<char>, Seq<char>)>::empty());
    while i < ps.items.len()
        invariant
            m == ps.model(),
            i <= m.len(),
            out.model() == keep_pairs(m.take(i as int), rule, vars.model(), an.model()),
        decreases m.len() - i,
    {
        assert(m.take(i + 1).drop_last() =~= m.take(i as int));
        assert(m.take(i + 1).last() == pair_view(ps.items@[i as int]));
        let p = &ps.items[i];
        if pair_allowed_exec(rule, vars, an, p) {
            out.insert((p.0.clone(), p.1.clone()));
        }
        i += 1;
    }
    assert(m.take(m.len() as int) =~= m);
    out
}

/// `var_le`, the bound references and the length orderings, in that order.
fn ordering_candidates(var_le: &PairSet, ctx: &StrMap<NumBound>, extra: &Vec<(String, String)>) -> (r: PairSet)
    ensures
        r.model() == add_pairs(add_pairs(var_le.model(), hi_var_pairs(ctx.model())), extra_view(extra@)),
{
    let mut out = copy_pairs(var_le);
    let ghost c = ctx.model();
    let ghost l0 = var_le.model();
    let mut i: usize = 0;
    assert(c.take(0) =~= Seq::<(Seq<char>, NumBoundM)>::empty());
    assert(hi_var_pairs(c.take(0)) =~= Seq::<(Seq<char>, Seq<char>)>::empty());
    while i < ctx.len()
        invariant
            c == ctx.model(),
            i <= c.len(),
            out.model() == add_pairs(l0, hi_var_pairs(c.take(i as int))),
        decreases c.len() - i,
    {
        assert(c.take(i + 1).drop_last() =~= c.take(i as int));
        assert(c.take(i + 1).last() == c[i as int]);
        let name = ctx.key_at(i);
        match &ctx.value_at(i).hi {
            Some(BoundExpr::Var { name: dep, .. }) => {
                let ghost h = hi_var_pairs(c.take(i as int));
                assert(hi_var_pairs(c.take(i + 1)) == h.push((name@, dep@)));
                assert(h.push((name@, dep@)).drop_last() =~= h);
                out.insert((name.clone(), dep.clone()));
            },
            _ => {},
        }
        i += 1;
    }
    assert(c.take(c.len() as int) =~= c);
    let ghost l1 = out.model();
    let ghost e = extra_view(extra@);
    let mut j: usize = 0;
    assert(e.take(0) =~= Seq::<(Seq<char>, Seq<char>)>::empty());
    while j < extra.len()
        invariant
            e == extra_view(extra@),
            j <= e.len(),
            out.model() == add_pairs(l1, e.take(j as int)),
        decreases e.len() - j,
    {
        assert(e.take(j + 1).drop_last() =~= e.take(j as int));
        assert(e.take(j + 1).last() == pair_view(extra@[j as int]));
        out.insert((extra[j].0.clone(), extra[j].1.clone()));
        j += 1;
    }
    assert(e.take(e.len() as int) =~= e);
    out
}

fn extend_skipped(skipped: &mut Vec<String>, more: &Vec<String>)
    ensures
        sv(final(skipped)@) == sv(old(skipped)@) + sv(more@),
{
    let ghost s0 = sv(skipped@);
    let mut i: usize = 0;
    while i < more.len()
        invariant
            i <= more@.len(),
            sv(skipped@) == s0 + sv(more@).take(i as int),
        decreases more.len() - i,
    {
        let s = more[i].clone();
        proof {
            crate::text::lemma_sv_push(skipped@, s);
        }
        skipped.push(s);
        assert(s0 + sv(more@).take(i + 1) =~= (s0 + sv(more@).take(i as int)).push(s@));
        i += 1;
    }
    assert(sv(more@).take(more@.len() as int) =~= sv(more@));
}

// ─── the whole enrichment ───────────────────────────────────────────────────

/// The section after steps 1 to 8: constraint fields, ranges, persisted
/// orderings and inequalities, skipped items.
pub open spec fn spec_enrich_fields(p: ConstraintParseM, s: SectionM) -> SectionM {
    let v1 = with_all_distinct(
        with_sum_limits(with_enum_values(s.vars, p.enum_values), p.sum_limits),
        p.all_distinct,
    );
    let ln = lengths_upto(LengthsM { vars: v1, synthetic: seq![], extra: seq![] }, p.str_vars);
    let ctx = overlay(p.num_vars, ln.synthetic);
    let vars = with_ranges(ln.vars, ctx);
    let a = analyze_blocks(empty_analysis(), s.format);
    let cand = add_pairs(add_pairs(p.var_le, hi_var_pairs(ctx)), ln.extra);
    let ordering = sort_pairs(
        keep_pairs(spec_transitive_closure(keep_pairs(cand, PairRule::LessEq, vars, a)), PairRule::Distinct, vars, a),
    );
    let not_equal = sort_pairs(keep_pairs(p.var_ne, PairRule::NotEqual, vars, a));
    SectionM { vars, format: s.format, ordering, not_equal, skipped: s.skipped + p.skipped }
}

/// Step 9 on top: the count bounds entailed by sum limits.
pub open spec fn spec_enrich_counted(p: ConstraintParseM, s: SectionM) -> SectionM {
    let m = spec_enrich_fields(p, s);
    SectionM { vars: apply_counts(m.vars, sum_blocks(seq![], m.vars, m.format)), ..m }
}

/// `e` is `s` enriched by `p`: step 10 tightened the counted section's
/// ranges along its orderings until a pass changed nothing.
pub open spec fn spec_enriched(p: ConstraintParseM, s: SectionM, e: SectionM) -> bool {
    let c = spec_enrich_counted(p, s);
    &&& exists|n: nat| e.vars == tighten_rounds(c.vars, c.ordering, n)
    &&& !tighten_round(e.vars, c.ordering).1
    &&& e == (SectionM { vars: e.vars, ..c })
}

/// Add what the parsed constraints say to `section`.
pub fn enrich_section_with_constraints(parsed: &ConstraintParse, section: &mut RandomTestSection)
    ensures
        spec_enriched(parsed.model(), old(section).model(), final(section).model()),
{
    let ghost s0 = section.model();
    let ghost p = parsed.model();
    // 1–3: values, sum limits, distinctness.
    apply_value_constraints(&mut section.vars, parsed);
    // 4: string lengths.
    let (synthetic, extra) = apply_lengths(&mut section.vars, parsed);
    // 5: ranges.
    let ctx = combined_bounds(&parsed.num_vars, &synthetic);
    resolve_ranges(&mut section.vars, &ctx);
    let an = analyze_format(&section.format);
    // 6: orderings, closed under transitivity.
    let cand = ordering_candidates(&parsed.var_le, &ctx, &extra);
    let kept = keep_pairs_exec(&cand, PairRule::LessEq, &section.vars, &an);
    let closed = transitive_closure_ordering(kept);
    let distinct = keep_pairs_exec(&closed, PairRule::Distinct, &section.vars, &an);
    section.ordering = sorted_pairs(&distinct);
    // 7: inequalities.
    let ne = keep_pairs_exec(&parsed.var_ne, PairRule::NotEqual, &section.vars, &an);
    section.not_equal = sorted_pairs(&ne);
    // 8: skipped items.
    extend_skipped(&mut section.skipped, &parsed.skipped);
    assert(section.model() == spec_enrich_fields(p, s0));
    // 9: count bounds.
    apply_sum_count_bounds(section);
    // 10: ranges along the orderings.
    apply_ordering_range_bounds(section);
}

// ─── from a task section to its `random_test:` section ─────────────────────

/// `r` is `e` with its format lowered to the persisted form of typed
/// dimensions, and its variables updated accordingly.
pub open spec fn lowered(e: SectionM, r: SectionM) -> bool {
    &&& (r.format, r.vars) == lower_blocks(e.format, e.vars)
    &&& r.ordering == e.ordering
    &&& r.not_equal == e.not_equal
    &&& r.skipped == e.skipped
}

/// `r` is the section of a task with these input blocks and constraint
/// items: parsed, built, enriched, lowered.
pub open spec fn spec_task_section(blocks: Seq<Seq<Seq<char>>>, items: Seq<Seq<char>>, r: SectionM) -> bool {
    exists|e: SectionM|
        spec_enriched(spec_parse_constraints(items), spec_build_section(blocks, spec_parse_constraints(items)), e)
            && #[trigger] lowered(e, r)
}

/// The whole pipeline for one task: parse the constraints, build the
/// section from the input format, enrich it, lower typed dimensions.
pub fn task_to_format_blocks(task: &TaskSection) -> (r: RandomTestSection)
    ensures
        spec_task_section(blocks_lines(task.input_blocks@), sv(task.constraints_items@), r.model()),
{
    let parsed = parse_constraints(task.constraints_items.as_slice());
    let mut section = build_section(task, &parsed);
    enrich_section_with_constraints(&parsed, &mut section);
    let ghost e = section.model();
    lower_typed_format_dimensions(&mut section.format, &mut section.vars);
    assert(lowered(e, section.model()));
    section
}

/// Convert indexed-array dimensions of the format into the persisted form,
/// by the types of `vars`.
pub fn canonicalize_chars_array_dimensions(blocks: &mut Vec<FormatBlock>, vars: &mut StrMap<VarConstraint>)
    ensures
        (blocks_view(final(blocks)@), final(vars).model()) == lower_blocks(blocks_view(old(blocks)@), old(vars).model()),
{
    lower_typed_format_dimensions(blocks, vars);
}

} // verus!
