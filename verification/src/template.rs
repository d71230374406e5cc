//! A `proconio::input!` template for a solution, rendered from the format
//! tree and variable types of a `random_test:` section.

use vstd::prelude::*;
use crate::maps::{m_get, m_has, m_insert, StrMap, StrSet};
use crate::text::{chars_of, concat_str, string_of, sv};
use crate::parse::normalize::{snake_chars, spec_snake};
use crate::parse::types::{
    block_view, blocks_view, branches_view, ArrayBlock, FormatBlock, FormatBlockM, QueriesBlock, QueryBranch,
    VarConstraint, VarConstraintM, VarType,
};

verus! {

/// Declarations for `input!`, and lines to follow it.
#[derive(Debug)]
pub struct GuessResult {
    pub decls: Vec<String>,
    pub extra_lines: Vec<String>,
}

/// The `proconio` type of a variable, and whether it is a string.
pub open spec fn spec_var_ty(name: Seq<char>, vars: Seq<(Seq<char>, VarConstraintM)>) -> (Seq<char>, bool) {
    match m_get(vars, name) {
        Some(v) => match v.var_type {
            VarType::I64 => ("i64"@, false),
            VarType::Chars => ("Chars"@, true),
            VarType::Usize => ("usize"@, false),
        },
        None => ("usize"@, false),
    }
}

pub fn var_ty(name: &str, vars: &StrMap<VarConstraint>) -> (r: (&'static str, bool))
    ensures
        (r.0@, r.1) == spec_var_ty(name@, vars.model()),
{
    match vars.get(name) {
        Some(v) => match v.var_type {
            VarType::I64 => ("i64", false),
            VarType::Chars => ("Chars", true),
            VarType::Usize => ("usize", false),
        },
        None => ("usize", false),
    }
}

pub open spec fn opt_or_underscore(o: Option<Seq<char>>) -> Seq<char> {
    match o {
        Some(s) => s,
        None => "_"@,
    }
}

/// The declaration of an array block's base.
pub open spec fn array_decl(
    name: Seq<char>,
    len: Option<Seq<char>>,
    height: Option<Seq<char>>,
    count: Option<Seq<char>>,
    jagged: bool,
    vars: Seq<(Seq<char>, VarConstraintM)>,
) -> Seq<char> {
    let t = spec_var_ty(name, vars);
    let elem = t.0;
    if jagged {
        name + ": [["@ + elem + "]; "@ + opt_or_underscore(count) + "],"@
    } else if t.1 {
        match (height, count) {
            (Some(h), Some(f)) => name + ": [[Chars; "@ + h + "]; "@ + f + "],"@,
            (None, Some(c)) => name + ": [Chars; "@ + c + "],"@,
            (None, None) => name + ": Chars,"@,
            _ => name + ": Chars, /* TODO: array */"@,
        }
    } else {
        match (len, height, count) {
            (Some(w), Some(h), Some(f)) => name + ": [[["@ + elem + "; "@ + w + "]; "@ + h + "]; "@ + f + "],"@,
            (Some(w), None, Some(h)) => name + ": [["@ + elem + "; "@ + w + "]; "@ + h + "],"@,
            (Some(l), None, None) => name + ": ["@ + elem + "; "@ + l + "],"@,
            (None, None, Some(c)) => name + ": ["@ + elem + "; "@ + c + "],"@,
            _ => name + ": "@ + elem + ", /* TODO: array */"@,
        }
    }
}

/// `parts` joined by `sep`.
pub open spec fn join_with(parts: Seq<Seq<char>>, sep: Seq<char>) -> Seq<char>
    decreases parts.len(),
{
    if parts.len() == 0 {
        seq![]
    } else if parts.len() == 1 {
        parts[0]
    } else {
        join_with(parts.drop_last(), sep) + sep + parts.last()
    }
}

pub open spec fn concat_all(parts: Seq<Seq<char>>) -> Seq<char>
    decreases parts.len(),
{
    if parts.len() == 0 {
        seq![]
    } else {
        concat_all(parts.drop_last()) + parts.last()
    }
}

/// The types of row variables.
pub open spec fn row_tys(vs: Seq<Seq<char>>, vars: Seq<(Seq<char>, VarConstraintM)>) -> Seq<Seq<char>> {
    vs.map_values(|v: Seq<char>| spec_var_ty(v, vars).0)
}

/// Declarations gathered so far, and the names declared.
pub struct GuessM {
    pub decls: Seq<Seq<char>>,
    pub seen: Seq<(Seq<char>, ())>,
}

/// Declare `name` with `decl` unless it was declared already.
pub open spec fn declare(g: GuessM, name: Seq<char>, decl: Seq<char>) -> GuessM {
    if m_has(g.seen, name) {
        g
    } else {
        GuessM { decls: g.decls.push(decl), seen: m_insert(g.seen, name, ()) }
    }
}

pub open spec fn declare_scalars(g: GuessM, vs: Seq<Seq<char>>, vars: Seq<(Seq<char>, VarConstraintM)>) -> GuessM
    decreases vs.len(),
{
    if vs.len() == 0 {
        g
    } else {
        let p = declare_scalars(g, vs.drop_last(), vars);
        let v = vs.last();
        declare(p, v, v + ": "@ + spec_var_ty(v, vars).0 + ","@)
    }
}

/// One block's declarations; repeated blocks are rendered elsewhere.
pub open spec fn guess_block(g: GuessM, b: FormatBlockM, vars: Seq<(Seq<char>, VarConstraintM)>) -> GuessM {
    match b {
        FormatBlockM::Scalars(vs) => declare_scalars(g, vs, vars),
        FormatBlockM::Array { base, len, height, count, jagged } => declare(
            g,
            base,
            array_decl(base, len, height, count, jagged, vars),
        ),
        FormatBlockM::Rows { vars: vs, len } => if vs.len() == 1 {
            let name = spec_snake(vs[0]);
            declare(g, name, name + ": ["@ + spec_var_ty(vs[0], vars).0 + "; "@ + len + "],"@)
        } else {
            let name = spec_snake(concat_all(vs));
            declare(g, name, name + ": [("@ + join_with(row_tys(vs, vars), ", "@) + "); "@ + len + "],"@)
        },
        _ => g,
    }
}

pub open spec fn guess_blocks(g: GuessM, bs: Seq<FormatBlockM>, vars: Seq<(Seq<char>, VarConstraintM)>) -> GuessM
    decreases bs.len(),
{
    if bs.len() == 0 {
        g
    } else {
        guess_block(guess_blocks(g, bs.drop_last(), vars), bs.last(), vars)
    }
}

pub open spec fn spec_guess(bs: Seq<FormatBlockM>, vars: Seq<(Seq<char>, VarConstraintM)>) -> Seq<Seq<char>> {
    guess_blocks(GuessM { decls: seq![], seen: seq![] }, bs, vars).decls
}

fn push_str(out: &mut Vec<char>, s: &str)
    ensures
        final(out)@ == old(out)@ + s@,
{
    crate::text::append_chars(out, &chars_of(s));
}

fn declare_exec(decls: &mut Vec<String>, seen: &mut StrSet, name: &String, decl: Vec<char>)
    ensures
        (GuessM { decls: sv(final(decls)@), seen: final(seen).map.model() }) == declare(
            GuessM { decls: sv(old(decls)@), seen: old(seen).map.model() },
            name@,
            decl@,
        ),
{
    if !seen.contains(name.as_str()) {
        seen.insert(name.clone());
        let d = string_of(&decl);
        proof {
            crate::text::lemma_sv_push(decls@, d);
        }
        decls.push(d);
    }
}

fn array_decl_exec(a: &ArrayBlock, vars: &StrMap<VarConstraint>) -> (r: Vec<char>)
    ensures
        r@ == array_decl(
            a.base@,
            crate::regex_ops::opt_view(a.len),
            crate::regex_ops::opt_view(a.height),
            crate::regex_ops::opt_view(a.count),
            a.jagged,
            vars.model(),
        ),
{
    let (elem, is_str) = var_ty(a.base.as_str(), vars);
    let mut d = chars_of(a.base.as_str());
    if a.jagged {
        push_str(&mut d, ": [[");
        push_str(&mut d, elem);
        push_str(&mut d, "]; ");
        match &a.count {
            Some(c) => push_str(&mut d, c.as_str()),
            None => push_str(&mut d, "_"),
        }
        push_str(&mut d, "],");
    } else if is_str {
        match (&a.height, &a.count) {
            (Some(h), Some(f)) => {
                push_str(&mut d, ": [[Chars; ");
                push_str(&mut d, h.as_str());
                push_str(&mut d, "]; ");
                push_str(&mut d, f.as_str());
                push_str(&mut d, "],");
            },
            (None, Some(c)) => {
                push_str(&mut d, ": [Chars; ");
                push_str(&mut d, c.as_str());
                push_str(&mut d, "],");
            },
            (None, None) => push_str(&mut d, ": Chars,"),
            _ => push_str(&mut d, ": Chars, /* TODO: array */"),
        }
    } else {
        match (&a.len, &a.height, &a.count) {
            (Some(w), Some(h), Some(f)) => {
                push_str(&mut d, ": [[[");
                push_str(&mut d, elem);
                push_str(&mut d, "; ");
                push_str(&mut d, w.as_str());
                push_str(&mut d, "]; ");
                push_str(&mut d, h.as_str());
                push_str(&mut d, "]; ");
                push_str(&mut d, f.as_str());
                push_str(&mut d, "],");
            },
            (Some(w), None, Some(h)) => {
                push_str(&mut d, ": [[");
                push_str(&mut d, elem);
                push_str(&mut d, "; ");
                push_str(&mut d, w.as_str());
                push_str(&mut d, "]; ");
                push_str(&mut d, h.as_str());
                push_str(&mut d, "],");
            },
            (Some(l), None, None) => {
                push_str(&mut d, ": [");
                push_str(&mut d, elem);
                push_str(&mut d, "; ");
                push_str(&mut d, l.as_str());
                push_str(&mut d, "],");
            },
            (None, None, Some(c)) => {
                push_str(&mut d, ": [");
                push_str(&mut d, elem);
                push_str(&mut d, "; ");
                push_str(&mut d, c.as_str());
                push_str(&mut d, "],");
            },
            _ => {
                push_str(&mut d, ": ");
                push_str(&mut d, elem);
                push_str(&mut d, ", /* TODO: array */");
            },
        }
    }
    let ghost e = array_decl(
        a.base@,
        crate::regex_ops::opt_view(a.len),
        crate::regex_ops::opt_view(a.height),
        crate::regex_ops::opt_view(a.count),
        a.jagged,
        vars.model(),
    );
    assert(d@ =~= e);
    d
}

/// `parts` joined by `sep`.
pub fn join_exec(parts: &Vec<String>, sep: &str) -> (r: Vec<char>)
    ensures
        r@ == join_with(sv(parts@), sep@),
{
    let ghost ps = sv(parts@);
    let mut out: Vec<char> = Vec::new();
    let mut i: usize = 0;
    assert(ps.take(0) =~= Seq::<Seq<char>>::empty());
    while i < parts.len()
        invariant
            ps == sv(parts@),
            i <= ps.len(),
            out@ == join_with(ps.take(i as int), sep@),
        decreases ps.len() - i,
    {
        assert(ps.take(i + 1).drop_last() =~= ps.take(i as int));
        assert(ps.take(i + 1).last() == parts@[i as int]@);
        if i > 0 {
            push_str(&mut out, sep);
        } else {
            assert(out@ =~= Seq::<char>::empty());
        }
        push_str(&mut out, parts[i].as_str());
        proof {
            if i == 0 {
                assert(ps.take(1).len() == 1);
                assert(ps.take(1)[0] == ps[0]);
            }
        }
        i += 1;
    }
    assert(ps.take(ps.len() as int) =~= ps);
    out
}

fn rows_decl(vs: &Vec<String>, len: &String, vars: &StrMap<VarConstraint>) -> (r: (String, Vec<char>))
    ensures
        vs@.len() == 1 ==> r.0@ == spec_snake(vs@[0]@) && r.1@ == r.0@ + ": ["@ + spec_var_ty(vs@[0]@, vars.model()).0
            + "; "@ + len@ + "],"@,
        vs@.len() != 1 ==> r.0@ == spec_snake(concat_all(sv(vs@))) && r.1@ == r.0@ + ": [("@ + join_with(
            row_tys(sv(vs@), vars.model()),
            ", "@,
        ) + "); "@ + len@ + "],"@,
{
    if vs.len() == 1 {
        let name = string_of(&snake_chars(&chars_of(vs[0].as_str())));
        let (elem, _) = var_ty(vs[0].as_str(), vars);
        let mut d = chars_of(name.as_str());
        push_str(&mut d, ": [");
        push_str(&mut d, elem);
        push_str(&mut d, "; ");
        push_str(&mut d, len.as_str());
        push_str(&mut d, "],");
        (name, d)
    } else {
        let ghost ps = sv(vs@);
        let mut all: Vec<char> = Vec::new();
        let mut tys: Vec<String> = Vec::new();
        let mut i: usize = 0;
        assert(ps.take(0) =~= Seq::<Seq<char>>::empty());
        while i < vs.len()
            invariant
                ps == sv(vs@),
                i <= ps.len(),
                all@ == concat_all(ps.take(i as int)),
                sv(tys@) == row_tys(ps.take(i as int), vars.model()),
            decreases ps.len() - i,
        {
            assert(ps.take(i + 1).drop_last() =~= ps.take(i as int));
            assert(ps.take(i + 1).last() == vs@[i as int]@);
            push_str(&mut all, vs[i].as_str());
            let (t, _) = var_ty(vs[i].as_str(), vars);
            let ts = t.to_string();
            proof {
                crate::text::lemma_sv_push(tys@, ts);
            }
            tys.push(ts);
            assert(row_tys(ps.take(i + 1), vars.model()) =~= row_tys(ps.take(i as int), vars.model()).push(
                spec_var_ty(vs@[i as int]@, vars.model()).0,
            ));
            i += 1;
        }
        assert(ps.take(ps.len() as int) =~= ps);
        let name = string_of(&snake_chars(&all));
        let mut d = chars_of(name.as_str());
        push_str(&mut d, ": [(");
        crate::text::append_chars(&mut d, &join_exec(&tys, ", "));
        push_str(&mut d, "); ");
        push_str(&mut d, len.as_str());
        push_str(&mut d, "],");
        (name, d)
    }
}

fn guess_block_exec(b: &FormatBlock, vars: &StrMap<VarConstraint>, decls: &mut Vec<String>, seen: &mut StrSet)
    ensures
        (GuessM { decls: sv(final(decls)@), seen: final(seen).map.model() }) == guess_block(
            GuessM { decls: sv(old(decls)@), seen: old(seen).map.model() },
            block_view(*b),
            vars.model(),
        ),
{
    match b {
        FormatBlock::Scalars(sb) => {
            let ghost g0 = GuessM { decls: sv(decls@), seen: seen.map.model() };
            let ghost vs = sv(sb.vars@);
            let mut i: usize = 0;
            assert(vs.take(0) =~= Seq::<Seq<char>>::empty());
            while i < sb.vars.len()
                invariant
                    vs == sv(sb.vars@),
                    i <= vs.len(),
                    (GuessM { decls: sv(decls@), seen: seen.map.model() }) == declare_scalars(
                        g0,
                        vs.take(i as int),
                        vars.model(),
                    ),
                decreases vs.len() - i,
            {
                assert(vs.take(i + 1).drop_last() =~= vs.take(i as int));
                let v = &sb.vars[i];
                assert(vs.take(i + 1).last() == v@);
                let (ty, _) = var_ty(v.as_str(), vars);
                let mut d = chars_of(v.as_str());
                push_str(&mut d, ": ");
                push_str(&mut d, ty);
                push_str(&mut d, ",");
                declare_exec(decls, seen, v, d);
                i += 1;
            }
            assert(vs.take(vs.len() as int) =~= vs);
        },
        FormatBlock::Array(a) => {
            let d = array_decl_exec(a, vars);
            declare_exec(decls, seen, &a.base, d);
        },
        FormatBlock::Rows(r) => {
            let (name, d) = rows_decl(&r.vars, &r.len, vars);
            declare_exec(decls, seen, &name, d);
        },
        _ => {},
    }
}

/// The `input!` declarations of the blocks that are read once, each name
/// declared at its first block.
pub fn format_blocks_to_guess_result(blocks: &Vec<FormatBlock>, vars: &StrMap<VarConstraint>) -> (r: GuessResult)
    ensures
        sv(r.decls@) == spec_guess(blocks_view(blocks@), vars.model()),
        r.extra_lines@.len() == 0,
{
    let ghost bs = blocks@;
    let mut decls: Vec<String> = Vec::new();
    let mut seen = StrSet::new();
    let mut i: usize = 0;
    assert(sv(decls@) =~= Seq::<Seq<char>>::empty());
    assert(seen.map.model() =~= Seq::<(Seq<char>, ())>::empty());
    while i < blocks.len()
        invariant
            bs == blocks@,
            i <= bs.len(),
            (GuessM { decls: sv(decls@), seen: seen.map.model() }) == guess_blocks(
                GuessM { decls: seq![], seen: seq![] },
                blocks_view(bs.subrange(0, i as int)),
                vars.model(),
            ),
        decreases bs.len() - i,
    {
        proof {
            assert(bs.subrange(0, i + 1) =~= bs.subrange(0, i as int).push(bs[i as int]));
            crate::parse::types::lemma_blocks_view_push(bs.subrange(0, i as int), bs[i as int]);
            let post = blocks_view(bs.subrange(0, i + 1));
            assert(post.drop_last() =~= blocks_view(bs.subrange(0, i as int)));
        }
        guess_block_exec(&blocks[i], vars, &mut decls, &mut seen);
        i += 1;
    }
    assert(bs.subrange(0, bs.len() as int) =~= bs);
    GuessResult { decls, extra_lines: Vec::new() }
}

// ─── the whole template ─────────────────────────────────────────────────────

pub open spec fn use_lines(needs_chars: bool) -> Seq<Seq<char>> {
    seq![
        if needs_chars {
            "use proconio::{input, fastout, marker::Chars};"@
        } else {
            "use proconio::{input, fastout};"@
        },
        seq![],
        "#[fastout]"@,
    ]
}

pub open spec fn indent(ds: Seq<Seq<char>>, pad: Seq<char>) -> Seq<Seq<char>> {
    ds.map_values(|d: Seq<char>| pad + d)
}

/// The first test-case block: its count and format.
pub open spec fn first_test_cases(bs: Seq<FormatBlockM>) -> Option<(Seq<char>, Seq<FormatBlockM>)>
    decreases bs.len(),
{
    if bs.len() == 0 {
        None
    } else {
        match bs[0] {
            FormatBlockM::TestCases { count, format } => Some((count, format)),
            _ => first_test_cases(bs.drop_first()),
        }
    }
}

/// The first query block: its count, discriminator and branches.
pub open spec fn first_queries(bs: Seq<FormatBlockM>) -> Option<
    (Seq<char>, Option<Seq<char>>, Seq<(Seq<char>, Seq<FormatBlockM>)>),
>
    decreases bs.len(),
{
    if bs.len() == 0 {
        None
    } else {
        match bs[0] {
            FormatBlockM::Queries { count, discriminator, types } => Some((count, discriminator, types)),
            _ => first_queries(bs.drop_first()),
        }
    }
}

pub open spec fn spec_needs_chars(vars: Seq<(Seq<char>, VarConstraintM)>) -> bool {
    exists|i: int| 0 <= i < vars.len() && (#[trigger] vars[i]).1.var_type == VarType::Chars
}

/// Declarations as `input!` fields: the trailing commas dropped.
pub open spec fn fields_of(decls: Seq<Seq<char>>) -> Seq<Seq<char>> {
    decls.map_values(|d: Seq<char>| crate::text::spec_trim_end_matches(d, ","@))
}

pub open spec fn branch_line(id: Seq<char>, fields: Seq<Seq<char>>) -> Seq<char> {
    if fields.len() == 0 {
        "            "@ + id + " => {},"@
    } else {
        "            "@ + id + " => { input! { "@ + join_with(fields, ", "@) + " } },"@
    }
}

pub open spec fn branch_lines(
    types: Seq<(Seq<char>, Seq<FormatBlockM>)>,
    vars: Seq<(Seq<char>, VarConstraintM)>,
) -> Seq<Seq<char>>
    decreases types.len(),
{
    if types.len() == 0 {
        seq![]
    } else {
        branch_lines(types.drop_last(), vars).push(
            branch_line(types.last().0, fields_of(spec_guess(types.last().1, vars))),
        )
    }
}

pub open spec fn all_numeric_ids(types: Seq<(Seq<char>, Seq<FormatBlockM>)>) -> bool {
    forall|i: int| 0 <= i < types.len() ==> crate::text::spec_parse_i32(#[trigger] types[i].0) is Some
}

/// The lines that read one query.
pub open spec fn query_lines(
    disc: Option<Seq<char>>,
    types: Seq<(Seq<char>, Seq<FormatBlockM>)>,
    vars: Seq<(Seq<char>, VarConstraintM)>,
) -> Seq<Seq<char>> {
    let d = match disc {
        Some(x) => x,
        None => "qt"@,
    };
    if all_numeric_ids(types) && types.len() > 0 {
        seq!["        input! { "@ + d + ": usize }"@, "        match "@ + d + " {"@] + branch_lines(types, vars) + seq![
            "            _ => unreachable!(),"@,
            "        }"@,
        ]
    } else if types.len() == 1 {
        let fields = fields_of(spec_guess(types[0].1, vars));
        seq!["        input! { "@ + join_with(seq![d + ": usize"@] + fields, ", "@) + " }"@]
    } else {
        seq!["        /* TODO: per-query fields */"@]
    }
}

/// The template's lines.
pub open spec fn render_lines(bs: Seq<FormatBlockM>, vars: Seq<(Seq<char>, VarConstraintM)>) -> Seq<Seq<char>> {
    let head = use_lines(spec_needs_chars(vars)) + seq!["fn main() {"@, "    input! {"@] + indent(
        spec_guess(bs, vars),
        "        "@,
    ) + seq!["    }"@];
    match first_test_cases(bs) {
        Some((count, format)) => head + seq!["    for _ in 0.."@ + count + " {"@, "        input! {"@] + indent(
            spec_guess(format, vars),
            "            "@,
        ) + seq!["        }"@, "        /* solve testcase */"@, "    }"@, "}"@],
        None => match first_queries(bs) {
            Some((count, disc, types)) => head + seq!["    for _ in 0.."@ + count + " {"@] + query_lines(
                disc,
                types,
                vars,
            ) + seq!["        /* process query */"@, "    }"@, "}"@],
            None => head + seq!["}"@],
        },
    }
}

pub open spec fn spec_render_section(bs: Seq<FormatBlockM>, vars: Seq<(Seq<char>, VarConstraintM)>) -> Seq<char> {
    join_with(render_lines(bs, vars), "\n"@)
}

fn push_line(out: &mut Vec<String>, l: String)
    ensures
        sv(final(out)@) == sv(old(out)@).push(l@),
{
    proof {
        crate::text::lemma_sv_push(out@, l);
    }
    out.push(l);
}

fn push_lit(out: &mut Vec<String>, l: &str)
    ensures
        sv(final(out)@) == sv(old(out)@).push(l@),
{
    push_line(out, l.to_string());
}

fn push_indented(out: &mut Vec<String>, pad: &str, ds: &Vec<String>)
    ensures
        sv(final(out)@) == sv(old(out)@) + indent(sv(ds@), pad@),
{
    let ghost o = sv(out@);
    let mut i: usize = 0;
    while i < ds.len()
        invariant
            i <= ds@.len(),
            sv(out@) == o + indent(sv(ds@).take(i as int), pad@),
        decreases ds.len() - i,
    {
        push_line(out, concat_str(pad, ds[i].as_str()));
        assert(indent(sv(ds@).take(i + 1), pad@) =~= indent(sv(ds@).take(i as int), pad@).push(pad@ + ds@[i as int]@));
        i += 1;
    }
    assert(sv(ds@).take(ds@.len() as int) =~= sv(ds@));
}

pub fn push_use_line(out: &mut Vec<String>, needs_chars: bool)
    ensures
        sv(final(out)@) == sv(old(out)@) + use_lines(needs_chars),
{
    let ghost o = sv(out@);
    if needs_chars {
        push_lit(out, "use proconio::{input, fastout, marker::Chars};");
    } else {
        push_lit(out, "use proconio::{input, fastout};");
    }
    push_line(out, String::new());
    proof {
        reveal_strlit("");
    }
    push_lit(out, "#[fastout]");
    assert(sv(out@) =~= o + use_lines(needs_chars));
}

fn needs_chars_exec(vars: &StrMap<VarConstraint>) -> (r: bool)
    ensures
        r == spec_needs_chars(vars.model()),
{
    let ghost m = vars.model();
    let mut i: usize = 0;
    while i < vars.len()
        invariant
            m == vars.model(),
            i <= m.len(),
            forall|j: int| 0 <= j < i ==> (#[trigger] m[j]).1.var_type != VarType::Chars,
        decreases m.len() - i,
    {
        if vars.value_at(i).var_type == VarType::Chars {
            assert(m[i as int].1.var_type == VarType::Chars);
            return true;
        }
        i += 1;
    }
    false
}

fn fields_exec(decls: &Vec<String>) -> (r: Vec<String>)
    ensures
        sv(r@) == fields_of(sv(decls@)),
{
    let mut out: Vec<String> = Vec::new();
    let mut i: usize = 0;
    while i < decls.len()
        invariant
            i <= decls@.len(),
            sv(out@) == fields_of(sv(decls@).take(i as int)),
        decreases decls.len() - i,
    {
        let f = string_of(&crate::text::trim_end_matches(&chars_of(decls[i].as_str()), ","));
        push_line(&mut out, f);
        assert(fields_of(sv(decls@).take(i + 1)) =~= fields_of(sv(decls@).take(i as int)).push(f@));
        i += 1;
    }
    assert(sv(decls@).take(decls@.len() as int) =~= sv(decls@));
    out
}

fn query_lines_exec(q: &QueriesBlock, vars: &StrMap<VarConstraint>, out: &mut Vec<String>)
    ensures
        sv(final(out)@) == sv(old(out)@) + query_lines(
            crate::regex_ops::opt_view(q.discriminator),
            branches_view(q.types@),
            vars.model(),
        ),
{
    let ghost o = sv(out@);
    let ghost tv = branches_view(q.types@);
    proof {
        crate::parse::types::lemma_branches_view_len(q.types@);
    }
    let disc: String = match &q.discriminator {
        Some(d) => d.clone(),
        None => "qt".to_string(),
    };
    let ghost dd = match crate::regex_ops::opt_view(q.discriminator) {
        Some(x) => x,
        None => "qt"@,
    };
    assert(disc@ == dd);
    let mut all_numeric = true;
    let mut i: usize = 0;
    while i < q.types.len()
        invariant
            tv == branches_view(q.types@),
            tv.len() == q.types@.len(),
            i <= q.types@.len(),
            all_numeric == forall|j: int| 0 <= j < i ==> crate::text::spec_parse_i32(#[trigger] tv[j].0) is Some,
        decreases q.types.len() - i,
    {
        proof {
            crate::parse::types::lemma_branches_view_index(q.types@, i as int);
        }
        let ok = crate::text::parse_i32(&chars_of(q.types[i].id.as_str())).is_some();
        assert(ok == (crate::text::spec_parse_i32(tv[i as int].0) is Some));
        all_numeric = all_numeric && ok;
        proof {
            if all_numeric {
                assert forall|j: int| 0 <= j < i + 1 implies crate::text::spec_parse_i32(#[trigger] tv[j].0) is Some by {
                    if j == i {
                        assert(ok);
                    }
                }
            }
        }
        i += 1;
    }
    if all_numeric && q.types.len() > 0 {
        push_line(out, concat_str(concat_str("        input! { ", disc.as_str()).as_str(), ": usize }"));
        push_line(out, concat_str(concat_str("        match ", disc.as_str()).as_str(), " {"));
        let ghost o2 = sv(out@);
        let mut j: usize = 0;
        assert(tv.take(0) =~= Seq::<(Seq<char>, Seq<FormatBlockM>)>::empty());
        while j < q.types.len()
            invariant
                tv == branches_view(q.types@),
                tv.len() == q.types@.len(),
                j <= q.types@.len(),
                sv(out@) == o2 + branch_lines(tv.take(j as int), vars.model()),
            decreases q.types.len() - j,
        {
            proof {
                crate::parse::types::lemma_branches_view_index(q.types@, j as int);
                assert(tv.take(j + 1).drop_last() =~= tv.take(j as int));
            }
            let br = &q.types[j];
            let inner = format_blocks_to_guess_result(&br.format, vars);
            let fields = fields_exec(&inner.decls);
            let line = if fields.len() == 0 {
                concat_str(concat_str("            ", br.id.as_str()).as_str(), " => {},")
            } else {
                let a = concat_str(concat_str("            ", br.id.as_str()).as_str(), " => { input! { ");
                let b = concat_str(a.as_str(), string_of(&join_exec(&fields, ", ")).as_str());
                concat_str(b.as_str(), " } },")
            };
            assert(line@ == branch_line(tv[j as int].0, fields_of(spec_guess(tv[j as int].1, vars.model()))));
            push_line(out, line);
            j += 1;
        }
        assert(tv.take(tv.len() as int) =~= tv);
        push_lit(out, "            _ => unreachable!(),");
        push_lit(out, "        }");
        assert(all_numeric_ids(tv) && tv.len() > 0);
        assert(sv(out@) =~= o + query_lines(crate::regex_ops::opt_view(q.discriminator), tv, vars.model()));
    } else if q.types.len() == 1 {
        proof {
            crate::parse::types::lemma_branches_view_index(q.types@, 0);
        }
        let inner = format_blocks_to_guess_result(&q.types[0].format, vars);
        let fields = fields_exec(&inner.decls);
        let mut all: Vec<String> = Vec::new();
        push_line(&mut all, concat_str(disc.as_str(), ": usize"));
        let ghost a0 = sv(all@);
        let mut k: usize = 0;
        while k < fields.len()
            invariant
                k <= fields@.len(),
                sv(all@) == a0 + sv(fields@).take(k as int),
            decreases fields.len() - k,
        {
            push_line(&mut all, fields[k].clone());
            assert(a0 + sv(fields@).take(k + 1) =~= (a0 + sv(fields@).take(k as int)).push(fields@[k as int]@));
            k += 1;
        }
        assert(sv(fields@).take(fields@.len() as int) =~= sv(fields@));
        let a = concat_str("        input! { ", string_of(&join_exec(&all, ", ")).as_str());
        push_line(out, concat_str(a.as_str(), " }"));
        assert(!(all_numeric_ids(tv) && tv.len() > 0));
        assert(sv(all@) =~= seq![dd + ": usize"@] + fields_of(spec_guess(tv[0].1, vars.model())));
        assert(sv(out@) =~= o + query_lines(crate::regex_ops::opt_view(q.discriminator), tv, vars.model()));
    } else {
        push_lit(out, "        /* TODO: per-query fields */");
        assert(sv(out@) =~= o + query_lines(crate::regex_ops::opt_view(q.discriminator), tv, vars.model()));
    }
    assert(sv(out@) =~= o + query_lines(crate::regex_ops::opt_view(q.discriminator), tv, vars.model()));
}

proof fn lemma_first_skip(bs: Seq<FormatBlockM>, i: int)
    requires
        0 <= i < bs.len(),
    ensures
        first_test_cases(bs.skip(i)) == match bs[i] {
            FormatBlockM::TestCases { count, format } => Some((count, format)),
            _ => first_test_cases(bs.skip(i + 1)),
        },
        first_queries(bs.skip(i)) == match bs[i] {
            FormatBlockM::Queries { count, discriminator, types } => Some((count, discriminator, types)),
            _ => first_queries(bs.skip(i + 1)),
        },
{
    assert(bs.skip(i).drop_first() =~= bs.skip(i + 1));
    assert(bs.skip(i)[0] == bs[i]);
}

/// A `main` for the section: the declarations read once, then a loop over
/// the test cases or queries of the first such block, if any.
pub fn render_section_from_format_blocks(blocks: &Vec<FormatBlock>, vars: &StrMap<VarConstraint>) -> (r: String)
    ensures
        r@ == spec_render_section(blocks_view(blocks@), vars.model()),
{
    let ghost bv = blocks_view(blocks@);
    proof {
        crate::parse::types::lemma_blocks_view_len(blocks@);
    }
    let mut tc_index: Option<usize> = None;
    let mut q_index: Option<usize> = None;
    let mut i: usize = 0;
    assert(bv.skip(0) =~= bv);
    while i < blocks.len()
        invariant
            bv == blocks_view(blocks@),
            bv.len() == blocks@.len(),
            i <= bv.len(),
            tc_index is None ==> first_test_cases(bv) == first_test_cases(bv.skip(i as int)),
            tc_index matches Some(t) ==> t < bv.len() && bv[t as int] is TestCases && first_test_cases(bv) == match bv[t as int] {
                FormatBlockM::TestCases { count, format } => Some((count, format)),
                _ => None,
            },
            q_index is None ==> first_queries(bv) == first_queries(bv.skip(i as int)),
            q_index matches Some(t) ==> t < bv.len() && bv[t as int] is Queries && first_queries(bv) == match bv[t as int] {
                FormatBlockM::Queries { count, discriminator, types } => Some((count, discriminator, types)),
                _ => None,
            },
        decreases bv.len() - i,
    {
        proof {
            crate::parse::types::lemma_blocks_view_index(blocks@, i as int);
            lemma_first_skip(bv, i as int);
        }
        match &blocks[i] {
            FormatBlock::TestCases(_) => {
                if tc_index.is_none() {
                    tc_index = Some(i);
                }
            },
            FormatBlock::Queries(_) => {
                if q_index.is_none() {
                    q_index = Some(i);
                }
            },
            _ => {},
        }
        i += 1;
    }
    proof {
        assert(bv.skip(bv.len() as int) =~= Seq::<FormatBlockM>::empty());
        assert(first_test_cases(Seq::<FormatBlockM>::empty()) is None);
        assert(first_queries(Seq::<FormatBlockM>::empty()) is None);
    }
    let head = format_blocks_to_guess_result(blocks, vars);
    let needs_chars = needs_chars_exec(vars);
    let mut out: Vec<String> = Vec::new();
    assert(sv(out@) =~= Seq::<Seq<char>>::empty());
    push_use_line(&mut out, needs_chars);
    push_lit(&mut out, "fn main() {");
    push_lit(&mut out, "    input! {");
    push_indented(&mut out, "        ", &head.decls);
    push_lit(&mut out, "    }");
    let ghost h = sv(out@);
    assert(h =~= use_lines(spec_needs_chars(vars.model())) + seq!["fn main() {"@, "    input! {"@] + indent(
        spec_guess(bv, vars.model()),
        "        "@,
    ) + seq!["    }"@]);
    match tc_index {
        Some(t) => {
            proof {
                crate::parse::types::lemma_blocks_view_index(blocks@, t as int);
            }
            match &blocks[t] {
                FormatBlock::TestCases(tc) => {
                    let inner = format_blocks_to_guess_result(&tc.format, vars);
                    push_line(&mut out, concat_str(concat_str("    for _ in 0..", tc.count.as_str()).as_str(), " {"));
                    push_lit(&mut out, "        input! {");
                    push_indented(&mut out, "            ", &inner.decls);
                    push_lit(&mut out, "        }");
                    push_lit(&mut out, "        /* solve testcase */");
                    push_lit(&mut out, "    }");
                    push_lit(&mut out, "}");
                },
                _ => {},
            }
        },
        None => match q_index {
            Some(t) => {
                proof {
                    crate::parse::types::lemma_blocks_view_index(blocks@, t as int);
                }
                match &blocks[t] {
                    FormatBlock::Queries(q) => {
                        push_line(&mut out, concat_str(concat_str("    for _ in 0..", q.count.as_str()).as_str(), " {"));
                        query_lines_exec(q, vars, &mut out);
                        push_lit(&mut out, "        /* process query */");
                        push_lit(&mut out, "    }");
                        push_lit(&mut out, "}");
                    },
                    _ => {},
                }
            },
            None => {
                push_lit(&mut out, "}");
            },
        },
    }
    assert(sv(out@) =~= render_lines(bv, vars.model()));
    string_of(&join_exec(&out, "\n"))
}

/// The template of a task: its section, rendered.
pub fn render_task(task: &crate::parse::types::TaskSection) -> (r: String)
    ensures
        exists|s: crate::parse::types::SectionM|
            crate::parse::enrich::spec_task_section(
                crate::parse::task::blocks_lines(task.input_blocks@),
                sv(task.constraints_items@),
                s,
            ) && r@ == #[trigger] spec_render_section(s.format, s.vars),
{
    let rt = crate::parse::enrich::task_to_format_blocks(task);
    let r = render_section_from_format_blocks(&rt.format, &rt.vars);
    assert(r@ == spec_render_section(rt.model().format, rt.model().vars));
    r
}

// ─── templates for a contest ────────────────────────────────────────────────

/// The path `stem` with its extension set to `rs`, as camino's
/// `Utf8Path::with_extension` gives it.
pub uninterp spec fn path_with_rs_extension(stem: Seq<char>) -> Seq<char>;

/// `Utf8Path::new(stem).with_extension("rs")`.
#[verifier::external_body]
fn with_rs_extension(stem: &str) -> (r: String)
    ensures
        r@ == path_with_rs_extension(stem@),
{
    camino::Utf8Path::new(stem).with_extension("rs").into_string()
}

/// The templates of the tasks with a `random_test:` section, by source
/// file under `src/bin`, from `(yml file stem, section)`; a later entry
/// wins a file name.
pub open spec fn spec_templates(es: Seq<(Seq<char>, crate::parse::types::SectionM)>) -> Seq<(Seq<char>, Seq<char>)>
    decreases es.len(),
{
    if es.len() == 0 {
        seq![]
    } else {
        m_insert(
            spec_templates(es.drop_last()),
            path_with_rs_extension(es.last().0),
            spec_render_section(es.last().1.format, es.last().1.vars),
        )
    }
}

pub open spec fn sections_view(es: Seq<(String, crate::parse::types::RandomTestSection)>) -> Seq<
    (Seq<char>, crate::parse::types::SectionM),
> {
    es.map_values(|e: (String, crate::parse::types::RandomTestSection)| (e.0@, e.1.model()))
}

/// The templates of a contest's tasks, from the sections read out of its
/// `testcases/*.yml` files.
pub fn generate_templates(entries: &Vec<(String, crate::parse::types::RandomTestSection)>) -> (r: StrMap<String>)
    ensures
        r.model() == spec_templates(sections_view(entries@)),
{
    let ghost es = sections_view(entries@);
    let mut out: StrMap<String> = StrMap::new();
    let mut i: usize = 0;
    assert(es.take(0) =~= Seq::<(Seq<char>, crate::parse::types::SectionM)>::empty());
    while i < entries.len()
        invariant
            es == sections_view(entries@),
            i <= entries@.len(),
            out.model() == spec_templates(es.take(i as int)),
        decreases entries.len() - i,
    {
        assert(es.take(i + 1).drop_last() =~= es.take(i as int));
        assert(es.take(i + 1).last() == (entries@[i as int].0@, entries@[i as int].1.model()));
        let (stem, section) = &entries[i];
        let path = with_rs_extension(stem.as_str());
        let content = render_section_from_format_blocks(&section.format, &section.vars);
        out.insert(path, content);
        i += 1;
    }
    assert(es.take(es.len() as int) =~= es);
    out
}

} // verus!
