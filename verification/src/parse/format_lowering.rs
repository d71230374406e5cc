//! Lowering of physical array dimensions to the fields a variable's type
//! reads: a `Chars` array is a list of strings, its innermost dimension the
//! string length.

use vstd::prelude::*;
use crate::maps::{m_get, m_insert, StrMap};
use crate::parse::types::{
    block_view, blocks_view, branches_view, lemma_blocks_view_push, ArrayBlock, BoundRepr,
    BoundReprM, FormatBlock, FormatBlockM, QueryBranch, VarConstraint, VarConstraintM, VarType,
};

verus! {

pub open spec fn lower_block(b: FormatBlockM, vars: Seq<(Seq<char>, VarConstraintM)>) -> (
    FormatBlockM,
    Seq<(Seq<char>, VarConstraintM)>,
)
    decreases b,
{
    match b {
        FormatBlockM::Array { base, len, height, count, jagged } => if jagged {
            (b, vars)
        } else {
            match m_get(vars, base) {
                Some(v) => if v.var_type != VarType::Chars {
                    (b, vars)
                } else if height is None && count is None {
                    (FormatBlockM::Array { base, len: None, height, count: len, jagged }, vars)
                } else if count is Some {
                    match len {
                        Some(w) => (
                            FormatBlockM::Array { base, len: None, height, count, jagged },
                            m_insert(vars, base, VarConstraintM { len: Some(BoundReprM::Expr(w)), ..v }),
                        ),
                        None => (b, vars),
                    }
                } else {
                    (b, vars)
                },
                None => (b, vars),
            }
        },
        FormatBlockM::TestCases { count, format } => {
            let r = lower_blocks(format, vars);
            (FormatBlockM::TestCases { count, format: r.0 }, r.1)
        },
        FormatBlockM::Queries { count, discriminator, types } => {
            let r = lower_branches(types, vars);
            (FormatBlockM::Queries { count, discriminator, types: r.0 }, r.1)
        },
        _ => (b, vars),
    }
}

pub open spec fn lower_blocks(bs: Seq<FormatBlockM>, vars: Seq<(Seq<char>, VarConstraintM)>) -> (
    Seq<FormatBlockM>,
    Seq<(Seq<char>, VarConstraintM)>,
)
    decreases bs,
{
    if bs.len() == 0 {
        (seq![], vars)
    } else {
        let p = lower_blocks(bs.subrange(0, bs.len() - 1), vars);
        let q = lower_block(bs[bs.len() - 1], p.1);
        (p.0.push(q.0), q.1)
    }
}

pub open spec fn lower_branches(
    qs: Seq<(Seq<char>, Seq<FormatBlockM>)>,
    vars: Seq<(Seq<char>, VarConstraintM)>,
) -> (Seq<(Seq<char>, Seq<FormatBlockM>)>, Seq<(Seq<char>, VarConstraintM)>)
    decreases qs,
{
    if qs.len() == 0 {
        (seq![], vars)
    } else {
        let p = lower_branches(qs.subrange(0, qs.len() - 1), vars);
        let q = lower_blocks(qs[qs.len() - 1].1, p.1);
        (p.0.push((qs[qs.len() - 1].0, q.0)), q.1)
    }
}

fn lower_array(arr: ArrayBlock, vars: &mut StrMap<VarConstraint>) -> (r: FormatBlock)
    ensures
        (block_view(r), final(vars).model()) == lower_block(
            block_view(FormatBlock::Array(arr)),
            old(vars).model(),
        ),
{
    let mut arr = arr;
    if arr.jagged {
        return FormatBlock::Array(arr);
    }
    let v = match vars.get(arr.base.as_str()) {
        Some(v) => v.clone_constraint(),
        None => return FormatBlock::Array(arr),
    };
    if v.var_type != VarType::Chars {
        return FormatBlock::Array(arr);
    }
    if arr.height.is_none() && arr.count.is_none() {
        let l = arr.len;
        arr.len = None;
        arr.count = l;
        FormatBlock::Array(arr)
    } else if arr.count.is_some() {
        let l = arr.len;
        arr.len = None;
        match l {
            Some(w) => {
                let mut v2 = v;
                v2.len = Some(BoundRepr::Expr(w));
                vars.insert(arr.base.clone(), v2);
                FormatBlock::Array(arr)
            },
            None => FormatBlock::Array(arr),
        }
    } else {
        FormatBlock::Array(arr)
    }
}

fn lower_block_exec(b: FormatBlock, vars: &mut StrMap<VarConstraint>) -> (r: FormatBlock)
    ensures
        (block_view(r), final(vars).model()) == lower_block(block_view(b), old(vars).model()),
    decreases b,
{
    match b {
        FormatBlock::Array(arr) => lower_array(arr, vars),
        FormatBlock::TestCases(tc) => {
            let mut tc = tc;
            let ghost f0 = tc.format;
            assert(decreases_to!(b => f0));
            lower_blocks_exec(&mut tc.format, vars);
            FormatBlock::TestCases(tc)
        },
        FormatBlock::Queries(q) => {
            let mut q = q;
            let ghost t0 = q.types;
            assert(decreases_to!(b => t0));
            lower_branches_exec(&mut q.types, vars);
            FormatBlock::Queries(q)
        },
        other => other,
    }
}

fn lower_blocks_exec(blocks: &mut Vec<FormatBlock>, vars: &mut StrMap<VarConstraint>)
    ensures
        (blocks_view(final(blocks)@), final(vars).model()) == lower_blocks(
            blocks_view(old(blocks)@),
            old(vars).model(),
        ),
    decreases *old(blocks),
{
    let ghost bs = blocks@;
    let ghost v0 = vars.model();
    let n = blocks.len();
    let mut rest: Vec<FormatBlock> = Vec::new();
    std::mem::swap(blocks, &mut rest);
    let mut out: Vec<FormatBlock> = Vec::new();
    let mut i: usize = 0;
    assert(bs.subrange(0, 0) =~= Seq::<FormatBlock>::empty());
    assert(blocks_view(out@) =~= Seq::<FormatBlockM>::empty());
    while rest.len() > 0
        invariant
            bs == old(blocks)@,
            n == bs.len(),
            i + rest@.len() == bs.len(),
            rest@ =~= bs.subrange(i as int, bs.len() as int),
            (blocks_view(out@), vars.model()) == lower_blocks(blocks_view(bs.subrange(0, i as int)), v0),
        decreases rest.len(),
    {
        let b = rest.remove(0);
        assert(b == bs[i as int]);
        assert(decreases_to!(*old(blocks) => old(blocks)@));
        assert(decreases_to!(old(blocks)@ => bs[i as int]));
        let ghost o = out@;
        let ghost vm = vars.model();
        let r = lower_block_exec(b, vars);
        out.push(r);
        proof {
            assert(bs.subrange(0, i + 1) =~= bs.subrange(0, i as int).push(bs[i as int]));
            lemma_blocks_view_push(bs.subrange(0, i as int), bs[i as int]);
            assert(blocks_view(bs.subrange(0, i as int)).push(block_view(bs[i as int])).subrange(
                0,
                blocks_view(bs.subrange(0, i as int)).len() as int,
            ) =~= blocks_view(bs.subrange(0, i as int)));
            lemma_blocks_view_push(o, r);
        }
        i += 1;
    }
    assert(bs.subrange(0, bs.len() as int) =~= bs);
    std::mem::swap(blocks, &mut out);
}

fn lower_branches_exec(types: &mut Vec<QueryBranch>, vars: &mut StrMap<VarConstraint>)
    ensures
        (branches_view(final(types)@), final(vars).model()) == lower_branches(
            branches_view(old(types)@),
            old(vars).model(),
        ),
    decreases *old(types),
{
    let ghost qs = types@;
    let ghost v0 = vars.model();
    let n = types.len();
    let mut rest: Vec<QueryBranch> = Vec::new();
    std::mem::swap(types, &mut rest);
    let mut out: Vec<QueryBranch> = Vec::new();
    let mut i: usize = 0;
    assert(qs.subrange(0, 0) =~= Seq::<QueryBranch>::empty());
    assert(branches_view(out@) =~= Seq::<(Seq<char>, Seq<FormatBlockM>)>::empty());
    while rest.len() > 0
        invariant
            qs == old(types)@,
            n == qs.len(),
            i + rest@.len() == qs.len(),
            rest@ =~= qs.subrange(i as int, qs.len() as int),
            (branches_view(out@), vars.model()) == lower_branches(
                branches_view(qs.subrange(0, i as int)),
                v0,
            ),
        decreases rest.len(),
    {
        let br = rest.remove(0);
        assert(br == qs[i as int]);
        let ghost f0 = br.format;
        assert(decreases_to!(*old(types) => old(types)@));
        assert(decreases_to!(old(types)@ => qs[i as int]));
        assert(decreases_to!(qs[i as int] => f0));
        let mut br = br;
        let ghost o = out@;
        lower_blocks_exec(&mut br.format, vars);
        out.push(br);
        proof {
            assert(qs.subrange(0, i + 1) =~= qs.subrange(0, i as int).push(qs[i as int]));
            assert(qs.subrange(0, i + 1).subrange(0, i as int) =~= qs.subrange(0, i as int));
            let pv = branches_view(qs.subrange(0, i as int));
            assert(branches_view(qs.subrange(0, i + 1)) == pv.push(
                (qs[i as int].id@, blocks_view(qs[i as int].format@)),
            ));
            assert(pv.push((qs[i as int].id@, blocks_view(qs[i as int].format@))).subrange(
                0,
                pv.len() as int,
            ) =~= pv);
            assert(o.push(br).subrange(0, o.len() as int) =~= o);
        }
        i += 1;
    }
    assert(qs.subrange(0, qs.len() as int) =~= qs);
    std::mem::swap(types, &mut out);
}

/// Move each `Chars` array's innermost dimension to its string length: a
/// list of strings counts its strings, and a grid of them keeps its rows
/// while the row width becomes the variable's `len`.
pub fn lower_typed_format_dimensions(blocks: &mut Vec<FormatBlock>, vars: &mut StrMap<VarConstraint>)
    ensures
        (blocks_view(final(blocks)@), final(vars).model()) == lower_blocks(
            blocks_view(old(blocks)@),
            old(vars).model(),
        ),
{
    lower_blocks_exec(blocks, vars);
}

} // verus!
