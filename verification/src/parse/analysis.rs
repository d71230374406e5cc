//! Structural analysis of a `format:` tree: the shape each variable is read
//! in, the names used as sizes, and how jagged rows are counted.

use vstd::prelude::*;
use crate::maps::{m_get, m_has, m_insert, StrMap, StrSet};
use crate::text::sv;
use crate::parse::types::{
    block_view, blocks_view, branches_view, lemma_blocks_view_index, lemma_branches_view_index,
    FormatBlock, FormatBlockM,
};

verus! {

/// How a variable is laid out in the input.
#[derive(Clone, Copy, Debug, PartialEq, Eq, Structural)]
pub enum VarShape {
    Scalar,
    Array,
    Rows,
    Jagged,
}

impl DeepView for VarShape {
    type V = VarShape;

    open spec fn deep_view(&self) -> VarShape {
        *self
    }
}

/// What one pass over a `format:` tree finds.
#[derive(Debug)]
pub struct FormatAnalysis {
    pub shapes: StrMap<VarShape>,
    pub referenced_names: StrSet,
    pub size_exprs: StrSet,
    pub first_test_cases_count: Option<String>,
    pub jagged_len_to_count: StrMap<String>,
}

pub struct AnalysisM {
    pub shapes: Seq<(Seq<char>, VarShape)>,
    pub referenced: Seq<(Seq<char>, ())>,
    pub sizes: Seq<(Seq<char>, ())>,
    pub first_count: Option<Seq<char>>,
    pub jagged: Seq<(Seq<char>, Seq<char>)>,
}

impl FormatAnalysis {
    pub open spec fn model(&self) -> AnalysisM {
        AnalysisM {
            shapes: self.shapes.model(),
            referenced: self.referenced_names.map.model(),
            sizes: self.size_exprs.map.model(),
            first_count: crate::regex_ops::opt_view(self.first_test_cases_count),
            jagged: self.jagged_len_to_count.model(),
        }
    }

    /// The shape `name` is read in; a name never laid out is a scalar.
    pub fn shape_of(&self, name: &str) -> (r: VarShape)
        ensures
            r == (match m_get(self.model().shapes, name@) {
                Some(s) => s,
                None => VarShape::Scalar,
            }),
    {
        match self.shapes.get(name) {
            Some(s) => *s,
            None => VarShape::Scalar,
        }
    }
}

pub open spec fn mark_scalar(m: AnalysisM, name: Seq<char>) -> AnalysisM {
    AnalysisM {
        referenced: m_insert(m.referenced, name, ()),
        shapes: if m_has(m.shapes, name) {
            m.shapes
        } else {
            m_insert(m.shapes, name, VarShape::Scalar)
        },
        ..m
    }
}

pub open spec fn mark_size(m: AnalysisM, expr: Seq<char>) -> AnalysisM {
    mark_scalar(AnalysisM { sizes: m_insert(m.sizes, expr, ()), ..m }, expr)
}

pub open spec fn mark_size_opt(m: AnalysisM, expr: Option<Seq<char>>) -> AnalysisM {
    match expr {
        Some(e) => mark_size(m, e),
        None => m,
    }
}

pub open spec fn mark_scalars(m: AnalysisM, names: Seq<Seq<char>>) -> AnalysisM
    decreases names.len(),
{
    if names.len() == 0 {
        m
    } else {
        mark_scalar(mark_scalars(m, names.drop_last()), names.last())
    }
}

pub open spec fn mark_rows(m: AnalysisM, names: Seq<Seq<char>>) -> AnalysisM
    decreases names.len(),
{
    if names.len() == 0 {
        m
    } else {
        let p = mark_rows(m, names.drop_last());
        AnalysisM {
            referenced: m_insert(p.referenced, names.last(), ()),
            shapes: m_insert(p.shapes, names.last(), VarShape::Rows),
            ..p
        }
    }
}

pub open spec fn analyze_block(m: AnalysisM, b: FormatBlockM) -> AnalysisM
    decreases b,
{
    match b {
        FormatBlockM::Scalars(vars) => mark_scalars(m, vars),
        FormatBlockM::Array { base, len, height, count, jagged } => {
            let m1 = AnalysisM {
                referenced: m_insert(m.referenced, base, ()),
                shapes: m_insert(
                    m.shapes,
                    base,
                    if jagged {
                        VarShape::Jagged
                    } else {
                        VarShape::Array
                    },
                ),
                ..m
            };
            let m2 = mark_size_opt(mark_size_opt(mark_size_opt(m1, len), height), count);
            if jagged {
                match (len, count) {
                    (Some(l), Some(c)) => if m_has(m2.jagged, l) {
                        m2
                    } else {
                        AnalysisM { jagged: m_insert(m2.jagged, l, c), ..m2 }
                    },
                    _ => m2,
                }
            } else {
                m2
            }
        },
        FormatBlockM::Rows { vars, len } => mark_size(mark_rows(m, vars), len),
        FormatBlockM::TestCases { count, format } => {
            let m1 = if m.first_count is None {
                AnalysisM { first_count: Some(count), ..m }
            } else {
                m
            };
            analyze_blocks(mark_size(m1, count), format)
        },
        FormatBlockM::Queries { count, discriminator, types } => {
            let m1 = mark_size(m, count);
            let m2 = match discriminator {
                Some(d) => mark_scalar(m1, d),
                None => m1,
            };
            analyze_branches(m2, types)
        },
    }
}

pub open spec fn analyze_blocks(m: AnalysisM, bs: Seq<FormatBlockM>) -> AnalysisM
    decreases bs,
{
    if bs.len() == 0 {
        m
    } else {
        analyze_block(analyze_blocks(m, bs.subrange(0, bs.len() - 1)), bs[bs.len() - 1])
    }
}

pub open spec fn analyze_branches(m: AnalysisM, qs: Seq<(Seq<char>, Seq<FormatBlockM>)>) -> AnalysisM
    decreases qs,
{
    if qs.len() == 0 {
        m
    } else {
        analyze_blocks(analyze_branches(m, qs.subrange(0, qs.len() - 1)), qs[qs.len() - 1].1)
    }
}

pub proof fn lemma_analyze_blocks_push(m: AnalysisM, bs: Seq<FormatBlockM>, b: FormatBlockM)
    ensures
        analyze_blocks(m, bs.push(b)) == analyze_block(analyze_blocks(m, bs), b),
{
    assert(bs.push(b).subrange(0, bs.len() as int) =~= bs);
}

pub proof fn lemma_analyze_branches_push(
    m: AnalysisM,
    qs: Seq<(Seq<char>, Seq<FormatBlockM>)>,
    q: (Seq<char>, Seq<FormatBlockM>),
)
    ensures
        analyze_branches(m, qs.push(q)) == analyze_blocks(analyze_branches(m, qs), q.1),
{
    assert(qs.push(q).subrange(0, qs.len() as int) =~= qs);
}

pub open spec fn empty_analysis() -> AnalysisM {
    AnalysisM { shapes: seq![], referenced: seq![], sizes: seq![], first_count: None, jagged: seq![] }
}

fn mark_scalar_exec(out: &mut FormatAnalysis, name: &String)
    ensures
        final(out).model() == mark_scalar(old(out).model(), name@),
{
    out.referenced_names.insert(name.clone());
    if !out.shapes.contains_key(name.as_str()) {
        out.shapes.insert(name.clone(), VarShape::Scalar);
    }
}

fn mark_size_exec(out: &mut FormatAnalysis, expr: &String)
    ensures
        final(out).model() == mark_size(old(out).model(), expr@),
{
    out.size_exprs.insert(expr.clone());
    mark_scalar_exec(out, expr);
}

fn mark_size_opt_exec(out: &mut FormatAnalysis, expr: &Option<String>)
    ensures
        final(out).model() == mark_size_opt(old(out).model(), crate::regex_ops::opt_view(*expr)),
{
    match expr {
        Some(e) => mark_size_exec(out, e),
        None => {},
    }
}

fn analyze_block_exec(b: &FormatBlock, out: &mut FormatAnalysis)
    ensures
        final(out).model() == analyze_block(old(out).model(), block_view(*b)),
    decreases b,
{
    match b {
        FormatBlock::Scalars(s) => {
            let ghost m0 = out.model();
            let ghost vs = sv(s.vars@);
            let mut j: usize = 0;
            assert(vs.take(0) =~= Seq::<Seq<char>>::empty());
            while j < s.vars.len()
                invariant
                    vs == sv(s.vars@),
                    j <= s.vars@.len(),
                    out.model() == mark_scalars(m0, vs.take(j as int)),
                decreases s.vars.len() - j,
            {
                assert(vs.take(j + 1).drop_last() =~= vs.take(j as int));
                assert(vs.take(j + 1).last() == s.vars@[j as int]@);
                mark_scalar_exec(out, &s.vars[j]);
                j += 1;
            }
            assert(vs.take(s.vars@.len() as int) =~= vs);
        },
        FormatBlock::Array(a) => {
            out.referenced_names.insert(a.base.clone());
            out.shapes.insert(
                a.base.clone(),
                if a.jagged {
                    VarShape::Jagged
                } else {
                    VarShape::Array
                },
            );
            mark_size_opt_exec(out, &a.len);
            mark_size_opt_exec(out, &a.height);
            mark_size_opt_exec(out, &a.count);
            if a.jagged {
                match (&a.len, &a.count) {
                    (Some(l), Some(c)) => {
                        if !out.jagged_len_to_count.contains_key(l.as_str()) {
                            out.jagged_len_to_count.insert(l.clone(), c.clone());
                        }
                    },
                    _ => {},
                }
            }
        },
        FormatBlock::Rows(r) => {
            let ghost m0 = out.model();
            let ghost vs = sv(r.vars@);
            let mut j: usize = 0;
            assert(vs.take(0) =~= Seq::<Seq<char>>::empty());
            while j < r.vars.len()
                invariant
                    vs == sv(r.vars@),
                    j <= r.vars@.len(),
                    out.model() == mark_rows(m0, vs.take(j as int)),
                decreases r.vars.len() - j,
            {
                assert(vs.take(j + 1).drop_last() =~= vs.take(j as int));
                assert(vs.take(j + 1).last() == r.vars@[j as int]@);
                out.referenced_names.insert(r.vars[j].clone());
                out.shapes.insert(r.vars[j].clone(), VarShape::Rows);
                j += 1;
            }
            assert(vs.take(r.vars@.len() as int) =~= vs);
            mark_size_exec(out, &r.len);
        },
        FormatBlock::TestCases(t) => {
            if out.first_test_cases_count.is_none() {
                out.first_test_cases_count = Some(t.count.clone());
            }
            mark_size_exec(out, &t.count);
            analyze_blocks_exec(&t.format, out);
        },
        FormatBlock::Queries(q) => {
            mark_size_exec(out, &q.count);
            match &q.discriminator {
                Some(d) => mark_scalar_exec(out, d),
                None => {},
            }
            let ghost m0 = out.model();
            let ghost qs = q.types@;
            let mut j: usize = 0;
            while j < q.types.len()
                invariant
                    *b == FormatBlock::Queries(*q),
                    qs == q.types@,
                    j <= qs.len(),
                    out.model() == analyze_branches(m0, branches_view(qs.subrange(0, j as int))),
                decreases q.types.len() - j,
            {
                proof {
                    assert(qs.subrange(0, j + 1) =~= qs.subrange(0, j as int).push(qs[j as int]));
                    assert(qs.subrange(0, j + 1).subrange(0, j as int) =~= qs.subrange(0, j as int));
                    lemma_analyze_branches_push(
                        m0,
                        branches_view(qs.subrange(0, j as int)),
                        (qs[j as int].id@, blocks_view(qs[j as int].format@)),
                    );
                    assert((*b)->Queries_0 == *q);
                    assert(decreases_to!(*b => (*b)->Queries_0));
                    assert(decreases_to!(*q => q.types));
                    assert(decreases_to!(q.types => q.types@));
                    assert(decreases_to!(q.types@ => q.types@[j as int]));
                    assert(decreases_to!(q.types@[j as int] => q.types@[j as int].format));
                    assert(decreases_to!(*b => q.types@[j as int].format));
                }
                analyze_blocks_exec(&q.types[j].format, out);
                j += 1;
            }
            assert(qs.subrange(0, qs.len() as int) =~= qs);
        },
    }
}

fn analyze_blocks_exec(blocks: &Vec<FormatBlock>, out: &mut FormatAnalysis)
    ensures
        final(out).model() == analyze_blocks(old(out).model(), blocks_view(blocks@)),
    decreases blocks,
{
    let ghost m0 = out.model();
    let ghost bs = blocks@;
    let mut i: usize = 0;
    while i < blocks.len()
        invariant
            bs == blocks@,
            i <= bs.len(),
            out.model() == analyze_blocks(m0, blocks_view(bs.subrange(0, i as int))),
        decreases blocks.len() - i,
    {
        proof {
            assert(bs.subrange(0, i + 1) =~= bs.subrange(0, i as int).push(bs[i as int]));
            crate::parse::types::lemma_blocks_view_push(bs.subrange(0, i as int), bs[i as int]);
            lemma_analyze_blocks_push(
                m0,
                blocks_view(bs.subrange(0, i as int)),
                block_view(bs[i as int]),
            );
        }
        analyze_block_exec(&blocks[i], out);
        i += 1;
    }
    assert(bs.subrange(0, bs.len() as int) =~= bs);
}

/// One traversal of the format tree.
pub fn analyze_format(blocks: &Vec<FormatBlock>) -> (r: FormatAnalysis)
    ensures
        r.model() == analyze_blocks(empty_analysis(), blocks_view(blocks@)),
{
    let mut out = FormatAnalysis {
        shapes: StrMap::new(),
        referenced_names: StrSet::new(),
        size_exprs: StrSet::new(),
        first_test_cases_count: None,
        jagged_len_to_count: StrMap::new(),
    };
    assert(out.model() =~= empty_analysis()) by {
        assert(out.model().referenced =~= Seq::<(Seq<char>, ())>::empty());
        assert(out.model().sizes =~= Seq::<(Seq<char>, ())>::empty());
    }
    analyze_blocks_exec(blocks, &mut out);
    out
}

} // verus!
