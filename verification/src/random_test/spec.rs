//! The `random_test:` section resolved for generation.
//!
//! Resolution reads the section as written: no inference and no implicit
//! defaults. A variable that lacks what generation needs (numeric bounds, a
//! string's charset or length), a size expression of an unsupported shape,
//! or a format variable without a declaration is recorded in `missing` with
//! a message naming it and the field to edit.

use vstd::prelude::*;
use crate::maps::{m_get, m_has, m_insert, m_insert_all, StrMap, StrSet};
use crate::text::{all_digits, chars_of, concat_str, spec_parse_i64, spec_trim, string_of, sv};
use crate::parse::analysis::{analyze_blocks, analyze_format, empty_analysis, AnalysisM, VarShape};
use crate::parse::range_bounds::lit_of;
use crate::parse::types::{
    block_view, blocks_view, opt_repr_view, pairs2_view, repr_view, BoundRepr, BoundReprM, FormatBlock,
    FormatBlockM, RandomTestSection, SectionM, VarConstraint, VarConstraintM, VarType,
};
use crate::regex_ops::opt_view;

verus! {

// ─── resolved variables ─────────────────────────────────────────────────────

/// The upper end of a numeric variable.
#[derive(Clone, Copy, Debug, PartialEq, Eq, Structural)]
pub enum Hi {
    /// A literal upper end from `range`.
    Fixed(i64),
    /// No literal upper end, but a sum limit; the per-case cap is applied
    /// while generating.
    SumLimited(i64),
}

/// What generation needs of one variable.
#[derive(Clone, Debug)]
pub struct VarInfo {
    pub ty: VarType,
    /// The lower end; `0` where it is missing (and recorded as missing).
    pub lo: i64,
    pub hi: Hi,
    /// The integer domain of an enumerated numeric variable.
    pub values: Option<Vec<i64>>,
    /// The characters of a string variable.
    pub charset: Option<Vec<char>>,
    /// The length of a string variable.
    pub len: Option<BoundRepr>,
    pub all_distinct: bool,
    pub sum_limit: Option<i64>,
}

pub struct VarInfoM {
    pub ty: VarType,
    pub lo: i64,
    pub hi: Hi,
    pub values: Option<Seq<i64>>,
    pub charset: Option<Seq<char>>,
    pub len: Option<BoundReprM>,
    pub all_distinct: bool,
    pub sum_limit: Option<i64>,
}

pub open spec fn opt_seq_view<T>(o: Option<Vec<T>>) -> Option<Seq<T>> {
    match o {
        Some(v) => Some(v@),
        None => None,
    }
}

impl DeepView for VarInfo {
    type V = VarInfoM;

    open spec fn deep_view(&self) -> VarInfoM {
        VarInfoM {
            ty: self.ty,
            lo: self.lo,
            hi: self.hi,
            values: opt_seq_view(self.values),
            charset: opt_seq_view(self.charset),
            len: opt_repr_view(self.len),
            all_distinct: self.all_distinct,
            sum_limit: self.sum_limit,
        }
    }
}

/// A size field: a literal, a declared variable, or a declared variable
/// with a literal offset.
#[derive(Clone, Debug, PartialEq, Eq)]
pub enum SizeTerm {
    Lit(i64),
    Var(String),
    VarOffset(String, i64),
}

pub enum SizeTermM {
    Lit(i64),
    Var(Seq<char>),
    VarOffset(Seq<char>, i64),
}

impl DeepView for SizeTerm {
    type V = SizeTermM;

    open spec fn deep_view(&self) -> SizeTermM {
        match self {
            SizeTerm::Lit(n) => SizeTermM::Lit(*n),
            SizeTerm::Var(s) => SizeTermM::Var(s@),
            SizeTerm::VarOffset(s, k) => SizeTermM::VarOffset(s@, *k),
        }
    }
}

pub open spec fn opt_term_view(o: Option<SizeTerm>) -> Option<SizeTermM> {
    match o {
        Some(t) => Some(t.deep_view()),
        None => None,
    }
}

// ─── size expressions ───────────────────────────────────────────────────────

/// One outer pair of parentheses removed, then trimmed.
pub open spec fn spec_strip_one_paren(s: Seq<char>) -> Seq<char> {
    let t = spec_trim(s);
    if t.len() >= 2 && t[0] == '(' && t[t.len() - 1] == ')' {
        spec_trim(t.subrange(1, t.len() - 1))
    } else {
        t
    }
}

pub fn strip_one_paren(s: &str) -> (r: String)
    ensures
        r@ == spec_strip_one_paren(s@),
{
    let t = crate::text::trim(&chars_of(s));
    if t.len() >= 2 && t[0] == '(' && t[t.len() - 1] == ')' {
        let inner = crate::text::copy_range(&t, 1, t.len() - 1);
        string_of(&crate::text::trim(&inner))
    } else {
        string_of(&t)
    }
}

pub open spec fn is_sign(c: char) -> bool {
    c == '+' || c == '-'
}

/// Scanning positions `j - 1` down to `1`: the first sign followed by a
/// non-empty run of digits to the end.
pub open spec fn sign_split_below(e: Seq<char>, j: int) -> Option<int>
    decreases j,
{
    if j <= 1 {
        None
    } else {
        let i = j - 1;
        if is_sign(e[i]) && e.skip(i + 1).len() > 0 && all_digits(e.skip(i + 1)) {
            Some(i)
        } else {
            sign_split_below(e, i)
        }
    }
}

/// A size expression read against the declared variables: a literal, a
/// declared name, or a declared name (optionally in one pair of
/// parentheses) followed by `+` or `-` and digits.
pub open spec fn spec_parse_size(expr: Seq<char>, vars: Seq<(Seq<char>, VarInfoM)>) -> Option<SizeTermM> {
    let e = spec_trim(expr);
    match spec_parse_i64(e) {
        Some(n) => Some(SizeTermM::Lit(n)),
        None => if m_has(vars, e) {
            Some(SizeTermM::Var(e))
        } else {
            match sign_split_below(e, e.len() as int) {
                Some(i) => {
                    let base = spec_strip_one_paren(e.take(i));
                    if m_has(vars, base) {
                        match spec_parse_i64(e.skip(i + 1)) {
                            Some(mag) => Some(
                                SizeTermM::VarOffset(base, if e[i] == '-' { (-mag) as i64 } else { mag }),
                            ),
                            None => None,
                        }
                    } else {
                        None
                    }
                },
                None => None,
            }
        },
    }
}

proof fn lemma_sign_split(e: Seq<char>, j: int)
    requires
        j <= e.len(),
    ensures
        sign_split_below(e, j) matches Some(i) ==> 1 <= i < j && is_sign(e[i]) && e.skip(i + 1).len() > 0
            && all_digits(e.skip(i + 1)),
    decreases j,
{
    if j > 1 {
        lemma_sign_split(e, j - 1);
    }
}

fn sign_split_exec(e: &Vec<char>) -> (r: Option<usize>)
    ensures
        match r {
            Some(i) => sign_split_below(e@, e@.len() as int) == Some(i as int) && i < e@.len(),
            None => sign_split_below(e@, e@.len() as int) is None,
        },
{
    let mut j: usize = e.len();
    while j > 1
        invariant
            j <= e@.len(),
            sign_split_below(e@, e@.len() as int) == sign_split_below(e@, j as int),
        decreases j,
    {
        let i = j - 1;
        if e[i] == '+' || e[i] == '-' {
            let mut k = i + 1;
            let mut ok = k < e.len();
            while k < e.len()
                invariant
                    i + 1 <= k <= e@.len(),
                    ok ==> i + 1 < e@.len(),
                    ok ==> forall|m: int| i + 1 <= m < k ==> crate::text::spec_is_ascii_digit(#[trigger] e@[m]),
                    !ok ==> (e@.skip(i + 1).len() == 0 || !all_digits(e@.skip(i + 1))),
                decreases e.len() - k,
            {
                if !crate::text::is_ascii_digit(e[k]) {
                    assert(e@.skip(i + 1)[k - i - 1] == e@[k as int]);
                    ok = false;
                }
                k += 1;
            }
            if ok {
                assert forall|m: int| 0 <= m < e@.skip(i + 1).len() implies crate::text::spec_is_ascii_digit(
                    #[trigger] e@.skip(i + 1)[m],
                ) by {
                    assert(e@.skip(i + 1)[m] == e@[i + 1 + m]);
                }
                assert(is_sign(e@[i as int]));
                assert(sign_split_below(e@, j as int) == Some(i as int));
                return Some(i);
            }
        }
        j = i;
    }
    None
}

/// Read a size expression: an integer literal, an exact key of `vars`, or
/// such a key with a trailing `±<int>`; anything else is `None`.
pub fn parse_size(expr: &str, vars: &StrMap<VarInfo>) -> (r: Option<SizeTerm>)
    ensures
        opt_term_view(r) == spec_parse_size(expr@, vars.model()),
{
    let e = crate::text::trim(&chars_of(expr));
    match crate::text::parse_i64(&e) {
        Some(n) => return Some(SizeTerm::Lit(n)),
        None => {},
    }
    let es = string_of(&e);
    if vars.contains_key(es.as_str()) {
        return Some(SizeTerm::Var(es));
    }
    proof {
        lemma_sign_split(e@, e@.len() as int);
    }
    match sign_split_exec(&e) {
        Some(i) => {
            assert(i < e.len());
            let head = string_of(&crate::text::copy_range(&e, 0, i));
            assert(head@ =~= e@.take(i as int));
            let base = strip_one_paren(head.as_str());
            if vars.contains_key(base.as_str()) {
                let num = crate::text::copy_range(&e, i + 1, e.len());
                assert(num@ =~= e@.skip(i + 1));
                match crate::text::parse_i64(&num) {
                    Some(mag) => {
                        proof {
                            crate::text::lemma_digits_value_nonneg(num@);
                        }
                        let off = if e[i] == '-' { -mag } else { mag };
                        Some(SizeTerm::VarOffset(base, off))
                    },
                    None => None,
                }
            } else {
                None
            }
        },
        None => None,
    }
}

// ─── the format tree ────────────────────────────────────────────────────────

/// The value variables a block reads (scalars, array bases, row tuples).
pub open spec fn value_vars_block(b: FormatBlockM) -> Seq<Seq<char>>
    decreases b,
{
    match b {
        FormatBlockM::Scalars(vs) => vs,
        FormatBlockM::Array { base, .. } => seq![base],
        FormatBlockM::Rows { vars, .. } => vars,
        FormatBlockM::TestCases { format, .. } => value_vars_blocks(format),
        FormatBlockM::Queries { types, .. } => value_vars_branches(types),
    }
}

pub open spec fn value_vars_blocks(bs: Seq<FormatBlockM>) -> Seq<Seq<char>>
    decreases bs,
{
    if bs.len() == 0 {
        seq![]
    } else {
        value_vars_blocks(bs.subrange(0, bs.len() - 1)) + value_vars_block(bs[bs.len() - 1])
    }
}

pub open spec fn value_vars_branches(qs: Seq<(Seq<char>, Seq<FormatBlockM>)>) -> Seq<Seq<char>>
    decreases qs,
{
    if qs.len() == 0 {
        seq![]
    } else {
        value_vars_branches(qs.subrange(0, qs.len() - 1)) + value_vars_blocks(qs[qs.len() - 1].1)
    }
}

fn push_strings(out: &mut Vec<String>, vs: &Vec<String>)
    ensures
        sv(final(out)@) == sv(old(out)@) + sv(vs@),
{
    let ghost o = sv(out@);
    let mut i: usize = 0;
    while i < vs.len()
        invariant
            i <= vs@.len(),
            sv(out@) == o + sv(vs@).take(i as int),
        decreases vs.len() - i,
    {
        let s = vs[i].clone();
        proof {
            crate::text::lemma_sv_push(out@, s);
        }
        out.push(s);
        assert(o + sv(vs@).take(i + 1) =~= (o + sv(vs@).take(i as int)).push(s@));
        i += 1;
    }
    assert(sv(vs@).take(vs@.len() as int) =~= sv(vs@));
}

fn collect_block_value_vars(b: &FormatBlock, out: &mut Vec<String>)
    ensures
        sv(final(out)@) == sv(old(out)@) + value_vars_block(block_view(*b)),
    decreases b,
{
    match b {
        FormatBlock::Scalars(s) => push_strings(out, &s.vars),
        FormatBlock::Array(a) => {
            let ghost o = out@;
            out.push(a.base.clone());
            proof {
                crate::text::lemma_sv_push(o, out@[o.len() as int]);
                assert(out@ =~= o.push(out@[o.len() as int]));
            }
            assert(sv(out@) =~= sv(o) + seq![a.base@]);
        },
        FormatBlock::Rows(r) => push_strings(out, &r.vars),
        FormatBlock::TestCases(t) => {
            proof {
                assert(decreases_to!(*b => (*b)->TestCases_0));
            }
            collect_value_vars(&t.format, out);
        },
        FormatBlock::Queries(q) => {
            let ghost o = sv(out@);
            let ghost qs = q.types@;
            let mut j: usize = 0;
            assert(crate::parse::types::branches_view(qs.subrange(0, 0)) =~= Seq::<(Seq<char>, Seq<FormatBlockM>)>::empty());
            assert(o + value_vars_branches(seq![]) =~= o);
            while j < q.types.len()
                invariant
                    *b == FormatBlock::Queries(*q),
                    qs == q.types@,
                    j <= qs.len(),
                    sv(out@) == o + value_vars_branches(crate::parse::types::branches_view(qs.subrange(0, j as int))),
                decreases q.types.len() - j,
            {
                proof {
                    assert((*b)->Queries_0 == *q);
                    assert(decreases_to!(*b => (*b)->Queries_0));
                    assert(decreases_to!(*q => q.types));
                    assert(decreases_to!(q.types => q.types@));
                    assert(decreases_to!(q.types@ => q.types@[j as int]));
                    assert(decreases_to!(q.types@[j as int] => q.types@[j as int].format));
                    let pre = crate::parse::types::branches_view(qs.subrange(0, j as int));
                    assert(qs.subrange(0, j + 1) =~= qs.subrange(0, j as int).push(qs[j as int]));
                    assert(qs.subrange(0, j + 1).subrange(0, j as int) =~= qs.subrange(0, j as int));
                    let post = crate::parse::types::branches_view(qs.subrange(0, j + 1));
                    assert(post == pre.push((qs[j as int].id@, blocks_view(qs[j as int].format@))));
                    assert(post.subrange(0, post.len() - 1) =~= pre);
                }
                collect_value_vars(&q.types[j].format, out);
                j += 1;
            }
            assert(qs.subrange(0, qs.len() as int) =~= qs);
        },
    }
}

/// Append the value variables `blocks` read, in order.
fn collect_value_vars(blocks: &Vec<FormatBlock>, out: &mut Vec<String>)
    ensures
        sv(final(out)@) == sv(old(out)@) + value_vars_blocks(blocks_view(blocks@)),
    decreases blocks,
{
    let ghost o = sv(out@);
    let ghost bs = blocks@;
    let mut i: usize = 0;
    assert(o + value_vars_blocks(blocks_view(bs.subrange(0, 0))) =~= o);
    while i < blocks.len()
        invariant
            bs == blocks@,
            i <= bs.len(),
            sv(out@) == o + value_vars_blocks(blocks_view(bs.subrange(0, i as int))),
        decreases blocks.len() - i,
    {
        proof {
            assert(decreases_to!(blocks => blocks@));
            assert(decreases_to!(blocks@ => blocks@[i as int]));
            assert(bs.subrange(0, i + 1) =~= bs.subrange(0, i as int).push(bs[i as int]));
            crate::parse::types::lemma_blocks_view_push(bs.subrange(0, i as int), bs[i as int]);
            let post = blocks_view(bs.subrange(0, i + 1));
            assert(post.subrange(0, post.len() - 1) =~= blocks_view(bs.subrange(0, i as int)));
        }
        collect_block_value_vars(&blocks[i], out);
        i += 1;
    }
    assert(bs.subrange(0, bs.len() as int) =~= bs);
}

/// The value variables the format reads, in order, repeats kept.
pub fn collect_format_value_vars(blocks: &Vec<FormatBlock>) -> (r: Vec<String>)
    ensures
        sv(r@) == value_vars_blocks(blocks_view(blocks@)),
{
    let mut out: Vec<String> = Vec::new();
    collect_value_vars(blocks, &mut out);
    assert(sv(out@) =~= seq![] + value_vars_blocks(blocks_view(blocks@)));
    out
}

/// Whether a block lays out an array-like construct: an array with a
/// length, or rows.
pub open spec fn has_array_block(b: FormatBlockM) -> bool
    decreases b,
{
    match b {
        FormatBlockM::Array { len, .. } => len is Some,
        FormatBlockM::Rows { .. } => true,
        FormatBlockM::TestCases { format, .. } => has_array_blocks(format),
        FormatBlockM::Queries { types, .. } => has_array_branches(types),
        FormatBlockM::Scalars(_) => false,
    }
}

pub open spec fn has_array_blocks(bs: Seq<FormatBlockM>) -> bool
    decreases bs,
{
    if bs.len() == 0 {
        false
    } else {
        has_array_blocks(bs.subrange(0, bs.len() - 1)) || has_array_block(bs[bs.len() - 1])
    }
}

pub open spec fn has_array_branches(qs: Seq<(Seq<char>, Seq<FormatBlockM>)>) -> bool
    decreases qs,
{
    if qs.len() == 0 {
        false
    } else {
        has_array_branches(qs.subrange(0, qs.len() - 1)) || has_array_blocks(qs[qs.len() - 1].1)
    }
}

fn block_has_array(b: &FormatBlock) -> (r: bool)
    ensures
        r == has_array_block(block_view(*b)),
    decreases b,
{
    match b {
        FormatBlock::Array(a) => a.len.is_some(),
        FormatBlock::Rows(_) => true,
        FormatBlock::TestCases(t) => {
            proof {
                assert(decreases_to!(*b => (*b)->TestCases_0));
            }
            format_has_array(&t.format)
        },
        FormatBlock::Queries(q) => {
            let ghost qs = q.types@;
            let mut found = false;
            let mut j: usize = 0;
            while j < q.types.len()
                invariant
                    *b == FormatBlock::Queries(*q),
                    qs == q.types@,
                    j <= qs.len(),
                    found == has_array_branches(crate::parse::types::branches_view(qs.subrange(0, j as int))),
                decreases q.types.len() - j,
            {
                proof {
                    assert((*b)->Queries_0 == *q);
                    assert(decreases_to!(*b => (*b)->Queries_0));
                    assert(decreases_to!(*q => q.types));
                    assert(decreases_to!(q.types => q.types@));
                    assert(decreases_to!(q.types@ => q.types@[j as int]));
                    assert(decreases_to!(q.types@[j as int] => q.types@[j as int].format));
                    let pre = crate::parse::types::branches_view(qs.subrange(0, j as int));
                    assert(qs.subrange(0, j + 1) =~= qs.subrange(0, j as int).push(qs[j as int]));
                    assert(qs.subrange(0, j + 1).subrange(0, j as int) =~= qs.subrange(0, j as int));
                    let post = crate::parse::types::branches_view(qs.subrange(0, j + 1));
                    assert(post == pre.push((qs[j as int].id@, blocks_view(qs[j as int].format@))));
                    assert(post.subrange(0, post.len() - 1) =~= pre);
                }
                let h = format_has_array(&q.types[j].format);
                found = found || h;
                j += 1;
            }
            assert(qs.subrange(0, qs.len() as int) =~= qs);
            found
        },
        FormatBlock::Scalars(_) => false,
    }
}

/// Whether the format lays out an array with a length or rows anywhere.
pub fn format_has_array(blocks: &Vec<FormatBlock>) -> (r: bool)
    ensures
        r == has_array_blocks(blocks_view(blocks@)),
    decreases blocks,
{
    let ghost bs = blocks@;
    let mut found = false;
    let mut i: usize = 0;
    while i < blocks.len()
        invariant
            bs == blocks@,
            i <= bs.len(),
            found == has_array_blocks(blocks_view(bs.subrange(0, i as int))),
        decreases blocks.len() - i,
    {
        proof {
            assert(decreases_to!(blocks => blocks@));
            assert(decreases_to!(blocks@ => blocks@[i as int]));
            assert(bs.subrange(0, i + 1) =~= bs.subrange(0, i as int).push(bs[i as int]));
            crate::parse::types::lemma_blocks_view_push(bs.subrange(0, i as int), bs[i as int]);
            let post = blocks_view(bs.subrange(0, i + 1));
            assert(post.subrange(0, post.len() - 1) =~= blocks_view(bs.subrange(0, i as int)));
        }
        let h = block_has_array(&blocks[i]);
        found = found || h;
        i += 1;
    }
    assert(bs.subrange(0, bs.len() as int) =~= bs);
    found
}

// ─── one variable ───────────────────────────────────────────────────────────

/// The values that read as `i64`, in order.
pub open spec fn parsed_ints(vs: Seq<Seq<char>>) -> Seq<i64>
    decreases vs.len(),
{
    if vs.len() == 0 {
        seq![]
    } else {
        let p = parsed_ints(vs.drop_last());
        match spec_parse_i64(vs.last()) {
            Some(n) => p.push(n),
            None => p,
        }
    }
}

/// Some value does not read as `i64`.
pub open spec fn any_bad(vs: Seq<Seq<char>>) -> bool
    decreases vs.len(),
{
    vs.len() > 0 && (any_bad(vs.drop_last()) || spec_parse_i64(vs.last()) is None)
}

pub open spec fn seq_min(s: Seq<i64>) -> i64
    decreases s.len(),
{
    if s.len() <= 1 {
        s[0]
    } else {
        let m = seq_min(s.drop_last());
        if s.last() < m {
            s.last()
        } else {
            m
        }
    }
}

pub open spec fn seq_max(s: Seq<i64>) -> i64
    decreases s.len(),
{
    if s.len() <= 1 {
        s[0]
    } else {
        let m = seq_max(s.drop_last());
        if s.last() > m {
            s.last()
        } else {
            m
        }
    }
}

/// The first character of each non-empty value.
pub open spec fn first_chars(vs: Seq<Seq<char>>) -> Seq<char>
    decreases vs.len(),
{
    if vs.len() == 0 {
        seq![]
    } else {
        let p = first_chars(vs.drop_last());
        if vs.last().len() > 0 {
            p.push(vs.last()[0])
        } else {
            p
        }
    }
}

pub open spec fn unwrap_or(o: Option<i64>, d: i64) -> i64 {
    match o {
        Some(n) => n,
        None => d,
    }
}

pub open spec fn msg_values(name: Seq<char>, bad: bool) -> Seq<char> {
    "variable `"@ + name + "`: `values` is "@ + (if bad {
        "non-integer"@
    } else {
        "empty"@
    }) + " — edit `random_test.vars."@ + name + ".values` in the yml"@
}

pub open spec fn msg_lo(name: Seq<char>) -> Seq<char> {
    "variable `"@ + name + "`: lower bound missing — edit `random_test.vars."@ + name + ".range` in the yml"@
}

pub open spec fn msg_hi(name: Seq<char>) -> Seq<char> {
    "variable `"@ + name + "`: upper bound missing — edit `random_test.vars."@ + name + ".range` in the yml"@
}

pub open spec fn msg_charset(name: Seq<char>) -> Seq<char> {
    "variable `"@ + name + "`: Chars charset missing — edit `random_test.vars."@ + name
        + ".values` in the yml"@
}

pub open spec fn msg_len(name: Seq<char>) -> Seq<char> {
    "variable `"@ + name + "`: Chars length missing — edit `random_test.vars."@ + name + ".len` in the yml"@
}

pub open spec fn is_numeric_type(t: VarType) -> bool {
    t == VarType::Usize || t == VarType::I64
}

/// The enumerated values of a numeric variable, and the message when they
/// are unusable (empty, or not all integers).
pub open spec fn values_of(name: Seq<char>, vc: VarConstraintM) -> (Option<Seq<i64>>, Seq<Seq<char>>) {
    if is_numeric_type(vc.var_type) {
        match vc.values {
            Some(vs) => {
                let parsed = parsed_ints(vs);
                let bad = any_bad(vs);
                if bad || parsed.len() == 0 {
                    (None, seq![msg_values(name, bad)])
                } else {
                    (Some(parsed), seq![])
                }
            },
            None => (None, seq![]),
        }
    } else {
        (None, seq![])
    }
}

/// Lower end, upper end and messages of a variable.
pub open spec fn bounds_of(name: Seq<char>, vc: VarConstraintM, values: Option<Seq<i64>>) -> (i64, Hi, Seq<Seq<char>>) {
    let lo_lit = match vc.range {
        Some(r) => lit_of(r.0),
        None => None,
    };
    let hi_lit = match vc.range {
        Some(r) => lit_of(r.1),
        None => None,
    };
    if !is_numeric_type(vc.var_type) {
        (0, Hi::Fixed(0), seq![])
    } else {
        match values {
            Some(vs) => (unwrap_or(lo_lit, seq_min(vs)), Hi::Fixed(unwrap_or(hi_lit, seq_max(vs))), seq![]),
            None => if vc.values is Some {
                (unwrap_or(lo_lit, 0), Hi::Fixed(unwrap_or(hi_lit, 0)), seq![])
            } else {
                let lo_msgs: Seq<Seq<char>> = if lo_lit is Some { seq![] } else { seq![msg_lo(name)] };
                let hi: Hi = match hi_lit {
                    Some(n) => Hi::Fixed(n),
                    None => match vc.sum_limit {
                        Some(l) => Hi::SumLimited(l),
                        None => Hi::Fixed(0),
                    },
                };
                let hi_msgs: Seq<Seq<char>> = if hi_lit is None && vc.sum_limit is None {
                    seq![msg_hi(name)]
                } else {
                    seq![]
                };
                (unwrap_or(lo_lit, 0), hi, lo_msgs + hi_msgs)
            },
        }
    }
}

/// The charset of a string variable and its message when empty.
pub open spec fn charset_of(name: Seq<char>, vc: VarConstraintM) -> (Option<Seq<char>>, Seq<Seq<char>>) {
    if vc.var_type == VarType::Chars {
        let cs = first_chars(
            match vc.values {
                Some(vs) => vs,
                None => seq![],
            },
        );
        if cs.len() == 0 {
            (None, seq![msg_charset(name)])
        } else {
            (Some(cs), seq![])
        }
    } else {
        (None, seq![])
    }
}

/// A variable's resolved information and the messages of what it lacks.
pub open spec fn spec_var_info(name: Seq<char>, vc: VarConstraintM) -> (VarInfoM, Seq<Seq<char>>) {
    let v = values_of(name, vc);
    let b = bounds_of(name, vc, v.0);
    let c = charset_of(name, vc);
    let len_msgs: Seq<Seq<char>> = if vc.var_type == VarType::Chars && vc.len is None {
        seq![msg_len(name)]
    } else {
        seq![]
    };
    (
        VarInfoM {
            ty: vc.var_type,
            lo: b.0,
            hi: b.1,
            values: v.0,
            charset: c.0,
            len: vc.len,
            all_distinct: vc.all_distinct,
            sum_limit: vc.sum_limit,
        },
        v.1 + b.2 + c.1 + len_msgs,
    )
}

/// The pieces joined.
fn cat(parts: Vec<&str>) -> (r: String)
    ensures
        r@ == cat_spec(parts@),
{
    let mut out = String::new();
    proof {
        reveal_strlit("");
    }
    let mut i: usize = 0;
    assert(cat_spec(parts@.take(0)) =~= Seq::<char>::empty());
    while i < parts.len()
        invariant
            i <= parts@.len(),
            out@ == cat_spec(parts@.take(i as int)),
        decreases parts.len() - i,
    {
        assert(parts@.take(i + 1).drop_last() =~= parts@.take(i as int));
        out = concat_str(out.as_str(), parts[i]);
        i += 1;
    }
    assert(parts@.take(parts@.len() as int) =~= parts@);
    out
}

pub open spec fn cat_spec(parts: Seq<&str>) -> Seq<char>
    decreases parts.len(),
{
    if parts.len() == 0 {
        seq![]
    } else {
        cat_spec(parts.drop_last()) + parts.last()@
    }
}

proof fn lemma_cat_push(s: Seq<&str>, x: &str)
    ensures
        cat_spec(s.push(x)) == cat_spec(s) + x@,
{
    assert(s.push(x).drop_last() =~= s);
}

proof fn lemma_cat5(a: &str, b: &str, c: &str, d: &str, e: &str)
    ensures
        cat_spec(seq![a, b, c, d, e]) == a@ + b@ + c@ + d@ + e@,
{
    let s0 = Seq::<&str>::empty();
    lemma_cat_push(s0, a);
    lemma_cat_push(s0.push(a), b);
    lemma_cat_push(s0.push(a).push(b), c);
    lemma_cat_push(s0.push(a).push(b).push(c), d);
    lemma_cat_push(s0.push(a).push(b).push(c).push(d), e);
    assert(seq![a, b, c, d, e] =~= s0.push(a).push(b).push(c).push(d).push(e));
    assert(Seq::<char>::empty() + a@ =~= a@);
}

fn push_msg(missing: &mut Vec<String>, m: String)
    ensures
        sv(final(missing)@) == sv(old(missing)@).push(m@),
{
    proof {
        crate::text::lemma_sv_push(missing@, m);
    }
    missing.push(m);
}

fn msg_values_exec(name: &String, bad: bool) -> (r: String)
    ensures
        r@ == msg_values(name@, bad),
{
    let ns: &str = name.as_str();
    let what = if bad { "non-integer" } else { "empty" };
    let a = cat(vec!["variable `", ns, "`: `values` is ", what, " — edit `random_test.vars."]);
    let r = concat_str(concat_str(a.as_str(), ns).as_str(), ".values` in the yml");
    proof {
        lemma_cat5("variable `", ns, "`: `values` is ", what, " — edit `random_test.vars.");
    }
    assert(r@ =~= msg_values(name@, bad));
    r
}

fn msg_lo_hi_exec(name: &String, lo: bool) -> (r: String)
    ensures
        r@ == (if lo { msg_lo(name@) } else { msg_hi(name@) }),
{
    let ns: &str = name.as_str();
    let what = if lo { "`: lower bound missing — edit `random_test.vars." } else { "`: upper bound missing — edit `random_test.vars." };
    let r = cat(vec!["variable `", ns, what, ns, ".range` in the yml"]);
    proof {
        lemma_cat5("variable `", ns, what, ns, ".range` in the yml");
    }
    assert(r@ =~= (if lo { msg_lo(name@) } else { msg_hi(name@) }));
    r
}

fn msg_charset_exec(name: &String) -> (r: String)
    ensures
        r@ == msg_charset(name@),
{
    let ns: &str = name.as_str();
    let r = cat(vec!["variable `", ns, "`: Chars charset missing — edit `random_test.vars.", ns, ".values` in the yml"]);
    proof {
        lemma_cat5("variable `", ns, "`: Chars charset missing — edit `random_test.vars.", ns, ".values` in the yml");
    }
    assert(r@ =~= msg_charset(name@));
    r
}

fn msg_len_exec(name: &String) -> (r: String)
    ensures
        r@ == msg_len(name@),
{
    let ns: &str = name.as_str();
    let r = cat(vec!["variable `", ns, "`: Chars length missing — edit `random_test.vars.", ns, ".len` in the yml"]);
    proof {
        lemma_cat5("variable `", ns, "`: Chars length missing — edit `random_test.vars.", ns, ".len` in the yml");
    }
    assert(r@ =~= msg_len(name@));
    r
}

fn parse_values(vs: &Vec<String>) -> (r: (Vec<i64>, bool))
    ensures
        r.0@ == parsed_ints(sv(vs@)),
        r.1 == any_bad(sv(vs@)),
{
    let ghost s = sv(vs@);
    let mut out: Vec<i64> = Vec::new();
    let mut bad = false;
    let mut i: usize = 0;
    assert(s.take(0) =~= Seq::<Seq<char>>::empty());
    while i < vs.len()
        invariant
            s == sv(vs@),
            i <= s.len(),
            out@ == parsed_ints(s.take(i as int)),
            bad == any_bad(s.take(i as int)),
        decreases s.len() - i,
    {
        assert(s.take(i + 1).drop_last() =~= s.take(i as int));
        assert(s.take(i + 1).last() == vs@[i as int]@);
        match crate::text::parse_i64(&chars_of(vs[i].as_str())) {
            Some(n) => out.push(n),
            None => bad = true,
        }
        i += 1;
    }
    assert(s.take(s.len() as int) =~= s);
    (out, bad)
}

fn min_max(v: &Vec<i64>) -> (r: (i64, i64))
    requires
        v@.len() > 0,
    ensures
        r.0 == seq_min(v@),
        r.1 == seq_max(v@),
{
    let mut lo = v[0];
    let mut hi = v[0];
    let mut i: usize = 1;
    assert(v@.take(1) =~= seq![v@[0]]);
    while i < v.len()
        invariant
            1 <= i <= v@.len(),
            lo == seq_min(v@.take(i as int)),
            hi == seq_max(v@.take(i as int)),
        decreases v.len() - i,
    {
        assert(v@.take(i + 1).drop_last() =~= v@.take(i as int));
        if v[i] < lo {
            lo = v[i];
        }
        if v[i] > hi {
            hi = v[i];
        }
        i += 1;
    }
    assert(v@.take(v@.len() as int) =~= v@);
    (lo, hi)
}

fn first_chars_exec(vs: &Vec<String>) -> (r: Vec<char>)
    ensures
        r@ == first_chars(sv(vs@)),
{
    let ghost s = sv(vs@);
    let mut out: Vec<char> = Vec::new();
    let mut i: usize = 0;
    assert(s.take(0) =~= Seq::<Seq<char>>::empty());
    while i < vs.len()
        invariant
            s == sv(vs@),
            i <= s.len(),
            out@ == first_chars(s.take(i as int)),
        decreases s.len() - i,
    {
        assert(s.take(i + 1).drop_last() =~= s.take(i as int));
        assert(s.take(i + 1).last() == vs@[i as int]@);
        let cs = chars_of(vs[i].as_str());
        if cs.len() > 0 {
            out.push(cs[0]);
        }
        i += 1;
    }
    assert(s.take(s.len() as int) =~= s);
    out
}

fn lit_opt(r: &Option<[BoundRepr; 2]>, k: usize) -> (o: Option<i64>)
    requires
        k < 2,
    ensures
        o == (match crate::parse::types::range_view(*r) {
            Some(rg) => lit_of(if k == 0 { rg.0 } else { rg.1 }),
            None => None,
        }),
{
    match r {
        Some(rg) => lit(Some(&rg[k])),
        None => lit(None),
    }
}

/// The literal of a bound, when it is one.
pub fn lit(b: Option<&BoundRepr>) -> (o: Option<i64>)
    ensures
        o == match b {
            Some(x) => lit_of(crate::parse::types::repr_view(*x)),
            None => None,
        },
{
    match b {
        Some(BoundRepr::Lit(n)) => Some(*n),
        _ => None,
    }
}

/// Resolve one variable, appending the messages of what it lacks.
fn var_info_exec(name: &String, vc: &VarConstraint, missing: &mut Vec<String>) -> (r: VarInfo)
    ensures
        r.deep_view() == spec_var_info(name@, vc.deep_view()).0,
        sv(final(missing)@) == sv(old(missing)@) + spec_var_info(name@, vc.deep_view()).1,
{
    let ghost m0 = sv(missing@);
    let ghost vm = vc.deep_view();
    let numeric = vc.var_type == VarType::Usize || vc.var_type == VarType::I64;
    let lo_lit = lit_opt(&vc.range, 0);
    let hi_lit = lit_opt(&vc.range, 1);
    let values: Option<Vec<i64>> = if numeric {
        match &vc.values {
            Some(vs) => {
                let (parsed, bad) = parse_values(vs);
                if bad || parsed.len() == 0 {
                    push_msg(missing, msg_values_exec(name, bad));
                    None
                } else {
                    Some(parsed)
                }
            },
            None => None,
        }
    } else {
        None
    };
    let ghost m1 = sv(missing@);
    assert(m1 =~= m0 + values_of(name@, vm).1);
    assert(opt_seq_view(values) == values_of(name@, vm).0);
    let lo: i64;
    let hi: Hi;
    if !numeric {
        lo = 0;
        hi = Hi::Fixed(0);
    } else {
        match &values {
            Some(vs) => {
                let (mn, mx) = min_max(vs);
                lo = match lo_lit {
                    Some(n) => n,
                    None => mn,
                };
                hi = Hi::Fixed(
                    match hi_lit {
                        Some(n) => n,
                        None => mx,
                    },
                );
            },
            None => {
                if vc.values.is_some() {
                    lo = match lo_lit {
                        Some(n) => n,
                        None => 0,
                    };
                    hi = Hi::Fixed(
                        match hi_lit {
                            Some(n) => n,
                            None => 0,
                        },
                    );
                } else {
                    lo = match lo_lit {
                        Some(n) => n,
                        None => {
                            push_msg(missing, msg_lo_hi_exec(name, true));
                            0
                        },
                    };
                    hi = match hi_lit {
                        Some(n) => Hi::Fixed(n),
                        None => match vc.sum_limit {
                            Some(l) => Hi::SumLimited(l),
                            None => {
                                push_msg(missing, msg_lo_hi_exec(name, false));
                                Hi::Fixed(0)
                            },
                        },
                    };
                }
            },
        }
    }
    let ghost m2 = sv(missing@);
    assert(m2 =~= m1 + bounds_of(name@, vm, opt_seq_view(values)).2);
    let charset: Option<Vec<char>> = if vc.var_type == VarType::Chars {
        let cs = match &vc.values {
            Some(vs) => first_chars_exec(vs),
            None => Vec::new(),
        };
        assert(cs@ == first_chars(
            match vm.values {
                Some(vs) => vs,
                None => seq![],
            },
        ));
        if cs.len() == 0 {
            push_msg(missing, msg_charset_exec(name));
            None
        } else {
            Some(cs)
        }
    } else {
        None
    };
    let ghost m3 = sv(missing@);
    assert(m3 =~= m2 + charset_of(name@, vm).1);
    if vc.var_type == VarType::Chars && vc.len.is_none() {
        push_msg(missing, msg_len_exec(name));
    }
    let len = match &vc.len {
        Some(b) => Some(b.duplicate()),
        None => None,
    };
    let r = VarInfo {
        ty: vc.var_type,
        lo,
        hi,
        values,
        charset,
        len,
        all_distinct: vc.all_distinct,
        sum_limit: vc.sum_limit,
    };
    assert(sv(missing@) =~= m0 + spec_var_info(name@, vm).1);
    r
}

// ─── the whole section ──────────────────────────────────────────────────────

/// The section resolved for generation; the format tree is kept as written.
#[derive(Debug)]
pub struct ResolvedSpec {
    pub format: Vec<FormatBlock>,
    pub vars: StrMap<VarInfo>,
    pub size_vars: StrSet,
    /// Each size expression that reads, read once.
    pub size_terms: StrMap<SizeTerm>,
    /// `a <= b`.
    pub ordering: Vec<(String, String)>,
    /// `a != b`.
    pub not_equal: Vec<(String, String)>,
    /// Array or row variables related to another such variable.
    pub inter_array_constrained: StrSet,
    /// The format lays out an array with a length or rows, or a variable
    /// has a length.
    pub has_array: bool,
    /// Each jagged array's length variable and its row count variable.
    pub jagged_len_to_count: StrMap<String>,
    /// The count variable of the first test-case block.
    pub test_cases_count_var: Option<String>,
    pub skipped: Vec<String>,
    /// What the section lacks for generation; non-empty aborts the run.
    pub missing: Vec<String>,
}

pub struct ResolvedM {
    pub format: Seq<FormatBlockM>,
    pub vars: Seq<(Seq<char>, VarInfoM)>,
    pub size_vars: Seq<(Seq<char>, ())>,
    pub size_terms: Seq<(Seq<char>, SizeTermM)>,
    pub ordering: Seq<(Seq<char>, Seq<char>)>,
    pub not_equal: Seq<(Seq<char>, Seq<char>)>,
    pub inter: Seq<(Seq<char>, ())>,
    pub has_array: bool,
    pub jagged: Seq<(Seq<char>, Seq<char>)>,
    pub first_count: Option<Seq<char>>,
    pub skipped: Seq<Seq<char>>,
    pub missing: Seq<Seq<char>>,
}

impl ResolvedSpec {
    pub open spec fn model(&self) -> ResolvedM {
        ResolvedM {
            format: blocks_view(self.format@),
            vars: self.vars.model(),
            size_vars: self.size_vars.map.model(),
            size_terms: self.size_terms.model(),
            ordering: self.ordering@.map_values(|p: (String, String)| crate::maps::pair_view(p)),
            not_equal: self.not_equal@.map_values(|p: (String, String)| crate::maps::pair_view(p)),
            inter: self.inter_array_constrained.map.model(),
            has_array: self.has_array,
            jagged: self.jagged_len_to_count.model(),
            first_count: opt_view(self.test_cases_count_var),
            skipped: sv(self.skipped@),
            missing: sv(self.missing@),
        }
    }
}

/// Every variable resolved in turn: the map and the messages.
pub open spec fn infos_of(vars: Seq<(Seq<char>, VarConstraintM)>) -> (Seq<(Seq<char>, VarInfoM)>, Seq<Seq<char>>)
    decreases vars.len(),
{
    if vars.len() == 0 {
        (seq![], seq![])
    } else {
        let p = infos_of(vars.drop_last());
        let e = vars.last();
        let r = spec_var_info(e.0, e.1);
        (m_insert(p.0, e.0, r.0), p.1 + r.1)
    }
}

/// The length expressions of string variables.
pub open spec fn chars_len_exprs(vars: Seq<(Seq<char>, VarConstraintM)>) -> Seq<Seq<char>>
    decreases vars.len(),
{
    if vars.len() == 0 {
        seq![]
    } else {
        let p = chars_len_exprs(vars.drop_last());
        let v = vars.last().1;
        if v.var_type == VarType::Chars {
            match v.len {
                Some(BoundReprM::Expr(e)) => p.push(e),
                _ => p,
            }
        } else {
            p
        }
    }
}

/// The size expressions that read, each with its term.
pub open spec fn terms_of(sizes: Seq<(Seq<char>, ())>, vars: Seq<(Seq<char>, VarInfoM)>) -> Seq<
    (Seq<char>, SizeTermM),
>
    decreases sizes.len(),
{
    if sizes.len() == 0 {
        seq![]
    } else {
        let p = terms_of(sizes.drop_last(), vars);
        match spec_parse_size(sizes.last().0, vars) {
            Some(t) => m_insert(p, sizes.last().0, t),
            None => p,
        }
    }
}

pub open spec fn msg_size(e: Seq<char>) -> Seq<char> {
    "size expression `"@ + e
        + "`: not an integer literal, a `random_test.vars` key, or `<var>±<int>` — fix the format/expression or add the variable in the yml"@
}

pub open spec fn msg_undeclared(name: Seq<char>) -> Seq<char> {
    "variable `"@ + name + "`: referenced in the format but missing from `random_test.vars` — add it in the yml"@
}

pub open spec fn msg_chars_ne(name: Seq<char>) -> Seq<char> {
    "not_equal involving string array `"@ + name + "` is not enforced"@
}

/// A message for each size expression that does not read.
pub open spec fn size_msgs(sizes: Seq<(Seq<char>, ())>, vars: Seq<(Seq<char>, VarInfoM)>) -> Seq<Seq<char>>
    decreases sizes.len(),
{
    if sizes.len() == 0 {
        seq![]
    } else {
        let p = size_msgs(sizes.drop_last(), vars);
        if spec_parse_size(sizes.last().0, vars) is None {
            p.push(msg_size(sizes.last().0))
        } else {
            p
        }
    }
}

/// A message for each format variable that is not declared.
pub open spec fn undeclared_msgs(names: Seq<(Seq<char>, ())>, vars: Seq<(Seq<char>, VarInfoM)>) -> Seq<Seq<char>>
    decreases names.len(),
{
    if names.len() == 0 {
        seq![]
    } else {
        let p = undeclared_msgs(names.drop_last(), vars);
        if !m_has(vars, names.last().0) {
            p.push(msg_undeclared(names.last().0))
        } else {
            p
        }
    }
}

/// Laid out as an array or as rows.
pub open spec fn array_like(a: AnalysisM, n: Seq<char>) -> bool {
    match m_get(a.shapes, n) {
        Some(s) => s == VarShape::Array || s == VarShape::Rows,
        None => false,
    }
}

pub open spec fn chars_info(vars: Seq<(Seq<char>, VarInfoM)>, n: Seq<char>) -> bool {
    match m_get(vars, n) {
        Some(v) => v.ty == VarType::Chars,
        None => false,
    }
}

/// A warning for each side of an inequality that is a string array.
pub open spec fn chars_ne_msgs(
    ne: Seq<(Seq<char>, Seq<char>)>,
    vars: Seq<(Seq<char>, VarInfoM)>,
    a: AnalysisM,
) -> Seq<Seq<char>>
    decreases ne.len(),
{
    if ne.len() == 0 {
        seq![]
    } else {
        let p = chars_ne_msgs(ne.drop_last(), vars, a);
        let x = ne.last().0;
        let y = ne.last().1;
        let p1 = if chars_info(vars, x) && array_like(a, x) {
            p.push(msg_chars_ne(x))
        } else {
            p
        };
        if chars_info(vars, y) && array_like(a, y) {
            p1.push(msg_chars_ne(y))
        } else {
            p1
        }
    }
}

/// Both sides of each pair whose sides are both array-like.
pub open spec fn inter_of(acc: Seq<(Seq<char>, ())>, ps: Seq<(Seq<char>, Seq<char>)>, a: AnalysisM) -> Seq<
    (Seq<char>, ()),
>
    decreases ps.len(),
{
    if ps.len() == 0 {
        acc
    } else {
        let p = inter_of(acc, ps.drop_last(), a);
        let x = ps.last().0;
        let y = ps.last().1;
        if array_like(a, x) && array_like(a, y) {
            m_insert(m_insert(p, x, ()), y, ())
        } else {
            p
        }
    }
}

pub open spec fn any_len(vars: Seq<(Seq<char>, VarInfoM)>) -> bool {
    exists|i: int| 0 <= i < vars.len() && (#[trigger] vars[i]).1.len is Some
}

/// The resolved section.
pub open spec fn spec_resolve(s: SectionM) -> ResolvedM {
    let iv = infos_of(s.vars);
    let a = analyze_blocks(empty_analysis(), s.format);
    let sizes = m_insert_all(a.sizes, chars_len_exprs(s.vars), ());
    let fv = m_insert_all(seq![], value_vars_blocks(s.format), ());
    ResolvedM {
        format: s.format,
        vars: iv.0,
        size_vars: sizes,
        size_terms: terms_of(sizes, iv.0),
        ordering: s.ordering,
        not_equal: s.not_equal,
        inter: inter_of(inter_of(seq![], s.ordering, a), s.not_equal, a),
        has_array: has_array_blocks(s.format) || any_len(iv.0),
        jagged: a.jagged,
        first_count: a.first_count,
        skipped: s.skipped + chars_ne_msgs(s.not_equal, iv.0, a),
        missing: iv.1 + size_msgs(sizes, iv.0) + undeclared_msgs(fv, iv.0),
    }
}

fn infos_exec(vars: &StrMap<VarConstraint>) -> (r: (StrMap<VarInfo>, Vec<String>))
    ensures
        (r.0.model(), sv(r.1@)) == infos_of(vars.model()),
{
    let ghost m = vars.model();
    let mut out: StrMap<VarInfo> = StrMap::new();
    let mut missing: Vec<String> = Vec::new();
    let mut i: usize = 0;
    assert(m.take(0) =~= Seq::<(Seq<char>, VarConstraintM)>::empty());
    assert(sv(missing@) =~= Seq::<Seq<char>>::empty());
    while i < vars.len()
        invariant
            m == vars.model(),
            i <= m.len(),
            (out.model(), sv(missing@)) == infos_of(m.take(i as int)),
        decreases m.len() - i,
    {
        assert(m.take(i + 1).drop_last() =~= m.take(i as int));
        let name = vars.key_at(i);
        let vc = vars.value_at(i);
        assert(m.take(i + 1).last() == (name@, vc.deep_view()));
        let info = var_info_exec(name, vc, &mut missing);
        out.insert(name.clone(), info);
        i += 1;
    }
    assert(m.take(m.len() as int) =~= m);
    (out, missing)
}

fn add_chars_len_exprs(sizes: &mut StrSet, vars: &StrMap<VarConstraint>)
    ensures
        final(sizes).map.model() == m_insert_all(old(sizes).map.model(), chars_len_exprs(vars.model()), ()),
{
    let ghost m = vars.model();
    let ghost s0 = sizes.map.model();
    let mut i: usize = 0;
    assert(m.take(0) =~= Seq::<(Seq<char>, VarConstraintM)>::empty());
    while i < vars.len()
        invariant
            m == vars.model(),
            i <= m.len(),
            sizes.map.model() == m_insert_all(s0, chars_len_exprs(m.take(i as int)), ()),
        decreases m.len() - i,
    {
        assert(m.take(i + 1).drop_last() =~= m.take(i as int));
        let vc = vars.value_at(i);
        assert(m.take(i + 1).last().1 == vc.deep_view());
        if vc.var_type == VarType::Chars {
            match &vc.len {
                Some(BoundRepr::Expr(e)) => {
                    let ghost ks = chars_len_exprs(m.take(i as int));
                    assert(ks.push(e@).drop_last() =~= ks);
                    sizes.insert(e.clone());
                },
                _ => {},
            }
        }
        i += 1;
    }
    assert(m.take(m.len() as int) =~= m);
}

fn msg_size_exec(e: &String) -> (r: String)
    ensures
        r@ == msg_size(e@),
{
    concat_str(
        concat_str("size expression `", e.as_str()).as_str(),
        "`: not an integer literal, a `random_test.vars` key, or `<var>±<int>` — fix the format/expression or add the variable in the yml",
    )
}

fn msg_undeclared_exec(n: &String) -> (r: String)
    ensures
        r@ == msg_undeclared(n@),
{
    concat_str(
        concat_str("variable `", n.as_str()).as_str(),
        "`: referenced in the format but missing from `random_test.vars` — add it in the yml",
    )
}

fn msg_chars_ne_exec(n: &String) -> (r: String)
    ensures
        r@ == msg_chars_ne(n@),
{
    concat_str(concat_str("not_equal involving string array `", n.as_str()).as_str(), "` is not enforced")
}

fn size_terms_exec(sizes: &StrSet, vars: &StrMap<VarInfo>, missing: &mut Vec<String>) -> (r: StrMap<SizeTerm>)
    ensures
        r.model() == terms_of(sizes.map.model(), vars.model()),
        sv(final(missing)@) == sv(old(missing)@) + size_msgs(sizes.map.model(), vars.model()),
{
    let ghost m = sizes.map.model();
    let ghost m0 = sv(missing@);
    let mut out: StrMap<SizeTerm> = StrMap::new();
    let mut i: usize = 0;
    assert(m.take(0) =~= Seq::<(Seq<char>, ())>::empty());
    assert(m0 + size_msgs(m.take(0), vars.model()) =~= m0);
    while i < sizes.len()
        invariant
            m == sizes.map.model(),
            i <= m.len(),
            out.model() == terms_of(m.take(i as int), vars.model()),
            sv(missing@) == m0 + size_msgs(m.take(i as int), vars.model()),
        decreases m.len() - i,
    {
        assert(m.take(i + 1).drop_last() =~= m.take(i as int));
        let e = sizes.item_at(i);
        assert(m.take(i + 1).last().0 == e@);
        match parse_size(e.as_str(), vars) {
            Some(t) => out.insert(e.clone(), t),
            None => {
                let ghost before = sv(missing@);
                push_msg(missing, msg_size_exec(e));
                assert(sv(missing@) =~= m0 + size_msgs(m.take(i + 1), vars.model()));
            },
        }
        i += 1;
    }
    assert(m.take(m.len() as int) =~= m);
    out
}

fn undeclared_exec(names: &StrSet, vars: &StrMap<VarInfo>, missing: &mut Vec<String>)
    ensures
        sv(final(missing)@) == sv(old(missing)@) + undeclared_msgs(names.map.model(), vars.model()),
{
    let ghost m = names.map.model();
    let ghost m0 = sv(missing@);
    let mut i: usize = 0;
    assert(m.take(0) =~= Seq::<(Seq<char>, ())>::empty());
    assert(m0 + undeclared_msgs(m.take(0), vars.model()) =~= m0);
    while i < names.len()
        invariant
            m == names.map.model(),
            i <= m.len(),
            sv(missing@) == m0 + undeclared_msgs(m.take(i as int), vars.model()),
        decreases m.len() - i,
    {
        assert(m.take(i + 1).drop_last() =~= m.take(i as int));
        let n = names.item_at(i);
        assert(m.take(i + 1).last().0 == n@);
        if !vars.contains_key(n.as_str()) {
            push_msg(missing, msg_undeclared_exec(n));
            assert(sv(missing@) =~= m0 + undeclared_msgs(m.take(i + 1), vars.model()));
        }
        i += 1;
    }
    assert(m.take(m.len() as int) =~= m);
}

fn array_like_exec(shapes: &StrMap<VarShape>, n: &String) -> (r: bool)
    ensures
        r == (match m_get(shapes.model(), n@) {
            Some(s) => s == VarShape::Array || s == VarShape::Rows,
            None => false,
        }),
{
    match shapes.get(n.as_str()) {
        Some(s) => *s == VarShape::Array || *s == VarShape::Rows,
        None => false,
    }
}

fn chars_info_exec(vars: &StrMap<VarInfo>, n: &String) -> (r: bool)
    ensures
        r == chars_info(vars.model(), n@),
{
    match vars.get(n.as_str()) {
        Some(v) => v.ty == VarType::Chars,
        None => false,
    }
}

fn chars_ne_exec(
    ne: &Vec<[String; 2]>,
    vars: &StrMap<VarInfo>,
    shapes: &StrMap<VarShape>,
    ghost_a: Ghost<AnalysisM>,
    skipped: &mut Vec<String>,
)
    requires
        ghost_a@.shapes == shapes.model(),
    ensures
        sv(final(skipped)@) == sv(old(skipped)@) + chars_ne_msgs(pairs2_view(ne@), vars.model(), ghost_a@),
{
    let ghost ps = pairs2_view(ne@);
    let ghost s0 = sv(skipped@);
    let mut i: usize = 0;
    assert(ps.take(0) =~= Seq::<(Seq<char>, Seq<char>)>::empty());
    assert(s0 + chars_ne_msgs(ps.take(0), vars.model(), ghost_a@) =~= s0);
    while i < ne.len()
        invariant
            ps == pairs2_view(ne@),
            ghost_a@.shapes == shapes.model(),
            i <= ps.len(),
            sv(skipped@) == s0 + chars_ne_msgs(ps.take(i as int), vars.model(), ghost_a@),
        decreases ps.len() - i,
    {
        assert(ps.take(i + 1).drop_last() =~= ps.take(i as int));
        let x = &ne[i][0];
        let y = &ne[i][1];
        assert(ps.take(i + 1).last() == (x@, y@));
        let ghost before = sv(skipped@);
        if chars_info_exec(vars, x) && array_like_exec(shapes, x) {
            push_msg(skipped, msg_chars_ne_exec(x));
        }
        let ghost mid = sv(skipped@);
        if chars_info_exec(vars, y) && array_like_exec(shapes, y) {
            push_msg(skipped, msg_chars_ne_exec(y));
        }
        proof {
            let p = chars_ne_msgs(ps.take(i as int), vars.model(), ghost_a@);
            let p1 = if chars_info(vars.model(), x@) && array_like(ghost_a@, x@) {
                p.push(msg_chars_ne(x@))
            } else {
                p
            };
            assert(mid =~= s0 + p1);
            assert(sv(skipped@) =~= s0 + chars_ne_msgs(ps.take(i + 1), vars.model(), ghost_a@));
        }
        i += 1;
    }
    assert(ps.take(ps.len() as int) =~= ps);
}

fn inter_exec(out: &mut StrSet, ps: &Vec<[String; 2]>, shapes: &StrMap<VarShape>, ghost_a: Ghost<AnalysisM>)
    requires
        ghost_a@.shapes == shapes.model(),
    ensures
        final(out).map.model() == inter_of(old(out).map.model(), pairs2_view(ps@), ghost_a@),
{
    let ghost pv = pairs2_view(ps@);
    let ghost o0 = out.map.model();
    let mut i: usize = 0;
    assert(pv.take(0) =~= Seq::<(Seq<char>, Seq<char>)>::empty());
    while i < ps.len()
        invariant
            pv == pairs2_view(ps@),
            ghost_a@.shapes == shapes.model(),
            i <= pv.len(),
            out.map.model() == inter_of(o0, pv.take(i as int), ghost_a@),
        decreases pv.len() - i,
    {
        assert(pv.take(i + 1).drop_last() =~= pv.take(i as int));
        let x = &ps[i][0];
        let y = &ps[i][1];
        assert(pv.take(i + 1).last() == (x@, y@));
        if array_like_exec(shapes, x) && array_like_exec(shapes, y) {
            out.insert(x.clone());
            out.insert(y.clone());
        }
        i += 1;
    }
    assert(pv.take(pv.len() as int) =~= pv);
}

fn any_len_exec(vars: &StrMap<VarInfo>) -> (r: bool)
    ensures
        r == any_len(vars.model()),
{
    let ghost m = vars.model();
    let mut i: usize = 0;
    while i < vars.len()
        invariant
            m == vars.model(),
            i <= m.len(),
            forall|j: int| 0 <= j < i ==> (#[trigger] m[j]).1.len is None,
        decreases m.len() - i,
    {
        if vars.value_at(i).len.is_some() {
            assert(m[i as int].1.len is Some);
            return true;
        }
        i += 1;
    }
    false
}

fn tuple_pairs(ps: &Vec<[String; 2]>) -> (r: Vec<(String, String)>)
    ensures
        r@.map_values(|p: (String, String)| crate::maps::pair_view(p)) == pairs2_view(ps@),
{
    let mut out: Vec<(String, String)> = Vec::new();
    let mut i: usize = 0;
    while i < ps.len()
        invariant
            i <= ps@.len(),
            out@.map_values(|p: (String, String)| crate::maps::pair_view(p)) == pairs2_view(ps@.take(i as int)),
        decreases ps.len() - i,
    {
        let p = (ps[i][0].clone(), ps[i][1].clone());
        let ghost o = out@;
        out.push(p);
        assert(out@ =~= o.push(p));
        assert(out@.map_values(|p: (String, String)| crate::maps::pair_view(p)) =~= o.map_values(
            |p: (String, String)| crate::maps::pair_view(p),
        ).push(crate::maps::pair_view(p)));
        assert(ps@.take(i + 1) =~= ps@.take(i as int).push(ps@[i as int]));
        assert(pairs2_view(ps@.take(i + 1)) =~= pairs2_view(ps@.take(i as int)).push(
            crate::parse::types::pair2_view(ps@[i as int]),
        ));
        i += 1;
    }
    assert(ps@.take(ps@.len() as int) =~= ps@);
    out
}

/// Resolve a section for generation.
#[verifier::rlimit(40)]
pub fn resolve(section: &RandomTestSection) -> (r: ResolvedSpec)
    ensures
        r.model() == spec_resolve(section.model()),
{
    let (vars, mut missing) = infos_exec(&section.vars);
    let an = analyze_format(&section.format);
    let ghost a = an.model();
    let shapes = an.shapes;
    let mut size_vars = an.size_exprs;
    let jagged = an.jagged_len_to_count;
    let first_count = an.first_test_cases_count;
    add_chars_len_exprs(&mut size_vars, &section.vars);
    let size_terms = size_terms_exec(&size_vars, &vars, &mut missing);
    let value_vars = collect_format_value_vars(&section.format);
    let mut names = StrSet::new();
    let mut i: usize = 0;
    assert(sv(value_vars@).take(0) =~= Seq::<Seq<char>>::empty());
    while i < value_vars.len()
        invariant
            i <= value_vars@.len(),
            names.map.model() == m_insert_all(seq![], sv(value_vars@).take(i as int), ()),
        decreases value_vars.len() - i,
    {
        assert(sv(value_vars@).take(i + 1).drop_last() =~= sv(value_vars@).take(i as int));
        assert(sv(value_vars@).take(i + 1).last() == value_vars@[i as int]@);
        names.insert(value_vars[i].clone());
        i += 1;
    }
    assert(sv(value_vars@).take(value_vars@.len() as int) =~= sv(value_vars@));
    undeclared_exec(&names, &vars, &mut missing);
    let mut skipped = crate::text::clone_strings(&section.skipped);
    chars_ne_exec(&section.not_equal, &vars, &shapes, Ghost(a), &mut skipped);
    let mut inter = StrSet::new();
    assert(inter.map.model() =~= Seq::<(Seq<char>, ())>::empty());
    inter_exec(&mut inter, &section.ordering, &shapes, Ghost(a));
    inter_exec(&mut inter, &section.not_equal, &shapes, Ghost(a));
    let has_array = format_has_array(&section.format) || any_len_exec(&vars);
    let r = ResolvedSpec {
        format: crate::parse::types::copy_blocks(&section.format),
        vars,
        size_vars,
        size_terms,
        ordering: tuple_pairs(&section.ordering),
        not_equal: tuple_pairs(&section.not_equal),
        inter_array_constrained: inter,
        has_array,
        jagged_len_to_count: jagged,
        test_cases_count_var: first_count,
        skipped,
        missing,
    };
    let ghost e = spec_resolve(section.model());
    assert(r.model().format == e.format);
    assert(r.model().vars == e.vars);
    assert(r.model().size_vars == e.size_vars);
    assert(r.model().size_terms == e.size_terms);
    assert(r.model().ordering == e.ordering);
    assert(r.model().not_equal == e.not_equal);
    assert(r.model().inter == e.inter);
    assert(r.model().has_array == e.has_array);
    assert(r.model().jagged == e.jagged);
    assert(r.model().first_count == e.first_count);
    assert(r.model().skipped == e.skipped);
    assert(r.model().missing =~= e.missing);
    r
}

} // verus!
