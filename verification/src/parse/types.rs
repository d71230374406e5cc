//! The persisted `random_test:` section: the input format as a tree of
//! blocks, and per-variable constraints.

use vstd::prelude::*;
use crate::maps::StrMap;
use crate::regex_ops::opt_view;
use crate::text::sv;

verus! {

/// One task section (A, B, C, …) of a task page.
#[derive(Clone, Debug)]
pub struct TaskSection {
    pub letter: String,
    pub input_blocks: Vec<Vec<String>>,
    pub constraints_items: Vec<String>,
}

/// One block of the input format.
#[derive(Debug)]
pub enum FormatBlock {
    Scalars(ScalarsBlock),
    Array(ArrayBlock),
    Rows(RowsBlock),
    TestCases(TestCasesBlock),
    Queries(QueriesBlock),
}

/// Scalars on one line.
#[derive(Clone, Debug)]
pub struct ScalarsBlock {
    pub vars: Vec<String>,
}

/// An array: its length, and a height and count for grids and stacks of
/// them; `jagged` rows carry their own length.
#[derive(Clone, Debug)]
pub struct ArrayBlock {
    pub base: String,
    pub len: Option<String>,
    pub height: Option<String>,
    pub count: Option<String>,
    pub jagged: bool,
}

/// `len` rows of the listed variables, one tuple per row.
#[derive(Clone, Debug)]
pub struct RowsBlock {
    pub vars: Vec<String>,
    pub len: String,
}

/// `count` test cases, each in `format`.
#[derive(Debug)]
pub struct TestCasesBlock {
    pub count: String,
    pub format: Vec<FormatBlock>,
}

/// One query type and its format.
#[derive(Debug)]
pub struct QueryBranch {
    pub id: String,
    pub format: Vec<FormatBlock>,
}

/// `count` queries; `discriminator` names the variable that tells the query
/// types apart (`None`: numbered queries).
#[derive(Debug)]
pub struct QueriesBlock {
    pub count: String,
    pub discriminator: Option<String>,
    pub types: Vec<QueryBranch>,
}

/// The value of a [`FormatBlock`].
pub enum FormatBlockM {
    Scalars(Seq<Seq<char>>),
    Array {
        base: Seq<char>,
        len: Option<Seq<char>>,
        height: Option<Seq<char>>,
        count: Option<Seq<char>>,
        jagged: bool,
    },
    Rows { vars: Seq<Seq<char>>, len: Seq<char> },
    TestCases { count: Seq<char>, format: Seq<FormatBlockM> },
    Queries {
        count: Seq<char>,
        discriminator: Option<Seq<char>>,
        types: Seq<(Seq<char>, Seq<FormatBlockM>)>,
    },
}

pub open spec fn block_view(b: FormatBlock) -> FormatBlockM
    decreases b,
{
    match b {
        FormatBlock::Scalars(s) => FormatBlockM::Scalars(sv(s.vars@)),
        FormatBlock::Array(a) => FormatBlockM::Array {
            base: a.base@,
            len: opt_view(a.len),
            height: opt_view(a.height),
            count: opt_view(a.count),
            jagged: a.jagged,
        },
        FormatBlock::Rows(r) => FormatBlockM::Rows { vars: sv(r.vars@), len: r.len@ },
        FormatBlock::TestCases(t) => FormatBlockM::TestCases {
            count: t.count@,
            format: blocks_view(t.format@),
        },
        FormatBlock::Queries(q) => FormatBlockM::Queries {
            count: q.count@,
            discriminator: opt_view(q.discriminator),
            types: branches_view(q.types@),
        },
    }
}

pub open spec fn blocks_view(bs: Seq<FormatBlock>) -> Seq<FormatBlockM>
    decreases bs,
{
    if bs.len() == 0 {
        seq![]
    } else {
        blocks_view(bs.subrange(0, bs.len() - 1)).push(block_view(bs[bs.len() - 1]))
    }
}

pub open spec fn branches_view(qs: Seq<QueryBranch>) -> Seq<(Seq<char>, Seq<FormatBlockM>)>
    decreases qs,
{
    if qs.len() == 0 {
        seq![]
    } else {
        branches_view(qs.subrange(0, qs.len() - 1)).push(
            (qs[qs.len() - 1].id@, blocks_view(qs[qs.len() - 1].format@)),
        )
    }
}

pub proof fn lemma_blocks_view_push(bs: Seq<FormatBlock>, b: FormatBlock)
    ensures
        blocks_view(bs.push(b)) == blocks_view(bs).push(block_view(b)),
{
    assert(bs.push(b).subrange(0, bs.len() as int) =~= bs);
}

pub proof fn lemma_blocks_view_len(bs: Seq<FormatBlock>)
    ensures
        blocks_view(bs).len() == bs.len(),
    decreases bs.len(),
{
    if bs.len() > 0 {
        lemma_blocks_view_len(bs.subrange(0, bs.len() - 1));
    }
}

pub proof fn lemma_blocks_view_index(bs: Seq<FormatBlock>, i: int)
    requires
        0 <= i < bs.len(),
    ensures
        blocks_view(bs)[i] == block_view(bs[i]),
        blocks_view(bs).len() == bs.len(),
    decreases bs.len(),
{
    lemma_blocks_view_len(bs);
    if i < bs.len() - 1 {
        lemma_blocks_view_index(bs.subrange(0, bs.len() - 1), i);
    }
}

pub proof fn lemma_branches_view_len(qs: Seq<QueryBranch>)
    ensures
        branches_view(qs).len() == qs.len(),
    decreases qs.len(),
{
    if qs.len() > 0 {
        lemma_branches_view_len(qs.subrange(0, qs.len() - 1));
    }
}

pub proof fn lemma_branches_view_index(qs: Seq<QueryBranch>, i: int)
    requires
        0 <= i < qs.len(),
    ensures
        branches_view(qs)[i] == (qs[i].id@, blocks_view(qs[i].format@)),
        branches_view(qs).len() == qs.len(),
    decreases qs.len(),
{
    lemma_branches_view_len(qs);
    if i < qs.len() - 1 {
        lemma_branches_view_index(qs.subrange(0, qs.len() - 1), i);
    }
}

/// The type of a variable.
#[derive(Clone, Copy, Debug, PartialEq, Eq, Structural, Default)]
pub enum VarType {
    #[default]
    Usize,
    I64,
    Chars,
}

/// A literal bound or a named one (`n`, `|S|`, or `_` when unknown).
#[derive(Clone, Debug, PartialEq, Eq)]
pub enum BoundRepr {
    Lit(i64),
    Expr(String),
}

pub enum BoundReprM {
    Lit(i64),
    Expr(Seq<char>),
}

pub open spec fn repr_view(b: BoundRepr) -> BoundReprM {
    match b {
        BoundRepr::Lit(n) => BoundReprM::Lit(n),
        BoundRepr::Expr(s) => BoundReprM::Expr(s@),
    }
}

impl BoundRepr {
    pub fn duplicate(&self) -> (r: BoundRepr)
        ensures
            repr_view(r) == repr_view(*self),
    {
        match self {
            BoundRepr::Lit(n) => BoundRepr::Lit(*n),
            BoundRepr::Expr(s) => BoundRepr::Expr(s.clone()),
        }
    }
}

/// The constraints of one variable.
#[derive(Clone, Debug, Default)]
pub struct VarConstraint {
    pub var_type: VarType,
    /// `[lo, hi]`, each a literal or `_` when it could not be found.
    pub range: Option<[BoundRepr; 2]>,
    /// The allowed characters (`Chars`) or values (a discrete set).
    pub values: Option<Vec<String>>,
    /// The length of a `Chars` value.
    pub len: Option<BoundRepr>,
    /// The sum of this variable over all test cases is at most this.
    pub sum_limit: Option<i64>,
    /// The elements of an array of this base are pairwise distinct.
    pub all_distinct: bool,
}

pub struct VarConstraintM {
    pub var_type: VarType,
    pub range: Option<(BoundReprM, BoundReprM)>,
    pub values: Option<Seq<Seq<char>>>,
    pub len: Option<BoundReprM>,
    pub sum_limit: Option<i64>,
    pub all_distinct: bool,
}

pub open spec fn range_view(r: Option<[BoundRepr; 2]>) -> Option<(BoundReprM, BoundReprM)> {
    match r {
        Some(a) => Some((repr_view(a@[0]), repr_view(a@[1]))),
        None => None,
    }
}

pub open spec fn values_view(v: Option<Vec<String>>) -> Option<Seq<Seq<char>>> {
    match v {
        Some(x) => Some(sv(x@)),
        None => None,
    }
}

pub open spec fn opt_repr_view(b: Option<BoundRepr>) -> Option<BoundReprM> {
    match b {
        Some(x) => Some(repr_view(x)),
        None => None,
    }
}

impl DeepView for VarConstraint {
    type V = VarConstraintM;

    open spec fn deep_view(&self) -> VarConstraintM {
        VarConstraintM {
            var_type: self.var_type,
            range: range_view(self.range),
            values: values_view(self.values),
            len: opt_repr_view(self.len),
            sum_limit: self.sum_limit,
            all_distinct: self.all_distinct,
        }
    }
}

pub open spec fn default_constraint() -> VarConstraintM {
    VarConstraintM {
        var_type: VarType::Usize,
        range: None,
        values: None,
        len: None,
        sum_limit: None,
        all_distinct: false,
    }
}

impl VarConstraint {
    /// A copy of the constraint.
    pub fn clone_constraint(&self) -> (r: VarConstraint)
        ensures
            r.deep_view() == self.deep_view(),
    {
        let range = match &self.range {
            Some(a) => Some([a[0].duplicate(), a[1].duplicate()]),
            None => None,
        };
        let values = match &self.values {
            Some(v) => Some(crate::text::clone_strings(v)),
            None => None,
        };
        let len = match &self.len {
            Some(b) => Some(b.duplicate()),
            None => None,
        };
        VarConstraint {
            var_type: self.var_type,
            range,
            values,
            len,
            sum_limit: self.sum_limit,
            all_distinct: self.all_distinct,
        }
    }

    /// The constraint of a variable nothing is known of: `usize`, no range.
    pub fn new() -> (r: VarConstraint)
        ensures
            r.deep_view() == default_constraint(),
    {
        VarConstraint {
            var_type: VarType::Usize,
            range: None,
            values: None,
            len: None,
            sum_limit: None,
            all_distinct: false,
        }
    }
}

/// The `random_test:` section of a test-suite file.
#[derive(Debug)]
pub struct RandomTestSection {
    pub vars: StrMap<VarConstraint>,
    pub format: Vec<FormatBlock>,
    /// Pairs `[a, b]` meaning `a <= b`.
    pub ordering: Vec<[String; 2]>,
    /// Pairs `[a, b]` meaning `a != b`.
    pub not_equal: Vec<[String; 2]>,
    /// Constraint and format lines that could not be parsed.
    pub skipped: Vec<String>,
}

pub open spec fn pair2_view(p: [String; 2]) -> (Seq<char>, Seq<char>) {
    (p@[0]@, p@[1]@)
}

pub open spec fn pairs2_view(v: Seq<[String; 2]>) -> Seq<(Seq<char>, Seq<char>)> {
    v.map_values(|p: [String; 2]| pair2_view(p))
}

/// `!b`, for fields left out of the file when false.
pub fn is_false(b: &bool) -> (r: bool)
    ensures
        r == !*b,
{
    !*b
}

} // verus!


verus! {

pub struct SectionM {
    pub vars: Seq<(Seq<char>, VarConstraintM)>,
    pub format: Seq<FormatBlockM>,
    pub ordering: Seq<(Seq<char>, Seq<char>)>,
    pub not_equal: Seq<(Seq<char>, Seq<char>)>,
    pub skipped: Seq<Seq<char>>,
}

impl RandomTestSection {
    pub open spec fn model(&self) -> SectionM {
        SectionM {
            vars: self.vars.model(),
            format: blocks_view(self.format@),
            ordering: pairs2_view(self.ordering@),
            not_equal: pairs2_view(self.not_equal@),
            skipped: sv(self.skipped@),
        }
    }

    /// An empty section.
    pub fn new() -> (r: RandomTestSection)
        ensures
            r.model().vars.len() == 0,
            r.model().format.len() == 0,
            r.model().ordering.len() == 0,
            r.model().not_equal.len() == 0,
            r.model().skipped.len() == 0,
    {
        RandomTestSection {
            vars: StrMap::new(),
            format: Vec::new(),
            ordering: Vec::new(),
            not_equal: Vec::new(),
            skipped: Vec::new(),
        }
    }
}

impl Default for RandomTestSection {
    /// An empty section.
    fn default() -> (r: RandomTestSection)
        ensures
            r.model().vars.len() == 0,
            r.model().format.len() == 0,
            r.model().ordering.len() == 0,
            r.model().not_equal.len() == 0,
            r.model().skipped.len() == 0,
    {
        RandomTestSection::new()
    }
}

} // verus!

verus! {

fn copy_opt_string(o: &Option<String>) -> (r: Option<String>)
    ensures
        opt_view(r) == opt_view(*o),
{
    match o {
        Some(s) => Some(s.clone()),
        None => None,
    }
}

/// A copy of a format block.
pub fn copy_block(b: &FormatBlock) -> (r: FormatBlock)
    ensures
        block_view(r) == block_view(*b),
    decreases b,
{
    match b {
        FormatBlock::Scalars(s) => FormatBlock::Scalars(ScalarsBlock { vars: crate::text::clone_strings(&s.vars) }),
        FormatBlock::Array(a) => FormatBlock::Array(
            ArrayBlock {
                base: a.base.clone(),
                len: copy_opt_string(&a.len),
                height: copy_opt_string(&a.height),
                count: copy_opt_string(&a.count),
                jagged: a.jagged,
            },
        ),
        FormatBlock::Rows(r) => FormatBlock::Rows(
            RowsBlock { vars: crate::text::clone_strings(&r.vars), len: r.len.clone() },
        ),
        FormatBlock::TestCases(t) => {
            proof {
                assert(decreases_to!(*b => (*b)->TestCases_0));
            }
            FormatBlock::TestCases(TestCasesBlock { count: t.count.clone(), format: copy_blocks(&t.format) })
        },
        FormatBlock::Queries(q) => {
            let ghost qs = q.types@;
            let mut types: Vec<QueryBranch> = Vec::new();
            let mut j: usize = 0;
            assert(branches_view(qs.subrange(0, 0)) =~= branches_view(types@));
            while j < q.types.len()
                invariant
                    *b == FormatBlock::Queries(*q),
                    qs == q.types@,
                    j <= qs.len(),
                    branches_view(types@) == branches_view(qs.subrange(0, j as int)),
                decreases q.types.len() - j,
            {
                proof {
                    assert((*b)->Queries_0 == *q);
                    assert(decreases_to!(*b => (*b)->Queries_0));
                    assert(decreases_to!(*q => q.types));
                    assert(decreases_to!(q.types => q.types@));
                    assert(decreases_to!(q.types@ => q.types@[j as int]));
                    assert(decreases_to!(q.types@[j as int] => q.types@[j as int].format));
                    assert(decreases_to!(*b => q.types@[j as int].format));
                }
                let br = QueryBranch { id: q.types[j].id.clone(), format: copy_blocks(&q.types[j].format) };
                let ghost t0 = types@;
                types.push(br);
                proof {
                    assert(types@ =~= t0.push(br));
                    assert(types@.subrange(0, t0.len() as int) =~= t0);
                    assert(qs.subrange(0, j + 1).subrange(0, j as int) =~= qs.subrange(0, j as int));
                    assert(qs.subrange(0, j + 1)[j as int] == qs[j as int]);
                }
                j += 1;
            }
            assert(qs.subrange(0, qs.len() as int) =~= qs);
            FormatBlock::Queries(
                QueriesBlock { count: q.count.clone(), discriminator: copy_opt_string(&q.discriminator), types },
            )
        },
    }
}

/// A copy of a list of format blocks.
pub fn copy_blocks(bs: &Vec<FormatBlock>) -> (r: Vec<FormatBlock>)
    ensures
        blocks_view(r@) == blocks_view(bs@),
    decreases bs,
{
    let ghost s = bs@;
    let mut out: Vec<FormatBlock> = Vec::new();
    let mut i: usize = 0;
    assert(blocks_view(out@) =~= blocks_view(s.subrange(0, 0)));
    while i < bs.len()
        invariant
            s == bs@,
            i <= s.len(),
            blocks_view(out@) == blocks_view(s.subrange(0, i as int)),
        decreases bs.len() - i,
    {
        proof {
            assert(decreases_to!(bs => bs@));
            assert(decreases_to!(bs@ => bs@[i as int]));
        }
        let c = copy_block(&bs[i]);
        let ghost o = out@;
        out.push(c);
        proof {
            lemma_blocks_view_push(o, c);
            assert(out@ =~= o.push(c));
            assert(s.subrange(0, i + 1) =~= s.subrange(0, i as int).push(s[i as int]));
            lemma_blocks_view_push(s.subrange(0, i as int), s[i as int]);
        }
        i += 1;
    }
    assert(s.subrange(0, s.len() as int) =~= s);
    out
}

} // verus!

verus! {

pub open spec fn lit_range_m(lo: i64, hi: i64) -> Option<(BoundReprM, BoundReprM)> {
    Some((BoundReprM::Lit(lo), BoundReprM::Lit(hi)))
}

/// The range `[lo, hi]` of two literals.
pub fn lit_range(lo: i64, hi: i64) -> (r: Option<[BoundRepr; 2]>)
    ensures
        range_view(r) == lit_range_m(lo, hi),
{
    Some([BoundRepr::Lit(lo), BoundRepr::Lit(hi)])
}

/// A `usize` constraint with the range `[lo, hi]` (`hi` absent: the
/// placeholder `_`) and an optional sum limit.
pub fn vc(lo: i64, hi: Option<i64>, sum: Option<i64>) -> (r: VarConstraint)
    ensures
        r.deep_view() == (VarConstraintM {
            range: Some(
                (
                    BoundReprM::Lit(lo),
                    match hi {
                        Some(h) => BoundReprM::Lit(h),
                        None => BoundReprM::Expr("_"@),
                    },
                ),
            ),
            sum_limit: sum,
            ..default_constraint()
        }),
{
    let h = match hi {
        Some(h) => BoundRepr::Lit(h),
        None => BoundRepr::Expr("_".to_string()),
    };
    VarConstraint {
        var_type: VarType::Usize,
        range: Some([BoundRepr::Lit(lo), h]),
        values: None,
        len: None,
        sum_limit: sum,
        all_distinct: false,
    }
}

pub open spec fn entries_view(v: Seq<(&str, VarConstraint)>) -> Seq<(Seq<char>, VarConstraintM)> {
    v.map_values(|e: (&str, VarConstraint)| (e.0@, e.1.deep_view()))
}

/// A section of the given variables, inserted in order, and format.
pub fn sect(vars: Vec<(&str, VarConstraint)>, format: Vec<FormatBlock>) -> (r: RandomTestSection)
    ensures
        r.model().format == blocks_view(format@),
        r.model().ordering.len() == 0,
        r.model().not_equal.len() == 0,
        r.model().skipped.len() == 0,
        r.model().vars == crate::maps::m_insert_all_pairs(
            seq![],
            entries_view(vars@),
        ),
{
    let ghost vs = entries_view(vars@);
    let mut map: StrMap<VarConstraint> = StrMap::new();
    assert(map.model() =~= Seq::<(Seq<char>, VarConstraintM)>::empty());
    let mut rest = vars;
    let ghost mut done: int = 0;
    while rest.len() > 0
        invariant
            0 <= done <= vs.len(),
            entries_view(rest@) == vs.skip(done),
            map.model() == crate::maps::m_insert_all_pairs(seq![], vs.take(done)),
        decreases rest.len(),
    {
        let ghost before = rest@;
        let (k, v) = rest.remove(0);
        proof {
            assert(entries_view(before).len() == before.len());
            assert(done < vs.len());
            assert(before[0] == (k, v));
            assert(vs.skip(done)[0] == (k@, v.deep_view()));
            assert(rest@ =~= before.drop_first());
            let bm = entries_view(before);
            assert(bm == vs.skip(done));
            assert forall|j: int| 0 <= j < rest@.len() implies #[trigger] entries_view(rest@)[j] == vs.skip(
                done + 1,
            )[j] by {
                assert(rest@[j] == before[j + 1]);
                assert(bm[j + 1] == vs.skip(done)[j + 1]);
            }
            assert(entries_view(rest@) =~= vs.skip(done + 1));
            assert(vs.take(done + 1).drop_last() =~= vs.take(done));
            assert(vs.take(done + 1).last() == vs[done]);
        }
        map.insert(k.to_string(), v);
        proof {
            done = done + 1;
        }
    }
    assert(vs.take(done) =~= vs);
    RandomTestSection {
        vars: map,
        format,
        ordering: Vec::new(),
        not_equal: Vec::new(),
        skipped: Vec::new(),
    }
}

/// A line of scalars.
pub fn scalars(vs: &[&str]) -> (r: FormatBlock)
    ensures
        r is Scalars,
        r->Scalars_0.vars@.len() == vs@.len(),
        forall|i: int| 0 <= i < vs@.len() ==> r->Scalars_0.vars@[i]@ == vs@[i]@,
{
    let mut vars: Vec<String> = Vec::new();
    let mut i: usize = 0;
    while i < vs.len()
        invariant
            i <= vs@.len(),
            vars@.len() == i,
            forall|j: int| 0 <= j < i ==> vars@[j]@ == vs@[j]@,
        decreases vs.len() - i,
    {
        vars.push(vs[i].to_string());
        i += 1;
    }
    FormatBlock::Scalars(ScalarsBlock { vars })
}

/// The upper end of a variable's range.
pub fn hi_of(s: &RandomTestSection, name: &str) -> (r: BoundRepr)
    requires
        crate::maps::m_get(s.model().vars, name@) matches Some(v) && v.range is Some,
    ensures
        crate::maps::m_get(s.model().vars, name@) matches Some(v) && v.range matches Some(rg) && rg.1
            == repr_view(r),
{
    match s.vars.get(name) {
        Some(v) => match &v.range {
            Some(rg) => rg[1].duplicate(),
            None => BoundRepr::Expr("_".to_string()),
        },
        None => BoundRepr::Expr("_".to_string()),
    }
}

} // verus!

verus! {

pub struct ArrayM {
    pub base: Seq<char>,
    pub len: Option<Seq<char>>,
    pub height: Option<Seq<char>>,
    pub count: Option<Seq<char>>,
    pub jagged: bool,
}

pub open spec fn array_view(a: ArrayBlock) -> ArrayM {
    ArrayM {
        base: a.base@,
        len: opt_view(a.len),
        height: opt_view(a.height),
        count: opt_view(a.count),
        jagged: a.jagged,
    }
}

/// The first jagged array of the format, depth first.
pub open spec fn first_jagged_blocks(bs: Seq<FormatBlockM>) -> Option<ArrayM>
    decreases bs,
{
    if bs.len() == 0 {
        None
    } else {
        match first_jagged_blocks(bs.subrange(0, bs.len() - 1)) {
            Some(a) => Some(a),
            None => first_jagged_block(bs[bs.len() - 1]),
        }
    }
}

pub open spec fn first_jagged_block(b: FormatBlockM) -> Option<ArrayM>
    decreases b,
{
    match b {
        FormatBlockM::Array { base, len, height, count, jagged } => if jagged {
            Some(ArrayM { base, len, height, count, jagged })
        } else {
            None
        },
        FormatBlockM::TestCases { format, .. } => first_jagged_blocks(format),
        FormatBlockM::Queries { types, .. } => first_jagged_branches(types),
        _ => None,
    }
}

pub open spec fn first_jagged_branches(qs: Seq<(Seq<char>, Seq<FormatBlockM>)>) -> Option<ArrayM>
    decreases qs,
{
    if qs.len() == 0 {
        None
    } else {
        match first_jagged_branches(qs.subrange(0, qs.len() - 1)) {
            Some(a) => Some(a),
            None => first_jagged_blocks(qs[qs.len() - 1].1),
        }
    }
}

fn find_jagged_in_block(b: &FormatBlock) -> (r: Option<&ArrayBlock>)
    ensures
        match r {
            Some(a) => first_jagged_block(block_view(*b)) == Some(array_view(*a)),
            None => first_jagged_block(block_view(*b)) is None,
        },
    decreases b,
{
    match b {
        FormatBlock::Array(ab) => if ab.jagged {
            Some(ab)
        } else {
            None
        },
        FormatBlock::TestCases(tb) => {
            proof {
                assert(decreases_to!(*b => (*b)->TestCases_0));
            }
            find_jagged_array(&tb.format)
        },
        FormatBlock::Queries(qb) => {
            let ghost qs = qb.types@;
            let mut j: usize = 0;
            assert(first_jagged_branches(branches_view(qs.subrange(0, 0))) is None);
            while j < qb.types.len()
                invariant
                    *b == FormatBlock::Queries(*qb),
                    qs == qb.types@,
                    j <= qs.len(),
                    first_jagged_branches(branches_view(qs.subrange(0, j as int))) is None,
                decreases qb.types.len() - j,
            {
                proof {
                    assert((*b)->Queries_0 == *qb);
                    assert(decreases_to!(*b => (*b)->Queries_0));
                    assert(decreases_to!(*qb => qb.types));
                    assert(decreases_to!(qb.types => qb.types@));
                    assert(decreases_to!(qb.types@ => qb.types@[j as int]));
                    assert(decreases_to!(qb.types@[j as int] => qb.types@[j as int].format));
                    assert(qs.subrange(0, j + 1) =~= qs.subrange(0, j as int).push(qs[j as int]));
                    assert(qs.subrange(0, j + 1).subrange(0, j as int) =~= qs.subrange(0, j as int));
                    let post = branches_view(qs.subrange(0, j + 1));
                    assert(post.subrange(0, post.len() - 1) =~= branches_view(qs.subrange(0, j as int)));
                }
                match find_jagged_array(&qb.types[j].format) {
                    Some(a) => {
                        proof {
                            let pre = branches_view(qs.subrange(0, j as int));
                            assert(branches_view(qs) == pre.push((qs[j as int].id@, blocks_view(qs[j as int].format@))) + branches_view(qs.subrange(j + 1, qs.len() as int))) by {
                                lemma_branches_view_split(qs, j as int);
                            }
                            lemma_first_jagged_branches_prefix(pre.push((qs[j as int].id@, blocks_view(qs[j as int].format@))), branches_view(qs.subrange(j + 1, qs.len() as int)));
                        }
                        return Some(a);
                    },
                    None => {},
                }
                j += 1;
            }
            assert(qs.subrange(0, qs.len() as int) =~= qs);
            None
        },
        _ => None,
    }
}

/// The first jagged array of the format, depth first through test cases
/// and query branches.
pub fn find_jagged_array(blocks: &Vec<FormatBlock>) -> (r: Option<&ArrayBlock>)
    ensures
        match r {
            Some(a) => first_jagged_blocks(blocks_view(blocks@)) == Some(array_view(*a)),
            None => first_jagged_blocks(blocks_view(blocks@)) is None,
        },
    decreases blocks,
{
    let ghost bs = blocks@;
    let mut i: usize = 0;
    assert(first_jagged_blocks(blocks_view(bs.subrange(0, 0))) is None);
    while i < blocks.len()
        invariant
            bs == blocks@,
            i <= bs.len(),
            first_jagged_blocks(blocks_view(bs.subrange(0, i as int))) is None,
        decreases blocks.len() - i,
    {
        proof {
            assert(decreases_to!(blocks => blocks@));
            assert(decreases_to!(blocks@ => blocks@[i as int]));
            assert(bs.subrange(0, i + 1) =~= bs.subrange(0, i as int).push(bs[i as int]));
            lemma_blocks_view_push(bs.subrange(0, i as int), bs[i as int]);
            let post = blocks_view(bs.subrange(0, i + 1));
            assert(post.subrange(0, post.len() - 1) =~= blocks_view(bs.subrange(0, i as int)));
        }
        match find_jagged_in_block(&blocks[i]) {
            Some(a) => {
                proof {
                    lemma_blocks_view_split(bs, i as int);
                    lemma_first_jagged_blocks_prefix(
                        blocks_view(bs.subrange(0, i + 1)),
                        blocks_view(bs.subrange(i + 1, bs.len() as int)),
                    );
                }
                return Some(a);
            },
            None => {},
        }
        i += 1;
    }
    assert(bs.subrange(0, bs.len() as int) =~= bs);
    None
}

pub proof fn lemma_blocks_view_concat(a: Seq<FormatBlock>, b: Seq<FormatBlock>)
    ensures
        blocks_view(a + b) == blocks_view(a) + blocks_view(b),
    decreases b.len(),
{
    if b.len() == 0 {
        assert(a + b =~= a);
        assert(blocks_view(a) + blocks_view(b) =~= blocks_view(a));
    } else {
        let b0 = b.drop_last();
        lemma_blocks_view_concat(a, b0);
        assert(a + b =~= (a + b0).push(b.last()));
        lemma_blocks_view_push(a + b0, b.last());
        lemma_blocks_view_push(b0, b.last());
        assert(b =~= b0.push(b.last()));
        assert(blocks_view(a) + blocks_view(b0).push(block_view(b.last())) =~= (blocks_view(a) + blocks_view(b0)).push(
            block_view(b.last()),
        ));
    }
}

pub proof fn lemma_blocks_view_split(bs: Seq<FormatBlock>, i: int)
    requires
        0 <= i < bs.len(),
    ensures
        blocks_view(bs) == blocks_view(bs.subrange(0, i + 1)) + blocks_view(bs.subrange(i + 1, bs.len() as int)),
{
    assert(bs =~= bs.subrange(0, i + 1) + bs.subrange(i + 1, bs.len() as int));
    lemma_blocks_view_concat(bs.subrange(0, i + 1), bs.subrange(i + 1, bs.len() as int));
}

pub proof fn lemma_branches_view_concat(a: Seq<QueryBranch>, b: Seq<QueryBranch>)
    ensures
        branches_view(a + b) == branches_view(a) + branches_view(b),
    decreases b.len(),
{
    if b.len() == 0 {
        assert(a + b =~= a);
        assert(branches_view(a) + branches_view(b) =~= branches_view(a));
    } else {
        let b0 = b.drop_last();
        lemma_branches_view_concat(a, b0);
        assert(a + b =~= (a + b0).push(b.last()));
        assert((a + b0).push(b.last()).subrange(0, (a + b0).len() as int) =~= a + b0);
        assert(b0.push(b.last()).subrange(0, b0.len() as int) =~= b0);
        assert(b =~= b0.push(b.last()));
        let x = (b.last().id@, blocks_view(b.last().format@));
        assert(branches_view(a) + branches_view(b0).push(x) =~= (branches_view(a) + branches_view(b0)).push(x));
    }
}

pub proof fn lemma_branches_view_split(qs: Seq<QueryBranch>, j: int)
    requires
        0 <= j < qs.len(),
    ensures
        branches_view(qs) == branches_view(qs.subrange(0, j)).push((qs[j].id@, blocks_view(qs[j].format@)))
            + branches_view(qs.subrange(j + 1, qs.len() as int)),
{
    assert(qs =~= qs.subrange(0, j + 1) + qs.subrange(j + 1, qs.len() as int));
    lemma_branches_view_concat(qs.subrange(0, j + 1), qs.subrange(j + 1, qs.len() as int));
    assert(qs.subrange(0, j + 1) =~= qs.subrange(0, j).push(qs[j]));
    assert(qs.subrange(0, j).push(qs[j]).subrange(0, j) =~= qs.subrange(0, j));
}

pub proof fn lemma_first_jagged_blocks_prefix(a: Seq<FormatBlockM>, b: Seq<FormatBlockM>)
    requires
        first_jagged_blocks(a) is Some,
    ensures
        first_jagged_blocks(a + b) == first_jagged_blocks(a),
    decreases b.len(),
{
    if b.len() == 0 {
        assert(a + b =~= a);
    } else {
        lemma_first_jagged_blocks_prefix(a, b.drop_last());
        assert((a + b).subrange(0, (a + b).len() - 1) =~= a + b.drop_last());
    }
}

pub proof fn lemma_first_jagged_branches_prefix(a: Seq<(Seq<char>, Seq<FormatBlockM>)>, b: Seq<(Seq<char>, Seq<FormatBlockM>)>)
    requires
        first_jagged_branches(a) is Some,
    ensures
        first_jagged_branches(a + b) == first_jagged_branches(a),
    decreases b.len(),
{
    if b.len() == 0 {
        assert(a + b =~= a);
    } else {
        lemma_first_jagged_branches_prefix(a, b.drop_last());
        assert((a + b).subrange(0, (a + b).len() - 1) =~= a + b.drop_last());
    }
}

} // verus!
