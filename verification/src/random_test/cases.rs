//! From a `random_test:` section to named input cases: resolve the section,
//! check that its format can be rendered, and pull strategies until enough
//! cases have rendered.

use vstd::prelude::*;
use std::sync::atomic::AtomicBool;
use crate::interrupt::signalled;
use crate::maps::{m_get, m_has};
use crate::parse::types::{block_view, blocks_view, branches_view, BoundRepr, FormatBlock, RandomTestSection, VarType};
use crate::random_test::emitter::{
    base_ok, block_ready, blocks_ready, branches_ready, count_ok, is_synthetic, is_synthetic_chars_len, jag_len_ok,
    len_ok, opt_count_ok, value_ok, values_ok,
};
use crate::random_test::render::{render_case, RenderResult};
use crate::random_test::spec::{resolve, spec_resolve, ResolvedSpec, SizeTerm};
use crate::random_test::strategy::{case_name, strategy_stream};
use crate::text::{clone_strings, sv};

verus! {

// ─── checking that a format can be rendered ─────────────────────────────────

fn base_ok_exec(spec: &ResolvedSpec, vn: &str) -> (r: bool)
    ensures
        r == base_ok(spec.model(), vn@),
{
    match spec.size_terms.get(vn) {
        Some(SizeTerm::Lit(_)) => true,
        Some(SizeTerm::Var(v2)) => spec.vars.contains_key(v2.as_str()),
        Some(SizeTerm::VarOffset(_, _)) => false,
        None => spec.vars.contains_key(vn),
    }
}

fn count_ok_exec(spec: &ResolvedSpec, name: &str) -> (r: bool)
    ensures
        r == count_ok(spec.model(), name@),
{
    match spec.size_terms.get(name) {
        Some(SizeTerm::Lit(_)) => true,
        Some(SizeTerm::Var(vn)) => spec.vars.contains_key(vn.as_str()),
        Some(SizeTerm::VarOffset(vn, _)) => base_ok_exec(spec, vn.as_str()),
        None => spec.vars.contains_key(name),
    }
}

fn opt_count_ok_exec(spec: &ResolvedSpec, c: &Option<String>) -> (r: bool)
    ensures
        r == opt_count_ok(spec.model(), crate::regex_ops::opt_view(*c)),
{
    match c {
        Some(n) => count_ok_exec(spec, n.as_str()),
        None => true,
    }
}

fn len_ok_exec(spec: &ResolvedSpec, len: &Option<BoundRepr>) -> (r: bool)
    ensures
        r == len_ok(
            spec.model(),
            match *len {
                Some(b) => Some(crate::parse::types::repr_view(b)),
                None => None,
            },
        ),
{
    match len {
        Some(BoundRepr::Lit(_)) => true,
        Some(BoundRepr::Expr(e)) => {
            if is_synthetic_chars_len(e.as_str()) {
                spec.vars.contains_key(e.as_str())
            } else {
                match spec.size_terms.get(e.as_str()) {
                    Some(SizeTerm::Lit(_)) => true,
                    Some(SizeTerm::Var(n)) => count_ok_exec(spec, n.as_str()),
                    Some(SizeTerm::VarOffset(n, _)) => count_ok_exec(spec, n.as_str()),
                    None => false,
                }
            }
        },
        None => false,
    }
}

fn value_ok_exec(spec: &ResolvedSpec, v: &str) -> (r: bool)
    ensures
        r == value_ok(spec.model(), v@),
{
    match spec.vars.get(v) {
        Some(info) => {
            assert(info.deep_view().len == match info.len {
                Some(b) => Some(crate::parse::types::repr_view(b)),
                None => None,
            });
            let chars_ok = match info.ty {
                VarType::Chars => match &info.charset {
                    Some(cs) => cs.len() > 0 && (cs.len() as u64) <= 0x7fff_ffff_ffff_ffff && len_ok_exec(spec, &info.len),
                    None => false,
                },
                _ => true,
            };
            let values_fit = match &info.values {
                Some(vs) => (vs.len() as u64) <= 0x7fff_ffff_ffff_ffff,
                None => true,
            };
            chars_ok && values_fit
        },
        None => false,
    }
}

fn values_ok_exec(spec: &ResolvedSpec, vs: &Vec<String>) -> (r: bool)
    ensures
        r == values_ok(spec.model(), sv(vs@)),
{
    let mut i: usize = 0;
    while i < vs.len()
        invariant
            i <= vs@.len(),
            forall|j: int| 0 <= j < i ==> value_ok(spec.model(), #[trigger] sv(vs@)[j]),
        decreases vs.len() - i,
    {
        if !value_ok_exec(spec, vs[i].as_str()) {
            assert(sv(vs@)[i as int] == vs@[i as int]@);
            return false;
        }
        assert(sv(vs@)[i as int] == vs@[i as int]@);
        i += 1;
    }
    true
}

fn jag_len_ok_exec(spec: &ResolvedSpec, l: &str) -> (r: bool)
    ensures
        r == jag_len_ok(spec.model(), l@),
{
    match spec.size_terms.get(l) {
        Some(SizeTerm::Lit(_)) => true,
        Some(SizeTerm::Var(vn)) => spec.vars.contains_key(vn.as_str()),
        Some(SizeTerm::VarOffset(vn, _)) => spec.vars.contains_key(vn.as_str()),
        None => false,
    }
}

fn block_ready_exec(spec: &ResolvedSpec, b: &FormatBlock) -> (r: bool)
    ensures
        r == block_ready(spec.model(), block_view(*b)),
    decreases b,
{
    match b {
        FormatBlock::Scalars(s) => values_ok_exec(spec, &s.vars),
        FormatBlock::Array(a) => {
            let base_ok = value_ok_exec(spec, a.base.as_str());
            let count_ok = opt_count_ok_exec(spec, &a.count);
            let rest = if a.jagged {
                match &a.len {
                    Some(l) => jag_len_ok_exec(spec, l.as_str()),
                    None => false,
                }
            } else {
                opt_count_ok_exec(spec, &a.len) && opt_count_ok_exec(spec, &a.height)
            };
            base_ok && count_ok && rest
        },
        FormatBlock::Rows(rb) => count_ok_exec(spec, rb.len.as_str()) && values_ok_exec(spec, &rb.vars),
        FormatBlock::TestCases(t) => {
            proof {
                assert(decreases_to!(*b => (*b)->TestCases_0));
            }
            count_ok_exec(spec, t.count.as_str()) && blocks_ready_exec(spec, &t.format)
        },
        FormatBlock::Queries(q) => {
            if !count_ok_exec(spec, q.count.as_str()) {
                return false;
            }
            let ghost qs = q.types@;
            proof {
                crate::parse::types::lemma_branches_view_len(qs);
            }
            let mut j: usize = 0;
            while j < q.types.len()
                invariant
                    *b == FormatBlock::Queries(*q),
                    qs == q.types@,
                    j <= qs.len(),
                    branches_view(qs).len() == qs.len(),
                    forall|k: int| 0 <= k < j ==> blocks_ready(spec.model(), #[trigger] branches_view(qs)[k].1),
                decreases q.types.len() - j,
            {
                proof {
                    assert((*b)->Queries_0 == *q);
                    assert(decreases_to!(*b => (*b)->Queries_0));
                    assert(decreases_to!(*q => q.types));
                    assert(decreases_to!(q.types => q.types@));
                    assert(decreases_to!(q.types@ => q.types@[j as int]));
                    assert(decreases_to!(q.types@[j as int] => q.types@[j as int].format));
                    crate::parse::types::lemma_branches_view_index(qs, j as int);
                }
                if !blocks_ready_exec(spec, &q.types[j].format) {
                    assert(!blocks_ready(spec.model(), branches_view(qs)[j as int].1));
                    assert(!branches_ready(spec.model(), branches_view(qs)));
                    return false;
                }
                j += 1;
            }
            true
        },
    }
}

fn blocks_ready_exec(spec: &ResolvedSpec, blocks: &Vec<FormatBlock>) -> (r: bool)
    ensures
        r == blocks_ready(spec.model(), blocks_view(blocks@)),
    decreases blocks,
{
    let ghost bs = blocks@;
    proof {
        crate::parse::types::lemma_blocks_view_len(bs);
    }
    let mut i: usize = 0;
    while i < blocks.len()
        invariant
            bs == blocks@,
            i <= bs.len(),
            blocks_view(bs).len() == bs.len(),
            forall|k: int| 0 <= k < i ==> block_ready(spec.model(), #[trigger] blocks_view(bs)[k]),
        decreases blocks.len() - i,
    {
        proof {
            assert(decreases_to!(blocks => blocks@));
            assert(decreases_to!(blocks@ => blocks@[i as int]));
            crate::parse::types::lemma_blocks_view_index(bs, i as int);
        }
        if !block_ready_exec(spec, &blocks[i]) {
            assert(!block_ready(spec.model(), blocks_view(bs)[i as int]));
            return false;
        }
        i += 1;
    }
    true
}

/// Whether the resolved format can be rendered as it stands: every value
/// variable declared (a string one with its charset and length), every
/// count and size resolving.
pub fn check_ready(spec: &ResolvedSpec) -> (r: bool)
    ensures
        r == blocks_ready(spec.model(), spec.model().format),
{
    blocks_ready_exec(spec, &spec.format)
}

// ─── the cases of one problem ───────────────────────────────────────────────

/// The outcome of generating the random-test cases of one problem.
#[derive(Debug)]
pub enum GenerateOutcome {
    /// `(name, input)` in output order, and the constraint lines that were
    /// passed over.
    Ready { cases: Vec<(String, String)>, skipped: Vec<String> },
    /// What the section lacks, or why generation stopped; the problem's
    /// random test is not run.
    Aborted { reasons: Vec<String> },
    Interrupted,
}

/// The message when the resolved format reads a size or variable that does
/// not resolve.
pub open spec fn not_ready_msg() -> Seq<char> {
    "random test format refers to a size or variable the section does not resolve"@
}

/// How many of the case kinds are plain random (`true`) or corners.
pub open spec fn kind_count(kinds: Seq<bool>, random: bool) -> nat
    decreases kinds.len(),
{
    if kinds.len() == 0 {
        0
    } else {
        kind_count(kinds.drop_last(), random) + if kinds.last() == random {
            1nat
        } else {
            0nat
        }
    }
}

/// The names of cases of these kinds, in order: `random{n}` for the `n`-th
/// plain random case, `corner{n}` for the `n`-th other one.
pub open spec fn case_names(kinds: Seq<bool>) -> Seq<Seq<char>>
    decreases kinds.len(),
{
    if kinds.len() == 0 {
        seq![]
    } else {
        case_names(kinds.drop_last()).push(
            if kinds.last() {
                "random"@ + crate::text::spec_nat_chars(kind_count(kinds, true))
            } else {
                "corner"@ + crate::text::spec_nat_chars(kind_count(kinds, false))
            },
        )
    }
}

pub open spec fn names_of(cases: Seq<(String, String)>) -> Seq<Seq<char>> {
    cases.map_values(|c: (String, String)| c.0@)
}

/// The message when the attempts to generate run out.
pub open spec fn exhausted_msg() -> Seq<char> {
    "random test cases could not be generated"@
}

/// No draw can keep cases from coming: the section resolves, its format
/// renders, it has no pairs to keep, and no draw can fail its values,
/// whatever the strategy and the sizes.
pub open spec fn draws_cannot_fail(m: crate::random_test::spec::ResolvedM) -> bool {
    &&& m.missing.len() == 0
    &&& blocks_ready(m, m.format)
    &&& m.ordering.len() == 0
    &&& m.not_equal.len() == 0
    &&& forall|st: crate::random_test::strategy::CaseStrategy, z: crate::random_test::gen::SizesM|
        #[trigger] crate::random_test::render::walk_sure(m, z, st, m.format)
}

/// What holds of a generation outcome for `section` and `count`, whatever
/// the random draws.
pub open spec fn outcome_ok(section: RandomTestSection, count: u32, r: GenerateOutcome) -> bool {
    let m = spec_resolve(section.model());
    &&& m.missing.len() > 0 ==> (r matches GenerateOutcome::Aborted { reasons } && sv(reasons@)
        == m.missing)
    &&& m.missing.len() == 0 && !blocks_ready(m, m.format) ==> (r matches GenerateOutcome::Aborted { reasons }
        && sv(reasons@) == seq![not_ready_msg()])
    &&& count == 0 && m.missing.len() == 0 && blocks_ready(m, m.format) ==> (r matches GenerateOutcome::Ready {
        cases,
        skipped,
    } && cases@.len() == 0)
    &&& r matches GenerateOutcome::Aborted { reasons } ==> {
        ||| m.missing.len() > 0 && sv(reasons@) == m.missing
        ||| m.missing.len() == 0 && !blocks_ready(m, m.format) && sv(reasons@) == seq![not_ready_msg()]
        ||| m.missing.len() == 0 && blocks_ready(m, m.format) && reasons@.len() == 1 && ({
            let why = reasons@[0]@;
            ||| why == exhausted_msg()
            ||| why == crate::random_test::render::retry_message()
            ||| crate::text::spec_starts_with(why, crate::random_test::budget::oversize_prefix())
        })
    }
    &&& r matches GenerateOutcome::Ready { cases, skipped } ==> {
        &&& blocks_ready(m, m.format)
        &&& exists|kinds: Seq<bool>| kinds.len() == count && #[trigger] case_names(kinds) == names_of(cases@)
        &&& m.missing.len() == 0
        &&& cases@.len() == count
        &&& sv(skipped@) == m.skipped
        &&& forall|i: int| 0 <= i < cases@.len() ==> {
            let input = (#[trigger] cases@[i]).1@;
            input.len() > 0 && input[input.len() - 1] == '\n'
        }
        // each input is one assignment whose values meet the constraints
        &&& forall|i: int| 0 <= i < cases@.len() ==> crate::random_test::render::case_ok(m, (#[trigger] cases@[i]).1@)
        // for a plain format, each input is the text of values that keep
        // every pair
        &&& crate::random_test::render::plain_format(m, m.format) ==> forall|i: int|
            0 <= i < cases@.len() ==> crate::random_test::render::plain_case(m, (#[trigger] cases@[i]).1@)
    }
    &&& draws_cannot_fail(m) ==> (r is Ready || r is Interrupted || (r matches GenerateOutcome::Aborted { reasons }
        && reasons@.len() == 1 && crate::text::spec_starts_with(reasons@[0]@, crate::random_test::budget::oversize_prefix())))
}

/// Resolve `section` and render `count` cases, pulling strategies from
/// the stream until that many have rendered: a corner that cannot be
/// satisfied just gives way to the next strategy. Cases are named
/// `corner{n}` / `random{n}` in order. What the section lacks aborts before
/// anything is generated; so does a format that cannot be rendered. An
/// abort from rendering (size ceiling, plain random out of retries) ends the
/// problem.
pub fn generate_cases_with_rng(
    section: &RandomTestSection,
    count: u32,
    rng: &mut rand::rngs::SmallRng,
    stop: &AtomicBool,
) -> (r: GenerateOutcome)
    ensures
        outcome_ok(*section, count, r),
{
    let spec = resolve(section);
    if spec.missing.len() > 0 {
        return GenerateOutcome::Aborted { reasons: clone_strings(&spec.missing) };
    }
    if !check_ready(&spec) {
        let mut reasons: Vec<String> = Vec::new();
        reasons.push("random test format refers to a size or variable the section does not resolve".to_string());
        assert(sv(reasons@) =~= seq![not_ready_msg()]);
        return GenerateOutcome::Aborted { reasons };
    }
    let mut stream = strategy_stream(&spec, count, rng);
    let mut corner: u32 = 0;
    let mut random: u32 = 0;
    let mut cases: Vec<(String, String)> = Vec::new();
    let mut attempts: u64 = 0;
    let ghost mut kinds: Seq<bool> = Seq::empty();
    assert(names_of(cases@) =~= case_names(kinds));
    while cases.len() < count as usize
        invariant
            kinds.len() == cases@.len(),
            corner == kind_count(kinds, false),
            random == kind_count(kinds, true),
            names_of(cases@) == case_names(kinds),
            spec.model() == spec_resolve(section.model()),
            spec.model().missing.len() == 0,
            blocks_ready(spec.model(), spec.model().format),
            corner as int + random as int == cases@.len(),
            cases@.len() <= count,
            forall|i: int| 0 <= i < cases@.len() ==> {
                let input = (#[trigger] cases@[i]).1@;
                input.len() > 0 && input[input.len() - 1] == '\n'
            },
            draws_cannot_fail(spec.model()) ==> attempts as int == cases@.len(),
            forall|i: int| 0 <= i < cases@.len() ==> crate::random_test::render::case_ok(spec.model(), (#[trigger] cases@[i]).1@),
            crate::random_test::render::plain_format(spec.model(), spec.model().format) ==> forall|i: int|
                0 <= i < cases@.len() ==> crate::random_test::render::plain_case(spec.model(), (#[trigger] cases@[i]).1@),
        decreases u64::MAX - attempts,
    {
        if attempts == u64::MAX {
            let mut reasons: Vec<String> = Vec::new();
            reasons.push("random test cases could not be generated".to_string());
            assert(reasons@[0]@ == exhausted_msg());
            return GenerateOutcome::Aborted { reasons };
        }
        attempts += 1;
        if signalled(stop) {
            return GenerateOutcome::Interrupted;
        }
        let st = stream.next(rng);
        proof {
            if draws_cannot_fail(spec.model()) {
                assert forall|z: crate::random_test::gen::SizesM| #[trigger] crate::random_test::render::walk_sure(
                    spec.model(),
                    z,
                    st,
                    spec.model().format,
                ) by {}
            }
        }
        match render_case(&spec, &st, rng, stop) {
            RenderResult::Ready(input) => {
                proof {
                    lemma_kind_count_le(kinds);
                }
                let name = case_name(&st, &mut corner, &mut random);
                let ghost old_cases = cases@;
                let ghost k2 = kinds.push(crate::random_test::strategy::is_plain_random(st));
                cases.push((name, input));
                proof {
                    assert forall|i: int| 0 <= i < cases@.len() implies crate::random_test::render::case_ok(spec.model(), (#[trigger] cases@[i]).1@) by {
                        if i < old_cases.len() {
                            assert(cases@[i] == old_cases[i]);
                        }
                    }
                    assert forall|i: int| 0 <= i < cases@.len() && crate::random_test::render::plain_format(spec.model(), spec.model().format)
                        implies crate::random_test::render::plain_case(spec.model(), (#[trigger] cases@[i]).1@) by {
                        if i < old_cases.len() {
                            assert(cases@[i] == old_cases[i]);
                        }
                    }
                    assert(k2.drop_last() =~= kinds);
                    assert(names_of(cases@) =~= names_of(old_cases).push(name@));
                    kinds = k2;
                }
            },
            RenderResult::Unsatisfied => {},
            RenderResult::Abort(reason) => {
                let mut reasons: Vec<String> = Vec::new();
                reasons.push(reason);
                return GenerateOutcome::Aborted { reasons };
            },
            RenderResult::Interrupted => return GenerateOutcome::Interrupted,
        }
    }
    GenerateOutcome::Ready { cases, skipped: clone_strings(&spec.skipped) }
}

proof fn lemma_kind_count_le(kinds: Seq<bool>)
    ensures
        kind_count(kinds, true) + kind_count(kinds, false) == kinds.len(),
    decreases kinds.len(),
{
    if kinds.len() > 0 {
        lemma_kind_count_le(kinds.drop_last());
    }
}

/// `generate_cases_with_rng` on a generator seeded from the system's
/// entropy; `None` where the test suite has no `random_test:` section.
pub fn generate_cases(section: Option<&RandomTestSection>, count: u32, stop: &AtomicBool) -> (r: Option<
    GenerateOutcome,
>)
    ensures
        match section {
            None => r is None,
            Some(s) => r matches Some(o) && outcome_ok(*s, count, o),
        },
{
    match section {
        None => None,
        Some(s) => {
            let mut rng = crate::random_test::rng::fresh_rng();
            Some(generate_cases_with_rng(s, count, &mut rng, stop))
        },
    }
}

} // verus!
