//! The decisions of the random-test and cross-check runs: which generated
//! cases are judged, what is reported about them, and when a run fails.
//! Spawning the binaries and judging their output is the caller's.

use vstd::prelude::*;
use crate::random_test::cases::GenerateOutcome;
use crate::template::{join_exec, join_with};
use crate::text::{concat_str, nat_chars, spec_nat_chars, string_of, sv};

verus! {

/// The note printed under the results of random and cross-check tests.
pub const DISPLAY_LIMIT_NOTE: &'static str = "output beyond --display-limit (default: 4KiB; e.g. 152834 B) is truncated; change the limit with --display-limit";

/// The note printed when a random test was accepted.
pub const ACCEPTED_NOTE: &'static str = "Accepted means no crash or TLE; output correctness is not verified";

/// The warning when the cross binary failed on every case.
pub const ALL_CROSS_SKIPPED: &'static str = "all cross-check cases skipped (cross binary RE/TLE on every input)";

/// Generated cases, ready to judge or not.
#[derive(Debug)]
pub enum LoadedCases {
    /// Nothing to judge; the warnings say why.
    Skip { warnings: Vec<String> },
    /// SIGINT arrived while generating.
    Interrupted,
    /// `(name, input)` to judge, and the constraints that were passed over.
    Ready { cases: Vec<(String, String)>, skipped: Vec<String> },
}

/// What a run does with the outcome of generation: no `random_test:`
/// section skips quietly, an abort skips with its reasons, no case skips
/// with `empty_warning`.
pub fn load_generated_cases(outcome: Option<GenerateOutcome>, empty_warning: &str) -> (r: LoadedCases)
    ensures
        match outcome {
            None => r matches LoadedCases::Skip { warnings } && warnings@.len() == 0,
            Some(GenerateOutcome::Aborted { reasons }) => r matches LoadedCases::Skip { warnings } && warnings@
                == reasons@,
            Some(GenerateOutcome::Interrupted) => r is Interrupted,
            Some(GenerateOutcome::Ready { cases, skipped }) => if cases@.len() == 0 {
                r matches LoadedCases::Skip { warnings } && sv(warnings@) == seq![empty_warning@]
            } else {
                r == LoadedCases::Ready { cases, skipped }
            },
        },
{
    match outcome {
        None => LoadedCases::Skip { warnings: Vec::new() },
        Some(GenerateOutcome::Aborted { reasons }) => LoadedCases::Skip { warnings: reasons },
        Some(GenerateOutcome::Interrupted) => LoadedCases::Interrupted,
        Some(GenerateOutcome::Ready { cases, skipped }) => {
            if cases.len() == 0 {
                let mut warnings: Vec<String> = Vec::new();
                warnings.push(empty_warning.to_string());
                assert(sv(warnings@) =~= seq![empty_warning@]);
                LoadedCases::Skip { warnings }
            } else {
                LoadedCases::Ready { cases, skipped }
            }
        },
    }
}

pub open spec fn msg_skipped(skipped: Seq<Seq<char>>) -> Seq<char> {
    "skipped "@ + spec_nat_chars(skipped.len()) + " unsupported constraint(s): "@ + join_with(skipped, "; "@)
}

/// The warning about constraints generation passed over, if any.
pub fn skipped_constraints_message(skipped: &Vec<String>) -> (r: Option<String>)
    ensures
        match r {
            None => skipped@.len() == 0,
            Some(m) => skipped@.len() > 0 && m@ == msg_skipped(sv(skipped@)),
        },
{
    if skipped.len() == 0 {
        return None;
    }
    let n = string_of(&nat_chars(skipped.len() as u128));
    let a = concat_str("skipped ", n.as_str());
    let b = concat_str(a.as_str(), " unsupported constraint(s): ");
    let m = concat_str(b.as_str(), string_of(&join_exec(skipped, "; ")).as_str());
    Some(m)
}

/// How many verdicts were not accepted.
pub open spec fn failures(accepted: Seq<bool>) -> nat
    decreases accepted.len(),
{
    if accepted.len() == 0 {
        0
    } else {
        failures(accepted.drop_last()) + if accepted.last() {
            0nat
        } else {
            1nat
        }
    }
}

proof fn lemma_failures_le(accepted: Seq<bool>)
    ensures
        failures(accepted) <= accepted.len(),
    decreases accepted.len(),
{
    if accepted.len() > 0 {
        lemma_failures_le(accepted.drop_last());
    }
}

/// Counts the verdicts that were not accepted.
pub fn count_failures(accepted: &Vec<bool>) -> (r: usize)
    ensures
        r == failures(accepted@),
{
    let mut n: usize = 0;
    let mut i: usize = 0;
    while i < accepted.len()
        invariant
            i <= accepted@.len(),
            n == failures(accepted@.take(i as int)),
        decreases accepted.len() - i,
    {
        assert(accepted@.take(i + 1).drop_last() =~= accepted@.take(i as int));
        proof {
            lemma_failures_le(accepted@.take(i as int));
        }
        if !accepted[i] {
            n = n + 1;
        }
        i += 1;
    }
    assert(accepted@.take(accepted@.len() as int) =~= accepted@);
    n
}

pub open spec fn msg_failed(failed: nat, total: nat, what: Seq<char>) -> Seq<char> {
    spec_nat_chars(failed) + "/"@ + spec_nat_chars(total) + what
}

fn failed_message(failed: usize, total: usize, what: &str) -> (r: String)
    ensures
        r@ == msg_failed(failed as nat, total as nat, what@),
{
    let a = concat_str(string_of(&nat_chars(failed as u128)).as_str(), "/");
    let b = concat_str(a.as_str(), string_of(&nat_chars(total as u128)).as_str());
    concat_str(b.as_str(), what)
}

/// The end of a random-test run: whether to add the note on accepted
/// cases, and the error when a case was not accepted.
pub fn random_tests_summary(accepted: &Vec<bool>) -> (r: (bool, Option<String>))
    ensures
        r.0 == (failures(accepted@) < accepted@.len()),
        match r.1 {
            None => failures(accepted@) == 0,
            Some(e) => failures(accepted@) > 0 && e@ == msg_failed(
                failures(accepted@),
                accepted@.len(),
                " tests failed"@,
            ),
        },
{
    let f = count_failures(accepted);
    let has_accepted = f < accepted.len();
    if f > 0 {
        (has_accepted, Some(failed_message(f, accepted.len(), " tests failed")))
    } else {
        (has_accepted, None)
    }
}

/// The error of a cross-check run, when a case was not accepted.
pub fn cross_check_summary(accepted: &Vec<bool>) -> (r: Option<String>)
    ensures
        match r {
            None => failures(accepted@) == 0,
            Some(e) => failures(accepted@) > 0 && e@ == msg_failed(
                failures(accepted@),
                accepted@.len(),
                " cross-check tests failed"@,
            ),
        },
{
    let f = count_failures(accepted);
    if f > 0 {
        Some(failed_message(f, accepted.len(), " cross-check tests failed"))
    } else {
        None
    }
}

/// How a binary ended on one input.
#[derive(Debug, Clone, PartialEq, Eq)]
pub enum RunResult {
    /// Exited successfully with this standard output.
    Success(String),
    /// Exited with a failure, with this code (`-1`: killed by a signal).
    RuntimeError(i32),
    TimeLimitExceeded,
}

/// What the cross binary's run on a case means: its output is the expected
/// output, or the case is skipped with a warning.
pub fn adopt_cross_output(name: &str, result: RunResult) -> (r: Result<String, String>)
    ensures
        match result {
            RunResult::Success(out) => r == Ok::<String, String>(out),
            RunResult::RuntimeError(code) => r matches Err(w) && w@ == "cross binary RE (exit "@
                + crate::text::spec_int_chars(code as int) + ") on case "@ + name@ + ", skipping"@,
            RunResult::TimeLimitExceeded => r matches Err(w) && w@ == "cross binary TLE on case "@ + name@
                + ", skipping"@,
        },
{
    match result {
        RunResult::Success(out) => Ok(out),
        RunResult::RuntimeError(code) => {
            let a = concat_str("cross binary RE (exit ", string_of(&crate::text::int_chars(code as i128)).as_str());
            let b = concat_str(a.as_str(), ") on case ");
            let c = concat_str(b.as_str(), name);
            Err(concat_str(c.as_str(), ", skipping"))
        },
        RunResult::TimeLimitExceeded => {
            let a = concat_str("cross binary TLE on case ", name);
            Err(concat_str(a.as_str(), ", skipping"))
        },
    }
}

/// The width of a section banner.
pub const BANNER_WIDTH: usize = 42;

/// `title` centred in the banner's width, the extra space on the right.
pub open spec fn centred(title: Seq<char>) -> Seq<char> {
    if title.len() >= BANNER_WIDTH {
        title
    } else {
        let pad = (BANNER_WIDTH - title.len()) as nat;
        let left = pad / 2;
        Seq::new(left, |i: int| ' ') + title + Seq::new((pad - left) as nat, |i: int| ' ')
    }
}

fn spaces(n: usize) -> (r: Vec<char>)
    ensures
        r@ == Seq::new(n as nat, |i: int| ' '),
{
    let mut v: Vec<char> = Vec::new();
    let mut i: usize = 0;
    while i < n
        invariant
            i <= n,
            v@ == Seq::new(i as nat, |k: int| ' '),
        decreases n - i,
    {
        v.push(' ');
        i += 1;
        assert(v@ =~= Seq::new(i as nat, |k: int| ' '));
    }
    v
}

/// The lines of the banner that opens a section of the report: an empty
/// line, a rule, the centred title, a rule.
pub fn section_banner(title: &str) -> (r: Vec<String>)
    ensures
        sv(r@) == seq![Seq::<char>::empty(), rule(), centred(title@), rule()],
{
    let t = crate::text::chars_of(title);
    let line = if t.len() >= BANNER_WIDTH {
        t
    } else {
        let pad = BANNER_WIDTH - t.len();
        let left = pad / 2;
        let mut v = spaces(left);
        crate::text::append_chars(&mut v, &t);
        crate::text::append_chars(&mut v, &spaces(pad - left));
        v
    };
    let mut out: Vec<String> = Vec::new();
    out.push(String::new());
    out.push(rule_line());
    out.push(string_of(&line));
    out.push(rule_line());
    assert(sv(out@) =~= seq![Seq::<char>::empty(), rule(), centred(title@), rule()]);
    out
}

/// A rule of the banner's width.
pub open spec fn rule() -> Seq<char> {
    Seq::new(BANNER_WIDTH as nat, |i: int| '═')
}

fn rule_line() -> (r: String)
    ensures
        r@ == rule(),
{
    let mut v: Vec<char> = Vec::new();
    let mut i: usize = 0;
    while i < BANNER_WIDTH
        invariant
            i <= BANNER_WIDTH,
            v@ == Seq::new(i as nat, |k: int| '═'),
        decreases BANNER_WIDTH - i,
    {
        v.push('═');
        i += 1;
        assert(v@ =~= Seq::new(i as nat, |k: int| '═'));
    }
    string_of(&v)
}

} // verus!
