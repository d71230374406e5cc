//! The decisions of `cargo compete test` around building and judging: the
//! `cargo build` command line, where the artifact lands, and which runs
//! follow the sample tests. Building, judging and printing are the
//! caller's.

use vstd::prelude::*;
use crate::maps::{lemma_m_insert_get, lemma_sorted_get_at, m_get, m_has, m_insert, m_sorted, seq_lt, StrMap};
use crate::text::sv;

verus! {

/// The arguments of the build: through `rustup run <toolchain> cargo` when
/// a toolchain is configured, else to cargo itself.
pub open spec fn spec_build_args(
    toolchain: Option<Seq<char>>,
    example: bool,
    bin_name: Seq<char>,
    release: bool,
    manifest_path: Seq<char>,
) -> Seq<Seq<char>> {
    let prefix = match toolchain {
        Some(t) => seq!["run"@, t, "cargo"@],
        None => Seq::empty(),
    };
    let kind = if example {
        "--example"@
    } else {
        "--bin"@
    };
    let profile = if release {
        seq!["--release"@]
    } else {
        Seq::empty()
    };
    prefix + seq!["build"@, kind, bin_name] + profile + seq!["--manifest-path"@, manifest_path]
}

/// The command line of `cargo build` for the target (`example`: an example
/// target, else a bin).
pub fn build_args(
    toolchain: Option<&str>,
    example: bool,
    bin_name: &str,
    release: bool,
    manifest_path: &str,
) -> (r: Vec<String>)
    ensures
        sv(r@) == spec_build_args(
            match toolchain {
                Some(t) => Some(t@),
                None => None,
            },
            example,
            bin_name@,
            release,
            manifest_path@,
        ),
{
    let mut out: Vec<String> = Vec::new();
    match toolchain {
        Some(t) => {
            out.push("run".to_string());
            out.push(t.to_string());
            out.push("cargo".to_string());
        },
        None => {},
    }
    out.push("build".to_string());
    out.push(
        if example {
            "--example".to_string()
        } else {
            "--bin".to_string()
        },
    );
    out.push(bin_name.to_string());
    if release {
        out.push("--release".to_string());
    }
    out.push("--manifest-path".to_string());
    out.push(manifest_path.to_string());
    let ghost t = match toolchain {
        Some(t) => Some(t@),
        None => None,
    };
    assert(sv(out@) =~= spec_build_args(t, example, bin_name@, release, manifest_path@));
    out
}

/// The artifact under the target directory: the profile's directory, then
/// `examples` for an example, then the target's name (the platform's
/// executable extension is added by the caller).
pub open spec fn spec_artifact_components(release: bool, example: bool, bin_name: Seq<char>) -> Seq<Seq<char>> {
    let profile = if release {
        "release"@
    } else {
        "debug"@
    };
    if example {
        seq![profile, "examples"@, bin_name]
    } else {
        seq![profile, bin_name]
    }
}

pub fn artifact_components(release: bool, example: bool, bin_name: &str) -> (r: Vec<String>)
    ensures
        sv(r@) == spec_artifact_components(release, example, bin_name@),
{
    let mut out: Vec<String> = Vec::new();
    out.push(
        if release {
            "release".to_string()
        } else {
            "debug".to_string()
        },
    );
    if example {
        out.push("examples".to_string());
    }
    out.push(bin_name.to_string());
    assert(sv(out@) =~= spec_artifact_components(release, example, bin_name@));
    out
}

/// A run that follows the sample tests.
#[derive(Clone, Copy, Debug, PartialEq, Eq, Structural)]
pub enum TestStep {
    /// Random tests of the target, this many cases.
    RandomTests { count: u32 },
    /// Random tests were asked for a problem that is not AtCoder's.
    WarnRandomAtCoderOnly,
    /// The sample tests, on the cross binary, without a time limit.
    CrossSampleTests,
    /// The cross-check, this many cases.
    CrossCheck { count: u32 },
}

/// The runs after the sample tests, in order; none unless the samples
/// passed (or were skipped). `cross_count` is set when a cross binary was
/// built.
pub open spec fn spec_steps_after_samples(
    samples_passed: bool,
    random_count: Option<u32>,
    is_atcoder: bool,
    cross_count: Option<u32>,
    no_sample: bool,
) -> Seq<TestStep> {
    if !samples_passed {
        Seq::empty()
    } else {
        let random = match random_count {
            None => Seq::empty(),
            Some(n) => if is_atcoder {
                seq![TestStep::RandomTests { count: n }]
            } else {
                seq![TestStep::WarnRandomAtCoderOnly]
            },
        };
        let cross = match cross_count {
            None => Seq::empty(),
            Some(n) => if no_sample {
                seq![TestStep::CrossCheck { count: n }]
            } else {
                seq![TestStep::CrossSampleTests, TestStep::CrossCheck { count: n }]
            },
        };
        random + cross
    }
}

/// Once the samples passed and a cross binary was built, the cross-check
/// of `n` cases comes last, and right before it the cross binary's sample
/// run, exactly when the samples were not skipped; the random-test step,
/// when asked for, comes first.
pub proof fn law_cross_steps(random_count: Option<u32>, is_atcoder: bool, n: u32, no_sample: bool)
    ensures
        ({
            let s = spec_steps_after_samples(true, random_count, is_atcoder, Some(n), no_sample);
            let r = if random_count is Some { 1int } else { 0int };
            &&& s.len() == r + if no_sample { 1int } else { 2int }
            &&& s.last() == TestStep::CrossCheck { count: n }
            &&& s.contains(TestStep::CrossSampleTests) <==> !no_sample
            &&& !no_sample ==> s[s.len() - 2] == TestStep::CrossSampleTests
            &&& forall|i: int| 0 <= i < s.len() - 1 ==> !(#[trigger] s[i] is CrossCheck)
            &&& random_count matches Some(c) ==> s[0] == if is_atcoder {
                TestStep::RandomTests { count: c }
            } else {
                TestStep::WarnRandomAtCoderOnly
            }
        }),
{
    let s = spec_steps_after_samples(true, random_count, is_atcoder, Some(n), no_sample);
    if !no_sample {
        assert(s[s.len() - 2] == TestStep::CrossSampleTests);
    } else {
        assert forall|i: int| 0 <= i < s.len() implies s[i] != TestStep::CrossSampleTests by {}
    }
}

/// Without passing samples nothing follows them.
pub proof fn law_no_steps_after_failed_samples(
    random_count: Option<u32>,
    is_atcoder: bool,
    cross_count: Option<u32>,
    no_sample: bool,
)
    ensures
        spec_steps_after_samples(false, random_count, is_atcoder, cross_count, no_sample).len() == 0,
{
}

/// The runs after the sample tests; the caller stops at the first that
/// fails, and the command's result is the samples' result.
pub fn steps_after_samples(
    samples_passed: bool,
    random_count: Option<u32>,
    is_atcoder: bool,
    cross_count: Option<u32>,
    no_sample: bool,
) -> (r: Vec<TestStep>)
    ensures
        r@ == spec_steps_after_samples(samples_passed, random_count, is_atcoder, cross_count, no_sample),
{
    let mut out: Vec<TestStep> = Vec::new();
    if !samples_passed {
        return out;
    }
    match random_count {
        None => {},
        Some(n) => {
            if is_atcoder {
                out.push(TestStep::RandomTests { count: n });
            } else {
                out.push(TestStep::WarnRandomAtCoderOnly);
            }
        },
    }
    match cross_count {
        None => {},
        Some(n) => {
            if !no_sample {
                out.push(TestStep::CrossSampleTests);
            }
            out.push(TestStep::CrossCheck { count: n });
        },
    }
    assert(out@ =~= spec_steps_after_samples(samples_passed, random_count, is_atcoder, cross_count, no_sample));
    out
}


// ─── system test cases ──────────────────────────────────────────────────────

/// The name of a test file `<name>.txt`: the file name without its final
/// `.txt`, when something comes before that dot (as a path's extension is
/// read: a file name starting with its only dot has none).
pub open spec fn spec_txt_stem(file_name: Seq<char>) -> Option<Seq<char>> {
    if file_name.len() >= 5 && crate::text::spec_ends_with(file_name, ".txt"@) {
        Some(file_name.take(file_name.len() - 4))
    } else {
        None
    }
}

/// See `spec_txt_stem`.
pub fn txt_stem(file_name: &str) -> (r: Option<String>)
    ensures
        crate::regex_ops::opt_view(r) == spec_txt_stem(file_name@),
{
    let c = crate::text::chars_of(file_name);
    let n = c.len();
    proof {
        reveal_strlit(".txt");
    }
    if n >= 5 && c[n - 4] == '.' && c[n - 3] == 't' && c[n - 2] == 'x' && c[n - 1] == 't' {
        assert(c@.skip(n - 4) =~= ".txt"@);
        let mut out: Vec<char> = Vec::new();
        let mut i: usize = 0;
        while i < n - 4
            invariant
                n == c@.len(),
                n >= 5,
                i <= n - 4,
                out@ == c@.take(i as int),
            decreases n - 4 - i,
        {
            out.push(c[i]);
            assert(c@.take(i + 1) =~= c@.take(i as int).push(c@[i as int]));
            i += 1;
        }
        Some(crate::text::string_of(&out))
    } else {
        proof {
            if crate::text::spec_ends_with(file_name@, ".txt"@) && n >= 5 {
                assert(c@.skip(n - 4)[0] == c@[n - 4]);
                assert(c@.skip(n - 4)[1] == c@[n - 3]);
                assert(c@.skip(n - 4)[2] == c@[n - 2]);
                assert(c@.skip(n - 4)[3] == c@[n - 1]);
            }
        }
        None
    }
}

/// The content of the last of `files` (file name, content) whose test
/// name is `name`.
pub open spec fn last_named(files: Seq<(Seq<char>, Seq<char>)>, name: Seq<char>) -> Option<Seq<char>>
    decreases files.len(),
{
    if files.len() == 0 {
        None
    } else if spec_txt_stem(files.last().0) == Some(name) {
        Some(files.last().1)
    } else {
        last_named(files.drop_last(), name)
    }
}

pub open spec fn file_pairs(v: Seq<(String, String)>) -> Seq<(Seq<char>, Seq<char>)> {
    v.map_values(|p: (String, String)| (p.0@, p.1@))
}

/// A system test case: its name, input and, when there is one, expected
/// output.
#[derive(Debug, PartialEq, Eq)]
pub struct SystemTestCase {
    pub name: String,
    pub input: String,
    pub output: Option<String>,
}

/// The system test cases from the files of the `in` and `out` directories
/// (file name, content): `.txt` files only, paired by name, one case for
/// each input (with the output of that name when there is one), in
/// ascending name order.
pub fn pair_system_test_cases(ins: &Vec<(String, String)>, outs: &Vec<(String, String)>) -> (r: Vec<SystemTestCase>)
    ensures
        forall|i: int, j: int| 0 <= i < j < r@.len() ==> seq_lt(#[trigger] r@[i].name@, #[trigger] r@[j].name@),
        forall|k: Seq<char>|
            #![trigger last_named(file_pairs(ins@), k)]
            last_named(file_pairs(ins@), k) is Some <==> exists|i: int| 0 <= i < r@.len() && (#[trigger] r@[i]).name@ == k,
        forall|i: int|
            0 <= i < r@.len() ==> {
                &&& last_named(file_pairs(ins@), (#[trigger] r@[i]).name@) == Some(r@[i].input@)
                &&& last_named(file_pairs(outs@), r@[i].name@) == crate::regex_ops::opt_view(r@[i].output)
            },
{
    let ghost fi = file_pairs(ins@);
    let ghost fo = file_pairs(outs@);
    let mut table: StrMap<(Option<String>, Option<String>)> = StrMap::new();
    let mut i: usize = 0;
    while i < ins.len()
        invariant
            fi == file_pairs(ins@),
            i <= ins@.len(),
            forall|k: Seq<char>|
                #[trigger] m_get(table.model(), k) == match last_named(fi.take(i as int), k) {
                    Some(c) => Some((Some(c), None::<Seq<char>>)),
                    None => None,
                },
        decreases ins.len() - i,
    {
        assert(fi.take(i + 1).drop_last() =~= fi.take(i as int));
        assert(fi.take(i + 1).last() == (ins@[i as int].0@, ins@[i as int].1@));
        match txt_stem(ins[i].0.as_str()) {
            Some(stem) => {
                let ghost t0 = table.model();
                let ghost v = (Some(ins@[i as int].1@), None::<Seq<char>>);
                table.insert(stem, (Some(ins[i].1.clone()), None));
                assert forall|k: Seq<char>| #[trigger] m_get(table.model(), k) == match last_named(fi.take(i + 1), k) {
                    Some(c) => Some((Some(c), None::<Seq<char>>)),
                    None => None,
                } by {
                    lemma_m_insert_get(t0, stem@, v, k);
                }
            },
            None => {},
        }
        i += 1;
    }
    assert(fi.take(ins@.len() as int) =~= fi);
    let mut j: usize = 0;
    while j < outs.len()
        invariant
            fi == file_pairs(ins@),
            fo == file_pairs(outs@),
            j <= outs@.len(),
            forall|k: Seq<char>|
                #[trigger] m_get(table.model(), k) == match (last_named(fi, k), last_named(fo.take(j as int), k)) {
                    (None, None) => None,
                    (a, b) => Some((a, b)),
                },
        decreases outs.len() - j,
    {
        assert(fo.take(j + 1).drop_last() =~= fo.take(j as int));
        assert(fo.take(j + 1).last() == (outs@[j as int].0@, outs@[j as int].1@));
        match txt_stem(outs[j].0.as_str()) {
            Some(stem) => {
                let before: Option<String> = match table.get(stem.as_str()) {
                    Some(e) => match &e.0 {
                        Some(x) => Some(x.clone()),
                        None => None,
                    },
                    None => None,
                };
                let ghost t0 = table.model();
                let ghost bv = crate::regex_ops::opt_view(before);
                assert(bv == last_named(fi, stem@));
                let ghost v = (bv, Some(outs@[j as int].1@));
                let out_text = outs[j].1.clone();
                let ghost ov = Some(out_text@);
                assert(v == (crate::regex_ops::opt_view(before), ov));
                table.insert(stem, (before, Some(out_text)));
                assert forall|k: Seq<char>| #[trigger] m_get(table.model(), k) == match (
                    last_named(fi, k),
                    last_named(fo.take(j + 1), k),
                ) {
                    (None, None) => None,
                    (a, b) => Some((a, b)),
                } by {
                    lemma_m_insert_get(t0, stem@, v, k);
                }
            },
            None => {},
        }
        j += 1;
    }
    assert(fo.take(outs@.len() as int) =~= fo);
    let es = table.into_entries();
    let ghost t = es.deep_view();
    let mut out: Vec<SystemTestCase> = Vec::new();
    let ghost mut idx: Seq<int> = Seq::empty();
    let mut p: usize = 0;
    while p < es.len()
        invariant
            t == es.deep_view(),
            m_sorted(t),
            p <= es@.len(),
            forall|k: Seq<char>|
                #[trigger] m_get(t, k) == match (last_named(fi, k), last_named(fo, k)) {
                    (None, None) => None,
                    (a, b) => Some((a, b)),
                },
            idx.len() == out@.len(),
            forall|q: int| 0 <= q < idx.len() ==> 0 <= #[trigger] idx[q] < p && out@[q].name@ == t[idx[q]].0,
            forall|a: int, b: int| 0 <= a < b < idx.len() ==> #[trigger] idx[a] < #[trigger] idx[b],
            forall|q: int|
                0 <= q < out@.len() ==> {
                    &&& last_named(fi, (#[trigger] out@[q]).name@) == Some(out@[q].input@)
                    &&& last_named(fo, out@[q].name@) == crate::regex_ops::opt_view(out@[q].output)
                },
            forall|e: int| 0 <= e < p && (#[trigger] t[e]).1.0 is Some ==> exists|q: int| 0 <= q < out@.len() && out@[q].name@ == t[e].0,
        decreases es.len() - p,
    {
        proof {
            lemma_sorted_get_at(t, p as int);
        }
        assert(t[p as int].0 == es@[p as int].0@);
        assert(t[p as int].1.0 == crate::regex_ops::opt_view(es@[p as int].1.0));
        assert(t[p as int].1.1 == crate::regex_ops::opt_view(es@[p as int].1.1));
        match &es[p].1.0 {
            Some(input) => {
                let output: Option<String> = match &es[p].1.1 {
                    Some(o) => Some(o.clone()),
                    None => None,
                };
                let case = SystemTestCase { name: es[p].0.clone(), input: input.clone(), output };
                let ghost o0 = out@;
                out.push(case);
                proof {
                    idx = idx.push(p as int);
                    assert forall|e: int| 0 <= e < p + 1 && (#[trigger] t[e]).1.0 is Some implies exists|q: int|
                        0 <= q < out@.len() && out@[q].name@ == t[e].0 by {
                        if e == p {
                            assert(out@[o0.len() as int].name@ == t[e].0);
                        } else {
                            let q = choose|q: int| 0 <= q < o0.len() && o0[q].name@ == t[e].0;
                            assert(out@[q] == o0[q]);
                        }
                    }
                }
            },
            None => {},
        }
        p += 1;
    }
    proof {
        assert forall|a: int, b: int| 0 <= a < b < out@.len() implies seq_lt(#[trigger] out@[a].name@, #[trigger] out@[b].name@) by {
            assert(idx[a] < idx[b]);
        }
        assert forall|k: Seq<char>| #[trigger] last_named(fi, k) is Some implies exists|i: int|
            0 <= i < out@.len() && (#[trigger] out@[i]).name@ == k by {
            assert(m_has(t, k));
            let e = crate::random_test::context::lemma_has_index(t, k);
            assert(t[e].1.0 is Some);
        }
        assert forall|k: Seq<char>| (exists|i: int| 0 <= i < out@.len() && (#[trigger] out@[i]).name@ == k) implies #[trigger] last_named(fi, k) is Some by {
            let i = choose|i: int| 0 <= i < out@.len() && (#[trigger] out@[i]).name@ == k;
            assert(last_named(fi, out@[i].name@) == Some(out@[i].input@));
        }
    }
    out
}

} // verus!
