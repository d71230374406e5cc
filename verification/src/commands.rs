//! Decisions of the `test`, `submit` and `dup` commands that do not touch
//! the file system: option validation, `--cross` arguments, and the name of
//! a cross-check companion.

use vstd::prelude::*;
use crate::project::{
    first_bin_at, first_bin_like, lookup_or_cross, msg_no_bin_at, msg_no_bin_like, Package,
    PackageMetadataCargoCompete, PackageMetadataCargoCompeteBinExample, Target, CROSS_SUFFIX,
};
use crate::text::{
    chars_of, contains_char, ends_with_str, spec_ends_with, str_eq, string_of,
};

verus! {

/// Why a combination of generated-check options is refused.
#[derive(Clone, Copy, Debug, PartialEq, Eq, Structural)]
pub enum CheckOptionError {
    /// `--random` together with `--no-test`.
    RandomWithNoTest,
    /// `--cross` together with `--no-test`.
    CrossWithNoTest,
    /// `--no-sample` with neither `--random` nor `--cross`.
    NoSampleWithoutGenerated,
}

impl CheckOptionError {
    pub open spec fn spec_message(&self) -> Seq<char> {
        match self {
            CheckOptionError::RandomWithNoTest => "`--random` and `--no-test` cannot be used together"@,
            CheckOptionError::CrossWithNoTest => "`--cross` and `--no-test` cannot be used together"@,
            CheckOptionError::NoSampleWithoutGenerated => "`--no-sample` requires `--random` or `--cross`"@,
        }
    }

    pub fn message(&self) -> (r: String)
        ensures
            r@ == self.spec_message(),
    {
        match self {
            CheckOptionError::RandomWithNoTest => "`--random` and `--no-test` cannot be used together".to_string(),
            CheckOptionError::CrossWithNoTest => "`--cross` and `--no-test` cannot be used together".to_string(),
            CheckOptionError::NoSampleWithoutGenerated => "`--no-sample` requires `--random` or `--cross`".to_string(),
        }
    }
}

/// Options shared by `test` and `submit` for generated checks, in the order
/// the conflicts are reported.
pub fn validate_generated_check_options(
    no_test: bool,
    no_sample: bool,
    has_random: bool,
    has_cross: bool,
) -> (r: Result<(), CheckOptionError>)
    ensures
        no_test && has_random ==> r == Err::<(), CheckOptionError>(CheckOptionError::RandomWithNoTest),
        no_test && !has_random && has_cross ==> r == Err::<(), CheckOptionError>(
            CheckOptionError::CrossWithNoTest,
        ),
        !(no_test && (has_random || has_cross)) && no_sample && !has_random && !has_cross ==> r
            == Err::<(), CheckOptionError>(CheckOptionError::NoSampleWithoutGenerated),
        r is Ok <==> !(no_test && (has_random || has_cross)) && !(no_sample && !has_random
            && !has_cross),
{
    if no_test && has_random {
        return Err(CheckOptionError::RandomWithNoTest);
    }
    if no_test && has_cross {
        return Err(CheckOptionError::CrossWithNoTest);
    }
    if no_sample && !has_random && !has_cross {
        return Err(CheckOptionError::NoSampleWithoutGenerated);
    }
    Ok(())
}

// ─── `--cross` ──────────────────────────────────────────────────────────────

/// Cross-check cases run when `--cross` gives no count.
pub const DEFAULT_CROSS_COUNT: u32 = 100;

/// Why `--cross` values are refused.
#[derive(Clone, Debug, PartialEq, Eq)]
pub enum CrossArgError {
    /// A path where a target name belongs.
    PathGiven(String),
    /// A case count that is not a `u32`.
    InvalidCount(String),
}

pub open spec fn msg_path_given(v: Seq<char>) -> Seq<char> {
    "`--cross` takes a target name, not a path: `"@ + v
        + "`\nnote: a target name is the file stem of a `src/bin/*.rs`, e.g. `e_cross` for `src/bin/e_cross.rs`"@
}

pub open spec fn msg_invalid_count(v: Seq<char>) -> Seq<char> {
    "invalid case count for `--cross`: `"@ + v + "`"@
}

impl CrossArgError {
    pub open spec fn spec_message(&self) -> Seq<char> {
        match self {
            CrossArgError::PathGiven(v) => msg_path_given(v@),
            CrossArgError::InvalidCount(v) => msg_invalid_count(v@),
        }
    }

    pub fn message(&self) -> (r: String)
        ensures
            r@ == self.spec_message(),
    {
        match self {
            CrossArgError::PathGiven(v) => {
                let s = crate::text::concat_str("`--cross` takes a target name, not a path: `", v.as_str());
                crate::text::concat_str(s.as_str(), "`\nnote: a target name is the file stem of a `src/bin/*.rs`, e.g. `e_cross` for `src/bin/e_cross.rs`")
            },
            CrossArgError::InvalidCount(v) => {
                let s = crate::text::concat_str("invalid case count for `--cross`: `", v.as_str());
                crate::text::concat_str(s.as_str(), "`")
            },
        }
    }
}

pub open spec fn looks_like_path(v: Seq<char>) -> bool {
    spec_ends_with(v, ".rs"@) || v.contains('/') || v.contains('\\')
}

/// `--cross` names a target, not a source file: a value ending in `.rs` or
/// holding a path separator is refused.
pub fn cross_target_name(value: &str) -> (r: Result<&str, CrossArgError>)
    ensures
        match r {
            Ok(s) => !looks_like_path(value@) && s@ == value@,
            Err(e) => looks_like_path(value@) && (e matches CrossArgError::PathGiven(p) && p@ == value@),
        },
{
    let c = chars_of(value);
    if ends_with_str(&c, ".rs") || contains_char(&c, '/') || contains_char(&c, '\\') {
        return Err(CrossArgError::PathGiven(value.to_string()));
    }
    Ok(value)
}

pub open spec fn all_ascii_digits(s: Seq<char>) -> bool {
    forall|i: int| 0 <= i < s.len() ==> crate::text::spec_is_ascii_digit(#[trigger] s[i])
}

fn case_count(s: &str) -> (r: Result<u32, CrossArgError>)
    ensures
        match r {
            Ok(n) => crate::text::spec_parse_u32(s@) == Some(n),
            Err(e) => crate::text::spec_parse_u32(s@) is None && (e matches CrossArgError::InvalidCount(
                c,
            ) && c@ == s@),
        },
{
    match crate::text::parse_u32(&chars_of(s)) {
        Some(n) => Ok(n),
        None => Err(CrossArgError::InvalidCount(s.to_string())),
    }
}

fn all_digits_str(s: &str) -> (r: bool)
    ensures
        r == (s@.len() > 0 && all_ascii_digits(s@)),
{
    let c = chars_of(s);
    if c.len() == 0 {
        return false;
    }
    let mut i: usize = 0;
    while i < c.len()
        invariant
            c@ == s@,
            i <= c@.len(),
            forall|j: int| 0 <= j < i ==> crate::text::spec_is_ascii_digit(#[trigger] c@[j]),
        decreases c.len() - i,
    {
        if !crate::text::is_ascii_digit(c[i]) {
            return false;
        }
        i += 1;
    }
    true
}

/// What `--cross` values mean: the target name (`None`: the default) and
/// the case count, or the refusal's message.
pub open spec fn spec_parse_cross(vs: Seq<Seq<char>>) -> Result<(Option<Seq<char>>, u32), Seq<char>> {
    if vs.len() == 0 {
        Ok((None, DEFAULT_CROSS_COUNT))
    } else if vs.len() == 1 {
        if vs[0].len() > 0 && all_ascii_digits(vs[0]) {
            match crate::text::spec_parse_u32(vs[0]) {
                Some(n) => Ok((None, n)),
                None => Err(msg_invalid_count(vs[0])),
            }
        } else if looks_like_path(vs[0]) {
            Err(msg_path_given(vs[0]))
        } else {
            Ok((Some(vs[0]), DEFAULT_CROSS_COUNT))
        }
    } else if looks_like_path(vs[0]) {
        Err(msg_path_given(vs[0]))
    } else {
        match crate::text::spec_parse_u32(vs[1]) {
            Some(n) => Ok((Some(vs[0]), n)),
            None => Err(msg_invalid_count(vs[1])),
        }
    }
}

pub open spec fn strings_view(v: Seq<String>) -> Seq<Seq<char>> {
    v.map_values(|s: String| s@)
}

/// The target (`None`: the default `<alias>_cross`) and the case count of
/// `--cross`, `--cross N`, `--cross TARGET` and `--cross TARGET N`. A lone
/// all-digit value is the count.
pub fn parse_cross_args(values: &Vec<String>) -> (r: Result<(Option<&str>, u32), CrossArgError>)
    requires
        values@.len() <= 2,
    ensures
        values@.len() == 0 ==> r == Ok::<(Option<&str>, u32), CrossArgError>((None, DEFAULT_CROSS_COUNT)),
        values@.len() == 1 && values@[0]@.len() > 0 && all_ascii_digits(values@[0]@) ==> match r {
            Ok(x) => x.0 is None && crate::text::spec_parse_u32(values@[0]@) == Some(x.1),
            Err(_) => crate::text::spec_parse_u32(values@[0]@) is None,
        },
        values@.len() == 1 && !(values@[0]@.len() > 0 && all_ascii_digits(values@[0]@)) ==> match r {
            Ok(x) => x.0 matches Some(t) && t@ == values@[0]@ && x.1 == DEFAULT_CROSS_COUNT
                && !looks_like_path(values@[0]@),
            Err(_) => looks_like_path(values@[0]@),
        },
        values@.len() == 2 ==> match r {
            Ok(x) => x.0 matches Some(t) && t@ == values@[0]@ && !looks_like_path(values@[0]@)
                && crate::text::spec_parse_u32(values@[1]@) == Some(x.1),
            Err(_) => looks_like_path(values@[0]@) || crate::text::spec_parse_u32(values@[1]@) is None,
        },
        spec_parse_cross(strings_view(values@)) == match r {
            Ok(x) => Ok::<_, Seq<char>>((
                match x.0 {
                    Some(t) => Some(t@),
                    None => None,
                },
                x.1,
            )),
            Err(e) => Err(e.spec_message()),
        },
{
    let ghost vs = strings_view(values@);
    assert(values@.len() >= 1 ==> vs[0] == values@[0]@);
    assert(values@.len() >= 2 ==> vs[1] == values@[1]@);
    if values.len() == 0 {
        return Ok((None, DEFAULT_CROSS_COUNT));
    }
    if values.len() == 1 {
        let one = values[0].as_str();
        if all_digits_str(one) {
            let n = case_count(one)?;
            return Ok((None, n));
        }
        let t = cross_target_name(one)?;
        return Ok((Some(t), DEFAULT_CROSS_COUNT));
    }
    let t = cross_target_name(values[0].as_str())?;
    let n = case_count(values[1].as_str())?;
    Ok((Some(t), n))
}

// ─── `dup` ──────────────────────────────────────────────────────────────────

/// The options of `cargo compete dup`.
#[derive(Clone, Debug)]
pub struct OptCompeteDup {
    /// Overwrite the destination if it already exists.
    pub force: bool,
    /// Existing package.
    pub package: Option<String>,
    /// Path to Cargo.toml.
    pub manifest_path: Option<String>,
    /// Coloring.
    pub color: String,
    /// Name or alias for a `bin`/`example`.
    pub name_or_alias: String,
}

/// Why `dup` refuses.
#[derive(Clone, Debug, PartialEq, Eq)]
pub enum DupError {
    /// The target is a cross-check companion already.
    AlreadyCross(String),
    /// The destination exists and `--force` was not given.
    DestinationExists(String),
}

/// The file name of the companion of `alias`: `<alias>_cross.rs`.
pub open spec fn spec_cross_file_name(alias: Seq<char>) -> Seq<char> {
    alias + CROSS_SUFFIX@ + ".rs"@
}

pub fn cross_file_name(alias: &str) -> (r: String)
    ensures
        r@ == spec_cross_file_name(alias@),
{
    let s = crate::text::concat_str(alias, CROSS_SUFFIX);
    crate::text::concat_str(s.as_str(), ".rs")
}

/// Whether `dup` may write the companion of the target `bin_name` (alias
/// `alias`) to `destination`, which `exists` or not.
pub fn check_dup_target(
    name_or_alias: &str,
    bin_name: &str,
    alias: &str,
    destination: &str,
    exists: bool,
    force: bool,
) -> (r: Result<(), DupError>)
    ensures
        match r {
            Ok(()) => !spec_ends_with(alias@, CROSS_SUFFIX@) && !spec_ends_with(bin_name@, CROSS_SUFFIX@)
                && !(exists && !force),
            Err(DupError::AlreadyCross(n)) => (spec_ends_with(alias@, CROSS_SUFFIX@)
                || spec_ends_with(bin_name@, CROSS_SUFFIX@)) && n@ == name_or_alias@,
            Err(DupError::DestinationExists(d)) => !spec_ends_with(alias@, CROSS_SUFFIX@)
                && !spec_ends_with(bin_name@, CROSS_SUFFIX@) && exists && !force && d@
                == destination@,
        },
{
    if ends_with_str(&chars_of(alias), CROSS_SUFFIX) || ends_with_str(&chars_of(bin_name), CROSS_SUFFIX) {
        return Err(DupError::AlreadyCross(name_or_alias.to_string()));
    }
    if exists && !force {
        return Err(DupError::DestinationExists(destination.to_string()));
    }
    Ok(())
}

// ─── `test`: which targets run ──────────────────────────────────────────────

/// The file name of a path, camino's `Utf8Path::file_name`: its last
/// component, none where that is `..` or there is no component.
pub uninterp spec fn path_file_name(p: Seq<char>) -> Option<Seq<char>>;

/// `Utf8Path::new(p).file_name()`, owned.
#[verifier::external_body]
fn file_name_of(p: &str) -> (r: Option<String>)
    ensures
        crate::regex_ops::opt_view(r) == path_file_name(p@),
{
    match camino::Utf8Path::new(p).file_name() {
        Some(f) => Some(f.to_string()),
        None => None,
    }
}

pub open spec fn file_name_or_path(p: Seq<char>) -> Seq<char> {
    match path_file_name(p) {
        Some(f) => f,
        None => p,
    }
}

/// The hint added when the default companion `name` of `alias` is missing.
pub open spec fn dup_note(alias: Seq<char>, bin_src: Seq<char>, name: Seq<char>) -> Seq<char> {
    "\nnote: `cargo compete dup "@ + alias + "` copies `"@ + file_name_or_path(bin_src) + "` to `src/bin/"@ + name
        + ".rs`"@
}

/// The target to test and its `(alias, problem)`: found by source path
/// (its problem by the target's name), else by name or alias.
pub open spec fn spec_test_bin(
    member: Package,
    all: Seq<(Seq<char>, (Seq<char>, Seq<char>))>,
    src: Option<Seq<char>>,
    name_or_alias: Seq<char>,
) -> Result<(Target, (Seq<char>, Seq<char>)), Seq<char>> {
    match src {
        Some(s) => match first_bin_at(member.targets@, s) {
            None => Err(msg_no_bin_at(s, member.name@)),
            Some(bin) => match lookup_or_cross(all, bin.name@) {
                Ok(e) => Ok((bin, e.1)),
                Err(m) => Err(m),
            },
        },
        None => match lookup_or_cross(all, name_or_alias) {
            Err(m) => Err(m),
            Ok(e) => match first_bin_like(member.targets@, e.0) {
                None => Err(msg_no_bin_like(e.0, member.name@)),
                Some(bin) => Ok((bin, e.1)),
            },
        },
    }
}

/// The companion target of `--cross` and its case count: the named one,
/// else `<alias>_cross`.
pub open spec fn spec_cross_target(member: Package, bin: Target, alias: Seq<char>, vs: Seq<Seq<char>>) -> Result<
    (Target, u32),
    Seq<char>,
> {
    match spec_parse_cross(vs) {
        Err(m) => Err(m),
        Ok(x) => {
            let tname = match x.0 {
                Some(t) => t,
                None => alias + CROSS_SUFFIX@,
            };
            match first_bin_like(member.targets@, tname) {
                Some(ct) => Ok((ct, x.1)),
                None => Err(
                    match x.0 {
                        Some(_) => msg_no_bin_like(tname, member.name@),
                        None => msg_no_bin_like(tname, member.name@) + dup_note(alias, bin.src_path@, tname),
                    },
                ),
            }
        },
    }
}

pub open spec fn str_opt_view(o: Option<&str>) -> Option<Seq<char>> {
    match o {
        Some(s) => Some(s@),
        None => None,
    }
}

/// What `cargo compete test` runs: the target, its problem, and the
/// companion of `--cross` with its case count.
pub struct TestTargets<'a> {
    pub bin: &'a Target,
    pub meta: &'a PackageMetadataCargoCompeteBinExample,
    pub cross: Option<(&'a Target, u32)>,
}

/// The targets of `cargo compete test` in `member`: by `src` (a path
/// already made absolute) or by `name_or_alias`, then the `--cross`
/// companion.
pub fn resolve_test_targets<'a>(
    member: &'a Package,
    package_metadata: &'a PackageMetadataCargoCompete,
    src: Option<&str>,
    name_or_alias: Option<&str>,
    cross: Option<&Vec<String>>,
) -> (r: Result<TestTargets<'a>, String>)
    requires
        src is Some || name_or_alias is Some,
        cross matches Some(v) ==> v@.len() <= 2,
    ensures
        ({
            let name = match name_or_alias {
                Some(n) => n@,
                None => Seq::empty(),
            };
            let b = spec_test_bin(*member, package_metadata.all_entries(), str_opt_view(src), name);
            match r {
                Ok(t) => {
                    &&& b == Ok::<_, Seq<char>>((*t.bin, (t.meta.alias@, t.meta.problem@)))
                    &&& match cross {
                        None => t.cross is None,
                        Some(vs) => t.cross matches Some(c) && spec_cross_target(
                            *member,
                            *t.bin,
                            t.meta.alias@,
                            strings_view(vs@),
                        ) == Ok::<_, Seq<char>>((*c.0, c.1)),
                    }
                },
                Err(e) => match b {
                    Err(m) => e@ == m,
                    Ok(x) => cross matches Some(vs) && spec_cross_target(*member, x.0, x.1.0, strings_view(vs@))
                        == Err::<(Target, u32), _>(e@),
                },
            }
        }),
{
    let (bin, meta) = match src {
        Some(s) => {
            let bin = member.bin_target_by_src_path(s)?;
            let (_, meta) = package_metadata.bin_like_by_name_or_alias_or_cross(bin.name.as_str())?;
            (bin, meta)
        },
        None => {
            let n = match name_or_alias {
                Some(n) => n,
                None => "",
            };
            let (bin_name, meta) = package_metadata.bin_like_by_name_or_alias_or_cross(n)?;
            let bin = member.bin_like_target_by_name(bin_name.as_str())?;
            (bin, meta)
        },
    };
    let cross = match cross {
        None => None,
        Some(values) => {
            let (target_override, n) = match parse_cross_args(values) {
                Ok(x) => x,
                Err(e) => {
                    return Err(e.message());
                },
            };
            let default_name = crate::text::concat_str(meta.alias.as_str(), CROSS_SUFFIX);
            let name = match target_override {
                Some(t) => t,
                None => default_name.as_str(),
            };
            match member.bin_like_target_by_name(name) {
                Ok(t) => Some((t, n)),
                Err(err) => {
                    match target_override {
                        Some(_) => {
                            return Err(err);
                        },
                        None => {
                            let file = match file_name_of(bin.src_path.as_str()) {
                                Some(f) => f,
                                None => bin.src_path.clone(),
                            };
                            let a = crate::text::concat_str(err.as_str(), "\nnote: `cargo compete dup ");
                            let b = crate::text::concat_str(a.as_str(), meta.alias.as_str());
                            let c = crate::text::concat_str(b.as_str(), "` copies `");
                            let d = crate::text::concat_str(c.as_str(), file.as_str());
                            let e = crate::text::concat_str(d.as_str(), "` to `src/bin/");
                            let f = crate::text::concat_str(e.as_str(), name);
                            let msg = crate::text::concat_str(f.as_str(), ".rs`");
                            assert(file@ == file_name_or_path(bin.src_path@));
                            assert(msg@ =~= err@ + dup_note(meta.alias@, bin.src_path@, name@));
                            return Err(msg);
                        },
                    }
                },
            }
        },
    };
    Ok(TestTargets { bin, meta, cross })
}

/// Whether `test` builds in release mode: `--debug`, else `--release`, else
/// the profile of `compete.toml`.
pub fn test_release_mode(debug: bool, release: bool, profile_is_release: bool) -> (r: bool)
    ensures
        r == (!debug && (release || profile_is_release)),
{
    if debug {
        false
    } else if release {
        true
    } else {
        profile_is_release
    }
}

/// Random cases run when `--random` gives no count.
pub const DEFAULT_RANDOM_COUNT: u32 = 5;

/// The case count of `--random` (`None`: not given).
pub fn random_count(random: Option<&Vec<u32>>) -> (r: Option<u32>)
    ensures
        match random {
            None => r is None,
            Some(v) => r == Some(if v@.len() > 0 { v@[0] } else { DEFAULT_RANDOM_COUNT }),
        },
{
    match random {
        None => None,
        Some(v) => {
            if v.len() > 0 {
                Some(v[0])
            } else {
                Some(DEFAULT_RANDOM_COUNT)
            }
        },
    }
}

} // verus!
