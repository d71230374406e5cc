//! Registering a cross-check binary in `Cargo.toml`: the names it is
//! registered under, and what to change in the manifest. Reading, editing
//! and writing the TOML document are the caller's.

use vstd::prelude::*;
use crate::project::{path_parent, parent_of};
use crate::regex_ops::opt_view;
use crate::text::{chars_of, concat_str, string_of};

verus! {

/// heck's `KebabCase::to_kebab_case`: the words of `s`, lower-cased and
/// joined by `-`.
pub uninterp spec fn kebab_case(s: Seq<char>) -> Seq<char>;

/// `s.to_kebab_case()`.
#[verifier::external_body]
fn to_kebab(s: &str) -> (r: String)
    ensures
        r@ == kebab_case(s@),
{
    heck::KebabCase::to_kebab_case(s)
}

/// camino's `Utf8Path::file_stem`: the file name without its extension.
pub uninterp spec fn path_file_stem(p: Seq<char>) -> Option<Seq<char>>;

/// `Utf8Path::new(p).file_stem()`, owned.
#[verifier::external_body]
fn file_stem_of(p: &str) -> (r: Option<String>)
    ensures
        opt_view(r) == path_file_stem(p@),
{
    match camino::Utf8Path::new(p).file_stem() {
        Some(s) => Some(s.to_string()),
        None => None,
    }
}

/// camino's `Utf8Path::strip_prefix`: what follows the whole components of
/// `base` in `path`, none where `base` is not a prefix of it.
pub uninterp spec fn path_strip_prefix(path: Seq<char>, base: Seq<char>) -> Option<Seq<char>>;

/// `Utf8Path::new(path).strip_prefix(base)`, owned.
#[verifier::external_body]
fn strip_path_prefix(path: &str, base: &str) -> (r: Option<String>)
    ensures
        opt_view(r) == path_strip_prefix(path@, base@),
{
    match camino::Utf8Path::new(path).strip_prefix(base) {
        Ok(p) => Some(p.as_str().to_string()),
        Err(_) => None,
    }
}

/// `s` with every `\` made a `/`.
pub open spec fn forward_slashes(s: Seq<char>) -> Seq<char> {
    s.map_values(|c: char| if c == '\\' { '/' } else { c })
}

fn to_forward_slashes(s: &str) -> (r: String)
    ensures
        r@ == forward_slashes(s@),
{
    let c = chars_of(s);
    let mut out: Vec<char> = Vec::new();
    let mut i: usize = 0;
    while i < c.len()
        invariant
            c@ == s@,
            i <= c@.len(),
            out@ == forward_slashes(c@.take(i as int)),
        decreases c.len() - i,
    {
        out.push(if c[i] == '\\' { '/' } else { c[i] });
        assert(out@ =~= forward_slashes(c@.take(i + 1)));
        i += 1;
    }
    assert(c@.take(c@.len() as int) =~= c@);
    string_of(&out)
}

/// Where a cross-check binary is registered: `<contest>-<stem>` and the
/// alias `<stem>`, both kebab-case, and its source relative to the
/// manifest's directory.
pub struct CrossRegistration {
    pub bin_name: String,
    pub alias: String,
    pub path: String,
}

/// The directory of the manifest, `.` where the path has no parent.
pub open spec fn manifest_dir_of(manifest_path: Seq<char>) -> Seq<char> {
    match path_parent(manifest_path) {
        Some(d) => d,
        None => "."@,
    }
}

/// The names and path a cross source `cross_src` is registered under.
pub fn cross_registration(manifest_path: &str, cross_src: &str, contest: &str) -> (r: Result<
    CrossRegistration,
    String,
>)
    ensures
        match path_file_stem(cross_src@) {
            None => r matches Err(e) && e@ == "invalid cross file: "@ + cross_src@,
            Some(stem) => r matches Ok(x) && {
                &&& x.alias@ == kebab_case(stem)
                &&& x.bin_name@ == contest@ + "-"@ + kebab_case(stem)
                &&& x.path@ == forward_slashes(
                    match path_strip_prefix(cross_src@, manifest_dir_of(manifest_path@)) {
                        Some(rest) => rest,
                        None => cross_src@,
                    },
                )
            },
        },
{
    let stem = match file_stem_of(cross_src) {
        Some(s) => s,
        None => {
            return Err(concat_str("invalid cross file: ", cross_src));
        },
    };
    let kebab = to_kebab(stem.as_str());
    let bin_name = concat_str(concat_str(contest, "-").as_str(), kebab.as_str());
    let dir = match parent_of(manifest_path) {
        Some(d) => d,
        None => ".".to_string(),
    };
    let rel = match strip_path_prefix(cross_src, dir.as_str()) {
        Some(rest) => rest,
        None => cross_src.to_string(),
    };
    let path = to_forward_slashes(rel.as_str());
    Ok(CrossRegistration { bin_name, alias: kebab, path })
}

/// What to do to `Cargo.toml` for a cross-check binary.
#[derive(Clone, Copy, Debug, PartialEq, Eq, Structural)]
pub enum RegistrationAction {
    /// Already registered with this path: leave the manifest alone.
    Keep,
    /// Already registered: write the new `path` into its `[[bin]]`.
    UpdatePath,
    /// Add the `[[bin]]` and the `package.metadata.cargo-compete.bin` entry.
    Register,
}

/// The change for a binary whose name is (`registered`) or is not yet in
/// `package.metadata.cargo-compete.bin`; `bin_table` is the `[[bin]]` of
/// that name, if any, with its `path` if it has one as a string.
pub fn registration_action(registered: bool, bin_table: Option<Option<&str>>, path: &str) -> (r: RegistrationAction)
    ensures
        r == (if !registered {
            RegistrationAction::Register
        } else {
            match bin_table {
                Some(p) => if (p matches Some(q) && q@ == path@) {
                    RegistrationAction::Keep
                } else {
                    RegistrationAction::UpdatePath
                },
                None => RegistrationAction::Keep,
            }
        }),
{
    if !registered {
        return RegistrationAction::Register;
    }
    match bin_table {
        Some(Some(p)) => {
            if crate::text::str_eq(p, path) {
                RegistrationAction::Keep
            } else {
                RegistrationAction::UpdatePath
            }
        },
        Some(None) => RegistrationAction::UpdatePath,
        None => RegistrationAction::Keep,
    }
}

/// The subject of the status line: ``cross-check binary `<name>` ``.
pub fn cross_binary_label(bin_name: &str) -> (r: String)
    ensures
        r@ == "cross-check binary `"@ + bin_name@ + "`"@,
{
    concat_str(concat_str("cross-check binary `", bin_name).as_str(), "`")
}

} // verus!
