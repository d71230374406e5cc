//! Registering a cross-check binary in the text of `Cargo.toml`, through
//! `toml_edit`: whether it is registered, where its `[[bin]]` points, and
//! the edited text. Reading and writing the file are the caller's.

use vstd::prelude::*;
use crate::random_test::cargo_reg::{registration_action, CrossRegistration, RegistrationAction};
use crate::regex_ops::opt_view;

verus! {

/// `text` parses as a TOML document (`toml_edit::Document`).
pub uninterp spec fn toml_parses(text: Seq<char>) -> bool;

/// Whether `package.metadata.cargo-compete.bin` holds the key `bin`: `None`
/// where one of those keys is missing (the lookup stops there),
/// `false` where the last item is not a table.
pub uninterp spec fn toml_registered(text: Seq<char>, bin: Seq<char>) -> Option<bool>;

/// The `name` and `path` strings of each `[[bin]]` table, in order; `None`
/// where `bin` is not an array of tables.
pub uninterp spec fn toml_bin_tables(text: Seq<char>) -> Option<Seq<(Option<Seq<char>>, Option<Seq<char>>)>>;

/// The text with `path = <rel>` set in the `i`-th `[[bin]]` table.
pub uninterp spec fn toml_with_bin_path(text: Seq<char>, i: nat, rel: Seq<char>) -> Option<Seq<char>>;

/// The text with a `[[bin]]` table `{ name, path }` pushed (`bin` made an
/// array of tables when absent).
pub uninterp spec fn toml_with_bin_table(text: Seq<char>, name: Seq<char>, rel: Seq<char>) -> Option<Seq<char>>;

/// The text with `package.metadata.cargo-compete.bin.<name>` entered as
/// tables and `alias` and `problem` set in it; `None` where an item on that
/// path is not a table.
pub uninterp spec fn toml_with_metadata_entry(
    text: Seq<char>,
    name: Seq<char>,
    alias: Seq<char>,
    problem: Seq<char>,
) -> Option<Seq<char>>;

/// `text.parse::<toml_edit::Document>().is_ok()`.
#[verifier::external_body]
fn parse_ok(text: &str) -> (r: bool)
    ensures
        r == toml_parses(text@),
{
    text.parse::<toml_edit::Document>().is_ok()
}

/// `doc["package"]["metadata"]["cargo-compete"]["bin"].as_table()` holding
/// `bin`, read with `get` so that a missing key gives `None`.
#[verifier::external_body]
fn registered(text: &str, bin: &str) -> (r: Option<bool>)
    ensures
        r == toml_registered(text@, bin@),
{
    let doc = text.parse::<toml_edit::Document>().ok()?;
    let item = doc.get("package")?.get("metadata")?.get("cargo-compete")?.get("bin")?;
    Some(item.as_table().map(|t| t.contains_key(bin)).unwrap_or(false))
}

/// `doc["bin"].as_array_of_tables()`, each table's `name` and `path` as
/// strings.
#[verifier::external_body]
fn bin_tables(text: &str) -> (r: Option<Vec<(Option<String>, Option<String>)>>)
    ensures
        match r {
            Some(v) => toml_bin_tables(text@) == Some(v@.map_values(
                |p: (Option<String>, Option<String>)| (opt_view(p.0), opt_view(p.1)),
            )),
            None => toml_bin_tables(text@) is None,
        },
{
    let doc = text.parse::<toml_edit::Document>().ok()?;
    let arr = doc.get("bin")?.as_array_of_tables()?;
    Some(
        arr.iter().map(
            |t| (
                t.get("name").and_then(|i| i.as_str()).map(|s| s.to_string()),
                t.get("path").and_then(|i| i.as_str()).map(|s| s.to_string()),
            ),
        ).collect(),
    )
}

/// `tbl["path"] = value(rel)` on the `i`-th `[[bin]]` table, then
/// `doc.to_string()`.
#[verifier::external_body]
fn with_bin_path(text: &str, i: usize, rel: &str) -> (r: Option<String>)
    ensures
        opt_view(r) == toml_with_bin_path(text@, i as nat, rel@),
{
    let mut doc = text.parse::<toml_edit::Document>().ok()?;
    let tbl = doc.get_mut("bin")?.as_array_of_tables_mut()?.get_mut(i)?;
    tbl["path"] = toml_edit::value(rel);
    Some(doc.to_string())
}

/// `doc.entry("bin")` made an array of tables when absent and the table
/// `{ name, path }` pushed onto it, then `doc.to_string()`.
#[verifier::external_body]
fn with_bin_table(text: &str, name: &str, rel: &str) -> (r: Option<String>)
    ensures
        opt_view(r) == toml_with_bin_table(text@, name@, rel@),
{
    let mut doc = text.parse::<toml_edit::Document>().ok()?;
    let bins = doc.entry("bin").or_insert_with(|| toml_edit::Item::ArrayOfTables(toml_edit::ArrayOfTables::new()));
    if let toml_edit::Item::ArrayOfTables(arr) = bins {
        let mut tbl = toml_edit::Table::new();
        tbl["name"] = toml_edit::value(name);
        tbl["path"] = toml_edit::value(rel);
        arr.push(tbl);
    }
    Some(doc.to_string())
}

/// `package`, `metadata`, `cargo-compete`, `bin` and `<name>` entered as
/// tables (`None` where one is another kind of item), `alias` and `problem`
/// set in the last, then `doc.to_string()`.
#[verifier::external_body]
fn with_metadata_entry(text: &str, name: &str, alias: &str, problem: &str) -> (r: Option<String>)
    ensures
        opt_view(r) == toml_with_metadata_entry(text@, name@, alias@, problem@),
{
    let mut doc = text.parse::<toml_edit::Document>().ok()?;
    let p = doc.as_item_mut().as_table_like_mut()?.entry("package").or_insert(toml_edit::table());
    let m = p.as_table_like_mut()?.entry("metadata").or_insert(toml_edit::table());
    let c = m.as_table_like_mut()?.entry("cargo-compete").or_insert(toml_edit::table());
    let b = c.as_table_like_mut()?.entry("bin").or_insert(toml_edit::table());
    let e = b.as_table_like_mut()?.entry(name).or_insert(toml_edit::table()).as_table_like_mut()?;
    e.insert("alias", toml_edit::value(alias));
    e.insert("problem", toml_edit::value(problem));
    Some(doc.to_string())
}

/// The first `[[bin]]` table named `name`: its position and path.
pub open spec fn first_named(ts: Seq<(Option<Seq<char>>, Option<Seq<char>>)>, name: Seq<char>) -> Option<
    (nat, Option<Seq<char>>),
>
    decreases ts.len(),
{
    if ts.len() == 0 {
        None
    } else if ts[0].0 == Some(name) {
        Some((0, ts[0].1))
    } else {
        match first_named(ts.drop_first(), name) {
            Some(p) => Some(((p.0 + 1) as nat, p.1)),
            None => None,
        }
    }
}

/// The message when `Cargo.toml` is not TOML.
pub open spec fn msg_unparsable() -> Seq<char> {
    "failed to parse Cargo.toml"@
}

/// The message when the manifest has no `package.metadata.cargo-compete.bin`.
pub open spec fn msg_no_bin_table() -> Seq<char> {
    "`package.metadata.cargo-compete.bin` is not in Cargo.toml"@
}

/// The message when an item on the registration's path is not a table.
pub open spec fn msg_not_table() -> Seq<char> {
    "`package.metadata.cargo-compete.bin` is not a table in Cargo.toml"@
}

/// What registering `reg` does to the manifest text: an error, nothing to
/// write, or the new text.
pub open spec fn spec_register_cross_bin(
    manifest: Seq<char>,
    name: Seq<char>,
    rel: Seq<char>,
    alias: Seq<char>,
    problem: Seq<char>,
) -> Result<Option<Seq<char>>, Seq<char>> {
    if !toml_parses(manifest) {
        Err(msg_unparsable())
    } else {
        match toml_registered(manifest, name) {
            None => Err(msg_no_bin_table()),
            Some(true) => {
                let found = match toml_bin_tables(manifest) {
                    Some(ts) => first_named(ts, name),
                    None => None,
                };
                match found {
                    Some((i, path)) => if path == Some(rel) {
                        Ok(None)
                    } else {
                        match toml_with_bin_path(manifest, i, rel) {
                            Some(t) => Ok(Some(t)),
                            None => Err(msg_not_table()),
                        }
                    },
                    None => Ok(None),
                }
            },
            Some(false) => match toml_with_bin_table(manifest, name, rel) {
                None => Err(msg_unparsable()),
                Some(t1) => match toml_with_metadata_entry(t1, name, alias, problem) {
                    Some(t) => Ok(Some(t)),
                    None => Err(msg_not_table()),
                },
            },
        }
    }
}

fn find_named(ts: &Vec<(Option<String>, Option<String>)>, name: &str) -> (r: Option<(usize, Option<String>)>)
    ensures
        match r {
            Some(p) => first_named(
                ts@.map_values(|p: (Option<String>, Option<String>)| (opt_view(p.0), opt_view(p.1))),
                name@,
            ) == Some((p.0 as nat, opt_view(p.1))),
            None => first_named(
                ts@.map_values(|p: (Option<String>, Option<String>)| (opt_view(p.0), opt_view(p.1))),
                name@,
            ) is None,
        },
{
    let ghost all = ts@.map_values(|p: (Option<String>, Option<String>)| (opt_view(p.0), opt_view(p.1)));
    let mut i: usize = 0;
    assert(all.skip(0) =~= all);
    while i < ts.len()
        invariant
            all == ts@.map_values(|p: (Option<String>, Option<String>)| (opt_view(p.0), opt_view(p.1))),
            i <= ts@.len(),
            first_named(all, name@) == match first_named(all.skip(i as int), name@) {
                Some(p) => Some(((p.0 + i) as nat, p.1)),
                None => None,
            },
        decreases ts.len() - i,
    {
        assert(all.skip(i as int)[0] == all[i as int]);
        assert(all.skip(i as int).drop_first() =~= all.skip(i + 1));
        let matches = match &ts[i].0 {
            Some(n) => crate::text::str_eq(n.as_str(), name),
            None => false,
        };
        if matches {
            let p = match &ts[i].1 {
                Some(x) => Some(x.clone()),
                None => None,
            };
            return Some((i, p));
        }
        i += 1;
    }
    None
}

/// Register the cross-check binary `reg` (problem `problem`) in the text of
/// `Cargo.toml`: `Ok(None)` when it is registered with this path already,
/// `Ok(Some(text))` with the text to write when the path is updated or the
/// binary is added.
pub fn register_cross_bin(manifest: &str, reg: &CrossRegistration, problem: &str) -> (r: Result<Option<String>, String>)
    ensures
        match r {
            Ok(t) => spec_register_cross_bin(manifest@, reg.bin_name@, reg.path@, reg.alias@, problem@) == Ok::<
                _,
                Seq<char>,
            >(opt_view(t)),
            Err(e) => spec_register_cross_bin(manifest@, reg.bin_name@, reg.path@, reg.alias@, problem@) == Err::<
                Option<Seq<char>>,
                _,
            >(e@),
        },
{
    if !parse_ok(manifest) {
        return Err("failed to parse Cargo.toml".to_string());
    }
    let is_registered = match registered(manifest, reg.bin_name.as_str()) {
        Some(b) => b,
        None => {
            return Err("`package.metadata.cargo-compete.bin` is not in Cargo.toml".to_string());
        },
    };
    let table: Option<(usize, Option<String>)> = if is_registered {
        match bin_tables(manifest) {
            Some(ts) => find_named(&ts, reg.bin_name.as_str()),
            None => None,
        }
    } else {
        None
    };
    let bin_table: Option<Option<&str>> = match &table {
        Some((_, Some(p))) => Some(Some(p.as_str())),
        Some((_, None)) => Some(None),
        None => None,
    };
    match registration_action(is_registered, bin_table, reg.path.as_str()) {
        RegistrationAction::Keep => Ok(None),
        RegistrationAction::UpdatePath => {
            let i = match &table {
                Some((i, _)) => *i,
                None => 0,
            };
            match with_bin_path(manifest, i, reg.path.as_str()) {
                Some(t) => Ok(Some(t)),
                None => Err("`package.metadata.cargo-compete.bin` is not a table in Cargo.toml".to_string()),
            }
        },
        RegistrationAction::Register => {
            let t1 = match with_bin_table(manifest, reg.bin_name.as_str(), reg.path.as_str()) {
                Some(t) => t,
                None => {
                    return Err("failed to parse Cargo.toml".to_string());
                },
            };
            match with_metadata_entry(t1.as_str(), reg.bin_name.as_str(), reg.alias.as_str(), problem) {
                Some(t) => Ok(Some(t)),
                None => Err("`package.metadata.cargo-compete.bin` is not a table in Cargo.toml".to_string()),
            }
        },
    }
}

} // verus!
