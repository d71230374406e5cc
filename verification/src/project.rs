//! The package's `[package.metadata.cargo-compete]` table and the parts of
//! `cargo metadata` the commands look up: which problem a `bin`/`example`
//! name or alias stands for, and which cargo target builds it.

use vstd::prelude::*;
use crate::maps::seq_lt;
use crate::text::{chars_of, concat_str, ends_with_str, str_eq, string_of};

verus! {

// ─── `package.metadata.cargo-compete` ───────────────────────────────────────

/// The problem of one `bin` / `example` entry.
#[derive(Debug, PartialEq, Eq)]
pub struct PackageMetadataCargoCompeteBinExample {
    pub alias: String,
    /// The problem's URL.
    pub problem: String,
}

/// `package.metadata.cargo-compete`: the config path and the `bin` and
/// `example` entries by target name, in file order.
#[derive(Debug, PartialEq, Eq)]
pub struct PackageMetadataCargoCompete {
    pub config: Option<String>,
    pub bin: Vec<(String, PackageMetadataCargoCompeteBinExample)>,
    pub example: Vec<(String, PackageMetadataCargoCompeteBinExample)>,
}

/// One entry as written: its key, and the optional `name` and `alias`.
#[derive(Debug)]
pub struct BinEntry {
    pub key: String,
    pub name: Option<String>,
    pub alias: Option<String>,
    pub problem: String,
}

/// A target name and its problem, as values: `(name, (alias, problem))`.
pub open spec fn entry_view(e: (String, PackageMetadataCargoCompeteBinExample)) -> (Seq<char>, (Seq<char>, Seq<char>)) {
    (e.0@, (e.1.alias@, e.1.problem@))
}

pub open spec fn entries_view(v: Seq<(String, PackageMetadataCargoCompeteBinExample)>) -> Seq<
    (Seq<char>, (Seq<char>, Seq<char>)),
> {
    v.map_values(|e: (String, PackageMetadataCargoCompeteBinExample)| entry_view(e))
}

/// The target name and alias of an entry: with an `alias` the key is the
/// name; else with a `name` the key is the alias; else the key is both.
pub open spec fn spec_name_and_alias(key: Seq<char>, name: Option<Seq<char>>, alias: Option<Seq<char>>) -> (
    Seq<char>,
    Seq<char>,
) {
    match alias {
        Some(a) => (key, a),
        None => match name {
            Some(n) => (n, key),
            None => (key, key),
        },
    }
}

/// Insert into an insertion-ordered map: an existing key keeps its place
/// and takes the new value.
pub open spec fn ordered_insert<V>(m: Seq<(Seq<char>, V)>, k: Seq<char>, v: V) -> Seq<(Seq<char>, V)> {
    if exists|i: int| 0 <= i < m.len() && m[i].0 == k {
        let i = choose|i: int| 0 <= i < m.len() && m[i].0 == k && forall|j: int| 0 <= j < i ==> m[j].0 != k;
        m.update(i, (k, v))
    } else {
        m.push((k, v))
    }
}

pub open spec fn entries_map(es: Seq<BinEntry>) -> Seq<(Seq<char>, (Seq<char>, Seq<char>))>
    decreases es.len(),
{
    if es.len() == 0 {
        seq![]
    } else {
        let e = es.last();
        let na = spec_name_and_alias(e.key@, crate::regex_ops::opt_view(e.name), crate::regex_ops::opt_view(e.alias));
        ordered_insert(entries_map(es.drop_last()), na.0, (na.1, e.problem@))
    }
}

/// The name and alias of an entry (see `spec_name_and_alias`).
pub fn name_and_alias(e: &BinEntry) -> (r: (String, String))
    ensures
        (r.0@, r.1@) == spec_name_and_alias(
            e.key@,
            crate::regex_ops::opt_view(e.name),
            crate::regex_ops::opt_view(e.alias),
        ),
{
    match &e.alias {
        Some(a) => (e.key.clone(), a.clone()),
        None => match &e.name {
            Some(n) => (n.clone(), e.key.clone()),
            None => (e.key.clone(), e.key.clone()),
        },
    }
}

/// The `bin` / `example` table read into target names: each entry's name
/// and alias resolved, a repeated name keeping its first place and its last
/// value.
pub fn deserialize_bin_example(entries: &Vec<BinEntry>) -> (r: Vec<(String, PackageMetadataCargoCompeteBinExample)>)
    ensures
        entries_view(r@) == entries_map(entries@),
{
    let mut out: Vec<(String, PackageMetadataCargoCompeteBinExample)> = Vec::new();
    let mut i: usize = 0;
    assert(entries@.take(0) =~= Seq::<BinEntry>::empty());
    assert(entries_view(out@) =~= entries_map(entries@.take(0)));
    while i < entries.len()
        invariant
            i <= entries@.len(),
            entries_view(out@) == entries_map(entries@.take(i as int)),
        decreases entries.len() - i,
    {
        assert(entries@.take(i + 1).drop_last() =~= entries@.take(i as int));
        let e = &entries[i];
        let (name, alias) = name_and_alias(e);
        let value = PackageMetadataCargoCompeteBinExample { alias, problem: e.problem.clone() };
        let ghost m = entries_view(out@);
        let mut j: usize = 0;
        let mut found: Option<usize> = None;
        while j < out.len() && found.is_none()
            invariant
                j <= out@.len(),
                m == entries_view(out@),
                found is None ==> forall|t: int| 0 <= t < j ==> #[trigger] m[t].0 != name@,
                found matches Some(f) ==> f < out@.len() && m[f as int].0 == name@ && forall|t: int|
                    0 <= t < f ==> #[trigger] m[t].0 != name@,
            decreases out.len() - j,
        {
            if str_eq(out[j].0.as_str(), name.as_str()) {
                found = Some(j);
            }
            j += 1;
        }
        let ghost newv = (value.alias@, value.problem@);
        match found {
            Some(j) => {
                proof {
                    assert(m[j as int].0 == name@);
                    let w = choose|w: int|
                        0 <= w < m.len() && m[w].0 == name@ && forall|t: int| 0 <= t < w ==> m[t].0 != name@;
                    assert(w == j) by {
                        if w < j {
                            assert(m[w].0 != name@);
                        }
                        if j < w {
                            assert(m[j as int].0 != name@);
                        }
                    }
                }
                out.set(j, (name, value));
                assert(entries_view(out@) =~= m.update(j as int, (m[j as int].0, newv)));
            },
            None => {
                out.push((name, value));
                assert(entries_view(out@) =~= m.push((entries_view(out@).last().0, newv)));
            },
        }
        i += 1;
    }
    assert(entries@.take(entries@.len() as int) =~= entries@);
    out
}

/// The entries named or aliased `q`, in order.
pub open spec fn matching(es: Seq<(Seq<char>, (Seq<char>, Seq<char>))>, q: Seq<char>) -> Seq<
    (Seq<char>, (Seq<char>, Seq<char>)),
>
    decreases es.len(),
{
    if es.len() == 0 {
        seq![]
    } else {
        let p = matching(es.drop_last(), q);
        if es.last().0 == q || es.last().1.0 == q {
            p.push(es.last())
        } else {
            p
        }
    }
}

pub open spec fn msg_no_problem(q: Seq<char>) -> Seq<char> {
    "no `problem` for: "@ + q
}

pub open spec fn msg_many_problems(q: Seq<char>) -> Seq<char> {
    "multiple `problem`s for "@ + q
}

/// The one entry named or aliased `q`, or why there is not one.
pub open spec fn lookup(all: Seq<(Seq<char>, (Seq<char>, Seq<char>))>, q: Seq<char>) -> Result<
    (Seq<char>, (Seq<char>, Seq<char>)),
    Seq<char>,
> {
    let ms = matching(all, q);
    if ms.len() == 1 {
        Ok(ms[0])
    } else if ms.len() == 0 {
        Err(msg_no_problem(q))
    } else {
        Err(msg_many_problems(q))
    }
}

/// `q` ends in `_cross` after a non-empty base.
pub open spec fn has_cross_base(q: Seq<char>) -> bool {
    q.len() > CROSS_SUFFIX@.len() && crate::text::spec_ends_with(q, CROSS_SUFFIX@)
}

pub open spec fn cross_base(q: Seq<char>) -> Seq<char> {
    q.subrange(0, q.len() - CROSS_SUFFIX@.len())
}

/// `lookup`, with a `<base>_cross` name that does not resolve by itself
/// taking the base's problem under its own name.
pub open spec fn lookup_or_cross(all: Seq<(Seq<char>, (Seq<char>, Seq<char>))>, q: Seq<char>) -> Result<
    (Seq<char>, (Seq<char>, Seq<char>)),
    Seq<char>,
> {
    match lookup(all, q) {
        Ok(e) => Ok(e),
        Err(err) => if has_cross_base(q) {
            match lookup(all, cross_base(q)) {
                Ok(e) => Ok((q, e.1)),
                Err(e2) => Err(e2),
            }
        } else {
            Err(err)
        },
    }
}

/// The suffix of a cross-check companion target.
pub const CROSS_SUFFIX: &'static str = "_cross";

/// Counts, up to two, the entries of `prev` and then of `v` named or
/// aliased `q`, and keeps the first of them.
fn scan_matching<'a>(
    v: &'a Vec<(String, PackageMetadataCargoCompeteBinExample)>,
    q: &str,
    count: &mut usize,
    first: &mut Option<(&'a String, &'a PackageMetadataCargoCompeteBinExample)>,
    Ghost(prev): Ghost<Seq<(Seq<char>, (Seq<char>, Seq<char>))>>,
)
    requires
        *old(count) == (if matching(prev, q@).len() <= 2 { matching(prev, q@).len() } else { 2 }),
        *old(count) >= 1 ==> (*old(first) matches Some(p) && matching(prev, q@)[0] == (p.0@, (p.1.alias@, p.1.problem@))),
    ensures
        ({
            let all = prev + entries_view(v@);
            &&& *final(count) == (if matching(all, q@).len() <= 2 { matching(all, q@).len() } else { 2 })
            &&& *final(count) >= 1 ==> (*final(first) matches Some(p) && matching(all, q@)[0] == (
                p.0@,
                (p.1.alias@, p.1.problem@),
            ))
        }),
{
    let ghost ev = entries_view(v@);
    let mut i: usize = 0;
    assert(prev + ev.take(0) =~= prev);
    while i < v.len()
        invariant
            ev == entries_view(v@),
            i <= v@.len(),
            *count == (if matching(prev + ev.take(i as int), q@).len() <= 2 {
                matching(prev + ev.take(i as int), q@).len()
            } else {
                2
            }),
            *count >= 1 ==> (*first matches Some(p) && matching(prev + ev.take(i as int), q@)[0] == (
                p.0@,
                (p.1.alias@, p.1.problem@),
            )),
        decreases v.len() - i,
    {
        assert((prev + ev.take(i + 1)).drop_last() =~= prev + ev.take(i as int));
        assert((prev + ev.take(i + 1)).last() == ev[i as int]);
        let e = &v[i];
        if str_eq(e.0.as_str(), q) || str_eq(e.1.alias.as_str(), q) {
            if *count == 0 {
                *first = Some((&e.0, &e.1));
            }
            if *count < 2 {
                *count = *count + 1;
            }
        }
        i += 1;
    }
    assert(ev.take(v@.len() as int) =~= ev);
}

impl PackageMetadataCargoCompete {
    /// The `bin` entries, then the `example` entries.
    pub open spec fn all_entries(&self) -> Seq<(Seq<char>, (Seq<char>, Seq<char>))> {
        entries_view(self.bin@) + entries_view(self.example@)
    }

    /// The one `bin` or `example` entry whose name or alias is `name_or_alias`.
    pub fn bin_like_by_name_or_alias(&self, name_or_alias: &str) -> (r: Result<
        (&String, &PackageMetadataCargoCompeteBinExample),
        String,
    >)
        ensures
            ({
                let ms = matching(self.all_entries(), name_or_alias@);
                &&& ms.len() == 1 <==> r is Ok
                &&& r matches Ok(p) ==> ms[0] == (p.0@, (p.1.alias@, p.1.problem@))
                &&& ms.len() == 0 ==> (r matches Err(e) && e@ == msg_no_problem(name_or_alias@))
                &&& ms.len() > 1 ==> (r matches Err(e) && e@ == msg_many_problems(name_or_alias@))
            }),
    {
        let mut count: usize = 0;
        let mut first: Option<(&String, &PackageMetadataCargoCompeteBinExample)> = None;
        scan_matching(&self.bin, name_or_alias, &mut count, &mut first, Ghost(Seq::empty()));
        assert(Seq::<(Seq<char>, (Seq<char>, Seq<char>))>::empty() + entries_view(self.bin@) =~= entries_view(self.bin@));
        scan_matching(&self.example, name_or_alias, &mut count, &mut first, Ghost(entries_view(self.bin@)));
        if count == 1 {
            match first {
                Some(p) => Ok(p),
                None => Err(String::new()),
            }
        } else if count == 0 {
            Err(concat_str("no `problem` for: ", name_or_alias))
        } else {
            Err(concat_str("multiple `problem`s for ", name_or_alias))
        }
    }

    /// `bin_like_by_name_or_alias`, also taking a cross-check companion: a
    /// name that does not resolve but ends in `_cross` after a non-empty base
    /// takes the base's problem and keeps its own name.
    pub fn bin_like_by_name_or_alias_or_cross(&self, name_or_alias: &str) -> (r: Result<
        (String, &PackageMetadataCargoCompeteBinExample),
        String,
    >)
        ensures
            ({
                let q = name_or_alias@;
                let direct = matching(self.all_entries(), q);
                let has_base = q.len() > CROSS_SUFFIX@.len() && crate::text::spec_ends_with(q, CROSS_SUFFIX@);
                let base = q.subrange(0, q.len() - CROSS_SUFFIX@.len());
                let via = matching(self.all_entries(), base);
                &&& direct.len() == 1 ==> (r matches Ok(p) && direct[0] == (p.0@, (p.1.alias@, p.1.problem@)))
                &&& direct.len() != 1 && !has_base ==> (r matches Err(e) && e@ == (if direct.len() == 0 {
                    msg_no_problem(q)
                } else {
                    msg_many_problems(q)
                }))
                &&& direct.len() != 1 && has_base ==> {
                    &&& via.len() == 1 ==> (r matches Ok(p) && p.0@ == q && via[0].1 == (p.1.alias@, p.1.problem@))
                    &&& via.len() == 0 ==> (r matches Err(e) && e@ == msg_no_problem(base))
                    &&& via.len() > 1 ==> (r matches Err(e) && e@ == msg_many_problems(base))
                }
            }),
            lookup_or_cross(self.all_entries(), name_or_alias@) == match r {
                Ok(p) => Ok::<_, Seq<char>>((p.0@, (p.1.alias@, p.1.problem@))),
                Err(e) => Err(e@),
            },
    {
        match self.bin_like_by_name_or_alias(name_or_alias) {
            Ok((name, meta)) => Ok((name.clone(), meta)),
            Err(err) => {
                let q = chars_of(name_or_alias);
                let n = chars_of(CROSS_SUFFIX).len();
                if q.len() > n && ends_with_str(&q, CROSS_SUFFIX) {
                    let base = string_of(&crate::text::copy_range(&q, 0, q.len() - n));
                    match self.bin_like_by_name_or_alias(base.as_str()) {
                        Ok((_, meta)) => Ok((name_or_alias.to_string(), meta)),
                        Err(e) => Err(e),
                    }
                } else {
                    Err(err)
                }
            },
        }
    }
}

// ─── `cargo metadata` ───────────────────────────────────────────────────────

/// A cargo target: its name, its kinds and its source file.
#[derive(Debug)]
pub struct Target {
    pub name: String,
    pub kind: Vec<String>,
    pub src_path: String,
}

/// A package: its id, name, manifest path and targets.
#[derive(Debug)]
pub struct Package {
    pub id: String,
    pub name: String,
    pub manifest_path: String,
    pub targets: Vec<Target>,
}

/// What the commands read of `cargo metadata`.
#[derive(Debug)]
pub struct Metadata {
    pub packages: Vec<Package>,
    pub workspace_members: Vec<String>,
    /// The root package of the resolve graph, when there is one.
    pub resolve_root: Option<String>,
}

/// The kinds list is exactly `[k]`.
pub open spec fn kind_is(kind: Seq<String>, k: Seq<char>) -> bool {
    kind.len() == 1 && kind[0]@ == k
}

fn kind_is_exec(kind: &Vec<String>, k: &str) -> (r: bool)
    ensures
        r == kind_is(kind@, k@),
{
    kind.len() == 1 && str_eq(kind[0].as_str(), k)
}

pub open spec fn is_member(m: Seq<String>, id: Seq<char>) -> bool {
    exists|i: int| 0 <= i < m.len() && (#[trigger] m[i])@ == id
}

fn is_member_exec(members: &Vec<String>, id: &str) -> (r: bool)
    ensures
        r == is_member(members@, id@),
{
    let mut i: usize = 0;
    while i < members.len()
        invariant
            i <= members@.len(),
            forall|j: int| 0 <= j < i ==> (#[trigger] members@[j])@ != id@,
        decreases members.len() - i,
    {
        if str_eq(members[i].as_str(), id) {
            return true;
        }
        i += 1;
    }
    false
}

/// The packages that are workspace members, in order.
pub open spec fn members_of(ps: Seq<Package>, m: Seq<String>) -> Seq<Package>
    decreases ps.len(),
{
    if ps.len() == 0 {
        seq![]
    } else {
        let p = members_of(ps.drop_last(), m);
        if is_member(m, ps.last().id@) {
            p.push(ps.last())
        } else {
            p
        }
    }
}

/// A bin or example target named `name`.
pub open spec fn bin_like_named(t: Target, name: Seq<char>) -> bool {
    t.name@ == name && (kind_is(t.kind@, "bin"@) || kind_is(t.kind@, "example"@))
}

/// A bin target whose source path is `src_path`.
pub open spec fn bin_at(t: Target, src_path: Seq<char>) -> bool {
    path_eq(t.src_path@, src_path) && kind_is(t.kind@, "bin"@)
}

/// The first bin or example target named `name`.
pub open spec fn first_bin_like(ts: Seq<Target>, name: Seq<char>) -> Option<Target>
    decreases ts.len(),
{
    if ts.len() == 0 {
        None
    } else if bin_like_named(ts[0], name) {
        Some(ts[0])
    } else {
        first_bin_like(ts.drop_first(), name)
    }
}

/// The first bin target whose source path is `src_path`.
pub open spec fn first_bin_at(ts: Seq<Target>, src_path: Seq<char>) -> Option<Target>
    decreases ts.len(),
{
    if ts.len() == 0 {
        None
    } else if bin_at(ts[0], src_path) {
        Some(ts[0])
    } else {
        first_bin_at(ts.drop_first(), src_path)
    }
}

pub open spec fn msg_no_bin_like(name: Seq<char>, package: Seq<char>) -> Seq<char> {
    "no bin/example target named `"@ + name + "` in `"@ + package + "`"@
}

pub open spec fn msg_no_bin_at(src_path: Seq<char>, package: Seq<char>) -> Seq<char> {
    "no bin target which `src_path` is `"@ + src_path + "` in `"@ + package + "`"@
}

/// camino's `Utf8Path::parent`: the path without its last component, none
/// for a root or an empty path.
pub uninterp spec fn path_parent(p: Seq<char>) -> Option<Seq<char>>;

/// `Utf8Path::new(p).parent()`, owned.
#[verifier::external_body]
pub(crate) fn parent_of(p: &str) -> (r: Option<String>)
    ensures
        crate::regex_ops::opt_view(r) == path_parent(p@),
{
    match camino::Utf8Path::new(p).parent() {
        Some(d) => Some(d.as_str().to_string()),
        None => None,
    }
}

/// Whether two paths name the same path component by component
/// (`std::path::Path`'s `==`).
pub uninterp spec fn path_eq(a: Seq<char>, b: Seq<char>) -> bool;

/// `Path::new(a) == Path::new(b)`.
#[verifier::external_body]
fn same_path(a: &str, b: &str) -> (r: bool)
    ensures
        r == path_eq(a@, b@),
{
    std::path::Path::new(a) == std::path::Path::new(b)
}

/// The bin targets of a package, in order.
pub open spec fn bins_of(ts: Seq<Target>) -> Seq<Target>
    decreases ts.len(),
{
    if ts.len() == 0 {
        seq![]
    } else {
        let p = bins_of(ts.drop_last());
        if kind_is(ts.last().kind@, "bin"@) {
            p.push(ts.last())
        } else {
            p
        }
    }
}

/// Ascending by name, equal names in any order.
pub open spec fn sorted_by_name(ts: Seq<&Target>) -> bool {
    forall|i: int, j: int| 0 <= i < j < ts.len() ==> !seq_lt(ts[j].name@, ts[i].name@)
}

/// Some package has id `id`.
pub open spec fn has_id(ps: Seq<Package>, id: Seq<char>) -> bool {
    exists|i: int| 0 <= i < ps.len() && (#[trigger] ps[i]).id@ == id
}

/// The indices below `n` of the packages that are workspace members and
/// that the package spec matches, ascending.
pub open spec fn hits(ps: Seq<Package>, ms: Seq<String>, sm: Seq<bool>, n: int) -> Seq<int>
    decreases n,
{
    if n <= 0 {
        seq![]
    } else {
        let p = hits(ps, ms, sm, n - 1);
        if is_member(ms, ps[n - 1].id@) && sm[n - 1] {
            p.push(n - 1)
        } else {
            p
        }
    }
}

proof fn lemma_hits_prefix(ps: Seq<Package>, ms: Seq<String>, sm: Seq<bool>, n: int)
    requires
        0 <= n,
    ensures
        hits(ps, ms, sm, n).len() >= 1 ==> hits(ps, ms, sm, n + 1)[0] == hits(ps, ms, sm, n)[0],
        hits(ps, ms, sm, n).len() <= hits(ps, ms, sm, n + 1).len() <= hits(ps, ms, sm, n).len() + 1,
{
}

proof fn lemma_hits_bounds(ps: Seq<Package>, ms: Seq<String>, sm: Seq<bool>, n: int)
    requires
        0 <= n,
    ensures
        forall|k: int| 0 <= k < hits(ps, ms, sm, n).len() ==> 0 <= #[trigger] hits(ps, ms, sm, n)[k] < n,
    decreases n,
{
    if n > 0 {
        lemma_hits_bounds(ps, ms, sm, n - 1);
        let h = hits(ps, ms, sm, n);
        let g = hits(ps, ms, sm, n - 1);
        assert forall|k: int| 0 <= k < h.len() implies 0 <= #[trigger] h[k] < n by {
            if k < g.len() {
                assert(h[k] == g[k]);
            }
        }
    }
}

pub open spec fn msg_not_member(s: Seq<char>) -> Seq<char> {
    "package `"@ + s + "` is not a member of the workspace"@
}

pub open spec fn msg_many_members(s: Seq<char>) -> Seq<char> {
    "`"@ + s + "` matched multiple members?????"@
}

pub open spec fn msg_not_in_metadata(id: Seq<char>) -> Seq<char> {
    "package `"@ + id + "` is not in the metadata"@
}

pub open spec fn msg_virtual(n: nat) -> Seq<char> {
    "this manifest is virtual, and the workspace has "@ + crate::text::spec_nat_chars(n)
        + " members. specify one with `--manifest-path` or `--package`"@
}

fn not_in_metadata(id: &str) -> (r: String)
    ensures
        r@ == msg_not_in_metadata(id@),
{
    concat_str(concat_str("package `", id).as_str(), "` is not in the metadata")
}

impl Metadata {
    /// The workspace members, in package order.
    pub fn all_members(&self) -> (r: Vec<&Package>)
        ensures
            r@.map_values(|p: &Package| *p) == members_of(self.packages@, self.workspace_members@),
    {
        let mut out: Vec<&Package> = Vec::new();
        let mut i: usize = 0;
        assert(self.packages@.take(0) =~= Seq::<Package>::empty());
        assert(out@.map_values(|p: &Package| *p) =~= members_of(self.packages@.take(0), self.workspace_members@));
        while i < self.packages.len()
            invariant
                i <= self.packages@.len(),
                out@.map_values(|p: &Package| *p) == members_of(self.packages@.take(i as int), self.workspace_members@),
            decreases self.packages.len() - i,
        {
            assert(self.packages@.take(i + 1).drop_last() =~= self.packages@.take(i as int));
            let p = &self.packages[i];
            let ghost before = out@;
            if is_member_exec(&self.workspace_members, p.id.as_str()) {
                out.push(p);
                assert(out@.map_values(|p: &Package| *p) =~= before.map_values(|p: &Package| *p).push(*p));
            }
            i += 1;
        }
        assert(self.packages@.take(self.packages@.len() as int) =~= self.packages@);
        out
    }

    /// The member a command works on. With a package spec, the one member
    /// it matches (`spec_matches[i]` says whether it matches package `i`);
    /// without one, the resolve root, else the only member.
    pub fn query_for_member(&self, spec: Option<&str>, spec_matches: &Vec<bool>) -> (r: Result<&Package, String>)
        requires
            spec is Some ==> spec_matches@.len() == self.packages@.len(),
        ensures
            spec matches Some(s) ==> ({
                let h = hits(self.packages@, self.workspace_members@, spec_matches@, self.packages@.len() as int);
                &&& h.len() == 0 ==> (r matches Err(e) && e@ == msg_not_member(s@))
                &&& h.len() == 1 ==> (r matches Ok(p) && *p == self.packages@[h[0]])
                &&& h.len() > 1 ==> (r matches Err(e) && e@ == msg_many_members(s@))
            }),
            spec is None ==> match self.resolve_root {
                Some(root) => match r {
                    Ok(p) => p.id@ == root@ && self.packages@.contains(*p),
                    Err(e) => e@ == msg_not_in_metadata(root@) && !has_id(self.packages@, root@),
                },
                None => {
                    let n = self.workspace_members@.len();
                    &&& n == 0 ==> (r matches Err(e) && e@ == "this workspace has no members"@)
                    &&& n == 1 ==> match r {
                        Ok(p) => p.id@ == self.workspace_members@[0]@ && self.packages@.contains(*p),
                        Err(e) => e@ == msg_not_in_metadata(self.workspace_members@[0]@) && !has_id(
                            self.packages@,
                            self.workspace_members@[0]@,
                        ),
                    }
                    &&& n > 1 ==> (r matches Err(e) && e@ == msg_virtual(n as nat))
                },
            },
    {
        match spec {
            Some(s) => {
                let ghost ps = self.packages@;
                let ghost ms = self.workspace_members@;
                let mut found: usize = 0;
                let mut count: usize = 0;
                let mut i: usize = 0;
                while i < self.packages.len()
                    invariant
                        ps == self.packages@,
                        ms == self.workspace_members@,
                        i <= ps.len(),
                        spec_matches@.len() == ps.len(),
                        count == (if hits(ps, ms, spec_matches@, i as int).len() <= 2 {
                            hits(ps, ms, spec_matches@, i as int).len()
                        } else {
                            2
                        }),
                        count >= 1 ==> found == hits(ps, ms, spec_matches@, i as int)[0],
                    decreases self.packages.len() - i,
                {
                    proof {
                        lemma_hits_prefix(ps, ms, spec_matches@, i as int);
                    }
                    if spec_matches[i] && is_member_exec(&self.workspace_members, self.packages[i].id.as_str()) {
                        if count == 0 {
                            found = i;
                        }
                        if count < 2 {
                            count = count + 1;
                        }
                    }
                    i += 1;
                }
                if count == 0 {
                    Err(concat_str(concat_str("package `", s).as_str(), "` is not a member of the workspace"))
                } else if count == 1 {
                    proof {
                        lemma_hits_bounds(ps, ms, spec_matches@, ps.len() as int);
                    }
                    Ok(&self.packages[found])
                } else {
                    Err(concat_str(concat_str("`", s).as_str(), "` matched multiple members?????"))
                }
            },
            None => {
                match &self.resolve_root {
                    Some(root) => {
                        match self.package_by_id(root.as_str()) {
                            Some(p) => Ok(p),
                            None => Err(not_in_metadata(root.as_str())),
                        }
                    },
                    None => {
                        let n = self.workspace_members.len();
                        if n == 0 {
                            Err("this workspace has no members".to_string())
                        } else if n == 1 {
                            match self.package_by_id(self.workspace_members[0].as_str()) {
                                Some(p) => Ok(p),
                                None => Err(not_in_metadata(self.workspace_members[0].as_str())),
                            }
                        } else {
                            let cnt = crate::text::string_of(&crate::text::nat_chars(n as u128));
                            let a = concat_str("this manifest is virtual, and the workspace has ", cnt.as_str());
                            Err(concat_str(
                                a.as_str(),
                                " members. specify one with `--manifest-path` or `--package`",
                            ))
                        }
                    },
                }
            },
        }
    }

    /// The first package with id `id`.
    pub fn package_by_id(&self, id: &str) -> (r: Option<&Package>)
        ensures
            r matches Some(p) ==> self.packages@.contains(*p) && p.id@ == id@,
            r is None <==> !has_id(self.packages@, id@),
    {
        let mut i: usize = 0;
        while i < self.packages.len()
            invariant
                i <= self.packages@.len(),
                forall|j: int| 0 <= j < i ==> (#[trigger] self.packages@[j]).id@ != id@,
            decreases self.packages.len() - i,
        {
            if str_eq(self.packages[i].id.as_str(), id) {
                return Some(&self.packages[i]);
            }
            i += 1;
        }
        None
    }
}

impl Package {
    /// The directory of the package's manifest.
    pub fn manifest_dir(&self) -> (r: String)
        requires
            path_parent(self.manifest_path@) is Some,
        ensures
            path_parent(self.manifest_path@) == Some(r@),
    {
        match parent_of(self.manifest_path.as_str()) {
            Some(d) => d,
            None => String::new(),
        }
    }

    /// `manifest_dir`, or `None` where the manifest path has no parent.
    pub fn checked_manifest_dir(&self) -> (r: Option<String>)
        ensures
            crate::regex_ops::opt_view(r) == path_parent(self.manifest_path@),
    {
        match parent_of(self.manifest_path.as_str()) {
            Some(d) => Some(self.manifest_dir()),
            None => None,
        }
    }

    /// The first bin or example target named `name`.
    pub fn bin_like_target_by_name(&self, name: &str) -> (r: Result<&Target, String>)
        ensures
            match r {
                Ok(t) => first_bin_like(self.targets@, name@) == Some(*t),
                Err(e) => first_bin_like(self.targets@, name@) is None && e@ == msg_no_bin_like(
                    name@,
                    self.name@,
                ),
            },
    {
        let ghost ts = self.targets@;
        let mut i: usize = 0;
        assert(ts.skip(0) =~= ts);
        while i < self.targets.len()
            invariant
                ts == self.targets@,
                i <= ts.len(),
                first_bin_like(ts, name@) == first_bin_like(ts.skip(i as int), name@),
            decreases self.targets.len() - i,
        {
            assert(ts.skip(i as int)[0] == ts[i as int]);
            assert(ts.skip(i as int).drop_first() =~= ts.skip(i + 1));
            let t = &self.targets[i];
            if str_eq(t.name.as_str(), name) && (kind_is_exec(&t.kind, "bin") || kind_is_exec(&t.kind, "example")) {
                return Ok(t);
            }
            i += 1;
        }
        let a = concat_str("no bin/example target named `", name);
        let b = concat_str(a.as_str(), "` in `");
        let c = concat_str(b.as_str(), self.name.as_str());
        Err(concat_str(c.as_str(), "`"))
    }

    /// The first bin target whose source path is `src_path`.
    pub fn bin_target_by_src_path(&self, src_path: &str) -> (r: Result<&Target, String>)
        ensures
            match r {
                Ok(t) => first_bin_at(self.targets@, src_path@) == Some(*t),
                Err(e) => first_bin_at(self.targets@, src_path@) is None && e@ == msg_no_bin_at(
                    src_path@,
                    self.name@,
                ),
            },
    {
        let ghost ts = self.targets@;
        let mut i: usize = 0;
        assert(ts.skip(0) =~= ts);
        while i < self.targets.len()
            invariant
                ts == self.targets@,
                i <= ts.len(),
                first_bin_at(ts, src_path@) == first_bin_at(ts.skip(i as int), src_path@),
            decreases self.targets.len() - i,
        {
            assert(ts.skip(i as int)[0] == ts[i as int]);
            assert(ts.skip(i as int).drop_first() =~= ts.skip(i + 1));
            let t = &self.targets[i];
            if same_path(t.src_path.as_str(), src_path) && kind_is_exec(&t.kind, "bin") {
                return Ok(t);
            }
            i += 1;
        }
        let a = concat_str("no bin target which `src_path` is `", src_path);
        let b = concat_str(a.as_str(), "` in `");
        let c = concat_str(b.as_str(), self.name.as_str());
        Err(concat_str(c.as_str(), "`"))
    }

    /// The bin targets, ascending by name; equal names keep their order.
    pub fn all_bin_targets_sorted(&self) -> (r: Vec<&Target>)
        ensures
            r@.map_values(|t: &Target| *t).to_multiset() == bins_of(self.targets@).to_multiset(),
            sorted_by_name(r@),
    {
        let mut out: Vec<&Target> = Vec::new();
        let mut i: usize = 0;
        assert(self.targets@.take(0) =~= Seq::<Target>::empty());
        assert(out@.map_values(|t: &Target| *t) =~= Seq::<Target>::empty());
        while i < self.targets.len()
            invariant
                i <= self.targets@.len(),
                out@.map_values(|t: &Target| *t).to_multiset() == bins_of(self.targets@.take(i as int)).to_multiset(),
                sorted_by_name(out@),
            decreases self.targets.len() - i,
        {
            assert(self.targets@.take(i + 1).drop_last() =~= self.targets@.take(i as int));
            let t = &self.targets[i];
            if kind_is_exec(&t.kind, "bin") {
                let tn = chars_of(t.name.as_str());
                let mut p: usize = out.len();
                let mut k: usize = 0;
                while k < out.len() && p == out.len()
                    invariant
                        k <= out@.len(),
                        p <= out@.len(),
                        p == out@.len() ==> forall|j: int| 0 <= j < k ==> !seq_lt(tn@, (#[trigger] out@[j]).name@),
                        p < out@.len() ==> seq_lt(tn@, out@[p as int].name@) && forall|j: int|
                            0 <= j < p ==> !seq_lt(tn@, (#[trigger] out@[j]).name@),
                    decreases out.len() - k,
                {
                    if crate::maps::chars_lt(&tn, &chars_of(out[k].name.as_str())) {
                        p = k;
                    }
                    k += 1;
                }
                let ghost before = out@;
                proof {
                    if p < before.len() {
                        assert(seq_lt(tn@, before[p as int].name@));
                        assert forall|j: int| p <= j < before.len() implies seq_lt(tn@, (#[trigger] before[j]).name@) by {
                            if j > p {
                                lemma_lt_le(tn@, before[p as int].name@, before[j].name@);
                            }
                        }
                    }
                }
                out.insert(p, t);
                proof {
                    assert(out@ == before.insert(p as int, t));
                    assert(out@.map_values(|t: &Target| *t) =~= before.map_values(|t: &Target| *t).insert(p as int, *t));
                    vstd::seq_lib::to_multiset_insert(before.map_values(|t: &Target| *t), p as int, *t);
                    assert(bins_of(self.targets@.take(i + 1)) == bins_of(self.targets@.take(i as int)).push(*t));
                    vstd::seq_lib::to_multiset_build(bins_of(self.targets@.take(i as int)), *t);
                    assert forall|a: int, b: int| 0 <= a < b < out@.len() implies !seq_lt(out@[b].name@, out@[a].name@) by {
                        if a < p && b < p {
                            assert(out@[a] == before[a] && out@[b] == before[b]);
                        } else if a < p && b == p {
                            assert(out@[a] == before[a] && out@[b] == t);
                            lemma_lt_asym(tn@, before[a].name@);
                        } else if a < p && b > p {
                            assert(out@[a] == before[a] && out@[b] == before[b - 1]);
                        } else if a == p {
                            assert(out@[a] == t && out@[b] == before[b - 1]);
                            lemma_lt_asym(tn@, before[b - 1].name@);
                        } else {
                            assert(out@[a] == before[a - 1] && out@[b] == before[b - 1]);
                        }
                    }
                }
            } else {
                assert(bins_of(self.targets@.take(i + 1)) == bins_of(self.targets@.take(i as int)));
            }
            i += 1;
        }
        assert(self.targets@.take(self.targets@.len() as int) =~= self.targets@);
        out
    }
}

// ─── the order of names ─────────────────────────────────────────────────────

pub proof fn lemma_lt_asym(a: Seq<char>, b: Seq<char>)
    ensures
        seq_lt(a, b) ==> !seq_lt(b, a),
    decreases a.len(),
{
    if a.len() > 0 && b.len() > 0 && a[0] == b[0] {
        lemma_lt_asym(a.drop_first(), b.drop_first());
    }
}

pub proof fn lemma_lt_trans(a: Seq<char>, b: Seq<char>, c: Seq<char>)
    requires
        seq_lt(a, b),
        seq_lt(b, c),
    ensures
        seq_lt(a, c),
    decreases a.len(),
{
    if a.len() > 0 && b.len() > 0 && c.len() > 0 && a[0] == b[0] && b[0] == c[0] {
        lemma_lt_trans(a.drop_first(), b.drop_first(), c.drop_first());
    }
}

pub proof fn lemma_lt_total(a: Seq<char>, b: Seq<char>)
    ensures
        seq_lt(a, b) || seq_lt(b, a) || a == b,
    decreases a.len(),
{
    if a.len() > 0 && b.len() > 0 && a[0] == b[0] {
        lemma_lt_total(a.drop_first(), b.drop_first());
        if a.drop_first() == b.drop_first() {
            assert(a =~= seq![a[0]] + a.drop_first());
            assert(b =~= seq![b[0]] + b.drop_first());
        }
    } else if a.len() == 0 && b.len() == 0 {
        assert(a =~= b);
    } else if a.len() > 0 && b.len() > 0 {
        vstd::utf8::char_u32_cast(a[0], a[0] as u32);
        vstd::utf8::char_u32_cast(b[0], b[0] as u32);
    }
}

/// `a < b` and `b <= c` give `a < c`.
proof fn lemma_lt_le(a: Seq<char>, b: Seq<char>, c: Seq<char>)
    requires
        seq_lt(a, b),
        !seq_lt(c, b),
    ensures
        seq_lt(a, c),
{
    lemma_lt_total(b, c);
    if seq_lt(b, c) {
        lemma_lt_trans(a, b, c);
    }
}

// ─── `.cargo/config.toml` ───────────────────────────────────────────────────

/// The text a missing `.cargo/config.toml` starts from.
pub const DEFAULT_CARGO_CONFIG: &'static str = "[build]\n";

/// The directory both build settings point at.
pub const BUILD_TARGET_DIR: &'static str = "target";

/// The keys of `[build]` to set to `target`, in order: those not set yet of
/// `target-dir` and `build-dir`. The file is written only when there is one.
pub fn build_dir_keys_to_set(has_target_dir: bool, has_build_dir: bool) -> (r: Vec<String>)
    ensures
        crate::text::sv(r@) == (if has_target_dir {
            Seq::<Seq<char>>::empty()
        } else {
            seq!["target-dir"@]
        }) + (if has_build_dir {
            Seq::<Seq<char>>::empty()
        } else {
            seq!["build-dir"@]
        }),
{
    let mut out: Vec<String> = Vec::new();
    if !has_target_dir {
        out.push("target-dir".to_string());
    }
    if !has_build_dir {
        out.push("build-dir".to_string());
    }
    proof {
        let a = if has_target_dir { Seq::<Seq<char>>::empty() } else { seq!["target-dir"@] };
        let b = if has_build_dir { Seq::<Seq<char>>::empty() } else { seq!["build-dir"@] };
        assert(crate::text::sv(out@) =~= a + b);
    }
    out
}

} // verus!
