//! Constraint parsing: the `<li>` items of a task's constraints section into
//! numeric bounds, enumerations, string specifications, orderings and
//! distinctness, with every item that no rule takes kept as skipped.

use vstd::prelude::*;
use crate::maps::{
    m_get, m_has, m_insert, m_insert_all, m_remove, m_remove_all, pair_view, pairs_add, PairSet,
    StrMap, StrSet,
};
use crate::text::{
    append_chars, chars_of, contains_char, contains_str, copy_range, find_str, is_ascii_alnum,
    lemma_sv_push, matches_at, spec_contains, spec_find, spec_is_ascii_alnum, spec_trim, string_of,
    sv, trim,
};
use crate::parse::bounds::{
    parse_bound_expr_simple, spec_parse_bound_expr_simple, BoundExpr, BoundM, NumBound,
    NumBoundM, duplicate_opt,
};
use crate::parse::normalize::{decls_view, find_var_decls, group_n, spec_find_var_decls};

verus! {

/// Length range and alphabet of a string variable.
#[derive(Clone, Debug)]
pub struct StrSpec {
    pub charset: Vec<char>,
    pub len_lo: Option<BoundExpr>,
    pub len_hi: Option<BoundExpr>,
}

pub type StrSpecM = (Seq<char>, Option<BoundM>, Option<BoundM>);

impl DeepView for StrSpec {
    type V = StrSpecM;

    open spec fn deep_view(&self) -> StrSpecM {
        (self.charset@, self.len_lo.deep_view(), self.len_hi.deep_view())
    }
}

impl StrSpec {
    pub fn duplicate(&self) -> (r: StrSpec)
        ensures
            r.deep_view() == self.deep_view(),
    {
        StrSpec {
            charset: copy_range(&self.charset, 0, self.charset.len()),
            len_lo: duplicate_opt(&self.len_lo),
            len_hi: duplicate_opt(&self.len_hi),
        }
    }
}

/// Everything gathered from a task's constraint items.
pub struct ConstraintParse {
    pub num_vars: StrMap<NumBound>,
    /// Variables restricted to a listed set of values; they carry no range.
    pub enum_values: StrMap<Vec<i64>>,
    pub str_vars: StrMap<StrSpec>,
    /// Pairs `(a, b)` with `a <= b`.
    pub var_le: PairSet,
    /// Pairs `(a, b)` with `a != b`.
    pub var_ne: PairSet,
    pub all_distinct: StrSet,
    pub sum_limits: StrMap<i64>,
    pub skipped: Vec<String>,
}

pub struct ConstraintParseM {
    pub num_vars: Seq<(Seq<char>, NumBoundM)>,
    pub enum_values: Seq<(Seq<char>, Seq<i64>)>,
    pub str_vars: Seq<(Seq<char>, StrSpecM)>,
    pub var_le: Seq<(Seq<char>, Seq<char>)>,
    pub var_ne: Seq<(Seq<char>, Seq<char>)>,
    pub all_distinct: Seq<(Seq<char>, ())>,
    pub sum_limits: Seq<(Seq<char>, i64)>,
    pub skipped: Seq<Seq<char>>,
}

impl ConstraintParse {
    pub open spec fn model(&self) -> ConstraintParseM {
        ConstraintParseM {
            num_vars: self.num_vars.model(),
            enum_values: self.enum_values.model(),
            str_vars: self.str_vars.model(),
            var_le: self.var_le.model(),
            var_ne: self.var_ne.model(),
            all_distinct: self.all_distinct.map.model(),
            sum_limits: self.sum_limits.model(),
            skipped: sv(self.skipped@),
        }
    }

    pub fn new() -> (r: ConstraintParse)
        ensures
            r.model() == empty_parse(),
    {
        let r = ConstraintParse {
            num_vars: StrMap::new(),
            enum_values: StrMap::new(),
            str_vars: StrMap::new(),
            var_le: PairSet::new(),
            var_ne: PairSet::new(),
            all_distinct: StrSet::new(),
            sum_limits: StrMap::new(),
            skipped: Vec::new(),
        };
        assert(r.model().var_le =~= Seq::<(Seq<char>, Seq<char>)>::empty());
        assert(r.model().var_ne =~= Seq::<(Seq<char>, Seq<char>)>::empty());
        assert(r.model().all_distinct =~= Seq::<(Seq<char>, ())>::empty());
        assert(r.model().skipped =~= Seq::<Seq<char>>::empty());
        r
    }
}

pub open spec fn empty_parse() -> ConstraintParseM {
    ConstraintParseM {
        num_vars: seq![],
        enum_values: seq![],
        str_vars: seq![],
        var_le: seq![],
        var_ne: seq![],
        all_distinct: seq![],
        sum_limits: seq![],
        skipped: seq![],
    }
}

// ─── length specifications ──────────────────────────────────────────────────

/// Characters that can appear in a bound expression (`2*10^5`, `N-1`).
pub open spec fn spec_is_expr_char(c: char) -> bool {
    spec_is_ascii_alnum(c) || c == ' ' || c == '^' || c == '*' || c == '+' || c == '-' || c
        == '{' || c == '}' || c == '(' || c == ')' || c == '.' || c == '_' || c == '\\'
}

pub fn is_expr_char(c: char) -> (r: bool)
    ensures
        r == spec_is_expr_char(c),
{
    is_ascii_alnum(c) || c == ' ' || c == '^' || c == '*' || c == '+' || c == '-' || c == '{'
        || c == '}' || c == '(' || c == ')' || c == '.' || c == '_' || c == '\\'
}

/// Where the trailing run of expression characters of `h` starts.
pub open spec fn expr_run_start(h: Seq<char>) -> int
    decreases h.len(),
{
    if h.len() > 0 && spec_is_expr_char(h.last()) {
        expr_run_start(h.drop_last())
    } else {
        h.len() as int
    }
}

/// The bound written by the expression characters that end at `end`.
pub open spec fn spec_expr_ending_at(s: Seq<char>, end: int) -> Option<BoundM> {
    let head = s.take(end);
    let start = expr_run_start(head);
    if start >= head.len() {
        None
    } else {
        spec_parse_bound_expr_simple(spec_trim(head.skip(start)))
    }
}

pub fn expr_ending_at(s: &Vec<char>, end: usize) -> (r: Option<BoundExpr>)
    requires
        end <= s@.len(),
    ensures
        r.deep_view() == spec_expr_ending_at(s@, end as int),
{
    let mut j = end;
    assert(s@.take(end as int).take(end as int) =~= s@.take(end as int));
    while j > 0 && is_expr_char(s[j - 1])
        invariant
            j <= end <= s@.len(),
            expr_run_start(s@.take(j as int)) == expr_run_start(s@.take(end as int)),
        decreases j,
    {
        assert(s@.take(j as int).drop_last() =~= s@.take(j - 1));
        j -= 1;
    }
    if j == end {
        return None;
    }
    assert(s@.take(end as int).skip(j as int) =~= s@.subrange(j as int, end as int));
    let seg = trim(&copy_range(s, j, end));
    parse_bound_expr_simple(&seg)
}

/// The expression characters of `s`, in order.
pub open spec fn keep_expr_chars(s: Seq<char>) -> Seq<char>
    decreases s.len(),
{
    if s.len() == 0 {
        s
    } else {
        keep_expr_chars(s.drop_last()) + if spec_is_expr_char(s.last()) {
            seq![s.last()]
        } else {
            Seq::<char>::empty()
        }
    }
}

/// `(len_lo, len_hi)` read after `長さ`: `X 以上 Y 以下`, `X 以上`, `X 以下`,
/// or a fixed `X の`; anything between the keywords that is not an
/// expression character is skipped.
pub open spec fn spec_parse_length_spec(item: Seq<char>) -> (Option<BoundM>, Option<BoundM>) {
    match spec_find(item, "長さ"@) {
        None => (None, None),
        Some(lp) => {
            let after = item.skip(lp + "長さ"@.len());
            let ge = spec_find(after, "以上"@);
            let le = spec_find(after, "以下"@);
            match (ge, le) {
                (Some(g), Some(l)) => if g < l {
                    let seg = after.subrange(g + "以上"@.len(), l);
                    (spec_expr_ending_at(after, g), spec_expr_ending_at(seg, seg.len() as int))
                } else {
                    (spec_expr_ending_at(after, g), None)
                },
                (Some(g), None) => (spec_expr_ending_at(after, g), None),
                (None, Some(l)) => (None, spec_expr_ending_at(after, l)),
                (None, None) => {
                    let stop = match spec_find(after, seq!['の']) {
                        Some(p) => p,
                        None => after.len() as int,
                    };
                    let bv = spec_parse_bound_expr_simple(
                        spec_trim(keep_expr_chars(after.take(stop))),
                    );
                    (bv, bv)
                },
            }
        },
    }
}

fn keep_expr_chars_exec(s: &Vec<char>, stop: usize) -> (r: Vec<char>)
    requires
        stop <= s@.len(),
    ensures
        r@ == keep_expr_chars(s@.take(stop as int)),
{
    let mut out: Vec<char> = Vec::new();
    let mut i: usize = 0;
    assert(s@.take(0) =~= Seq::<char>::empty());
    while i < stop
        invariant
            i <= stop <= s@.len(),
            out@ == keep_expr_chars(s@.take(i as int)),
        decreases stop - i,
    {
        assert(s@.take(i + 1).drop_last() =~= s@.take(i as int));
        let ghost o = out@;
        if is_expr_char(s[i]) {
            out.push(s[i]);
            assert(out@ =~= o + seq![s@[i as int]]);
        } else {
            assert(o + Seq::<char>::empty() =~= o);
        }
        i += 1;
    }
    out
}

pub fn parse_length_spec_chars(item: &Vec<char>) -> (r: (Option<BoundExpr>, Option<BoundExpr>))
    ensures
        (r.0.deep_view(), r.1.deep_view()) == spec_parse_length_spec(item@),
{
    let lp = match find_str(item, "長さ") {
        Some(p) => p,
        None => return (None, None),
    };
    let kw = chars_of("長さ");
    let n = item.len();
    assert(lp + kw@.len() <= n);
    let after = copy_range(item, lp + kw.len(), n);
    assert(after@ =~= item@.skip(lp + "長さ"@.len()));
    let ge = find_str(&after, "以上");
    let le = find_str(&after, "以下");
    match (ge, le) {
        (Some(g), Some(l)) => {
            if g < l {
                proof {
                    reveal_strlit("以上");
                    reveal_strlit("以下");
                    assert(after@.subrange(g as int, g + 2)[1] == '上');
                    assert(after@.subrange(l as int, l + 2)[0] == '以');
                }
                let lo = expr_ending_at(&after, g);
                let seg = copy_range(&after, g + 2, l);
                let hi = expr_ending_at(&seg, seg.len());
                (lo, hi)
            } else {
                (expr_ending_at(&after, g), None)
            }
        },
        (Some(g), None) => (expr_ending_at(&after, g), None),
        (None, Some(l)) => (None, expr_ending_at(&after, l)),
        (None, None) => {
            proof {
                reveal_strlit("の");
                assert("の"@ =~= seq!['の']);
            }
            let stop = match find_str(&after, "の") {
                Some(p) => p,
                None => after.len(),
            };
            let raw = keep_expr_chars_exec(&after, stop);
            let bv = parse_bound_expr_simple(&trim(&raw));
            let bv2 = duplicate_opt(&bv);
            (bv, bv2)
        },
    }
}

/// Read `(len_lo, len_hi)` from the text after `長さ` (see
/// `spec_parse_length_spec`).
pub fn parse_length_spec(item: &str) -> (r: (Option<BoundExpr>, Option<BoundExpr>))
    ensures
        (r.0.deep_view(), r.1.deep_view()) == spec_parse_length_spec(item@),
{
    parse_length_spec_chars(&chars_of(item))
}

} // verus!

verus! {

// ─── string declarations ────────────────────────────────────────────────────

/// An HTML tag, opening or closing.
pub const TAG_PATTERN: &'static str = "</?[A-Za-z][^>]*>";

/// A one-character `<code>` span, the character captured.
pub const CODE_CHAR_PATTERN: &'static str = "<code>(.)</code>";

pub open spec fn spec_strip_html_tags(item: Seq<char>) -> Seq<char> {
    crate::regex_ops::replaced_all_or_same(TAG_PATTERN@, item, ""@)
}

pub fn strip_html_tags_chars(item: &Vec<char>) -> (r: Vec<char>)
    ensures
        r@ == spec_strip_html_tags(item@),
{
    crate::regex_ops::replace_all_or_same(TAG_PATTERN, item, "")
}

/// `item` with its HTML tags removed.
pub fn strip_html_tags(item: &str) -> (r: String)
    ensures
        r@ == spec_strip_html_tags(item@),
{
    string_of(&strip_html_tags_chars(&chars_of(item)))
}

/// The characters `lo..=lo+n-1` of the ASCII table.
pub open spec fn ascii_run(lo: u8, n: nat) -> Seq<char> {
    Seq::new(n, |i: int| ((lo + i) as u8) as char)
}

fn ascii_run_exec(lo: u8, hi: u8) -> (r: Vec<char>)
    requires
        lo <= hi,
    ensures
        r@ == ascii_run(lo, (hi - lo + 1) as nat),
{
    let mut out: Vec<char> = Vec::new();
    let mut b: u8 = lo;
    loop
        invariant
            lo <= b <= hi,
            out@ == ascii_run(lo, (b - lo) as nat),
        decreases hi - b,
    {
        out.push(b as char);
        assert(out@ =~= ascii_run(lo, (b - lo + 1) as nat));
        if b == hi {
            return out;
        }
        b = b + 1;
    }
}

/// `pat` occurs at least twice without overlap.
pub open spec fn occurs_twice(s: Seq<char>, pat: Seq<char>) -> bool {
    match spec_find(s, pat) {
        Some(p) => spec_contains(s.skip(p + pat.len()), pat),
        None => false,
    }
}

/// The first character of group 1 of each of the first `k` matches.
pub open spec fn code_chars_upto(gs: Seq<Seq<Option<Seq<char>>>>, k: int) -> Seq<char>
    decreases k,
{
    if k <= 0 {
        seq![]
    } else {
        let acc = code_chars_upto(gs, k - 1);
        match group_n(gs[k - 1], 1) {
            Some(s) => if s.len() > 0 {
                acc.push(s[0])
            } else {
                acc
            },
            None => acc,
        }
    }
}

pub open spec fn spec_code_chars(item: Seq<char>) -> Seq<char> {
    if crate::regex_ops::regex_compiles(CODE_CHAR_PATTERN@) {
        let gs = crate::regex_ops::regex_capture_groups(CODE_CHAR_PATTERN@, item);
        code_chars_upto(gs, gs.len() as int)
    } else {
        seq![]
    }
}

/// The alphabet a string declaration names: lower-case, upper-case or
/// digit letters by keyword, the characters of two or more one-letter
/// `<code>` spans, or all letters for a bare `文字列`.
pub open spec fn spec_determine_charset(item: Seq<char>) -> Option<Seq<char>> {
    if spec_contains(item, "英小文字"@) {
        Some(ascii_run(97, 26))
    } else if spec_contains(item, "英大文字"@) {
        Some(ascii_run(65, 26))
    } else if spec_contains(item, "数字列"@) {
        Some(ascii_run(48, 10))
    } else if occurs_twice(item, "<code>"@) {
        let cs = spec_code_chars(item);
        if cs.len() == 0 {
            None
        } else {
            Some(cs)
        }
    } else if spec_contains(item, "文字列"@) {
        Some(ascii_run(65, 26) + ascii_run(97, 26))
    } else {
        None
    }
}

fn occurs_twice_exec(s: &Vec<char>, pat: &str) -> (r: bool)
    ensures
        r == occurs_twice(s@, pat@),
{
    match find_str(s, pat) {
        Some(p) => {
            let k = chars_of(pat);
            let n = s.len();
            assert(p + k@.len() <= n);
            let rest = copy_range(s, p + k.len(), n);
            assert(rest@ =~= s@.skip(p + pat@.len()));
            contains_str(&rest, pat)
        },
        None => false,
    }
}

fn code_chars(item: &Vec<char>) -> (r: Vec<char>)
    ensures
        r@ == spec_code_chars(item@),
{
    let text = string_of(item);
    let gs = match crate::regex_ops::re_captures_all(CODE_CHAR_PATTERN, text.as_str()) {
        Some(g) => g,
        None => return Vec::new(),
    };
    let ghost gv = crate::regex_ops::all_groups_view(gs@);
    let mut out: Vec<char> = Vec::new();
    let mut k: usize = 0;
    while k < gs.len()
        invariant
            gv == crate::regex_ops::all_groups_view(gs@),
            k <= gs@.len(),
            out@ == code_chars_upto(gv, k as int),
        decreases gs.len() - k,
    {
        let g = &gs[k];
        assert(gv[k as int] == crate::regex_ops::groups_view(g@));
        if g.len() > 1 {
            assert(group_n(gv[k as int], 1) == crate::regex_ops::opt_view(g@[1]));
            match &g[1] {
                Some(s) => {
                    let c = chars_of(s.as_str());
                    if c.len() > 0 {
                        out.push(c[0]);
                    }
                },
                None => {},
            }
        }
        k += 1;
    }
    out
}

pub fn determine_charset(item: &Vec<char>) -> (r: Option<Vec<char>>)
    ensures
        match r {
            Some(v) => spec_determine_charset(item@) == Some(v@),
            None => spec_determine_charset(item@) is None,
        },
{
    if contains_str(item, "英小文字") {
        Some(ascii_run_exec(97, 122))
    } else if contains_str(item, "英大文字") {
        Some(ascii_run_exec(65, 90))
    } else if contains_str(item, "数字列") {
        Some(ascii_run_exec(48, 57))
    } else if occurs_twice_exec(item, "<code>") {
        let cs = code_chars(item);
        if cs.len() == 0 {
            None
        } else {
            Some(cs)
        }
    } else if contains_str(item, "文字列") {
        let mut v = ascii_run_exec(65, 90);
        append_chars(&mut v, &ascii_run_exec(97, 122));
        Some(v)
    } else {
        None
    }
}

/// A string declaration: the declared variables and their specification.
pub open spec fn spec_parse_string_decl(item: Seq<char>) -> Option<(Seq<Seq<char>>, StrSpecM)> {
    match spec_determine_charset(item) {
        None => None,
        Some(cs) => {
            let lens = if spec_contains(item, "長さ"@) || spec_contains(item, "からなる"@) {
                spec_parse_length_spec(item)
            } else {
                (Some(BoundM::Lit(1)), Some(BoundM::Lit(1)))
            };
            let decls = spec_find_var_decls(spec_strip_html_tags(item));
            if decls.len() == 0 {
                None
            } else {
                Some((decls[0].0, (cs, lens.0, lens.1)))
            }
        },
    }
}

pub fn parse_string_decl(item: &str) -> (r: Option<(Vec<String>, StrSpec)>)
    ensures
        match r {
            Some(d) => spec_parse_string_decl(item@) == Some((sv(d.0@), d.1.deep_view())),
            None => spec_parse_string_decl(item@) is None,
        },
{
    let it = chars_of(item);
    let charset = match determine_charset(&it) {
        Some(c) => c,
        None => return None,
    };
    let (len_lo, len_hi) = if contains_str(&it, "長さ") || contains_str(&it, "からなる") {
        parse_length_spec_chars(&it)
    } else {
        (Some(BoundExpr::Lit(1)), Some(BoundExpr::Lit(1)))
    };
    let decl_text = string_of(&strip_html_tags_chars(&it));
    let mut decls = find_var_decls(decl_text.as_str());
    if decls.len() == 0 {
        return None;
    }
    assert(decls_view(decls@)[0] == crate::parse::normalize::decl_view(decls@[0]));
    let (names, _rest) = decls.swap_remove(0);
    Some((names, StrSpec { charset, len_lo, len_hi }))
}

pub open spec fn spec_detect_string_decls(items: Seq<Seq<char>>, m: Seq<(Seq<char>, StrSpecM)>) -> Seq<
    (Seq<char>, StrSpecM),
>
    decreases items.len(),
{
    if items.len() == 0 {
        m
    } else {
        let prev = spec_detect_string_decls(items.drop_last(), m);
        match spec_parse_string_decl(items.last()) {
            Some(d) => m_insert_all(prev, d.0, d.1),
            None => prev,
        }
    }
}

/// Insert `spec` under every name of `names`.
fn insert_str_vars(m: &mut StrMap<StrSpec>, names: &Vec<String>, spec: &StrSpec)
    ensures
        final(m).model() == m_insert_all(old(m).model(), sv(names@), spec.deep_view()),
{
    let ghost m0 = m.model();
    let mut j: usize = 0;
    assert(sv(names@).take(0) =~= Seq::<Seq<char>>::empty());
    while j < names.len()
        invariant
            j <= names@.len(),
            m.model() == m_insert_all(m0, sv(names@).take(j as int), spec.deep_view()),
        decreases names.len() - j,
    {
        assert(sv(names@).take(j + 1).drop_last() =~= sv(names@).take(j as int));
        m.insert(names[j].clone(), spec.duplicate());
        j += 1;
    }
    assert(sv(names@).take(names@.len() as int) =~= sv(names@));
}

/// Pass 1: record every string declaration.
pub fn detect_string_decls(items: &[String], acc: &mut ConstraintParse)
    ensures
        final(acc).model() == (ConstraintParseM {
            str_vars: spec_detect_string_decls(sv(items@), old(acc).model().str_vars),
            ..old(acc).model()
        }),
{
    let ghost m0 = acc.model();
    let mut i: usize = 0;
    assert(sv(items@).take(0) =~= Seq::<Seq<char>>::empty());
    while i < items.len()
        invariant
            i <= items@.len(),
            acc.model() == (ConstraintParseM {
                str_vars: spec_detect_string_decls(sv(items@).take(i as int), m0.str_vars),
                ..m0
            }),
        decreases items.len() - i,
    {
        assert(sv(items@).take(i + 1).drop_last() =~= sv(items@).take(i as int));
        assert(sv(items@).take(i + 1).last() == items@[i as int]@);
        match parse_string_decl(items[i].as_str()) {
            Some((vars, spec)) => {
                insert_str_vars(&mut acc.str_vars, &vars, &spec);
            },
            None => {},
        }
        i += 1;
    }
    assert(sv(items@).take(items@.len() as int) =~= sv(items@));
}

} // verus!

verus! {

// ─── tokenizing comparison chains ───────────────────────────────────────────

/// Comparison operators of a length chain.
pub const LEN_OP_PATTERN: &'static str = "(<=|>=|<|>)";

/// Comparison operators of an inequality chain.
pub const CHAIN_OP_PATTERN: &'static str = "(<=|>=|!=|<|>)";

/// The operands and operators of a chain: the text between the operator
/// matches, and the matches; one operand and no operator when the pattern
/// does not compile.
pub open spec fn spec_tokens(norm: Seq<char>, pattern: Seq<char>) -> Seq<Seq<char>> {
    if crate::regex_ops::regex_compiles(pattern) {
        crate::regex_ops::regex_split_parts(pattern, norm)
    } else {
        seq![norm]
    }
}

pub open spec fn spec_ops(norm: Seq<char>, pattern: Seq<char>) -> Seq<Seq<char>> {
    if crate::regex_ops::regex_compiles(pattern) {
        crate::regex_ops::regex_match_texts(pattern, norm)
    } else {
        seq![]
    }
}

pub fn tokenize_inequality(norm: &str, pattern: &str) -> (r: (Vec<String>, Vec<String>))
    ensures
        sv(r.0@) == spec_tokens(norm@, pattern@),
        sv(r.1@) == spec_ops(norm@, pattern@),
        r.0@.len() == r.1@.len() + 1,
{
    let parts = crate::regex_ops::re_split(pattern, norm);
    let ops = crate::regex_ops::re_find_all(pattern, norm);
    match (parts, ops) {
        (Some(p), Some(o)) => (p, o),
        _ => {
            let mut t: Vec<String> = Vec::new();
            t.push(norm.to_string());
            let o: Vec<String> = Vec::new();
            assert(sv(t@) =~= seq![norm@]);
            assert(sv(o@) =~= Seq::<Seq<char>>::empty());
            (t, o)
        },
    }
}

pub open spec fn is_le_op(op: Seq<char>) -> bool {
    op == "<="@ || op == "<"@
}

pub open spec fn is_ge_op(op: Seq<char>) -> bool {
    op == ">="@ || op == ">"@
}

fn is_le_op_exec(op: &String) -> (r: bool)
    ensures
        r == is_le_op(op@),
{
    crate::text::str_eq(op.as_str(), "<=") || crate::text::str_eq(op.as_str(), "<")
}

fn is_ge_op_exec(op: &String) -> (r: bool)
    ensures
        r == is_ge_op(op@),
{
    crate::text::str_eq(op.as_str(), ">=") || crate::text::str_eq(op.as_str(), ">")
}

// ─── `1 <= |S| <= N` length updates ─────────────────────────────────────────

/// The name inside `|…|`.
pub open spec fn pipe_inner(n: Seq<char>) -> Option<Seq<char>> {
    if n.len() >= 2 && n[0] == '|' && n[n.len() - 1] == '|' {
        Some(n.subrange(1, n.len() - 1))
    } else {
        None
    }
}

/// The names of `names` written as `|…|`, pipes removed.
pub open spec fn pipe_names(names: Seq<Seq<char>>) -> Seq<Seq<char>>
    decreases names.len(),
{
    if names.len() == 0 {
        seq![]
    } else {
        let prev = pipe_names(names.drop_last());
        match pipe_inner(names.last()) {
            Some(x) => prev.push(x),
            None => prev,
        }
    }
}

/// The length bounds the neighbours of operand `i` give.
pub open spec fn update_len(
    spec: StrSpecM,
    tokens: Seq<Seq<char>>,
    ops: Seq<Seq<char>>,
    i: int,
) -> StrSpecM {
    let s1 = if i > 0 && is_le_op(ops[i - 1]) {
        match crate::parse::bounds::spec_parse_bound_expr(spec_trim(tokens[i - 1])) {
            Some(b) => (spec.0, Some(b), spec.2),
            None => spec,
        }
    } else {
        spec
    };
    if i < ops.len() && is_le_op(ops[i]) {
        match crate::parse::bounds::spec_parse_bound_expr(spec_trim(tokens[i + 1])) {
            Some(b) => (s1.0, s1.1, Some(b)),
            None => s1,
        }
    } else {
        s1
    }
}

pub open spec fn abs_update_names(
    m: Seq<(Seq<char>, StrSpecM)>,
    names: Seq<Seq<char>>,
    tokens: Seq<Seq<char>>,
    ops: Seq<Seq<char>>,
    i: int,
) -> Seq<(Seq<char>, StrSpecM)>
    decreases names.len(),
{
    if names.len() == 0 {
        m
    } else {
        let prev = abs_update_names(m, names.drop_last(), tokens, ops, i);
        match m_get(prev, names.last()) {
            Some(spec) => m_insert(prev, names.last(), update_len(spec, tokens, ops, i)),
            None => prev,
        }
    }
}

pub open spec fn abs_update_tokens(
    m: Seq<(Seq<char>, StrSpecM)>,
    tokens: Seq<Seq<char>>,
    ops: Seq<Seq<char>>,
    k: int,
) -> Seq<(Seq<char>, StrSpecM)>
    decreases k,
{
    if k <= 0 {
        m
    } else {
        let prev = abs_update_tokens(m, tokens, ops, k - 1);
        abs_update_names(
            prev,
            pipe_names(crate::parse::normalize::spec_extract_var_names(spec_trim(tokens[k - 1]))),
            tokens,
            ops,
            k - 1,
        )
    }
}

pub open spec fn abs_update_item(m: Seq<(Seq<char>, StrSpecM)>, item: Seq<char>) -> Seq<
    (Seq<char>, StrSpecM),
> {
    if !item.contains('|') {
        m
    } else {
        let norm = crate::parse::normalize::spec_normalize_constraint(item);
        let tokens = spec_tokens(norm, LEN_OP_PATTERN@);
        let ops = spec_ops(norm, LEN_OP_PATTERN@);
        if ops.len() == 0 {
            m
        } else {
            abs_update_tokens(m, tokens, ops, tokens.len() as int)
        }
    }
}

pub open spec fn spec_apply_abs_length_updates(
    items: Seq<Seq<char>>,
    m: Seq<(Seq<char>, StrSpecM)>,
) -> Seq<(Seq<char>, StrSpecM)>
    decreases items.len(),
{
    if items.len() == 0 {
        m
    } else {
        abs_update_item(spec_apply_abs_length_updates(items.drop_last(), m), items.last())
    }
}

fn pipe_names_exec(names: &Vec<String>) -> (r: Vec<String>)
    ensures
        sv(r@) == pipe_names(sv(names@)),
{
    let mut out: Vec<String> = Vec::new();
    let mut i: usize = 0;
    assert(sv(names@).take(0) =~= Seq::<Seq<char>>::empty());
    assert(sv(out@) =~= Seq::<Seq<char>>::empty());
    while i < names.len()
        invariant
            i <= names@.len(),
            sv(out@) == pipe_names(sv(names@).take(i as int)),
        decreases names.len() - i,
    {
        assert(sv(names@).take(i + 1).drop_last() =~= sv(names@).take(i as int));
        assert(sv(names@).take(i + 1).last() == names@[i as int]@);
        let c = chars_of(names[i].as_str());
        let n = c.len();
        if n >= 2 && c[0] == '|' && c[n - 1] == '|' {
            let inner = crate::text::slice_string(&c, 1, n - 1);
            proof {
                lemma_sv_push(out@, inner);
            }
            out.push(inner);
        }
        i += 1;
    }
    assert(sv(names@).take(names@.len() as int) =~= sv(names@));
    out
}

fn update_len_exec(spec: &StrSpec, tokens: &Vec<String>, ops: &Vec<String>, i: usize) -> (r: StrSpec)
    requires
        tokens@.len() == ops@.len() + 1,
        i < tokens@.len(),
    ensures
        r.deep_view() == update_len(spec.deep_view(), sv(tokens@), sv(ops@), i as int),
{
    let mut s = spec.duplicate();
    if i > 0 && is_le_op_exec(&ops[i - 1]) {
        assert(sv(ops@)[i - 1] == ops@[i - 1]@);
        assert(sv(tokens@)[i - 1] == tokens@[i - 1]@);
        let t = trim(&chars_of(tokens[i - 1].as_str()));
        match crate::parse::bounds::parse_bound_expr_chars(&t) {
            Some(b) => {
                s.len_lo = Some(b);
            },
            None => {},
        }
    } else {
        assert(i > 0 ==> sv(ops@)[i - 1] == ops@[i - 1]@);
    }
    if i < ops.len() && is_le_op_exec(&ops[i]) {
        assert(sv(ops@)[i as int] == ops@[i as int]@);
        assert(sv(tokens@)[i + 1] == tokens@[i + 1]@);
        let t = trim(&chars_of(tokens[i + 1].as_str()));
        match crate::parse::bounds::parse_bound_expr_chars(&t) {
            Some(b) => {
                s.len_hi = Some(b);
            },
            None => {},
        }
    } else {
        assert(i < ops@.len() ==> sv(ops@)[i as int] == ops@[i as int]@);
    }
    s
}

fn abs_update_token(m: &mut StrMap<StrSpec>, tokens: &Vec<String>, ops: &Vec<String>, i: usize)
    requires
        tokens@.len() == ops@.len() + 1,
        i < tokens@.len(),
    ensures
        final(m).model() == abs_update_names(
            old(m).model(),
            pipe_names(
                crate::parse::normalize::spec_extract_var_names(spec_trim(sv(tokens@)[i as int])),
            ),
            sv(tokens@),
            sv(ops@),
            i as int,
        ),
{
    assert(sv(tokens@)[i as int] == tokens@[i as int]@);
    let tok = string_of(&trim(&chars_of(tokens[i].as_str())));
    let names = pipe_names_exec(&crate::parse::normalize::extract_var_names(tok.as_str()));
    let ghost m0 = m.model();
    let ghost ns = sv(names@);
    let mut j: usize = 0;
    assert(ns.take(0) =~= Seq::<Seq<char>>::empty());
    while j < names.len()
        invariant
            ns == sv(names@),
            tokens@.len() == ops@.len() + 1,
            i < tokens@.len(),
            j <= names@.len(),
            m.model() == abs_update_names(m0, ns.take(j as int), sv(tokens@), sv(ops@), i as int),
        decreases names.len() - j,
    {
        assert(ns.take(j + 1).drop_last() =~= ns.take(j as int));
        assert(ns.take(j + 1).last() == names@[j as int]@);
        let updated = match m.get(names[j].as_str()) {
            Some(spec) => Some(update_len_exec(spec, tokens, ops, i)),
            None => None,
        };
        match updated {
            Some(u) => {
                m.insert(names[j].clone(), u);
            },
            None => {},
        }
        j += 1;
    }
    assert(ns.take(names@.len() as int) =~= ns);
}

/// Pass 2: `1 <= |S| <= N` sets the length range of an already declared
/// string `S`.
pub fn apply_abs_length_updates(items: &[String], acc: &mut ConstraintParse)
    ensures
        final(acc).model() == (ConstraintParseM {
            str_vars: spec_apply_abs_length_updates(sv(items@), old(acc).model().str_vars),
            ..old(acc).model()
        }),
{
    let ghost m0 = acc.model();
    let mut i: usize = 0;
    assert(sv(items@).take(0) =~= Seq::<Seq<char>>::empty());
    while i < items.len()
        invariant
            i <= items@.len(),
            acc.model() == (ConstraintParseM {
                str_vars: spec_apply_abs_length_updates(sv(items@).take(i as int), m0.str_vars),
                ..m0
            }),
        decreases items.len() - i,
    {
        assert(sv(items@).take(i + 1).drop_last() =~= sv(items@).take(i as int));
        assert(sv(items@).take(i + 1).last() == items@[i as int]@);
        let item = chars_of(items[i].as_str());
        if contains_char(&item, '|') {
            let norm = string_of(&crate::parse::normalize::normalize_constraint_chars(&item));
            let (tokens, ops) = tokenize_inequality(norm.as_str(), LEN_OP_PATTERN);
            if ops.len() > 0 {
                let ghost m1 = acc.str_vars.model();
                let mut k: usize = 0;
                while k < tokens.len()
                    invariant
                        tokens@.len() == ops@.len() + 1,
                        k <= tokens@.len(),
                        acc.model() == (ConstraintParseM {
                            str_vars: abs_update_tokens(m1, sv(tokens@), sv(ops@), k as int),
                            ..m0
                        }),
                    decreases tokens.len() - k,
                {
                    abs_update_token(&mut acc.str_vars, &tokens, &ops, k);
                    k += 1;
                }
            }
        }
        i += 1;
    }
    assert(sv(items@).take(items@.len() as int) =~= sv(items@));
}

} // verus!

verus! {

// ─── enumerations: `B は 1, 2 のいずれか`, `X \in \{1, 2\}` ──────────────────

/// The integers among the trimmed pieces, in order.
pub open spec fn parse_nums(parts: Seq<Seq<char>>) -> Seq<i64>
    decreases parts.len(),
{
    if parts.len() == 0 {
        seq![]
    } else {
        let prev = parse_nums(parts.drop_last());
        match crate::text::spec_parse_i64(spec_trim(parts.last())) {
            Some(n) => prev.push(n),
            None => prev,
        }
    }
}

fn parse_nums_exec(parts: &Vec<Vec<char>>) -> (r: Vec<i64>)
    ensures
        r@ == parse_nums(crate::text::vv(parts@)),
{
    let ghost ps = crate::text::vv(parts@);
    let mut out: Vec<i64> = Vec::new();
    let mut i: usize = 0;
    assert(ps.take(0) =~= Seq::<Seq<char>>::empty());
    while i < parts.len()
        invariant
            ps == crate::text::vv(parts@),
            i <= parts@.len(),
            out@ == parse_nums(ps.take(i as int)),
        decreases parts.len() - i,
    {
        assert(ps.take(i + 1).drop_last() =~= ps.take(i as int));
        assert(ps.take(i + 1).last() == parts@[i as int]@);
        match crate::text::parse_i64(&trim(&parts[i])) {
            Some(n) => out.push(n),
            None => {},
        }
        i += 1;
    }
    assert(ps.take(parts@.len() as int) =~= ps);
    out
}

pub open spec fn spec_parse_either_alternative(item: Seq<char>) -> Option<(Seq<Seq<char>>, Seq<i64>)> {
    if !spec_contains(item, "のいずれか"@) && !spec_contains(item, "いずれかの"@) {
        None
    } else {
        let decls = spec_find_var_decls(item);
        if decls.len() == 0 {
            None
        } else {
            let rest = decls[0].1;
            let p = match spec_find(rest, "のいずれか"@) {
                Some(p) => Some(p),
                None => spec_find(rest, "いずれかの"@),
            };
            match p {
                None => None,
                Some(p) => {
                    let nums = parse_nums(crate::text::spec_split_any(rest.take(p), seq![',', '、', ' ']));
                    if nums.len() == 0 {
                        None
                    } else {
                        Some((decls[0].0, nums))
                    }
                },
            }
        }
    }
}

pub fn parse_either_alternative(item: &str) -> (r: Option<(Vec<String>, Vec<i64>)>)
    ensures
        match r {
            Some(d) => spec_parse_either_alternative(item@) == Some((sv(d.0@), d.1@)),
            None => spec_parse_either_alternative(item@) is None,
        },
{
    let it = chars_of(item);
    if !contains_str(&it, "のいずれか") && !contains_str(&it, "いずれかの") {
        return None;
    }
    let mut decls = find_var_decls(item);
    if decls.len() == 0 {
        return None;
    }
    assert(decls_view(decls@)[0] == crate::parse::normalize::decl_view(decls@[0]));
    let (names, rest) = decls.swap_remove(0);
    let rc = chars_of(rest.as_str());
    let p = match find_str(&rc, "のいずれか") {
        Some(p) => p,
        None => match find_str(&rc, "いずれかの") {
            Some(p) => p,
            None => return None,
        },
    };
    let head = copy_range(&rc, 0, p);
    assert(head@ =~= rc@.take(p as int));
    let mut seps: Vec<char> = Vec::new();
    seps.push(',');
    seps.push('、');
    seps.push(' ');
    assert(seps@ =~= seq![',', '、', ' ']);
    let nums = parse_nums_exec(&crate::text::split_any(&head, &seps));
    if nums.len() == 0 {
        return None;
    }
    Some((names, nums))
}

pub open spec fn spec_parse_in_set(item: Seq<char>) -> Option<(Seq<Seq<char>>, Seq<i64>)> {
    match spec_find(item, "\\in"@) {
        None => None,
        Some(ip) => {
            let vars_str = spec_trim(item.take(ip));
            let rest = spec_trim(crate::text::spec_trim_start_matches(item.skip(ip), "\\in"@));
            let c = spec_trim(
                crate::text::spec_trim_start_matches(
                    crate::text::spec_trim_start_matches(rest, "\\lbrace"@),
                    "\\{"@,
                ),
            );
            let c = spec_trim(
                crate::text::spec_trim_end_matches(
                    crate::text::spec_trim_end_matches(c, "\\rbrace"@),
                    "\\}"@,
                ),
            );
            let nums = parse_nums(crate::text::spec_split_char(c, ','));
            if nums.len() == 0 {
                None
            } else {
                let names = crate::parse::normalize::spec_extract_var_names(vars_str);
                if names.len() == 0 {
                    None
                } else {
                    Some((names, nums))
                }
            }
        },
    }
}

pub fn parse_in_set(item: &str) -> (r: Option<(Vec<String>, Vec<i64>)>)
    ensures
        match r {
            Some(d) => spec_parse_in_set(item@) == Some((sv(d.0@), d.1@)),
            None => spec_parse_in_set(item@) is None,
        },
{
    let it = chars_of(item);
    let ip = match find_str(&it, "\\in") {
        Some(p) => p,
        None => return None,
    };
    let head = copy_range(&it, 0, ip);
    let tail = copy_range(&it, ip, it.len());
    assert(head@ =~= it@.take(ip as int));
    assert(tail@ =~= it@.skip(ip as int));
    let vars_str = trim(&head);
    let rest = trim(&crate::text::trim_start_matches(&tail, "\\in"));
    let c = trim(
        &crate::text::trim_start_matches(&crate::text::trim_start_matches(&rest, "\\lbrace"), "\\{"),
    );
    let c = trim(
        &crate::text::trim_end_matches(&crate::text::trim_end_matches(&c, "\\rbrace"), "\\}"),
    );
    let nums = parse_nums_exec(&crate::text::split_char(&c, ','));
    if nums.len() == 0 {
        return None;
    }
    let names = crate::parse::normalize::extract_var_names(string_of(&vars_str).as_str());
    if names.len() == 0 {
        return None;
    }
    Some((names, nums))
}

pub open spec fn spec_register_enum(m: ConstraintParseM, vars: Seq<Seq<char>>, values: Seq<i64>) -> ConstraintParseM {
    ConstraintParseM {
        enum_values: m_insert_all(m.enum_values, vars, values),
        num_vars: m_remove_all(m.num_vars, vars),
        ..m
    }
}

/// Record `values` as the value set of each variable of `vars`; an
/// enumeration replaces any range.
pub fn register_enum(acc: &mut ConstraintParse, vars: &Vec<String>, values: &Vec<i64>)
    ensures
        final(acc).model() == spec_register_enum(old(acc).model(), sv(vars@), values@),
{
    let ghost m0 = acc.model();
    let ghost vs = sv(vars@);
    let mut j: usize = 0;
    assert(vs.take(0) =~= Seq::<Seq<char>>::empty());
    while j < vars.len()
        invariant
            vs == sv(vars@),
            j <= vars@.len(),
            acc.model() == spec_register_enum(m0, vs.take(j as int), values@),
        decreases vars.len() - j,
    {
        assert(vs.take(j + 1).drop_last() =~= vs.take(j as int));
        assert(vs.take(j + 1).last() == vars@[j as int]@);
        let vals = copy_i64s(values);
        acc.enum_values.insert(vars[j].clone(), vals);
        acc.num_vars.remove(vars[j].as_str());
        j += 1;
    }
    assert(vs.take(vars@.len() as int) =~= vs);
}

fn copy_i64s(v: &Vec<i64>) -> (r: Vec<i64>)
    ensures
        r@ == v@,
        r.deep_view() == v@,
{
    let mut out: Vec<i64> = Vec::new();
    let mut i: usize = 0;
    while i < v.len()
        invariant
            i <= v@.len(),
            out@ == v@.take(i as int),
        decreases v.len() - i,
    {
        out.push(v[i]);
        assert(out@ =~= v@.take(i + 1));
        i += 1;
    }
    assert(v@.take(v@.len() as int) =~= v@);
    assert(out.deep_view() =~= out@);
    out
}

pub open spec fn spec_try_enum(item: Seq<char>, m: ConstraintParseM) -> (bool, ConstraintParseM) {
    match spec_parse_either_alternative(item) {
        Some(d) => (true, spec_register_enum(m, d.0, d.1)),
        None => match spec_parse_in_set(item) {
            Some(d) => (true, spec_register_enum(m, d.0, d.1)),
            None => (false, m),
        },
    }
}

/// `B は 1, 2 のいずれか` or `X \in \{1, 2\}`: an enumeration.
pub fn try_enum(item: &str, acc: &mut ConstraintParse) -> (r: bool)
    ensures
        (r, final(acc).model()) == spec_try_enum(item@, old(acc).model()),
{
    match parse_either_alternative(item) {
        Some((vars, vals)) => {
            register_enum(acc, &vars, &vals);
            return true;
        },
        None => {},
    }
    match parse_in_set(item) {
        Some((vars, vals)) => {
            register_enum(acc, &vars, &vals);
            true
        },
        None => false,
    }
}

// ─── `… はすべて相異なる` ───────────────────────────────────────────────────────

pub open spec fn spec_try_all_distinct(item: Seq<char>, m: ConstraintParseM) -> (bool, ConstraintParseM) {
    if !spec_contains(item, "相異なる"@) {
        (false, m)
    } else {
        let var_part = match spec_find(item, "はすべて相異なる"@) {
            Some(p) => item.take(p),
            None => item,
        };
        let vars = crate::parse::normalize::spec_extract_var_names(var_part);
        if vars.len() == 0 {
            (false, m)
        } else {
            (true, ConstraintParseM { all_distinct: m_insert_all(m.all_distinct, vars, ()), ..m })
        }
    }
}

/// `A_1, …, A_N はすべて相異なる`: the elements of each named array are
/// pairwise distinct.
pub fn try_all_distinct(item: &str, acc: &mut ConstraintParse) -> (r: bool)
    ensures
        (r, final(acc).model()) == spec_try_all_distinct(item@, old(acc).model()),
{
    let it = chars_of(item);
    if !contains_str(&it, "相異なる") {
        return false;
    }
    let var_part = match find_str(&it, "はすべて相異なる") {
        Some(p) => {
            assert(it@.subrange(0, p as int) =~= it@.take(p as int));
            copy_range(&it, 0, p)
        },
        None => copy_range(&it, 0, it.len()),
    };
    assert(it@.subrange(0, it@.len() as int) =~= it@);
    let vars = crate::parse::normalize::extract_var_names(string_of(&var_part).as_str());
    if vars.len() == 0 {
        return false;
    }
    let ghost m0 = acc.model();
    let ghost vs = sv(vars@);
    let mut j: usize = 0;
    assert(vs.take(0) =~= Seq::<Seq<char>>::empty());
    while j < vars.len()
        invariant
            vs == sv(vars@),
            j <= vars@.len(),
            acc.model() == (ConstraintParseM {
                all_distinct: m_insert_all(m0.all_distinct, vs.take(j as int), ()),
                ..m0
            }),
        decreases vars.len() - j,
    {
        assert(vs.take(j + 1).drop_last() =~= vs.take(j as int));
        assert(vs.take(j + 1).last() == vars@[j as int]@);
        acc.all_distinct.insert(vars[j].clone());
        j += 1;
    }
    assert(vs.take(vars@.len() as int) =~= vs);
    true
}

} // verus!

verus! {

// ─── sum limits ─────────────────────────────────────────────────────────────

/// The `_{…}` or `_x` lower index right after `\sum`.
pub const SUM_LOWER_PATTERN: &'static str = "^_\\{[^}]*\\}|^_[^\\\\^{]+";

/// The `^{…}` or `^x` upper index right after the lower one.
pub const SUM_UPPER_PATTERN: &'static str = "^\\^\\{[^}]*\\}|^\\^[^\\\\^{]";

pub open spec fn spec_try_latex_sum_limit(item: Seq<char>, m: ConstraintParseM) -> (bool, ConstraintParseM) {
    let norm = crate::text::spec_replace(
        crate::parse::normalize::spec_normalize_constraint(item),
        "\\displaystyle"@,
        ""@,
    );
    let op_at = match spec_find(norm, "<="@) {
        Some(c) => Some(c),
        None => spec_find(norm, "<"@),
    };
    match op_at {
        None => (false, m),
        Some(c) => {
            let lhs = norm.take(c);
            let rhs = crate::text::spec_trim_start_matches(
                crate::text::spec_trim_start_matches(norm.skip(c), "<="@),
                "<"@,
            );
            match spec_find(lhs, "\\sum"@) {
                None => (false, m),
                Some(sp) => {
                    let after_sum = lhs.skip(sp + "\\sum"@.len());
                    let body = crate::regex_ops::replaced_first_or_same(
                        SUM_LOWER_PATTERN@,
                        after_sum,
                        ""@,
                    );
                    let body = crate::regex_ops::replaced_first_or_same(
                        SUM_UPPER_PATTERN@,
                        body,
                        ""@,
                    );
                    let vars = crate::parse::normalize::spec_extract_var_names(body);
                    if vars.len() == 0 {
                        (false, m)
                    } else {
                        match crate::parse::bounds::spec_eval_expr(rhs) {
                            None => (false, m),
                            Some(limit) => (
                                true,
                                ConstraintParseM {
                                    sum_limits: m_insert_all(m.sum_limits, vars, limit),
                                    ..m
                                },
                            ),
                        }
                    }
                },
            }
        },
    }
}

fn insert_limits(m: &mut StrMap<i64>, names: &Vec<String>, limit: i64)
    ensures
        final(m).model() == m_insert_all(old(m).model(), sv(names@), limit),
{
    let ghost m0 = m.model();
    let ghost ns = sv(names@);
    let mut j: usize = 0;
    assert(ns.take(0) =~= Seq::<Seq<char>>::empty());
    while j < names.len()
        invariant
            ns == sv(names@),
            j <= names@.len(),
            m.model() == m_insert_all(m0, ns.take(j as int), limit),
        decreases names.len() - j,
    {
        assert(ns.take(j + 1).drop_last() =~= ns.take(j as int));
        assert(ns.take(j + 1).last() == names@[j as int]@);
        m.insert(names[j].clone(), limit);
        j += 1;
    }
    assert(ns.take(names@.len() as int) =~= ns);
}

/// `\sum_{i=1}^N L_i \le X`: the sum of the named array is at most `X`.
pub fn try_latex_sum_limit(item: &str, acc: &mut ConstraintParse) -> (r: bool)
    ensures
        (r, final(acc).model()) == spec_try_latex_sum_limit(item@, old(acc).model()),
{
    let norm = crate::text::replace_str(
        &crate::parse::normalize::normalize_constraint_chars(&chars_of(item)),
        "\\displaystyle",
        "",
    );
    let c = match find_str(&norm, "<=") {
        Some(c) => c,
        None => match find_str(&norm, "<") {
            Some(c) => c,
            None => return false,
        },
    };
    let lhs = copy_range(&norm, 0, c);
    let tail = copy_range(&norm, c, norm.len());
    assert(lhs@ =~= norm@.take(c as int));
    assert(tail@ =~= norm@.skip(c as int));
    let rhs = crate::text::trim_start_matches(&crate::text::trim_start_matches(&tail, "<="), "<");
    let sp = match find_str(&lhs, "\\sum") {
        Some(p) => p,
        None => return false,
    };
    let kw = chars_of("\\sum");
    let n = lhs.len();
    assert(sp + kw@.len() <= n);
    let after_sum = copy_range(&lhs, sp + kw.len(), n);
    assert(after_sum@ =~= lhs@.skip(sp + "\\sum"@.len()));
    let body = crate::regex_ops::replace_first_or_same(SUM_LOWER_PATTERN, &after_sum, "");
    let body = crate::regex_ops::replace_first_or_same(SUM_UPPER_PATTERN, &body, "");
    let vars = crate::parse::normalize::extract_var_names(string_of(&body).as_str());
    if vars.len() == 0 {
        return false;
    }
    let limit = match crate::parse::bounds::eval_expr_chars(&rhs) {
        Some(l) => l,
        None => return false,
    };
    insert_limits(&mut acc.sum_limits, &vars, limit);
    true
}

/// The key a sum limit goes under: a length `|name|` when the sum is over
/// lengths, the name itself otherwise.
pub open spec fn sum_target(name: Seq<char>, of_length: bool) -> Seq<char> {
    if of_length && !(name.len() > 0 && name[0] == '|') {
        seq!['|'] + name + seq!['|']
    } else {
        name
    }
}

pub open spec fn insert_sum_targets(
    m: Seq<(Seq<char>, i64)>,
    names: Seq<Seq<char>>,
    of_length: bool,
    limit: i64,
) -> Seq<(Seq<char>, i64)>
    decreases names.len(),
{
    if names.len() == 0 {
        m
    } else {
        m_insert(
            insert_sum_targets(m, names.drop_last(), of_length, limit),
            sum_target(names.last(), of_length),
            limit,
        )
    }
}

pub open spec fn spec_try_sum_limit(item: Seq<char>, m: ConstraintParseM) -> (bool, ConstraintParseM) {
    let latex = spec_try_latex_sum_limit(item, m);
    if spec_contains(item, "\\sum"@) && latex.0 {
        latex
    } else {
        match spec_find(item, "の総和は"@) {
            None => (false, m),
            Some(pos) => {
                let before = item.take(pos);
                if before.contains('^') {
                    (false, m)
                } else {
                    let names = crate::parse::normalize::spec_extract_var_names(before);
                    if names.len() == 0 {
                        (false, m)
                    } else {
                        let after = item.skip(pos + "の総和は"@.len());
                        let limit_raw = spec_trim(
                            match spec_find(after, "以下"@) {
                                Some(i) => after.take(i),
                                None => match spec_find(after, "を超えない"@) {
                                    Some(i) => after.take(i),
                                    None => seq![],
                                },
                            },
                        );
                        match crate::parse::bounds::spec_eval_expr(
                            crate::parse::normalize::spec_normalize_constraint(limit_raw),
                        ) {
                            None => (false, m),
                            Some(limit) => {
                                let of_length = crate::text::spec_ends_with(
                                    crate::text::spec_trim_end(before),
                                    "の長さ"@,
                                );
                                (
                                    true,
                                    ConstraintParseM {
                                        sum_limits: insert_sum_targets(
                                            m.sum_limits,
                                            names,
                                            of_length,
                                            limit,
                                        ),
                                        ..m
                                    },
                                )
                            },
                        }
                    }
                }
            },
        }
    }
}

fn sum_target_exec(name: &String, of_length: bool) -> (r: String)
    ensures
        r@ == sum_target(name@, of_length),
{
    let c = chars_of(name.as_str());
    if of_length && !(c.len() > 0 && c[0] == '|') {
        let mut out: Vec<char> = Vec::new();
        out.push('|');
        append_chars(&mut out, &c);
        out.push('|');
        assert(out@ =~= seq!['|'] + name@ + seq!['|']);
        string_of(&out)
    } else {
        name.clone()
    }
}

/// `X の総和は Y 以下` (or a `\sum … \le Y`): the sum of `X` over all test
/// cases is at most `Y`.
pub fn try_sum_limit(item: &str, acc: &mut ConstraintParse) -> (r: bool)
    ensures
        (r, final(acc).model()) == spec_try_sum_limit(item@, old(acc).model()),
{
    let it = chars_of(item);
    if contains_str(&it, "\\sum") && try_latex_sum_limit(item, acc) {
        return true;
    }
    let pos = match find_str(&it, "の総和は") {
        Some(p) => p,
        None => return false,
    };
    let before = copy_range(&it, 0, pos);
    assert(before@ =~= it@.take(pos as int));
    if contains_char(&before, '^') {
        return false;
    }
    let names = crate::parse::normalize::extract_var_names(string_of(&before).as_str());
    if names.len() == 0 {
        return false;
    }
    let kw = chars_of("の総和は");
    let n = it.len();
    assert(pos + kw@.len() <= n);
    let after = copy_range(&it, pos + kw.len(), n);
    assert(after@ =~= it@.skip(pos + "の総和は"@.len()));
    let raw = match find_str(&after, "以下") {
        Some(i) => copy_range(&after, 0, i),
        None => match find_str(&after, "を超えない") {
            Some(i) => copy_range(&after, 0, i),
            None => Vec::new(),
        },
    };
    assert(forall|i: int| 0 <= i <= after@.len() ==> after@.subrange(0, i) =~= after@.take(i));
    let limit_raw = trim(&raw);
    let limit = match crate::parse::bounds::eval_expr_chars(
        &crate::parse::normalize::normalize_constraint_chars(&limit_raw),
    ) {
        Some(l) => l,
        None => return false,
    };
    let of_length = crate::text::ends_with_str(&crate::text::trim_end(&before), "の長さ");
    let ghost m0 = acc.model();
    let ghost ns = sv(names@);
    let mut j: usize = 0;
    assert(ns.take(0) =~= Seq::<Seq<char>>::empty());
    while j < names.len()
        invariant
            ns == sv(names@),
            j <= names@.len(),
            acc.model() == (ConstraintParseM {
                sum_limits: insert_sum_targets(m0.sum_limits, ns.take(j as int), of_length, limit),
                ..m0
            }),
        decreases names.len() - j,
    {
        assert(ns.take(j + 1).drop_last() =~= ns.take(j as int));
        assert(ns.take(j + 1).last() == names@[j as int]@);
        let target = sum_target_exec(&names[j], of_length);
        acc.sum_limits.insert(target, limit);
        j += 1;
    }
    assert(ns.take(names@.len() as int) =~= ns);
    true
}

// ─── items about a known string ─────────────────────────────────────────────

pub open spec fn spec_is_already_string_constraint(item: Seq<char>, m: ConstraintParseM) -> bool {
    let t = spec_strip_html_tags(item);
    match spec_find(t, " は"@) {
        None => false,
        Some(h) => {
            let vars = crate::parse::normalize::spec_extract_var_names(spec_trim(t.take(h)));
            vars.len() > 0 && forall|i: int| 0 <= i < vars.len() ==> m_has(m.str_vars, #[trigger] vars[i])
        },
    }
}

/// An item whose subject (`… は`) names only declared strings is theirs
/// (e.g. `S に含まれる文字は …`), not a numeric constraint.
pub fn is_already_string_constraint(item: &str, acc: &ConstraintParse) -> (r: bool)
    ensures
        r == spec_is_already_string_constraint(item@, acc.model()),
{
    let t = strip_html_tags_chars(&chars_of(item));
    let h = match find_str(&t, " は") {
        Some(h) => h,
        None => return false,
    };
    let head = copy_range(&t, 0, h);
    assert(head@ =~= t@.take(h as int));
    let vars = crate::parse::normalize::extract_var_names(string_of(&trim(&head)).as_str());
    assert(sv(vars@) == crate::parse::normalize::spec_extract_var_names(spec_trim(t@.take(h as int))));
    if vars.len() == 0 {
        return false;
    }
    let mut j: usize = 0;
    while j < vars.len()
        invariant
            j <= vars@.len(),
            t@ == spec_strip_html_tags(item@),
            spec_find(t@, " は"@) == Some(h as int),
            sv(vars@) == crate::parse::normalize::spec_extract_var_names(spec_trim(t@.take(h as int))),
            forall|i: int| 0 <= i < j ==> m_has(acc.model().str_vars, #[trigger] sv(vars@)[i]),
        decreases vars.len() - j,
    {
        if !acc.str_vars.contains_key(vars[j].as_str()) {
            assert(sv(vars@)[j as int] == vars@[j as int]@);
            assert(!m_has(acc.model().str_vars, sv(vars@)[j as int]));
            return false;
        }
        assert(sv(vars@)[j as int] == vars@[j as int]@);
        j += 1;
    }
    true
}

} // verus!

verus! {

// ─── inequality chains ──────────────────────────────────────────────────────

/// `X は A 以上 B 以下` with prose allowed between the parts.
pub const NAT_BOTH_PATTERN: &'static str = "((?:\\|[A-Za-z][A-Za-z0-9]*(?:_(?:\\{[^}]*\\}|[A-Za-z0-9]+))?\\||[A-Za-z][A-Za-z0-9]*(?:_(?:\\{[^}]*\\}|[A-Za-z0-9]+))?)(?:[、,](?:\\|[A-Za-z][A-Za-z0-9]*(?:_(?:\\{[^}]*\\}|[A-Za-z0-9]+))?\\||[A-Za-z][A-Za-z0-9]*(?:_(?:\\{[^}]*\\}|[A-Za-z0-9]+))?))*)[^0-9<>=]*?([0-9A-Za-z^*+\\-{}().\\\\]+)以上[^0-9<>=]*?([0-9A-Za-z^*+\\-{}().\\\\]+)以下";

/// `X は A 以上`.
pub const NAT_LO_PATTERN: &'static str = "((?:\\|[A-Za-z][A-Za-z0-9]*(?:_(?:\\{[^}]*\\}|[A-Za-z0-9]+))?\\||[A-Za-z][A-Za-z0-9]*(?:_(?:\\{[^}]*\\}|[A-Za-z0-9]+))?)(?:[、,](?:\\|[A-Za-z][A-Za-z0-9]*(?:_(?:\\{[^}]*\\}|[A-Za-z0-9]+))?\\||[A-Za-z][A-Za-z0-9]*(?:_(?:\\{[^}]*\\}|[A-Za-z0-9]+))?))*)[^0-9<>=]*?([0-9A-Za-z^*+\\-{}().\\\\]+)以上";

/// `X は B 以下`.
pub const NAT_HI_PATTERN: &'static str = "((?:\\|[A-Za-z][A-Za-z0-9]*(?:_(?:\\{[^}]*\\}|[A-Za-z0-9]+))?\\||[A-Za-z][A-Za-z0-9]*(?:_(?:\\{[^}]*\\}|[A-Za-z0-9]+))?)(?:[、,](?:\\|[A-Za-z][A-Za-z0-9]*(?:_(?:\\{[^}]*\\}|[A-Za-z0-9]+))?\\||[A-Za-z][A-Za-z0-9]*(?:_(?:\\{[^}]*\\}|[A-Za-z0-9]+))?))*)[^0-9<>=]*?([0-9A-Za-z^*+\\-{}().\\\\]+)以下";

/// A parenthesised index range such as `(1<=i<=N)`.
pub const INDEX_RANGE_PATTERN: &'static str = "\\([^()]*(?:<=|>=|<|>)[^()]*\\)";

/// Whether a text holds a comparison operator.
pub open spec fn has_compare_op(s: Seq<char>) -> bool {
    spec_contains(s, "<="@) || spec_contains(s, ">="@) || spec_contains(s, "!="@) || s.contains(
        '<',
    ) || s.contains('>')
}

pub open spec fn keep_with_ops(chunks: Seq<Seq<char>>) -> Seq<Seq<char>>
    decreases chunks.len(),
{
    if chunks.len() == 0 {
        seq![]
    } else {
        let prev = keep_with_ops(chunks.drop_last());
        if has_compare_op(chunks.last()) {
            prev.push(chunks.last())
        } else {
            prev
        }
    }
}

pub open spec fn ascii_or_nul(s: Seq<char>) -> Seq<char> {
    s.map_values(|c: char| if crate::text::spec_is_ascii(c) { c } else { '\0' })
}

/// The ASCII runs of `item` that hold a comparison operator.
pub open spec fn spec_extract_ascii_inequality_fragments(item: Seq<char>) -> Seq<Seq<char>> {
    keep_with_ops(crate::text::spec_split_char(ascii_or_nul(item), '\0'))
}

fn has_compare_op_exec(s: &Vec<char>) -> (r: bool)
    ensures
        r == has_compare_op(s@),
{
    contains_str(s, "<=") || contains_str(s, ">=") || contains_str(s, "!=") || contains_char(s, '<')
        || contains_char(s, '>')
}

pub fn extract_ascii_inequality_fragments_chars(item: &Vec<char>) -> (r: Vec<String>)
    ensures
        sv(r@) == spec_extract_ascii_inequality_fragments(item@),
{
    let mut rep: Vec<char> = Vec::new();
    let mut i: usize = 0;
    while i < item.len()
        invariant
            i <= item@.len(),
            rep@ == ascii_or_nul(item@.take(i as int)),
        decreases item.len() - i,
    {
        let c = item[i];
        rep.push(if crate::text::is_ascii(c) { c } else { '\0' });
        assert(rep@ =~= ascii_or_nul(item@.take(i + 1)));
        i += 1;
    }
    assert(item@.take(item@.len() as int) =~= item@);
    let chunks = crate::text::split_char(&rep, '\0');
    let ghost cs = crate::text::vv(chunks@);
    let mut out: Vec<String> = Vec::new();
    let mut k: usize = 0;
    assert(cs.take(0) =~= Seq::<Seq<char>>::empty());
    assert(sv(out@) =~= Seq::<Seq<char>>::empty());
    while k < chunks.len()
        invariant
            cs == crate::text::vv(chunks@),
            k <= chunks@.len(),
            sv(out@) == keep_with_ops(cs.take(k as int)),
        decreases chunks.len() - k,
    {
        assert(cs.take(k + 1).drop_last() =~= cs.take(k as int));
        assert(cs.take(k + 1).last() == chunks@[k as int]@);
        if has_compare_op_exec(&chunks[k]) {
            let s = string_of(&chunks[k]);
            proof {
                lemma_sv_push(out@, s);
            }
            out.push(s);
        }
        k += 1;
    }
    assert(cs.take(chunks@.len() as int) =~= cs);
    out
}

/// The ASCII runs of `item` that hold a comparison operator: inequality
/// chains written inside Japanese prose.
pub fn extract_ascii_inequality_fragments(item: &str) -> (r: Vec<String>)
    ensures
        sv(r@) == spec_extract_ascii_inequality_fragments(item@),
{
    extract_ascii_inequality_fragments_chars(&chars_of(item))
}

pub open spec fn spec_normalize_for_inequality(item: Seq<char>) -> Seq<char> {
    let t = crate::parse::normalize::spec_normalize_constraint(spec_strip_html_tags(item));
    let t = crate::text::spec_replace(t, "\\neq"@, "!="@);
    let t = crate::text::spec_replace(t, "\\ne"@, "!="@);
    let t = crate::text::spec_replace(t, "\\left("@, "("@);
    let t = crate::text::spec_replace(t, "\\right)"@, ")"@);
    let t = crate::regex_ops::replaced_all_or_same(NAT_BOTH_PATTERN@, t, "$2<=$1<=$3"@);
    let t = crate::regex_ops::replaced_all_or_same(NAT_LO_PATTERN@, t, "$2<=$1"@);
    let t = crate::regex_ops::replaced_all_or_same(NAT_HI_PATTERN@, t, "$1<=$2"@);
    crate::regex_ops::replaced_all_or_same(INDEX_RANGE_PATTERN@, t, ""@)
}

/// Tags removed, operators normalized, `X は A 以上 B 以下` rewritten as
/// `A<=X<=B`, and parenthesised index ranges dropped.
pub fn normalize_for_inequality(item: &str) -> (r: Vec<char>)
    ensures
        r@ == spec_normalize_for_inequality(item@),
{
    let t = crate::parse::normalize::normalize_constraint_chars(
        &strip_html_tags_chars(&chars_of(item)),
    );
    let t = crate::text::replace_str(&t, "\\neq", "!=");
    let t = crate::text::replace_str(&t, "\\ne", "!=");
    let t = crate::text::replace_str(&t, "\\left(", "(");
    let t = crate::text::replace_str(&t, "\\right)", ")");
    let t = crate::regex_ops::replace_all_or_same(NAT_BOTH_PATTERN, &t, "$2<=$1<=$3");
    let t = crate::regex_ops::replace_all_or_same(NAT_LO_PATTERN, &t, "$2<=$1");
    let t = crate::regex_ops::replace_all_or_same(NAT_HI_PATTERN, &t, "$1<=$2");
    crate::regex_ops::replace_all_or_same(INDEX_RANGE_PATTERN, &t, "")
}

pub open spec fn spec_is_safe_for_inequality(norm: Seq<char>) -> bool {
    !spec_contains(norm, "dfrac"@) && !spec_contains(norm, "frac"@) && !spec_contains(norm, "sqrt"@)
}

/// Fractions and roots are not chains this parser can read.
pub fn is_safe_for_inequality(norm: &Vec<char>) -> (r: bool)
    ensures
        r == spec_is_safe_for_inequality(norm@),
{
    !contains_str(norm, "dfrac") && !contains_str(norm, "frac") && !contains_str(norm, "sqrt")
}

pub open spec fn is_parenthesised(s: Seq<char>) -> bool {
    s.len() > 0 && s[0] == '(' && s[s.len() - 1] == ')'
}

/// One `a != b` step of a chain: recorded when both sides name exactly one
/// variable and neither is a tuple.
pub open spec fn ne_step(
    tokens: Seq<Seq<char>>,
    ops: Seq<Seq<char>>,
    j: int,
    acc: (bool, Seq<(Seq<char>, Seq<char>)>),
) -> (bool, Seq<(Seq<char>, Seq<char>)>) {
    if ops[j] != "!="@ {
        acc
    } else {
        let lt = spec_trim(tokens[j]);
        let rt = spec_trim(tokens[j + 1]);
        if is_parenthesised(lt) || is_parenthesised(rt) {
            acc
        } else {
            let lv = crate::parse::normalize::spec_extract_var_names(lt);
            let rv = crate::parse::normalize::spec_extract_var_names(rt);
            if lv.len() == 1 && rv.len() == 1 {
                (true, pairs_add(acc.1, (lv[0], rv[0])))
            } else {
                acc
            }
        }
    }
}

pub open spec fn ne_upto(
    tokens: Seq<Seq<char>>,
    ops: Seq<Seq<char>>,
    k: int,
    start: Seq<(Seq<char>, Seq<char>)>,
) -> (bool, Seq<(Seq<char>, Seq<char>)>)
    decreases k,
{
    if k <= 0 {
        (false, start)
    } else {
        ne_step(tokens, ops, k - 1, ne_upto(tokens, ops, k - 1, start))
    }
}

fn trimmed_names(tok: &String) -> (r: Vec<String>)
    ensures
        sv(r@) == crate::parse::normalize::spec_extract_var_names(spec_trim(tok@)),
{
    crate::parse::normalize::extract_var_names(string_of(&trim(&chars_of(tok.as_str()))).as_str())
}

fn is_parenthesised_exec(s: &Vec<char>) -> (r: bool)
    ensures
        r == is_parenthesised(s@),
{
    s.len() > 0 && s[0] == '(' && s[s.len() - 1] == ')'
}

/// `a != b` steps of a chain.
pub fn register_var_ne(tokens: &Vec<String>, ops: &Vec<String>, set: &mut PairSet) -> (r: bool)
    requires
        tokens@.len() == ops@.len() + 1,
    ensures
        (r, final(set).model()) == ne_upto(sv(tokens@), sv(ops@), ops@.len() as int, old(set).model()),
{
    let ghost s0 = set.model();
    let mut handled = false;
    let mut j: usize = 0;
    while j < ops.len()
        invariant
            tokens@.len() == ops@.len() + 1,
            j <= ops@.len(),
            (handled, set.model()) == ne_upto(sv(tokens@), sv(ops@), j as int, s0),
        decreases ops.len() - j,
    {
        assert(sv(ops@)[j as int] == ops@[j as int]@);
        assert(sv(tokens@)[j as int] == tokens@[j as int]@);
        assert(sv(tokens@)[j + 1] == tokens@[j + 1]@);
        if crate::text::str_eq(ops[j].as_str(), "!=") {
            let lt = trim(&chars_of(tokens[j].as_str()));
            let rt = trim(&chars_of(tokens[j + 1].as_str()));
            if !is_parenthesised_exec(&lt) && !is_parenthesised_exec(&rt) {
                let lv = trimmed_names(&tokens[j]);
                let rv = trimmed_names(&tokens[j + 1]);
                if lv.len() == 1 && rv.len() == 1 {
                    assert(sv(lv@)[0] == lv@[0]@);
                    assert(sv(rv@)[0] == rv@[0]@);
                    set.insert((lv[0].clone(), rv[0].clone()));
                    handled = true;
                }
            }
        }
        j += 1;
    }
    handled
}

/// `l <= r` for every `l` of `lv` and `r` of `rv`, row by row.
pub open spec fn le_row(
    acc: (bool, Seq<(Seq<char>, Seq<char>)>),
    l: Seq<char>,
    rv: Seq<Seq<char>>,
    b: int,
) -> (bool, Seq<(Seq<char>, Seq<char>)>)
    decreases b,
{
    if b <= 0 {
        acc
    } else {
        (true, pairs_add(le_row(acc, l, rv, b - 1).1, (l, rv[b - 1])))
    }
}

pub open spec fn le_cross(
    acc: (bool, Seq<(Seq<char>, Seq<char>)>),
    lv: Seq<Seq<char>>,
    rv: Seq<Seq<char>>,
    a: int,
) -> (bool, Seq<(Seq<char>, Seq<char>)>)
    decreases a,
{
    if a <= 0 {
        acc
    } else {
        le_row(le_cross(acc, lv, rv, a - 1), lv[a - 1], rv, rv.len() as int)
    }
}

pub open spec fn le_step(
    tokens: Seq<Seq<char>>,
    ops: Seq<Seq<char>>,
    j: int,
    acc: (bool, Seq<(Seq<char>, Seq<char>)>),
) -> (bool, Seq<(Seq<char>, Seq<char>)>) {
    let left = crate::parse::normalize::spec_extract_var_names(spec_trim(tokens[j]));
    let right = crate::parse::normalize::spec_extract_var_names(spec_trim(tokens[j + 1]));
    if is_le_op(ops[j]) {
        le_cross(acc, left, right, left.len() as int)
    } else if is_ge_op(ops[j]) {
        le_cross(acc, right, left, right.len() as int)
    } else {
        acc
    }
}

pub open spec fn le_upto(
    tokens: Seq<Seq<char>>,
    ops: Seq<Seq<char>>,
    k: int,
    start: Seq<(Seq<char>, Seq<char>)>,
) -> (bool, Seq<(Seq<char>, Seq<char>)>)
    decreases k,
{
    if k <= 0 {
        (false, start)
    } else {
        le_step(tokens, ops, k - 1, le_upto(tokens, ops, k - 1, start))
    }
}

fn add_cross(lv: &Vec<String>, rv: &Vec<String>, set: &mut PairSet, handled: bool) -> (r: bool)
    ensures
        (r, final(set).model()) == le_cross(
            (handled, old(set).model()),
            sv(lv@),
            sv(rv@),
            lv@.len() as int,
        ),
{
    let ghost s0 = set.model();
    let mut h = handled;
    let mut a: usize = 0;
    while a < lv.len()
        invariant
            a <= lv@.len(),
            (h, set.model()) == le_cross((handled, s0), sv(lv@), sv(rv@), a as int),
        decreases lv.len() - a,
    {
        let ghost before = (h, set.model());
        let mut b: usize = 0;
        assert(sv(lv@)[a as int] == lv@[a as int]@);
        while b < rv.len()
            invariant
                a < lv@.len(),
                b <= rv@.len(),
                (h, set.model()) == le_row(before, lv@[a as int]@, sv(rv@), b as int),
            decreases rv.len() - b,
        {
            assert(sv(rv@)[b as int] == rv@[b as int]@);
            set.insert((lv[a].clone(), rv[b].clone()));
            h = true;
            b += 1;
        }
        a += 1;
    }
    h
}

/// `a <= b` (and `b >= a`) steps of a chain, between every variable of one
/// side and every variable of the other.
pub fn register_var_le(tokens: &Vec<String>, ops: &Vec<String>, set: &mut PairSet) -> (r: bool)
    requires
        tokens@.len() == ops@.len() + 1,
    ensures
        (r, final(set).model()) == le_upto(sv(tokens@), sv(ops@), ops@.len() as int, old(set).model()),
{
    let ghost s0 = set.model();
    let mut handled = false;
    let mut j: usize = 0;
    while j < ops.len()
        invariant
            tokens@.len() == ops@.len() + 1,
            j <= ops@.len(),
            (handled, set.model()) == le_upto(sv(tokens@), sv(ops@), j as int, s0),
        decreases ops.len() - j,
    {
        assert(sv(ops@)[j as int] == ops@[j as int]@);
        assert(sv(tokens@)[j as int] == tokens@[j as int]@);
        assert(sv(tokens@)[j + 1] == tokens@[j + 1]@);
        if is_le_op_exec(&ops[j]) {
            let lv = trimmed_names(&tokens[j]);
            let rv = trimmed_names(&tokens[j + 1]);
            handled = add_cross(&lv, &rv, set, handled);
        } else if is_ge_op_exec(&ops[j]) {
            let lv = trimmed_names(&tokens[j + 1]);
            let rv = trimmed_names(&tokens[j]);
            handled = add_cross(&lv, &rv, set, handled);
        }
        j += 1;
    }
    handled
}

} // verus!

verus! {

/// A new bound for a slot: a literal already there is kept against a
/// variable reference; otherwise the new bound replaces the slot.
pub open spec fn spec_assign_bound(slot: Option<BoundM>, new: BoundM) -> (bool, Option<BoundM>) {
    match (slot, new) {
        (Some(BoundM::Lit(_)), BoundM::Var(_, _)) => (false, slot),
        _ => (true, Some(new)),
    }
}

pub open spec fn assign_opt(slot: Option<BoundM>, new: Option<BoundM>) -> (bool, Option<BoundM>) {
    match new {
        Some(b) => spec_assign_bound(slot, b),
        None => (false, slot),
    }
}

/// Update a bound slot, preferring a literal already there over a variable
/// reference; says whether the slot changed.
pub fn assign_bound(slot: &mut Option<BoundExpr>, new: BoundExpr) -> (r: bool)
    ensures
        (r, final(slot).deep_view()) == spec_assign_bound(old(slot).deep_view(), new.deep_view()),
{
    let keep = match (&*slot, &new) {
        (Some(BoundExpr::Lit(_)), BoundExpr::Var { .. }) => true,
        _ => false,
    };
    if keep {
        false
    } else {
        *slot = Some(new);
        true
    }
}

pub open spec fn bound_vars(
    acc: (bool, Seq<(Seq<char>, NumBoundM)>),
    vars: Seq<Seq<char>>,
    lo: Option<BoundM>,
    hi: Option<BoundM>,
    ev: Seq<(Seq<char>, Seq<i64>)>,
) -> (bool, Seq<(Seq<char>, NumBoundM)>)
    decreases vars.len(),
{
    if vars.len() == 0 {
        acc
    } else {
        let prev = bound_vars(acc, vars.drop_last(), lo, hi, ev);
        let v = vars.last();
        if m_has(ev, v) {
            prev
        } else {
            let entry = match m_get(prev.1, v) {
                Some(e) => e,
                None => (None, None),
            };
            let a = assign_opt(entry.0, lo);
            let b = assign_opt(entry.1, hi);
            (prev.0 || a.0 || b.0, m_insert(prev.1, v, (a.1, b.1)))
        }
    }
}

pub open spec fn starts_with_digit(s: Seq<char>) -> bool {
    s.len() > 0 && crate::text::spec_is_ascii_digit(s[0])
}

pub open spec fn any_numeric_part(parts: Seq<Seq<char>>) -> bool {
    exists|i: int| 0 <= i < parts.len() && starts_with_digit(spec_trim(#[trigger] parts[i]))
}

pub open spec fn chain_lo(tokens: Seq<Seq<char>>, ops: Seq<Seq<char>>, i: int) -> Option<BoundM> {
    if i > 0 && is_le_op(ops[i - 1]) {
        crate::parse::bounds::spec_parse_bound_expr(spec_trim(tokens[i - 1]))
    } else if i < ops.len() && is_ge_op(ops[i]) {
        crate::parse::bounds::spec_parse_bound_expr(spec_trim(tokens[i + 1]))
    } else {
        None
    }
}

pub open spec fn chain_hi(tokens: Seq<Seq<char>>, ops: Seq<Seq<char>>, i: int) -> Option<BoundM> {
    if i < ops.len() && is_le_op(ops[i]) {
        crate::parse::bounds::spec_parse_bound_expr(spec_trim(tokens[i + 1]))
    } else if i > 0 && is_ge_op(ops[i - 1]) {
        crate::parse::bounds::spec_parse_bound_expr(spec_trim(tokens[i - 1]))
    } else {
        None
    }
}

/// The bounds operand `i` of a chain gets from its neighbours.
pub open spec fn num_step(
    tokens: Seq<Seq<char>>,
    ops: Seq<Seq<char>>,
    i: int,
    acc: (bool, Seq<(Seq<char>, NumBoundM)>),
    ev: Seq<(Seq<char>, Seq<i64>)>,
) -> (bool, Seq<(Seq<char>, NumBoundM)>) {
    let tok = spec_trim(tokens[i]);
    if tok.contains(',') && any_numeric_part(crate::text::spec_split_char(tok, ',')) {
        acc
    } else {
        let vars = crate::parse::normalize::spec_extract_var_names(tok);
        if vars.len() == 0 {
            acc
        } else {
            let lo = chain_lo(tokens, ops, i);
            let hi = chain_hi(tokens, ops, i);
            if lo is None && hi is None {
                acc
            } else {
                bound_vars(acc, vars, lo, hi, ev)
            }
        }
    }
}

pub open spec fn num_upto(
    tokens: Seq<Seq<char>>,
    ops: Seq<Seq<char>>,
    k: int,
    start: Seq<(Seq<char>, NumBoundM)>,
    ev: Seq<(Seq<char>, Seq<i64>)>,
) -> (bool, Seq<(Seq<char>, NumBoundM)>)
    decreases k,
{
    if k <= 0 {
        (false, start)
    } else {
        num_step(tokens, ops, k - 1, num_upto(tokens, ops, k - 1, start, ev), ev)
    }
}

/// The bound of a side is a literal.
pub open spec fn lit_side(e: Option<NumBoundM>, hi: bool) -> bool {
    match e {
        Some(b) => (if hi { b.1 } else { b.0 }) matches Some(BoundM::Lit(_)),
        None => false,
    }
}

proof fn lemma_bound_vars_keeps(
    acc: (bool, Seq<(Seq<char>, NumBoundM)>),
    vars: Seq<Seq<char>>,
    lo: Option<BoundM>,
    hi: Option<BoundM>,
    ev: Seq<(Seq<char>, Seq<i64>)>,
    k: Seq<char>,
)
    ensures
        m_has(ev, k) ==> m_get(bound_vars(acc, vars, lo, hi, ev).1, k) == m_get(acc.1, k),
        lit_side(m_get(acc.1, k), false) ==> lit_side(m_get(bound_vars(acc, vars, lo, hi, ev).1, k), false),
        lit_side(m_get(acc.1, k), true) ==> lit_side(m_get(bound_vars(acc, vars, lo, hi, ev).1, k), true),
    decreases vars.len(),
{
    if vars.len() > 0 {
        lemma_bound_vars_keeps(acc, vars.drop_last(), lo, hi, ev, k);
        let prev = bound_vars(acc, vars.drop_last(), lo, hi, ev);
        let v = vars.last();
        if !m_has(ev, v) {
            let entry = match m_get(prev.1, v) {
                Some(e) => e,
                None => (None, None),
            };
            let a = assign_opt(entry.0, lo);
            let b = assign_opt(entry.1, hi);
            crate::maps::lemma_m_insert_get(prev.1, v, (a.1, b.1), k);
        }
    }
}

/// What `register_num_bounds` keeps, whatever the chain: an enumerated
/// variable's bounds are left as they were, and a literal bound stays a
/// literal (a variable reference never replaces it).
pub proof fn lemma_register_num_bounds_keeps(
    tokens: Seq<Seq<char>>,
    ops: Seq<Seq<char>>,
    n: int,
    start: Seq<(Seq<char>, NumBoundM)>,
    ev: Seq<(Seq<char>, Seq<i64>)>,
    k: Seq<char>,
)
    ensures
        m_has(ev, k) ==> m_get(num_upto(tokens, ops, n, start, ev).1, k) == m_get(start, k),
        lit_side(m_get(start, k), false) ==> lit_side(m_get(num_upto(tokens, ops, n, start, ev).1, k), false),
        lit_side(m_get(start, k), true) ==> lit_side(m_get(num_upto(tokens, ops, n, start, ev).1, k), true),
    decreases n,
{
    if n > 0 {
        lemma_register_num_bounds_keeps(tokens, ops, n - 1, start, ev, k);
        let acc = num_upto(tokens, ops, n - 1, start, ev);
        let tok = spec_trim(tokens[n - 1]);
        let vars = crate::parse::normalize::spec_extract_var_names(tok);
        lemma_bound_vars_keeps(acc, vars, chain_lo(tokens, ops, n - 1), chain_hi(tokens, ops, n - 1), ev, k);
    }
}

fn any_numeric_part_exec(tok: &Vec<char>) -> (r: bool)
    ensures
        r == any_numeric_part(crate::text::spec_split_char(tok@, ',')),
{
    let parts = crate::text::split_char(tok, ',');
    let ghost ps = crate::text::vv(parts@);
    let mut i: usize = 0;
    while i < parts.len()
        invariant
            ps == crate::text::vv(parts@),
            ps == crate::text::spec_split_char(tok@, ','),
            i <= parts@.len(),
            forall|j: int| 0 <= j < i ==> !starts_with_digit(spec_trim(#[trigger] ps[j])),
        decreases parts.len() - i,
    {
        let t = trim(&parts[i]);
        assert(ps[i as int] == parts@[i as int]@);
        if t.len() > 0 && crate::text::is_ascii_digit(t[0]) {
            assert(starts_with_digit(spec_trim(ps[i as int])));
            return true;
        }
        i += 1;
    }
    false
}

fn bound_for(tokens: &Vec<String>, k: usize) -> (r: Option<BoundExpr>)
    requires
        k < tokens@.len(),
    ensures
        r.deep_view() == crate::parse::bounds::spec_parse_bound_expr(spec_trim(sv(tokens@)[k as int])),
{
    assert(sv(tokens@)[k as int] == tokens@[k as int]@);
    crate::parse::bounds::parse_bound_expr_chars(&trim(&chars_of(tokens[k].as_str())))
}

fn num_bound_vars(
    vars: &Vec<String>,
    lo: &Option<BoundExpr>,
    hi: &Option<BoundExpr>,
    nv: &mut StrMap<NumBound>,
    ev: &StrMap<Vec<i64>>,
    handled: bool,
) -> (r: bool)
    ensures
        (r, final(nv).model()) == bound_vars(
            (handled, old(nv).model()),
            sv(vars@),
            lo.deep_view(),
            hi.deep_view(),
            ev.model(),
        ),
{
    let ghost n0 = nv.model();
    let ghost vs = sv(vars@);
    let mut h = handled;
    let mut j: usize = 0;
    assert(vs.take(0) =~= Seq::<Seq<char>>::empty());
    while j < vars.len()
        invariant
            vs == sv(vars@),
            j <= vars@.len(),
            (h, nv.model()) == bound_vars(
                (handled, n0),
                vs.take(j as int),
                lo.deep_view(),
                hi.deep_view(),
                ev.model(),
            ),
        decreases vars.len() - j,
    {
        assert(vs.take(j + 1).drop_last() =~= vs.take(j as int));
        assert(vs.take(j + 1).last() == vars@[j as int]@);
        if !ev.contains_key(vars[j].as_str()) {
            let mut e = match nv.get(vars[j].as_str()) {
                Some(x) => x.duplicate(),
                None => NumBound::new(),
            };
            let mut ch = false;
            match lo {
                Some(b) => {
                    if assign_bound(&mut e.lo, b.duplicate()) {
                        ch = true;
                    }
                },
                None => {},
            }
            match hi {
                Some(b) => {
                    if assign_bound(&mut e.hi, b.duplicate()) {
                        ch = true;
                    }
                },
                None => {},
            }
            nv.insert(vars[j].clone(), e);
            h = h || ch;
        }
        j += 1;
    }
    assert(vs.take(vars@.len() as int) =~= vs);
    h
}

/// The range each variable operand of a chain gets from its neighbours;
/// enumerated variables are left alone.
pub fn register_num_bounds(
    tokens: &Vec<String>,
    ops: &Vec<String>,
    nv: &mut StrMap<NumBound>,
    ev: &StrMap<Vec<i64>>,
) -> (r: bool)
    requires
        tokens@.len() == ops@.len() + 1,
    ensures
        (r, final(nv).model()) == num_upto(
            sv(tokens@),
            sv(ops@),
            tokens@.len() as int,
            old(nv).model(),
            ev.model(),
        ),
{
    let ghost n0 = nv.model();
    let mut handled = false;
    let mut i: usize = 0;
    while i < tokens.len()
        invariant
            tokens@.len() == ops@.len() + 1,
            i <= tokens@.len(),
            (handled, nv.model()) == num_upto(sv(tokens@), sv(ops@), i as int, n0, ev.model()),
        decreases tokens.len() - i,
    {
        assert(sv(tokens@)[i as int] == tokens@[i as int]@);
        assert(i > 0 ==> sv(ops@)[i - 1] == ops@[i - 1]@);
        assert(i < ops@.len() ==> sv(ops@)[i as int] == ops@[i as int]@);
        let tok = trim(&chars_of(tokens[i].as_str()));
        if contains_char(&tok, ',') && any_numeric_part_exec(&tok) {
            i += 1;
            continue;
        }
        let vars = crate::parse::normalize::extract_var_names(string_of(&tok).as_str());
        if vars.len() == 0 {
            i += 1;
            continue;
        }
        let lo = if i > 0 && is_le_op_exec(&ops[i - 1]) {
            bound_for(tokens, i - 1)
        } else if i < ops.len() && is_ge_op_exec(&ops[i]) {
            bound_for(tokens, i + 1)
        } else {
            None
        };
        let hi = if i < ops.len() && is_le_op_exec(&ops[i]) {
            bound_for(tokens, i + 1)
        } else if i > 0 && is_ge_op_exec(&ops[i - 1]) {
            bound_for(tokens, i - 1)
        } else {
            None
        };
        if lo.is_none() && hi.is_none() {
            i += 1;
            continue;
        }
        handled = num_bound_vars(&vars, &lo, &hi, nv, ev, handled);
        i += 1;
    }
    handled
}

pub open spec fn spec_try_inequality_chain_single(norm: Seq<char>, m: ConstraintParseM) -> (
    bool,
    ConstraintParseM,
) {
    if !spec_is_safe_for_inequality(norm) {
        (false, m)
    } else {
        let tokens = spec_tokens(norm, CHAIN_OP_PATTERN@);
        let ops = spec_ops(norm, CHAIN_OP_PATTERN@);
        if ops.len() == 0 {
            (false, m)
        } else {
            let ne = ne_upto(tokens, ops, ops.len() as int, m.var_ne);
            let le = le_upto(tokens, ops, ops.len() as int, m.var_le);
            let nb = num_upto(tokens, ops, tokens.len() as int, m.num_vars, m.enum_values);
            (
                ne.0 || le.0 || nb.0,
                ConstraintParseM { var_ne: ne.1, var_le: le.1, num_vars: nb.1, ..m },
            )
        }
    }
}

pub fn try_inequality_chain_single(norm: &Vec<char>, acc: &mut ConstraintParse) -> (r: bool)
    ensures
        (r, final(acc).model()) == spec_try_inequality_chain_single(norm@, old(acc).model()),
{
    if !is_safe_for_inequality(norm) {
        return false;
    }
    let ns = string_of(norm);
    let (tokens, ops) = tokenize_inequality(ns.as_str(), CHAIN_OP_PATTERN);
    if ops.len() == 0 {
        return false;
    }
    let h1 = register_var_ne(&tokens, &ops, &mut acc.var_ne);
    let h2 = register_var_le(&tokens, &ops, &mut acc.var_le);
    let h3 = register_num_bounds(&tokens, &ops, &mut acc.num_vars, &acc.enum_values);
    h1 || h2 || h3
}

pub open spec fn chain_fragments(frags: Seq<Seq<char>>, k: int, m: ConstraintParseM) -> (
    bool,
    ConstraintParseM,
)
    decreases k,
{
    if k <= 0 {
        (false, m)
    } else {
        let prev = chain_fragments(frags, k - 1, m);
        let r = spec_try_inequality_chain_single(frags[k - 1], prev.1);
        (prev.0 || r.0, r.1)
    }
}

pub open spec fn spec_try_inequality_chain(item: Seq<char>, m: ConstraintParseM) -> (
    bool,
    ConstraintParseM,
) {
    if spec_contains(item, "\\sum"@) {
        (false, m)
    } else {
        let frags = spec_extract_ascii_inequality_fragments(spec_normalize_for_inequality(item));
        chain_fragments(frags, frags.len() as int, m)
    }
}

/// `1 <= N <= 10^5`, `1 <= A,B <= N`, `A != B` and the like, also when
/// written inside prose.
pub fn try_inequality_chain(item: &str, acc: &mut ConstraintParse) -> (r: bool)
    ensures
        (r, final(acc).model()) == spec_try_inequality_chain(item@, old(acc).model()),
{
    if contains_str(&chars_of(item), "\\sum") {
        return false;
    }
    let norm = normalize_for_inequality(item);
    let frags = extract_ascii_inequality_fragments_chars(&norm);
    let ghost fs = sv(frags@);
    let ghost m0 = acc.model();
    let mut handled = false;
    let mut k: usize = 0;
    while k < frags.len()
        invariant
            fs == sv(frags@),
            k <= frags@.len(),
            (handled, acc.model()) == chain_fragments(fs, k as int, m0),
        decreases frags.len() - k,
    {
        assert(fs[k as int] == frags@[k as int]@);
        if try_inequality_chain_single(&chars_of(frags[k].as_str()), acc) {
            handled = true;
        }
        k += 1;
    }
    handled
}

pub open spec fn spec_is_ignorable(item: Seq<char>) -> bool {
    item.contains('は') && (spec_contains(item, "整数"@) || spec_contains(item, "正整数"@)
        || spec_contains(item, "入力は全て"@))
}

/// `… は整数` and `入力は全て整数` say nothing a generator needs.
pub fn is_ignorable(item: &str) -> (r: bool)
    ensures
        r == spec_is_ignorable(item@),
{
    let it = chars_of(item);
    contains_char(&it, 'は') && (contains_str(&it, "整数") || contains_str(&it, "正整数")
        || contains_str(&it, "入力は全て"))
}

// ─── the whole parse ────────────────────────────────────────────────────────

/// One item of pass 3: the first rule that takes it, in priority order, or
/// the skipped list.
pub open spec fn spec_item_step(m: ConstraintParseM, item: Seq<char>) -> ConstraintParseM {
    let a = spec_try_enum(item, m);
    if a.0 {
        a.1
    } else {
        let b = spec_try_all_distinct(item, a.1);
        if b.0 {
            b.1
        } else {
            let c = spec_try_sum_limit(item, b.1);
            if c.0 {
                c.1
            } else if spec_is_already_string_constraint(item, c.1) {
                c.1
            } else {
                let d = spec_try_inequality_chain(item, c.1);
                if d.0 || spec_is_ignorable(item) {
                    d.1
                } else {
                    ConstraintParseM { skipped: d.1.skipped.push(item), ..d.1 }
                }
            }
        }
    }
}

pub open spec fn spec_pass3(items: Seq<Seq<char>>, m: ConstraintParseM) -> ConstraintParseM
    decreases items.len(),
{
    if items.len() == 0 {
        m
    } else {
        spec_item_step(spec_pass3(items.drop_last(), m), items.last())
    }
}

/// The constraint items parsed: string declarations first, then their
/// length updates, then every other rule item by item; string variables
/// carry no numeric range.
pub open spec fn spec_parse_constraints(items: Seq<Seq<char>>) -> ConstraintParseM {
    let m0 = empty_parse();
    let m1 = ConstraintParseM { str_vars: spec_detect_string_decls(items, m0.str_vars), ..m0 };
    let m2 = ConstraintParseM {
        str_vars: spec_apply_abs_length_updates(items, m1.str_vars),
        ..m1
    };
    let m3 = spec_pass3(items, m2);
    ConstraintParseM {
        num_vars: m_remove_all(m3.num_vars, crate::maps::m_keys(m3.str_vars)),
        ..m3
    }
}

fn item_step(item: &String, acc: &mut ConstraintParse)
    ensures
        final(acc).model() == spec_item_step(old(acc).model(), item@),
{
    let handled = try_enum(item.as_str(), acc) || try_all_distinct(item.as_str(), acc)
        || try_sum_limit(item.as_str(), acc) || is_already_string_constraint(item.as_str(), acc)
        || try_inequality_chain(item.as_str(), acc) || is_ignorable(item.as_str());
    if !handled {
        let ghost s0 = acc.skipped@;
        acc.skipped.push(item.clone());
        proof {
            lemma_sv_push(s0, *item);
        }
    }
}

/// Parse a task's constraint items.
pub fn parse_constraints(items: &[String]) -> (r: ConstraintParse)
    ensures
        r.model() == spec_parse_constraints(sv(items@)),
{
    let mut acc = ConstraintParse::new();
    detect_string_decls(items, &mut acc);
    apply_abs_length_updates(items, &mut acc);
    let ghost m2 = acc.model();
    let mut i: usize = 0;
    assert(sv(items@).take(0) =~= Seq::<Seq<char>>::empty());
    while i < items.len()
        invariant
            i <= items@.len(),
            acc.model() == spec_pass3(sv(items@).take(i as int), m2),
        decreases items.len() - i,
    {
        assert(sv(items@).take(i + 1).drop_last() =~= sv(items@).take(i as int));
        assert(sv(items@).take(i + 1).last() == items@[i as int]@);
        item_step(&items[i], &mut acc);
        i += 1;
    }
    assert(sv(items@).take(items@.len() as int) =~= sv(items@));
    let ghost m3 = acc.model();
    let ghost keys = crate::maps::m_keys(m3.str_vars);
    let mut k: usize = 0;
    assert(keys.take(0) =~= Seq::<Seq<char>>::empty());
    while k < acc.str_vars.len()
        invariant
            m3.str_vars == acc.str_vars.model(),
            keys == crate::maps::m_keys(m3.str_vars),
            k <= keys.len(),
            acc.model() == (ConstraintParseM {
                num_vars: m_remove_all(m3.num_vars, keys.take(k as int)),
                ..m3
            }),
        decreases keys.len() - k,
    {
        assert(keys.take(k + 1).drop_last() =~= keys.take(k as int));
        let key = acc.str_vars.key_at(k).clone();
        assert(keys.take(k + 1).last() == key@);
        acc.num_vars.remove(key.as_str());
        k += 1;
    }
    assert(keys.take(keys.len() as int) =~= keys);
    acc
}

} // verus!
