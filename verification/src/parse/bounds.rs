//! Bound expressions read from constraint text: literals such as `2*10^5`,
//! variables such as `N`, and a variable with an offset such as `N-1`, and
//! their resolution to literals through already-known variable bounds.

use vstd::prelude::*;
use crate::maps::{m_get, StrMap};
use crate::text::{
    all_digits, lemma_digits_value_nonneg, lemma_find_char_absent, lemma_rfind_char_absent, lemma_rfind_char_last,
    lemma_trim_unchanged, spec_is_ascii_digit, chars_of, copy_range, find_str, is_ascii_alnum, lemma_rfind_from_some, lemma_trim_len,
    matches_at, parse_i64, rfind_str, spec_find, spec_is_ascii_alnum, spec_parse_i64, spec_rfind,
    spec_trim, string_of, trim,
};
use crate::parse::normalize::{
    name_text_char, extract_var_names, normalize_constraint_chars, spec_extract_var_names,
    spec_normalize_constraint,
};

verus! {

/// A bound: a literal, or a variable plus an integer offset (`n`, `n-1`).
#[derive(Clone, Debug, PartialEq, Eq)]
pub enum BoundExpr {
    Lit(i64),
    Var { name: String, offset: i64 },
}

/// The value a [`BoundExpr`] stands for.
pub enum BoundM {
    Lit(i64),
    Var(Seq<char>, i64),
}

impl DeepView for BoundExpr {
    type V = BoundM;

    open spec fn deep_view(&self) -> BoundM {
        match self {
            BoundExpr::Lit(n) => BoundM::Lit(*n),
            BoundExpr::Var { name, offset } => BoundM::Var(name@, *offset),
        }
    }
}

impl BoundExpr {
    /// A copy of the bound.
    pub fn duplicate(&self) -> (r: BoundExpr)
        ensures
            r.deep_view() == self.deep_view(),
    {
        match self {
            BoundExpr::Lit(n) => BoundExpr::Lit(*n),
            BoundExpr::Var { name, offset } => BoundExpr::Var { name: name.clone(), offset: *offset },
        }
    }
}

pub fn duplicate_opt(b: &Option<BoundExpr>) -> (r: Option<BoundExpr>)
    ensures
        r.deep_view() == b.deep_view(),
{
    match b {
        Some(x) => Some(x.duplicate()),
        None => None,
    }
}

/// The literal bound `n`.
pub fn b_lit(n: i64) -> (r: BoundExpr)
    ensures
        r.deep_view() == BoundM::Lit(n),
{
    BoundExpr::Lit(n)
}

/// The bound `name + offset`.
pub fn b_var(name: &str, offset: i64) -> (r: BoundExpr)
    ensures
        r.deep_view() == BoundM::Var(name@, offset),
{
    BoundExpr::Var { name: name.to_string(), offset }
}

/// Lower and upper bound of one numeric variable.
#[derive(Clone, Debug)]
pub struct NumBound {
    pub lo: Option<BoundExpr>,
    pub hi: Option<BoundExpr>,
}

pub type NumBoundM = (Option<BoundM>, Option<BoundM>);

impl DeepView for NumBound {
    type V = NumBoundM;

    open spec fn deep_view(&self) -> NumBoundM {
        (self.lo.deep_view(), self.hi.deep_view())
    }
}

impl NumBound {
    pub fn new() -> (r: NumBound)
        ensures
            r.deep_view() == (None::<BoundM>, None::<BoundM>),
    {
        NumBound { lo: None, hi: None }
    }

    pub fn duplicate(&self) -> (r: NumBound)
        ensures
            r.deep_view() == self.deep_view(),
    {
        NumBound { lo: duplicate_opt(&self.lo), hi: duplicate_opt(&self.hi) }
    }
}

/// Which end of a variable's range a bound is resolved through.
#[derive(Clone, Copy, Debug, PartialEq, Eq)]
pub enum Side {
    Lo,
    Hi,
}

pub open spec fn side_bound(b: NumBoundM, side: Side) -> Option<BoundM> {
    match side {
        Side::Lo => b.0,
        Side::Hi => b.1,
    }
}

pub open spec fn add_in_range(a: i64, b: i64) -> Option<i64> {
    if i64::MIN <= a + b <= i64::MAX {
        Some((a + b) as i64)
    } else {
        None
    }
}

/// The literal a bound comes to when variables are replaced by their own
/// bound on `side`, following at most `depth` references; `None` when a
/// variable has no such bound, the references run deeper, or the sum leaves
/// the `i64` range.
pub open spec fn spec_resolve_lit_with_depth(
    e: BoundM,
    ctx: Seq<(Seq<char>, NumBoundM)>,
    side: Side,
    depth: nat,
) -> Option<i64>
    decreases depth,
{
    if depth == 0 {
        None
    } else {
        match e {
            BoundM::Lit(n) => Some(n),
            BoundM::Var(name, offset) => match m_get(ctx, name) {
                None => None,
                Some(target) => match side_bound(target, side) {
                    None => None,
                    Some(inner) => match spec_resolve_lit_with_depth(
                        inner,
                        ctx,
                        side,
                        (depth - 1) as nat,
                    ) {
                        None => None,
                        Some(n) => add_in_range(n, offset),
                    },
                },
            },
        }
    }
}

pub open spec fn spec_resolve_lit(e: BoundM, ctx: Seq<(Seq<char>, NumBoundM)>, side: Side) -> Option<
    i64,
> {
    spec_resolve_lit_with_depth(e, ctx, side, 8)
}

pub fn resolve_lit_with_depth(
    expr: &BoundExpr,
    ctx: &StrMap<NumBound>,
    side: Side,
    depth: usize,
) -> (r: Option<i64>)
    ensures
        r == spec_resolve_lit_with_depth(expr.deep_view(), ctx.model(), side, depth as nat),
    decreases depth,
{
    if depth == 0 {
        return None;
    }
    match expr {
        BoundExpr::Lit(n) => Some(*n),
        BoundExpr::Var { name, offset } => {
            let target = match ctx.get(name.as_str()) {
                Some(t) => t,
                None => return None,
            };
            let inner = match side {
                Side::Lo => match &target.lo {
                    Some(b) => b,
                    None => return None,
                },
                Side::Hi => match &target.hi {
                    Some(b) => b,
                    None => return None,
                },
            };
            let n = match resolve_lit_with_depth(inner, ctx, side, depth - 1) {
                Some(n) => n,
                None => return None,
            };
            n.checked_add(*offset)
        },
    }
}

/// Resolve a bound to a literal through the bounds in `ctx`, following at
/// most eight variable references.
pub fn resolve_lit(expr: &BoundExpr, ctx: &StrMap<NumBound>, side: Side) -> (r: Option<i64>)
    ensures
        r == spec_resolve_lit(expr.deep_view(), ctx.model(), side),
{
    resolve_lit_with_depth(expr, ctx, side, 8)
}

// ─── constant expressions ───────────────────────────────────────────────────

pub open spec fn mul_in_range(a: i64, b: i64) -> Option<i64> {
    if i64::MIN <= a * b <= i64::MAX {
        Some((a * b) as i64)
    } else {
        None
    }
}

/// `i64::checked_pow`: the power computed factor by factor, `None` once a
/// step leaves the `i64` range.
pub open spec fn spec_checked_pow(b: i64, e: nat) -> Option<i64>
    decreases e,
{
    if e == 0 {
        Some(1)
    } else {
        match spec_checked_pow(b, (e - 1) as nat) {
            Some(a) => mul_in_range(a, b),
            None => None,
        }
    }
}

/// The value of a constant integer expression: a literal, a leading minus,
/// products (`*`, split at the last one), a power (`^`, exponent 0 to 30),
/// and parentheses or braces around a whole expression. `None` for anything
/// else, and for results outside the `i64` range.
pub open spec fn spec_eval_expr(e: Seq<char>) -> Option<i64>
    decreases e.len(),
{
    let t = spec_trim(e);
    proof {
        lemma_trim_len(e);
    }
    match spec_parse_i64(t) {
        Some(n) => Some(n),
        None => if t.len() > 0 && t[0] == '-' {
            match spec_eval_expr(t.skip(1)) {
                Some(v) => if v == i64::MIN {
                    None
                } else {
                    Some((-v) as i64)
                },
                None => None,
            }
        } else {
            match spec_rfind(t, seq!['*']) {
                Some(p) => {
                    proof {
                        lemma_rfind_from_some(t, seq!['*'], t.len() - 1);
                    }
                    if 0 <= p < t.len() {
                        match (spec_eval_expr(t.take(p)), spec_eval_expr(t.skip(p + 1))) {
                            (Some(l), Some(r)) => mul_in_range(l, r),
                            _ => None,
                        }
                    } else {
                        None
                    }
                },
                None => {
                    let caret: Option<Option<i64>> = match spec_find(t, seq!['^']) {
                        Some(p) => if 0 <= p < t.len() {
                            match (spec_eval_expr(t.take(p)), spec_eval_expr(t.skip(p + 1))) {
                                (Some(b), Some(x)) => if 0 <= x <= 30 {
                                    Some(spec_checked_pow(b, x as nat))
                                } else {
                                    None
                                },
                                _ => Some(None),
                            }
                        } else {
                            None
                        },
                        None => None,
                    };
                    match caret {
                        Some(r) => r,
                        None => if t.len() >= 2 && t[0] == '(' && t[t.len() - 1] == ')' {
                            spec_eval_expr(t.subrange(1, t.len() - 1))
                        } else if t.len() >= 2 && t[0] == '{' && t[t.len() - 1] == '}' {
                            spec_eval_expr(t.subrange(1, t.len() - 1))
                        } else {
                            None
                        },
                    }
                },
            }
        },
    }
}

fn mul_checked(a: i64, b: i64) -> (r: Option<i64>)
    ensures
        r == mul_in_range(a, b),
{
    let x = a as i128;
    let y = b as i128;
    assert(-0x8000_0000_0000_0000 <= x <= 0x7fff_ffff_ffff_ffff);
    assert(-0x8000_0000_0000_0000 <= y <= 0x7fff_ffff_ffff_ffff);
    assert(-0x4000_0000_0000_0000_0000_0000_0000_0000 <= x * y <= 0x4000_0000_0000_0000_0000_0000_0000_0000) by (nonlinear_arith)
        requires
            -0x8000_0000_0000_0000 <= x <= 0x7fff_ffff_ffff_ffff,
            -0x8000_0000_0000_0000 <= y <= 0x7fff_ffff_ffff_ffff,
    ;
    let p = x * y;
    if -0x8000_0000_0000_0000 <= p && p <= 0x7fff_ffff_ffff_ffff {
        Some(p as i64)
    } else {
        None
    }
}

fn pow_checked(b: i64, e: u32) -> (r: Option<i64>)
    ensures
        r == spec_checked_pow(b, e as nat),
{
    let mut acc: i64 = 1;
    let mut i: u32 = 0;
    while i < e
        invariant
            i <= e,
            spec_checked_pow(b, i as nat) == Some(acc),
        decreases e - i,
    {
        match mul_checked(acc, b) {
            Some(v) => {
                acc = v;
            },
            None => {
                proof {
                    lemma_checked_pow_none(b, (i + 1) as nat, e as nat);
                }
                return None;
            },
        }
        i += 1;
    }
    Some(acc)
}

proof fn lemma_checked_pow_none(b: i64, i: nat, e: nat)
    requires
        i <= e,
        spec_checked_pow(b, i) is None,
    ensures
        spec_checked_pow(b, e) is None,
    decreases e - i,
{
    if i < e {
        lemma_checked_pow_none(b, i + 1, e);
    }
}

pub fn eval_expr_chars(e: &Vec<char>) -> (r: Option<i64>)
    ensures
        r == spec_eval_expr(e@),
    decreases e@.len(),
{
    let t = trim(e);
    proof {
        lemma_trim_len(e@);
    }
    match parse_i64(&t) {
        Some(n) => return Some(n),
        None => {},
    }
    let n = t.len();
    if n > 0 && t[0] == '-' {
        let rest = copy_range(&t, 1, n);
        assert(rest@ =~= t@.skip(1));
        return match eval_expr_chars(&rest) {
            Some(v) => if v == i64::MIN {
                None
            } else {
                Some(-v)
            },
            None => None,
        };
    }
    match rfind_str(&t, "*") {
        Some(p) => {
            proof {
                reveal_strlit("*");
                assert("*"@ =~= seq!['*']);
            }
            let a = copy_range(&t, 0, p);
            let b = copy_range(&t, p + 1, n);
            assert(a@ =~= t@.take(p as int));
            assert(b@ =~= t@.skip(p + 1));
            return match (eval_expr_chars(&a), eval_expr_chars(&b)) {
                (Some(l), Some(r)) => mul_checked(l, r),
                _ => None,
            };
        },
        None => {
            proof {
                reveal_strlit("*");
                assert("*"@ =~= seq!['*']);
            }
        },
    }
    match find_str(&t, "^") {
        Some(p) => {
            proof {
                reveal_strlit("^");
                assert("^"@ =~= seq!['^']);
            }
            let a = copy_range(&t, 0, p);
            let b = copy_range(&t, p + 1, n);
            assert(a@ =~= t@.take(p as int));
            assert(b@ =~= t@.skip(p + 1));
            match (eval_expr_chars(&a), eval_expr_chars(&b)) {
                (Some(base), Some(x)) => {
                    if 0 <= x && x <= 30 {
                        return pow_checked(base, x as u32);
                    }
                },
                _ => return None,
            }
        },
        None => {
            proof {
                reveal_strlit("^");
                assert("^"@ =~= seq!['^']);
            }
        },
    }
    if n >= 2 && ((t[0] == '(' && t[n - 1] == ')') || (t[0] == '{' && t[n - 1] == '}')) {
        let inner = copy_range(&t, 1, n - 1);
        return eval_expr_chars(&inner);
    }
    None
}

/// Evaluate a constant integer expression (`10^5`, `2*10^5`, `-10^9`);
/// `None` for anything that holds a variable.
pub fn eval_expr(expr: &str) -> (r: Option<i64>)
    ensures
        r == spec_eval_expr(expr@),
{
    eval_expr_chars(&chars_of(expr))
}

// ─── bound expressions ──────────────────────────────────────────────────────

/// The one variable name an expression holds, if it holds exactly one.
pub open spec fn spec_extract_var_base(s: Seq<char>) -> Option<Seq<char>> {
    let names = spec_extract_var_names(s);
    if names.len() == 1 {
        Some(names[0])
    } else {
        None
    }
}

pub fn extract_var_base(s: &str) -> (r: Option<String>)
    ensures
        match r {
            Some(n) => spec_extract_var_base(s@) == Some(n@),
            None => spec_extract_var_base(s@) is None,
        },
{
    let names = extract_var_names(s);
    if names.len() == 1 {
        assert(crate::text::sv(names@)[0] == names@[0]@);
        Some(names[0].clone())
    } else {
        None
    }
}

/// `var - k` (`negate`) or `var + k` split at the last `sep`.
pub open spec fn spec_var_offset(t: Seq<char>, sep: char, negate: bool) -> Option<BoundM> {
    match spec_rfind(t, seq![sep]) {
        Some(idx) => if idx <= 0 || idx >= t.len() {
            None
        } else {
            match spec_extract_var_base(spec_trim(t.take(idx))) {
                Some(name) => match spec_parse_i64(spec_trim(t.skip(idx + 1))) {
                    Some(k) => if !negate {
                        Some(BoundM::Var(name, k))
                    } else if k == i64::MIN {
                        None
                    } else {
                        Some(BoundM::Var(name, (-k) as i64))
                    },
                    None => None,
                },
                None => None,
            }
        },
        None => None,
    }
}

/// A literal, a variable, or `var ± k`.
pub open spec fn spec_parse_bound_expr(e: Seq<char>) -> Option<BoundM> {
    let t = spec_trim(e);
    match spec_eval_expr(t) {
        Some(n) => Some(BoundM::Lit(n)),
        None => match spec_var_offset(t, '-', true) {
            Some(b) => Some(b),
            None => match spec_var_offset(t, '+', false) {
                Some(b) => Some(b),
                None => match spec_extract_var_base(t) {
                    Some(name) => Some(BoundM::Var(name, 0)),
                    None => None,
                },
            },
        },
    }
}

/// `v op k`, for a name `v` and digits `k`, is no constant expression.
proof fn lemma_offset_text_not_const(v: Seq<char>, op: char, k: Seq<char>)
    requires
        v.len() > 0,
        forall|i: int| 0 <= i < v.len() ==> name_text_char(#[trigger] v[i]),
        all_digits(k),
        op == '+' || op == '-',
    ensures
        spec_trim(v + seq![op] + k) == v + seq![op] + k,
        spec_eval_expr(v + seq![op] + k) is None,
{
    let t = v + seq![op] + k;
    assert(t[0] == v[0]);
    assert(name_text_char(v[0]));
    if k.len() > 0 {
        assert(t.last() == k.last());
        assert(spec_is_ascii_digit(k[k.len() - 1]));
    } else {
        assert(t.last() == op);
    }
    lemma_trim_unchanged(t);
    assert(t[v.len() as int] == op);
    assert(!crate::text::spec_is_ascii_digit(t[v.len() as int]));
    assert(!all_digits(t));
    assert forall|c: char| (c == '*' || c == '^') implies !t.contains(c) by {
        if t.contains(c) {
            let i = choose|i: int| 0 <= i < t.len() && t[i] == c;
            if i < v.len() {
                assert(t[i] == v[i]);
                assert(name_text_char(v[i]));
            } else if i > v.len() {
                assert(t[i] == k[i - v.len() - 1]);
                assert(spec_is_ascii_digit(k[i - v.len() - 1]));
            }
        }
    }
    lemma_rfind_char_absent(t, '*', t.len() - 1);
    lemma_find_char_absent(t, '^', 0);
}

/// The last `op` of `v op k` is the one between them, and what stands on
/// either side of it is `v` and `k`.
proof fn lemma_offset_text_split(v: Seq<char>, op: char, k: Seq<char>)
    requires
        v.len() > 0,
        forall|i: int| 0 <= i < v.len() ==> name_text_char(#[trigger] v[i]),
        all_digits(k),
        op == '+' || op == '-',
    ensures
        spec_rfind(v + seq![op] + k, seq![op]) == Some(v.len() as int),
        (v + seq![op] + k).take(v.len() as int) == v,
        (v + seq![op] + k).skip(v.len() as int + 1) == k,
{
    let t = v + seq![op] + k;
    assert forall|q: int| v.len() < q <= t.len() - 1 implies t[q] != op by {
        assert(t[q] == k[q - v.len() - 1]);
        assert(spec_is_ascii_digit(k[q - v.len() - 1]));
    }
    lemma_rfind_char_last(t, op, t.len() - 1, v.len() as int);
    assert(t.take(v.len() as int) =~= v);
    assert(t.skip(v.len() as int + 1) =~= k);
}

/// A bound `v+k` is the variable of `v` plus `k`, and `v-k` the variable
/// minus `k`: for a written name `v` that holds one variable and a
/// literal `k` of digits, the offset's sign follows the operator.
pub proof fn law_var_offset_sign(v: Seq<char>, k: Seq<char>, kk: i64)
    requires
        v.len() > 0,
        forall|i: int| 0 <= i < v.len() ==> name_text_char(#[trigger] v[i]),
        spec_extract_var_base(v) is Some,
        all_digits(k),
        spec_parse_i64(k) == Some(kk),
    ensures
        kk >= 0,
        spec_parse_bound_expr(v + seq!['+'] + k) == Some(BoundM::Var(spec_extract_var_base(v)->0, kk)),
        spec_parse_bound_expr(v + seq!['-'] + k) == Some(BoundM::Var(spec_extract_var_base(v)->0, (-kk) as i64)),
{
    lemma_digits_value_nonneg(k);
    assert(k.len() > 0);
    assert(spec_is_ascii_digit(k[0]));
    assert(kk >= 0);
    assert(!v.contains('-') && !k.contains('-')) by {
        if v.contains('-') {
            let i = choose|i: int| 0 <= i < v.len() && v[i] == '-';
            assert(name_text_char(v[i]));
        }
        if k.contains('-') {
            let i = choose|i: int| 0 <= i < k.len() && k[i] == '-';
            assert(spec_is_ascii_digit(k[i]));
        }
    }
    lemma_trim_unchanged(v);
    assert(name_text_char(v[0]) && name_text_char(v.last()));
    lemma_trim_unchanged(k);
    assert(spec_is_ascii_digit(k.last()));
    // `v+k`
    let tp = v + seq!['+'] + k;
    lemma_offset_text_not_const(v, '+', k);
    lemma_offset_text_split(v, '+', k);
    assert(!tp.contains('-')) by {
        if tp.contains('-') {
            let i = choose|i: int| 0 <= i < tp.len() && tp[i] == '-';
            if i < v.len() {
                assert(tp[i] == v[i]);
            } else if i > v.len() {
                assert(tp[i] == k[i - v.len() - 1]);
            }
        }
    }
    lemma_rfind_char_absent(tp, '-', tp.len() - 1);
    // `v-k`
    lemma_offset_text_not_const(v, '-', k);
    lemma_offset_text_split(v, '-', k);
}

/// A bound of digits alone is that literal, and a written name alone
/// (starting with a letter) is its variable with no offset.
pub proof fn law_plain_bounds(v: Seq<char>, k: Seq<char>, kk: i64)
    requires
        v.len() > 0,
        crate::text::spec_is_ascii_alpha(v[0]),
        forall|i: int| 0 <= i < v.len() ==> name_text_char(#[trigger] v[i]),
        spec_extract_var_base(v) is Some,
        all_digits(k),
        spec_parse_i64(k) == Some(kk),
    ensures
        spec_parse_bound_expr(k) == Some(BoundM::Lit(kk)),
        spec_parse_bound_expr(v) == Some(BoundM::Var(spec_extract_var_base(v)->0, 0)),
{
    assert(k.len() > 0);
    assert(spec_is_ascii_digit(k[0]) && spec_is_ascii_digit(k.last()));
    lemma_trim_unchanged(k);
    assert(name_text_char(v[0]) && name_text_char(v.last()));
    lemma_trim_unchanged(v);
    assert(!all_digits(v)) by {
        assert(!spec_is_ascii_digit(v[0]));
    }
    assert forall|c: char| (c == '*' || c == '^' || c == '-' || c == '+') implies !v.contains(c) by {
        if v.contains(c) {
            let i = choose|i: int| 0 <= i < v.len() && v[i] == c;
            assert(name_text_char(v[i]));
        }
    }
    lemma_rfind_char_absent(v, '*', v.len() - 1);
    lemma_find_char_absent(v, '^', 0);
    lemma_rfind_char_absent(v, '-', v.len() - 1);
    lemma_rfind_char_absent(v, '+', v.len() - 1);
}

fn var_offset(t: &Vec<char>, sep: &str, negate: bool) -> (r: Option<BoundExpr>)
    requires
        sep@.len() == 1,
    ensures
        r.deep_view() == spec_var_offset(t@, sep@[0], negate),
{
    proof {
        assert(sep@ =~= seq![sep@[0]]);
    }
    let idx = match rfind_str(t, sep) {
        Some(i) => i,
        None => return None,
    };
    if idx == 0 || idx >= t.len() {
        return None;
    }
    let var = trim(&copy_range(t, 0, idx));
    let k = trim(&copy_range(t, idx + 1, t.len()));
    assert(t@.subrange(0, idx as int) =~= t@.take(idx as int));
    assert(t@.subrange(idx + 1, t@.len() as int) =~= t@.skip(idx + 1));
    let name = match extract_var_base(string_of(&var).as_str()) {
        Some(n) => n,
        None => return None,
    };
    match parse_i64(&k) {
        Some(kv) => if !negate {
            Some(BoundExpr::Var { name, offset: kv })
        } else if kv == i64::MIN {
            None
        } else {
            Some(BoundExpr::Var { name, offset: -kv })
        },
        None => None,
    }
}

pub fn parse_bound_expr_chars(e: &Vec<char>) -> (r: Option<BoundExpr>)
    ensures
        r.deep_view() == spec_parse_bound_expr(e@),
{
    let t = trim(e);
    match eval_expr_chars(&t) {
        Some(n) => return Some(BoundExpr::Lit(n)),
        None => {},
    }
    proof {
        reveal_strlit("-");
        reveal_strlit("+");
    }
    match var_offset(&t, "-", true) {
        Some(b) => return Some(b),
        None => {},
    }
    match var_offset(&t, "+", false) {
        Some(b) => return Some(b),
        None => {},
    }
    match extract_var_base(string_of(&t).as_str()) {
        Some(name) => Some(BoundExpr::Var { name, offset: 0 }),
        None => None,
    }
}

/// Parse one bound: a constant expression, a variable, or `var ± k`.
pub fn parse_bound_expr(expr: &str) -> (r: Option<BoundExpr>)
    ensures
        r.deep_view() == spec_parse_bound_expr(expr@),
{
    parse_bound_expr_chars(&chars_of(expr))
}

/// A bound after constraint normalization of the raw text.
pub open spec fn spec_parse_bound_expr_simple(raw: Seq<char>) -> Option<BoundM> {
    spec_parse_bound_expr(spec_normalize_constraint(raw))
}

pub fn parse_bound_expr_simple(raw: &Vec<char>) -> (r: Option<BoundExpr>)
    ensures
        r.deep_view() == spec_parse_bound_expr_simple(raw@),
{
    parse_bound_expr_chars(&normalize_constraint_chars(raw))
}

} // verus!
