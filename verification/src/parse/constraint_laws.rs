//! Laws of the constraint parser that hold whatever the items say.

use vstd::prelude::*;
use crate::maps::{
    all_after, lemma_insert_sorted, lemma_not_has_after, lemma_lt_irrefl, lemma_remove_sorted, m_get, m_has, m_insert, m_insert_all, m_keys,
    m_remove, m_remove_all, m_sorted, seq_lt,
};
use crate::parse::bounds::{BoundM, NumBoundM};
use crate::parse::constraint_parse::{
    chain_fragments, empty_parse, spec_item_step, spec_parse_constraints, spec_pass3, spec_try_all_distinct,
    spec_try_enum, spec_try_inequality_chain, spec_try_inequality_chain_single, spec_try_sum_limit,
    ConstraintParseM,
};

verus! {

/// `sub` is `items` at the ascending positions `idx`.
pub open spec fn picked(items: Seq<Seq<char>>, idx: Seq<int>, sub: Seq<Seq<char>>) -> bool {
    &&& idx.len() == sub.len()
    &&& forall|j: int| 0 <= j < idx.len() ==> 0 <= #[trigger] idx[j] < items.len() && sub[j] == items[idx[j]]
    &&& forall|a: int, b: int| 0 <= a < b < idx.len() ==> #[trigger] idx[a] < #[trigger] idx[b]
}

proof fn lemma_chain_keeps_skipped(frags: Seq<Seq<char>>, k: int, m: ConstraintParseM)
    ensures
        chain_fragments(frags, k, m).1.skipped == m.skipped,
    decreases k,
{
    if k > 0 {
        lemma_chain_keeps_skipped(frags, k - 1, m);
    }
}

proof fn lemma_step_skipped(m: ConstraintParseM, item: Seq<char>)
    ensures
        spec_item_step(m, item).skipped == m.skipped || spec_item_step(m, item).skipped == m.skipped.push(item),
{
    let a = spec_try_enum(item, m);
    let b = spec_try_all_distinct(item, a.1);
    let c = spec_try_sum_limit(item, b.1);
    if !spec_crate_contains_sum(item) {
        let frags = crate::parse::constraint_parse::spec_extract_ascii_inequality_fragments(
            crate::parse::constraint_parse::spec_normalize_for_inequality(item),
        );
        lemma_chain_keeps_skipped(frags, frags.len() as int, c.1);
    }
}

spec fn spec_crate_contains_sum(item: Seq<char>) -> bool {
    crate::text::spec_contains(item, "\\sum"@)
}

proof fn lemma_pass3_skipped(items: Seq<Seq<char>>, m: ConstraintParseM) -> (idx: Seq<int>)
    ensures
        spec_pass3(items, m).skipped.len() >= m.skipped.len(),
        spec_pass3(items, m).skipped.take(m.skipped.len() as int) == m.skipped,
        picked(items, idx, spec_pass3(items, m).skipped.skip(m.skipped.len() as int)),
    decreases items.len(),
{
    if items.len() == 0 {
        assert(spec_pass3(items, m).skipped.take(m.skipped.len() as int) =~= m.skipped);
        let idx = Seq::<int>::empty();
        assert(spec_pass3(items, m).skipped.skip(m.skipped.len() as int) =~= Seq::<Seq<char>>::empty());
        idx
    } else {
        let prev_items = items.drop_last();
        let idx0 = lemma_pass3_skipped(prev_items, m);
        let p = spec_pass3(prev_items, m);
        lemma_step_skipped(p, items.last());
        let q = spec_pass3(items, m);
        let n = m.skipped.len() as int;
        assert(picked(items, idx0, p.skipped.skip(n))) by {
            assert forall|j: int| 0 <= j < idx0.len() implies 0 <= #[trigger] idx0[j] < items.len()
                && p.skipped.skip(n)[j] == items[idx0[j]] by {
                assert(prev_items[idx0[j]] == items[idx0[j]]);
            }
        }
        if q.skipped == p.skipped {
            idx0
        } else {
            let idx = idx0.push(items.len() - 1);
            assert(q.skipped.take(n) =~= p.skipped.take(n));
            assert(q.skipped.skip(n) =~= p.skipped.skip(n).push(items.last()));
            assert forall|a: int, b: int| 0 <= a < b < idx.len() implies #[trigger] idx[a] < #[trigger] idx[b] by {
                if b == idx.len() - 1 {
                    assert(idx0[a] < prev_items.len());
                } else {
                    assert(idx[a] == idx0[a] && idx[b] == idx0[b]);
                }
            }
            assert forall|j: int| 0 <= j < idx.len() implies 0 <= #[trigger] idx[j] < items.len()
                && q.skipped.skip(n)[j] == items[idx[j]] by {
                if j < idx0.len() {
                    assert(idx[j] == idx0[j]);
                }
            }
            idx
        }
    }
}

/// The constraint items left unparsed are items of the input, in input
/// order.
pub proof fn lemma_skipped_in_order(items: Seq<Seq<char>>) -> (idx: Seq<int>)
    ensures
        picked(items, idx, spec_parse_constraints(items).skipped),
{
    let m0 = empty_parse();
    let m1 = ConstraintParseM {
        str_vars: crate::parse::constraint_parse::spec_detect_string_decls(items, m0.str_vars),
        ..m0
    };
    let m2 = ConstraintParseM {
        str_vars: crate::parse::constraint_parse::spec_apply_abs_length_updates(items, m1.str_vars),
        ..m1
    };
    let idx = lemma_pass3_skipped(items, m2);
    assert(m2.skipped.len() == 0);
    assert(spec_pass3(items, m2).skipped.skip(0) =~= spec_pass3(items, m2).skipped);
    idx
}

// ─── keys of ordered maps ───────────────────────────────────────────────────

proof fn lemma_remove_all_sorted<W>(m: Seq<(Seq<char>, W)>, keys: Seq<Seq<char>>, j: Seq<char>)
    requires
        m_sorted(m),
    ensures
        m_sorted(m_remove_all(m, keys)),
        m_has(m_remove_all(m, keys), j) == (!keys.contains(j) && m_has(m, j)),
    decreases keys.len(),
{
    if keys.len() > 0 {
        lemma_remove_all_sorted(m, keys.drop_last(), j);
        lemma_remove_sorted(m_remove_all(m, keys.drop_last()), keys.last(), j);
        assert(keys.contains(j) == (keys.drop_last().contains(j) || keys.last() == j)) by {
            if keys.contains(j) {
                let i = choose|i: int| 0 <= i < keys.len() && keys[i] == j;
                if i < keys.len() - 1 {
                    assert(keys.drop_last()[i] == j);
                }
            }
            if keys.drop_last().contains(j) {
                let i = choose|i: int| 0 <= i < keys.drop_last().len() && keys.drop_last()[i] == j;
                assert(keys[i] == j);
            }
            if keys.last() == j {
                assert(keys[keys.len() - 1] == j);
            }
        }
    }
}

proof fn lemma_insert_all_has<W>(m: Seq<(Seq<char>, W)>, keys: Seq<Seq<char>>, v: W, j: Seq<char>)
    ensures
        m_has(m_insert_all(m, keys, v), j) == (keys.contains(j) || m_has(m, j)),
    decreases keys.len(),
{
    if keys.len() > 0 {
        lemma_insert_all_has(m, keys.drop_last(), v, j);
        crate::maps::lemma_m_insert_get(m_insert_all(m, keys.drop_last(), v), keys.last(), v, j);
        assert(keys.contains(j) == (keys.drop_last().contains(j) || keys.last() == j)) by {
            if keys.contains(j) {
                let i = choose|i: int| 0 <= i < keys.len() && keys[i] == j;
                if i < keys.len() - 1 {
                    assert(keys.drop_last()[i] == j);
                }
            }
            if keys.drop_last().contains(j) {
                let i = choose|i: int| 0 <= i < keys.drop_last().len() && keys.drop_last()[i] == j;
                assert(keys[i] == j);
            }
            if keys.last() == j {
                assert(keys[keys.len() - 1] == j);
            }
        }
    }
}

// ─── names stay apart ───────────────────────────────────────────────────────

/// The numeric bounds are an ascending map, and no enumerated variable
/// has numeric bounds.
pub open spec fn parse_inv(m: ConstraintParseM) -> bool {
    &&& m_sorted(m.num_vars)
    &&& forall|k: Seq<char>| !(#[trigger] m_has(m.enum_values, k) && m_has(m.num_vars, k))
}

proof fn lemma_bound_vars_inv(
    acc: (bool, Seq<(Seq<char>, NumBoundM)>),
    vars: Seq<Seq<char>>,
    lo: Option<BoundM>,
    hi: Option<BoundM>,
    ev: Seq<(Seq<char>, Seq<i64>)>,
    j: Seq<char>,
)
    requires
        m_sorted(acc.1),
    ensures
        m_sorted(crate::parse::constraint_parse::bound_vars(acc, vars, lo, hi, ev).1),
        m_has(crate::parse::constraint_parse::bound_vars(acc, vars, lo, hi, ev).1, j) ==> m_has(acc.1, j) || !m_has(
            ev,
            j,
        ),
    decreases vars.len(),
{
    if vars.len() > 0 {
        lemma_bound_vars_inv(acc, vars.drop_last(), lo, hi, ev, j);
        let prev = crate::parse::constraint_parse::bound_vars(acc, vars.drop_last(), lo, hi, ev);
        let v = vars.last();
        if !m_has(ev, v) {
            let entry = match m_get(prev.1, v) {
                Some(e) => e,
                None => (None, None),
            };
            let a = crate::parse::constraint_parse::assign_opt(entry.0, lo);
            let b = crate::parse::constraint_parse::assign_opt(entry.1, hi);
            lemma_insert_sorted(prev.1, v, (a.1, b.1), j);
        }
    }
}

proof fn lemma_num_upto_inv(
    tokens: Seq<Seq<char>>,
    ops: Seq<Seq<char>>,
    n: int,
    start: Seq<(Seq<char>, NumBoundM)>,
    ev: Seq<(Seq<char>, Seq<i64>)>,
    j: Seq<char>,
)
    requires
        m_sorted(start),
    ensures
        m_sorted(crate::parse::constraint_parse::num_upto(tokens, ops, n, start, ev).1),
        m_has(crate::parse::constraint_parse::num_upto(tokens, ops, n, start, ev).1, j) ==> m_has(start, j) || !m_has(
            ev,
            j,
        ),
    decreases n,
{
    if n > 0 {
        lemma_num_upto_inv(tokens, ops, n - 1, start, ev, j);
        let acc = crate::parse::constraint_parse::num_upto(tokens, ops, n - 1, start, ev);
        let tok = crate::text::spec_trim(tokens[n - 1]);
        let vars = crate::parse::normalize::spec_extract_var_names(tok);
        lemma_bound_vars_inv(
            acc,
            vars,
            crate::parse::constraint_parse::chain_lo(tokens, ops, n - 1),
            crate::parse::constraint_parse::chain_hi(tokens, ops, n - 1),
            ev,
            j,
        );
    }
}

proof fn lemma_single_inv(norm: Seq<char>, m: ConstraintParseM)
    requires
        parse_inv(m),
    ensures
        parse_inv(spec_try_inequality_chain_single(norm, m).1),
        spec_try_inequality_chain_single(norm, m).1.enum_values == m.enum_values,
{
    let r = spec_try_inequality_chain_single(norm, m).1;
    if r.num_vars != m.num_vars {
        let tokens = crate::parse::constraint_parse::spec_tokens(norm, crate::parse::constraint_parse::CHAIN_OP_PATTERN@);
        let ops = crate::parse::constraint_parse::spec_ops(norm, crate::parse::constraint_parse::CHAIN_OP_PATTERN@);
        assert forall|k: Seq<char>| !(#[trigger] m_has(r.enum_values, k) && m_has(r.num_vars, k)) by {
            lemma_num_upto_inv(tokens, ops, tokens.len() as int, m.num_vars, m.enum_values, k);
        }
        lemma_num_upto_inv(tokens, ops, tokens.len() as int, m.num_vars, m.enum_values, seq![]);
    }
}

proof fn lemma_chain_inv(frags: Seq<Seq<char>>, k: int, m: ConstraintParseM)
    requires
        parse_inv(m),
    ensures
        parse_inv(chain_fragments(frags, k, m).1),
    decreases k,
{
    if k > 0 {
        lemma_chain_inv(frags, k - 1, m);
        lemma_single_inv(frags[k - 1], chain_fragments(frags, k - 1, m).1);
    }
}

proof fn lemma_step_inv(m: ConstraintParseM, item: Seq<char>)
    requires
        parse_inv(m),
    ensures
        parse_inv(spec_item_step(m, item)),
{
    let a = spec_try_enum(item, m);
    if a.0 {
        let d = match crate::parse::constraint_parse::spec_parse_either_alternative(item) {
            Some(d) => d,
            None => crate::parse::constraint_parse::spec_parse_in_set(item)->0,
        };
        assert(a.1 == crate::parse::constraint_parse::spec_register_enum(m, d.0, d.1));
        lemma_remove_all_sorted(m.num_vars, d.0, seq![]);
        assert forall|k: Seq<char>| !(#[trigger] m_has(a.1.enum_values, k) && m_has(a.1.num_vars, k)) by {
            lemma_remove_all_sorted(m.num_vars, d.0, k);
            lemma_insert_all_has(m.enum_values, d.0, d.1, k);
        }
    } else {
        let b = spec_try_all_distinct(item, a.1);
        let c = spec_try_sum_limit(item, b.1);
        assert(b.1.num_vars == m.num_vars && b.1.enum_values == m.enum_values);
        assert(c.1.num_vars == m.num_vars && c.1.enum_values == m.enum_values);
        if !spec_crate_contains_sum(item) {
            let frags = crate::parse::constraint_parse::spec_extract_ascii_inequality_fragments(
                crate::parse::constraint_parse::spec_normalize_for_inequality(item),
            );
            lemma_chain_inv(frags, frags.len() as int, c.1);
        }
    }
}

proof fn lemma_pass3_inv(items: Seq<Seq<char>>, m: ConstraintParseM)
    requires
        parse_inv(m),
    ensures
        parse_inv(spec_pass3(items, m)),
    decreases items.len(),
{
    if items.len() > 0 {
        lemma_pass3_inv(items.drop_last(), m);
        lemma_step_inv(spec_pass3(items.drop_last(), m), items.last());
    }
}

proof fn lemma_has_key<W>(m: Seq<(Seq<char>, W)>, k: Seq<char>)
    requires
        m_has(m, k),
    ensures
        m_keys(m).contains(k),
    decreases m.len(),
{
    if m[0].0 == k {
        assert(m_keys(m)[0] == k);
    } else {
        lemma_has_key(m.drop_first(), k);
        let i = choose|i: int| 0 <= i < m_keys(m.drop_first()).len() && m_keys(m.drop_first())[i] == k;
        assert(m_keys(m)[i + 1] == k);
    }
}

/// After parsing, no name is both a string variable and a numeric one, nor
/// both an enumerated variable and a numeric one.
pub proof fn lemma_parse_names_apart(items: Seq<Seq<char>>, k: Seq<char>)
    ensures
        !(m_has(spec_parse_constraints(items).str_vars, k) && m_has(spec_parse_constraints(items).num_vars, k)),
        !(m_has(spec_parse_constraints(items).enum_values, k) && m_has(spec_parse_constraints(items).num_vars, k)),
{
    let m0 = empty_parse();
    let m1 = ConstraintParseM {
        str_vars: crate::parse::constraint_parse::spec_detect_string_decls(items, m0.str_vars),
        ..m0
    };
    let m2 = ConstraintParseM {
        str_vars: crate::parse::constraint_parse::spec_apply_abs_length_updates(items, m1.str_vars),
        ..m1
    };
    assert(!m_has(m2.enum_values, k));
    assert(parse_inv(m2));
    lemma_pass3_inv(items, m2);
    let m3 = spec_pass3(items, m2);
    assert(parse_inv(m3));
    lemma_remove_all_sorted(m3.num_vars, m_keys(m3.str_vars), k);
    if m_has(m3.str_vars, k) {
        lemma_has_key(m3.str_vars, k);
    }
}

} // verus!
