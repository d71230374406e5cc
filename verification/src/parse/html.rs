//! The parts of a contest's task page the pipeline reads: each task's
//! letter, the `<pre>` blocks of its input section, and its constraint
//! items.

use vstd::prelude::*;
use crate::parse::types::TaskSection;
use crate::regex_ops::{
    re_captures, re_captures_all, re_escape, re_find_all, re_split, regex_capture_groups, regex_compiles,
    regex_escaped, regex_first_captures, regex_match_texts, regex_split_parts, replace_all_or_same,
    replaced_all_or_same,
};
use crate::text::{
    append_chars, chars_of, concat_str, copy_range, find_str, replace_str, spec_find, spec_replace,
    spec_split_char, spec_trim, split_char, string_of, sv, trim, vv,
};

verus! {

/// Any tag, matched lazily across lines.
pub const LAZY_TAG_PATTERN: &'static str = "(?s)<.*?>";

/// Any tag: `<` up to the next `>`.
pub const ANY_TAG_PATTERN: &'static str = "(?s)<[^>]*>";

/// A list item, its content captured.
pub const LI_PATTERN: &'static str = "(?s)<li>(.*?)</li>";

/// A task heading `<span class="h2">A - Title</span>`, the letter and the
/// title captured.
pub const SPAN_PATTERN: &'static str = "(?s)<span class=\"h2\">\\s*([A-Z])\\s*-\\s*([^<]+)</span>";

/// A `<pre>` block, its content captured.
pub const PRE_PATTERN: &'static str = "(?s)<pre>(.*?)</pre>";

/// The input section's heading.
pub const INPUT_HEADING: &'static str = "<h3>入力</h3>";

/// The output section's heading.
pub const OUTPUT_HEADING: &'static str = "<h3>出力</h3>";

// ─── removing tags ──────────────────────────────────────────────────────────

/// `&lt;`, `&gt;` and `&amp;` decoded, in that order.
pub open spec fn unescape(s: Seq<char>) -> Seq<char> {
    spec_replace(spec_replace(spec_replace(s, "&lt;"@, "<"@), "&gt;"@, ">"@), "&amp;"@, "&"@)
}

fn unescape_exec(s: &Vec<char>) -> (r: Vec<char>)
    ensures
        r@ == unescape(s@),
{
    let a = replace_str(s, "&lt;", "<");
    let b = replace_str(&a, "&gt;", ">");
    replace_str(&b, "&amp;", "&")
}

pub open spec fn spec_strip_tags(html: Seq<char>) -> Seq<char> {
    unescape(replaced_all_or_same(LAZY_TAG_PATTERN@, html, ""@))
}

/// `html` with every tag removed and `&lt;`, `&gt;`, `&amp;` decoded.
pub fn strip_tags(html: &str) -> (r: String)
    ensures
        r@ == spec_strip_tags(html@),
{
    let s = replace_all_or_same(LAZY_TAG_PATTERN, &chars_of(html), "");
    string_of(&unescape_exec(&s))
}

pub open spec fn spec_strip_tags_keep_code(html: Seq<char>) -> Seq<char> {
    let a = spec_replace(spec_replace(html, "<code>"@, "\x00CODEOPEN\x00"@), "</code>"@, "\x00CODECLOSE\x00"@);
    let b = replaced_all_or_same(ANY_TAG_PATTERN@, a, ""@);
    let c = spec_replace(spec_replace(b, "\x00CODEOPEN\x00"@, "<code>"@), "\x00CODECLOSE\x00"@, "</code>"@);
    unescape(c)
}

/// `html` with every tag but `<code>` / `</code>` removed, and `&lt;`,
/// `&gt;`, `&amp;` decoded.
pub fn strip_tags_keep_code(html: &str) -> (r: String)
    ensures
        r@ == spec_strip_tags_keep_code(html@),
{
    let s0 = chars_of(html);
    let s1 = replace_str(&s0, "<code>", "\x00CODEOPEN\x00");
    let s2 = replace_str(&s1, "</code>", "\x00CODECLOSE\x00");
    let s3 = replace_all_or_same(ANY_TAG_PATTERN, &s2, "");
    let s4 = replace_str(&s3, "\x00CODEOPEN\x00", "<code>");
    let s5 = replace_str(&s4, "\x00CODECLOSE\x00", "</code>");
    string_of(&unescape_exec(&s5))
}

// ─── constraint items ───────────────────────────────────────────────────────

/// Group 1 of a match, when it took part.
pub open spec fn group1(g: Seq<Option<Seq<char>>>) -> Option<Seq<char>> {
    if g.len() > 1 {
        g[1]
    } else {
        None
    }
}

/// The non-empty texts of the list items, tags but `<code>` removed.
pub open spec fn li_texts(groups: Seq<Seq<Option<Seq<char>>>>) -> Seq<Seq<char>>
    decreases groups.len(),
{
    if groups.len() == 0 {
        seq![]
    } else {
        let p = li_texts(groups.drop_last());
        match group1(groups.last()) {
            Some(x) => {
                let t = spec_trim(spec_strip_tags_keep_code(x));
                if t.len() > 0 {
                    p.push(t)
                } else {
                    p
                }
            },
            None => p,
        }
    }
}

pub open spec fn li_items(scope: Seq<char>) -> Seq<Seq<char>> {
    if regex_compiles(LI_PATTERN@) {
        li_texts(regex_capture_groups(LI_PATTERN@, scope))
    } else {
        seq![]
    }
}

/// The section under heading `key`: from `<h3>key</h3>` to the next `<h3>`
/// or `</section>`.
pub open spec fn scope_pattern(key: Seq<char>) -> Seq<char> {
    "(?s)<h3>"@ + regex_escaped(key) + "</h3>(.*?)(?:<h3>|</section>)"@
}

pub open spec fn items_under(key: Seq<char>, seg: Seq<char>) -> Seq<Seq<char>> {
    let p = scope_pattern(key);
    if regex_compiles(p) {
        match regex_first_captures(p, seg) {
            Some(g) => match group1(g) {
                Some(scope) => li_items(scope),
                None => seq![],
            },
            None => seq![],
        }
    } else {
        seq![]
    }
}

pub open spec fn spec_extract_constraints_items(seg: Seq<char>) -> Seq<Seq<char>> {
    let ja = items_under("制約"@, seg);
    if ja.len() > 0 {
        ja
    } else {
        items_under("Constraints"@, seg)
    }
}

fn group1_exec(g: &Vec<Option<String>>) -> (r: Option<String>)
    ensures
        crate::regex_ops::opt_view(r) == group1(crate::regex_ops::groups_view(g@)),
{
    if g.len() > 1 {
        match &g[1] {
            Some(s) => Some(s.clone()),
            None => None,
        }
    } else {
        None
    }
}

fn li_items_exec(scope: &str) -> (r: Vec<String>)
    ensures
        sv(r@) == li_items(scope@),
{
    let caps = match re_captures_all(LI_PATTERN, scope) {
        Some(c) => c,
        None => return Vec::new(),
    };
    let ghost gs = crate::regex_ops::all_groups_view(caps@);
    let mut items: Vec<String> = Vec::new();
    let mut i: usize = 0;
    assert(gs.take(0) =~= Seq::<Seq<Option<Seq<char>>>>::empty());
    while i < caps.len()
        invariant
            gs == crate::regex_ops::all_groups_view(caps@),
            i <= caps@.len(),
            sv(items@) == li_texts(gs.take(i as int)),
        decreases caps.len() - i,
    {
        assert(gs.take(i + 1).drop_last() =~= gs.take(i as int));
        assert(gs[i as int] == crate::regex_ops::groups_view(caps@[i as int]@));
        match group1_exec(&caps[i]) {
            Some(x) => {
                let t = trim(&chars_of(strip_tags_keep_code(x.as_str()).as_str()));
                if t.len() > 0 {
                    let s = string_of(&t);
                    proof {
                        crate::text::lemma_sv_push(items@, s);
                    }
                    items.push(s);
                }
            },
            None => {},
        }
        i += 1;
    }
    assert(gs.take(caps@.len() as int) =~= gs);
    items
}

fn items_under_exec(key: &str, seg: &str) -> (r: Vec<String>)
    ensures
        sv(r@) == items_under(key@, seg@),
{
    let esc = re_escape(key);
    let a = concat_str("(?s)<h3>", esc.as_str());
    let pattern = concat_str(a.as_str(), "</h3>(.*?)(?:<h3>|</section>)");
    assert(pattern@ == scope_pattern(key@));
    match re_captures(pattern.as_str(), seg) {
        Some(Some(g)) => match group1_exec(&g) {
            Some(scope) => li_items_exec(scope.as_str()),
            None => Vec::new(),
        },
        _ => Vec::new(),
    }
}

/// The items of the constraints section (`制約`, else `Constraints`), tags
/// but `<code>` removed, trimmed, the empty ones dropped.
pub fn extract_constraints_items(seg: &str) -> (r: Vec<String>)
    ensures
        sv(r@) == spec_extract_constraints_items(seg@),
{
    let ja = items_under_exec("制約", seg);
    if ja.len() > 0 {
        return ja;
    }
    items_under_exec("Constraints", seg)
}

// ─── task sections ──────────────────────────────────────────────────────────

/// The non-empty trimmed lines of a text.
pub open spec fn nonempty_lines(parts: Seq<Seq<char>>) -> Seq<Seq<char>>
    decreases parts.len(),
{
    if parts.len() == 0 {
        seq![]
    } else {
        let p = nonempty_lines(parts.drop_last());
        let t = spec_trim(parts.last());
        if t.len() > 0 {
            p.push(t)
        } else {
            p
        }
    }
}

pub open spec fn pre_lines(g: Seq<Option<Seq<char>>>) -> Seq<Seq<char>> {
    match group1(g) {
        Some(x) => nonempty_lines(spec_split_char(spec_strip_tags(x), '\n')),
        None => seq![],
    }
}

/// The lines of each `<pre>` block of the input section.
pub open spec fn pre_blocks(groups: Seq<Seq<Option<Seq<char>>>>) -> Seq<Seq<Seq<char>>>
    decreases groups.len(),
{
    if groups.len() == 0 {
        seq![]
    } else {
        pre_blocks(groups.drop_last()).push(pre_lines(groups.last()))
    }
}

pub open spec fn input_blocks_of(inp: Seq<char>) -> Seq<Seq<Seq<char>>> {
    if regex_compiles(PRE_PATTERN@) {
        pre_blocks(regex_capture_groups(PRE_PATTERN@, inp))
    } else {
        seq![]
    }
}

/// One task's part of the page: from its heading to the next heading.
pub open spec fn segment(html: Seq<char>, i: int) -> Seq<char> {
    regex_match_texts(SPAN_PATTERN@, html)[i] + regex_split_parts(SPAN_PATTERN@, html)[i + 1]
}

/// The input section starts no later than the output section, or there is
/// no input section.
pub open spec fn segment_ordered(seg: Seq<char>) -> bool {
    match spec_find(seg, INPUT_HEADING@) {
        Some(a) => match spec_find(seg, OUTPUT_HEADING@) {
            Some(b) => a <= b,
            None => true,
        },
        None => true,
    }
}

pub open spec fn sections_ordered(html: Seq<char>) -> bool {
    regex_compiles(SPAN_PATTERN@) ==> forall|i: int|
        0 <= i < regex_match_texts(SPAN_PATTERN@, html).len() ==> #[trigger] segment_ordered(segment(html, i))
}

/// A task section as values.
pub struct TaskM {
    pub letter: Seq<char>,
    pub blocks: Seq<Seq<Seq<char>>>,
    pub items: Seq<Seq<char>>,
}

pub open spec fn task_model(t: TaskSection) -> TaskM {
    TaskM {
        letter: t.letter@,
        blocks: crate::parse::task::blocks_lines(t.input_blocks@),
        items: sv(t.constraints_items@),
    }
}

/// The section of one task, when it has an input section.
pub open spec fn section_of(seg: Seq<char>, letter: Seq<char>) -> Option<TaskM> {
    match spec_find(seg, INPUT_HEADING@) {
        Some(a) => {
            let b = match spec_find(seg, OUTPUT_HEADING@) {
                Some(b) => b,
                None => seg.len() as int,
            };
            Some(
                TaskM {
                    letter,
                    blocks: input_blocks_of(seg.subrange(a, b)),
                    items: spec_extract_constraints_items(seg),
                },
            )
        },
        None => None,
    }
}

/// The letter of heading `i`: group 1, trimmed.
pub open spec fn letter_of(html: Seq<char>, i: int) -> Seq<char> {
    match group1(regex_capture_groups(SPAN_PATTERN@, html)[i]) {
        Some(l) => spec_trim(l),
        None => seq![],
    }
}

pub open spec fn sections_upto(html: Seq<char>, n: int) -> Seq<TaskM>
    decreases n,
{
    if n <= 0 {
        seq![]
    } else {
        let p = sections_upto(html, n - 1);
        match section_of(segment(html, n - 1), letter_of(html, n - 1)) {
            Some(t) => p.push(t),
            None => p,
        }
    }
}

pub open spec fn spec_parse_task_sections(html: Seq<char>) -> Seq<TaskM> {
    if regex_compiles(SPAN_PATTERN@) {
        sections_upto(html, regex_match_texts(SPAN_PATTERN@, html).len() as int)
    } else {
        seq![]
    }
}

fn lines_exec(txt: &Vec<char>) -> (r: Vec<String>)
    ensures
        sv(r@) == nonempty_lines(spec_split_char(txt@, '\n')),
{
    let parts = split_char(txt, '\n');
    let ghost ps = vv(parts@);
    let mut out: Vec<String> = Vec::new();
    let mut i: usize = 0;
    assert(ps.take(0) =~= Seq::<Seq<char>>::empty());
    while i < parts.len()
        invariant
            ps == vv(parts@),
            i <= parts@.len(),
            sv(out@) == nonempty_lines(ps.take(i as int)),
        decreases parts.len() - i,
    {
        assert(ps.take(i + 1).drop_last() =~= ps.take(i as int));
        let t = trim(&parts[i]);
        if t.len() > 0 {
            let s = string_of(&t);
            proof {
                crate::text::lemma_sv_push(out@, s);
            }
            out.push(s);
        }
        i += 1;
    }
    assert(ps.take(parts@.len() as int) =~= ps);
    out
}

fn input_blocks_exec(inp: &str) -> (r: Vec<Vec<String>>)
    ensures
        crate::parse::task::blocks_lines(r@) == input_blocks_of(inp@),
{
    let caps = match re_captures_all(PRE_PATTERN, inp) {
        Some(c) => c,
        None => {
            let v: Vec<Vec<String>> = Vec::new();
            assert(crate::parse::task::blocks_lines(v@) =~= Seq::<Seq<Seq<char>>>::empty());
            return v;
        },
    };
    let ghost gs = crate::regex_ops::all_groups_view(caps@);
    let mut blocks: Vec<Vec<String>> = Vec::new();
    let mut i: usize = 0;
    assert(gs.take(0) =~= Seq::<Seq<Option<Seq<char>>>>::empty());
    assert(crate::parse::task::blocks_lines(blocks@) =~= pre_blocks(gs.take(0)));
    while i < caps.len()
        invariant
            gs == crate::regex_ops::all_groups_view(caps@),
            i <= caps@.len(),
            crate::parse::task::blocks_lines(blocks@) == pre_blocks(gs.take(i as int)),
        decreases caps.len() - i,
    {
        assert(gs.take(i + 1).drop_last() =~= gs.take(i as int));
        assert(gs[i as int] == crate::regex_ops::groups_view(caps@[i as int]@));
        let lines = match group1_exec(&caps[i]) {
            Some(x) => lines_exec(&chars_of(strip_tags(x.as_str()).as_str())),
            None => {
                let v: Vec<String> = Vec::new();
                assert(sv(v@) =~= Seq::<Seq<char>>::empty());
                v
            },
        };
        let ghost before = blocks@;
        blocks.push(lines);
        assert(crate::parse::task::blocks_lines(blocks@) =~= crate::parse::task::blocks_lines(before).push(
            sv(lines@),
        ));
        i += 1;
    }
    assert(gs.take(caps@.len() as int) =~= gs);
    blocks
}

/// Every task of the page with an input section, in page order: its letter
/// (the heading's letter, trimmed), the non-empty trimmed lines of each
/// `<pre>` block between the input and output headings (tags removed), and
/// its constraint items. Requires each task's input heading to come no later
/// than its output heading.
pub fn parse_task_sections(task_html: &str) -> (r: Vec<TaskSection>)
    requires
        sections_ordered(task_html@),
    ensures
        r@.map_values(|t: TaskSection| task_model(t)) == spec_parse_task_sections(task_html@),
{
    let parts = match re_split(SPAN_PATTERN, task_html) {
        Some(p) => p,
        None => {
            let v: Vec<TaskSection> = Vec::new();
            assert(v@.map_values(|t: TaskSection| task_model(t)) =~= Seq::<TaskM>::empty());
            return v;
        },
    };
    let matches = match re_find_all(SPAN_PATTERN, task_html) {
        Some(m) => m,
        None => return Vec::new(),
    };
    let caps = match re_captures_all(SPAN_PATTERN, task_html) {
        Some(c) => c,
        None => return Vec::new(),
    };
    let ghost ms = regex_match_texts(SPAN_PATTERN@, task_html@);
    let ghost ps = regex_split_parts(SPAN_PATTERN@, task_html@);
    let mut out: Vec<TaskSection> = Vec::new();
    let mut i: usize = 0;
    assert(out@.map_values(|t: TaskSection| task_model(t)) =~= sections_upto(task_html@, 0));
    while i < matches.len()
        invariant
            ms == regex_match_texts(SPAN_PATTERN@, task_html@),
            ps == regex_split_parts(SPAN_PATTERN@, task_html@),
            sv(matches@) == ms,
            sv(parts@) == ps,
            parts@.len() == ms.len() + 1,
            crate::regex_ops::all_groups_view(caps@) == regex_capture_groups(SPAN_PATTERN@, task_html@),
            caps@.len() == ms.len(),
            regex_compiles(SPAN_PATTERN@),
            sections_ordered(task_html@),
            i <= ms.len(),
            out@.map_values(|t: TaskSection| task_model(t)) == sections_upto(task_html@, i as int),
        decreases matches.len() - i,
    {
        let mut seg = chars_of(matches[i].as_str());
        append_chars(&mut seg, &chars_of(parts[i + 1].as_str()));
        assert(sv(matches@)[i as int] == matches@[i as int]@);
        assert(sv(parts@)[i + 1] == parts@[i + 1]@);
        assert(seg@ == segment(task_html@, i as int));
        assert(segment_ordered(segment(task_html@, i as int)));
        assert(regex_capture_groups(SPAN_PATTERN@, task_html@)[i as int] == crate::regex_ops::groups_view(
            caps@[i as int]@,
        ));
        let letter = match group1_exec(&caps[i]) {
            Some(l) => string_of(&trim(&chars_of(l.as_str()))),
            None => String::new(),
        };
        assert(letter@ == letter_of(task_html@, i as int));
        let ghost before = out@;
        match find_str(&seg, INPUT_HEADING) {
            Some(a) => {
                let b = match find_str(&seg, OUTPUT_HEADING) {
                    Some(b) => b,
                    None => seg.len(),
                };
                let inp = copy_range(&seg, a, b);
                let seg_s = string_of(&seg);
                let blocks = input_blocks_exec(string_of(&inp).as_str());
                let items = extract_constraints_items(seg_s.as_str());
                let t = TaskSection { letter, input_blocks: blocks, constraints_items: items };
                out.push(t);
                assert(out@.map_values(|t: TaskSection| task_model(t)) =~= before.map_values(
                    |t: TaskSection| task_model(t),
                ).push(task_model(t)));
            },
            None => {},
        }
        i += 1;
    }
    out
}

/// Whether each task's input heading comes no later than its output
/// heading, as `parse_task_sections` requires.
pub fn task_sections_ordered(task_html: &str) -> (r: bool)
    ensures
        r == sections_ordered(task_html@),
{
    let parts = match re_split(SPAN_PATTERN, task_html) {
        Some(p) => p,
        None => return true,
    };
    let matches = match re_find_all(SPAN_PATTERN, task_html) {
        Some(m) => m,
        None => return true,
    };
    let ghost ms = regex_match_texts(SPAN_PATTERN@, task_html@);
    let mut i: usize = 0;
    while i < matches.len()
        invariant
            ms == regex_match_texts(SPAN_PATTERN@, task_html@),
            sv(matches@) == ms,
            sv(parts@) == regex_split_parts(SPAN_PATTERN@, task_html@),
            parts@.len() == ms.len() + 1,
            regex_compiles(SPAN_PATTERN@),
            i <= ms.len(),
            forall|j: int| 0 <= j < i ==> #[trigger] segment_ordered(segment(task_html@, j)),
        decreases matches.len() - i,
    {
        let mut seg = chars_of(matches[i].as_str());
        append_chars(&mut seg, &chars_of(parts[i + 1].as_str()));
        assert(sv(matches@)[i as int] == matches@[i as int]@);
        assert(sv(parts@)[i + 1] == parts@[i + 1]@);
        assert(seg@ == segment(task_html@, i as int));
        match find_str(&seg, INPUT_HEADING) {
            Some(a) => match find_str(&seg, OUTPUT_HEADING) {
                Some(b) => if a > b {
                    assert(!segment_ordered(segment(task_html@, i as int)));
                    return false;
                },
                None => {},
            },
            None => {},
        }
        i += 1;
    }
    true
}

/// `parse_task_sections` where the page meets its requirement; `None`
/// where some task's output heading comes before its input heading.
pub fn parse_task_sections_checked(task_html: &str) -> (r: Option<Vec<TaskSection>>)
    ensures
        r is Some <==> sections_ordered(task_html@),
        r matches Some(v) ==> v@.map_values(|t: TaskSection| task_model(t)) == spec_parse_task_sections(task_html@),
{
    if task_sections_ordered(task_html) {
        Some(parse_task_sections(task_html))
    } else {
        None
    }
}

} // verus!
