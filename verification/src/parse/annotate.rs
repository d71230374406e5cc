//! Which task of a contest page a test-suite file is annotated with.

use vstd::prelude::*;
use crate::parse::enrich::{spec_task_section, task_to_format_blocks};
use crate::parse::task::blocks_lines;
use crate::parse::types::{RandomTestSection, TaskSection};
use crate::text::sv;

verus! {

/// The first task section with this letter.
pub open spec fn first_with_letter(ts: Seq<TaskSection>, letter: Seq<char>) -> Option<TaskSection>
    decreases ts.len(),
{
    if ts.len() == 0 {
        None
    } else if ts[0].letter@ == letter {
        Some(ts[0])
    } else {
        first_with_letter(ts.drop_first(), letter)
    }
}

fn index_with_letter(sections: &Vec<TaskSection>, letter: &str) -> (r: Option<usize>)
    ensures
        match r {
            None => first_with_letter(sections@, letter@) is None,
            Some(i) => i < sections@.len() && first_with_letter(sections@, letter@) == Some(sections@[i as int]),
        },
{
    let ghost ts = sections@;
    let mut i: usize = 0;
    assert(ts.skip(0) =~= ts);
    while i < sections.len()
        invariant
            ts == sections@,
            i <= ts.len(),
            first_with_letter(ts, letter@) == first_with_letter(ts.skip(i as int), letter@),
        decreases sections.len() - i,
    {
        assert(ts.skip(i as int)[0] == ts[i as int]);
        assert(ts.skip(i as int).drop_first() =~= ts.skip(i + 1));
        if crate::text::str_eq(sections[i].letter.as_str(), letter) {
            return Some(i);
        }
        i += 1;
    }
    None
}

/// The `random_test:` section for the test-suite file `<stem>.yml`: the
/// task whose letter is the stem upper-cased, lowered to format blocks;
/// `None` when no task has that letter.
pub fn section_for_stem(sections: &Vec<TaskSection>, stem: &str) -> (r: Option<RandomTestSection>)
    ensures
        match first_with_letter(sections@, crate::text::spec_upper(stem@)) {
            None => r is None,
            Some(t) => r matches Some(s) && spec_task_section(
                blocks_lines(t.input_blocks@),
                sv(t.constraints_items@),
                s.model(),
            ),
        },
{
    let letter = crate::text::upper_str(stem);
    match index_with_letter(sections, letter.as_str()) {
        Some(i) => Some(task_to_format_blocks(&sections[i])),
        None => None,
    }
}

} // verus!
