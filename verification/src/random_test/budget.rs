//! Accounting for the size of a generated input.

use vstd::prelude::*;
use crate::text::{concat_str, nat_chars, string_of};

verus! {

/// A failure that ends the walk over a case: the user interrupted, or the
/// case grew past the size ceiling.
#[derive(Debug, PartialEq, Eq)]
pub enum GenError {
    Interrupted,
    Oversize(String),
}

/// The start of every size-ceiling message.
pub open spec fn oversize_prefix() -> Seq<char> {
    "input too large: "@
}

/// A size-ceiling failure, its message starting `input too large: `.
pub open spec fn is_oversize(e: GenError) -> bool {
    e matches GenError::Oversize(m) && crate::text::spec_starts_with(m@, oversize_prefix())
}

/// A size-ceiling failure with `msg`, a literal that starts with the prefix.
pub fn oversize(msg: &str) -> (r: GenError)
    requires
        crate::text::spec_starts_with(msg@, oversize_prefix()),
    ensures
        r matches GenError::Oversize(m) && m@ == msg@,
        is_oversize(r),
{
    GenError::Oversize(msg.to_string())
}

/// Elements generated so far, against a ceiling.
#[derive(Debug)]
pub struct Budget {
    pub used: u128,
    pub limit: u128,
}

impl Budget {
    /// Nothing used yet.
    pub fn new(limit: u128) -> (r: Budget)
        ensures
            r.used == 0,
            r.limit == limit,
    {
        Budget { used: 0, limit }
    }

    /// Count `n` more elements; past the ceiling, or past what 128 bits
    /// hold, the case is too large.
    pub fn add(&mut self, n: u128) -> (r: Result<(), GenError>)
        ensures
            final(self).limit == old(self).limit,
            old(self).used + n > u128::MAX ==> r is Err && final(self).used == old(self).used,
            old(self).used + n <= u128::MAX ==> final(self).used == old(self).used + n && (r is Ok
                <==> old(self).used + n <= old(self).limit),
            r matches Err(e) ==> is_oversize(e),
    {
        match self.used.checked_add(n) {
            None => {
                let m = "input too large: generated case element count overflows 128-bit range";
                proof {
                    reveal_strlit("input too large: generated case element count overflows 128-bit range");
                    reveal_strlit("input too large: ");
                    assert(m@.take(oversize_prefix().len() as int) =~= oversize_prefix());
                }
                Err(oversize(m))
            },
            Some(u) => {
                self.used = u;
                if self.used > self.limit {
                    let a = concat_str(
                        "input too large: generated case has at least ",
                        string_of(&nat_chars(self.used)).as_str(),
                    );
                    proof {
                        reveal_strlit("input too large: generated case has at least ");
                        reveal_strlit("input too large: ");
                    }
                    let b = concat_str(a.as_str(), " elements, exceeding the safety ceiling ");
                    let c = concat_str(b.as_str(), string_of(&nat_chars(self.limit)).as_str());
                    let d = concat_str(
                        c.as_str(),
                        "; narrow the range in the yml `vars:` section",
                    );
                    proof {
                        assert(d@.take(oversize_prefix().len() as int) =~= oversize_prefix());
                    }
                    return Err(GenError::Oversize(d));
                }
                Ok(())
            },
        }
    }
}

} // verus!
