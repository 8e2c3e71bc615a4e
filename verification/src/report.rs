//! Small verified pieces behind the report commands: which days a summary
//! covers, and the `HH:MM` rendering of a duration.

use crate::text::{char_of_digit, dec_text, push_decimal};
use vstd::prelude::*;

verus! {

/// Which days a summary covers: all of them, or only the last `n`.
#[derive(PartialEq, Eq, Structural, Clone, Copy, Debug)]
pub enum SummaryScope {
    All,
    Last(usize),
}

impl SummaryScope {
    /// Whether the day at position `idx` out of `len` falls inside the
    /// scope.
    pub fn keeps(&self, idx: usize, len: usize) -> (r: bool)
        ensures
            r == match *self {
                SummaryScope::All => true,
                SummaryScope::Last(n) => idx as int + n as int >= len as int,
            },
    {
        match self {
            SummaryScope::All => true,
            SummaryScope::Last(n) => *n >= len || idx >= len - *n,
        }
    }
}

/// The `HH:MM` text of a duration: minutes of the hour zero-padded to two
/// digits, hours zero-padded to at least two.
pub open spec fn duration_text(mins: int) -> Seq<char> {
    let h = mins / 60;
    let m = mins % 60;
    (if h < 10 {
        seq!['0'] + dec_text(h)
    } else {
        dec_text(h)
    }) + seq![':'] + (if m < 10 {
        seq!['0'] + dec_text(m)
    } else {
        dec_text(m)
    })
}

/// Writes a duration in minutes as `HH:MM`.
pub fn format_duration(work_time_mins: u64) -> (r: String)
    ensures
        r@ == duration_text(work_time_mins as int),
{
    proof {
        reveal_strlit("0");
        reveal_strlit(":");
        assert("0"@ =~= seq!['0']);
        assert(":"@ =~= seq![':']);
    }
    let h = work_time_mins / 60;
    let m = work_time_mins % 60;
    let mut s = String::new();
    if h < 10 {
        s.append("0");
    }
    push_decimal(&mut s, h);
    s.append(":");
    if m < 10 {
        s.append("0");
    }
    push_decimal(&mut s, m);
    assert(s@ =~= duration_text(work_time_mins as int));
    s
}

} // verus!
