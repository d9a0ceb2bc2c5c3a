//! What the readers of trajectory lines share.

use crate::text::{append_decimal, decimal, trim, trimmed};
use vstd::prelude::*;
use vstd::string::StringExecFns;

verus! {

/// The key that the state stands behind, in its quotes.
pub open spec fn state_key() -> Seq<char> {
    "\"state\""@
}

/// A complaint about a line.
pub open spec fn about_line(line_no: nat, what: Seq<char>) -> Seq<char> {
    "line "@ + decimal(line_no) + ": "@ + what
}

pub fn complain(line_no: usize, what: &str) -> (r: String)
    ensures
        r@ == about_line(line_no as nat, what@),
{
    let mut r = String::new();
    r.append("line ");
    append_decimal(&mut r, line_no as u64);
    r.append(": ");
    r.append(what);
    assert(r@ =~= about_line(line_no as nat, what@));
    r
}

/// Whether a line holds nothing but white space.
pub fn is_blank(line: &Vec<char>) -> (r: bool)
    ensures
        r == (trimmed(line@).len() == 0),
{
    trim(line).len() == 0
}

/// How many positions are worked on: all that there are, or at most `limit`
/// where that is not zero.
pub open spec fn limited(count: int, limit: int) -> int {
    if limit == 0 || count <= limit {
        count
    } else {
        limit
    }
}

pub fn apply_limit(count: usize, limit: usize) -> (r: usize)
    ensures
        r == limited(count as int, limit as int),
{
    if limit == 0 || count <= limit {
        count
    } else {
        limit
    }
}

} // verus!
