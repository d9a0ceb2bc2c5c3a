//! Adding a searched root value to trajectory lines.

use crate::mcts::moves::SCORE_ONE;
use crate::mcts::perform::{MctsResult, MctsSideResult};
use crate::rounding::{nearest_double, round_quotient, DOUBLE_RANGE, MOST_ROUNDED};
use crate::text::{
    append_decimal, decimal, find, found_from, section, skip_white, string_of, trimmed,
    trimmed_start,
};
use crate::trajectory::line::{about_line, complain, is_blank, state_key};
use vstd::prelude::*;
use vstd::string::StringExecFns;

verus! {

/// Where the state key of a line is, or the complaint that there is none.
pub open spec fn key_of(line: Seq<char>, line_no: nat) -> Result<int, Seq<char>> {
    match found_from(line, state_key(), 0) {
        Some(i) => Ok(i),
        None => Err(about_line(line_no, "missing state field"@)),
    }
}

/// Offset of the `"state"` key. The first occurrence is the key: earlier
/// fields are numbers and truth values except the schema, which cannot hold
/// it.
pub fn state_key_offset(line: &Vec<char>, line_no: usize) -> (r: Result<usize, String>)
    ensures
        match r {
            Ok(i) => key_of(line@, line_no as nat) == Ok::<int, Seq<char>>(i as int) && i
                + state_key().len() <= line@.len(),
            Err(e) => key_of(line@, line_no as nat) == Err::<int, Seq<char>>(e@),
        },
{
    match find(line, "\"state\"", 0) {
        Some(i) => Ok(i),
        None => Err(complain(line_no, "missing state field")),
    }
}

/// What closes a line behind the state.
pub open spec fn closing() -> Seq<char> {
    "\"}"@
}

/// The state that stands behind its key, which ends `rest`.
pub open spec fn state_behind(rest: Seq<char>, line_no: nat) -> Result<Seq<char>, Seq<char>> {
    match found_from(rest, ":"@, 0) {
        None => Err(about_line(line_no, "malformed state field"@)),
        Some(colon) => {
            let value = trimmed_start(rest.skip(colon + 1));
            if value.len() == 0 || value[0] != '"' {
                Err(about_line(line_no, "state must be a JSON string"@))
            } else {
                let inner = value.skip(1);
                if inner.len() < 2 || inner.skip(inner.len() - 2) != closing() {
                    Err(about_line(line_no, "state must be the final JSON field"@))
                } else {
                    Ok(inner.take(inner.len() - 2))
                }
            }
        },
    }
}

/// The serialized state inside a line whose key is at `key`. The state has
/// to be the final field.
pub fn serialized_state(line: &Vec<char>, key: usize, line_no: usize) -> (r: Result<String, String>)
    requires
        key + state_key().len() <= line@.len(),
    ensures
        match r {
            Ok(s) => state_behind(line@.skip(key + state_key().len()), line_no as nat) == Ok::<
                Seq<char>,
                Seq<char>,
            >(s@),
            Err(e) => state_behind(line@.skip(key + state_key().len()), line_no as nat) == Err::<
                Seq<char>,
                Seq<char>,
            >(e@),
        },
{
    proof {
        reveal_strlit("\"state\"");
        reveal_strlit(":");
        reveal_strlit("\"}");
    }
    let rest = section(line, key + 7, line.len());
    assert(rest@ =~= line@.skip(key + state_key().len()));
    let colon: usize = match find(&rest, ":", 0) {
        None => {
            return Err(complain(line_no, "malformed state field"));
        },
        Some(i) => i,
    };
    let quote: usize = skip_white(&rest, colon + 1);
    let ghost value = rest@.skip(quote as int);
    if quote >= rest.len() || rest[quote] != '"' {
        return Err(complain(line_no, "state must be a JSON string"));
    }
    let ghost inner = value.skip(1);
    assert(inner =~= rest@.skip(quote + 1));
    let length: usize = rest.len();
    if length - quote < 3 {
        return Err(complain(line_no, "state must be the final JSON field"));
    }
    assert(inner.skip(inner.len() - 2) =~= rest@.skip(length - 2));
    let ghost tail = rest@.skip(length - 2);
    if rest[length - 2] != '"' || rest[length - 1] != '}' {
        assert(tail[0] == rest@[length - 2]);
        assert(tail[1] == rest@[length - 1]);
        return Err(complain(line_no, "state must be the final JSON field"));
    }
    assert(tail =~= closing());
    let state = section(&rest, quote + 1, length - 2);
    assert(state@ =~= inner.take(inner.len() - 2));
    Ok(string_of(&state))
}

/// What is put before the state key of a relabeled line.
pub open spec fn label(value: Seq<char>, iterations: nat) -> Seq<char> {
    "\"root_value\":"@ + value + ",\"teacher_iterations\":"@ + decimal(iterations) + ","@
}

/// A line with a root value put before its state key.
pub open spec fn relabeled(line: Seq<char>, key: int, value: Seq<char>, iterations: nat) -> Seq<char> {
    line.take(key) + label(value, iterations) + line.skip(key)
}

/// Puts a root value before the state key, so that the state stays the final
/// field.
pub fn relabel(line: &Vec<char>, key: usize, value: &str, iterations: u32) -> (r: String)
    requires
        key <= line@.len(),
    ensures
        r@ == relabeled(line@, key as int, value@, iterations as nat),
{
    let before = section(line, 0, key);
    let after = section(line, key, line.len());
    let mut r = string_of(&before);
    r.append("\"root_value\":");
    r.append(value);
    r.append(",\"teacher_iterations\":");
    append_decimal(&mut r, iterations as u64);
    r.append(",");
    r.append(string_of(&after).as_str());
    assert(before@ =~= line@.take(key as int));
    assert(after@ =~= line@.skip(key as int));
    assert(r@ =~= relabeled(line@, key as int, value@, iterations as nat));
    r
}

/// Whether a line was relabeled already.
pub open spec fn has_root_value(line: Seq<char>) -> bool {
    found_from(line, "\"root_value\""@, 0) is Some
}

/// Refuses a line that was relabeled already.
pub fn check_unlabeled(line: &Vec<char>, line_no: usize) -> (r: Result<(), String>)
    ensures
        match r {
            Ok(_) => !has_root_value(line@),
            Err(e) => has_root_value(line@) && e@ == about_line(
                line_no as nat,
                "already has root_value; relabel the original dump instead"@,
            ),
        },
{
    match find(line, "\"root_value\"", 0) {
        None => Ok(()),
        Some(_) => Err(
            complain(line_no, "already has root_value; relabel the original dump instead"),
        ),
    }
}

/// What becomes of a line that is read.
#[derive(Clone, Copy, Debug, PartialEq, Eq, Structural)]
pub enum LineStep {
    /// A blank line is passed over.
    Skip,
    /// The line is relabeled, and more are read.
    Keep,
    /// The line is relabeled, and it is the last.
    KeepLast,
}

/// What becomes of a line when `kept` lines are kept already and no more
/// than `limit` are to be, where that is not zero.
pub open spec fn step_on(
    line: Seq<char>,
    line_no: nat,
    kept: int,
    limit: int,
) -> Result<LineStep, Seq<char>> {
    if trimmed(line).len() == 0 {
        Ok(LineStep::Skip)
    } else if has_root_value(line) {
        Err(about_line(line_no, "already has root_value; relabel the original dump instead"@))
    } else if limit > 0 && kept + 1 == limit {
        Ok(LineStep::KeepLast)
    } else {
        Ok(LineStep::Keep)
    }
}

pub fn take_line(line: &Vec<char>, line_no: usize, kept: usize, limit: usize) -> (r: Result<
    LineStep,
    String,
>)
    ensures
        match r {
            Ok(step) => step_on(line@, line_no as nat, kept as int, limit as int) == Ok::<
                LineStep,
                Seq<char>,
            >(step),
            Err(e) => step_on(line@, line_no as nat, kept as int, limit as int) == Err::<
                LineStep,
                Seq<char>,
            >(e@),
        },
{
    if is_blank(line) {
        return Ok(LineStep::Skip);
    }
    match check_unlabeled(line, line_no) {
        Err(e) => Err(e),
        Ok(_) => {
            if limit > 0 && kept == limit - 1 {
                Ok(LineStep::KeepLast)
            } else {
                Ok(LineStep::Keep)
            }
        },
    }
}

/// The visits of the first `n` moves together.
pub open spec fn visits_of(results: Seq<MctsSideResult>, n: int) -> int
    decreases n,
{
    if n <= 0 {
        0
    } else {
        visits_of(results, n - 1) + results[n - 1].visits
    }
}

/// The scores of the first `n` moves together, added in double precision.
pub open spec fn scores_of(results: Seq<MctsSideResult>, n: int) -> int
    decreases n,
{
    if n <= 0 {
        0
    } else {
        nearest_double(scores_of(results, n - 1) + results[n - 1].total_score, 1)
    }
}

/// Whether the scores of moves can be added up.
pub open spec fn summable(results: Seq<MctsSideResult>) -> bool {
    forall|i: int|
        0 <= i < results.len() ==> scores_of(results, i) + (#[trigger] results[i]).total_score
            <= MOST_ROUNDED
}

/// The root value of a battle that is over.
pub open spec fn decided_value(over: i8) -> Option<u64> {
    if over == 0 {
        None
    } else if over > 0 {
        Some(SCORE_ONE)
    } else {
        Some(0)
    }
}

pub fn value_if_over(over: i8) -> (r: Option<u64>)
    ensures
        r == decided_value(over),
{
    if over == 0 {
        None
    } else if over > 0 {
        Some(SCORE_ONE)
    } else {
        Some(0)
    }
}

/// The score and the visits of all of side one's moves together, whose
/// quotient is the root value. A search that counts nothing has none.
pub fn root_value(result: &MctsResult) -> (r: Option<(u128, u64)>)
    requires
        summable(result.s1@),
        visits_of(result.s1@, result.s1@.len() as int) <= u64::MAX,
    ensures
        ({
            let n = result.s1@.len() as int;
            match r {
                Some((score, visits)) => visits > 0 && score == scores_of(result.s1@, n) && visits
                    == visits_of(result.s1@, n),
                None => visits_of(result.s1@, n) == 0,
            }
        }),
{
    let mut score: u128 = 0;
    let mut visits: u64 = 0;
    let mut i: usize = 0;
    while i < result.s1.len()
        invariant
            i <= result.s1@.len(),
            score == scores_of(result.s1@, i as int),
            visits == visits_of(result.s1@, i as int),
            summable(result.s1@),
            visits_of(result.s1@, result.s1@.len() as int) <= u64::MAX,
        decreases result.s1@.len() - i,
    {
        proof {
            lemma_sums_grow(result.s1@, i + 1, result.s1@.len() as int);
            assert(scores_of(result.s1@, i as int) + result.s1@[i as int].total_score
                <= MOST_ROUNDED);
        }
        score = round_quotient(score + result.s1[i].total_score, 1, DOUBLE_RANGE);
        visits = visits + result.s1[i].visits;
        i = i + 1;
    }
    if visits == 0 {
        None
    } else {
        Some((score, visits))
    }
}

proof fn lemma_sums_grow(results: Seq<MctsSideResult>, n: int, m: int)
    requires
        0 <= n <= m <= results.len(),
    ensures
        visits_of(results, n) <= visits_of(results, m),
    decreases m - n,
{
    if n < m {
        lemma_sums_grow(results, n, m - 1);
    }
}

} // verus!
