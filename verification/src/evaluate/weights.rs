//! Weight files.

use crate::evaluate::schema::{find_name, name_position, EVAL_FEATURE_NAMES, NUM_EVAL_FEATURES};
use crate::float32::Float32;
use crate::text::{
    append_decimal, chars_of, contents, decimal, first_where, lemma_first_where, lines, lines_of,
    section, string_of, trim, trimmed, words, words_of,
};
use vstd::prelude::*;
use vstd::string::StringExecFns;

verus! {

/// How a number is read from text: the number, or why it is none.
pub type NumberFn = spec_fn(Seq<char>) -> Result<Float32, Seq<char>>;

/// Whether the executable reader `read` takes every text.
pub open spec fn reads_all<P: Fn(&str) -> Result<Float32, String>>(read: P) -> bool {
    forall|s: &str| #[trigger] read.requires((s,))
}

/// Whether the executable reader `read` reads as `num` says.
pub open spec fn reads_as<P: Fn(&str) -> Result<Float32, String>>(read: P, num: NumberFn) -> bool {
    forall|s: &str, r: Result<Float32, String>| #[trigger]
        read.ensures((s,), r) ==> read_result(r) == num(s@)
}

/// A reader's answer, its complaint as plain characters.
pub open spec fn read_result(r: Result<Float32, String>) -> Result<Float32, Seq<char>> {
    match r {
        Ok(x) => Ok(x),
        Err(e) => Err(e@),
    }
}

/// Weights read so far: the value of each feature, and which have been met.
#[verifier::ext_equal]
pub struct WeightsSoFar {
    pub weights: Seq<Float32>,
    pub seen: Seq<bool>,
}

/// Before anything was read.
pub open spec fn no_weights() -> WeightsSoFar {
    WeightsSoFar {
        weights: Seq::new(NUM_EVAL_FEATURES as nat, |i: int| Float32 { bits: 0 }),
        seen: Seq::new(NUM_EVAL_FEATURES as nat, |i: int| false),
    }
}

/// What counts of a line: what stands before a `#`, without white space
/// around it.
pub open spec fn payload(line: Seq<char>) -> Seq<char> {
    trimmed(line.take(first_where(line, |c: char| c == '#')))
}

/// The start of a complaint about the line at `index`.
pub open spec fn at_line(index: int) -> Seq<char> {
    "line "@ + decimal((index + 1) as nat) + ": "@
}

/// What one more line, at `index`, makes of the weights.
pub open spec fn weight_line(so_far: WeightsSoFar, index: int, line: Seq<char>, num: NumberFn) -> Result<
    WeightsSoFar,
    Seq<char>,
> {
    let tokens = words(payload(line));
    if tokens.len() == 0 {
        Ok(so_far)
    } else if tokens.len() == 1 {
        Err(at_line(index) + "missing value for "@ + tokens[0])
    } else if tokens.len() > 2 {
        Err(at_line(index) + "trailing tokens"@)
    } else {
        match name_position(tokens[0]) {
            None => Err(at_line(index) + "unknown weight name "@ + tokens[0]),
            Some(i) => if so_far.seen[i] {
                Err(at_line(index) + "duplicate weight "@ + tokens[0])
            } else {
                match num(tokens[1]) {
                    Err(e) => Err(at_line(index) + "bad value for "@ + tokens[0] + ": "@ + e),
                    Ok(x) => if !x.finite() {
                        Err(at_line(index) + "non-finite value for "@ + tokens[0])
                    } else {
                        Ok(
                            WeightsSoFar {
                                weights: so_far.weights.update(i, x),
                                seen: so_far.seen.update(i, true),
                            },
                        )
                    },
                }
            },
        }
    }
}

/// What the first `n` lines make of the weights.
pub open spec fn weight_lines(all: Seq<Seq<char>>, n: int, num: NumberFn) -> Result<
    WeightsSoFar,
    Seq<char>,
>
    decreases n,
{
    if n <= 0 {
        Ok(no_weights())
    } else {
        match weight_lines(all, n - 1, num) {
            Err(e) => Err(e),
            Ok(so_far) => weight_line(so_far, n - 1, all[n - 1], num),
        }
    }
}

/// The first feature from `i` on that was not met.
pub open spec fn first_missing(seen: Seq<bool>, i: int) -> Option<int>
    decreases NUM_EVAL_FEATURES - i,
{
    if i >= NUM_EVAL_FEATURES {
        None
    } else if !seen[i] {
        Some(i)
    } else {
        first_missing(seen, i + 1)
    }
}

/// The weights that a file holds, or what is wrong with it first.
pub open spec fn weights_of(text: Seq<char>, num: NumberFn) -> Result<Seq<Float32>, Seq<char>> {
    let all = lines(text);
    match weight_lines(all, all.len() as int, num) {
        Err(e) => Err(e),
        Ok(so_far) => match first_missing(so_far.seen, 0) {
            Some(i) => Err("missing weight "@ + EVAL_FEATURE_NAMES@[i]@),
            None => Ok(so_far.weights),
        },
    }
}

/// Whether a result is the one that was specified.
pub open spec fn agrees(
    r: Result<[Float32; 36], String>,
    wanted: Result<Seq<Float32>, Seq<char>>,
) -> bool {
    match r {
        Ok(w) => wanted == Ok::<Seq<Float32>, Seq<char>>(w@),
        Err(e) => wanted == Err::<Seq<Float32>, Seq<char>>(e@),
    }
}

/// The start of a complaint about the line at `index`.
fn complaint(index: usize) -> (r: String)
    requires
        index < usize::MAX,
    ensures
        r@ == at_line(index as int),
{
    let mut r = String::new();
    r.append("line ");
    append_decimal(&mut r, index as u64 + 1);
    r.append(": ");
    assert(r@ =~= at_line(index as int));
    r
}

/// What counts of a line.
fn payload_of(line: &Vec<char>) -> (r: Vec<char>)
    ensures
        r@ == payload(line@),
{
    let mut end: usize = 0;
    while end < line.len() && line[end] != '#'
        invariant
            end <= line.len(),
            forall|i: int| 0 <= i < end ==> line@[i] != '#',
        decreases line.len() - end,
    {
        end = end + 1;
    }
    proof {
        lemma_first_where(line@, |c: char| c == '#', end as int);
    }
    let kept = section(line, 0, end);
    assert(kept@ =~= line@.take(end as int));
    trim(&kept)
}

/// Takes one more line of a weight file.
fn read_weight_line<P: Fn(&str) -> Result<Float32, String>>(
    weights: &mut [Float32; 36],
    seen: &mut [bool; 36],
    index: usize,
    line: &Vec<char>,
    read: &P,
) -> (r: Result<(), String>)
    requires
        reads_all(*read),
        index < usize::MAX,
    ensures
        forall|num: NumberFn|
            reads_as(*read, num) ==> {
                let wanted = #[trigger] weight_line(
                    WeightsSoFar { weights: old(weights)@, seen: old(seen)@ },
                    index as int,
                    line@,
                    num,
                );
                match r {
                    Ok(_) => wanted == Ok::<WeightsSoFar, Seq<char>>(
                        WeightsSoFar { weights: final(weights)@, seen: final(seen)@ },
                    ),
                    Err(e) => wanted == Err::<WeightsSoFar, Seq<char>>(e@),
                }
            },
{
    let tokens = words_of(&payload_of(line));
    proof {
        assert(contents(tokens@) == words(payload(line@)));
        assert(tokens@.len() == words(payload(line@)).len());
    }
    if tokens.len() == 0 {
        return Ok(());
    }
    assert(tokens@[0]@ == words(payload(line@))[0]);
    let mut message = complaint(index);
    let name = string_of(&tokens[0]);
    if tokens.len() == 1 {
        message.append("missing value for ");
        message.append(name.as_str());
        return Err(message);
    }
    assert(tokens@[1]@ == words(payload(line@))[1]);
    if tokens.len() > 2 {
        message.append("trailing tokens");
        return Err(message);
    }
    let place: usize = match find_name(&tokens[0]) {
        None => {
            message.append("unknown weight name ");
            message.append(name.as_str());
            return Err(message);
        },
        Some(i) => i,
    };
    if seen[place] {
        message.append("duplicate weight ");
        message.append(name.as_str());
        return Err(message);
    }
    let value = string_of(&tokens[1]);
    match read(value.as_str()) {
        Err(e) => {
            message.append("bad value for ");
            message.append(name.as_str());
            message.append(": ");
            message.append(e.as_str());
            Err(message)
        },
        Ok(x) => {
            if !x.is_finite() {
                message.append("non-finite value for ");
                message.append(name.as_str());
                return Err(message);
            }
            weights[place] = x;
            seen[place] = true;
            Ok(())
        },
    }
}

/// Parse a weights file: one `NAME value` pair per line, `#` starts a
/// comment. Every feature name must be present exactly once. `read` reads
/// one number.
pub fn parse_eval_weights<P: Fn(&str) -> Result<Float32, String>>(text: &str, read: &P) -> (r:
    Result<[Float32; 36], String>)
    requires
        reads_all(*read),
    ensures
        forall|num: NumberFn| reads_as(*read, num) ==> agrees(r, #[trigger] weights_of(text@, num)),
{
    let all = lines_of(&chars_of(text));
    let mut weights: [Float32; 36] = [Float32 { bits: 0 };36];
    let mut seen: [bool; 36] = [false;36];
    assert(weights@ =~= no_weights().weights);
    assert(seen@ =~= no_weights().seen);
    let mut index: usize = 0;
    while index < all.len()
        invariant
            index <= all.len(),
            reads_all(*read),
            contents(all@) == lines(text@),
            forall|num: NumberFn|
                reads_as(*read, num) ==> #[trigger] weight_lines(
                    contents(all@),
                    index as int,
                    num,
                ) == Ok::<WeightsSoFar, Seq<char>>(WeightsSoFar { weights: weights@, seen: seen@ }),
        decreases all.len() - index,
    {
        let ghost before = WeightsSoFar { weights: weights@, seen: seen@ };
        let r = read_weight_line(&mut weights, &mut seen, index, &all[index], read);
        proof {
            assert(contents(all@)[index as int] == all@[index as int]@);
            assert forall|num: NumberFn| reads_as(*read, num) implies (match r {
                Ok(_) => #[trigger] weight_lines(contents(all@), index + 1, num) == Ok::<
                    WeightsSoFar,
                    Seq<char>,
                >(WeightsSoFar { weights: weights@, seen: seen@ }),
                Err(e) => weight_lines(contents(all@), index + 1, num) == Err::<
                    WeightsSoFar,
                    Seq<char>,
                >(e@),
            }) by {
                assert(weight_lines(contents(all@), index as int, num) == Ok::<
                    WeightsSoFar,
                    Seq<char>,
                >(before));
                assert(weight_line(before, index as int, all@[index as int]@, num) == weight_lines(
                    contents(all@),
                    index + 1,
                    num,
                ));
            }
        }
        if let Err(e) = r {
            proof {
                assert forall|num: NumberFn| reads_as(*read, num) implies agrees(
                    Err(e),
                    #[trigger] weights_of(text@, num),
                ) by {
                    lemma_errors_stay(
                        contents(all@),
                        index + 1,
                        contents(all@).len() as int,
                        num,
                    );
                }
            }
            return Err(e);
        }
        index = index + 1;
    }
    let mut i: usize = 0;
    while i < NUM_EVAL_FEATURES
        invariant
            i <= NUM_EVAL_FEATURES,
            contents(all@) == lines(text@),
            index == all.len(),
            first_missing(seen@, 0) == first_missing(seen@, i as int),
            forall|num: NumberFn|
                reads_as(*read, num) ==> #[trigger] weight_lines(
                    contents(all@),
                    index as int,
                    num,
                ) == Ok::<WeightsSoFar, Seq<char>>(WeightsSoFar { weights: weights@, seen: seen@ }),
        decreases NUM_EVAL_FEATURES - i,
    {
        if !seen[i] {
            let mut message = String::new();
            message.append("missing weight ");
            message.append(EVAL_FEATURE_NAMES[i]);
            assert(message@ =~= "missing weight "@ + EVAL_FEATURE_NAMES@[i as int]@);
            assert forall|num: NumberFn| reads_as(*read, num) implies agrees(
                Err(message),
                #[trigger] weights_of(text@, num),
            ) by {
                assert(weight_lines(contents(all@), index as int, num) is Ok);
            }
            return Err(message);
        }
        i = i + 1;
    }
    assert forall|num: NumberFn| reads_as(*read, num) implies agrees(
        Ok(weights),
        #[trigger] weights_of(text@, num),
    ) by {
        assert(weight_lines(contents(all@), index as int, num) is Ok);
    }
    Ok(weights)
}

/// The first complaint is the one that is made.
proof fn lemma_errors_stay(all: Seq<Seq<char>>, n: int, m: int, num: NumberFn)
    requires
        0 <= n <= m,
        weight_lines(all, n, num) is Err,
    ensures
        weight_lines(all, m, num) == weight_lines(all, n, num),
    decreases m - n,
{
    if n < m {
        lemma_errors_stay(all, n, m - 1, num);
    }
}

} // verus!
