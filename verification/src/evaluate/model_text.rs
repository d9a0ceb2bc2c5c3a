//! What the two model formats share.

use crate::evaluate::schema::{eval_feature_schema, feature_schema, find_name, name_position};
use crate::evaluate::weights::{
    no_weights, read_result, reads_all, reads_as, NumberFn, WeightsSoFar,
};
use crate::float32::Float32;
use crate::text::{
    behind, chars_of, contents, lines, lines_of, same, string_of, strip_prefix, trim, trimmed,
    words, words_of,
};
use vstd::prelude::*;
use vstd::string::StringExecFns;

verus! {

/// Whether a result is the one that was wanted, its value looked at through
/// `look`.
pub open spec fn told<T, U>(
    r: Result<T, String>,
    look: spec_fn(T) -> U,
    wanted: Result<U, Seq<char>>,
) -> bool {
    match r {
        Ok(x) => wanted == Ok::<U, Seq<char>>(look(x)),
        Err(e) => wanted == Err::<U, Seq<char>>(e@),
    }
}

/// Whether a trimmed line counts: it is not empty and no comment.
pub open spec fn counts(line: Seq<char>) -> bool {
    line.len() > 0 && line[0] != '#'
}

/// Those of the first `n` lines that count, trimmed.
pub open spec fn counting_lines(all: Seq<Seq<char>>, n: int) -> Seq<Seq<char>>
    decreases n,
{
    if n <= 0 {
        Seq::empty()
    } else if counts(trimmed(all[n - 1])) {
        counting_lines(all, n - 1).push(trimmed(all[n - 1]))
    } else {
        counting_lines(all, n - 1)
    }
}

/// The lines of a model file.
pub open spec fn model_lines(text: Seq<char>) -> Seq<Seq<char>> {
    counting_lines(lines(text), lines(text).len() as int)
}

pub fn model_lines_of(text: &str) -> (r: Vec<Vec<char>>)
    ensures
        contents(r@) == model_lines(text@),
        forall|i: int| 0 <= i < r@.len() ==> (#[trigger] r@[i])@.len() > 0,
{
    let all = lines_of(&chars_of(text));
    let mut r: Vec<Vec<char>> = Vec::new();
    let mut i: usize = 0;
    assert(contents(r@) =~= counting_lines(contents(all@), 0));
    while i < all.len()
        invariant
            i <= all.len(),
            contents(all@) == lines(text@),
            contents(r@) == counting_lines(contents(all@), i as int),
            forall|k: int| 0 <= k < r@.len() ==> (#[trigger] r@[k])@.len() > 0,
        decreases all.len() - i,
    {
        let line = trim(&all[i]);
        let ghost before = r@;
        assert(contents(all@)[i as int] == all@[i as int]@);
        if line.len() > 0 && line[0] != '#' {
            r.push(line);
            assert(contents(r@) =~= contents(before).push(line@));
        }
        i = i + 1;
    }
    r
}

/// A text and what to do where it ends too early: `noun` says what it is.
pub open spec fn line_at(all: Seq<Seq<char>>, cursor: int, noun: Seq<char>) -> Result<
    Seq<char>,
    Seq<char>,
> {
    if cursor < all.len() {
        Ok(all[cursor])
    } else {
        Err("unexpected end of "@ + noun)
    }
}

pub fn next_line(all: &Vec<Vec<char>>, cursor: usize, noun: &str) -> (r: Result<usize, String>)
    ensures
        match r {
            Ok(i) => i == cursor && cursor < all@.len() && line_at(
                contents(all@),
                cursor as int,
                noun@,
            ) == Ok::<Seq<char>, Seq<char>>(all@[cursor as int]@),
            Err(e) => line_at(contents(all@), cursor as int, noun@) == Err::<Seq<char>, Seq<char>>(
                e@,
            ),
        },
{
    if cursor < all.len() {
        Ok(cursor)
    } else {
        let mut e = String::new();
        e.append("unexpected end of ");
        e.append(noun);
        Err(e)
    }
}

/// Whether every number is finite.
pub open spec fn all_finite(values: Seq<Float32>) -> bool {
    forall|i: int| 0 <= i < values.len() ==> (#[trigger] values[i]).finite()
}

/// A finite number; `context` says in complaints what it is for.
pub open spec fn finite_number(value: Seq<char>, context: Seq<char>, num: NumberFn) -> Result<
    Float32,
    Seq<char>,
> {
    match num(value) {
        Err(e) => Err("bad "@ + context + " value "@ + value + ": "@ + e),
        Ok(x) => if x.finite() {
            Ok(x)
        } else {
            Err(context + " must be finite"@)
        },
    }
}

pub fn parse_finite_f32<P: Fn(&str) -> Result<Float32, String>>(
    value: &str,
    context: &str,
    read: &P,
) -> (r: Result<Float32, String>)
    requires
        reads_all(*read),
    ensures
        forall|num: NumberFn|
            reads_as(*read, num) ==> read_result(r) == #[trigger] finite_number(
                value@,
                context@,
                num,
            ),
        r matches Ok(x) ==> x.finite(),
{
    match read(value) {
        Err(e) => {
            let mut message = String::new();
            message.append("bad ");
            message.append(context);
            message.append(" value ");
            message.append(value);
            message.append(": ");
            message.append(e.as_str());
            assert(message@ =~= "bad "@ + context@ + " value "@ + value@ + ": "@ + e@);
            Err(message)
        },
        Ok(x) => {
            if x.is_finite() {
                Ok(x)
            } else {
                let mut message = String::new();
                message.append(context);
                message.append(" must be finite");
                assert(message@ =~= context@ + " must be finite"@);
                Err(message)
            }
        },
    }
}

/// What stands behind `prefix` in the line at `cursor`, or `complaint`.
pub open spec fn field_at(
    all: Seq<Seq<char>>,
    cursor: int,
    noun: Seq<char>,
    prefix: Seq<char>,
    complaint: Seq<char>,
) -> Result<Seq<char>, Seq<char>> {
    match line_at(all, cursor, noun) {
        Err(e) => Err(e),
        Ok(line) => match behind(line, prefix) {
            None => Err(complaint),
            Some(rest) => Ok(rest),
        },
    }
}

pub fn read_field(
    all: &Vec<Vec<char>>,
    cursor: usize,
    noun: &str,
    prefix: &str,
    complaint: &str,
) -> (r: Result<String, String>)
    ensures
        told(
            r,
            |s: String| s@,
            field_at(contents(all@), cursor as int, noun@, prefix@, complaint@),
        ),
        r is Ok ==> cursor < all@.len(),
{
    match next_line(all, cursor, noun) {
        Err(e) => Err(e),
        Ok(i) => match strip_prefix(&all[i], prefix) {
            None => Err(complaint.to_owned()),
            Some(rest) => Ok(string_of(&rest)),
        },
    }
}

/// The finite number behind `label` and a space, or what is wrong with it.
pub open spec fn number_at(
    all: Seq<Seq<char>>,
    cursor: int,
    noun: Seq<char>,
    label: Seq<char>,
    num: NumberFn,
) -> Result<Float32, Seq<char>> {
    match field_at(all, cursor, noun, label + " "@, "missing "@ + label) {
        Err(e) => Err(e),
        Ok(value) => finite_number(value, label, num),
    }
}

pub fn read_number<P: Fn(&str) -> Result<Float32, String>>(
    all: &Vec<Vec<char>>,
    cursor: usize,
    noun: &str,
    label: &str,
    read: &P,
) -> (r: Result<Float32, String>)
    requires
        reads_all(*read),
    ensures
        forall|num: NumberFn|
            reads_as(*read, num) ==> read_result(r) == #[trigger] number_at(
                contents(all@),
                cursor as int,
                noun@,
                label@,
                num,
            ),
        r matches Ok(x) ==> x.finite() && cursor < all@.len(),
{
    let mut prefix = String::new();
    prefix.append(label);
    prefix.append(" ");
    let mut complaint = String::new();
    complaint.append("missing ");
    complaint.append(label);
    assert(prefix@ =~= label@ + " "@);
    assert(complaint@ =~= "missing "@ + label@);
    match read_field(all, cursor, noun, prefix.as_str(), complaint.as_str()) {
        Err(e) => Err(e),
        Ok(value) => parse_finite_f32(value.as_str(), label, read),
    }
}

/// Whether the first two lines name the format and this feature order.
pub open spec fn opening(all: Seq<Seq<char>>, tag: Seq<char>, noun: Seq<char>) -> Result<
    (),
    Seq<char>,
> {
    match line_at(all, 0, noun) {
        Err(e) => Err(e),
        Ok(line) => if line != tag {
            Err("unsupported "@ + noun + " format"@)
        } else {
            match field_at(all, 1, noun, "feature_schema "@, "missing feature_schema"@) {
                Err(e) => Err(e),
                Ok(schema) => if schema != feature_schema() {
                    Err(
                        noun + " feature schema "@ + schema + ", expected "@ + feature_schema(),
                    )
                } else {
                    Ok(())
                },
            }
        },
    }
}

pub fn check_opening(all: &Vec<Vec<char>>, tag: &str, noun: &str) -> (r: Result<(), String>)
    ensures
        told(r, |u: ()| u, opening(contents(all@), tag@, noun@)),
        r is Ok ==> all@.len() >= 2,
{
    let first: usize = match next_line(all, 0, noun) {
        Err(e) => {
            return Err(e);
        },
        Ok(i) => i,
    };
    if !same(&all[first], tag) {
        let mut message = String::new();
        message.append("unsupported ");
        message.append(noun);
        message.append(" format");
        assert(message@ =~= "unsupported "@ + noun@ + " format"@);
        return Err(message);
    }
    let schema = match read_field(all, 1, noun, "feature_schema ", "missing feature_schema") {
        Err(e) => {
            return Err(e);
        },
        Ok(s) => s,
    };
    let expected = eval_feature_schema();
    if schema != expected {
        let mut message = String::new();
        message.append(noun);
        message.append(" feature schema ");
        message.append(schema.as_str());
        message.append(", expected ");
        message.append(expected.as_str());
        assert(message@ =~= noun@ + " feature schema "@ + schema@ + ", expected "@
            + feature_schema());
        return Err(message);
    }
    Ok(())
}

/// What one base weight line makes of the weights.
pub open spec fn base_line(so_far: WeightsSoFar, line: Seq<char>, num: NumberFn) -> Result<
    WeightsSoFar,
    Seq<char>,
> {
    let tokens = words(line);
    if tokens.len() == 0 || tokens[0] != "base"@ {
        Err("expected base weight"@)
    } else if tokens.len() == 1 {
        Err("missing base weight name"@)
    } else if tokens.len() == 2 {
        Err("missing base weight value"@)
    } else if tokens.len() > 3 {
        Err("trailing base weight tokens"@)
    } else {
        match name_position(tokens[1]) {
            None => Err("unknown base weight "@ + tokens[1]),
            Some(i) => if so_far.seen[i] {
                Err("duplicate base weight "@ + tokens[1])
            } else {
                match finite_number(tokens[2], tokens[1], num) {
                    Err(e) => Err(e),
                    Ok(x) => Ok(
                        WeightsSoFar {
                            weights: so_far.weights.update(i, x),
                            seen: so_far.seen.update(i, true),
                        },
                    ),
                }
            },
        }
    }
}

/// What `n` base weight lines from `start` on make of the weights.
pub open spec fn base_lines(
    all: Seq<Seq<char>>,
    start: int,
    n: int,
    noun: Seq<char>,
    num: NumberFn,
) -> Result<WeightsSoFar, Seq<char>>
    decreases n,
{
    if n <= 0 {
        Ok(no_weights())
    } else {
        match base_lines(all, start, n - 1, noun, num) {
            Err(e) => Err(e),
            Ok(so_far) => match line_at(all, start + n - 1, noun) {
                Err(e) => Err(e),
                Ok(line) => base_line(so_far, line, num),
            },
        }
    }
}

proof fn lemma_base_errors_stay(
    all: Seq<Seq<char>>,
    start: int,
    n: int,
    m: int,
    noun: Seq<char>,
    num: NumberFn,
)
    requires
        0 <= n <= m,
        base_lines(all, start, n, noun, num) is Err,
    ensures
        base_lines(all, start, m, noun, num) == base_lines(all, start, n, noun, num),
    decreases m - n,
{
    if n < m {
        lemma_base_errors_stay(all, start, n, m - 1, noun, num);
    }
}

fn read_base_line<P: Fn(&str) -> Result<Float32, String>>(
    weights: &mut [Float32; 36],
    seen: &mut [bool; 36],
    line: &Vec<char>,
    read: &P,
) -> (r: Result<(), String>)
    requires
        reads_all(*read),
    ensures
        forall|num: NumberFn|
            reads_as(*read, num) ==> told(
                r,
                |u: ()| WeightsSoFar { weights: final(weights)@, seen: final(seen)@ },
                #[trigger] base_line(
                    WeightsSoFar { weights: old(weights)@, seen: old(seen)@ },
                    line@,
                    num,
                ),
            ),
        all_finite(old(weights)@) ==> all_finite(final(weights)@),
{
    let tokens = words_of(line);
    proof {
        assert(contents(tokens@) == words(line@));
        assert(tokens@.len() == words(line@).len());
    }
    if tokens.len() == 0 {
        return Err("expected base weight".to_owned());
    }
    assert(tokens@[0]@ == words(line@)[0]);
    if !same(&tokens[0], "base") {
        return Err("expected base weight".to_owned());
    }
    if tokens.len() == 1 {
        return Err("missing base weight name".to_owned());
    }
    assert(tokens@[1]@ == words(line@)[1]);
    if tokens.len() == 2 {
        return Err("missing base weight value".to_owned());
    }
    assert(tokens@[2]@ == words(line@)[2]);
    if tokens.len() > 3 {
        return Err("trailing base weight tokens".to_owned());
    }
    let name = string_of(&tokens[1]);
    let place: usize = match find_name(&tokens[1]) {
        None => {
            let mut message = String::new();
            message.append("unknown base weight ");
            message.append(name.as_str());
            assert(message@ =~= "unknown base weight "@ + name@);
            return Err(message);
        },
        Some(i) => i,
    };
    if seen[place] {
        let mut message = String::new();
        message.append("duplicate base weight ");
        message.append(name.as_str());
        assert(message@ =~= "duplicate base weight "@ + name@);
        return Err(message);
    }
    let value = string_of(&tokens[2]);
    match parse_finite_f32(value.as_str(), name.as_str(), read) {
        Err(e) => Err(e),
        Ok(x) => {
            weights[place] = x;
            seen[place] = true;
            Ok(())
        },
    }
}

/// Reads the base weights, one line for each feature, from `start` on.
pub fn read_base_weights<P: Fn(&str) -> Result<Float32, String>>(
    all: &Vec<Vec<char>>,
    start: usize,
    noun: &str,
    read: &P,
) -> (r: Result<[Float32; 36], String>)
    requires
        reads_all(*read),
        start <= all@.len(),
    ensures
        forall|num: NumberFn|
            reads_as(*read, num) ==> (match r {
                Ok(w) => #[trigger] base_lines(contents(all@), start as int, 36, noun@, num)
                    matches Ok(so_far) && so_far.weights == w@,
                Err(e) => base_lines(contents(all@), start as int, 36, noun@, num) == Err::<
                    WeightsSoFar,
                    Seq<char>,
                >(e@),
            }),
        r matches Ok(w) ==> all_finite(w@) && start + 36 <= all@.len(),
{
    let mut weights: [Float32; 36] = [Float32 { bits: 0 };36];
    let mut seen: [bool; 36] = [false;36];
    assert(weights@ =~= no_weights().weights);
    assert(seen@ =~= no_weights().seen);
    let mut i: usize = 0;
    while i < 36
        invariant
            i <= 36,
            start + i <= all.len(),
            reads_all(*read),
            all_finite(weights@),
            forall|num: NumberFn|
                reads_as(*read, num) ==> #[trigger] base_lines(
                    contents(all@),
                    start as int,
                    i as int,
                    noun@,
                    num,
                ) == Ok::<WeightsSoFar, Seq<char>>(WeightsSoFar { weights: weights@, seen: seen@ }),
        decreases 36 - i,
    {
        let ghost before = WeightsSoFar { weights: weights@, seen: seen@ };
        let at: usize = match next_line(all, start + i, noun) {
            Err(e) => {
                assert forall|num: NumberFn| reads_as(*read, num) implies #[trigger] base_lines(
                    contents(all@),
                    start as int,
                    36,
                    noun@,
                    num,
                ) == Err::<WeightsSoFar, Seq<char>>(e@) by {
                    assert(base_lines(contents(all@), start as int, i as int, noun@, num) is Ok);
                    assert(base_lines(contents(all@), start as int, i + 1, noun@, num) is Err);
                    lemma_base_errors_stay(
                        contents(all@),
                        start as int,
                        i + 1,
                        36,
                        noun@,
                        num,
                    );
                }
                return Err(e);
            },
            Ok(at) => at,
        };
        let r = read_base_line(&mut weights, &mut seen, &all[at], read);
        proof {
            assert forall|num: NumberFn| reads_as(*read, num) implies told(
                r,
                |u: ()| WeightsSoFar { weights: weights@, seen: seen@ },
                #[trigger] base_lines(contents(all@), start as int, i + 1, noun@, num),
            ) by {
                assert(base_lines(contents(all@), start as int, i as int, noun@, num) == Ok::<
                    WeightsSoFar,
                    Seq<char>,
                >(before));
                assert(base_line(before, all@[at as int]@, num) == base_lines(
                    contents(all@),
                    start as int,
                    i + 1,
                    noun@,
                    num,
                ));
            }
        }
        if let Err(e) = r {
            assert forall|num: NumberFn| reads_as(*read, num) implies #[trigger] base_lines(
                contents(all@),
                start as int,
                36,
                noun@,
                num,
            ) == Err::<WeightsSoFar, Seq<char>>(e@) by {
                assert(base_lines(contents(all@), start as int, i + 1, noun@, num) is Err);
                lemma_base_errors_stay(contents(all@), start as int, i + 1, 36, noun@, num);
            }
            return Err(e);
        }
        i = i + 1;
    }
    Ok(weights)
}

} // verus!
