//! The context-gated model: a small network on both sides' features.

use crate::evaluate::model_text::{
    all_finite, base_lines, check_opening, field_at, finite_number, line_at, model_lines, model_lines_of,
    next_line, number_at, opening, parse_finite_f32, read_base_weights, read_field, read_number,
    told,
};
use crate::evaluate::tree::{read_unsigned, unsigned_or};
use crate::evaluate::weights::{reads_all, reads_as, NumberFn};
use crate::float32::Float32;
use crate::text::{append_decimal, contents, decimal, same, string_of, words, words_of};
use vstd::prelude::*;
use vstd::string::StringExecFns;

verus! {

/// The most hidden units that a model may have.
pub const MAX_HIDDEN: usize = 64;

/// A linear evaluator and a correction of it. Each hidden unit looks at the
/// scaled differences of the two sides' features and is gated by their
/// scaled totals.
#[derive(Clone, Debug)]
pub struct EvalContextModel {
    pub base_weights: [Float32; 36],
    pub k: Float32,
    pub correction_clip: Float32,
    pub diff_scale: Vec<Float32>,
    pub total_mean: Vec<Float32>,
    pub total_scale: Vec<Float32>,
    pub difference_weights: Vec<Vec<Float32>>,
    pub context_weights: Vec<Vec<Float32>>,
    pub context_bias: Vec<Float32>,
    pub output_weights: Vec<Float32>,
}

/// What a model holds. A context row is the weights of one hidden unit's
/// gate with its bias behind them.
#[verifier::ext_equal]
pub struct ContextModelView {
    pub base_weights: Seq<Float32>,
    pub k: Float32,
    pub correction_clip: Float32,
    pub diff_scale: Seq<Float32>,
    pub total_mean: Seq<Float32>,
    pub total_scale: Seq<Float32>,
    pub difference_rows: Seq<Seq<Float32>>,
    pub context_rows: Seq<Seq<Float32>>,
    pub output_weights: Seq<Float32>,
}

/// The rows, one by one.
pub open spec fn rows_of(rows: Seq<Vec<Float32>>) -> Seq<Seq<Float32>> {
    Seq::new(rows.len(), |i: int| rows[i]@)
}

/// Rows with their biases behind them.
pub open spec fn biased_rows(weights: Seq<Vec<Float32>>, bias: Seq<Float32>) -> Seq<Seq<Float32>> {
    Seq::new(weights.len(), |i: int| weights[i]@.push(bias[i]))
}

impl View for EvalContextModel {
    type V = ContextModelView;

    open spec fn view(&self) -> ContextModelView {
        ContextModelView {
            base_weights: self.base_weights@,
            k: self.k,
            correction_clip: self.correction_clip,
            diff_scale: self.diff_scale@,
            total_mean: self.total_mean@,
            total_scale: self.total_scale@,
            difference_rows: rows_of(self.difference_weights@),
            context_rows: biased_rows(self.context_weights@, self.context_bias@),
            output_weights: self.output_weights@,
        }
    }
}

/// Whether every number is above zero.
pub open spec fn all_positive(values: Seq<Float32>) -> bool {
    forall|i: int| 0 <= i < values.len() ==> (#[trigger] values[i]).units() > 0
}

impl EvalContextModel {
    /// All parts have their sizes, every number is finite and every scale is
    /// positive.
    pub open spec fn wf(self) -> bool {
        let hidden = self.output_weights@.len();
        &&& all_finite(self.base_weights@)
        &&& self.k.finite() && self.k.units() > 0
        &&& self.correction_clip.finite() && self.correction_clip.units() > 0
        &&& self.diff_scale@.len() == 36 && all_finite(self.diff_scale@) && all_positive(
            self.diff_scale@,
        )
        &&& self.total_mean@.len() == 36 && all_finite(self.total_mean@)
        &&& self.total_scale@.len() == 36 && all_finite(self.total_scale@) && all_positive(
            self.total_scale@,
        )
        &&& 0 < hidden <= MAX_HIDDEN
        &&& all_finite(self.output_weights@)
        &&& self.difference_weights@.len() == hidden
        &&& self.context_weights@.len() == hidden
        &&& self.context_bias@.len() == hidden && all_finite(self.context_bias@)
        &&& forall|i: int|
            0 <= i < hidden ==> (#[trigger] self.difference_weights@[i])@.len() == 36
                && all_finite(self.difference_weights@[i]@)
        &&& forall|i: int|
            0 <= i < hidden ==> (#[trigger] self.context_weights@[i])@.len() == 36 && all_finite(
                self.context_weights@[i]@,
            )
    }
}

/// The first `n` numbers behind the label of a vector line.
pub open spec fn values_of(tokens: Seq<Seq<char>>, n: int, label: Seq<char>, num: NumberFn) -> Result<
    Seq<Float32>,
    Seq<char>,
>
    decreases n,
{
    if n <= 0 {
        Ok(Seq::empty())
    } else {
        match values_of(tokens, n - 1, label, num) {
            Err(e) => Err(e),
            Ok(values) => match finite_number(tokens[n], label, num) {
                Err(e) => Err(e),
                Ok(x) => Ok(values.push(x)),
            },
        }
    }
}

/// The vector that a line holds: a label and `expected` numbers.
pub open spec fn model_vector(line: Seq<char>, label: Seq<char>, expected: nat, num: NumberFn) -> Result<
    Seq<Float32>,
    Seq<char>,
> {
    let tokens = words(line);
    if tokens.len() == 0 || tokens[0] != label {
        Err("expected "@ + label)
    } else {
        match values_of(tokens, tokens.len() - 1, label, num) {
            Err(e) => Err(e),
            Ok(values) => if values.len() != expected {
                Err(
                    label + " has "@ + decimal(values.len()) + " values, expected "@ + decimal(
                        expected,
                    ),
                )
            } else {
                Ok(values)
            },
        }
    }
}

proof fn lemma_value_errors_stay(
    tokens: Seq<Seq<char>>,
    n: int,
    m: int,
    label: Seq<char>,
    num: NumberFn,
)
    requires
        0 <= n <= m,
        values_of(tokens, n, label, num) is Err,
    ensures
        values_of(tokens, m, label, num) == values_of(tokens, n, label, num),
    decreases m - n,
{
    if n < m {
        lemma_value_errors_stay(tokens, n, m - 1, label, num);
    }
}

pub fn parse_model_vector<P: Fn(&str) -> Result<Float32, String>>(
    line: &Vec<char>,
    label: &str,
    expected: usize,
    read: &P,
) -> (r: Result<Vec<Float32>, String>)
    requires
        reads_all(*read),
    ensures
        forall|num: NumberFn|
            reads_as(*read, num) ==> told(
                r,
                |v: Vec<Float32>| v@,
                #[trigger] model_vector(line@, label@, expected as nat, num),
            ),
        r matches Ok(v) ==> v@.len() == expected && all_finite(v@),
{
    let tokens = words_of(line);
    assert(contents(tokens@) == words(line@));
    if tokens.len() == 0 {
        let mut message = String::new();
        message.append("expected ");
        message.append(label);
        assert(message@ =~= "expected "@ + label@);
        return Err(message);
    }
    assert(contents(tokens@)[0] == tokens@[0]@);
    if !same(&tokens[0], label) {
        let mut message = String::new();
        message.append("expected ");
        message.append(label);
        assert(message@ =~= "expected "@ + label@);
        return Err(message);
    }
    let mut values: Vec<Float32> = Vec::new();
    let mut i: usize = 1;
    while i < tokens.len()
        invariant
            1 <= i <= tokens.len(),
            reads_all(*read),
            contents(tokens@) == words(line@),
            contents(tokens@)[0] == label@,
            values@.len() == i - 1,
            all_finite(values@),
            forall|num: NumberFn|
                reads_as(*read, num) ==> #[trigger] values_of(
                    contents(tokens@),
                    i - 1,
                    label@,
                    num,
                ) == Ok::<Seq<Float32>, Seq<char>>(values@),
        decreases tokens.len() - i,
    {
        assert(contents(tokens@)[i as int] == tokens@[i as int]@);
        let ghost before = values@;
        let text = string_of(&tokens[i]);
        match parse_finite_f32(text.as_str(), label, read) {
            Err(e) => {
                assert forall|num: NumberFn| reads_as(*read, num) implies told(
                    Err::<Vec<Float32>, String>(e),
                    |v: Vec<Float32>| v@,
                    #[trigger] model_vector(line@, label@, expected as nat, num),
                ) by {
                    assert(values_of(contents(tokens@), i - 1, label@, num) is Ok);
                    assert(finite_number(text@, label@, num) is Err);
                    lemma_value_errors_stay(
                        contents(tokens@),
                        i as int,
                        tokens@.len() - 1,
                        label@,
                        num,
                    );
                }
                return Err(e);
            },
            Ok(x) => {
                values.push(x);
                assert forall|num: NumberFn| reads_as(*read, num) implies #[trigger] values_of(
                    contents(tokens@),
                    i as int,
                    label@,
                    num,
                ) == Ok::<Seq<Float32>, Seq<char>>(values@) by {
                    assert(values_of(contents(tokens@), i - 1, label@, num) == Ok::<
                        Seq<Float32>,
                        Seq<char>,
                    >(before));
                    assert(finite_number(text@, label@, num) is Ok);
                }
            },
        }
        i = i + 1;
    }
    assert forall|num: NumberFn| reads_as(*read, num) implies #[trigger] values_of(
        contents(tokens@),
        tokens@.len() - 1,
        label@,
        num,
    ) == Ok::<Seq<Float32>, Seq<char>>(values@) by {
        assert(i - 1 == tokens@.len() - 1);
        assert(values_of(contents(tokens@), i - 1, label@, num) is Ok);
    }
    if values.len() != expected {
        let mut message = String::new();
        message.append(label);
        message.append(" has ");
        append_decimal(&mut message, values.len() as u64);
        message.append(" values, expected ");
        append_decimal(&mut message, expected as u64);
        assert(message@ =~= label@ + " has "@ + decimal(values@.len()) + " values, expected "@
            + decimal(expected as nat));
        return Err(message);
    }
    Ok(values)
}

/// The vector on the line at `cursor`.
pub open spec fn vector_at(
    all: Seq<Seq<char>>,
    cursor: int,
    label: Seq<char>,
    expected: nat,
    num: NumberFn,
) -> Result<Seq<Float32>, Seq<char>> {
    match line_at(all, cursor, "context model"@) {
        Err(e) => Err(e),
        Ok(line) => model_vector(line, label, expected, num),
    }
}

fn read_vector<P: Fn(&str) -> Result<Float32, String>>(
    all: &Vec<Vec<char>>,
    cursor: usize,
    label: &str,
    expected: usize,
    read: &P,
) -> (r: Result<Vec<Float32>, String>)
    requires
        reads_all(*read),
    ensures
        forall|num: NumberFn|
            reads_as(*read, num) ==> told(
                r,
                |v: Vec<Float32>| v@,
                #[trigger] vector_at(
                    contents(all@),
                    cursor as int,
                    label@,
                    expected as nat,
                    num,
                ),
            ),
        r matches Ok(v) ==> v@.len() == expected && all_finite(v@) && cursor < all@.len(),
{
    match next_line(all, cursor, "context model") {
        Err(e) => Err(e),
        Ok(at) => parse_model_vector(&all[at], label, expected, read),
    }
}

/// The vectors on `n` lines from `start` on.
pub open spec fn vectors_at(
    all: Seq<Seq<char>>,
    start: int,
    n: int,
    label: Seq<char>,
    expected: nat,
    num: NumberFn,
) -> Result<Seq<Seq<Float32>>, Seq<char>>
    decreases n,
{
    if n <= 0 {
        Ok(Seq::empty())
    } else {
        match vectors_at(all, start, n - 1, label, expected, num) {
            Err(e) => Err(e),
            Ok(rows) => match vector_at(all, start + n - 1, label, expected, num) {
                Err(e) => Err(e),
                Ok(row) => Ok(rows.push(row)),
            },
        }
    }
}

proof fn lemma_vector_errors_stay(
    all: Seq<Seq<char>>,
    start: int,
    n: int,
    m: int,
    label: Seq<char>,
    expected: nat,
    num: NumberFn,
)
    requires
        0 <= n <= m,
        vectors_at(all, start, n, label, expected, num) is Err,
    ensures
        vectors_at(all, start, m, label, expected, num) == vectors_at(
            all,
            start,
            n,
            label,
            expected,
            num,
        ),
    decreases m - n,
{
    if n < m {
        lemma_vector_errors_stay(all, start, n, m - 1, label, expected, num);
    }
}

fn read_vectors<P: Fn(&str) -> Result<Float32, String>>(
    all: &Vec<Vec<char>>,
    start: usize,
    count: usize,
    label: &str,
    expected: usize,
    read: &P,
) -> (r: Result<Vec<Vec<Float32>>, String>)
    requires
        reads_all(*read),
        start <= all@.len(),
    ensures
        forall|num: NumberFn|
            reads_as(*read, num) ==> told(
                r,
                |v: Vec<Vec<Float32>>| rows_of(v@),
                #[trigger] vectors_at(
                    contents(all@),
                    start as int,
                    count as int,
                    label@,
                    expected as nat,
                    num,
                ),
            ),
        r matches Ok(v) ==> v@.len() == count && start + count <= all@.len() && forall|i: int|
            0 <= i < count ==> (#[trigger] v@[i])@.len() == expected && all_finite(v@[i]@),
{
    let mut rows: Vec<Vec<Float32>> = Vec::new();
    let mut i: usize = 0;
    assert(rows_of(rows@) =~= Seq::<Seq<Float32>>::empty());
    while i < count
        invariant
            i <= count,
            start + i <= all.len(),
            reads_all(*read),
            rows@.len() == i,
            forall|k: int|
                0 <= k < i ==> (#[trigger] rows@[k])@.len() == expected && all_finite(rows@[k]@),
            forall|num: NumberFn|
                reads_as(*read, num) ==> #[trigger] vectors_at(
                    contents(all@),
                    start as int,
                    i as int,
                    label@,
                    expected as nat,
                    num,
                ) == Ok::<Seq<Seq<Float32>>, Seq<char>>(rows_of(rows@)),
        decreases count - i,
    {
        let ghost before = rows@;
        match read_vector(all, start + i, label, expected, read) {
            Err(e) => {
                assert forall|num: NumberFn| reads_as(*read, num) implies #[trigger] vectors_at(
                    contents(all@),
                    start as int,
                    count as int,
                    label@,
                    expected as nat,
                    num,
                ) == Err::<Seq<Seq<Float32>>, Seq<char>>(e@) by {
                    assert(vectors_at(
                        contents(all@),
                        start as int,
                        i as int,
                        label@,
                        expected as nat,
                        num,
                    ) is Ok);
                    assert(vector_at(
                        contents(all@),
                        start + i,
                        label@,
                        expected as nat,
                        num,
                    ) is Err);
                    lemma_vector_errors_stay(
                        contents(all@),
                        start as int,
                        i + 1,
                        count as int,
                        label@,
                        expected as nat,
                        num,
                    );
                }
                return Err(e);
            },
            Ok(row) => {
                let ghost content = row@;
                rows.push(row);
                assert(rows_of(rows@) =~= rows_of(before).push(content));
                assert forall|num: NumberFn| reads_as(*read, num) implies #[trigger] vectors_at(
                    contents(all@),
                    start as int,
                    i + 1,
                    label@,
                    expected as nat,
                    num,
                ) == Ok::<Seq<Seq<Float32>>, Seq<char>>(rows_of(rows@)) by {
                    assert(vectors_at(
                        contents(all@),
                        start as int,
                        i as int,
                        label@,
                        expected as nat,
                        num,
                    ) is Ok);
                    assert(vector_at(contents(all@), start + i, label@, expected as nat, num) is Ok);
                }
            },
        }
        i = i + 1;
    }
    Ok(rows)
}

/// The two scales of a context model.
pub open spec fn context_scales(all: Seq<Seq<char>>, num: NumberFn) -> Result<
    (Float32, Float32),
    Seq<char>,
> {
    match opening(all, "poke-engine-context-mlp-v1"@, "context model"@) {
        Err(e) => Err(e),
        Ok(_) => match number_at(all, 2, "context model"@, "k"@, num) {
            Err(e) => Err(e),
            Ok(k) => match number_at(all, 3, "context model"@, "correction_clip"@, num) {
                Err(e) => Err(e),
                Ok(clip) => if k.units() <= 0 || clip.units() <= 0 {
                    Err("k and correction_clip must be positive"@)
                } else {
                    Ok((k, clip))
                },
            },
        },
    }
}

/// The three vectors that bring features to scale.
#[verifier::ext_equal]
pub struct Scaling {
    pub diff_scale: Seq<Float32>,
    pub total_mean: Seq<Float32>,
    pub total_scale: Seq<Float32>,
}

pub open spec fn scaling(all: Seq<Seq<char>>, num: NumberFn) -> Result<Scaling, Seq<char>> {
    match vector_at(all, 40, "diff_scale"@, 36, num) {
        Err(e) => Err(e),
        Ok(diff_scale) => match vector_at(all, 41, "total_mean"@, 36, num) {
            Err(e) => Err(e),
            Ok(total_mean) => match vector_at(all, 42, "total_scale"@, 36, num) {
                Err(e) => Err(e),
                Ok(total_scale) => if !all_positive(diff_scale) || !all_positive(total_scale) {
                    Err("model scales must be positive"@)
                } else {
                    Ok(Scaling { diff_scale, total_mean, total_scale })
                },
            },
        },
    }
}

/// How many hidden units a model has.
pub open spec fn hidden_size(all: Seq<Seq<char>>) -> Result<nat, Seq<char>> {
    match field_at(all, 43, "context model"@, "hidden "@, "missing hidden size"@) {
        Err(e) => Err(e),
        Ok(text) => match unsigned_or(text, "bad hidden size: "@) {
            Err(e) => Err(e),
            Ok(hidden) => if hidden == 0 || hidden > MAX_HIDDEN {
                Err("hidden size "@ + decimal(hidden) + " is out of range"@)
            } else {
                Ok(hidden)
            },
        },
    }
}

/// The rows of the hidden units.
#[verifier::ext_equal]
pub struct HiddenRows {
    pub difference_rows: Seq<Seq<Float32>>,
    pub context_rows: Seq<Seq<Float32>>,
    pub output_weights: Seq<Float32>,
}

/// The rows of the hidden units, which end the file.
pub open spec fn hidden_rows(all: Seq<Seq<char>>, num: NumberFn) -> Result<HiddenRows, Seq<char>> {
    match hidden_size(all) {
        Err(e) => Err(e),
        Ok(hidden) => match vectors_at(all, 44, hidden as int, "difference"@, 36, num) {
            Err(e) => Err(e),
            Ok(difference_rows) => match vectors_at(
                all,
                44 + hidden as int,
                hidden as int,
                "context"@,
                37,
                num,
            ) {
                Err(e) => Err(e),
                Ok(context_rows) => match vector_at(
                    all,
                    44 + hidden as int + hidden as int,
                    "output"@,
                    hidden,
                    num,
                ) {
                    Err(e) => Err(e),
                    Ok(output_weights) => if all.len() != 45 + hidden + hidden {
                        Err("trailing context model content"@)
                    } else {
                        Ok(HiddenRows { difference_rows, context_rows, output_weights })
                    },
                },
            },
        },
    }
}

/// The model that a file holds, or what is wrong with it first.
pub open spec fn context_model_of(text: Seq<char>, num: NumberFn) -> Result<
    ContextModelView,
    Seq<char>,
> {
    let all = model_lines(text);
    match context_scales(all, num) {
        Err(e) => Err(e),
        Ok((k, correction_clip)) => match base_lines(all, 4, 36, "context model"@, num) {
            Err(e) => Err(e),
            Ok(base) => match scaling(all, num) {
                Err(e) => Err(e),
                Ok(s) => match hidden_rows(all, num) {
                    Err(e) => Err(e),
                    Ok(h) => Ok(
                        ContextModelView {
                            base_weights: base.weights,
                            k,
                            correction_clip,
                            diff_scale: s.diff_scale,
                            total_mean: s.total_mean,
                            total_scale: s.total_scale,
                            difference_rows: h.difference_rows,
                            context_rows: h.context_rows,
                            output_weights: h.output_weights,
                        },
                    ),
                },
            },
        },
    }
}

fn check_all_positive(values: &Vec<Float32>) -> (r: bool)
    requires
        all_finite(values@),
    ensures
        r == all_positive(values@),
{
    let mut i: usize = 0;
    while i < values.len()
        invariant
            i <= values.len(),
            all_finite(values@),
            forall|k: int| 0 <= k < i ==> (#[trigger] values@[k]).units() > 0,
        decreases values.len() - i,
    {
        if !values[i].is_positive() {
            assert(!(values@[i as int].units() > 0));
            return false;
        }
        i = i + 1;
    }
    true
}

fn read_context_scales<P: Fn(&str) -> Result<Float32, String>>(
    all: &Vec<Vec<char>>,
    read: &P,
) -> (r: Result<(Float32, Float32), String>)
    requires
        reads_all(*read),
    ensures
        forall|num: NumberFn|
            reads_as(*read, num) ==> told(
                r,
                |p: (Float32, Float32)| p,
                #[trigger] context_scales(contents(all@), num),
            ),
        r matches Ok(p) ==> p.0.finite() && p.0.units() > 0 && p.1.finite() && p.1.units() > 0
            && all@.len() >= 4,
{
    if let Err(e) = check_opening(all, "poke-engine-context-mlp-v1", "context model") {
        return Err(e);
    }
    let k = match read_number(all, 2, "context model", "k", read) {
        Err(e) => {
            return Err(e);
        },
        Ok(x) => x,
    };
    let clip = match read_number(all, 3, "context model", "correction_clip", read) {
        Err(e) => {
            return Err(e);
        },
        Ok(x) => x,
    };
    if !k.is_positive() || !clip.is_positive() {
        return Err("k and correction_clip must be positive".to_owned());
    }
    Ok((k, clip))
}

fn read_scaling<P: Fn(&str) -> Result<Float32, String>>(all: &Vec<Vec<char>>, read: &P) -> (r:
    Result<(Vec<Float32>, Vec<Float32>, Vec<Float32>), String>)
    requires
        reads_all(*read),
    ensures
        forall|num: NumberFn|
            reads_as(*read, num) ==> told(
                r,
                |p: (Vec<Float32>, Vec<Float32>, Vec<Float32>)|
                    Scaling { diff_scale: p.0@, total_mean: p.1@, total_scale: p.2@ },
                #[trigger] scaling(contents(all@), num),
            ),
        r matches Ok(p) ==> p.0@.len() == 36 && p.1@.len() == 36 && p.2@.len() == 36
            && all_positive(p.0@) && all_positive(p.2@) && all_finite(p.0@) && all_finite(p.1@)
            && all_finite(p.2@),
{
    let diff_scale = match read_vector(all, 40, "diff_scale", 36, read) {
        Err(e) => {
            return Err(e);
        },
        Ok(v) => v,
    };
    let total_mean = match read_vector(all, 41, "total_mean", 36, read) {
        Err(e) => {
            return Err(e);
        },
        Ok(v) => v,
    };
    let total_scale = match read_vector(all, 42, "total_scale", 36, read) {
        Err(e) => {
            return Err(e);
        },
        Ok(v) => v,
    };
    if !check_all_positive(&diff_scale) || !check_all_positive(&total_scale) {
        return Err("model scales must be positive".to_owned());
    }
    Ok((diff_scale, total_mean, total_scale))
}

fn read_hidden_size(all: &Vec<Vec<char>>) -> (r: Result<usize, String>)
    ensures
        told(r, |n: usize| n as nat, hidden_size(contents(all@))),
        r matches Ok(n) ==> 0 < n <= MAX_HIDDEN && all@.len() >= 44,
{
    let text = match read_field(all, 43, "context model", "hidden ", "missing hidden size") {
        Err(e) => {
            return Err(e);
        },
        Ok(s) => s,
    };
    let hidden: usize = match read_unsigned(text.as_str(), "bad hidden size: ") {
        Err(e) => {
            return Err(e);
        },
        Ok(n) => n,
    };
    if hidden == 0 || hidden > MAX_HIDDEN {
        let mut message = String::new();
        message.append("hidden size ");
        append_decimal(&mut message, hidden as u64);
        message.append(" is out of range");
        return Err(message);
    }
    Ok(hidden)
}

/// Takes the bias behind each row off.
fn split_bias(rows: Vec<Vec<Float32>>) -> (r: (Vec<Vec<Float32>>, Vec<Float32>))
    requires
        forall|i: int|
            0 <= i < rows@.len() ==> (#[trigger] rows@[i])@.len() == 37 && all_finite(rows@[i]@),
    ensures
        biased_rows(r.0@, r.1@) == rows_of(rows@),
        r.0@.len() == rows@.len(),
        r.1@.len() == rows@.len(),
        forall|i: int|
            0 <= i < r.0@.len() ==> (#[trigger] r.0@[i])@.len() == 36 && all_finite(r.0@[i]@),
        all_finite(r.1@),
{
    let mut weights: Vec<Vec<Float32>> = Vec::new();
    let mut bias: Vec<Float32> = Vec::new();
    let mut i: usize = 0;
    while i < rows.len()
        invariant
            i <= rows.len(),
            weights@.len() == i,
            bias@.len() == i,
            forall|k: int|
                0 <= k < rows@.len() ==> (#[trigger] rows@[k])@.len() == 37 && all_finite(
                    rows@[k]@,
                ),
            forall|k: int|
                0 <= k < i ==> (#[trigger] weights@[k])@.len() == 36 && all_finite(weights@[k]@),
            all_finite(bias@),
            forall|k: int| 0 <= k < i ==> (#[trigger] weights@[k])@.push(bias@[k]) == rows@[k]@,
        decreases rows.len() - i,
    {
        assert(rows@[i as int]@.len() == 37);
        assert(rows@[i as int]@[36].finite());
        let mut row: Vec<Float32> = Vec::new();
        let mut j: usize = 0;
        while j < 36
            invariant
                j <= 36,
                i < rows@.len(),
                rows@[i as int]@.len() == 37,
                row@ == rows@[i as int]@.take(j as int),
            decreases 36 - j,
        {
            row.push(rows[i][j]);
            j = j + 1;
            assert(row@ =~= rows@[i as int]@.take(j as int));
        }
        bias.push(rows[i][36]);
        assert(row@.push(rows@[i as int]@[36]) =~= rows@[i as int]@);
        assert(all_finite(row@)) by {
            assert forall|k: int| 0 <= k < row@.len() implies (#[trigger] row@[k]).finite() by {
                assert(row@[k] == rows@[i as int]@[k]);
            }
        }
        weights.push(row);
        i = i + 1;
    }
    assert(biased_rows(weights@, bias@) =~= rows_of(rows@));
    (weights, bias)
}

/// Parse the text format of a context-gated model. `read` reads one number.
pub fn parse_eval_context_model<P: Fn(&str) -> Result<Float32, String>>(text: &str, read: &P) -> (r:
    Result<EvalContextModel, String>)
    requires
        reads_all(*read),
    ensures
        forall|num: NumberFn|
            reads_as(*read, num) ==> told(
                r,
                |m: EvalContextModel| m@,
                #[trigger] context_model_of(text@, num),
            ),
        r matches Ok(model) ==> model.wf(),
{
    let all = model_lines_of(text);
    let (k, correction_clip) = match read_context_scales(&all, read) {
        Err(e) => {
            return Err(e);
        },
        Ok(p) => p,
    };
    let base_weights = match read_base_weights(&all, 4, "context model", read) {
        Err(e) => {
            return Err(e);
        },
        Ok(w) => w,
    };
    let (diff_scale, total_mean, total_scale) = match read_scaling(&all, read) {
        Err(e) => {
            return Err(e);
        },
        Ok(p) => p,
    };
    let hidden: usize = match read_hidden_size(&all) {
        Err(e) => {
            return Err(e);
        },
        Ok(n) => n,
    };
    let difference_weights = match read_vectors(&all, 44, hidden, "difference", 36, read) {
        Err(e) => {
            return Err(e);
        },
        Ok(v) => v,
    };
    let rows = match read_vectors(&all, 44 + hidden, hidden, "context", 37, read) {
        Err(e) => {
            return Err(e);
        },
        Ok(v) => v,
    };
    let output_weights = match read_vector(&all, 44 + hidden + hidden, "output", hidden, read) {
        Err(e) => {
            return Err(e);
        },
        Ok(v) => v,
    };
    if all.len() != 45 + hidden + hidden {
        return Err("trailing context model content".to_owned());
    }
    let (context_weights, context_bias) = split_bias(rows);
    Ok(
        EvalContextModel {
            base_weights,
            k,
            correction_clip,
            diff_scale,
            total_mean,
            total_scale,
            difference_weights,
            context_weights,
            context_bias,
            output_weights,
        },
    )
}

} // verus!
