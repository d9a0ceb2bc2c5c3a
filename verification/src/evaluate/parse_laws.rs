//! What a file that parses is known to hold.

use crate::evaluate::model_text::base_lines;
use crate::evaluate::schema::{lemma_name_position, name_position, NUM_EVAL_FEATURES};
use crate::evaluate::weights::{
    first_missing, no_weights, payload, weight_lines, weights_of, NumberFn, WeightsSoFar,
};
use crate::float32::Float32;
use crate::text::{lines, words};
use vstd::prelude::*;

verus! {

/// Whether a line of a weight file is about feature `i`.
pub open spec fn speaks_of(line: Seq<char>, i: int) -> bool {
    words(payload(line)).len() == 2 && name_position(words(payload(line))[0]) == Some(i)
}

/// Whether a line of a weight file gives feature `i` the weight `x`.
pub open spec fn gives(line: Seq<char>, i: int, x: Float32, num: NumberFn) -> bool {
    speaks_of(line, i) && num(words(payload(line))[1]) == Ok::<Float32, Seq<char>>(x) && x.finite()
}

/// Whether some line gives feature `i` the weight `x`.
pub open spec fn given(all: Seq<Seq<char>>, i: int, x: Float32, num: NumberFn) -> bool {
    exists|k: int| 0 <= k < all.len() && gives(#[trigger] all[k], i, x, num)
}

/// What is known after the first `n` lines were taken.
spec fn accounted(all: Seq<Seq<char>>, n: int, so_far: WeightsSoFar, num: NumberFn) -> bool {
    &&& so_far.weights.len() == NUM_EVAL_FEATURES
    &&& so_far.seen.len() == NUM_EVAL_FEATURES
    &&& forall|i: int|
        0 <= i < NUM_EVAL_FEATURES && #[trigger] so_far.seen[i] ==> exists|k: int|
            0 <= k < n && gives(#[trigger] all[k], i, so_far.weights[i], num)
    &&& forall|i: int, k: int|
        0 <= i < NUM_EVAL_FEATURES && 0 <= k < n && #[trigger] speaks_of(all[k], i)
            ==> so_far.seen[i]
    &&& forall|i: int, k: int, l: int|
        0 <= k < l < n && #[trigger] speaks_of(all[k], i) ==> !#[trigger] speaks_of(all[l], i)
}

proof fn lemma_accounted(all: Seq<Seq<char>>, n: int, num: NumberFn)
    requires
        0 <= n <= all.len(),
    ensures
        weight_lines(all, n, num) matches Ok(so_far) ==> accounted(all, n, so_far, num),
    decreases n,
{
    if n > 0 {
        lemma_accounted(all, n - 1, num);
        if let Ok(after) = weight_lines(all, n, num) {
            let before = weight_lines(all, n - 1, num)->Ok_0;
            let line = all[n - 1];
            let tokens = words(payload(line));
            if tokens.len() == 2 {
                lemma_name_position(tokens[0]);
                let place = name_position(tokens[0])->0;
                assert(gives(line, place, after.weights[place], num));
                assert forall|i: int| 0 <= i < NUM_EVAL_FEATURES && #[trigger] after.seen[i] implies (
                exists|k: int| 0 <= k < n && gives(#[trigger] all[k], i, after.weights[i], num)) by {
                    if i == place {
                        assert(gives(all[n - 1], i, after.weights[i], num));
                    } else {
                        assert(before.seen[i]);
                        let k = choose|k: int|
                            0 <= k < n - 1 && gives(#[trigger] all[k], i, before.weights[i], num);
                        assert(gives(all[k], i, after.weights[i], num));
                    }
                }
                assert(!before.seen[place]);
            } else {
                assert(after == before);
            }
        }
    }
}

proof fn lemma_none_missing(seen: Seq<bool>, from: int)
    requires
        0 <= from <= NUM_EVAL_FEATURES,
        first_missing(seen, from) is None,
    ensures
        forall|i: int| from <= i < NUM_EVAL_FEATURES ==> #[trigger] seen[i],
    decreases NUM_EVAL_FEATURES - from,
{
    if from < NUM_EVAL_FEATURES {
        lemma_none_missing(seen, from + 1);
    }
}

/// A weight file that parses names every feature exactly once, and each
/// weight is the finite number beside its name.
pub proof fn lemma_every_weight_is_given_once(text: Seq<char>, num: NumberFn)
    requires
        weights_of(text, num) is Ok,
    ensures
        ({
            let weights = weights_of(text, num)->Ok_0;
            let all = lines(text);
            &&& weights.len() == NUM_EVAL_FEATURES
            &&& forall|i: int|
                0 <= i < NUM_EVAL_FEATURES ==> given(all, i, #[trigger] weights[i], num)
            &&& forall|i: int, k: int, l: int|
                0 <= k < l < all.len() && #[trigger] speaks_of(all[k], i)
                    ==> !#[trigger] speaks_of(all[l], i)
        }),
{
    let all = lines(text);
    lemma_accounted(all, all.len() as int, num);
    let so_far = weight_lines(all, all.len() as int, num)->Ok_0;
    lemma_none_missing(so_far.seen, 0);
    assert forall|i: int| 0 <= i < NUM_EVAL_FEATURES implies given(
        all,
        i,
        #[trigger] so_far.weights[i],
        num,
    ) by {
        assert(so_far.seen[i]);
    }
}

/// Whether a line of a weight file says nothing: it is blank, or a comment.
pub open spec fn says_nothing(line: Seq<char>) -> bool {
    words(payload(line)).len() == 0
}

/// Whether a line of a weight file is a name of a feature and a finite number.
pub open spec fn names_a_weight(line: Seq<char>, num: NumberFn) -> bool {
    exists|i: int, x: Float32| 0 <= i < NUM_EVAL_FEATURES && #[trigger] gives(line, i, x, num)
}

/// Whether some line is about feature `i`.
pub open spec fn is_named(all: Seq<Seq<char>>, i: int) -> bool {
    exists|k: int| 0 <= k < all.len() && speaks_of(#[trigger] all[k], i)
}

/// Whether the lines make a weight file: each that says anything is a name
/// and a finite number, and every feature is named exactly once, in whatever
/// order.
pub open spec fn well_formed(all: Seq<Seq<char>>, num: NumberFn) -> bool {
    &&& forall|k: int|
        0 <= k < all.len() ==> says_nothing(#[trigger] all[k]) || names_a_weight(all[k], num)
    &&& forall|i: int| 0 <= i < NUM_EVAL_FEATURES ==> #[trigger] is_named(all, i)
    &&& forall|i: int, k: int, l: int|
        0 <= k < l < all.len() && #[trigger] speaks_of(all[k], i)
            ==> !#[trigger] speaks_of(all[l], i)
}

proof fn lemma_accepted_lines(all: Seq<Seq<char>>, n: int, num: NumberFn)
    requires
        0 <= n <= all.len(),
        weight_lines(all, n, num) is Ok,
    ensures
        forall|k: int|
            0 <= k < n ==> says_nothing(#[trigger] all[k]) || names_a_weight(all[k], num),
    decreases n,
{
    if n > 0 {
        lemma_accepted_lines(all, n - 1, num);
        let line = all[n - 1];
        let tokens = words(payload(line));
        if tokens.len() > 0 {
            lemma_name_position(tokens[0]);
            let place = name_position(tokens[0])->0;
            assert(gives(line, place, num(tokens[1])->Ok_0, num));
        }
    }
}

proof fn lemma_well_formed_lines(all: Seq<Seq<char>>, n: int, num: NumberFn)
    requires
        0 <= n <= all.len(),
        well_formed(all, num),
    ensures
        weight_lines(all, n, num) is Ok,
    decreases n,
{
    if n > 0 {
        lemma_well_formed_lines(all, n - 1, num);
        lemma_accounted(all, n - 1, num);
        let line = all[n - 1];
        let before = weight_lines(all, n - 1, num)->Ok_0;
        if !says_nothing(line) {
            assert(names_a_weight(line, num));
            let (i, x) = choose|i: int, x: Float32|
                0 <= i < NUM_EVAL_FEATURES && #[trigger] gives(line, i, x, num);
            if before.seen[i] {
                let k = choose|k: int|
                    0 <= k < n - 1 && gives(#[trigger] all[k], i, before.weights[i], num);
                assert(speaks_of(all[k], i) && speaks_of(all[n - 1], i));
            }
        }
    }
}

proof fn lemma_all_seen(seen: Seq<bool>, from: int)
    requires
        0 <= from <= NUM_EVAL_FEATURES,
        forall|i: int| 0 <= i < NUM_EVAL_FEATURES ==> #[trigger] seen[i],
    ensures
        first_missing(seen, from) is None,
    decreases NUM_EVAL_FEATURES - from,
{
    if from < NUM_EVAL_FEATURES {
        assert(seen[from]);
        lemma_all_seen(seen, from + 1);
    }
}

/// A weight file is accepted if and only if it is well formed: a name and a
/// finite number on every line that says anything, and every feature named
/// exactly once. Each weight is then the number beside its name.
pub proof fn lemma_well_formed_files_are_accepted(text: Seq<char>, num: NumberFn)
    ensures
        weights_of(text, num) is Ok <==> well_formed(lines(text), num),
        weights_of(text, num) matches Ok(weights) ==> weights.len() == NUM_EVAL_FEATURES && forall|
            i: int,
            k: int,
            x: Float32,
        |
            0 <= i < NUM_EVAL_FEATURES && 0 <= k < lines(text).len() && #[trigger] gives(
                lines(text)[k],
                i,
                x,
                num,
            ) ==> weights[i] == x,
{
    let all = lines(text);
    let n = all.len() as int;
    if weights_of(text, num) is Ok {
        lemma_every_weight_is_given_once(text, num);
        lemma_accepted_lines(all, n, num);
        let weights = weights_of(text, num)->Ok_0;
        assert forall|i: int| 0 <= i < NUM_EVAL_FEATURES implies #[trigger] is_named(all, i) by {
            assert(given(all, i, weights[i], num));
            let k = choose|k: int|
                0 <= k < all.len() && gives(#[trigger] all[k], i, weights[i], num);
            assert(speaks_of(all[k], i));
        }
        assert forall|i: int, k: int, x: Float32|
            0 <= i < NUM_EVAL_FEATURES && 0 <= k < all.len() && #[trigger] gives(
                all[k],
                i,
                x,
                num,
            ) implies weights[i] == x by {
            assert(given(all, i, weights[i], num));
            let l = choose|l: int|
                0 <= l < all.len() && gives(#[trigger] all[l], i, weights[i], num);
            assert(speaks_of(all[k], i) && speaks_of(all[l], i));
        }
    }
    if well_formed(all, num) {
        lemma_well_formed_lines(all, n, num);
        lemma_accounted(all, n, num);
        let so_far = weight_lines(all, n, num)->Ok_0;
        assert forall|i: int| 0 <= i < NUM_EVAL_FEATURES implies #[trigger] so_far.seen[i] by {
            assert(is_named(all, i));
            let k = choose|k: int| 0 <= k < all.len() && speaks_of(#[trigger] all[k], i);
            assert(speaks_of(all[k], i));
        }
        lemma_all_seen(so_far.seen, 0);
    }
}

/// How many of the first `n` marks are set.
spec fn marks(seen: Seq<bool>, n: int) -> int
    decreases n,
{
    if n <= 0 {
        0
    } else {
        marks(seen, n - 1) + if seen[n - 1] {
            1int
        } else {
            0
        }
    }
}

proof fn lemma_marks(seen: Seq<bool>, n: int)
    requires
        0 <= n <= seen.len(),
    ensures
        0 <= marks(seen, n) <= n,
        marks(seen, n) == n ==> forall|i: int| 0 <= i < n ==> #[trigger] seen[i],
    decreases n,
{
    if n > 0 {
        lemma_marks(seen, n - 1);
    }
}

proof fn lemma_one_more_mark(seen: Seq<bool>, place: int, n: int)
    requires
        0 <= place < seen.len(),
        0 <= n <= seen.len(),
        !seen[place],
    ensures
        marks(seen.update(place, true), n) == marks(seen, n) + if place < n {
            1int
        } else {
            0
        },
    decreases n,
{
    if n > 0 {
        lemma_one_more_mark(seen, place, n - 1);
    }
}

proof fn lemma_no_marks(n: int)
    requires
        0 <= n <= NUM_EVAL_FEATURES,
    ensures
        marks(no_weights().seen, n) == 0,
    decreases n,
{
    if n > 0 {
        lemma_no_marks(n - 1);
    }
}

proof fn lemma_base_marks(all: Seq<Seq<char>>, start: int, n: int, noun: Seq<char>, num: NumberFn)
    requires
        0 <= n,
    ensures
        base_lines(all, start, n, noun, num) matches Ok(so_far) ==> so_far.seen.len()
            == NUM_EVAL_FEATURES && so_far.weights.len() == NUM_EVAL_FEATURES && marks(
            so_far.seen,
            NUM_EVAL_FEATURES as int,
        ) == n,
    decreases n,
{
    if n == 0 {
        lemma_no_marks(NUM_EVAL_FEATURES as int);
    } else {
        lemma_base_marks(all, start, n - 1, noun, num);
        if let Ok(after) = base_lines(all, start, n, noun, num) {
            let before = base_lines(all, start, n - 1, noun, num)->Ok_0;
            let tokens = words(all[start + n - 1]);
            lemma_name_position(tokens[1]);
            lemma_one_more_mark(
                before.seen,
                name_position(tokens[1])->0,
                NUM_EVAL_FEATURES as int,
            );
        }
    }
}

/// The base weight lines of a model that parses name every feature.
pub proof fn lemma_base_weights_are_complete(
    all: Seq<Seq<char>>,
    start: int,
    noun: Seq<char>,
    num: NumberFn,
)
    requires
        base_lines(all, start, 36, noun, num) is Ok,
    ensures
        forall|i: int|
            0 <= i < NUM_EVAL_FEATURES
                ==> #[trigger] base_lines(all, start, 36, noun, num)->Ok_0.seen[i],
{
    lemma_base_marks(all, start, 36, noun, num);
    lemma_marks(base_lines(all, start, 36, noun, num)->Ok_0.seen, 36);
}

} // verus!
