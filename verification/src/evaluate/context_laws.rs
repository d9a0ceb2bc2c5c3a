//! What a context model evaluates to, in exact arithmetic, and its symmetry.

use crate::evaluate::context::ContextModelView;
use crate::evaluate::schema::NUM_EVAL_FEATURES;
use crate::evaluate::tree_laws::exact;
use vstd::prelude::*;

verus! {

/// The two curves that a context model bends its sums with: one that is odd,
/// and one for the gates.
pub struct Curves {
    pub odd: spec_fn(real) -> real,
    pub gate: spec_fn(real) -> real,
}

/// Whether the first curve turns its sign with its argument.
pub open spec fn is_odd(curve: spec_fn(real) -> real) -> bool {
    forall|x: real| #[trigger] curve(-x) == -curve(x)
}

/// Whether everything that is divided by is above zero.
pub open spec fn scales_are_positive(model: ContextModelView, unit: real) -> bool {
    &&& exact(model.correction_clip, unit) > 0 as real
    &&& forall|i: int|
        0 <= i < NUM_EVAL_FEATURES ==> exact(#[trigger] model.diff_scale[i], unit) > 0 as real
}

/// The weighted sum of the first `n` feature differences.
pub open spec fn base_sum(
    model: ContextModelView,
    one: Seq<real>,
    two: Seq<real>,
    unit: real,
    n: int,
) -> real
    decreases n,
{
    if n <= 0 {
        0 as real
    } else {
        base_sum(model, one, two, unit, n - 1) + exact(model.base_weights[n - 1], unit) * (one[n
            - 1] - two[n - 1])
    }
}

/// What a hidden unit makes of the first `n` scaled differences.
pub open spec fn difference_sum(
    model: ContextModelView,
    hidden: int,
    one: Seq<real>,
    two: Seq<real>,
    unit: real,
    n: int,
) -> real
    decreases n,
{
    if n <= 0 {
        0 as real
    } else {
        difference_sum(model, hidden, one, two, unit, n - 1) + exact(
            model.difference_rows[hidden][n - 1],
            unit,
        ) * ((one[n - 1] - two[n - 1]) / exact(model.diff_scale[n - 1], unit))
    }
}

/// The sum over the first `n` scaled totals that opens a hidden unit. The
/// constant term stands behind the weights.
pub open spec fn context_sum(
    model: ContextModelView,
    hidden: int,
    one: Seq<real>,
    two: Seq<real>,
    unit: real,
    n: int,
) -> real
    decreases n,
{
    if n <= 0 {
        exact(model.context_rows[hidden][NUM_EVAL_FEATURES as int], unit)
    } else {
        context_sum(model, hidden, one, two, unit, n - 1) + exact(
            model.context_rows[hidden][n - 1],
            unit,
        ) * ((one[n - 1] + two[n - 1] - exact(model.total_mean[n - 1], unit)) / exact(
            model.total_scale[n - 1],
            unit,
        ))
    }
}

/// What the first `n` hidden units bring together.
pub open spec fn hidden_sum(
    model: ContextModelView,
    curves: Curves,
    one: Seq<real>,
    two: Seq<real>,
    unit: real,
    n: int,
) -> real
    decreases n,
{
    if n <= 0 {
        0 as real
    } else {
        hidden_sum(model, curves, one, two, unit, n - 1) + exact(
            model.output_weights[n - 1],
            unit,
        ) * (curves.odd)(
            difference_sum(model, n - 1, one, two, unit, NUM_EVAL_FEATURES as int),
        ) * (curves.gate)(context_sum(model, n - 1, one, two, unit, NUM_EVAL_FEATURES as int))
    }
}

/// The evaluation of the two sides' features by a context model, where `unit`
/// is the smallest positive number.
pub open spec fn context_evaluation(
    model: ContextModelView,
    curves: Curves,
    one: Seq<real>,
    two: Seq<real>,
    unit: real,
) -> real {
    let clip = exact(model.correction_clip, unit);
    let raw = hidden_sum(model, curves, one, two, unit, model.output_weights.len() as int);
    base_sum(model, one, two, unit, NUM_EVAL_FEATURES as int) + exact(model.k, unit) * (clip * (
    curves.odd)(raw / clip))
}

proof fn lemma_swapped_sums(
    model: ContextModelView,
    hidden: int,
    one: Seq<real>,
    two: Seq<real>,
    unit: real,
    n: int,
)
    requires
        n <= NUM_EVAL_FEATURES,
        scales_are_positive(model, unit),
    ensures
        base_sum(model, two, one, unit, n) == -base_sum(model, one, two, unit, n),
        difference_sum(model, hidden, two, one, unit, n) == -difference_sum(
            model,
            hidden,
            one,
            two,
            unit,
            n,
        ),
        context_sum(model, hidden, two, one, unit, n) == context_sum(
            model,
            hidden,
            one,
            two,
            unit,
            n,
        ),
    decreases n,
{
    if n > 0 {
        lemma_swapped_sums(model, hidden, one, two, unit, n - 1);
        let a = one[n - 1];
        let b = two[n - 1];
        let w = exact(model.base_weights[n - 1], unit);
        let v = exact(model.difference_rows[hidden][n - 1], unit);
        let s = exact(model.diff_scale[n - 1], unit);
        assert(w * (b - a) == -(w * (a - b))) by (nonlinear_arith);
        lemma_opposite_quotient(a - b, s);
        assert(b - a == -(a - b));
        let q = (a - b) / s;
        assert(v * (-q) == -(v * q)) by (nonlinear_arith);
    }
}

proof fn lemma_opposite_quotient(x: real, y: real)
    requires
        y != 0 as real,
    ensures
        (-x) / y == -(x / y),
{
    assert((-x) / y == -(x / y)) by (nonlinear_arith)
        requires
            y != 0 as real,
    ;
}

proof fn lemma_swapped_hidden(
    model: ContextModelView,
    curves: Curves,
    one: Seq<real>,
    two: Seq<real>,
    unit: real,
    n: int,
)
    requires
        is_odd(curves.odd),
        scales_are_positive(model, unit),
    ensures
        hidden_sum(model, curves, two, one, unit, n) == -hidden_sum(
            model,
            curves,
            one,
            two,
            unit,
            n,
        ),
    decreases n,
{
    if n > 0 {
        lemma_swapped_hidden(model, curves, one, two, unit, n - 1);
        lemma_swapped_sums(model, n - 1, one, two, unit, NUM_EVAL_FEATURES as int);
        let d = difference_sum(model, n - 1, one, two, unit, NUM_EVAL_FEATURES as int);
        let g = (curves.gate)(
            context_sum(model, n - 1, one, two, unit, NUM_EVAL_FEATURES as int),
        );
        let w = exact(model.output_weights[n - 1], unit);
        let o = (curves.odd)(d);
        assert((curves.odd)(-d) == -o);
        assert(w * (-o) * g == -(w * o * g)) by (nonlinear_arith);
    }
}

/// A context model is fair to both sides: swapping their features turns the
/// sign of the evaluation, whatever odd curve and whatever gate it bends its
/// sums with.
pub proof fn lemma_context_model_is_side_symmetric(
    model: ContextModelView,
    curves: Curves,
    one: Seq<real>,
    two: Seq<real>,
    unit: real,
)
    requires
        is_odd(curves.odd),
        scales_are_positive(model, unit),
    ensures
        context_evaluation(model, curves, two, one, unit) == -context_evaluation(
            model,
            curves,
            one,
            two,
            unit,
        ),
{
    let n = model.output_weights.len() as int;
    lemma_swapped_hidden(model, curves, one, two, unit, n);
    lemma_swapped_sums(model, 0, one, two, unit, NUM_EVAL_FEATURES as int);
    let clip = exact(model.correction_clip, unit);
    let raw = hidden_sum(model, curves, one, two, unit, n);
    lemma_opposite_quotient(raw, clip);
    let o = (curves.odd)(raw / clip);
    assert((curves.odd)(-(raw / clip)) == -o);
    let k = exact(model.k, unit);
    assert(k * (clip * (-o)) == -(k * (clip * o))) by (nonlinear_arith);
}

/// Sides with the same features are even.
pub proof fn lemma_equal_sides_are_even(
    model: ContextModelView,
    curves: Curves,
    features: Seq<real>,
    unit: real,
)
    requires
        is_odd(curves.odd),
        scales_are_positive(model, unit),
    ensures
        context_evaluation(model, curves, features, features, unit) == 0 as real,
{
    lemma_context_model_is_side_symmetric(model, curves, features, features, unit);
}

/// The hidden units correct the linear evaluation by no more than the scale
/// times the clip, up or down, where the odd curve stays between minus one
/// and one.
pub proof fn lemma_context_correction_is_bounded(
    model: ContextModelView,
    curves: Curves,
    one: Seq<real>,
    two: Seq<real>,
    unit: real,
)
    requires
        forall|x: real| -1 as real <= #[trigger] (curves.odd)(x) <= 1 as real,
        model.k.units() >= 0,
        model.correction_clip.units() >= 0,
        unit >= 0 as real,
    ensures
        ({
            let base = base_sum(model, one, two, unit, NUM_EVAL_FEATURES as int);
            let most = exact(model.k, unit) * exact(model.correction_clip, unit);
            base - most <= context_evaluation(model, curves, one, two, unit) <= base + most
        }),
{
    let c = model.correction_clip.units() as real;
    let n = model.k.units() as real;
    assert(c * unit >= 0 as real && n * unit >= 0 as real) by (nonlinear_arith)
        requires
            c >= 0 as real,
            n >= 0 as real,
            unit >= 0 as real,
    ;
    let k = exact(model.k, unit);
    let clip = exact(model.correction_clip, unit);
    let raw = hidden_sum(model, curves, one, two, unit, model.output_weights.len() as int);
    let o = (curves.odd)(raw / clip);
    assert(-1 as real <= o <= 1 as real);
    let x = clip * o;
    assert(-clip <= x <= clip) by (nonlinear_arith)
        requires
            x == clip * o,
            clip >= 0 as real,
            -1 as real <= o <= 1 as real,
    ;
    assert(-(k * clip) <= k * x <= k * clip) by (nonlinear_arith)
        requires
            k >= 0 as real,
            -clip <= x <= clip,
    ;
}

} // verus!
