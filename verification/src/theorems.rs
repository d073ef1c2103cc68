//! What holds of the filter for every input.

use vstd::prelude::*;
use crate::arithmetic::{
    lemma_difference_zero,
    lemma_product_one,
    lemma_product_zero,
    lemma_sum_zero,
    one,
    same_number,
};
use crate::binary64::Binary64;
use crate::filter::{Biquad, BiquadCoefficients, FilterState};

verus! {

/// Both registers hold a zero, of either sign.
pub open spec fn is_quiet(s: FilterState) -> bool {
    s.s1.spec_is_zero() && s.s2.spec_is_zero()
}

/// All five coefficients are finite.
pub open spec fn all_finite(c: BiquadCoefficients) -> bool {
    &&& c.a1.spec_is_finite()
    &&& c.a2.spec_is_finite()
    &&& c.b0.spec_is_finite()
    &&& c.b1.spec_is_finite()
    &&& c.b2.spec_is_finite()
}

/// The coefficients that make the filter pass its input through: `b0` is one
/// and the other four are zeros.
pub open spec fn is_pass_through(c: BiquadCoefficients) -> bool {
    &&& c.b0 == one()
    &&& c.a1.spec_is_zero()
    &&& c.a2.spec_is_zero()
    &&& c.b1.spec_is_zero()
    &&& c.b2.spec_is_zero()
}

/// Two filters made from the same coefficients answer the same waveform with
/// the same outputs, bit for bit, and end in the same state: nothing but the
/// coefficients and the samples enters the result.
pub proof fn theorem_deterministic(
    first: Biquad,
    second: Biquad,
    c: BiquadCoefficients,
    xs: Seq<Binary64>,
)
    requires
        first@ == FilterState::at_rest(c),
        second@ == FilterState::at_rest(c),
    ensures
        first@.response(xs) == second@.response(xs),
        first@.settle(xs) == second@.settle(xs),
{
}

/// Filtering a waveform is filtering its samples one at a time, in order:
/// each output is the single-sample output in the state that the samples
/// before it have left, and each single-sample step leads to the next such
/// state.
pub proof fn theorem_waveform_is_single_steps(s: FilterState, xs: Seq<Binary64>, i: int)
    requires
        0 <= i < xs.len(),
    ensures
        s.response(xs).len() == xs.len(),
        s.response(xs)[i] == s.settle(xs.take(i)).output(xs[i]),
        s.settle(xs.take(i + 1)) == s.settle(xs.take(i)).advance(xs[i]),
        s.settle(xs.take(0)) == s,
        s.settle(xs.take(xs.len() as int)) == s.settle(xs),
{
    assert(xs.take(i + 1).drop_last() == xs.take(i));
    assert(xs.take(xs.len() as int) == xs);
}

/// The state after two waveforms in a row is the state after their
/// concatenation.
pub proof fn theorem_settle_in_two_calls(s: FilterState, xs: Seq<Binary64>, ys: Seq<Binary64>)
    ensures
        s.settle(xs + ys) == s.settle(xs).settle(ys),
    decreases ys.len(),
{
    if ys.len() == 0 {
    } else {
        theorem_settle_in_two_calls(s, xs, ys.drop_last());
        assert((xs + ys).drop_last() == xs + ys.drop_last());
    }
}

/// Filtering a waveform in two consecutive calls gives the outputs of
/// filtering it in one.
pub proof fn theorem_response_in_two_calls(s: FilterState, xs: Seq<Binary64>, ys: Seq<Binary64>)
    ensures
        s.response(xs + ys) == s.response(xs) + s.settle(xs).response(ys),
        s.settle(xs + ys) == s.settle(xs).settle(ys),
{
    theorem_settle_in_two_calls(s, xs, ys);
    let whole = s.response(xs + ys);
    let parts = s.response(xs) + s.settle(xs).response(ys);
    assert forall|i: int| 0 <= i < whole.len() implies whole[i] == parts[i] by {
        if i < xs.len() {
            assert((xs + ys).take(i) == xs.take(i));
        } else {
            let k = i - xs.len();
            assert((xs + ys).take(i) == xs + ys.take(k));
            theorem_settle_in_two_calls(s, xs, ys.take(k));
        }
    }
}

/// A quiet filter with finite coefficients answers a zero with a zero and
/// stays quiet.
pub proof fn lemma_zero_step(s: FilterState, x: Binary64)
    requires
        all_finite(s.coefficients),
        is_quiet(s),
        x.spec_is_zero(),
    ensures
        s.output(x).spec_is_zero(),
        is_quiet(s.advance(x)),
{
    let c = s.coefficients;
    let out = s.output(x);
    lemma_product_zero(x, c.b0);
    lemma_sum_zero(s.s1, crate::arithmetic::product(c.b0, x));
    lemma_product_zero(x, c.b1);
    lemma_product_zero(x, c.b2);
    lemma_product_zero(out, c.a1);
    lemma_product_zero(out, c.a2);
    lemma_sum_zero(s.s2, crate::arithmetic::product(c.b1, x));
    lemma_difference_zero(
        crate::arithmetic::sum(s.s2, crate::arithmetic::product(c.b1, x)),
        crate::arithmetic::product(c.a1, out),
    );
    lemma_difference_zero(crate::arithmetic::product(c.b2, x), crate::arithmetic::product(c.a2, out));
}

/// A quiet filter with finite coefficients stays quiet over a waveform of
/// zeros.
pub proof fn lemma_zero_input_settles_quiet(s: FilterState, xs: Seq<Binary64>)
    requires
        all_finite(s.coefficients),
        is_quiet(s),
        forall|i: int| 0 <= i < xs.len() ==> xs[i].spec_is_zero(),
    ensures
        is_quiet(s.settle(xs)),
        s.settle(xs).coefficients == s.coefficients,
    decreases xs.len(),
{
    if xs.len() > 0 {
        lemma_zero_input_settles_quiet(s, xs.drop_last());
        lemma_zero_step(s.settle(xs.drop_last()), xs.last());
    }
}

/// Zero in, zero out: a filter at rest whose coefficients are all finite
/// answers a waveform of zeros with zeros only, and both registers stay
/// zero. (An infinite or NaN coefficient times zero is a NaN, and the NaN
/// spreads.)
pub proof fn theorem_zero_input(c: BiquadCoefficients, xs: Seq<Binary64>)
    requires
        all_finite(c),
        forall|i: int| 0 <= i < xs.len() ==> xs[i].spec_is_zero(),
    ensures
        forall|i: int|
            0 <= i < xs.len() ==> (#[trigger] FilterState::at_rest(c).response(
                xs,
            )[i]).spec_is_zero(),
        is_quiet(FilterState::at_rest(c).settle(xs)),
{
    let s = FilterState::at_rest(c);
    lemma_zero_input_settles_quiet(s, xs);
    assert forall|i: int| 0 <= i < xs.len() implies (#[trigger] s.response(xs)[i]).spec_is_zero() by {
        lemma_zero_input_settles_quiet(s, xs.take(i));
        lemma_zero_step(s.settle(xs.take(i)), xs[i]);
    }
}

/// A quiet pass-through filter answers a finite sample with the same
/// number and stays quiet.
pub proof fn lemma_pass_through_step(s: FilterState, x: Binary64)
    requires
        is_pass_through(s.coefficients),
        is_quiet(s),
        x.spec_is_finite(),
    ensures
        same_number(s.output(x), x),
        !x.spec_is_zero() ==> s.output(x) == x,
        is_quiet(s.advance(x)),
{
    let c = s.coefficients;
    let out = s.output(x);
    lemma_product_one(x);
    lemma_sum_zero(s.s1, x);
    lemma_product_zero(c.b1, x);
    lemma_product_zero(c.b2, x);
    lemma_product_zero(c.a1, out);
    lemma_product_zero(c.a2, out);
    lemma_sum_zero(s.s2, crate::arithmetic::product(c.b1, x));
    lemma_difference_zero(
        crate::arithmetic::sum(s.s2, crate::arithmetic::product(c.b1, x)),
        crate::arithmetic::product(c.a1, out),
    );
    lemma_difference_zero(crate::arithmetic::product(c.b2, x), crate::arithmetic::product(c.a2, out));
}

/// A quiet pass-through filter stays quiet over a waveform of finite
/// samples.
pub proof fn lemma_pass_through_settles_quiet(s: FilterState, xs: Seq<Binary64>)
    requires
        is_pass_through(s.coefficients),
        is_quiet(s),
        forall|i: int| 0 <= i < xs.len() ==> xs[i].spec_is_finite(),
    ensures
        is_quiet(s.settle(xs)),
        s.settle(xs).coefficients == s.coefficients,
    decreases xs.len(),
{
    if xs.len() > 0 {
        lemma_pass_through_settles_quiet(s, xs.drop_last());
        lemma_pass_through_step(s.settle(xs.drop_last()), xs.last());
    }
}

/// With `b0 = 1` and the other coefficients zero the filter is the identity
/// on finite samples: every output is the same number as its input, bit for
/// bit unless the input is a zero, and both registers stay zero. (An
/// infinite sample passes through as well, but zero times infinity then
/// puts a NaN into the registers.)
pub proof fn theorem_pass_through(c: BiquadCoefficients, xs: Seq<Binary64>)
    requires
        is_pass_through(c),
        forall|i: int| 0 <= i < xs.len() ==> xs[i].spec_is_finite(),
    ensures
        forall|i: int|
            0 <= i < xs.len() ==> same_number(
                #[trigger] FilterState::at_rest(c).response(xs)[i],
                xs[i],
            ),
        forall|i: int|
            0 <= i < xs.len() && !xs[i].spec_is_zero() ==> #[trigger] FilterState::at_rest(
                c,
            ).response(xs)[i] == xs[i],
        is_quiet(FilterState::at_rest(c).settle(xs)),
{
    let s = FilterState::at_rest(c);
    lemma_pass_through_settles_quiet(s, xs);
    assert forall|i: int| 0 <= i < xs.len() implies same_number(#[trigger] s.response(xs)[i], xs[i])
        && (!xs[i].spec_is_zero() ==> s.response(xs)[i] == xs[i]) by {
        lemma_pass_through_settles_quiet(s, xs.take(i));
        lemma_pass_through_step(s.settle(xs.take(i)), xs[i]);
    }
}

} // verus!
