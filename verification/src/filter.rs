//! The biquad section: five coefficients, two state registers, and the
//! Direct Form 2 Transposed recurrence that runs a sample through them.

use vstd::prelude::*;
use crate::arithmetic::{difference, product, sum, zero};
use crate::binary64::Binary64;

verus! {

/// The five coefficients of the difference equation: `a1`, `a2` feed the
/// output back, `b0`, `b1`, `b2` feed the input forward. No value is refused;
/// whether the recursion they define is stable is the caller's concern.
#[derive(Clone, Copy, Debug)]
pub struct BiquadCoefficients {
    pub a1: Binary64,
    pub a2: Binary64,
    pub b0: Binary64,
    pub b1: Binary64,
    pub b2: Binary64,
}

impl BiquadCoefficients {
    pub fn new(a1: Binary64, a2: Binary64, b0: Binary64, b1: Binary64, b2: Binary64) -> (r: Self)
        ensures
            r == (BiquadCoefficients { a1, a2, b0, b1, b2 }),
    {
        BiquadCoefficients { a1, a2, b0, b1, b2 }
    }
}

/// What a filter is at one moment: its coefficients and both registers.
pub struct FilterState {
    pub coefficients: BiquadCoefficients,
    pub s1: Binary64,
    pub s2: Binary64,
}

impl FilterState {
    /// The state of a filter that has seen no sample yet.
    pub open spec fn at_rest(coefficients: BiquadCoefficients) -> FilterState {
        FilterState { coefficients, s1: zero(false), s2: zero(false) }
    }

    /// The sample that the filter puts out for the input `x`.
    pub open spec fn output(self, x: Binary64) -> Binary64 {
        sum(self.s1, product(self.coefficients.b0, x))
    }

    /// The state after the input `x`. Both new registers are computed from
    /// the registers before the step.
    pub open spec fn advance(self, x: Binary64) -> FilterState {
        let out = self.output(x);
        FilterState {
            coefficients: self.coefficients,
            s1: difference(
                sum(self.s2, product(self.coefficients.b1, x)),
                product(self.coefficients.a1, out),
            ),
            s2: difference(
                product(self.coefficients.b2, x),
                product(self.coefficients.a2, out),
            ),
        }
    }

    /// The state after the inputs `xs`, taken in order.
    pub open spec fn settle(self, xs: Seq<Binary64>) -> FilterState
        decreases xs.len(),
    {
        if xs.len() == 0 {
            self
        } else {
            self.settle(xs.drop_last()).advance(xs.last())
        }
    }

    /// The outputs for the inputs `xs`: the one at `i` is what the filter
    /// puts out for `xs[i]` once it has taken in everything before it.
    pub open spec fn response(self, xs: Seq<Binary64>) -> Seq<Binary64> {
        Seq::new(xs.len(), |i: int| self.settle(xs.take(i)).output(xs[i]))
    }
}

/// A Direct Form 2 Transposed biquad filter.
pub struct Biquad {
    pub s1: Binary64,
    pub s2: Binary64,
    coeffs: BiquadCoefficients,
}

impl View for Biquad {
    type V = FilterState;

    closed spec fn view(&self) -> FilterState {
        FilterState { coefficients: self.coeffs, s1: self.s1, s2: self.s2 }
    }
}

impl Biquad {
    /// Creates a filter at rest from a set of coefficients.
    pub fn new(coefficients: BiquadCoefficients) -> (r: Self)
        ensures
            r@ == FilterState::at_rest(coefficients),
    {
        Biquad { s1: Binary64 { bits: 0 }, s2: Binary64 { bits: 0 }, coeffs: coefficients }
    }

    /// The coefficients that the filter was made with.
    pub fn coefficients(&self) -> (r: BiquadCoefficients)
        ensures
            r == self@.coefficients,
    {
        self.coeffs
    }

    /// The two state registers, `s1` first.
    pub fn registers(&self) -> (r: (Binary64, Binary64))
        ensures
            r.0 == self@.s1,
            r.1 == self@.s2,
    {
        (self.s1, self.s2)
    }

    /// Runs one sample through the filter.
    pub fn process_single(&mut self, input: Binary64) -> (out: Binary64)
        ensures
            out == old(self)@.output(input),
            final(self)@ == old(self)@.advance(input),
    {
        let out = self.s1.add(self.coeffs.b0.mul(input));
        let s1 = self.s2.add(self.coeffs.b1.mul(input)).sub(self.coeffs.a1.mul(out));
        let s2 = self.coeffs.b2.mul(input).sub(self.coeffs.a2.mul(out));
        self.s1 = s1;
        self.s2 = s2;
        out
    }

    /// Runs a waveform through the filter in place, first sample first. The
    /// registers carry over from sample to sample and from call to call.
    pub fn process_waveform(&mut self, waveform: &mut [Binary64])
        ensures
            final(self)@ == old(self)@.settle(old(waveform)@),
            final(waveform)@ == old(self)@.response(old(waveform)@),
    {
        let n = waveform.len();
        let mut i: usize = 0;
        while i < n
            invariant
                i <= n,
                n == waveform@.len(),
                n == old(waveform)@.len(),
                self@ == old(self)@.settle(old(waveform)@.take(i as int)),
                forall|j: int|
                    0 <= j < i ==> waveform@[j] == old(self)@.settle(
                        old(waveform)@.take(j),
                    ).output(old(waveform)@[j]),
                forall|j: int| i <= j < n ==> waveform@[j] == old(waveform)@[j],
            decreases n - i,
        {
            let x = waveform[i];
            let y = self.process_single(x);
            waveform[i] = y;
            proof {
                assert(old(waveform)@.take(i + 1).drop_last() == old(waveform)@.take(i as int));
            }
            i = i + 1;
        }
        proof {
            assert(old(waveform)@.take(n as int) == old(waveform)@);
        }
    }
}

} // verus!
