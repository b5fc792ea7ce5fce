//! Distance metrics: which measurement answers which question.
//!
//! The sums, roots and quotients are floating-point work and are taken by
//! the caller. What is decided here is everything else: whether two vectors
//! can be compared at all, which measurement a metric reads, and what a
//! cosine distance is when a norm is zero.

use crate::error::ZyphyrError;
use crate::scalar::{is_zero, word_is_zero, ONE};
use crate::vector::vector::{Vector, VectorView};
use vstd::prelude::*;

verus! {

/// How two vectors are compared.
#[derive(Debug, Clone, Copy, PartialEq, Eq, Structural)]
pub enum DistanceMetric {
    /// The straight-line distance.
    Euclidean,
    /// One minus the cosine of the angle between the two.
    Cosine,
    /// The raw dot product; larger means closer.
    DotProduct,
}

/// What the caller measured on the logical regions of a pair of vectors
/// `a` and `b`, each value a scalar word. A caller that uses one metric only
/// needs to fill what that metric reads.
#[derive(Debug, Clone, Copy, PartialEq, Eq, Structural)]
pub struct Measurements {
    /// The root of the summed squared differences; read by `Euclidean`.
    pub euclidean: u32,
    /// The sum of the component-wise products; read by `DotProduct`.
    pub dot: u32,
    /// The Euclidean norm of `a`; read by `Cosine`.
    pub norm_a: u32,
    /// The Euclidean norm of `b`; read by `Cosine`.
    pub norm_b: u32,
    /// One minus the dot product over the product of the two norms,
    /// whatever that division gave; read by `Cosine`.
    pub cosine: u32,
}

/// The value of a metric on a measured pair. A cosine distance is `1.0` as
/// soon as one of the two norms is a zero, whatever the quotient was.
pub open spec fn metric_value(metric: DistanceMetric, measured: Measurements) -> u32 {
    match metric {
        DistanceMetric::Euclidean => measured.euclidean,
        DistanceMetric::Cosine => if is_zero(measured.norm_a) || is_zero(measured.norm_b) {
            ONE
        } else {
            measured.cosine
        },
        DistanceMetric::DotProduct => measured.dot,
    }
}

/// What comparing `a` with `b` gives: the metric's value where the two have
/// the same dimension, and otherwise the two dimensions, `a`'s as the
/// expected one.
pub open spec fn distance(
    metric: DistanceMetric,
    a: VectorView,
    b: VectorView,
    measured: Measurements,
) -> Result<u32, ZyphyrError> {
    if a.words.len() != b.words.len() {
        Err(
            ZyphyrError::InvalidDimension {
                expected: a.words.len() as usize,
                got: b.words.len() as usize,
            },
        )
    } else {
        Ok(metric_value(metric, measured))
    }
}

impl DistanceMetric {
    /// Reads this metric's value off a measured pair.
    pub fn value(&self, measured: &Measurements) -> (value: u32)
        ensures
            value == metric_value(*self, *measured),
    {
        match self {
            DistanceMetric::Euclidean => measured.euclidean,
            DistanceMetric::Cosine => {
                // Check for zero magnitude
                if word_is_zero(measured.norm_a) || word_is_zero(measured.norm_b) {
                    ONE  // the defined distance for zero vectors
                } else {
                    measured.cosine
                }
            },
            DistanceMetric::DotProduct => measured.dot,
        }
    }

    /// Computes the distance between `a` and `b` from what was measured on
    /// them. Neither vector is changed.
    pub fn compute(&self, a: &Vector, b: &Vector, measured: &Measurements) -> (result: Result<
        u32,
        ZyphyrError,
    >)
        ensures
            result == distance(*self, a@, b@, *measured),
    {
        if a.dim() != b.dim() {
            return Err(ZyphyrError::InvalidDimension { expected: a.dim(), got: b.dim() });
        }
        Ok(self.value(measured))
    }
}

/// The cosine distance from or to a vector of zero norm is `1.0`, whatever
/// the quotient came to.
pub proof fn lemma_cosine_of_zero_norm(measured: Measurements)
    requires
        is_zero(measured.norm_a) || is_zero(measured.norm_b),
    ensures
        metric_value(DistanceMetric::Cosine, measured) == ONE,
{
}

/// Between two vectors of norms that are not zero, the cosine distance is
/// the measured one.
pub proof fn lemma_cosine_of_nonzero_norms(measured: Measurements)
    requires
        !is_zero(measured.norm_a),
        !is_zero(measured.norm_b),
    ensures
        metric_value(DistanceMetric::Cosine, measured) == measured.cosine,
{
}

/// Comparing `b` with `a` gives what comparing `a` with `b` gives, where the
/// two have one dimension and the metric's value was measured alike in both
/// directions.
pub proof fn lemma_distance_is_symmetric(
    metric: DistanceMetric,
    a: VectorView,
    b: VectorView,
    measured: Measurements,
    measured_back: Measurements,
)
    requires
        a.words.len() == b.words.len(),
        metric_value(metric, measured) == metric_value(metric, measured_back),
    ensures
        distance(metric, a, b, measured) is Ok,
        distance(metric, a, b, measured) == distance(metric, b, a, measured_back),
{
}

/// Whether two vectors can be compared does not depend on their order, nor
/// on the metric.
pub proof fn lemma_comparable_is_symmetric(
    metric: DistanceMetric,
    other_metric: DistanceMetric,
    a: VectorView,
    b: VectorView,
    measured: Measurements,
    other_measured: Measurements,
)
    ensures
        distance(metric, a, b, measured) is Ok <==> distance(other_metric, b, a, other_measured)
            is Ok,
{
}

} // verus!
