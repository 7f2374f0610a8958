//! Distance metrics, and the arithmetic they rest on.
//!
//! What a score means:
//! - [`Metric::L2`]: the squared Euclidean distance; smaller is better
//! - [`Metric::Cosine`]: the cosine similarity; larger is better
//! - [`Metric::Dot`]: the inner product; larger is better

use vstd::prelude::*;

use crate::float::{
    at_most, below, law_patterns_compare_as_numbers, le, lt, nan, negate, negated, number,
};

verus! {

/// A distance metric.
#[derive(Debug, Clone, Copy, PartialEq, Eq, Structural, Hash)]
pub enum Metric {
    /// Squared Euclidean distance; smaller is better.
    L2,
    /// Cosine similarity; larger is better.
    Cosine,
    /// Inner product; larger is better.
    Dot,
}

impl Metric {
    /// Whether score `a` is strictly better than score `b`.
    pub open spec fn better(self, a: u32, b: u32) -> bool {
        match self {
            Metric::L2 => below(a, b),
            Metric::Cosine | Metric::Dot => below(b, a),
        }
    }

    /// Whether a score is at least as good as a threshold.
    pub open spec fn meets(self, score: u32, threshold: u32) -> bool {
        match self {
            Metric::L2 => at_most(score, threshold),
            Metric::Cosine | Metric::Dot => at_most(threshold, score),
        }
    }

    /// The key of a score: a number that is smaller where the score is better.
    /// The same map leads from a key back to its score.
    pub open spec fn key(self, score: u32) -> u32 {
        match self {
            Metric::L2 => score,
            Metric::Cosine | Metric::Dot => negated(score),
        }
    }

    /// Whether score `a` is strictly better than score `b`.
    pub fn is_better(&self, a: u32, b: u32) -> (r: bool)
        ensures
            r == self.better(a, b),
    {
        match self {
            Metric::L2 => lt(a, b),
            Metric::Cosine | Metric::Dot => lt(b, a),
        }
    }

    /// Whether a score is at least as good as a threshold.
    pub fn passes(&self, score: u32, threshold: u32) -> (r: bool)
        ensures
            r == self.meets(score, threshold),
    {
        match self {
            Metric::L2 => le(score, threshold),
            Metric::Cosine | Metric::Dot => le(threshold, score),
        }
    }
}

/// The key of a score.
pub fn to_key(metric: Metric, score: u32) -> (r: u32)
    ensures
        r == metric.key(score),
{
    match metric {
        Metric::L2 => score,
        Metric::Cosine | Metric::Dot => negate(score),
    }
}

/// The score of a key.
pub fn to_score(metric: Metric, key: u32) -> (r: u32)
    ensures
        r == metric.key(key),
{
    match metric {
        Metric::L2 => key,
        Metric::Cosine | Metric::Dot => negate(key),
    }
}

/// The score of a score's key is that score, and the better score has the smaller
/// key.
pub proof fn law_key_round_trip(metric: Metric, a: u32, b: u32)
    ensures
        metric.key(metric.key(a)) == a,
        metric.better(a, b) == below(metric.key(a), metric.key(b)),
{
    crate::float::law_negation(a, b);
    crate::float::law_negation(b, a);
}

/// Under L2 the smaller number is the better score, and under the other metrics the greater one. A
/// score meets a threshold exactly if the threshold is not better than it; a score that is not a
/// number meets none, and none is met where the threshold is not a number.
pub proof fn law_better_and_thresholds(metric: Metric, score: u32, threshold: u32)
    ensures
        nan(score) || nan(threshold) ==> !metric.meets(score, threshold) && !metric.better(
            score,
            threshold,
        ),
        !nan(score) && !nan(threshold) ==> {
            &&& metric.meets(score, threshold) == !metric.better(threshold, score)
            &&& metric.better(score, threshold) == (match metric {
                Metric::L2 => number(score) < number(threshold),
                _ => number(score) > number(threshold),
            })
            &&& metric.meets(score, threshold) == (match metric {
                Metric::L2 => number(score) <= number(threshold),
                _ => number(score) >= number(threshold),
            })
        },
{
    law_patterns_compare_as_numbers(score, threshold);
    law_patterns_compare_as_numbers(threshold, score);
}

/// The arithmetic on vectors: `norm` gives the Euclidean norm of a vector, and
/// `score` the score of a vector `a` of norm `a_norm` against a vector `b` of norm
/// `b_norm`, called as `score(metric, a, a_norm, b, b_norm)`.
pub struct Kernel<N, S> {
    /// The Euclidean norm.
    pub norm: N,
    /// The score under a metric.
    pub score: S,
}

impl<N, S> Kernel<N, S> where
    N: Fn(&[u32]) -> u32,
    S: Fn(Metric, &[u32], u32, &[u32], u32) -> u32,
 {
    /// Both functions can be called on anything, and give the same result on the
    /// same numbers.
    pub open spec fn valid(&self) -> bool {
        &&& forall|v: &[u32]| #[trigger] call_requires(self.norm, (v,))
        &&& forall|m: Metric, a: &[u32], an: u32, b: &[u32], bn: u32| #[trigger]
            call_requires(self.score, (m, a, an, b, bn))
        &&& forall|v: &[u32], w: &[u32], x: u32, y: u32|
            v@ == w@ && #[trigger] call_ensures(self.norm, (v,), x) && #[trigger] call_ensures(
                self.norm,
                (w,),
                y,
            ) ==> x == y
        &&& forall|
            m: Metric,
            a: &[u32],
            c: &[u32],
            an: u32,
            b: &[u32],
            d: &[u32],
            bn: u32,
            x: u32,
            y: u32,
        |
            a@ == c@ && b@ == d@ && #[trigger] call_ensures(self.score, (m, a, an, b, bn), x)
                && #[trigger] call_ensures(self.score, (m, c, an, d, bn), y) ==> x == y
    }

    /// Whether `norm` may give `x` on a vector.
    pub open spec fn may_norm(&self, v: Seq<u32>, x: u32) -> bool {
        exists|s: &[u32]| s@ == v && #[trigger] call_ensures(self.norm, (s,), x)
    }

    /// Whether `score` may give `x` on two vectors with their norms.
    pub open spec fn may_score(
        &self,
        m: Metric,
        a: Seq<u32>,
        an: u32,
        b: Seq<u32>,
        bn: u32,
        x: u32,
    ) -> bool {
        exists|s: &[u32], t: &[u32]|
            s@ == a && t@ == b && #[trigger] call_ensures(self.score, (m, s, an, t, bn), x)
    }

    /// The norm of a vector.
    pub open spec fn norm_of(&self, v: Seq<u32>) -> u32 {
        choose|x: u32| self.may_norm(v, x)
    }

    /// The score of two vectors with their norms.
    pub open spec fn score_of(&self, m: Metric, a: Seq<u32>, an: u32, b: Seq<u32>, bn: u32) -> u32 {
        choose|x: u32| self.may_score(m, a, an, b, bn, x)
    }

    /// The norm of a vector.
    pub fn norm(&self, v: &[u32]) -> (r: u32)
        requires
            self.valid(),
        ensures
            r == self.norm_of(v@),
    {
        let r = (self.norm)(v);
        assert(self.may_norm(v@, r));
        r
    }

    /// The score of `a` against `b`, given both norms.
    pub fn score_with(&self, metric: Metric, a: &[u32], a_norm: u32, b: &[u32], b_norm: u32) -> (r:
        u32)
        requires
            self.valid(),
        ensures
            r == self.score_of(metric, a@, a_norm, b@, b_norm),
    {
        let r = (self.score)(metric, a, a_norm, b, b_norm);
        assert(self.may_score(metric, a@, a_norm, b@, b_norm, r));
        r
    }

    /// The score of `a` against `b`, given the norm of `b` alone.
    pub fn score(&self, metric: Metric, a: &[u32], b: &[u32], b_norm: u32) -> (r: u32)
        requires
            self.valid(),
        ensures
            r == self.score_of(metric, a@, self.norm_of(a@), b@, b_norm),
    {
        let a_norm = self.norm(a);
        self.score_with(metric, a, a_norm, b, b_norm)
    }
}

} // verus!
