//! Queries and their results.

use vstd::prelude::*;

use crate::filter::Condition;
use crate::id::ExternalId;
use crate::json::Json;
use crate::segment::Point;

verus! {

/// A query for the nearest points.
#[derive(Debug)]
pub struct Query {
    /// The query vector. A query has either this or an identifier.
    pub vector: Option<Vec<u32>>,
    /// The identifier of a point whose vector is the query vector. The point itself is
    /// not among the results.
    pub id: Option<ExternalId>,
    /// How many results there are at most.
    pub top_k: usize,
    /// The condition that results meet.
    pub filter: Option<Condition>,
    /// Whether results come with their payloads.
    pub with_payload: bool,
    /// Whether results come with their vectors.
    pub with_vector: bool,
    /// The score that results have to reach.
    pub score_threshold: Option<u32>,
}

impl Query {
    /// A query by vector: for ten points, with payloads and without vectors.
    pub fn vector(v: Vec<u32>) -> (r: Self)
        ensures
            r == (Query {
                vector: Some(v),
                id: None,
                top_k: 10,
                filter: None,
                with_payload: true,
                with_vector: false,
                score_threshold: None,
            }),
    {
        Query {
            vector: Some(v),
            id: None,
            top_k: 10,
            filter: None,
            with_payload: true,
            with_vector: false,
            score_threshold: None,
        }
    }

    /// A query by the vector of a point.
    pub fn nearest_to(id: ExternalId) -> (r: Self)
        ensures
            r == (Query {
                vector: None,
                id: Some(id),
                top_k: 10,
                filter: None,
                with_payload: true,
                with_vector: false,
                score_threshold: None,
            }),
    {
        Query {
            vector: None,
            id: Some(id),
            top_k: 10,
            filter: None,
            with_payload: true,
            with_vector: false,
            score_threshold: None,
        }
    }

    /// The query for another number of results.
    pub fn top_k(self, k: usize) -> (r: Self)
        ensures
            r == (Query { top_k: k, ..self }),
    {
        Query { top_k: k, ..self }
    }

    /// The query with a condition.
    pub fn filter(self, c: Condition) -> (r: Self)
        ensures
            r == (Query { filter: Some(c), ..self }),
    {
        Query { filter: Some(c), ..self }
    }

    /// The query with or without payloads.
    pub fn with_payload(self, yes: bool) -> (r: Self)
        ensures
            r == (Query { with_payload: yes, ..self }),
    {
        Query { with_payload: yes, ..self }
    }

    /// The query with or without vectors.
    pub fn with_vector(self, yes: bool) -> (r: Self)
        ensures
            r == (Query { with_vector: yes, ..self }),
    {
        Query { with_vector: yes, ..self }
    }

    /// The query with a score that results have to reach.
    pub fn threshold(self, t: u32) -> (r: Self)
        ensures
            r == (Query { score_threshold: Some(t), ..self }),
    {
        Query { score_threshold: Some(t), ..self }
    }
}

/// A result of a query.
#[derive(Debug)]
pub struct ScoredPoint {
    /// The identifier of the point.
    pub id: ExternalId,
    /// The score.
    pub score: u32,
    /// The payload, where the query asks for it.
    pub payload: Option<Json>,
    /// The vector, where the query asks for it.
    pub vector: Option<Vec<u32>>,
}

/// A page of the points of a collection.
#[derive(Debug)]
pub struct ScrollPage {
    /// The points.
    pub points: Vec<Point>,
    /// Where the next page starts; none after the last page.
    pub next_offset: Option<u64>,
}

} // verus!
