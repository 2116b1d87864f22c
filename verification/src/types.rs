//! Core data model: scored points, merge order, and the comparator that
//! makes the ranking a total order.

use vstd::prelude::*;

verus! {

/// Direction in which scores are ranked: whether a larger score is better
/// (similarity) or a smaller one is (distance).
#[derive(Debug, Clone, Copy, PartialEq, Eq, Structural)]
pub enum Order {
    LargeBetter,
    SmallBetter,
}

/// One candidate result: a point identifier, its score, an optional
/// shard-identity tag, and a payload token. Scores are fixed-point
/// integers; ranking compares them primarily, with the identifier breaking
/// ties so that the order is total. The payload is opaque to this core: a
/// token standing for data the pipeline carries through unchanged.
#[derive(Debug, Clone, Copy, PartialEq, Eq)]
pub struct ScoredPoint {
    pub id: u64,
    pub score: u64,
    pub shard_key: Option<u64>,
    pub payload: Option<u64>,
}

/// `(score, id)` of `a` is lexicographically at least that of `b`.
pub open spec fn key_ge(a: ScoredPoint, b: ScoredPoint) -> bool {
    a.score > b.score || (a.score == b.score && a.id >= b.id)
}

/// `(score, id)` of `a` is lexicographically strictly above that of `b`.
pub open spec fn key_gt(a: ScoredPoint, b: ScoredPoint) -> bool {
    a.score > b.score || (a.score == b.score && a.id > b.id)
}

/// Non-strict "ranks at least as well": under `LargeBetter` the larger
/// `(score, id)` key wins, under `SmallBetter` the smaller one.
pub open spec fn better_eq(order: Order, a: ScoredPoint, b: ScoredPoint) -> bool {
    match order {
        Order::LargeBetter => key_ge(a, b),
        Order::SmallBetter => key_ge(b, a),
    }
}

/// Strict "ranks strictly better than", the irreflexive part of `better_eq`.
pub open spec fn better(order: Order, a: ScoredPoint, b: ScoredPoint) -> bool {
    match order {
        Order::LargeBetter => key_gt(a, b),
        Order::SmallBetter => key_gt(b, a),
    }
}

/// The ranking is total: of two points one always ranks at least as well as
/// the other, and strict ranking is exactly non-strict ranking in one
/// direction only.
pub proof fn lemma_better_eq_total(order: Order, a: ScoredPoint, b: ScoredPoint)
    ensures
        better_eq(order, a, b) || better_eq(order, b, a),
        better(order, a, b) <==> (better_eq(order, a, b) && !better_eq(order, b, a)),
{
}

/// Decides the strict comparator at run time; `better` is its specification.
pub fn better_exec(order: Order, a: &ScoredPoint, b: &ScoredPoint) -> (r: bool)
    ensures
        r == better(order, *a, *b),
{
    match order {
        Order::LargeBetter => a.score > b.score || (a.score == b.score && a.id > b.id),
        Order::SmallBetter => b.score > a.score || (b.score == a.score && b.id > a.id),
    }
}

/// A sequence is sorted non-strictly from best to worst under `order`,
/// comparing by `(score, id)`.
pub open spec fn sorted_under(order: Order, s: Seq<ScoredPoint>) -> bool {
    forall|i: int, j: int| 0 <= i <= j < s.len() ==> better_eq(order, s[i], s[j])
}

/// Some point with this id occurs in the sequence.
pub open spec fn has_id(s: Seq<ScoredPoint>, id: u64) -> bool {
    exists|i: int| 0 <= i < s.len() && s[i].id == id
}

/// No point id occurs twice in the sequence.
pub open spec fn unique_ids(s: Seq<ScoredPoint>) -> bool {
    forall|i: int, j: int| 0 <= i < j < s.len() ==> s[i].id != s[j].id
}

} // verus!
