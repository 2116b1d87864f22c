//! The per-shard representation of one user query, and the errors the
//! pipeline reports.

use vstd::prelude::*;

verus! {

/// A rank-based method for composing several ranked lists into one.
#[derive(Debug, Clone, Copy, PartialEq, Eq, Structural)]
pub enum Fusion {
    Rrf,
}

/// The scoring method at the root of a query. Only `Fusion` triggers the
/// two-stage pipeline; every direct method behaves alike here.
#[derive(Debug, Clone, Copy, PartialEq, Eq, Structural)]
pub enum ScoringQuery {
    /// Direct scoring against a vector; the shard engine does the work.
    Nearest,
    /// Compose the prefetch results with the given fusion method.
    Fusion(Fusion),
}

/// A sub-query whose ranked result takes part in a later fusion step. The
/// parameters that only the shard engine reads are not modelled here.
#[derive(Debug, Clone, Copy, PartialEq, Eq, Structural)]
pub struct Prefetch {
    pub limit: usize,
}

/// One user query as a shard sees it: the root scoring method, the ordered
/// prefetches, and the root pagination window.
#[derive(Debug, Clone, PartialEq, Eq)]
pub struct ShardQueryRequest {
    pub query: Option<ScoringQuery>,
    pub prefetches: Vec<Prefetch>,
    pub limit: usize,
    pub offset: usize,
}

/// Identifies the shards a request addresses; contiguous requests with equal
/// selectors are dispatched as one batch.
#[derive(Debug, Clone, Copy, PartialEq, Eq, Structural)]
pub enum ShardSelector {
    All,
    ShardKey(u64),
    ShardId(u32),
}

/// An error of the pipeline; every invariant violation is reported as a
/// service error.
#[derive(Debug, Clone, PartialEq, Eq)]
pub enum CollectionError {
    ServiceError { description: String },
}

impl ShardQueryRequest {
    /// The root query is a fusion query.
    pub open spec fn is_fusion(self) -> bool {
        match self.query {
            Some(ScoringQuery::Fusion(_)) => true,
            _ => false,
        }
    }

    /// How many points each intermediate ranked list must keep after the
    /// cross-shard merge: one entry per intermediate response.
    pub open spec fn spec_intermediate_limits(self) -> Seq<usize> {
        if self.is_fusion() {
            self.prefetches@.map_values(|p: Prefetch| p.limit)
        } else {
            seq![(self.offset + self.limit) as usize]
        }
    }

    /// Per-intermediate `take` counts. For a fusion query there is one entry
    /// per prefetch, holding that prefetch's limit; otherwise a single entry
    /// holding `offset + limit`, so that the merge keeps enough points for
    /// pagination.
    pub fn intermediate_response_info(&self) -> (r: Vec<usize>)
        requires
            self.offset + self.limit <= usize::MAX,
        ensures
            r@ == self.spec_intermediate_limits(),
    {
        let mut r: Vec<usize> = Vec::new();
        match &self.query {
            Some(ScoringQuery::Fusion(_)) => {
                let mut i: usize = 0;
                while i < self.prefetches.len()
                    invariant
                        0 <= i <= self.prefetches@.len(),
                        r@ == self.prefetches@.take(i as int).map_values(
                            |p: Prefetch| p.limit,
                        ),
                    decreases self.prefetches@.len() - i,
                {
                    r.push(self.prefetches[i].limit);
                    proof {
                        assert(self.prefetches@.take(i + 1).map_values(|p: Prefetch| p.limit)
                            =~= self.prefetches@.take(i as int).map_values(
                            |p: Prefetch| p.limit,
                        ).push(self.prefetches@[i as int].limit));
                    }
                    i += 1;
                }
                proof {
                    assert(self.prefetches@.take(self.prefetches@.len() as int)
                        =~= self.prefetches@);
                }
            },
            _ => {
                r.push(self.offset + self.limit);
                assert(r@ =~= self.spec_intermediate_limits());
            },
        }
        r
    }
}

} // verus!
