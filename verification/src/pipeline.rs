//! Per-query processing: merging the per-shard responses of one query into
//! globally ranked intermediate lists, fusing or unwrapping them, and
//! paginating the result.

use vstd::prelude::*;

use crate::fusion::{
    fused_point, lists_have_id, rrf_scoring, rrf_sorted, RRF_MAX_POINTS,
};
use crate::merge::{
    dedup_by_id, merge_shard_lists, merged, seq_views, take_at_most, total_len,
};
use crate::request::{CollectionError, ShardQueryRequest};
use crate::transpose::{rectangular, transpose};
use crate::types::{sorted_under, unique_ids, Order, ScoredPoint};

verus! {

/// Views of one shard's response to one query: one `(ranked list, order)`
/// pair per intermediate result.
pub open spec fn shard_response_views(shard: Seq<(Vec<ScoredPoint>, Order)>) -> Seq<
    (Seq<ScoredPoint>, Order),
> {
    shard.map_values(|p: (Vec<ScoredPoint>, Order)| (p.0@, p.1))
}

/// Views of all shards' responses to one query.
pub open spec fn response_views(all: Seq<Vec<(Vec<ScoredPoint>, Order)>>) -> Seq<
    Seq<(Seq<ScoredPoint>, Order)>,
> {
    all.map_values(|shard: Vec<(Vec<ScoredPoint>, Order)>| shard_response_views(shard@))
}

/// Every shard reports `n` intermediate results.
pub open spec fn counts_ok(a: Seq<Seq<(Seq<ScoredPoint>, Order)>>, n: nat) -> bool {
    forall|s: int| 0 <= s < a.len() ==> (#[trigger] a[s]).len() == n
}

/// All shards agree on the order of intermediate result `i`.
pub open spec fn orders_ok_at(a: Seq<Seq<(Seq<ScoredPoint>, Order)>>, i: int) -> bool {
    forall|s: int| 0 <= s < a.len() ==> (#[trigger] a[s][i]).1 == a[0][i].1
}

/// All shards agree on the order of every one of `n` intermediate results.
pub open spec fn orders_ok(a: Seq<Seq<(Seq<ScoredPoint>, Order)>>, n: nat) -> bool {
    forall|i: int| 0 <= i < n ==> orders_ok_at(a, i)
}

/// The agreed order of intermediate result `i`; without shards there is
/// nothing to merge and the direction defaults to `SmallBetter`.
pub open spec fn order_at(a: Seq<Seq<(Seq<ScoredPoint>, Order)>>, i: int) -> Order {
    if a.len() == 0 {
        Order::SmallBetter
    } else {
        a[0][i].1
    }
}

/// The per-shard ranked lists of intermediate result `i`.
pub open spec fn lists_at(a: Seq<Seq<(Seq<ScoredPoint>, Order)>>, i: int) -> Seq<
    Seq<ScoredPoint>,
> {
    Seq::new(a.len(), |s: int| a[s][i].0)
}

/// The globally merged list of intermediate result `i`: k-way merge under the
/// agreed order, deduplicated by point id, truncated to `take`.
pub open spec fn merged_intermediate(
    a: Seq<Seq<(Seq<ScoredPoint>, Order)>>,
    i: int,
    take: int,
) -> Seq<ScoredPoint> {
    take_at_most(dedup_by_id(merged(order_at(a, i), lists_at(a, i))), take)
}

/// The whole merged response of one query.
pub open spec fn merged_response(
    a: Seq<Seq<(Seq<ScoredPoint>, Order)>>,
    limits: Seq<usize>,
) -> Seq<Seq<ScoredPoint>> {
    Seq::new(limits.len(), |i: int| merged_intermediate(a, i, limits[i] as int))
}

/// Builds a service error with the given description.
fn service_error(description: &str) -> (r: CollectionError)
    ensures
        r matches CollectionError::ServiceError { description: d } && d@ == description@,
{
    CollectionError::ServiceError { description: description.to_owned() }
}

/// Merges the per-shard responses of one query into one globally ranked list
/// per intermediate result, applying the request's per-intermediate limits.
/// Fails exactly when a shard reports the wrong number of intermediate
/// results or the shards disagree on an intermediate's order.
pub fn merge_intermediate_results_from_shards(
    request: &ShardQueryRequest,
    all_shards_results: Vec<Vec<(Vec<ScoredPoint>, Order)>>,
) -> (r: Result<Vec<Vec<ScoredPoint>>, CollectionError>)
    requires
        request.offset + request.limit <= usize::MAX,
    ensures
        ({
            let a = response_views(all_shards_results@);
            let limits = request.spec_intermediate_limits();
            &&& (r is Ok <==> counts_ok(a, limits.len()) && orders_ok(a, limits.len()))
            &&& (r matches Ok(out) ==> {
                &&& out@.len() == limits.len()
                &&& forall|i: int|
                    0 <= i < limits.len() ==> (#[trigger] out@[i])@ == merged_intermediate(
                        a,
                        i,
                        limits[i] as int,
                    )
                &&& forall|i: int|
                    0 <= i < limits.len() ==> (#[trigger] out@[i])@.len() <= limits[i]
                        && unique_ids(out@[i]@)
                &&& forall|i: int|
                    0 <= i < limits.len() && (forall|s: int|
                        0 <= s < a.len() ==> sorted_under(
                            order_at(a, i),
                            (#[trigger] a[s][i]).0,
                        )) ==> sorted_under(order_at(a, i), (#[trigger] out@[i])@)
            })
        }),
{
    let ghost a = response_views(all_shards_results@);
    let limits = request.intermediate_response_info();
    let n = limits.len();
    // Every shard must report one ranked list per intermediate result.
    let mut s: usize = 0;
    while s < all_shards_results.len()
        invariant
            0 <= s <= all_shards_results@.len(),
            a == response_views(all_shards_results@),
            n == request.spec_intermediate_limits().len(),
            forall|s2: int| 0 <= s2 < s ==> (#[trigger] a[s2]).len() == n,
        decreases all_shards_results@.len() - s,
    {
        if all_shards_results[s].len() != n {
            proof {
                assert(a[s as int].len() != n);
            }
            return Err(service_error(
                "shard returned a wrong number of intermediate results",
            ));
        }
        proof {
            assert(a[s as int].len() == n);
        }
        s += 1;
    }
    proof {
        assert(counts_ok(a, n as nat));
        let m = all_shards_results@.map_values(|row: Vec<(Vec<ScoredPoint>, Order)>| row@);
        assert forall|s2: int| 0 <= s2 < m.len() implies (#[trigger] m[s2]).len() == n by {
            assert(m[s2] == all_shards_results@[s2]@);
            assert(a[s2].len() == n);
        }
        assert(rectangular(m, n as nat));
    }
    let num_shards = all_shards_results.len();
    let mut by_intermediate = transpose(all_shards_results, n);
    let ghost t = by_intermediate@;
    let mut out: Vec<Vec<ScoredPoint>> = Vec::new();
    let mut i: usize = 0;
    while i < n
        invariant
            0 <= i <= n,
            a == response_views(all_shards_results@),
            n == request.spec_intermediate_limits().len(),
            counts_ok(a, n as nat),
            num_shards == a.len(),
            limits@ == request.spec_intermediate_limits(),
            t.len() == n,
            by_intermediate@ == t.skip(i as int),
            forall|j: int, s2: int|
                0 <= j < n && 0 <= s2 < num_shards ==> (#[trigger] t[j]@[s2]).0@ == a[s2][j].0
                    && t[j]@[s2].1 == a[s2][j].1,
            forall|j: int| 0 <= j < n ==> (#[trigger] t[j])@.len() == num_shards,
            out@.len() == i,
            forall|j: int| 0 <= j < i ==> orders_ok_at(a, j),
            forall|j: int|
                0 <= j < i ==> (#[trigger] out@[j])@ == merged_intermediate(
                    a,
                    j,
                    limits@[j] as int,
                ),
            forall|j: int|
                0 <= j < i ==> (#[trigger] out@[j])@.len() <= limits@[j] && unique_ids(
                    out@[j]@,
                ),
            forall|j: int|
                0 <= j < i && (forall|s2: int|
                    0 <= s2 < a.len() ==> sorted_under(order_at(a, j), (#[trigger] a[s2][j]).0))
                    ==> sorted_under(order_at(a, j), (#[trigger] out@[j])@),
        decreases n - i,
    {
        let mut row = by_intermediate.remove(0);
        proof {
            assert(row@ == t[i as int]@);
            assert(by_intermediate@ =~= t.skip(i + 1));
        }
        // All shards must agree on this intermediate's order.
        let order: Order = if row.len() == 0 {
            Order::SmallBetter
        } else {
            row[0].1
        };
        let mut s2: usize = 0;
        while s2 < row.len()
            invariant
                0 <= s2 <= row@.len(),
                row@.len() == num_shards,
                num_shards == a.len(),
                counts_ok(a, n as nat),
                a == response_views(all_shards_results@),
                n == request.spec_intermediate_limits().len(),
                0 <= i < n,
                forall|s3: int| 0 <= s3 < num_shards ==> (#[trigger] row@[s3]).1 == a[s3][i as int].1
                    && row@[s3].0@ == a[s3][i as int].0,
                order == order_at(a, i as int),
                forall|s3: int| 0 <= s3 < s2 ==> (#[trigger] a[s3][i as int]).1 == a[0][i as int].1,
            decreases row@.len() - s2,
        {
            if row[s2].1 != order {
                proof {
                    assert(a[s2 as int][i as int].1 != a[0][i as int].1);
                    assert(!orders_ok_at(a, i as int));
                    assert(!orders_ok(a, n as nat));
                }
                return Err(service_error(
                    "shards disagree on the order of an intermediate result",
                ));
            }
            s2 += 1;
        }
        proof {
            assert(orders_ok_at(a, i as int));
        }
        // Strip the order tags and merge.
        let mut lists: Vec<Vec<ScoredPoint>> = Vec::new();
        let ghost rowv = row@;
        while row.len() > 0
            invariant
                lists@.len() + row@.len() == num_shards,
                rowv.len() == num_shards,
                row@ == rowv.skip(lists@.len() as int),
                forall|s3: int| 0 <= s3 < lists@.len() ==> (#[trigger] lists@[s3])@ == rowv[s3].0@,
            decreases row@.len(),
        {
            let ghost k0 = lists@.len() as int;
            proof {
                assert(row@ == rowv.skip(k0));
                assert(row@[0] == rowv[k0]);
            }
            let pair = row.remove(0);
            proof {
                assert(pair == rowv[k0]);
            }
            lists.push(pair.0);
            proof {
                assert(row@ =~= rowv.skip(k0 + 1));
            }
        }
        proof {
            assert(seq_views(lists@) =~= lists_at(a, i as int));
        }
        let take = limits[i];
        let m = merge_shard_lists(&lists, order, take);
        out.push(m);
        proof {
            assert forall|s3: int| 0 <= s3 < a.len() && (forall|s4: int|
                0 <= s4 < a.len() ==> sorted_under(
                    order_at(a, i as int),
                    (#[trigger] a[s4][i as int]).0,
                )) implies sorted_under(
                order_at(a, i as int),
                seq_views(lists@)[s3],
            ) by {
                assert(seq_views(lists@)[s3] == a[s3][i as int].0);
            }
        }
        i += 1;
    }
    Ok(out)
}

/// How long a page is: `min(limit, max(0, n - offset))` of `n` points remain
/// after skipping `offset` and keeping at most `limit`.
pub open spec fn page_len(n: int, offset: int, limit: int) -> int {
    if n - offset < 0 {
        0
    } else if limit <= n - offset {
        limit
    } else {
        n - offset
    }
}

/// The page itself: skip `offset` points, keep at most `limit`.
pub open spec fn page_spec(s: Seq<ScoredPoint>, offset: int, limit: int) -> Seq<ScoredPoint> {
    if offset <= s.len() {
        take_at_most(s.skip(offset), limit)
    } else {
        Seq::empty()
    }
}

/// Applies the request's pagination window to one ranked list.
pub fn paginate(points: &Vec<ScoredPoint>, offset: usize, limit: usize) -> (r: Vec<
    ScoredPoint,
>)
    ensures
        r@ == page_spec(points@, offset as int, limit as int),
        r@.len() == page_len(points@.len() as int, offset as int, limit as int),
{
    let mut r: Vec<ScoredPoint> = Vec::new();
    let mut i: usize = offset;
    while i < points.len() && r.len() < limit
        invariant
            offset <= i,
            offset <= points@.len() ==> i <= points@.len() && r@ == points@.skip(
                offset as int,
            ).take(i - offset),
            offset > points@.len() ==> i == offset && r@ == Seq::<ScoredPoint>::empty(),
            r@.len() <= limit,
            r@.len() == limit ==> i >= points@.len() || r@.len() == limit,
        decreases points@.len() + limit - i - r@.len() + 1,
    {
        r.push(points[i]);
        proof {
            assert(points@.skip(offset as int).take(i - offset + 1) =~= points@.skip(
                offset as int,
            ).take(i - offset).push(points@[i as int]));
        }
        i += 1;
    }
    proof {
        if offset <= points@.len() {
            let sk = points@.skip(offset as int);
            if r@.len() < limit {
                assert(i >= points@.len());
                assert(r@ =~= sk);
                assert(r@ == take_at_most(sk, limit as int));
            } else {
                assert(r@ == sk.take(limit as int));
            }
        }
    }
    r
}

/// What `rrf_scoring` guarantees of a fused list `f` drawn from `lists`.
pub open spec fn is_rrf_of(lists: Seq<Seq<ScoredPoint>>, f: Seq<ScoredPoint>) -> bool {
    &&& unique_ids(f)
    &&& rrf_sorted(f)
    &&& forall|k: int| 0 <= k < f.len() ==> #[trigger] f[k] == fused_point(lists, f[k].id)
    &&& forall|id: u64| crate::types::has_id(f, id) <==> lists_have_id(lists, id)
}

/// Runs the fusion-or-unwrap stage and pagination for one query, given its
/// merged intermediate lists.
///
/// For a fusion query, the intermediate lists are composed by reciprocal-rank
/// fusion and the fused list is paginated. For any other query the merged
/// response must hold exactly one list, which is paginated directly; any
/// other shape fails.
pub fn process_query_result(
    request: &ShardQueryRequest,
    intermediates: Vec<Vec<ScoredPoint>>,
) -> (r: Result<Vec<ScoredPoint>, CollectionError>)
    requires
        request.is_fusion() ==> total_len(seq_views(intermediates@)) <= RRF_MAX_POINTS,
    ensures
        request.is_fusion() ==> r is Ok && (exists|f: Seq<ScoredPoint>|
            is_rrf_of(seq_views(intermediates@), f) && r->Ok_0@ == page_spec(
                f,
                request.offset as int,
                request.limit as int,
            ) && r->Ok_0@.len() == page_len(
                f.len() as int,
                request.offset as int,
                request.limit as int,
            )),
        !request.is_fusion() ==> {
            &&& (r is Ok <==> intermediates@.len() == 1)
            &&& (r matches Err(err) ==> err matches CollectionError::ServiceError {
                description: d,
            } && d@ == "query response was expected to have one list of results"@)
            &&& (r matches Ok(out) ==> out@ == page_spec(
                intermediates@[0]@,
                request.offset as int,
                request.limit as int,
            ) && out@.len() == page_len(
                intermediates@[0]@.len() as int,
                request.offset as int,
                request.limit as int,
            ))
        },
{
    let is_fusion = match &request.query {
        Some(crate::request::ScoringQuery::Fusion(_)) => true,
        _ => false,
    };
    if is_fusion {
        let fused = rrf_scoring(&intermediates);
        let paged = paginate(&fused, request.offset, request.limit);
        proof {
            assert(is_rrf_of(seq_views(intermediates@), fused@));
        }
        Ok(paged)
    } else {
        if intermediates.len() != 1 {
            return Err(service_error("query response was expected to have one list of results"));
        }
        let paged = paginate(&intermediates[0], request.offset, request.limit);
        Ok(paged)
    }
}

} // verus!
