//! The pure core of the two batch entry points: grouping requests by shard
//! selector, stamping shard identity onto returned points, and running the
//! merge / fusion / pagination pipeline over a whole batch.

use vstd::prelude::*;

use crate::fusion::RRF_MAX_POINTS;
use crate::merge::{seq_views, total_len};
use crate::pipeline::{
    counts_ok, is_rrf_of, merge_intermediate_results_from_shards, merged_response, orders_ok,
    page_spec, process_query_result, response_views, shard_response_views,
};
use crate::request::{CollectionError, ShardQueryRequest, ShardSelector};
use crate::transpose::{rectangular, transpose};
use crate::types::{Order, ScoredPoint};

verus! {

/// Views of a whole fan-out result: `[shard][query][intermediate]`.
pub open spec fn batch_views(all: Seq<Vec<Vec<(Vec<ScoredPoint>, Order)>>>) -> Seq<
    Seq<Seq<(Seq<ScoredPoint>, Order)>>,
> {
    all.map_values(
        |shard: Vec<Vec<(Vec<ScoredPoint>, Order)>>|
            shard@.map_values(|q: Vec<(Vec<ScoredPoint>, Order)>| shard_response_views(q@)),
    )
}

/// The per-shard responses of query `q`.
pub open spec fn per_query(av: Seq<Seq<Seq<(Seq<ScoredPoint>, Order)>>>, q: int) -> Seq<
    Seq<(Seq<ScoredPoint>, Order)>,
> {
    Seq::new(av.len(), |s: int| av[s][q])
}

/// Sum of the per-intermediate limits.
pub open spec fn sum_limits(limits: Seq<usize>) -> int
    decreases limits.len(),
{
    if limits.len() == 0 {
        0
    } else {
        limits[0] + sum_limits(limits.drop_first())
    }
}

/// Lists bounded pointwise by the limits hold at most their sum.
proof fn lemma_total_len_bounded(lists: Seq<Seq<ScoredPoint>>, limits: Seq<usize>)
    requires
        lists.len() == limits.len(),
        forall|i: int| 0 <= i < lists.len() ==> (#[trigger] lists[i]).len() <= limits[i],
    ensures
        total_len(lists) <= sum_limits(limits),
    decreases lists.len(),
{
    if lists.len() > 0 {
        assert(forall|i: int|
            0 <= i < lists.drop_first().len() ==> (#[trigger] lists.drop_first()[i]) == lists[i
                + 1]);
        lemma_total_len_bounded(lists.drop_first(), limits.drop_first());
    }
}

/// Every shard answered for every query of the batch.
pub open spec fn batch_counts_ok(
    av: Seq<Seq<Seq<(Seq<ScoredPoint>, Order)>>>,
    n_queries: nat,
) -> bool {
    forall|s: int| 0 <= s < av.len() ==> (#[trigger] av[s]).len() == n_queries
}

/// The merged (pre-fusion, pre-pagination) responses of the whole batch are
/// well defined: counts and orders agree for every query.
pub open spec fn batch_merge_ok(
    av: Seq<Seq<Seq<(Seq<ScoredPoint>, Order)>>>,
    requests: Seq<ShardQueryRequest>,
) -> bool {
    &&& batch_counts_ok(av, requests.len())
    &&& forall|q: int|
        0 <= q < requests.len() ==> counts_ok(
            #[trigger] per_query(av, q),
            requests[q].spec_intermediate_limits().len(),
        ) && orders_ok(per_query(av, q), requests[q].spec_intermediate_limits().len())
}

/// What the user-facing pipeline returns for one query: the merged
/// intermediate lists, fused or unwrapped, then paginated.
pub open spec fn query_final_ok(
    request: ShardQueryRequest,
    a: Seq<Seq<(Seq<ScoredPoint>, Order)>>,
    out: Seq<ScoredPoint>,
) -> bool {
    let limits = request.spec_intermediate_limits();
    let resp = merged_response(a, limits);
    if request.is_fusion() {
        exists|f: Seq<ScoredPoint>|
            is_rrf_of(resp, f) && out == page_spec(
                f,
                request.offset as int,
                request.limit as int,
            )
    } else {
        out == page_spec(resp[0], request.offset as int, request.limit as int)
    }
}

/// Merges the fan-out result of a whole batch into one pre-fusion response
/// per query, in query order. This is all the peer-facing entry point does
/// after the fan-out; the caller finishes fusion and pagination itself.
/// Fails exactly when a shard answered for the wrong number of queries, or
/// a per-query merge fails.
pub fn merge_batch_results(
    requests: &Vec<ShardQueryRequest>,
    all_shards_results: Vec<Vec<Vec<(Vec<ScoredPoint>, Order)>>>,
) -> (r: Result<Vec<Vec<Vec<ScoredPoint>>>, CollectionError>)
    requires
        forall|q: int|
            0 <= q < requests@.len() ==> (#[trigger] requests@[q]).offset + requests@[q].limit
                <= usize::MAX,
    ensures
        ({
            let av = batch_views(all_shards_results@);
            &&& (r is Ok <==> batch_merge_ok(av, requests@.map_values(|rq: ShardQueryRequest| rq)))
            &&& (r matches Ok(out) ==> {
                &&& out@.len() == requests@.len()
                &&& forall|q: int|
                    0 <= q < requests@.len() ==> (#[trigger] out@[q])@.map_values(
                        |l: Vec<ScoredPoint>| l@,
                    ) == merged_response(
                        per_query(av, q),
                        requests@[q].spec_intermediate_limits(),
                    )
            })
        }),
{
    let ghost av = batch_views(all_shards_results@);
    let n_queries = requests.len();
    let mut s: usize = 0;
    while s < all_shards_results.len()
        invariant
            0 <= s <= all_shards_results@.len(),
            av == batch_views(all_shards_results@),
            n_queries == requests@.len(),
            forall|s2: int| 0 <= s2 < s ==> (#[trigger] av[s2]).len() == n_queries,
        decreases all_shards_results@.len() - s,
    {
        if all_shards_results[s].len() != n_queries {
            proof {
                assert(av[s as int].len() != n_queries);
            }
            return Err(
                CollectionError::ServiceError {
                    description: "shard answered for a wrong number of queries".to_owned(),
                },
            );
        }
        proof {
            assert(av[s as int].len() == n_queries);
        }
        s += 1;
    }
    proof {
        assert(batch_counts_ok(av, n_queries as nat));
        let m = all_shards_results@.map_values(|row: Vec<Vec<(Vec<ScoredPoint>, Order)>>| row@);
        assert forall|s2: int| 0 <= s2 < m.len() implies (#[trigger] m[s2]).len()
            == n_queries by {
            assert(m[s2] == all_shards_results@[s2]@);
            assert(av[s2].len() == n_queries);
        }
        assert(rectangular(m, n_queries as nat));
    }
    let num_shards = all_shards_results.len();
    let mut by_query = transpose(all_shards_results, n_queries);
    let ghost t = by_query@;
    let mut out: Vec<Vec<Vec<ScoredPoint>>> = Vec::new();
    let mut q: usize = 0;
    while q < n_queries
        invariant
            0 <= q <= n_queries,
            av == batch_views(all_shards_results@),
            n_queries == requests@.len(),
            num_shards == av.len(),
            batch_counts_ok(av, n_queries as nat),
            forall|q2: int|
                0 <= q2 < requests@.len() ==> (#[trigger] requests@[q2]).offset
                    + requests@[q2].limit <= usize::MAX,
            t.len() == n_queries,
            by_query@ == t.skip(q as int),
            forall|j: int| 0 <= j < n_queries ==> (#[trigger] t[j])@.len() == num_shards,
            forall|j: int, s2: int|
                0 <= j < n_queries && 0 <= s2 < num_shards ==> (#[trigger] t[j]@[s2])@
                    == all_shards_results@[s2]@[j]@,
            out@.len() == q,
            forall|q2: int|
                0 <= q2 < q ==> counts_ok(
                    #[trigger] per_query(av, q2),
                    requests@[q2].spec_intermediate_limits().len(),
                ) && orders_ok(per_query(av, q2), requests@[q2].spec_intermediate_limits().len()),
            forall|q2: int|
                0 <= q2 < q ==> (#[trigger] out@[q2])@.map_values(|l: Vec<ScoredPoint>| l@)
                    == merged_response(
                    per_query(av, q2),
                    requests@[q2].spec_intermediate_limits(),
                ),
        decreases n_queries - q,
    {
        let row = by_query.remove(0);
        proof {
            assert(row@ == t[q as int]@);
            assert(by_query@ =~= t.skip(q + 1));
            assert(response_views(row@) =~= per_query(av, q as int)) by {
                assert forall|s2: int| 0 <= s2 < row@.len() implies response_views(row@)[s2]
                    == per_query(av, q as int)[s2] by {
                    assert(row@[s2]@ == all_shards_results@[s2]@[q as int]@);
                    assert(av[s2] == all_shards_results@[s2]@.map_values(
                        |qq: Vec<(Vec<ScoredPoint>, Order)>| shard_response_views(qq@),
                    ));
                    assert(per_query(av, q as int)[s2] == av[s2][q as int]);
                }
            }
        }
        let request = &requests[q];
        let merged_q = match merge_intermediate_results_from_shards(request, row) {
            Ok(v) => v,
            Err(e) => {
                proof {
                    assert(!(counts_ok(
                        per_query(av, q as int),
                        requests@[q as int].spec_intermediate_limits().len(),
                    ) && orders_ok(
                        per_query(av, q as int),
                        requests@[q as int].spec_intermediate_limits().len(),
                    )));
                }
                return Err(e);
            },
        };
        out.push(merged_q);
        proof {
            assert(out@[q as int]@.map_values(|l: Vec<ScoredPoint>| l@) =~= merged_response(
                per_query(av, q as int),
                requests@[q as int].spec_intermediate_limits(),
            ));
        }
        q += 1;
    }
    proof {
        assert(requests@.map_values(|rq: ShardQueryRequest| rq) =~= requests@);
    }
    Ok(out)
}

/// Runs the whole per-query pipeline over a batch: merge, fusion or unwrap,
/// pagination; one final ranked list per query, in query order. This is what
/// the user-facing entry point does after the fan-out.
pub fn process_batch_results(
    requests: &Vec<ShardQueryRequest>,
    all_shards_results: Vec<Vec<Vec<(Vec<ScoredPoint>, Order)>>>,
) -> (r: Result<Vec<Vec<ScoredPoint>>, CollectionError>)
    requires
        forall|q: int|
            0 <= q < requests@.len() ==> (#[trigger] requests@[q]).offset + requests@[q].limit
                <= usize::MAX,
        forall|q: int|
            0 <= q < requests@.len() && (#[trigger] requests@[q]).is_fusion() ==> sum_limits(
                requests@[q].spec_intermediate_limits(),
            ) <= RRF_MAX_POINTS,
    ensures
        ({
            let av = batch_views(all_shards_results@);
            &&& (r is Ok <==> batch_merge_ok(av, requests@.map_values(|rq: ShardQueryRequest| rq)))
            &&& (r matches Ok(out) ==> {
                &&& out@.len() == requests@.len()
                &&& forall|q: int|
                    0 <= q < requests@.len() ==> query_final_ok(
                        requests@[q],
                        per_query(av, q),
                        (#[trigger] out@[q])@,
                    )
            })
        }),
{
    let ghost av = batch_views(all_shards_results@);
    let merged = match merge_batch_results(requests, all_shards_results) {
        Ok(v) => v,
        Err(e) => {
            return Err(e);
        },
    };
    let ghost mv = merged@;
    let mut merged = merged;
    let mut out: Vec<Vec<ScoredPoint>> = Vec::new();
    let mut q: usize = 0;
    while q < requests.len()
        invariant
            0 <= q <= requests@.len(),
            av == batch_views(all_shards_results@),
            mv.len() == requests@.len(),
            merged@ == mv.skip(q as int),
            forall|q2: int|
                0 <= q2 < requests@.len() ==> (#[trigger] requests@[q2]).offset
                    + requests@[q2].limit <= usize::MAX,
            forall|q2: int|
                0 <= q2 < requests@.len() && (#[trigger] requests@[q2]).is_fusion()
                    ==> sum_limits(requests@[q2].spec_intermediate_limits()) <= RRF_MAX_POINTS,
            forall|q2: int|
                0 <= q2 < requests@.len() ==> (#[trigger] mv[q2])@.map_values(
                    |l: Vec<ScoredPoint>| l@,
                ) == merged_response(
                    per_query(av, q2),
                    requests@[q2].spec_intermediate_limits(),
                ),
            out@.len() == q,
            forall|q2: int|
                0 <= q2 < q ==> query_final_ok(
                    requests@[q2],
                    per_query(av, q2),
                    (#[trigger] out@[q2])@,
                ),
        decreases requests@.len() - q,
    {
        let inter = merged.remove(0);
        proof {
            assert(inter@ == mv[q as int]@);
            assert(merged@ =~= mv.skip(q + 1));
        }
        let request = &requests[q];
        let ghost limits = requests@[q as int].spec_intermediate_limits();
        let ghost resp = merged_response(per_query(av, q as int), limits);
        proof {
            assert(seq_views(inter@) =~= resp) by {
                assert(inter@.map_values(|l: Vec<ScoredPoint>| l@) == resp);
            }
            if request.is_fusion() {
                assert forall|i: int| 0 <= i < resp.len() implies (#[trigger] resp[i]).len()
                    <= limits[i] by {
                    crate::merge::lemma_dedup_ids(
                        crate::merge::merged(
                            crate::pipeline::order_at(per_query(av, q as int), i),
                            crate::pipeline::lists_at(per_query(av, q as int), i),
                        ),
                    );
                }
                lemma_total_len_bounded(resp, limits);
            }
        }
        let final_q = match process_query_result(request, inter) {
            Ok(v) => v,
            Err(e) => {
                proof {
                    assert(limits.len() == 1);
                    assert(false);
                }
                return Err(e);
            },
        };
        out.push(final_q);
        q += 1;
    }
    Ok(out)
}

/// A point with the shard identity stamped on.
pub open spec fn stamped(p: ScoredPoint, key: u64) -> ScoredPoint {
    ScoredPoint { id: p.id, score: p.score, shard_key: Some(key), payload: p.payload }
}

/// Stamps the shard key of the answering shard into every scored point of
/// its response; lists, their order tags and the ranking stay as they were.
/// The driver calls this exactly for shards that carry an explicit key.
pub fn stamp_shard_key(
    response: Vec<Vec<(Vec<ScoredPoint>, Order)>>,
    key: u64,
) -> (r: Vec<Vec<(Vec<ScoredPoint>, Order)>>)
    ensures
        r@.len() == response@.len(),
        forall|q: int| 0 <= q < response@.len() ==> (#[trigger] r@[q])@.len() == response@[q]@.len(),
        forall|q: int, i: int|
            0 <= q < response@.len() && 0 <= i < response@[q]@.len() ==> {
                &&& (#[trigger] r@[q]@[i]).1 == response@[q]@[i].1
                &&& r@[q]@[i].0@.len() == response@[q]@[i].0@.len()
            },
        forall|q: int, i: int, k: int|
            0 <= q < response@.len() && 0 <= i < response@[q]@.len() && 0 <= k
                < response@[q]@[i].0@.len() ==> (#[trigger] r@[q]@[i].0@[k]) == stamped(
                response@[q]@[i].0@[k],
                key,
            ),
{
    let ghost orig = response@;
    let mut response = response;
    let mut r: Vec<Vec<(Vec<ScoredPoint>, Order)>> = Vec::new();
    while response.len() > 0
        invariant
            r@.len() + response@.len() == orig.len(),
            response@ == orig.skip(r@.len() as int),
            forall|q: int| 0 <= q < r@.len() ==> (#[trigger] r@[q])@.len() == orig[q]@.len(),
            forall|q: int, i: int|
                0 <= q < r@.len() && 0 <= i < orig[q]@.len() ==> {
                    &&& (#[trigger] r@[q]@[i]).1 == orig[q]@[i].1
                    &&& r@[q]@[i].0@.len() == orig[q]@[i].0@.len()
                },
            forall|q: int, i: int, k: int|
                0 <= q < r@.len() && 0 <= i < orig[q]@.len() && 0 <= k < orig[q]@[i].0@.len()
                    ==> (#[trigger] r@[q]@[i].0@[k]) == stamped(orig[q]@[i].0@[k], key),
        decreases response@.len(),
    {
        let ghost q0 = r@.len() as int;
        proof {
            assert(response@[0] == orig[q0]);
        }
        let mut qr = response.remove(0);
        proof {
            assert(response@ =~= orig.skip(q0 + 1));
        }
        let ghost qorig = qr@;
        let mut qout: Vec<(Vec<ScoredPoint>, Order)> = Vec::new();
        while qr.len() > 0
            invariant
                qout@.len() + qr@.len() == qorig.len(),
                qr@ == qorig.skip(qout@.len() as int),
                forall|i: int|
                    0 <= i < qout@.len() ==> (#[trigger] qout@[i]).1 == qorig[i].1
                        && qout@[i].0@.len() == qorig[i].0@.len(),
                forall|i: int, k: int|
                    0 <= i < qout@.len() && 0 <= k < qorig[i].0@.len() ==> (
                    #[trigger] qout@[i].0@[k]) == stamped(qorig[i].0@[k], key),
            decreases qr@.len(),
        {
            let ghost i0 = qout@.len() as int;
            proof {
                assert(qr@[0] == qorig[i0]);
            }
            let pair = qr.remove(0);
            proof {
                assert(qr@ =~= qorig.skip(i0 + 1));
            }
            let (points, order) = pair;
            let ghost porig = points@;
            let mut points = points;
            let mut pout: Vec<ScoredPoint> = Vec::new();
            while points.len() > 0
                invariant
                    pout@.len() + points@.len() == porig.len(),
                    points@ == porig.skip(pout@.len() as int),
                    forall|k: int|
                        0 <= k < pout@.len() ==> #[trigger] pout@[k] == stamped(porig[k], key),
                decreases points@.len(),
            {
                let ghost k0 = pout@.len() as int;
                proof {
                    assert(points@[0] == porig[k0]);
                }
                let p = points.remove(0);
                proof {
                    assert(points@ =~= porig.skip(k0 + 1));
                }
                pout.push(
                    ScoredPoint {
                        id: p.id,
                        score: p.score,
                        shard_key: Some(key),
                        payload: p.payload,
                    },
                );
            }
            qout.push((pout, order));
        }
        r.push(qout);
    }
    r
}

/// A batch of contiguous requests that share one shard selector, rebuilt as
/// the pairs it came from.
pub open spec fn flatten_groups(gs: Seq<(ShardSelector, Vec<ShardQueryRequest>)>) -> Seq<
    (ShardQueryRequest, ShardSelector),
>
    decreases gs.len(),
{
    if gs.len() == 0 {
        Seq::empty()
    } else {
        flatten_groups(gs.drop_last()) + gs.last().1@.map_values(
            |rq: ShardQueryRequest| (rq, gs.last().0),
        )
    }
}

/// Groups the batch in input order: contiguous requests with equal shard
/// selectors form one dispatch group. Flattening the groups gives the input
/// back; no group is empty; neighbouring groups differ in selector.
pub fn batch_requests_by_selector(
    requests: Vec<(ShardQueryRequest, ShardSelector)>,
) -> (r: Vec<(ShardSelector, Vec<ShardQueryRequest>)>)
    ensures
        flatten_groups(r@) == requests@,
        forall|g: int| 0 <= g < r@.len() ==> (#[trigger] r@[g]).1@.len() > 0,
        forall|g: int| 0 <= g < r@.len() - 1 ==> (#[trigger] r@[g]).0 != r@[g + 1].0,
{
    let ghost orig = requests@;
    let mut requests = requests;
    let mut groups: Vec<(ShardSelector, Vec<ShardQueryRequest>)> = Vec::new();
    while requests.len() > 0
        invariant
            requests@.len() <= orig.len(),
            requests@ == orig.skip(orig.len() - requests@.len()),
            flatten_groups(groups@) == orig.take(orig.len() - requests@.len()),
            forall|g: int| 0 <= g < groups@.len() ==> (#[trigger] groups@[g]).1@.len() > 0,
            forall|g: int| 0 <= g < groups@.len() - 1 ==> (#[trigger] groups@[g]).0 != groups@[g
                + 1].0,
        decreases requests@.len(),
    {
        let ghost k0 = orig.len() - requests@.len();
        proof {
            assert(requests@[0] == orig[k0]);
        }
        let (req, sel) = requests.remove(0);
        proof {
            assert(requests@ =~= orig.skip(k0 + 1));
        }
        let mut extend_last = false;
        if groups.len() > 0 {
            let last = &groups[groups.len() - 1];
            if last.0 == sel {
                extend_last = true;
            }
        }
        let ghost gs_old = groups@;
        if extend_last {
            let (gsel, mut greqs) = groups.pop().unwrap();
            greqs.push(req);
            groups.push((gsel, greqs));
            proof {
                assert(groups@.drop_last() =~= gs_old.drop_last());
                assert(flatten_groups(groups@) =~= flatten_groups(gs_old).push((req, sel))) by {
                    let gl = groups@.last();
                    assert(gl.0 == sel);
                    assert(gl.1@ == gs_old.last().1@.push(req));
                    assert(gl.1@.map_values(|rq: ShardQueryRequest| (rq, gl.0))
                        =~= gs_old.last().1@.map_values(
                        |rq: ShardQueryRequest| (rq, gs_old.last().0),
                    ).push((req, sel)));
                }
                assert(orig.take(k0 + 1) =~= orig.take(k0).push(orig[k0]));
            }
        } else {
            let mut greqs: Vec<ShardQueryRequest> = Vec::new();
            greqs.push(req);
            groups.push((sel, greqs));
            proof {
                assert(groups@.drop_last() =~= gs_old);
                assert(flatten_groups(groups@) =~= flatten_groups(gs_old).push((req, sel)));
                assert(orig.take(k0 + 1) =~= orig.take(k0).push(orig[k0]));
            }
        }
    }
    proof {
        assert(orig.take(orig.len() as int) =~= orig);
    }
    groups
}

} // verus!
