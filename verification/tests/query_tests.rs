use shard_query_core::batch::{batch_requests_by_selector, process_batch_results, stamp_shard_key};
use shard_query_core::fusion::rrf_scoring;
use shard_query_core::merge::merge_shard_lists;
use shard_query_core::pipeline::{merge_intermediate_results_from_shards, paginate, process_query_result};
use shard_query_core::request::{CollectionError, Fusion, ScoringQuery, ShardQueryRequest, ShardSelector};
use shard_query_core::transpose::transpose;
use shard_query_core::types::{Order, ScoredPoint};

fn sp(id: u64, score: u64) -> ScoredPoint {
    ScoredPoint { id, score, shard_key: None, payload: None }
}

fn sp_payload(id: u64, score: u64, payload: u64) -> ScoredPoint {
    ScoredPoint { id, score, shard_key: None, payload: Some(payload) }
}

fn ids(points: &[ScoredPoint]) -> Vec<u64> {
    points.iter().map(|p| p.id).collect()
}

fn nearest_request(limit: usize, offset: usize) -> ShardQueryRequest {
    ShardQueryRequest { query: Some(ScoringQuery::Nearest), prefetches: Vec::new(), limit, offset }
}

#[test]
fn single_shard_non_fusion() {
    // One shard, one intermediate list, no fusion: the list comes back as is.
    let request = nearest_request(2, 0);
    let shard_a = vec![vec![(vec![sp(1, 900), sp(2, 700)], Order::LargeBetter)]];
    let merged = merge_intermediate_results_from_shards(&request, shard_a).unwrap();
    assert_eq!(merged.len(), 1);
    let result = process_query_result(&request, merged).unwrap();
    assert_eq!(ids(&result), vec![1, 2]);
}

#[test]
fn two_shard_merge_with_duplicate() {
    // The duplicate p1 keeps its best-ranked copy; take = 3.
    let lists = vec![
        vec![sp_payload(1, 900, 11), sp(3, 500)],
        vec![sp(2, 800), sp_payload(1, 850, 99)],
    ];
    let merged = merge_shard_lists(&lists, Order::LargeBetter, 3);
    assert_eq!(ids(&merged), vec![1, 2, 3]);
    assert_eq!(merged[0].score, 900);
    assert_eq!(merged[1].score, 800);
    assert_eq!(merged[2].score, 500);
    // The winning copy carries its payload through unchanged.
    assert_eq!(merged[0].payload, Some(11));
    assert_eq!(merged[1].payload, None);
}

#[test]
fn small_better_merge() {
    let lists = vec![
        vec![sp(1, 100), sp(2, 300)],
        vec![sp(3, 200), sp(4, 400)],
    ];
    let merged = merge_shard_lists(&lists, Order::SmallBetter, 3);
    assert_eq!(ids(&merged), vec![1, 3, 2]);
    assert_eq!(merged[0].score, 100);
    assert_eq!(merged[1].score, 200);
    assert_eq!(merged[2].score, 300);
}

#[test]
fn merge_respects_take_and_uniqueness() {
    let lists = vec![
        vec![sp(1, 900), sp(2, 800), sp(3, 700)],
        vec![sp(1, 890), sp(4, 600), sp(5, 500)],
    ];
    let merged = merge_shard_lists(&lists, Order::LargeBetter, 3);
    assert_eq!(merged.len(), 3);
    let mut seen = merged.iter().map(|p| p.id).collect::<Vec<_>>();
    seen.sort();
    seen.dedup();
    assert_eq!(seen.len(), 3);
}

#[test]
fn rrf_fusion_ranking() {
    // L1 = [p1, p2, p3], L2 = [p2, p4, p1]; expected order [p2, p1, p4, p3].
    let lists = vec![
        vec![sp(1, 900), sp(2, 800), sp(3, 700)],
        vec![sp(2, 950), sp(4, 850), sp(1, 750)],
    ];
    let fused = rrf_scoring(&lists);
    assert_eq!(ids(&fused), vec![2, 1, 4, 3]);
    // Fixed-point contributions: 1000000/61 = 16393, /62 = 16129, /63 = 15873.
    assert_eq!(fused[0].score, 16129 + 16393);
    assert_eq!(fused[1].score, 16393 + 15873);
    assert_eq!(fused[2].score, 16129);
    assert_eq!(fused[3].score, 15873);
}

#[test]
fn rrf_fusion_through_pipeline() {
    let request = ShardQueryRequest {
        query: Some(ScoringQuery::Fusion(Fusion::Rrf)),
        prefetches: Vec::new(),
        limit: 10,
        offset: 0,
    };
    let intermediates = vec![
        vec![sp(1, 900), sp(2, 800), sp(3, 700)],
        vec![sp(2, 950), sp(4, 850), sp(1, 750)],
    ];
    let result = process_query_result(&request, intermediates).unwrap();
    assert_eq!(ids(&result), vec![2, 1, 4, 3]);
}

#[test]
fn pagination_window() {
    // Ten points, offset 3, limit 4: p4..p7 remain.
    let points: Vec<ScoredPoint> = (1..=10).map(|i| sp(i, 1000 - i)).collect();
    let page = paginate(&points, 3, 4);
    assert_eq!(ids(&page), vec![4, 5, 6, 7]);
}

#[test]
fn pagination_length_formula() {
    let points: Vec<ScoredPoint> = (1..=5).map(|i| sp(i, 100)).collect();
    assert_eq!(paginate(&points, 0, 10).len(), 5);
    assert_eq!(paginate(&points, 2, 10).len(), 3);
    assert_eq!(paginate(&points, 5, 10).len(), 0);
    assert_eq!(paginate(&points, 9, 10).len(), 0);
    assert_eq!(paginate(&points, 1, 2).len(), 2);
}

#[test]
fn non_fusion_requires_singleton() {
    let request = nearest_request(5, 0);
    let two_lists = vec![vec![sp(1, 10)], vec![sp(2, 20)]];
    let r = process_query_result(&request, two_lists);
    assert!(matches!(r, Err(CollectionError::ServiceError { .. })));
}

#[test]
fn mismatched_intermediate_count_is_an_error() {
    let request = nearest_request(2, 0);
    // The shard reports two intermediate lists where one is expected.
    let shard_a = vec![vec![
        (vec![sp(1, 900)], Order::LargeBetter),
        (vec![sp(2, 800)], Order::LargeBetter),
    ]];
    let r = merge_intermediate_results_from_shards(&request, shard_a);
    assert!(matches!(r, Err(CollectionError::ServiceError { .. })));
}

#[test]
fn mismatched_orders_are_an_error() {
    let request = nearest_request(2, 0);
    let shards = vec![
        vec![(vec![sp(1, 900)], Order::LargeBetter)],
        vec![(vec![sp(2, 800)], Order::SmallBetter)],
    ];
    let r = merge_intermediate_results_from_shards(&request, shards);
    assert!(matches!(r, Err(CollectionError::ServiceError { .. })));
}

#[test]
fn transpose_is_an_involution() {
    let x: Vec<Vec<Vec<u64>>> = vec![
        vec![vec![1, 2], vec![3], vec![]],
        vec![vec![4], vec![5, 6, 7], vec![8]],
    ];
    let once = transpose(x.clone(), 3);
    assert_eq!(once.len(), 3);
    assert_eq!(once[0], vec![vec![1, 2], vec![4]]);
    let twice = transpose(once, 2);
    assert_eq!(twice, x);
}

#[test]
fn fan_out_stamps_shard_key() {
    let response = vec![vec![
        (vec![sp(1, 900), sp(2, 800)], Order::LargeBetter),
        (vec![sp(3, 700)], Order::LargeBetter),
    ]];
    let stamped = stamp_shard_key(response, 7);
    for per_query in &stamped {
        for (points, _) in per_query {
            for p in points {
                assert_eq!(p.shard_key, Some(7));
            }
        }
    }
    assert_eq!(stamped[0][0].0.len(), 2);
    assert_eq!(stamped[0][1].1, Order::LargeBetter);
}

#[test]
fn whole_batch_pipeline() {
    // Two queries, two shards, preserved query order.
    let requests = vec![nearest_request(2, 0), nearest_request(1, 1)];
    let shard_a = vec![
        vec![(vec![sp(1, 900), sp(3, 500)], Order::LargeBetter)],
        vec![(vec![sp(5, 40), sp(6, 50)], Order::SmallBetter)],
    ];
    let shard_b = vec![
        vec![(vec![sp(2, 800), sp(1, 850)], Order::LargeBetter)],
        vec![(vec![sp(7, 45)], Order::SmallBetter)],
    ];
    let results = process_batch_results(&requests, vec![shard_a, shard_b]).unwrap();
    assert_eq!(results.len(), 2);
    assert_eq!(ids(&results[0]), vec![1, 2]);
    // Second query: merged ascending [5(40), 7(45)] (take = offset + limit = 2),
    // then offset 1, limit 1.
    assert_eq!(ids(&results[1]), vec![7]);
}

#[test]
fn batching_groups_contiguous_selectors() {
    let reqs = vec![
        (nearest_request(1, 0), ShardSelector::All),
        (nearest_request(2, 0), ShardSelector::All),
        (nearest_request(3, 0), ShardSelector::ShardKey(9)),
        (nearest_request(4, 0), ShardSelector::All),
    ];
    let groups = batch_requests_by_selector(reqs);
    assert_eq!(groups.len(), 3);
    assert_eq!(groups[0].0, ShardSelector::All);
    assert_eq!(groups[0].1.len(), 2);
    assert_eq!(groups[0].1[0].limit, 1);
    assert_eq!(groups[0].1[1].limit, 2);
    assert_eq!(groups[1].0, ShardSelector::ShardKey(9));
    assert_eq!(groups[1].1.len(), 1);
    assert_eq!(groups[2].0, ShardSelector::All);
    assert_eq!(groups[2].1.len(), 1);
}

#[test]
fn fusion_query_uses_prefetch_limits() {
    // A fusion query with two prefetches keeps `limit` points per prefetch.
    let request = ShardQueryRequest {
        query: Some(ScoringQuery::Fusion(Fusion::Rrf)),
        prefetches: vec![
            shard_query_core::request::Prefetch { limit: 1 },
            shard_query_core::request::Prefetch { limit: 2 },
        ],
        limit: 10,
        offset: 0,
    };
    let shard_a = vec![vec![
        (vec![sp(1, 900), sp(2, 800)], Order::LargeBetter),
        (vec![sp(3, 700), sp(4, 600)], Order::LargeBetter),
    ]];
    let merged = merge_intermediate_results_from_shards(&request, shard_a).unwrap();
    assert_eq!(merged.len(), 2);
    assert_eq!(ids(&merged[0]), vec![1]);
    assert_eq!(ids(&merged[1]), vec![3, 4]);
}

#[test]
fn zero_shards_give_empty_lists() {
    // With no shards there is nothing to merge; the intermediate list is
    // empty and the final result too.
    let request = nearest_request(2, 0);
    let merged = merge_intermediate_results_from_shards(&request, Vec::new()).unwrap();
    assert_eq!(merged, vec![Vec::<ScoredPoint>::new()]);
    let result = process_query_result(&request, merged).unwrap();
    assert!(result.is_empty());
}

#[test]
fn equal_scores_break_ties_by_id() {
    // Merge ranking: under LargeBetter the larger (score, id) key comes
    // first, so an equal score puts the larger id ahead.
    let lists = vec![vec![sp(2, 500)], vec![sp(1, 500)]];
    let merged = merge_shard_lists(&lists, Order::LargeBetter, 10);
    assert_eq!(ids(&merged), vec![2, 1]);
    // Fused ranking: equal aggregates order by id ascending.
    let fused = rrf_scoring(&vec![vec![sp(9, 100)], vec![sp(5, 100)]]);
    assert_eq!(ids(&fused), vec![5, 9]);
    assert_eq!(fused[0].score, fused[1].score);
}
