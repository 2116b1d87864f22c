//! K-way ordered merge over per-shard ranked lists, deduplication by point
//! id (first — that is, best-ranked — occurrence wins), and truncation to a
//! per-intermediate limit.

use vstd::prelude::*;

use crate::types::{
    better, better_eq, better_exec, has_id, sorted_under, unique_ids, Order, ScoredPoint,
};

verus! {

/// Views of a sequence of vectors of points.
pub open spec fn seq_views(v: Seq<Vec<ScoredPoint>>) -> Seq<Seq<ScoredPoint>> {
    v.map_values(|l: Vec<ScoredPoint>| l@)
}

/// Total number of points across all lists.
pub open spec fn total_len(lists: Seq<Seq<ScoredPoint>>) -> nat
    decreases lists.len(),
{
    if lists.len() == 0 {
        0
    } else {
        lists[0].len() + total_len(lists.drop_first())
    }
}

/// Some list still holds a point.
pub open spec fn any_nonempty(lists: Seq<Seq<ScoredPoint>>) -> bool {
    exists|i: int| 0 <= i < lists.len() && lists[i].len() > 0
}

/// Index of the merge winner among `lists[i..]`: the earliest non-empty list
/// whose head no later head strictly beats. `lists.len()` when every list in
/// the suffix is empty.
pub open spec fn winner_index(order: Order, lists: Seq<Seq<ScoredPoint>>, i: int) -> int
    decreases lists.len() - i,
{
    if i < 0 || i >= lists.len() {
        lists.len() as int
    } else {
        let rest = winner_index(order, lists, i + 1);
        if lists[i].len() == 0 {
            rest
        } else if rest < lists.len() && better(order, lists[rest][0], lists[i][0]) {
            rest
        } else {
            i
        }
    }
}

/// The winner of a suffix is a valid non-empty list, its head ranks at least
/// as well as every head in the suffix, and strictly better than the heads of
/// earlier lists in the suffix.
pub proof fn lemma_winner_valid(order: Order, lists: Seq<Seq<ScoredPoint>>, i: int)
    requires
        0 <= i <= lists.len(),
    ensures
        (exists|k: int| i <= k < lists.len() && lists[k].len() > 0) <==> (i
            <= winner_index(order, lists, i) < lists.len()),
        i <= winner_index(order, lists, i) <= lists.len(),
        winner_index(order, lists, i) < lists.len() ==> lists[winner_index(
            order,
            lists,
            i,
        )].len() > 0,
        forall|j: int|
            i <= j < lists.len() && lists[j].len() > 0 ==> better_eq(
                order,
                lists[winner_index(order, lists, i)][0],
                lists[j][0],
            ),
        forall|j: int|
            i <= j < winner_index(order, lists, i) && lists[j].len() > 0 ==> better(
                order,
                lists[winner_index(order, lists, i)][0],
                lists[j][0],
            ),
    decreases lists.len() - i,
{
    if i < lists.len() {
        lemma_winner_valid(order, lists, i + 1);
    }
}

/// Popping the head of a non-empty list shrinks the total length by one.
pub proof fn lemma_total_len_update(lists: Seq<Seq<ScoredPoint>>, w: int)
    requires
        0 <= w < lists.len(),
        lists[w].len() > 0,
    ensures
        total_len(lists.update(w, lists[w].drop_first())) + 1 == total_len(lists),
    decreases lists.len(),
{
    let upd = lists.update(w, lists[w].drop_first());
    if w == 0 {
        assert(upd.drop_first() =~= lists.drop_first());
    } else {
        assert(upd.drop_first() =~= lists.drop_first().update(w - 1, lists[w].drop_first()));
        assert(lists.drop_first()[w - 1] == lists[w]);
        lemma_total_len_update(lists.drop_first(), w - 1);
    }
}

/// The total length is positive exactly when some list is non-empty.
pub proof fn lemma_total_len_pos(lists: Seq<Seq<ScoredPoint>>)
    ensures
        total_len(lists) > 0 <==> any_nonempty(lists),
    decreases lists.len(),
{
    if lists.len() > 0 {
        lemma_total_len_pos(lists.drop_first());
        if lists[0].len() > 0 {
        } else if any_nonempty(lists.drop_first()) {
            let i = choose|i: int|
                0 <= i < lists.drop_first().len() && lists.drop_first()[i].len() > 0;
            assert(lists[i + 1].len() > 0);
        } else if any_nonempty(lists) {
            let i = choose|i: int| 0 <= i < lists.len() && lists[i].len() > 0;
            assert(lists.drop_first()[i - 1].len() > 0);
        }
    }
}

#[via_fn]
proof fn merged_decreases(order: Order, lists: Seq<Seq<ScoredPoint>>) {
    if any_nonempty(lists) {
        lemma_winner_valid(order, lists, 0);
        lemma_total_len_update(lists, winner_index(order, lists, 0));
    }
}

/// The k-way merge: repeatedly emit the winning head. The winner's head ranks
/// at least as well as every other head; among equally ranked heads the
/// earliest list wins, which makes the merge deterministic.
pub open spec fn merged(order: Order, lists: Seq<Seq<ScoredPoint>>) -> Seq<ScoredPoint>
    decreases total_len(lists),
        via merged_decreases
{
    if !any_nonempty(lists) {
        Seq::empty()
    } else {
        let w = winner_index(order, lists, 0);
        seq![lists[w][0]] + merged(order, lists.update(w, lists[w].drop_first()))
    }
}

/// Every merged point is a point of one of the input lists.
pub proof fn lemma_merged_membership(order: Order, lists: Seq<Seq<ScoredPoint>>, n: int)
    requires
        0 <= n < merged(order, lists).len(),
    ensures
        exists|i: int, k: int|
            0 <= i < lists.len() && 0 <= k < lists[i].len() && merged(order, lists)[n]
                == lists[i][k],
    decreases total_len(lists),
{
    lemma_total_len_pos(lists);
    lemma_winner_valid(order, lists, 0);
    let w = winner_index(order, lists, 0);
    if n == 0 {
        assert(merged(order, lists)[0] == lists[w][0]);
    } else {
        let upd = lists.update(w, lists[w].drop_first());
        lemma_total_len_update(lists, w);
        lemma_merged_membership(order, upd, n - 1);
        let (i, k) = choose|i: int, k: int|
            0 <= i < upd.len() && 0 <= k < upd[i].len() && merged(order, upd)[n - 1]
                == upd[i][k];
        if i == w {
            assert(merged(order, lists)[n] == lists[i][k + 1]);
        } else {
            assert(merged(order, lists)[n] == lists[i][k]);
        }
    }
}

/// If every input list is sorted, so is the merge.
pub proof fn lemma_merged_sorted(order: Order, lists: Seq<Seq<ScoredPoint>>)
    requires
        forall|i: int| 0 <= i < lists.len() ==> sorted_under(order, #[trigger] lists[i]),
    ensures
        sorted_under(order, merged(order, lists)),
    decreases total_len(lists),
{
    if any_nonempty(lists) {
        lemma_total_len_pos(lists);
        lemma_winner_valid(order, lists, 0);
        let w = winner_index(order, lists, 0);
        let upd = lists.update(w, lists[w].drop_first());
        lemma_total_len_update(lists, w);
        assert forall|i: int| 0 <= i < upd.len() implies sorted_under(order, #[trigger] upd[i]) by {
            if i == w {
                assert forall|a: int, b: int| 0 <= a <= b < upd[i].len() implies better_eq(
                    order,
                    upd[i][a],
                    upd[i][b],
                ) by {
                    assert(upd[i][a] == lists[w][a + 1]);
                    assert(upd[i][b] == lists[w][b + 1]);
                }
            }
        }
        lemma_merged_sorted(order, upd);
        let m = merged(order, lists);
        let head = lists[w][0];
        assert(m == seq![head] + merged(order, upd));
        assert forall|n: int| 1 <= n < m.len() implies better_eq(order, head, m[n]) by {
            lemma_merged_membership(order, upd, n - 1);
            let (i, k) = choose|i: int, k: int|
                0 <= i < upd.len() && 0 <= k < upd[i].len() && merged(order, upd)[n - 1]
                    == upd[i][k];
            assert(m[n] == upd[i][k]);
            // The head of list `i` ranks at least as well as its element `k`,
            // and the winner's head at least as well as that head.
            if i == w {
                assert(better_eq(order, lists[w][1], lists[w][k + 1]));
                assert(better_eq(order, head, lists[w][k + 1]));
            } else {
                assert(better_eq(order, lists[i][0], lists[i][k]));
                assert(better_eq(order, head, lists[i][0]));
            }
        }
    }
}

/// Deduplication by point id, keeping the first occurrence of each id and
/// the order of what stays.
pub open spec fn dedup_by_id(s: Seq<ScoredPoint>) -> Seq<ScoredPoint>
    decreases s.len(),
{
    if s.len() == 0 {
        Seq::empty()
    } else {
        let pre = dedup_by_id(s.drop_last());
        if has_id(s.drop_last(), s.last().id) {
            pre
        } else {
            pre.push(s.last())
        }
    }
}

/// Deduplication keeps exactly the ids of the input, keeps each id once, and
/// keeps only points of the input.
pub proof fn lemma_dedup_ids(s: Seq<ScoredPoint>)
    ensures
        forall|id: u64| has_id(dedup_by_id(s), id) <==> has_id(s, id),
        unique_ids(dedup_by_id(s)),
        forall|n: int|
            0 <= n < dedup_by_id(s).len() ==> exists|i: int|
                0 <= i < s.len() && #[trigger] dedup_by_id(s)[n] == s[i],
    decreases s.len(),
{
    if s.len() > 0 {
        lemma_dedup_ids(s.drop_last());
        let d = dedup_by_id(s);
        let pre = dedup_by_id(s.drop_last());
        assert forall|id: u64| has_id(s, id) implies has_id(d, id) by {
            let i = choose|i: int| 0 <= i < s.len() && s[i].id == id;
            if i < s.len() - 1 {
                assert(s.drop_last()[i].id == id);
                assert(has_id(s.drop_last(), id));
                assert(has_id(pre, id));
                let n = choose|n: int| 0 <= n < pre.len() && pre[n].id == id;
                assert(d[n].id == id);
            } else if has_id(s.drop_last(), s.last().id) {
                assert(has_id(pre, id));
                let n = choose|n: int| 0 <= n < pre.len() && pre[n].id == id;
                assert(d[n].id == id);
            } else {
                assert(d.last().id == id);
            }
        }
        assert forall|id: u64| has_id(d, id) implies has_id(s, id) by {
            let n = choose|n: int| 0 <= n < d.len() && d[n].id == id;
            if n < pre.len() {
                assert(pre[n].id == id);
                let i = choose|i: int| 0 <= i < s.drop_last().len() && s.drop_last()[i].id == id;
                assert(s[i].id == id);
            } else {
                assert(s.last().id == id);
            }
        }
        assert forall|n: int| 0 <= n < d.len() implies exists|i: int|
            0 <= i < s.len() && #[trigger] d[n] == s[i] by {
            if n < pre.len() {
                let i = choose|i: int|
                    0 <= i < s.drop_last().len() && #[trigger] pre[n] == s.drop_last()[i];
                assert(d[n] == s[i]);
            } else {
                assert(d[n] == s[s.len() - 1]);
            }
        }
        if !has_id(s.drop_last(), s.last().id) {
            assert forall|a: int, b: int| 0 <= a < b < d.len() implies d[a].id != d[b].id by {
                if b == d.len() - 1 {
                    assert(pre[a].id == d[a].id);
                    if d[a].id == s.last().id {
                        assert(has_id(pre, s.last().id));
                        assert(has_id(s.drop_last(), s.last().id));
                    }
                }
            }
        }
    }
}

/// Deduplication of a sorted sequence is sorted.
pub proof fn lemma_dedup_sorted(order: Order, s: Seq<ScoredPoint>)
    requires
        sorted_under(order, s),
    ensures
        sorted_under(order, dedup_by_id(s)),
    decreases s.len(),
{
    if s.len() > 0 {
        assert(forall|a: int, b: int|
            0 <= a <= b < s.drop_last().len() ==> better_eq(
                order,
                s.drop_last()[a],
                s.drop_last()[b],
            ));
        lemma_dedup_sorted(order, s.drop_last());
        let d = dedup_by_id(s);
        let pre = dedup_by_id(s.drop_last());
        if !has_id(s.drop_last(), s.last().id) {
            lemma_dedup_ids(s.drop_last());
            assert forall|a: int, b: int| 0 <= a <= b < d.len() implies better_eq(
                order,
                d[a],
                d[b],
            ) by {
                if b == d.len() - 1 && a < b {
                    let i = choose|i: int|
                        0 <= i < s.drop_last().len() && #[trigger] pre[a] == s.drop_last()[i];
                    assert(d[a] == s[i]);
                    assert(better_eq(order, s[i], s.last()));
                }
            }
        }
    }
}

/// The first `n` elements, or all of them if fewer.
pub open spec fn take_at_most(s: Seq<ScoredPoint>, n: int) -> Seq<ScoredPoint> {
    if n <= s.len() {
        s.take(n)
    } else {
        s
    }
}

/// The lists still to be consumed: each input list with its first `pos[i]`
/// points already emitted.
pub open spec fn remaining(lists: Seq<Seq<ScoredPoint>>, pos: Seq<usize>) -> Seq<
    Seq<ScoredPoint>,
> {
    Seq::new(lists.len(), |i: int| lists[i].skip(pos[i] as int))
}

/// K-way merge of the input lists: emits exactly `merged(order, ...)`.
pub fn kmerge(lists: &Vec<Vec<ScoredPoint>>, order: Order) -> (r: Vec<ScoredPoint>)
    ensures
        r@ == merged(order, seq_views(lists@)),
{
    let ghost full = seq_views(lists@);
    let n = lists.len();
    let mut pos: Vec<usize> = Vec::new();
    let mut k: usize = 0;
    while k < n
        invariant
            pos@.len() == k <= n,
            forall|i: int| 0 <= i < k ==> pos@[i] == 0,
        decreases n - k,
    {
        pos.push(0);
        k += 1;
    }
    let mut out: Vec<ScoredPoint> = Vec::new();
    proof {
        assert(remaining(full, pos@) =~~= full);
    }
    loop
        invariant
            n == lists@.len(),
            pos@.len() == n,
            forall|i: int| 0 <= i < n ==> pos@[i] <= (#[trigger] lists@[i])@.len(),
            out@ + merged(order, remaining(full, pos@)) == merged(order, full),
            full == seq_views(lists@),
        ensures
            out@ == merged(order, full),
        decreases total_len(remaining(full, pos@)),
    {
        let ghost rem = remaining(full, pos@);
        // Backward scan for the winner among the remaining heads.
        let mut w: usize = n;
        let mut i: usize = n;
        while i > 0
            invariant
                0 <= i <= n,
                n == lists@.len(),
                pos@.len() == n,
                forall|k2: int| 0 <= k2 < n ==> pos@[k2] <= (#[trigger] lists@[k2])@.len(),
                rem == remaining(full, pos@),
                full == seq_views(lists@),
                w as int == winner_index(order, rem, i as int),
            decreases i,
        {
            i -= 1;
            proof {
                assert(full[i as int] == lists@[i as int]@);
                assert(rem[i as int] == full[i as int].skip(pos@[i as int] as int));
            }
            if pos[i] < lists[i].len() {
                assert(rem[i as int][0] == lists@[i as int]@[pos@[i as int] as int]);
                let head_i = lists[i][pos[i]];
                if w == n {
                    w = i;
                } else {
                    proof {
                        lemma_winner_valid(order, rem, i + 1);
                        assert(full[w as int] == lists@[w as int]@);
                        assert(rem[w as int] == full[w as int].skip(pos@[w as int] as int));
                        assert(rem[w as int].len() > 0);
                    }
                    let head_w = lists[w][pos[w]];
                    assert(rem[w as int][0] == head_w);
                    if !better_exec(order, &head_w, &head_i) {
                        w = i;
                    }
                }
            }
        }
        proof {
            lemma_winner_valid(order, rem, 0);
        }
        if w == n {
            proof {
                assert(!any_nonempty(rem));
                assert(merged(order, rem) == Seq::<ScoredPoint>::empty());
                assert(out@ + merged(order, rem) =~= out@);
            }
            break ;
        }
        proof {
            assert(full[w as int] == lists@[w as int]@);
            assert(rem[w as int] == full[w as int].skip(pos@[w as int] as int));
            assert(rem[w as int].len() > 0);
            assert(pos@[w as int] < lists@[w as int]@.len());
            lemma_total_len_pos(rem);
        }
        let x = lists[w][pos[w]];
        assert(x == rem[w as int][0]);
        out.push(x);
        let pw = pos[w];
        let lw = lists[w].len();
        assert(pw < lw);
        pos.set(w, pw + 1);
        proof {
            assert(remaining(full, pos@) =~~= rem.update(
                w as int,
                rem[w as int].drop_first(),
            ));
            lemma_total_len_update(rem, w as int);
            assert(any_nonempty(rem));
            assert(merged(order, rem) == seq![rem[w as int][0]] + merged(
                order,
                remaining(full, pos@),
            ));
            assert(out@ + merged(order, remaining(full, pos@)) =~= merged(order, full));
        }
    }
    out
}

/// Keeps the first point carrying each id, in order: emits exactly
/// `dedup_by_id` of the input.
pub fn dedup_points(points: Vec<ScoredPoint>) -> (r: Vec<ScoredPoint>)
    ensures
        r@ == dedup_by_id(points@),
{
    let n = points.len();
    let mut out: Vec<ScoredPoint> = Vec::new();
    let mut k: usize = 0;
    while k < n
        invariant
            0 <= k <= n,
            n == points@.len(),
            out@ == dedup_by_id(points@.take(k as int)),
        decreases n - k,
    {
        let p = points[k];
        // Membership test against the ids seen so far.
        let mut seen = false;
        let mut j: usize = 0;
        while j < out.len()
            invariant
                0 <= j <= out@.len(),
                seen <==> exists|a: int| 0 <= a < j && out@[a].id == p.id,
            decreases out@.len() - j,
        {
            if out[j].id == p.id {
                seen = true;
            }
            j += 1;
        }
        proof {
            lemma_dedup_ids(points@.take(k as int));
            assert(seen == has_id(out@, p.id));
            assert(points@.take(k + 1).drop_last() =~= points@.take(k as int));
            assert(points@.take(k + 1).last() == p);
        }
        if !seen {
            out.push(p);
        }
        k += 1;
    }
    proof {
        assert(points@.take(n as int) =~= points@);
    }
    out
}

/// Merges the per-shard ranked lists for one intermediate result: k-way merge
/// under `order`, then deduplication by point id (the best-ranked copy of a
/// duplicated point wins), then truncation to at most `take` points.
///
/// When every shard list is sorted under `order`, the result is sorted too,
/// its ids are unique, and its length is at most `take`.
pub fn merge_shard_lists(lists: &Vec<Vec<ScoredPoint>>, order: Order, take: usize) -> (r: Vec<
    ScoredPoint,
>)
    ensures
        r@ == take_at_most(dedup_by_id(merged(order, seq_views(lists@))), take as int),
        r@.len() <= take,
        unique_ids(r@),
        (forall|i: int|
            0 <= i < lists@.len() ==> sorted_under(order, (#[trigger] lists@[i])@))
            ==> sorted_under(order, r@),
{
    let m = kmerge(lists, order);
    let mut d = dedup_points(m);
    let ghost dd = d@;
    d.truncate(take);
    proof {
        let full = seq_views(lists@);
        lemma_dedup_ids(merged(order, full));
        if take as int <= dd.len() {
            assert(d@ =~= take_at_most(dd, take as int));
        }
        assert(forall|a: int, b: int|
            0 <= a < b < d@.len() ==> d@[a] == dd[a] && d@[b] == dd[b]);
        if forall|i: int|
            0 <= i < lists@.len() ==> sorted_under(order, (#[trigger] lists@[i])@) {
            assert forall|i: int| 0 <= i < full.len() implies sorted_under(
                order,
                #[trigger] full[i],
            ) by {
                assert(full[i] == lists@[i]@);
            }
            lemma_merged_sorted(order, full);
            lemma_dedup_sorted(order, merged(order, full));
        }
    }
    d
}

} // verus!
