//! Reciprocal-rank fusion: composes several ranked lists into one by giving
//! a point at 1-based rank `r` the contribution `SCALE / (K + r)` and summing
//! contributions per point id. Scores are fixed-point integers; the
//! conventional constant `K = 60` is used.

use vstd::prelude::*;

use crate::merge::{seq_views, total_len};
use crate::types::{has_id, unique_ids, ScoredPoint};

verus! {

/// The conventional rank constant of reciprocal-rank fusion.
pub const RRF_K: u64 = 60;

/// Fixed-point scale of one reciprocal-rank contribution.
pub const RRF_SCALE: u64 = 1000000;

/// A fused result may draw on at most this many input points, so that no
/// aggregate score can overflow its 64-bit fixed-point representation.
pub const RRF_MAX_POINTS: u64 = 0x4000_0000_0000;

/// Contribution of one occurrence at 1-based rank `rank`.
pub open spec fn rrf_contrib(rank: int) -> int {
    RRF_SCALE as int / (RRF_K + rank)
}

/// Sum of the contributions that occurrences of `id` in one list earn.
pub open spec fn agg_in_list(l: Seq<ScoredPoint>, id: u64) -> int
    decreases l.len(),
{
    if l.len() == 0 {
        0
    } else {
        agg_in_list(l.drop_last(), id) + if l.last().id == id {
            rrf_contrib(l.len() as int)
        } else {
            0
        }
    }
}

/// Aggregate reciprocal-rank score of `id` over all lists.
pub open spec fn rrf_agg(lists: Seq<Seq<ScoredPoint>>, id: u64) -> int
    decreases lists.len(),
{
    if lists.len() == 0 {
        0
    } else {
        rrf_agg(lists.drop_last(), id) + agg_in_list(lists.last(), id)
    }
}

/// Some list holds a point with this id.
pub open spec fn lists_have_id(lists: Seq<Seq<ScoredPoint>>, id: u64) -> bool {
    exists|i: int| 0 <= i < lists.len() && has_id(#[trigger] lists[i], id)
}

/// The first point of the list that carries `id`.
pub open spec fn first_in_list(l: Seq<ScoredPoint>, id: u64) -> ScoredPoint
    decreases l.len(),
{
    if l.len() == 0 {
        arbitrary()
    } else if l[0].id == id {
        l[0]
    } else {
        first_in_list(l.drop_first(), id)
    }
}

/// The first point carrying `id` in list-major scan order.
pub open spec fn first_in_lists(lists: Seq<Seq<ScoredPoint>>, id: u64) -> ScoredPoint
    decreases lists.len(),
{
    if lists.len() == 0 {
        arbitrary()
    } else if lists_have_id(lists.drop_last(), id) {
        first_in_lists(lists.drop_last(), id)
    } else {
        first_in_list(lists.last(), id)
    }
}

/// The one fused point an id gives rise to: the aggregate score, and the
/// other fields of the first occurrence.
pub open spec fn fused_point(lists: Seq<Seq<ScoredPoint>>, id: u64) -> ScoredPoint {
    ScoredPoint {
        id,
        score: rrf_agg(lists, id) as u64,
        shard_key: first_in_lists(lists, id).shard_key,
        payload: first_in_lists(lists, id).payload,
    }
}

/// Fused ranking: aggregate score descending, ties by point id ascending.
pub open spec fn rrf_ge(a: ScoredPoint, b: ScoredPoint) -> bool {
    a.score > b.score || (a.score == b.score && a.id <= b.id)
}

/// Sorted non-strictly under the fused ranking.
pub open spec fn rrf_sorted(s: Seq<ScoredPoint>) -> bool {
    forall|i: int, j: int| 0 <= i <= j < s.len() ==> rrf_ge(s[i], s[j])
}

/// One contribution is at most `RRF_SCALE / (RRF_K + 1)`.
proof fn lemma_contrib_bound(rank: int)
    requires
        rank >= 1,
    ensures
        0 <= rrf_contrib(rank) <= 16393,
{
    assert(RRF_SCALE as int / (RRF_K + 1) as int == 16393) by (nonlinear_arith);
    assert(rrf_contrib(rank) <= RRF_SCALE as int / (RRF_K + 1) as int) by (nonlinear_arith)
        requires
            rank >= 1,
    ;
    assert(rrf_contrib(rank) >= 0) by (nonlinear_arith)
        requires
            rank >= 1,
    ;
}

/// An aggregate over one list is bounded by the list length times the
/// largest contribution.
proof fn lemma_agg_in_list_bound(l: Seq<ScoredPoint>, id: u64)
    ensures
        0 <= agg_in_list(l, id) <= l.len() * 16393,
    decreases l.len(),
{
    if l.len() == 0 {
    } else {
        lemma_agg_in_list_bound(l.drop_last(), id);
        lemma_contrib_bound(l.len() as int);
        assert((l.len() - 1) * 16393 + 16393 == l.len() * 16393) by (nonlinear_arith);
    }
}

/// An aggregate over all lists is bounded by the total point count times the
/// largest contribution.
proof fn lemma_rrf_agg_bound(lists: Seq<Seq<ScoredPoint>>, id: u64)
    ensures
        0 <= rrf_agg(lists, id) <= total_len(lists) * 16393,
    decreases lists.len(),
{
    if lists.len() == 0 {
    } else {
        lemma_rrf_agg_bound(lists.drop_last(), id);
        lemma_agg_in_list_bound(lists.last(), id);
        lemma_total_len_last(lists);
        assert(total_len(lists.drop_last()) * 16393 + lists.last().len() * 16393 == total_len(
            lists,
        ) * 16393) by (nonlinear_arith)
            requires
                total_len(lists) == total_len(lists.drop_last()) + lists.last().len(),
        ;
    }
}

/// The total length splits off the last list.
proof fn lemma_total_len_last(lists: Seq<Seq<ScoredPoint>>)
    requires
        lists.len() > 0,
    ensures
        total_len(lists) == total_len(lists.drop_last()) + lists.last().len(),
    decreases lists.len(),
{
    if lists.len() == 1 {
        assert(lists.drop_last() =~= Seq::<Seq<ScoredPoint>>::empty());
        assert(lists.drop_first() =~= Seq::<Seq<ScoredPoint>>::empty());
    } else {
        lemma_total_len_last(lists.drop_first());
        assert(lists.drop_first().drop_last() =~= lists.drop_last().drop_first());
        assert(lists.drop_first().last() == lists.last());
    }
}

/// A prefix of a list never loses its total-length share.
proof fn lemma_total_len_take_push(lists: Seq<Seq<ScoredPoint>>, li: int, pi: int)
    requires
        0 <= li < lists.len(),
        0 <= pi <= lists[li].len(),
    ensures
        total_len(lists.take(li).push(lists[li].take(pi))) <= total_len(lists),
    decreases lists.len(),
{
    let g = lists.take(li).push(lists[li].take(pi));
    lemma_total_len_last(g);
    assert(g.drop_last() =~= lists.take(li));
    lemma_total_len_take(lists, li);
    assert(total_len(lists.take(li)) + lists[li].len() <= total_len(lists));
}

/// The total length of a prefix of the lists, plus the next list, is at most
/// the whole.
proof fn lemma_total_len_take(lists: Seq<Seq<ScoredPoint>>, li: int)
    requires
        0 <= li < lists.len(),
    ensures
        total_len(lists.take(li)) + lists[li].len() <= total_len(lists),
    decreases li,
{
    if li == 0 {
        assert(lists.take(0) =~= Seq::<Seq<ScoredPoint>>::empty());
        lemma_total_len_last(lists.take(1).push(lists[0]));
        lemma_total_len_prefix(lists, 1);
    } else {
        lemma_total_len_prefix(lists, li + 1);
        lemma_total_len_last(lists.take(li + 1));
        assert(lists.take(li + 1).drop_last() =~= lists.take(li));
        assert(lists.take(li + 1).last() == lists[li]);
    }
}

/// A prefix never has more points than the whole.
proof fn lemma_total_len_prefix(lists: Seq<Seq<ScoredPoint>>, n: int)
    requires
        0 <= n <= lists.len(),
    ensures
        total_len(lists.take(n)) <= total_len(lists),
    decreases lists.len() - n,
{
    if n == lists.len() {
        assert(lists.take(n) =~= lists);
    } else {
        lemma_total_len_prefix(lists, n + 1);
        lemma_total_len_last(lists.take(n + 1));
        assert(lists.take(n + 1).drop_last() =~= lists.take(n));
    }
}

/// Extending a list beyond an occurrence of `id` does not move its first
/// occurrence.
proof fn lemma_first_in_list_push(l: Seq<ScoredPoint>, x: ScoredPoint, id: u64)
    ensures
        has_id(l, id) ==> first_in_list(l.push(x), id) == first_in_list(l, id),
        !has_id(l, id) && x.id == id ==> first_in_list(l.push(x), id) == x,
        has_id(l.push(x), id) <==> has_id(l, id) || x.id == id,
    decreases l.len(),
{
    if l.len() == 0 {
        assert(l.push(x)[0] == x);
        if has_id(l, id) {
            let i = choose|i: int| 0 <= i < l.len() && l[i].id == id;
        }
        assert(has_id(l.push(x), id) ==> {
            let i = choose|i: int| 0 <= i < l.push(x).len() && l.push(x)[i].id == id;
            x.id == id
        });
    } else {
        lemma_first_in_list_push(l.drop_first(), x, id);
        assert(l.push(x).drop_first() =~= l.drop_first().push(x));
        if has_id(l, id) {
            if l[0].id == id {
            } else {
                let i = choose|i: int| 0 <= i < l.len() && l[i].id == id;
                assert(l.drop_first()[i - 1].id == id);
                assert(has_id(l.drop_first(), id));
            }
        } else {
            assert(forall|i: int| 0 <= i < l.drop_first().len() ==> l.drop_first()[i] == l[i + 1]);
            assert(!has_id(l.drop_first(), id));
        }
        if has_id(l.push(x), id) && !has_id(l, id) {
            let i = choose|i: int| 0 <= i < l.push(x).len() && l.push(x)[i].id == id;
            assert(i == l.len());
        }
    }
}

/// An id that occurs nowhere aggregates to zero.
proof fn lemma_agg_absent_list(l: Seq<ScoredPoint>, id: u64)
    requires
        !has_id(l, id),
    ensures
        agg_in_list(l, id) == 0,
    decreases l.len(),
{
    if l.len() > 0 {
        assert(forall|i: int| 0 <= i < l.drop_last().len() ==> l.drop_last()[i] == l[i]);
        lemma_agg_absent_list(l.drop_last(), id);
        assert(l.last().id != id);
    }
}

/// An id that occurs in no list aggregates to zero.
proof fn lemma_agg_absent(g: Seq<Seq<ScoredPoint>>, id: u64)
    requires
        !lists_have_id(g, id),
    ensures
        rrf_agg(g, id) == 0,
    decreases g.len(),
{
    if g.len() > 0 {
        assert(forall|i: int| 0 <= i < g.drop_last().len() ==> g.drop_last()[i] == g[i]);
        lemma_agg_absent(g.drop_last(), id);
        assert(!has_id(g.last(), id));
        lemma_agg_absent_list(g.last(), id);
    }
}

/// The lists with `li` whole lists and `pi` points of list `li` consumed.
pub open spec fn processed(lists: Seq<Seq<ScoredPoint>>, li: int, pi: int) -> Seq<
    Seq<ScoredPoint>,
> {
    lists.take(li).push(lists[li].take(pi))
}

/// Appending an empty list changes no aggregate, no membership and no first
/// occurrence.
proof fn lemma_push_empty(g: Seq<Seq<ScoredPoint>>, id: u64)
    ensures
        rrf_agg(g.push(Seq::empty()), id) == rrf_agg(g, id),
        lists_have_id(g.push(Seq::empty()), id) <==> lists_have_id(g, id),
        lists_have_id(g, id) ==> first_in_lists(g.push(Seq::empty()), id) == first_in_lists(
            g,
            id,
        ),
{
    let gp = g.push(Seq::<ScoredPoint>::empty());
    assert(gp.drop_last() =~= g);
    assert(agg_in_list(Seq::<ScoredPoint>::empty(), id) == 0);
    if lists_have_id(gp, id) && !lists_have_id(g, id) {
        let i = choose|i: int| 0 <= i < gp.len() && has_id(#[trigger] gp[i], id);
        assert(i == g.len());
        assert(!has_id(Seq::<ScoredPoint>::empty(), id));
    }
}

/// Consuming one more point of the current list adds exactly that point's
/// contribution to its id, and nothing to any other id.
proof fn lemma_step_point(lists: Seq<Seq<ScoredPoint>>, li: int, pi: int, id: u64)
    requires
        0 <= li < lists.len(),
        0 <= pi < lists[li].len(),
    ensures
        rrf_agg(processed(lists, li, pi + 1), id) == rrf_agg(processed(lists, li, pi), id) + (
        if lists[li][pi].id == id {
            rrf_contrib(pi + 1)
        } else {
            0
        }),
        lists_have_id(processed(lists, li, pi + 1), id) <==> (lists_have_id(
            processed(lists, li, pi),
            id,
        ) || lists[li][pi].id == id),
        lists_have_id(processed(lists, li, pi), id) ==> first_in_lists(
            processed(lists, li, pi + 1),
            id,
        ) == first_in_lists(processed(lists, li, pi), id),
        !lists_have_id(processed(lists, li, pi), id) && lists[li][pi].id == id
            ==> first_in_lists(processed(lists, li, pi + 1), id) == lists[li][pi],
{
    let g = lists.take(li);
    let a = lists[li].take(pi);
    let b = lists[li].take(pi + 1);
    let x = lists[li][pi];
    assert(b =~= a.push(x));
    lemma_first_in_list_push(a, x, id);
    let ga = g.push(a);
    let gb = g.push(b);
    assert(ga.drop_last() =~= g);
    assert(gb.drop_last() =~= g);
    assert(agg_in_list(b, id) == agg_in_list(a, id) + if x.id == id {
        rrf_contrib(pi + 1)
    } else {
        0
    }) by {
        assert(b.drop_last() =~= a);
        assert(b.last() == x);
        assert(b.len() == pi + 1);
    }
    // Membership of `id` in the processed prefix, before and after.
    if lists_have_id(ga, id) {
        let i = choose|i: int| 0 <= i < ga.len() && has_id(#[trigger] ga[i], id);
        if i < g.len() {
            assert(gb[i] == ga[i]);
            assert(lists_have_id(gb, id));
        } else {
            assert(has_id(a, id));
            assert(has_id(b, id));
            assert(gb.last() == b);
            assert(lists_have_id(gb, id));
        }
    }
    if x.id == id {
        assert(has_id(b, id));
        assert(lists_have_id(gb, id));
    }
    if lists_have_id(gb, id) {
        let i = choose|i: int| 0 <= i < gb.len() && has_id(#[trigger] gb[i], id);
        if i < g.len() {
            assert(ga[i] == gb[i]);
            assert(lists_have_id(ga, id));
        } else {
            assert(has_id(b, id));
            if !has_id(a, id) && x.id != id {
                assert(false);
            } else if has_id(a, id) {
                assert(ga.last() == a);
                assert(lists_have_id(ga, id));
            }
        }
    }
    // First occurrence.
    if lists_have_id(g, id) {
    } else if lists_have_id(ga, id) {
        let i = choose|i: int| 0 <= i < ga.len() && has_id(#[trigger] ga[i], id);
        assert(i == g.len());
        assert(has_id(a, id));
    }
}

/// Finishing one list and starting the next changes no aggregate, no
/// membership and no first occurrence.
proof fn lemma_step_list(lists: Seq<Seq<ScoredPoint>>, li: int, id: u64)
    requires
        0 <= li < lists.len(),
    ensures
        rrf_agg(processed(lists, li, lists[li].len() as int), id) == rrf_agg(
            lists.take(li + 1),
            id,
        ),
        lists_have_id(processed(lists, li, lists[li].len() as int), id) <==> lists_have_id(
            lists.take(li + 1),
            id,
        ),
        lists_have_id(lists.take(li + 1), id) ==> first_in_lists(
            processed(lists, li, lists[li].len() as int),
            id,
        ) == first_in_lists(lists.take(li + 1), id),
{
    assert(lists[li].take(lists[li].len() as int) =~= lists[li]);
    assert(lists.take(li).push(lists[li]) =~= lists.take(li + 1));
}

/// Decides the fused ranking at run time; `rrf_ge` is its specification.
fn rrf_ge_exec(a: &ScoredPoint, b: &ScoredPoint) -> (r: bool)
    ensures
        r == rrf_ge(*a, *b),
{
    a.score > b.score || (a.score == b.score && a.id <= b.id)
}

/// Reciprocal-rank fusion of the merged intermediate lists of one query.
///
/// The result holds one point per distinct input point id, its score the
/// aggregate of the reciprocal-rank contributions that the id earns across
/// all lists, its other fields those of the id's first occurrence; it is
/// ranked by aggregate score descending, with ties broken by id ascending.
pub fn rrf_scoring(lists: &Vec<Vec<ScoredPoint>>) -> (r: Vec<ScoredPoint>)
    requires
        total_len(seq_views(lists@)) <= RRF_MAX_POINTS,
    ensures
        unique_ids(r@),
        rrf_sorted(r@),
        forall|k: int|
            0 <= k < r@.len() ==> #[trigger] r@[k] == fused_point(
                seq_views(lists@),
                r@[k].id,
            ),
        forall|id: u64| has_id(r@, id) <==> lists_have_id(seq_views(lists@), id),
{
    let ghost full = seq_views(lists@);
    let mut acc: Vec<ScoredPoint> = Vec::new();
    let mut li: usize = 0;
    while li < lists.len()
        invariant
            0 <= li <= lists@.len(),
            full == seq_views(lists@),
            total_len(full) <= RRF_MAX_POINTS,
            unique_ids(acc@),
            forall|k: int|
                0 <= k < acc@.len() ==> #[trigger] acc@[k] == fused_point(
                    full.take(li as int),
                    acc@[k].id,
                ),
            forall|id: u64| has_id(acc@, id) <==> lists_have_id(full.take(li as int), id),
        decreases lists@.len() - li,
    {
        let ghost pre = full.take(li as int);
        proof {
            assert(full[li as int] == lists@[li as int]@);
            assert(full[li as int].take(0) =~= Seq::<ScoredPoint>::empty());
            assert(processed(full, li as int, 0) == pre.push(Seq::<ScoredPoint>::empty()));
            assert forall|k: int| 0 <= k < acc@.len() implies #[trigger] acc@[k] == fused_point(
                processed(full, li as int, 0),
                acc@[k].id,
            ) by {
                lemma_push_empty(pre, acc@[k].id);
                assert(has_id(acc@, acc@[k].id));
            }
            assert forall|id: u64| true implies (has_id(acc@, id) <==> lists_have_id(
                processed(full, li as int, 0),
                id,
            )) by {
                lemma_push_empty(pre, id);
            }
        }
        let mut pi: usize = 0;
        while pi < lists[li].len()
            invariant
                0 <= li < lists@.len(),
                0 <= pi <= (#[trigger] lists@[li as int])@.len(),
                full == seq_views(lists@),
                full[li as int] == lists@[li as int]@,
                total_len(full) <= RRF_MAX_POINTS,
                unique_ids(acc@),
                forall|k: int|
                    0 <= k < acc@.len() ==> #[trigger] acc@[k] == fused_point(
                        processed(full, li as int, pi as int),
                        acc@[k].id,
                    ),
                forall|id: u64|
                    has_id(acc@, id) <==> lists_have_id(
                        processed(full, li as int, pi as int),
                        id,
                    ),
            decreases lists@[li as int]@.len() - pi,
        {
            let ghost cur = processed(full, li as int, pi as int);
            let ghost nxt = processed(full, li as int, pi + 1);
            let p = lists[li][pi];
            proof {
                assert(p == full[li as int][pi as int]);
                lemma_total_len_take_push(full, li as int, pi as int);
                lemma_total_len_take_push(full, li as int, pi + 1);
                lemma_total_len_take(full, li as int);
                assert(lists@[li as int]@.len() <= total_len(full));
            }
            let rank: u64 = (pi as u64) + 1;
            let c: u64 = RRF_SCALE / (RRF_K + rank);
            proof {
                assert(c == rrf_contrib(rank as int));
                lemma_contrib_bound(rank as int);
                assert(0x4000_0000_0000 * 16393 < 0x8000_0000_0000_0000) by (nonlinear_arith);
                assert(total_len(cur) * 16393 <= 0x4000_0000_0000 * 16393) by (nonlinear_arith)
                    requires
                        total_len(cur) <= 0x4000_0000_0000,
                ;
                assert(total_len(nxt) * 16393 <= 0x4000_0000_0000 * 16393) by (nonlinear_arith)
                    requires
                        total_len(nxt) <= 0x4000_0000_0000,
                ;
            }
            // Find the accumulator entry for this id, if any.
            let mut found: usize = acc.len();
            let mut j: usize = 0;
            while j < acc.len()
                invariant
                    0 <= j <= acc@.len(),
                    found <= acc@.len(),
                    found == acc@.len() ==> forall|a: int| 0 <= a < j ==> acc@[a].id != p.id,
                    found < acc@.len() ==> acc@[found as int].id == p.id,
                decreases acc@.len() - j,
            {
                if found == acc.len() && acc[j].id == p.id {
                    found = j;
                }
                j += 1;
            }
            if found < acc.len() {
                let e = acc[found];
                proof {
                    assert(e == fused_point(cur, e.id));
                    lemma_rrf_agg_bound(cur, e.id);
                    assert(e.score == rrf_agg(cur, e.id));
                    lemma_rrf_agg_bound(nxt, e.id);
                    lemma_step_point(full, li as int, pi as int, e.id);
                    assert(rrf_agg(nxt, e.id) == rrf_agg(cur, e.id) + c);
                }
                let e2 = ScoredPoint {
                    id: e.id,
                    score: e.score + c,
                    shard_key: e.shard_key,
                    payload: e.payload,
                };
                let ghost acc_old = acc@;
                acc.set(found, e2);
                proof {
                    assert(acc@[found as int].id == p.id);
                    assert(has_id(acc@, p.id));
                    assert forall|k: int| 0 <= k < acc@.len() implies #[trigger] acc@[k]
                        == fused_point(nxt, acc@[k].id) by {
                        lemma_step_point(full, li as int, pi as int, acc@[k].id);
                        lemma_rrf_agg_bound(cur, acc@[k].id);
                        lemma_rrf_agg_bound(nxt, acc@[k].id);
                        if k != found {
                            assert(acc@[k] == acc_old[k]);
                            assert(acc_old[found as int].id == p.id);
                            assert(acc@[k].id != p.id);
                        }
                        assert(acc_old[k].id == acc@[k].id);
                        assert(has_id(acc_old, acc@[k].id)) by {
                            assert(acc_old[k].id == acc@[k].id);
                        }
                    }
                    assert forall|id: u64| true implies (has_id(acc@, id) <==> lists_have_id(
                        nxt,
                        id,
                    )) by {
                        lemma_step_point(full, li as int, pi as int, id);
                        if has_id(acc@, id) {
                            let a = choose|a: int| 0 <= a < acc@.len() && acc@[a].id == id;
                            assert(acc_old[a].id == id);
                        }
                        if has_id(acc_old, id) {
                            let a = choose|a: int|
                                0 <= a < acc_old.len() && acc_old[a].id == id;
                            assert(acc@[a].id == id);
                        }
                    }
                    assert forall|a: int, b: int| 0 <= a < b < acc@.len() implies acc@[a].id
                        != acc@[b].id by {
                        assert(acc@[a].id == acc_old[a].id);
                        assert(acc@[b].id == acc_old[b].id);
                    }
                }
            } else {
                proof {
                    assert(!has_id(acc@, p.id));
                    assert(!lists_have_id(cur, p.id));
                    lemma_agg_absent(cur, p.id);
                    lemma_step_point(full, li as int, pi as int, p.id);
                    assert(rrf_agg(nxt, p.id) == rrf_contrib(pi + 1));
                    assert(first_in_lists(nxt, p.id) == p);
                }
                let e2 = ScoredPoint {
                    id: p.id,
                    score: c,
                    shard_key: p.shard_key,
                    payload: p.payload,
                };
                let ghost acc_old = acc@;
                acc.push(e2);
                proof {
                    assert(acc@.drop_last() =~= acc_old);
                    assert forall|k: int| 0 <= k < acc@.len() implies #[trigger] acc@[k]
                        == fused_point(nxt, acc@[k].id) by {
                        lemma_step_point(full, li as int, pi as int, acc@[k].id);
                        lemma_rrf_agg_bound(cur, acc@[k].id);
                        lemma_rrf_agg_bound(nxt, acc@[k].id);
                        if k < acc@.len() - 1 {
                            assert(acc@[k] == acc_old[k]);
                            assert(has_id(acc_old, acc@[k].id)) by {
                                assert(acc_old[k].id == acc@[k].id);
                            }
                            assert(acc@[k].id != p.id);
                        }
                    }
                    assert forall|id: u64| true implies (has_id(acc@, id) <==> lists_have_id(
                        nxt,
                        id,
                    )) by {
                        lemma_step_point(full, li as int, pi as int, id);
                        assert(acc@[acc@.len() - 1].id == p.id);
                        if id == p.id {
                            assert(has_id(acc@, p.id));
                            assert(lists_have_id(nxt, p.id));
                        }
                        if has_id(acc@, id) && id != p.id {
                            let a = choose|a: int| 0 <= a < acc@.len() && acc@[a].id == id;
                            assert(a < acc_old.len());
                            assert(acc_old[a].id == id);
                            assert(has_id(acc_old, id));
                            assert(lists_have_id(cur, id));
                            assert(lists_have_id(nxt, id));
                        }
                        if lists_have_id(cur, id) {
                            assert(has_id(acc_old, id));
                            let a = choose|a: int|
                                0 <= a < acc_old.len() && acc_old[a].id == id;
                            assert(acc@[a].id == id);
                            assert(has_id(acc@, id));
                        }
                    }
                    assert forall|a: int, b: int| 0 <= a < b < acc@.len() implies acc@[a].id
                        != acc@[b].id by {
                        if b == acc@.len() - 1 {
                            assert(acc_old[a].id == acc@[a].id);
                            assert(!has_id(acc_old, p.id));
                        }
                    }
                }
            }
            pi += 1;
        }
        proof {
            let ghost done = processed(full, li as int, full[li as int].len() as int);
            assert forall|k: int| 0 <= k < acc@.len() implies #[trigger] acc@[k] == fused_point(
                full.take(li + 1),
                acc@[k].id,
            ) by {
                lemma_step_list(full, li as int, acc@[k].id);
                assert(acc@[k] == fused_point(done, acc@[k].id));
                assert(has_id(acc@, acc@[k].id));
            }
            assert forall|id: u64| true implies (has_id(acc@, id) <==> lists_have_id(
                full.take(li + 1),
                id,
            )) by {
                lemma_step_list(full, li as int, id);
            }
        }
        li += 1;
    }
    proof {
        assert(full.take(lists@.len() as int) =~= full);
    }
    // Insertion sort under the fused ranking.
    let mut out: Vec<ScoredPoint> = Vec::new();
    let mut k: usize = 0;
    while k < acc.len()
        invariant
            0 <= k <= acc@.len(),
            unique_ids(acc@),
            forall|m: int|
                0 <= m < acc@.len() ==> #[trigger] acc@[m] == fused_point(full, acc@[m].id),
            forall|id: u64| has_id(acc@, id) <==> lists_have_id(full, id),
            rrf_sorted(out@),
            unique_ids(out@),
            forall|m: int|
                0 <= m < out@.len() ==> #[trigger] out@[m] == fused_point(full, out@[m].id),
            forall|id: u64| has_id(out@, id) <==> has_id(acc@.take(k as int), id),
        decreases acc@.len() - k,
    {
        let e = acc[k];
        // The insertion point: the first index whose element `e` outranks.
        let mut j: usize = out.len();
        let mut t: usize = 0;
        while t < out.len()
            invariant
                0 <= t <= out@.len(),
                j <= out@.len(),
                j == out@.len() ==> forall|a: int| 0 <= a < t ==> rrf_ge(#[trigger] out@[a], e),
                j < out@.len() ==> j <= t && !rrf_ge(out@[j as int], e) && forall|a: int|
                    0 <= a < j ==> rrf_ge(#[trigger] out@[a], e),
            decreases out@.len() - t,
        {
            if j == out.len() && !rrf_ge_exec(&out[t], &e) {
                j = t;
            }
            t += 1;
        }
        proof {
            // `e` carries a fresh id, so it never equals an element of `out`.
            assert(!has_id(out@, e.id)) by {
                if has_id(out@, e.id) {
                    assert(has_id(acc@.take(k as int), e.id));
                    let a = choose|a: int|
                        0 <= a < acc@.take(k as int).len() && acc@.take(k as int)[a].id
                            == e.id;
                    assert(acc@[a].id == acc@[k as int].id);
                }
            }
            if j < out@.len() {
                assert(!rrf_ge(out@[j as int], e));
                assert(rrf_ge(e, out@[j as int]));
            }
        }
        let ghost old_out = out@;
        out.insert(j, e);
        proof {
            assert(out@ == old_out.insert(j as int, e));
            assert forall|a: int, b: int| 0 <= a <= b < out@.len() implies rrf_ge(
                out@[a],
                out@[b],
            ) by {
                if a < j && b == j {
                    assert(out@[a] == old_out[a]);
                    assert(rrf_ge(old_out[a], e));
                } else if a == j && b > j {
                    assert(out@[b] == old_out[b - 1]);
                    assert(j < old_out.len());
                    assert(rrf_ge(e, old_out[j as int]));
                    assert(rrf_ge(old_out[j as int], old_out[b - 1]));
                    assert(rrf_ge(e, old_out[b - 1]));
                } else if a < j && b > j {
                    assert(out@[a] == old_out[a]);
                    assert(out@[b] == old_out[b - 1]);
                } else if a != j && b != j {
                    assert(out@[a] == old_out[if a < j {
                        a
                    } else {
                        a - 1
                    }]);
                }
            }
            assert forall|a: int, b: int| 0 <= a < b < out@.len() implies out@[a].id
                != out@[b].id by {
                if a == j || b == j {
                    assert(!has_id(old_out, e.id));
                    if a == j {
                        assert(out@[b] == old_out[b - 1]);
                    } else {
                        assert(out@[a] == old_out[a]);
                    }
                } else {
                    assert(out@[a] == old_out[if a < j {
                        a
                    } else {
                        a - 1
                    }]);
                    assert(out@[b] == old_out[if b < j {
                        b
                    } else {
                        b - 1
                    }]);
                }
            }
            assert forall|m: int| 0 <= m < out@.len() implies #[trigger] out@[m] == fused_point(
                full,
                out@[m].id,
            ) by {
                if m != j {
                    assert(out@[m] == old_out[if m < j {
                        m
                    } else {
                        m - 1
                    }]);
                }
            }
            assert forall|id: u64| true implies (has_id(out@, id) <==> has_id(
                acc@.take(k + 1),
                id,
            )) by {
                if has_id(out@, id) {
                    let m = choose|m: int| 0 <= m < out@.len() && out@[m].id == id;
                    if m == j {
                        assert(acc@.take(k + 1)[k as int].id == id);
                    } else {
                        let m2: int = if m < j {
                            m
                        } else {
                            m - 1
                        };
                        assert(old_out[m2].id == id);
                        assert(has_id(old_out, id));
                        let a = choose|a: int|
                            0 <= a < acc@.take(k as int).len() && acc@.take(k as int)[a].id
                                == id;
                        assert(acc@.take(k + 1)[a].id == id);
                    }
                }
                if has_id(acc@.take(k + 1), id) {
                    let a = choose|a: int|
                        0 <= a < acc@.take(k + 1).len() && (#[trigger] acc@.take(k + 1)[a]).id
                            == id;
                    if a == k as int {
                        assert(out@[j as int].id == id);
                    } else {
                        assert(acc@.take(k as int)[a].id == id);
                        assert(has_id(old_out, id));
                        let m = choose|m: int| 0 <= m < old_out.len() && old_out[m].id == id;
                        assert(out@[if m < j {
                            m
                        } else {
                            m + 1
                        }].id == id);
                    }
                }
            }
        }
        k += 1;
    }
    proof {
        assert(acc@.take(acc@.len() as int) =~= acc@);
    }
    out
}

} // verus!
