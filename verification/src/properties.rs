//! The per-collection property mapping: a string-keyed two-level map with
//! the invariant that a collection is present exactly while it has at least
//! one property.

use vstd::prelude::*;

verus! {

/// An error of the persistence layer.
#[derive(Debug, Clone, PartialEq, Eq)]
pub enum StorageError {
    ServiceError { description: String },
}

/// One collection's properties, as key/value pairs with unique keys.
pub type InnerView = Seq<(Seq<char>, Seq<char>)>;

/// The whole mapping, as collection/properties pairs with unique collection
/// ids and no empty property set.
pub type MappingView = Seq<(Seq<char>, InnerView)>;

/// The value under `k`, if `inner` holds it.
pub open spec fn inner_lookup(inner: InnerView, k: Seq<char>) -> Option<Seq<char>>
    decreases inner.len(),
{
    if inner.len() == 0 {
        None
    } else if inner[0].0 == k {
        Some(inner[0].1)
    } else {
        inner_lookup(inner.drop_first(), k)
    }
}

/// The properties of collection `c`, if the mapping holds it.
pub open spec fn outer_lookup(entries: MappingView, c: Seq<char>) -> Option<InnerView>
    decreases entries.len(),
{
    if entries.len() == 0 {
        None
    } else if entries[0].0 == c {
        Some(entries[0].1)
    } else {
        outer_lookup(entries.drop_first(), c)
    }
}

/// `inner` with `k` bound to `v`: replaced in place if present, appended if
/// not.
pub open spec fn upsert_inner(inner: InnerView, k: Seq<char>, v: Seq<char>) -> InnerView
    decreases inner.len(),
{
    if inner.len() == 0 {
        seq![(k, v)]
    } else if inner[0].0 == k {
        seq![(k, v)] + inner.drop_first()
    } else {
        seq![inner[0]] + upsert_inner(inner.drop_first(), k, v)
    }
}

/// The mapping with `k → v` upserted into collection `c`, creating the
/// collection entry if absent.
pub open spec fn upsert_outer(
    entries: MappingView,
    c: Seq<char>,
    k: Seq<char>,
    v: Seq<char>,
) -> MappingView
    decreases entries.len(),
{
    if entries.len() == 0 {
        seq![(c, seq![(k, v)])]
    } else if entries[0].0 == c {
        seq![(c, upsert_inner(entries[0].1, k, v))] + entries.drop_first()
    } else {
        seq![entries[0]] + upsert_outer(entries.drop_first(), c, k, v)
    }
}

/// `inner` without `k`.
pub open spec fn remove_inner(inner: InnerView, k: Seq<char>) -> InnerView
    decreases inner.len(),
{
    if inner.len() == 0 {
        Seq::empty()
    } else if inner[0].0 == k {
        inner.drop_first()
    } else {
        seq![inner[0]] + remove_inner(inner.drop_first(), k)
    }
}

/// The mapping with `k` removed from collection `c`; the collection entry
/// leaves with its last property.
pub open spec fn delete_outer(entries: MappingView, c: Seq<char>, k: Seq<char>) -> MappingView
    decreases entries.len(),
{
    if entries.len() == 0 {
        Seq::empty()
    } else if entries[0].0 == c {
        let ni = remove_inner(entries[0].1, k);
        if ni.len() == 0 {
            entries.drop_first()
        } else {
            seq![(c, ni)] + entries.drop_first()
        }
    } else {
        seq![entries[0]] + delete_outer(entries.drop_first(), c, k)
    }
}

/// Property keys are unique within one collection.
pub open spec fn inner_wf(inner: InnerView) -> bool {
    forall|i: int, j: int| 0 <= i < j < inner.len() ==> (#[trigger] inner[i]).0 != (
    #[trigger] inner[j]).0
}

/// Collection ids are unique, every property set is well formed, and no
/// collection is empty.
pub open spec fn mapping_wf(entries: MappingView) -> bool {
    &&& forall|i: int, j: int|
        0 <= i < j < entries.len() ==> (#[trigger] entries[i]).0 != (#[trigger] entries[j]).0
    &&& forall|i: int|
        0 <= i < entries.len() ==> inner_wf((#[trigger] entries[i]).1) && entries[i].1.len() > 0
}

/// Where the first match sits, the lookup finds it; where none sits, the
/// lookup is `None`.
pub proof fn lemma_inner_lookup_index(inner: InnerView, k: Seq<char>)
    ensures
        (inner_lookup(inner, k) is None) <==> (forall|i: int|
            0 <= i < inner.len() ==> (#[trigger] inner[i]).0 != k),
        forall|i: int|
            0 <= i < inner.len() && (#[trigger] inner[i]).0 == k && (forall|j: int|
                0 <= j < i ==> (#[trigger] inner[j]).0 != k) ==> inner_lookup(inner, k)
                == Some(inner[i].1),
    decreases inner.len(),
{
    if inner.len() > 0 {
        let df = inner.drop_first();
        lemma_inner_lookup_index(df, k);
        assert(forall|i: int| 0 <= i < df.len() ==> #[trigger] df[i] == inner[i + 1]);
        if inner[0].0 != k {
            if inner_lookup(inner, k) is None {
                assert forall|i: int| 0 <= i < inner.len() implies (#[trigger] inner[i]).0
                    != k by {
                    if i > 0 {
                        assert(df[i - 1] == inner[i]);
                    }
                }
            }
            if forall|i: int| 0 <= i < inner.len() ==> (#[trigger] inner[i]).0 != k {
                assert(forall|i: int| 0 <= i < df.len() ==> (#[trigger] df[i]).0 != k);
            }
            assert forall|i: int|
                0 <= i < inner.len() && (#[trigger] inner[i]).0 == k && (forall|j: int|
                    0 <= j < i ==> (#[trigger] inner[j]).0 != k) implies inner_lookup(inner, k)
                == Some(inner[i].1) by {
                assert(i > 0);
                assert forall|j: int| 0 <= j < i - 1 implies (#[trigger] df[j]).0 != k by {
                    assert(inner[j + 1].0 != k);
                }
                assert(df[i - 1].0 == k);
                assert(inner_lookup(df, k) == Some(df[i - 1].1));
            }
        }
    }
}

/// The same, one level up.
pub proof fn lemma_outer_lookup_index(entries: MappingView, c: Seq<char>)
    ensures
        (outer_lookup(entries, c) is None) <==> (forall|i: int|
            0 <= i < entries.len() ==> (#[trigger] entries[i]).0 != c),
        forall|i: int|
            0 <= i < entries.len() && (#[trigger] entries[i]).0 == c && (forall|j: int|
                0 <= j < i ==> (#[trigger] entries[j]).0 != c) ==> outer_lookup(entries, c)
                == Some(entries[i].1),
    decreases entries.len(),
{
    if entries.len() > 0 {
        let df = entries.drop_first();
        lemma_outer_lookup_index(df, c);
        assert(forall|i: int| 0 <= i < df.len() ==> #[trigger] df[i] == entries[i + 1]);
        if entries[0].0 != c {
            if outer_lookup(entries, c) is None {
                assert forall|i: int| 0 <= i < entries.len() implies (#[trigger] entries[i]).0
                    != c by {
                    if i > 0 {
                        assert(df[i - 1] == entries[i]);
                    }
                }
            }
            if forall|i: int| 0 <= i < entries.len() ==> (#[trigger] entries[i]).0 != c {
                assert(forall|i: int| 0 <= i < df.len() ==> (#[trigger] df[i]).0 != c);
            }
            assert forall|i: int|
                0 <= i < entries.len() && (#[trigger] entries[i]).0 == c && (forall|j: int|
                    0 <= j < i ==> (#[trigger] entries[j]).0 != c) implies outer_lookup(
                entries,
                c,
            ) == Some(entries[i].1) by {
                assert(i > 0);
                assert forall|j: int| 0 <= j < i - 1 implies (#[trigger] df[j]).0 != c by {
                    assert(entries[j + 1].0 != c);
                }
                assert(df[i - 1].0 == c);
                assert(outer_lookup(df, c) == Some(df[i - 1].1));
            }
        }
    }
}

/// A lookup resolves to the first matching index.
pub proof fn lemma_outer_lookup_at(entries: MappingView, c: Seq<char>, i: int)
    requires
        0 <= i < entries.len(),
        entries[i].0 == c,
        forall|j: int| 0 <= j < i ==> (#[trigger] entries[j]).0 != c,
    ensures
        outer_lookup(entries, c) == Some(entries[i].1),
    decreases i,
{
    if i > 0 {
        let df = entries.drop_first();
        assert(forall|j: int| 0 <= j < df.len() ==> #[trigger] df[j] == entries[j + 1]);
        assert forall|j: int| 0 <= j < i - 1 implies (#[trigger] df[j]).0 != c by {
            assert(entries[j + 1].0 != c);
        }
        lemma_outer_lookup_at(df, c, i - 1);
    }
}

/// Upserting into an inner sequence at its first match replaces in place;
/// with no match it appends.
#[verifier::rlimit(40)]
pub proof fn lemma_upsert_inner_index(inner: InnerView, k: Seq<char>, v: Seq<char>)
    ensures
        (forall|i: int| 0 <= i < inner.len() ==> (#[trigger] inner[i]).0 != k) ==> upsert_inner(
            inner,
            k,
            v,
        ) == inner.push((k, v)),
        forall|i: int|
            0 <= i < inner.len() && (#[trigger] inner[i]).0 == k && (forall|j: int|
                0 <= j < i ==> (#[trigger] inner[j]).0 != k) ==> upsert_inner(inner, k, v)
                == inner.update(i, (k, v)),
    decreases inner.len(),
{
    if inner.len() == 0 {
        assert(upsert_inner(inner, k, v) =~= inner.push((k, v)));
    } else {
        lemma_upsert_inner_index(inner.drop_first(), k, v);
        assert(forall|i: int|
            0 <= i < inner.drop_first().len() ==> #[trigger] inner.drop_first()[i] == inner[i
                + 1]);
        if inner[0].0 == k {
            assert(upsert_inner(inner, k, v) =~= inner.update(0, (k, v)));
        } else {
            if forall|i: int| 0 <= i < inner.len() ==> (#[trigger] inner[i]).0 != k {
                assert(upsert_inner(inner, k, v) =~= inner.push((k, v)));
            }
            assert forall|i: int|
                0 <= i < inner.len() && (#[trigger] inner[i]).0 == k && (forall|j: int|
                    0 <= j < i ==> (#[trigger] inner[j]).0 != k) implies upsert_inner(
                inner,
                k,
                v,
            ) == inner.update(i, (k, v)) by {
                assert(i > 0);
                assert forall|j: int| 0 <= j < i - 1 implies (
                #[trigger] inner.drop_first()[j]).0 != k by {
                    assert(inner[j + 1].0 != k);
                }
                assert(inner.drop_first()[i - 1].0 == k);
                assert(upsert_inner(inner.drop_first(), k, v) == inner.drop_first().update(
                    i - 1,
                    (k, v),
                ));
                assert(upsert_inner(inner, k, v) =~= inner.update(i, (k, v)));
            }
        }
    }
}

/// The same, one level up: with no matching collection the entry is
/// appended; at the first match the inner sequence is upserted in place.
pub proof fn lemma_upsert_outer_index(
    entries: MappingView,
    c: Seq<char>,
    k: Seq<char>,
    v: Seq<char>,
)
    ensures
        (forall|i: int| 0 <= i < entries.len() ==> (#[trigger] entries[i]).0 != c)
            ==> upsert_outer(entries, c, k, v) == entries.push((c, seq![(k, v)])),
        forall|i: int|
            0 <= i < entries.len() && (#[trigger] entries[i]).0 == c && (forall|j: int|
                0 <= j < i ==> (#[trigger] entries[j]).0 != c) ==> upsert_outer(entries, c, k, v)
                == entries.update(i, (c, upsert_inner(entries[i].1, k, v))),
    decreases entries.len(),
{
    if entries.len() == 0 {
        assert(upsert_outer(entries, c, k, v) =~= entries.push((c, seq![(k, v)])));
    } else {
        lemma_upsert_outer_index(entries.drop_first(), c, k, v);
        assert(forall|i: int|
            0 <= i < entries.drop_first().len() ==> #[trigger] entries.drop_first()[i]
                == entries[i + 1]);
        if entries[0].0 == c {
            assert(upsert_outer(entries, c, k, v) =~= entries.update(
                0,
                (c, upsert_inner(entries[0].1, k, v)),
            ));
        } else {
            if forall|i: int| 0 <= i < entries.len() ==> (#[trigger] entries[i]).0 != c {
                assert(upsert_outer(entries, c, k, v) =~= entries.push((c, seq![(k, v)])));
            }
            assert forall|i: int|
                0 <= i < entries.len() && (#[trigger] entries[i]).0 == c && (forall|j: int|
                    0 <= j < i ==> (#[trigger] entries[j]).0 != c) implies upsert_outer(
                entries,
                c,
                k,
                v,
            ) == entries.update(i, (c, upsert_inner(entries[i].1, k, v))) by {
                assert(i > 0);
                assert forall|j: int| 0 <= j < i - 1 implies (
                #[trigger] entries.drop_first()[j]).0 != c by {
                    assert(entries[j + 1].0 != c);
                }
                assert(entries.drop_first()[i - 1].0 == c);
                assert(upsert_outer(entries, c, k, v) =~= entries.update(
                    i,
                    (c, upsert_inner(entries[i].1, k, v)),
                ));
            }
        }
    }
}

#[verifier::rlimit(40)]
/// Removing from an inner sequence at its first match drops that element;
/// with no match nothing changes.
pub proof fn lemma_remove_inner_index(inner: InnerView, k: Seq<char>)
    ensures
        (forall|i: int| 0 <= i < inner.len() ==> (#[trigger] inner[i]).0 != k) ==> remove_inner(
            inner,
            k,
        ) == inner,
        forall|i: int|
            0 <= i < inner.len() && (#[trigger] inner[i]).0 == k && (forall|j: int|
                0 <= j < i ==> (#[trigger] inner[j]).0 != k) ==> remove_inner(inner, k)
                == inner.remove(i),
    decreases inner.len(),
{
    if inner.len() == 0 {
        assert(remove_inner(inner, k) =~= inner);
    } else {
        lemma_remove_inner_index(inner.drop_first(), k);
        assert(forall|i: int|
            0 <= i < inner.drop_first().len() ==> #[trigger] inner.drop_first()[i] == inner[i
                + 1]);
        if inner[0].0 == k {
            assert(remove_inner(inner, k) =~= inner.remove(0));
        } else {
            if forall|i: int| 0 <= i < inner.len() ==> (#[trigger] inner[i]).0 != k {
                assert(remove_inner(inner, k) =~= inner);
            }
            assert forall|i: int|
                0 <= i < inner.len() && (#[trigger] inner[i]).0 == k && (forall|j: int|
                    0 <= j < i ==> (#[trigger] inner[j]).0 != k) implies remove_inner(inner, k)
                == inner.remove(i) by {
                assert(i > 0);
                assert forall|j: int| 0 <= j < i - 1 implies (
                #[trigger] inner.drop_first()[j]).0 != k by {
                    assert(inner[j + 1].0 != k);
                }
                assert(inner.drop_first()[i - 1].0 == k);
                assert(remove_inner(inner, k) =~= inner.remove(i));
            }
        }
    }
}

/// The same, one level up: at the first matching collection the inner
/// sequence shrinks, and the collection leaves with its last property.
pub proof fn lemma_delete_outer_index(entries: MappingView, c: Seq<char>, k: Seq<char>)
    ensures
        (forall|i: int| 0 <= i < entries.len() ==> (#[trigger] entries[i]).0 != c)
            ==> delete_outer(entries, c, k) == entries,
        forall|i: int|
            0 <= i < entries.len() && (#[trigger] entries[i]).0 == c && (forall|j: int|
                0 <= j < i ==> (#[trigger] entries[j]).0 != c) ==> delete_outer(entries, c, k)
                == (if remove_inner(entries[i].1, k).len() == 0 {
                entries.remove(i)
            } else {
                entries.update(i, (c, remove_inner(entries[i].1, k)))
            }),
    decreases entries.len(),
{
    if entries.len() == 0 {
        assert(delete_outer(entries, c, k) =~= entries);
    } else {
        lemma_delete_outer_index(entries.drop_first(), c, k);
        assert(forall|i: int|
            0 <= i < entries.drop_first().len() ==> #[trigger] entries.drop_first()[i]
                == entries[i + 1]);
        if entries[0].0 == c {
            if remove_inner(entries[0].1, k).len() == 0 {
                assert(delete_outer(entries, c, k) =~= entries.remove(0));
            } else {
                assert(delete_outer(entries, c, k) =~= entries.update(
                    0,
                    (c, remove_inner(entries[0].1, k)),
                ));
            }
        } else {
            if forall|i: int| 0 <= i < entries.len() ==> (#[trigger] entries[i]).0 != c {
                assert(delete_outer(entries, c, k) =~= entries);
            }
            assert forall|i: int|
                0 <= i < entries.len() && (#[trigger] entries[i]).0 == c && (forall|j: int|
                    0 <= j < i ==> (#[trigger] entries[j]).0 != c) implies delete_outer(
                entries,
                c,
                k,
            ) == (if remove_inner(entries[i].1, k).len() == 0 {
                entries.remove(i)
            } else {
                entries.update(i, (c, remove_inner(entries[i].1, k)))
            }) by {
                assert(i > 0);
                assert forall|j: int| 0 <= j < i - 1 implies (
                #[trigger] entries.drop_first()[j]).0 != c by {
                    assert(entries[j + 1].0 != c);
                }
                assert(entries.drop_first()[i - 1].0 == c);
                if remove_inner(entries[i].1, k).len() == 0 {
                    assert(delete_outer(entries, c, k) =~= entries.remove(i));
                } else {
                    assert(delete_outer(entries, c, k) =~= entries.update(
                        i,
                        (c, remove_inner(entries[i].1, k)),
                    ));
                }
            }
        }
    }
}

} // verus!
