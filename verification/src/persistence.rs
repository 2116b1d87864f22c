//! Property persistence: the in-memory mapping handle together with a model
//! of its backing file. Every successful mutation leaves the file holding
//! exactly the serialized mapping; a mutation against an unwritable file
//! fails and leaves both the mapping and the file untouched, as the atomic
//! temp-file-and-rename save does.

use vstd::prelude::*;

use crate::json::{
    json_of, lemma_json_of_injective, mapping_from_json, mapping_to_json, view_of_entries,
    view_of_inner,
};
use crate::properties::{
    delete_outer, inner_wf, lemma_delete_outer_index, lemma_outer_lookup_index,
    lemma_outer_lookup_at, lemma_remove_inner_index, lemma_upsert_inner_index,
    lemma_upsert_outer_index, mapping_wf,
    outer_lookup, remove_inner, upsert_inner, upsert_outer, MappingView, StorageError,
};

verus! {

#[verifier::external_type_specification]
#[verifier::external_body]
pub struct ExPathBuf(std::path::PathBuf);

#[verifier::external_type_specification]
#[verifier::external_body]
pub struct ExPath(std::path::Path);

/// The in-memory property mapping: collection entries in insertion order.
pub struct CollectionPropertyMapping {
    pub entries: Vec<(String, Vec<(String, String)>)>,
}

impl CollectionPropertyMapping {
    /// The mapping as a ghost sequence of collection entries.
    pub open spec fn entries_view(self) -> MappingView {
        view_of_entries(self.entries@)
    }

    /// Unique collection ids, unique property keys, no empty collection.
    pub open spec fn wf(self) -> bool {
        mapping_wf(self.entries_view())
    }

    /// The empty mapping.
    pub fn new() -> (r: Self)
        ensures
            r.entries_view() == Seq::<(Seq<char>, Seq<(Seq<char>, Seq<char>)>)>::empty(),
            r.wf(),
    {
        let r = CollectionPropertyMapping { entries: Vec::new() };
        proof {
            assert(r.entries_view() =~= Seq::<
                (Seq<char>, Seq<(Seq<char>, Seq<char>)>),
            >::empty());
        }
        r
    }

    /// Reads a mapping back from serialized form. On success the input is
    /// exactly the serialized form of the result, and the result is well
    /// formed. The serialization of every well-formed mapping is accepted,
    /// so reading back what `save` wrote always succeeds, and by the
    /// injectivity of the serialized form it yields the saved mapping.
    #[verifier::loop_isolation(false)]
    pub fn load(json: &Vec<char>) -> (r: Result<Self, StorageError>)
        ensures
            r matches Ok(m) ==> m.wf() && json_of(m.entries_view()) == json@,
            forall|w: MappingView| mapping_wf(w) && json_of(w) == json@ ==> r is Ok,
    {
        let entries = match mapping_from_json(json) {
            Ok(v) => v,
            Err(e) => {
                proof {
                    if exists|w: MappingView| mapping_wf(w) && json_of(w) == json@ {
                        let w = choose|w: MappingView| mapping_wf(w) && json_of(w) == json@;
                        assert(false);
                    }
                }
                return Err(e);
            },
        };
        let m = CollectionPropertyMapping { entries };
        // The file format does not force uniqueness or non-emptiness, so a
        // well-formedness check guards the invariant.
        let mut i: usize = 0;
        while i < m.entries.len()
            invariant
                0 <= i <= m.entries@.len(),
                forall|a: int, b: int|
                    0 <= a < b < i ==> (#[trigger] m.entries_view()[a]).0 != (
                    #[trigger] m.entries_view()[b]).0,
                forall|a: int|
                    0 <= a < i ==> inner_wf((#[trigger] m.entries_view()[a]).1)
                        && m.entries_view()[a].1.len() > 0,
            decreases m.entries@.len() - i,
        {
            let e = &m.entries[i];
            if e.1.len() == 0 {
                proof {
                    if exists|w: MappingView| mapping_wf(w) && json_of(w) == json@ {
                        let w = choose|w: MappingView| mapping_wf(w) && json_of(w) == json@;
                        lemma_json_of_injective(w, m.entries_view());
                        assert(m.entries_view()[i as int].1 == view_of_inner(
                            m.entries@[i as int].1@,
                        ));
                        assert(m.entries_view()[i as int].1.len() == 0);
                        assert(false);
                    }
                }
                return Err(
                    StorageError::ServiceError {
                        description: "a collection with no properties".to_owned(),
                    },
                );
            }
            let mut a: usize = 0;
            while a < i
                invariant
                    0 <= a <= i < m.entries@.len(),
                    forall|b: int|
                        0 <= b < a ==> (#[trigger] m.entries_view()[b]).0 != m.entries_view()[
                            i as int].0,
                decreases i - a,
            {
                if m.entries[a].0 == m.entries[i].0 {
                    proof {
                        if exists|w: MappingView| mapping_wf(w) && json_of(w) == json@ {
                            let w = choose|w: MappingView|
                                mapping_wf(w) && json_of(w) == json@;
                            lemma_json_of_injective(w, m.entries_view());
                            assert(m.entries_view()[a as int].0 == (m.entries@[a as int].0)@);
                            assert(m.entries_view()[i as int].0 == (m.entries@[i as int].0)@);
                            assert(m.entries_view()[a as int].0 == m.entries_view()[
                                i as int].0);
                            assert(false);
                        }
                    }
                    return Err(
                        StorageError::ServiceError {
                            description: "a collection named twice".to_owned(),
                        },
                    );
                }
                a += 1;
            }
            let mut p: usize = 0;
            while p < e.1.len()
                invariant
                    0 <= p <= e.1@.len(),
                    0 <= i < m.entries@.len(),
                    e == &m.entries[i as int],
                    forall|x: int, y: int|
                        0 <= x < y < p ==> (#[trigger] view_of_inner(e.1@)[x]).0 != (
                        #[trigger] view_of_inner(e.1@)[y]).0,
                decreases e.1@.len() - p,
            {
                let mut x: usize = 0;
                while x < p
                    invariant
                        0 <= x <= p < e.1@.len(),
                        0 <= i < m.entries@.len(),
                        e == &m.entries[i as int],
                        forall|y: int|
                            0 <= y < x ==> (#[trigger] view_of_inner(e.1@)[y]).0
                                != view_of_inner(e.1@)[p as int].0,
                    decreases p - x,
                {
                    if e.1[x].0 == e.1[p].0 {
                        proof {
                            if exists|w: MappingView| mapping_wf(w) && json_of(w) == json@ {
                                let w = choose|w: MappingView|
                                    mapping_wf(w) && json_of(w) == json@;
                                lemma_json_of_injective(w, m.entries_view());
                                let ivw = m.entries_view()[i as int].1;
                                assert(ivw == view_of_inner(m.entries@[i as int].1@));
                                assert(ivw[x as int].0 == (e.1@[x as int].0)@);
                                assert(ivw[p as int].0 == (e.1@[p as int].0)@);
                                assert(inner_wf(ivw));
                                assert(false);
                            }
                        }
                        return Err(
                            StorageError::ServiceError {
                                description: "a property named twice".to_owned(),
                            },
                        );
                    }
                    x += 1;
                }
                proof {
                    assert forall|x: int, y: int| 0 <= x < y < p + 1 implies (
                    #[trigger] view_of_inner(e.1@)[x]).0 != (#[trigger] view_of_inner(
                        e.1@,
                    )[y]).0 by {}
                }
                p += 1;
            }
            proof {
                assert(m.entries_view()[i as int].1 == view_of_inner(e.1@));
                assert(inner_wf(m.entries_view()[i as int].1));
            }
            i += 1;
        }
        Ok(m)
    }

    /// Serializes the mapping in the on-disk shape.
    pub fn save(&self) -> (r: Vec<char>)
        ensures
            r@ == json_of(self.entries_view()),
    {
        mapping_to_json(&self.entries)
    }

    /// The persistence round trip: reading back a saved well-formed mapping
    /// always succeeds and yields exactly the mapping that was saved.
    pub fn saved_then_loaded(&self) -> (r: Result<Self, StorageError>)
        requires
            self.wf(),
        ensures
            r matches Ok(m2) && m2.entries_view() == self.entries_view(),
    {
        let image = self.save();
        let r = CollectionPropertyMapping::load(&image);
        proof {
            assert(r is Ok);
            match &r {
                Ok(m2) => {
                    lemma_json_of_injective(m2.entries_view(), self.entries_view());
                },
                Err(_) => {},
            }
        }
        r
    }
}

/// A model of the backing file: its contents, if it exists, and whether
/// writes to it currently succeed. The real file lives with the caller, who
/// mirrors `contents` to disk with an atomic temp-file-and-rename write.
pub struct FileState {
    pub contents: Option<Vec<char>>,
    pub writable: bool,
}

impl FileState {
    /// The file holds exactly these characters.
    pub open spec fn holds(self, s: Seq<char>) -> bool {
        match self.contents {
            Some(c) => c@ == s,
            None => false,
        }
    }
}

/// The persistence handle: the mapping and its backing file, which holds
/// the serialized mapping at every quiet moment.
pub struct CollectionPropertyPersistence {
    pub mapping: CollectionPropertyMapping,
    pub disk: FileState,
}

impl CollectionPropertyPersistence {
    /// The mapping is well formed and the file holds its serialized form:
    /// every past mutation has been persisted.
    pub open spec fn wf(self) -> bool {
        &&& self.mapping.wf()
        &&& self.disk.holds(json_of(self.mapping.entries_view()))
    }

    /// Relies on std's `Path::join`: appends the fixed file name
    /// `properties.json` to the storage directory.
    #[verifier::external_body]
    pub fn get_config_path(path: &std::path::Path) -> std::path::PathBuf {
        path.join("properties.json")
    }

    /// Opens the persistence over the given file state. An absent file is
    /// initialized to the empty mapping; an existing file must parse and be
    /// well formed.
    pub fn open(disk: FileState) -> (r: Result<Self, StorageError>)
        ensures
            r matches Ok(p) ==> p.wf() && p.disk.writable == disk.writable,
            r matches Ok(p) ==> (disk.contents matches Some(c) ==> p.disk == disk && json_of(
                p.mapping.entries_view(),
            ) == c@),
            disk.contents is None && disk.writable ==> r is Ok && (r matches Ok(p)
                ==> p.mapping.entries_view() == Seq::<
                (Seq<char>, Seq<(Seq<char>, Seq<char>)>),
            >::empty()),
            disk.contents is None && !disk.writable ==> r is Err,
            forall|w: MappingView|
                (match disk.contents {
                    Some(c) => mapping_wf(w) && #[trigger] json_of(w) == c@,
                    None => false,
                }) ==> r is Ok,
    {
        let writable = disk.writable;
        match disk.contents {
            None => {
                if !writable {
                    return Err(
                        StorageError::ServiceError {
                            description: "cannot initialize the properties file".to_owned(),
                        },
                    );
                }
                let mapping = CollectionPropertyMapping::new();
                let image = mapping.save();
                Ok(
                    CollectionPropertyPersistence {
                        mapping,
                        disk: FileState { contents: Some(image), writable },
                    },
                )
            },
            Some(json) => {
                let mapping = match CollectionPropertyMapping::load(&json) {
                    Ok(m) => m,
                    Err(e) => {
                        proof {
                            if exists|w: MappingView| mapping_wf(w) && json_of(w) == json@ {
                                let w = choose|w: MappingView|
                                    mapping_wf(w) && json_of(w) == json@;
                                assert(false);
                            }
                        }
                        return Err(e);
                    },
                };
                let rebuilt = FileState { contents: Some(json), writable };
                proof {
                    assert(rebuilt == disk);
                }
                Ok(CollectionPropertyPersistence { mapping, disk: rebuilt })
            },
        }
    }

    /// Upserts one property into a collection, creating the collection
    /// entry if absent, and persists. An unwritable file fails the call and
    /// leaves the mapping and the file exactly as they were.
    pub fn insert(&mut self, data: (String, String), collection_name: String) -> (r: Result<
        (),
        StorageError,
    >)
        requires
            old(self).wf(),
        ensures
            final(self).wf(),
            old(self).disk.writable ==> r is Ok && final(self).mapping.entries_view()
                == upsert_outer(
                old(self).mapping.entries_view(),
                collection_name@,
                data.0@,
                data.1@,
            ) && final(self).disk.writable,
            !old(self).disk.writable ==> r is Err && *final(self) == *old(self),
    {
        if !self.disk.writable {
            return Err(
                StorageError::ServiceError { description: "the file is not writable".to_owned() },
            );
        }
        let (key, value) = data;
        let ghost ev = self.mapping.entries_view();
        let ghost c = collection_name@;
        let ghost k = key@;
        let ghost v = value@;
        let n = self.mapping.entries.len();
        let mut idx: usize = n;
        let mut i: usize = 0;
        while i < n
            invariant
                0 <= i <= n,
                n == self.mapping.entries@.len(),
                ev == self.mapping.entries_view(),
                c == collection_name@,
                idx <= n,
                idx == n ==> forall|a: int| 0 <= a < i ==> (#[trigger] ev[a]).0 != c,
                idx < n ==> idx < i && ev[idx as int].0 == c && (forall|a: int|
                    0 <= a < idx ==> (#[trigger] ev[a]).0 != c),
            decreases n - i,
        {
            if idx == n && self.mapping.entries[i].0 == collection_name {
                idx = i;
            }
            i += 1;
        }
        proof {
            lemma_upsert_outer_index(ev, c, k, v);
        }
        if idx == n {
            let mut inner: Vec<(String, String)> = Vec::new();
            inner.push((key, value));
            self.mapping.entries.push((collection_name, inner));
            proof {
                assert(self.mapping.entries_view() =~= ev.push((c, seq![(k, v)]))) by {
                    assert(view_of_inner(self.mapping.entries@.last().1@) =~= seq![(k, v)]);
                }
                let nv = self.mapping.entries_view();
                assert(mapping_wf(nv)) by {
                    assert(forall|a: int| 0 <= a < ev.len() ==> nv[a] == ev[a]);
                    assert(nv.last().0 == c);
                    assert(nv.last().1 =~= seq![(k, v)]);
                    assert(inner_wf(nv.last().1));
                }
            }
        } else {
            let ghost old_entries = self.mapping.entries@;
            let (name, mut inner) = self.mapping.entries.remove(idx);
            let ghost iv = view_of_inner(inner@);
            proof {
                assert(iv == ev[idx as int].1);
                lemma_upsert_inner_index(iv, k, v);
            }
            let m = inner.len();
            let mut jdx: usize = m;
            let mut j: usize = 0;
            while j < m
                invariant
                    0 <= j <= m,
                    m == inner@.len(),
                    iv == view_of_inner(inner@),
                    k == key@,
                    jdx <= m,
                    jdx == m ==> forall|a: int| 0 <= a < j ==> (#[trigger] iv[a]).0 != k,
                    jdx < m ==> jdx < j && iv[jdx as int].0 == k && (forall|a: int|
                        0 <= a < jdx ==> (#[trigger] iv[a]).0 != k),
                decreases m - j,
            {
                if jdx == m && inner[j].0 == key {
                    jdx = j;
                }
                j += 1;
            }
            let ghost iv_new: Seq<(Seq<char>, Seq<char>)> = upsert_inner(iv, k, v);
            if jdx == m {
                inner.push((key, value));
                proof {
                    assert(view_of_inner(inner@) =~= iv.push((k, v)));
                    assert(iv_new == iv.push((k, v)));
                }
            } else {
                inner.set(jdx, (key, value));
                proof {
                    assert(view_of_inner(inner@) =~= iv.update(jdx as int, (k, v)));
                    assert(iv_new == iv.update(jdx as int, (k, v)));
                }
            }
            self.mapping.entries.insert(idx, (name, inner));
            proof {
                assert(self.mapping.entries@ =~= old_entries.update(idx as int, (name, inner)));
                assert(self.mapping.entries_view() =~= ev.update(idx as int, (c, iv_new))) by {
                    assert(name@ == c);
                    assert(view_of_inner(inner@) == iv_new);
                }
                assert(upsert_outer(ev, c, k, v) == ev.update(idx as int, (c, iv_new)));
                let nv = self.mapping.entries_view();
                assert(mapping_wf(nv)) by {
                    assert(forall|a: int|
                        0 <= a < nv.len() && a != idx ==> nv[a] == ev[a]);
                    assert(nv[idx as int].0 == ev[idx as int].0);
                    assert(inner_wf(iv_new) && iv_new.len() > 0) by {
                        assert(inner_wf(iv));
                        if jdx == m {
                            assert(forall|a: int|
                                0 <= a < iv.len() ==> (#[trigger] iv_new[a]) == iv[a]);
                            assert(iv_new.last().0 == k);
                        } else {
                            assert(forall|a: int|
                                0 <= a < iv.len() && a != jdx ==> (#[trigger] iv_new[a])
                                    == iv[a]);
                            assert(iv[jdx as int].0 == k);
                        }
                    }
                }
            }
        }
        let image = self.mapping.save();
        self.disk.contents = Some(image);
        Ok(())
    }

    /// Removes one property from a collection, dropping the collection
    /// entry when its last property goes, and persists. Absent collections
    /// are a no-op; an unwritable file fails the call and leaves the
    /// mapping and the file exactly as they were.
    pub fn delete(&mut self, collection_name: String, property_name: String) -> (r: Result<
        (),
        StorageError,
    >)
        requires
            old(self).wf(),
        ensures
            final(self).wf(),
            outer_lookup(old(self).mapping.entries_view(), collection_name@) is None ==> r is Ok
                && *final(self) == *old(self),
            outer_lookup(old(self).mapping.entries_view(), collection_name@) is Some && old(
                self,
            ).disk.writable ==> r is Ok && final(self).mapping.entries_view() == delete_outer(
                old(self).mapping.entries_view(),
                collection_name@,
                property_name@,
            ) && final(self).disk.writable,
            outer_lookup(old(self).mapping.entries_view(), collection_name@) is Some && !old(
                self,
            ).disk.writable ==> r is Err && *final(self) == *old(self),
    {
        let ghost ev = self.mapping.entries_view();
        let ghost c = collection_name@;
        let ghost k = property_name@;
        let n = self.mapping.entries.len();
        let mut idx: usize = n;
        let mut i: usize = 0;
        while i < n
            invariant
                0 <= i <= n,
                n == self.mapping.entries@.len(),
                ev == self.mapping.entries_view(),
                c == collection_name@,
                idx <= n,
                idx == n ==> forall|a: int| 0 <= a < i ==> (#[trigger] ev[a]).0 != c,
                idx < n ==> idx < i && ev[idx as int].0 == c && (forall|a: int|
                    0 <= a < idx ==> (#[trigger] ev[a]).0 != c),
            decreases n - i,
        {
            if idx == n && self.mapping.entries[i].0 == collection_name {
                idx = i;
            }
            i += 1;
        }
        proof {
            lemma_outer_lookup_index(ev, c);
            lemma_delete_outer_index(ev, c, k);
        }
        if idx == n {
            return Ok(());
        }
        if !self.disk.writable {
            return Err(
                StorageError::ServiceError { description: "the file is not writable".to_owned() },
            );
        }
        let ghost old_entries = self.mapping.entries@;
        let (name, mut inner) = self.mapping.entries.remove(idx);
        let ghost iv = view_of_inner(inner@);
        proof {
            assert(iv == ev[idx as int].1);
            lemma_remove_inner_index(iv, k);
        }
        let m = inner.len();
        let mut jdx: usize = m;
        let mut j: usize = 0;
        while j < m
            invariant
                0 <= j <= m,
                m == inner@.len(),
                iv == view_of_inner(inner@),
                k == property_name@,
                jdx <= m,
                jdx == m ==> forall|a: int| 0 <= a < j ==> (#[trigger] iv[a]).0 != k,
                jdx < m ==> jdx < j && iv[jdx as int].0 == k && (forall|a: int|
                    0 <= a < jdx ==> (#[trigger] iv[a]).0 != k),
            decreases m - j,
        {
            if jdx == m && inner[j].0 == property_name {
                jdx = j;
            }
            j += 1;
        }
        let ghost iv_new: Seq<(Seq<char>, Seq<char>)> = remove_inner(iv, k);
        if jdx < m {
            inner.remove(jdx);
            proof {
                assert(view_of_inner(inner@) =~= iv.remove(jdx as int));
                assert(iv_new == iv.remove(jdx as int));
            }
        } else {
            proof {
                assert(iv_new == iv);
            }
        }
        if inner.len() == 0 {
            proof {
                assert(delete_outer(ev, c, k) == ev.remove(idx as int));
                assert(self.mapping.entries_view() =~= ev.remove(idx as int));
                let nv = self.mapping.entries_view();
                assert(mapping_wf(nv)) by {
                    assert(forall|a: int|
                        0 <= a < nv.len() ==> nv[a] == (if a < idx {
                            ev[a]
                        } else {
                            ev[a + 1]
                        }));
                }
            }
        } else {
            self.mapping.entries.insert(idx, (name, inner));
            proof {
                assert(self.mapping.entries@ =~= old_entries.update(idx as int, (name, inner)));
                assert(self.mapping.entries_view() =~= ev.update(idx as int, (c, iv_new))) by {
                    assert(name@ == c);
                    assert(view_of_inner(inner@) == iv_new);
                }
                assert(delete_outer(ev, c, k) == ev.update(idx as int, (c, iv_new)));
                let nv = self.mapping.entries_view();
                assert(mapping_wf(nv)) by {
                    assert(forall|a: int|
                        0 <= a < nv.len() && a != idx ==> nv[a] == ev[a]);
                    assert(inner_wf(iv_new) && iv_new.len() > 0) by {
                        assert(inner_wf(iv));
                        if jdx < m {
                            assert(forall|a: int|
                                0 <= a < iv_new.len() ==> (#[trigger] iv_new[a]) == (if a < jdx {
                                    iv[a]
                                } else {
                                    iv[a + 1]
                                }));
                        }
                    }
                }
            }
        }
        let image = self.mapping.save();
        self.disk.contents = Some(image);
        Ok(())
    }

    /// A snapshot of one collection's properties, present exactly while the
    /// collection has at least one property.
    pub fn get(&self, collection_name: &str) -> (r: Option<Vec<(String, String)>>)
        ensures
            r is Some <==> outer_lookup(self.mapping.entries_view(), collection_name@) is Some,
            r matches Some(v) ==> outer_lookup(self.mapping.entries_view(), collection_name@)
                == Some(view_of_inner(v@)),
    {
        let ghost ev = self.mapping.entries_view();
        let ghost c = collection_name@;
        proof {
            lemma_outer_lookup_index(ev, c);
        }
        let wanted = collection_name.to_owned();
        let n = self.mapping.entries.len();
        let mut i: usize = 0;
        while i < n
            invariant
                0 <= i <= n,
                n == self.mapping.entries@.len(),
                ev == self.mapping.entries_view(),
                c == collection_name@,
                wanted@ == c,
                forall|a: int| 0 <= a < i ==> (#[trigger] ev[a]).0 != c,
            decreases n - i,
        {
            if self.mapping.entries[i].0 == wanted {
                proof {
                    assert(ev[i as int] == ((self.mapping.entries@[i as int].0)@,
                    view_of_inner(self.mapping.entries@[i as int].1@)));
                    assert(ev[i as int].0 == c);
                }
                let src = &self.mapping.entries[i].1;
                let mut out: Vec<(String, String)> = Vec::new();
                let mut j: usize = 0;
                while j < src.len()
                    invariant
                        0 <= j <= src@.len(),
                        view_of_inner(out@) == view_of_inner(src@).take(j as int),
                    decreases src@.len() - j,
                {
                    let kv = &src[j];
                    let k2 = kv.0.clone();
                    let v2 = kv.1.clone();
                    proof {
                        assert(k2@ == (src@[j as int].0)@);
                        assert(v2@ == (src@[j as int].1)@);
                    }
                    out.push((k2, v2));
                    proof {
                        assert(view_of_inner(src@)[j as int] == ((src@[j as int].0)@, (src@[
                            j as int].1)@));
                        assert(view_of_inner(out@).last() == view_of_inner(src@)[j as int]);
                        assert(view_of_inner(out@).drop_last() =~= view_of_inner(src@).take(
                            j as int,
                        ));
                        assert(view_of_inner(out@) =~= view_of_inner(src@).take(j + 1));
                    }
                    j += 1;
                }
                proof {
                    assert(view_of_inner(src@).take(src@.len() as int) =~= view_of_inner(
                        src@,
                    ));
                    lemma_outer_lookup_at(ev, c, i as int);
                    assert(ev[i as int].1 == view_of_inner(src@));
                }
                return Some(out);
            }
            i += 1;
        }
        None
    }
}

} // verus!
