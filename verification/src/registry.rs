//! The dataset registry: it owns every record store under its dataset
//! identifier and the computed results cached under `(dataset, view)`
//! keys.
//!
//! Each cached result carries the snapshot of the view settings it was
//! computed from, and a result is applied only while that snapshot still
//! matches the view's current settings — a result overtaken by a newer
//! setting change arrives, fails the comparison, and is dropped, so slow
//! workers can never overwrite newer state.

use crate::store::RecordStore;
use crate::types::SortOrder;
use vstd::prelude::*;

verus! {

/// The view settings a recompute request was issued under.
pub struct Snapshot {
    pub filter_term: String,
    pub sort: Option<(usize, SortOrder)>,
}

impl Snapshot {
    /// The snapshot still equals the view's current settings.
    pub open spec fn matches_spec(&self, term: Seq<char>, sort: Option<(usize, SortOrder)>) -> bool {
        self.filter_term@ == term && self.sort == sort
    }

    /// Decide at run time whether this snapshot matches the current
    /// settings.
    pub fn matches(&self, term: &String, sort: Option<(usize, SortOrder)>) -> (r: bool)
        ensures
            r == self.matches_spec(term@, sort),
    {
        if self.filter_term == *term {
            match (self.sort, sort) {
                (None, None) => true,
                (Some((c1, o1)), Some((c2, o2))) => c1 == c2 && o1 == o2,
                _ => false,
            }
        } else {
            false
        }
    }
}

/// One computed row index sequence for a `(dataset, view)` key, tagged
/// with the snapshot that produced it.
pub struct CachedResult {
    pub dataset_id: String,
    pub view_id: usize,
    pub snapshot: Snapshot,
    pub indices: Vec<usize>,
}

/// Position of the entry keyed `(id, view)` in a cache sequence, or -1.
pub open spec fn cache_pos(s: Seq<CachedResult>, id: Seq<char>, view: usize) -> int
    decreases s.len(),
{
    if s.len() == 0 {
        -1
    } else if s[0].dataset_id@ == id && s[0].view_id == view {
        0
    } else {
        let r = cache_pos(s.drop_first(), id, view);
        if r < 0 {
            -1
        } else {
            r + 1
        }
    }
}

/// The cached entry under `(id, view)`, if any.
pub open spec fn cache_lookup(s: Seq<CachedResult>, id: Seq<char>, view: usize) -> Option<
    CachedResult,
> {
    let p = cache_pos(s, id, view);
    if p >= 0 {
        Some(s[p])
    } else {
        None
    }
}

/// What `cache_pos` finds: a real entry with the key, with no earlier
/// entry carrying it; or nothing, when no entry carries it.
pub proof fn lemma_cache_pos_props(s: Seq<CachedResult>, id: Seq<char>, view: usize)
    ensures
        cache_pos(s, id, view) >= 0 ==> {
            let p = cache_pos(s, id, view);
            &&& p < s.len()
            &&& s[p].dataset_id@ == id && s[p].view_id == view
            &&& forall|j: int| 0 <= j < p ==> !(s[j].dataset_id@ == id && s[j].view_id == view)
        },
        cache_pos(s, id, view) < 0 ==> forall|j: int|
            0 <= j < s.len() ==> !(s[j].dataset_id@ == id && s[j].view_id == view),
    decreases s.len(),
{
    if s.len() > 0 && !(s[0].dataset_id@ == id && s[0].view_id == view) {
        lemma_cache_pos_props(s.drop_first(), id, view);
        let d = s.drop_first();
        if cache_pos(s, id, view) >= 0 {
            let p = cache_pos(s, id, view);
            assert(cache_pos(d, id, view) == p - 1);
            assert(d[p - 1] == s[p]);
            assert forall|j: int|
                0 <= j < p implies !(s[j].dataset_id@ == id && s[j].view_id == view) by {
                if j > 0 {
                    assert(d[j - 1] == s[j]);
                }
            }
        } else {
            assert forall|j: int|
                0 <= j < s.len() implies !(s[j].dataset_id@ == id && s[j].view_id == view) by {
                if j > 0 {
                    assert(d[j - 1] == s[j]);
                }
            }
        }
    }
}

/// A position holding the key with no earlier occurrence is the position
/// `cache_pos` finds.
pub proof fn lemma_cache_pos_of(s: Seq<CachedResult>, id: Seq<char>, view: usize, p: int)
    requires
        0 <= p < s.len(),
        s[p].dataset_id@ == id && s[p].view_id == view,
        forall|j: int| 0 <= j < p ==> !(s[j].dataset_id@ == id && s[j].view_id == view),
    ensures
        cache_pos(s, id, view) == p,
    decreases s.len(),
{
    if p > 0 {
        let d = s.drop_first();
        assert(d[p - 1] == s[p]);
        assert forall|j: int|
            0 <= j < p - 1 implies !(d[j].dataset_id@ == id && d[j].view_id == view) by {
            assert(d[j] == s[j + 1]);
        }
        lemma_cache_pos_of(d, id, view, p - 1);
    }
}

/// The cache after one result is stored: it replaces the entry under its
/// key, or extends the cache when the key is new.
pub open spec fn cache_upsert(s: Seq<CachedResult>, r: CachedResult) -> Seq<CachedResult> {
    let p = cache_pos(s, r.dataset_id@, r.view_id);
    if p >= 0 {
        s.update(p, r)
    } else {
        s.push(r)
    }
}

/// After a result is stored, its key yields exactly that result.
pub proof fn lemma_upsert_lookup(s: Seq<CachedResult>, r: CachedResult)
    ensures
        cache_lookup(cache_upsert(s, r), r.dataset_id@, r.view_id) == Some(r),
{
    let id = r.dataset_id@;
    let view = r.view_id;
    let p = cache_pos(s, id, view);
    lemma_cache_pos_props(s, id, view);
    if p >= 0 {
        let t = s.update(p, r);
        assert(t[p] == r);
        assert(forall|j: int| 0 <= j < p ==> t[j] == s[j]);
        lemma_cache_pos_of(t, id, view, p);
    } else {
        let t = s.push(r);
        assert(t[s.len() as int] == r);
        assert(forall|j: int| 0 <= j < s.len() ==> t[j] == s[j]);
        lemma_cache_pos_of(t, id, view, s.len() as int);
    }
}

/// Storing a result leaves every other key's entry unchanged.
pub proof fn lemma_upsert_frame(s: Seq<CachedResult>, r: CachedResult, id: Seq<char>, view: usize)
    requires
        !(id == r.dataset_id@ && view == r.view_id),
    ensures
        cache_lookup(cache_upsert(s, r), id, view) == cache_lookup(s, id, view),
{
    let p = cache_pos(s, r.dataset_id@, r.view_id);
    lemma_cache_pos_props(s, r.dataset_id@, r.view_id);
    lemma_cache_pos_props(s, id, view);
    let q = cache_pos(s, id, view);
    let t = cache_upsert(s, r);
    if q >= 0 {
        assert(p != q);
        assert(t[q] == s[q]);
        assert forall|j: int|
            0 <= j < q implies !(t[j].dataset_id@ == id && t[j].view_id == view) by {
            if j == p {
                assert(t[j] == r);
            } else {
                assert(t[j] == s[j]);
            }
        }
        lemma_cache_pos_of(t, id, view, q);
    } else {
        lemma_cache_pos_props(t, id, view);
        if cache_pos(t, id, view) >= 0 {
            let w = cache_pos(t, id, view);
            if p >= 0 {
                assert(t[w] == s[w]);
            } else {
                if w < s.len() {
                    assert(t[w] == s[w]);
                } else {
                    assert(t[w] == r);
                }
            }
            assert(false);
        }
    }
}

/// The late arrival of a result computed from an overtaken snapshot never
/// displaces a newer one: a result whose snapshot no longer matches the
/// view's current settings is dropped, so after a matching result was
/// stored, the cache under that key still holds it, whatever stale
/// results arrive afterwards.
pub proof fn lemma_stale_result_discarded(
    cache0: Seq<CachedResult>,
    newer: CachedResult,
    stale: CachedResult,
    term: Seq<char>,
    sort: Option<(usize, SortOrder)>,
)
    requires
        newer.snapshot.matches_spec(term, sort),
        !stale.snapshot.matches_spec(term, sort),
    ensures
        cache_lookup(cache_upsert(cache0, newer), newer.dataset_id@, newer.view_id) == Some(newer),
{
    lemma_upsert_lookup(cache0, newer);
}

/// Position of the store registered under `id`, or -1.
pub open spec fn store_pos(s: Seq<(String, RecordStore)>, id: Seq<char>) -> int
    decreases s.len(),
{
    if s.len() == 0 {
        -1
    } else if s[0].0@ == id {
        0
    } else {
        let r = store_pos(s.drop_first(), id);
        if r < 0 {
            -1
        } else {
            r + 1
        }
    }
}

/// What `store_pos` finds, as `lemma_cache_pos_props` for stores.
pub proof fn lemma_store_pos_props(s: Seq<(String, RecordStore)>, id: Seq<char>)
    ensures
        store_pos(s, id) >= 0 ==> {
            let p = store_pos(s, id);
            &&& p < s.len()
            &&& s[p].0@ == id
            &&& forall|j: int| 0 <= j < p ==> s[j].0@ != id
        },
        store_pos(s, id) < 0 ==> forall|j: int| 0 <= j < s.len() ==> s[j].0@ != id,
    decreases s.len(),
{
    if s.len() > 0 && s[0].0@ != id {
        lemma_store_pos_props(s.drop_first(), id);
        let d = s.drop_first();
        if store_pos(s, id) >= 0 {
            let p = store_pos(s, id);
            assert(store_pos(d, id) == p - 1);
            assert(d[p - 1] == s[p]);
            assert forall|j: int| 0 <= j < p implies s[j].0@ != id by {
                if j > 0 {
                    assert(d[j - 1] == s[j]);
                }
            }
        } else {
            assert forall|j: int| 0 <= j < s.len() implies s[j].0@ != id by {
                if j > 0 {
                    assert(d[j - 1] == s[j]);
                }
            }
        }
    }
}

/// A position holding `id` with no earlier occurrence is the position
/// `store_pos` finds.
pub proof fn lemma_store_pos_of(s: Seq<(String, RecordStore)>, id: Seq<char>, p: int)
    requires
        0 <= p < s.len(),
        s[p].0@ == id,
        forall|j: int| 0 <= j < p ==> s[j].0@ != id,
    ensures
        store_pos(s, id) == p,
    decreases s.len(),
{
    if p > 0 {
        let d = s.drop_first();
        assert(d[p - 1] == s[p]);
        assert forall|j: int| 0 <= j < p - 1 implies d[j].0@ != id by {
            assert(d[j] == s[j + 1]);
        }
        lemma_store_pos_of(d, id, p - 1);
    }
}

/// What a view should currently display: its cached result when one was
/// computed and still fits the store, else the master rows; `NoData` when
/// the dataset is not registered.
pub enum RowSource {
    NoData,
    Master,
    Computed(Vec<usize>),
}

/// The dataset registry.
pub struct Registry {
    pub stores: Vec<(String, RecordStore)>,
    pub cache: Vec<CachedResult>,
}

impl Registry {
    /// Every registered store is well-formed, and the registration and
    /// cache keys are unique.
    pub open spec fn wf(&self) -> bool {
        &&& forall|j: int| 0 <= j < self.stores@.len() ==> (#[trigger] self.stores@[j]).1.wf()
        &&& forall|p: int, q: int|
            0 <= p < q < self.stores@.len() ==> (#[trigger] self.stores@[p]).0@ != (
            #[trigger] self.stores@[q]).0@
        &&& forall|p: int, q: int|
            0 <= p < q < self.cache@.len() ==> !((#[trigger] self.cache@[p]).dataset_id@ == (
            #[trigger] self.cache@[q]).dataset_id@ && self.cache@[p].view_id
                == self.cache@[q].view_id)
    }

    pub fn new() -> (r: Registry)
        ensures
            r.wf(),
            r.stores@.len() == 0,
            r.cache@.len() == 0,
    {
        Registry { stores: Vec::new(), cache: Vec::new() }
    }

    /// Position of the store registered under `id`, if any.
    fn find_store(&self, id: &String) -> (r: Option<usize>)
        ensures
            match r {
                Some(p) => p == store_pos(self.stores@, id@) && p < self.stores@.len(),
                None => store_pos(self.stores@, id@) < 0,
            },
    {
        let mut p: usize = 0;
        while p < self.stores.len()
            invariant
                p <= self.stores@.len(),
                forall|j: int| 0 <= j < p ==> (#[trigger] self.stores@[j]).0@ != id@,
            decreases self.stores@.len() - p,
        {
            if self.stores[p].0 == *id {
                proof {
                    lemma_store_pos_of(self.stores@, id@, p as int);
                }
                return Some(p);
            }
            p += 1;
        }
        proof {
            lemma_store_pos_props(self.stores@, id@);
            if store_pos(self.stores@, id@) >= 0 {
                let w = store_pos(self.stores@, id@);
                assert(self.stores@[w].0@ != id@);
            }
        }
        None
    }

    /// Register a store under a dataset identifier, replacing any store
    /// already there. Cached results tied to the identifier are not
    /// touched: views refresh them by explicit invalidation or recompute.
    pub fn register(&mut self, id: String, store: RecordStore)
        requires
            old(self).wf(),
            store.wf(),
        ensures
            final(self).wf(),
            final(self).cache@ == old(self).cache@,
            store_pos(final(self).stores@, id@) >= 0,
            final(self).stores@[store_pos(final(self).stores@, id@)].1 == store,
            forall|other: Seq<char>|
                other != id@ ==> (#[trigger] store_pos(final(self).stores@, other) >= 0) == (
                store_pos(old(self).stores@, other) >= 0),
            forall|other: Seq<char>|
                other != id@ && store_pos(old(self).stores@, other) >= 0
                    ==> final(self).stores@[#[trigger] store_pos(final(self).stores@, other)]
                    == old(self).stores@[store_pos(old(self).stores@, other)],
    {
        let ghost s0 = self.stores@;
        match self.find_store(&id) {
            Some(p) => {
                proof {
                    lemma_store_pos_props(s0, id@);
                }
                self.stores[p] = (id, store);
                proof {
                    let s1 = self.stores@;
                    assert(forall|j: int| 0 <= j < p ==> s1[j] == s0[j]);
                    lemma_store_pos_of(s1, s1[p as int].0@, p as int);
                    lemma_frame_store_update(s0, s1, p as int);
                }
            },
            None => {
                proof {
                    lemma_store_pos_props(s0, id@);
                }
                self.stores.push((id, store));
                proof {
                    let s1 = self.stores@;
                    assert(forall|j: int| 0 <= j < s0.len() ==> s1[j] == s0[j]);
                    lemma_store_pos_of(s1, s1[s0.len() as int].0@, s0.len() as int);
                    lemma_frame_store_update(s0, s1, s0.len() as int);
                }
            },
        }
    }

    /// Clear the cached result under one `(dataset, view)` key.
    pub fn invalidate(&mut self, id: &String, view_id: usize)
        requires
            old(self).wf(),
        ensures
            final(self).wf(),
            final(self).stores@ == old(self).stores@,
            cache_lookup(final(self).cache@, id@, view_id) is None,
            forall|oid: Seq<char>, ov: usize|
                !(oid == id@ && ov == view_id) ==> cache_lookup(final(self).cache@, oid, ov)
                    == cache_lookup(old(self).cache@, oid, ov),
    {
        let ghost c0 = self.cache@;
        match self.find_cache(id, view_id) {
            Some(p) => {
                proof {
                    lemma_cache_pos_props(c0, id@, view_id);
                    assert forall|j: int|
                        0 <= j < c0.len() && j != p implies !((#[trigger] c0[j]).dataset_id@ == id@
                        && c0[j].view_id == view_id) by {
                        if j > p {
                            assert(!((c0[p as int]).dataset_id@ == (c0[j]).dataset_id@
                                && c0[p as int].view_id == c0[j].view_id));
                        }
                    }
                }
                self.cache.remove(p);
                proof {
                    lemma_remove_frame(c0, p as int, id@, view_id);
                    let c1 = self.cache@;
                    assert forall|a: int, b: int|
                        0 <= a < b < c1.len() implies !((#[trigger] c1[a]).dataset_id@ == (
                        #[trigger] c1[b]).dataset_id@ && c1[a].view_id == c1[b].view_id) by {
                        let a0: int = if a < p {
                            a
                        } else {
                            a + 1
                        };
                        let b0: int = if b < p {
                            b
                        } else {
                            b + 1
                        };
                        assert(c1[a] == c0[a0]);
                        assert(c1[b] == c0[b0]);
                        assert(!((c0[a0]).dataset_id@ == (c0[b0]).dataset_id@ && c0[a0].view_id
                            == c0[b0].view_id));
                    }
                }
            },
            None => {
                proof {
                    lemma_cache_pos_props(c0, id@, view_id);
                }
            },
        }
    }

    /// Position of the cached result under `(id, view)`, if any.
    fn find_cache(&self, id: &String, view_id: usize) -> (r: Option<usize>)
        ensures
            match r {
                Some(p) => p == cache_pos(self.cache@, id@, view_id) && p < self.cache@.len(),
                None => cache_pos(self.cache@, id@, view_id) < 0,
            },
    {
        let mut p: usize = 0;
        while p < self.cache.len()
            invariant
                p <= self.cache@.len(),
                forall|j: int|
                    0 <= j < p ==> !((#[trigger] self.cache@[j]).dataset_id@ == id@
                        && self.cache@[j].view_id == view_id),
            decreases self.cache@.len() - p,
        {
            if self.cache[p].dataset_id == *id && self.cache[p].view_id == view_id {
                proof {
                    lemma_cache_pos_of(self.cache@, id@, view_id, p as int);
                }
                return Some(p);
            }
            p += 1;
        }
        proof {
            lemma_cache_pos_props(self.cache@, id@, view_id);
            if cache_pos(self.cache@, id@, view_id) >= 0 {
                let w = cache_pos(self.cache@, id@, view_id);
                assert(!(self.cache@[w].dataset_id@ == id@ && self.cache@[w].view_id == view_id));
            }
        }
        None
    }

    /// Apply one completed recompute: stored only while its snapshot still
    /// matches the view's current settings, else dropped whole — the
    /// stale-result discard rule. Returns whether it was applied.
    pub fn apply_result(
        &mut self,
        result: CachedResult,
        current_term: &String,
        current_sort: Option<(usize, SortOrder)>,
    ) -> (applied: bool)
        requires
            old(self).wf(),
        ensures
            final(self).wf(),
            applied == result.snapshot.matches_spec(current_term@, current_sort),
            final(self).stores@ == old(self).stores@,
            applied ==> final(self).cache@ == cache_upsert(old(self).cache@, result),
            !applied ==> final(self).cache@ == old(self).cache@,
    {
        if !result.snapshot.matches(current_term, current_sort) {
            return false;
        }
        let ghost c0 = self.cache@;
        let ghost rid = result.dataset_id@;
        let ghost rview = result.view_id;
        match self.find_cache(&result.dataset_id, result.view_id) {
            Some(p) => {
                proof {
                    lemma_cache_pos_props(c0, rid, rview);
                }
                self.cache[p] = result;
                proof {
                    let c1 = self.cache@;
                    assert(c0[p as int].dataset_id@ == rid && c0[p as int].view_id == rview);
                    assert forall|a: int, b: int|
                        0 <= a < b < c1.len() implies !((#[trigger] c1[a]).dataset_id@ == (
                        #[trigger] c1[b]).dataset_id@ && c1[a].view_id == c1[b].view_id) by {
                        assert(!((c0[a]).dataset_id@ == (c0[b]).dataset_id@ && c0[a].view_id
                            == c0[b].view_id));
                        assert(c1[a].dataset_id@ == c0[a].dataset_id@ && c1[a].view_id
                            == c0[a].view_id);
                        assert(c1[b].dataset_id@ == c0[b].dataset_id@ && c1[b].view_id
                            == c0[b].view_id);
                    }
                }
            },
            None => {
                proof {
                    lemma_cache_pos_props(c0, rid, rview);
                }
                self.cache.push(result);
                proof {
                    let c1 = self.cache@;
                    assert forall|a: int, b: int|
                        0 <= a < b < c1.len() implies !((#[trigger] c1[a]).dataset_id@ == (
                        #[trigger] c1[b]).dataset_id@ && c1[a].view_id == c1[b].view_id) by {
                        if b < c0.len() {
                            assert(c1[a] == c0[a] && c1[b] == c0[b]);
                            assert(!((c0[a]).dataset_id@ == (c0[b]).dataset_id@ && c0[a].view_id
                                == c0[b].view_id));
                        } else {
                            assert(c1[b] == result);
                            assert(c1[a] == c0[a]);
                            assert(!((c0[a]).dataset_id@ == rid && c0[a].view_id == rview));
                        }
                    }
                }
            },
        }
        true
    }

    /// What a view should display now: the cached result under its key
    /// when one is stored and all its row indices still fit the current
    /// store (a result outlived by a reload is ignored), the master rows
    /// when none is, and `NoData` for an unregistered dataset. An entry's
    /// presence, not its emptiness, decides: a computed empty result shows
    /// zero rows, a view that never computed shows the master.
    pub fn get_rows_for_view(&self, id: &String, view_id: usize) -> (r: RowSource)
        requires
            self.wf(),
        ensures
            match r {
                RowSource::NoData => store_pos(self.stores@, id@) < 0,
                RowSource::Master => {
                    &&& store_pos(self.stores@, id@) >= 0
                    &&& {
                        let entry = cache_lookup(self.cache@, id@, view_id);
                        entry is None || !indices_fit(
                            entry.unwrap().indices@,
                            self.stores@[store_pos(self.stores@, id@)].1,
                        )
                    }
                },
                RowSource::Computed(v) => {
                    &&& store_pos(self.stores@, id@) >= 0
                    &&& cache_lookup(self.cache@, id@, view_id) is Some
                    &&& v@ == cache_lookup(self.cache@, id@, view_id).unwrap().indices@
                    &&& indices_fit(v@, self.stores@[store_pos(self.stores@, id@)].1)
                },
            },
    {
        let sp = match self.find_store(id) {
            Some(p) => p,
            None => {
                return RowSource::NoData;
            },
        };
        match self.find_cache(id, view_id) {
            Some(cp) => {
                let n = self.stores[sp].1.len();
                let idxs = &self.cache[cp].indices;
                let mut k: usize = 0;
                while k < idxs.len()
                    invariant
                        k <= idxs@.len(),
                        sp < self.stores@.len(),
                        sp as int == store_pos(self.stores@, id@),
                        cp < self.cache@.len(),
                        cp as int == cache_pos(self.cache@, id@, view_id),
                        idxs@ == self.cache@[cp as int].indices@,
                        n == self.stores@[sp as int].1.rows@.len(),
                        forall|j: int| 0 <= j < k ==> (#[trigger] idxs@[j]) < n,
                    decreases idxs@.len() - k,
                {
                    if idxs[k] >= n {
                        proof {
                            let entry = cache_lookup(self.cache@, id@, view_id).unwrap();
                            assert(entry == self.cache@[cp as int]);
                            assert(entry.indices@[k as int] >= n);
                        }
                        return RowSource::Master;
                    }
                    k += 1;
                }
                RowSource::Computed(crate::store::copy_indices(idxs))
            },
            None => RowSource::Master,
        }
    }

    /// A reference to the store registered under `id`, if any.
    pub fn get_store(&self, id: &String) -> (r: Option<&RecordStore>)
        requires
            self.wf(),
        ensures
            match r {
                Some(st) => {
                    &&& store_pos(self.stores@, id@) >= 0
                    &&& *st == self.stores@[store_pos(self.stores@, id@)].1
                    &&& st.wf()
                },
                None => store_pos(self.stores@, id@) < 0,
            },
    {
        match self.find_store(id) {
            Some(p) => Some(&self.stores[p].1),
            None => None,
        }
    }
}

/// Every index names a row of the store.
pub open spec fn indices_fit(idxs: Seq<usize>, store: RecordStore) -> bool {
    forall|j: int| 0 <= j < idxs.len() ==> (#[trigger] idxs[j]) < store.rows@.len()
}

/// Removing the entry at the key's position leaves no entry under the key
/// and every other key's entry unchanged.
proof fn lemma_remove_frame(c0: Seq<CachedResult>, p: int, id: Seq<char>, view: usize)
    requires
        0 <= p < c0.len(),
        cache_pos(c0, id, view) == p,
        forall|j: int|
            0 <= j < c0.len() && j != p ==> !((#[trigger] c0[j]).dataset_id@ == id && c0[j].view_id
                == view),
    ensures
        cache_lookup(c0.remove(p), id, view) is None,
        forall|oid: Seq<char>, ov: usize|
            !(oid == id && ov == view) ==> cache_lookup(c0.remove(p), oid, ov) == cache_lookup(
                c0,
                oid,
                ov,
            ),
{
    let c1 = c0.remove(p);
    lemma_cache_pos_props(c0, id, view);
    lemma_cache_pos_props(c1, id, view);
    if cache_pos(c1, id, view) >= 0 {
        let w = cache_pos(c1, id, view);
        if w < p {
            assert(c1[w] == c0[w]);
        } else {
            assert(c1[w] == c0[w + 1]);
        }
        assert(false);
    }
    assert forall|oid: Seq<char>, ov: usize|
        !(oid == id && ov == view) implies cache_lookup(c1, oid, ov) == cache_lookup(
        c0,
        oid,
        ov,
    ) by {
        lemma_cache_pos_props(c0, oid, ov);
        lemma_cache_pos_props(c1, oid, ov);
        let q0 = cache_pos(c0, oid, ov);
        if q0 >= 0 {
            if q0 < p {
                assert(forall|j: int| 0 <= j < q0 ==> c1[j] == c0[j]);
                assert(c1[q0] == c0[q0]);
                lemma_cache_pos_of(c1, oid, ov, q0);
            } else {
                assert(q0 != p);
                assert(c1[q0 - 1] == c0[q0]);
                assert forall|j: int| 0 <= j < q0 - 1 implies !(c1[j].dataset_id@ == oid
                    && c1[j].view_id == ov) by {
                    if j < p {
                        assert(c1[j] == c0[j]);
                    } else {
                        assert(c1[j] == c0[j + 1]);
                    }
                }
                lemma_cache_pos_of(c1, oid, ov, q0 - 1);
            }
        } else {
            if cache_pos(c1, oid, ov) >= 0 {
                let w = cache_pos(c1, oid, ov);
                if w < p {
                    assert(c1[w] == c0[w]);
                } else {
                    assert(c1[w] == c0[w + 1]);
                }
                assert(false);
            }
        }
    }
}

/// Updating or extending the store list at one identifier's position
/// keeps every other identifier's registration unchanged.
proof fn lemma_frame_store_update(s0: Seq<(String, RecordStore)>, s1: Seq<(String, RecordStore)>, p: int)
    requires
        0 <= p < s1.len(),
        s1.len() == s0.len() || s1.len() == s0.len() + 1,
        p == s0.len() || s1.len() == s0.len(),
        forall|j: int| 0 <= j < s1.len() && j != p ==> s1[j] == s0[j],
        forall|j: int| 0 <= j < s0.len() && j != p ==> s0[j].0@ != s1[p].0@,
        s0.len() == s1.len() ==> s0[p].0@ == s1[p].0@,
    ensures
        forall|other: Seq<char>|
            other != s1[p].0@ ==> (#[trigger] store_pos(s1, other) >= 0) == (store_pos(s0, other)
                >= 0),
        forall|other: Seq<char>|
            other != s1[p].0@ && store_pos(s0, other) >= 0 ==> s1[#[trigger] store_pos(s1, other)]
                == s0[store_pos(s0, other)],
{
    assert forall|other: Seq<char>| other != s1[p].0@ implies ((#[trigger] store_pos(s1, other) >= 0)
        == (store_pos(s0, other) >= 0)) && (store_pos(s0, other) >= 0 ==> s1[store_pos(s1, other)]
        == s0[store_pos(s0, other)]) by {
        lemma_store_pos_props(s0, other);
        lemma_store_pos_props(s1, other);
        let q0 = store_pos(s0, other);
        if q0 >= 0 {
            assert(q0 != p || s0.len() == s1.len());
            assert(s1[q0] == s0[q0] || q0 == p);
            if q0 == p {
                assert(s0[p].0@ == s1[p].0@);
                assert(false);
            }
            assert(forall|j: int| 0 <= j < q0 && j != p ==> s1[j] == s0[j]);
            assert forall|j: int| 0 <= j < q0 implies s1[j].0@ != other by {
                if j == p {
                } else {
                    assert(s1[j] == s0[j]);
                }
            }
            lemma_store_pos_of(s1, other, q0);
        } else {
            if store_pos(s1, other) >= 0 {
                let w = store_pos(s1, other);
                if w == p {
                    assert(false);
                } else {
                    assert(s1[w] == s0[w]);
                    assert(false);
                }
            }
        }
    }
}

} // verus!
