//! The session: the command surface the UI layer drives, wired over the
//! tabs, the registry and the engine.
//!
//! Commands mutate view state and invalidate the affected cached result;
//! recomputation is split into three steps so that the work can run off
//! the driving thread: `make_request` captures a snapshot of a tab's
//! current settings, `perform_recompute` turns a request into a tagged
//! result (a pure computation), and `apply` stores the result only if its
//! snapshot still matches the tab's settings — the stale-discard rule.

use crate::engine::{compute_post, compute_with_column};
use crate::registry::{
    cache_lookup, cache_upsert, store_pos, CachedResult, Registry, RowSource, Snapshot,
};
use crate::store::RecordStore;
use crate::types::{FileHeader, SortOrder};
use crate::view::{headers_same, toggled_entry, ColumnMap, SheetTab};
use vstd::prelude::*;

verus! {

/// Position of the tab with identifier `id`, or -1.
pub open spec fn tab_pos(s: Seq<SheetTab>, id: usize) -> int
    decreases s.len(),
{
    if s.len() == 0 {
        -1
    } else if s[0].id == id {
        0
    } else {
        let r = tab_pos(s.drop_first(), id);
        if r < 0 {
            -1
        } else {
            r + 1
        }
    }
}

/// What `tab_pos` finds: a tab with the identifier and none before it, or
/// nothing when no tab carries it.
pub proof fn lemma_tab_pos_props(s: Seq<SheetTab>, id: usize)
    ensures
        tab_pos(s, id) >= 0 ==> {
            let p = tab_pos(s, id);
            &&& p < s.len()
            &&& s[p].id == id
            &&& forall|j: int| 0 <= j < p ==> s[j].id != id
        },
        tab_pos(s, id) < 0 ==> forall|j: int| 0 <= j < s.len() ==> s[j].id != id,
    decreases s.len(),
{
    if s.len() > 0 && s[0].id != id {
        lemma_tab_pos_props(s.drop_first(), id);
        let d = s.drop_first();
        if tab_pos(s, id) >= 0 {
            let p = tab_pos(s, id);
            assert(d[p - 1] == s[p]);
            assert forall|j: int| 0 <= j < p implies s[j].id != id by {
                if j > 0 {
                    assert(d[j - 1] == s[j]);
                }
            }
        } else {
            assert forall|j: int| 0 <= j < s.len() implies s[j].id != id by {
                if j > 0 {
                    assert(d[j - 1] == s[j]);
                }
            }
        }
    }
}

/// A position holding `id` with no earlier occurrence is the position
/// `tab_pos` finds.
pub proof fn lemma_tab_pos_of(s: Seq<SheetTab>, id: usize, p: int)
    requires
        0 <= p < s.len(),
        s[p].id == id,
        forall|j: int| 0 <= j < p ==> s[j].id != id,
    ensures
        tab_pos(s, id) == p,
    decreases s.len(),
{
    if p > 0 {
        let d = s.drop_first();
        assert(d[p - 1] == s[p]);
        assert forall|j: int| 0 <= j < p - 1 implies d[j].id != id by {
            assert(d[j] == s[j + 1]);
        }
        lemma_tab_pos_of(d, id, p - 1);
    }
}

/// The filter term a view computes and displays with: the global filter
/// while one is set, else the view's own term.
pub open spec fn effective_term(global: Seq<char>, own: Seq<char>) -> Seq<char> {
    if global.len() > 0 {
        global
    } else {
        own
    }
}

/// One recompute request: which dataset and view to compute for, and the
/// snapshot of the settings the request was issued under.
pub struct RecomputeRequest {
    pub dataset_id: String,
    pub view_id: usize,
    pub snapshot: Snapshot,
}

/// The engine session: every open tab's view state, the dataset registry,
/// and the global filter.
pub struct Session {
    pub tabs: Vec<SheetTab>,
    pub registry: Registry,
    pub global_filter: String,
    pub counter: usize,
}

impl Session {
    /// Registry and tabs well-formed, tab identifiers unique and below
    /// the counter that numbers the next tab.
    pub open spec fn wf(&self) -> bool {
        &&& self.registry.wf()
        &&& forall|j: int| 0 <= j < self.tabs@.len() ==> (#[trigger] self.tabs@[j]).wf()
        &&& forall|p: int, q: int|
            0 <= p < q < self.tabs@.len() ==> (#[trigger] self.tabs@[p]).id != (
            #[trigger] self.tabs@[q]).id
        &&& forall|j: int| 0 <= j < self.tabs@.len() ==> (#[trigger] self.tabs@[j]).id < self.counter
    }

    /// A fresh session: one empty tab numbered 1, nothing loaded, no
    /// global filter.
    pub fn new() -> (r: Session)
        ensures
            r.wf(),
            r.tabs@.len() == 1,
            r.tabs@[0].id == 1,
            r.tabs@[0].filter_term@ == Seq::<char>::empty(),
            r.tabs@[0].sort is None,
            r.tabs@[0].chosen_file@ == Seq::<char>::empty(),
            r.registry.stores@.len() == 0,
            r.registry.cache@.len() == 0,
            r.global_filter@ == Seq::<char>::empty(),
            r.counter == 2,
    {
        let mut tabs: Vec<SheetTab> = Vec::new();
        tabs.push(SheetTab::new(1, String::new(), ColumnMap::new()));
        Session { tabs, registry: Registry::new(), global_filter: String::new(), counter: 2 }
    }

    /// Position of the tab with identifier `tab_id`, if any.
    fn find_tab(&self, tab_id: usize) -> (r: Option<usize>)
        ensures
            match r {
                Some(p) => p == tab_pos(self.tabs@, tab_id) && p < self.tabs@.len(),
                None => tab_pos(self.tabs@, tab_id) < 0,
            },
    {
        let mut p: usize = 0;
        while p < self.tabs.len()
            invariant
                p <= self.tabs@.len(),
                forall|j: int| 0 <= j < p ==> (#[trigger] self.tabs@[j]).id != tab_id,
            decreases self.tabs@.len() - p,
        {
            if self.tabs[p].id == tab_id {
                proof {
                    lemma_tab_pos_of(self.tabs@, tab_id, p as int);
                }
                return Some(p);
            }
            p += 1;
        }
        proof {
            lemma_tab_pos_props(self.tabs@, tab_id);
            if tab_pos(self.tabs@, tab_id) >= 0 {
                let w = tab_pos(self.tabs@, tab_id);
                assert(self.tabs@[w].id != tab_id);
            }
        }
        None
    }

    /// The filter term the given tab displays and computes with now: the
    /// global filter overrides while set, without overwriting the tab's
    /// own term, which resumes once the global filter is cleared.
    pub fn effective_filter<'a>(&'a self, tab: &'a SheetTab) -> (r: &'a String)
        ensures
            r@ == effective_term(self.global_filter@, tab.filter_term@),
    {
        if self.global_filter.as_str().is_empty() {
            &tab.filter_term
        } else {
            &self.global_filter
        }
    }

    /// Replace one tab's filter term and invalidate its cached result.
    /// Returns whether the tab exists.
    pub fn set_filter(&mut self, tab_id: usize, term: String) -> (ok: bool)
        requires
            old(self).wf(),
        ensures
            final(self).wf(),
            ok == (tab_pos(old(self).tabs@, tab_id) >= 0),
            !ok ==> *final(self) == *old(self),
            ok ==> ({
                let p = tab_pos(old(self).tabs@, tab_id);
                let t0 = old(self).tabs@[p];
                let t1 = final(self).tabs@[p];
                &&& final(self).tabs@.len() == old(self).tabs@.len()
                &&& t1.id == t0.id && t1.chosen_file == t0.chosen_file && t1.sort == t0.sort
                    && t1.columns == t0.columns
                &&& t1.filter_term@ == term@
                &&& forall|q: int|
                    0 <= q < old(self).tabs@.len() && q != p ==> #[trigger] final(self).tabs@[q]
                        == old(self).tabs@[q]
                &&& final(self).global_filter == old(self).global_filter
                &&& final(self).counter == old(self).counter
                &&& final(self).registry.stores@ == old(self).registry.stores@
                &&& cache_lookup(final(self).registry.cache@, t0.chosen_file@, tab_id) is None
                &&& forall|oid: Seq<char>, ov: usize|
                    !(oid == t0.chosen_file@ && ov == tab_id) ==> cache_lookup(
                        final(self).registry.cache@,
                        oid,
                        ov,
                    ) == cache_lookup(old(self).registry.cache@, oid, ov)
            }),
    {
        let p = match self.find_tab(tab_id) {
            Some(p) => p,
            None => {
                return false;
            },
        };
        self.tabs[p].set_filter(term);
        let ds = self.tabs[p].chosen_file.clone();
        self.registry.invalidate(&ds, tab_id);
        true
    }

    /// Clear one tab's filter term (and its cached result), restoring the
    /// unfiltered view.
    pub fn clear_filter(&mut self, tab_id: usize) -> (ok: bool)
        requires
            old(self).wf(),
        ensures
            final(self).wf(),
            ok == (tab_pos(old(self).tabs@, tab_id) >= 0),
            !ok ==> *final(self) == *old(self),
            ok ==> final(self).tabs@[tab_pos(old(self).tabs@, tab_id)].filter_term@
                == Seq::<char>::empty(),
    {
        self.set_filter(tab_id, String::new())
    }

    /// A header click on one tab: sort that column, ascending first, then
    /// flipping; the cached result is invalidated. Returns whether the
    /// tab exists.
    pub fn set_sort(&mut self, tab_id: usize, col: usize) -> (ok: bool)
        requires
            old(self).wf(),
        ensures
            final(self).wf(),
            ok == (tab_pos(old(self).tabs@, tab_id) >= 0),
            !ok ==> *final(self) == *old(self),
            ok ==> ({
                let p = tab_pos(old(self).tabs@, tab_id);
                let t0 = old(self).tabs@[p];
                let t1 = final(self).tabs@[p];
                &&& final(self).tabs@.len() == old(self).tabs@.len()
                &&& t1.id == t0.id && t1.chosen_file == t0.chosen_file && t1.filter_term
                    == t0.filter_term && t1.columns == t0.columns
                &&& t1.sort == match t0.sort {
                    Some((c, SortOrder::Asc)) if c == col => Some((col, SortOrder::Dsc)),
                    _ => Some((col, SortOrder::Asc)),
                }
                &&& forall|q: int|
                    0 <= q < old(self).tabs@.len() && q != p ==> #[trigger] final(self).tabs@[q]
                        == old(self).tabs@[q]
                &&& final(self).global_filter == old(self).global_filter
                &&& final(self).counter == old(self).counter
                &&& final(self).registry.stores@ == old(self).registry.stores@
                &&& cache_lookup(final(self).registry.cache@, t0.chosen_file@, tab_id) is None
                &&& forall|oid: Seq<char>, ov: usize|
                    !(oid == t0.chosen_file@ && ov == tab_id) ==> cache_lookup(
                        final(self).registry.cache@,
                        oid,
                        ov,
                    ) == cache_lookup(old(self).registry.cache@, oid, ov)
            }),
    {
        let p = match self.find_tab(tab_id) {
            Some(p) => p,
            None => {
                return false;
            },
        };
        self.tabs[p].set_sort(col);
        let ds = self.tabs[p].chosen_file.clone();
        self.registry.invalidate(&ds, tab_id);
        true
    }

    /// Flip one column's visibility in a tab's configuration for its
    /// current dataset. Visibility does not change which rows a view
    /// holds, so no cached result is invalidated.
    pub fn toggle_column(&mut self, tab_id: usize, col: usize) -> (changed: bool)
        requires
            old(self).wf(),
        ensures
            final(self).wf(),
            tab_pos(old(self).tabs@, tab_id) < 0 ==> !changed && *final(self) == *old(self),
            final(self).registry == old(self).registry,
            final(self).global_filter == old(self).global_filter,
            final(self).counter == old(self).counter,
            tab_pos(old(self).tabs@, tab_id) >= 0 ==> ({
                let p = tab_pos(old(self).tabs@, tab_id);
                let t0 = old(self).tabs@[p];
                let t1 = final(self).tabs@[p];
                &&& final(self).tabs@.len() == old(self).tabs@.len()
                &&& t1.id == t0.id && t1.chosen_file == t0.chosen_file && t1.filter_term
                    == t0.filter_term && t1.sort == t0.sort
                &&& forall|q: int|
                    0 <= q < old(self).tabs@.len() && q != p ==> #[trigger] final(self).tabs@[q]
                        == old(self).tabs@[q]
                &&& ({
                    let cp = crate::view::cmap_pos(t0.columns.entries@, t0.chosen_file@);
                    if cp >= 0 && (col as int) < t0.columns.entries@[cp].1@.len() {
                        &&& changed
                        &&& toggled_entry(
                            t0.columns.entries@[cp],
                            t1.columns.entries@[cp],
                            col as int,
                        )
                        &&& t1.columns.entries@.len() == t0.columns.entries@.len()
                        &&& forall|q: int|
                            0 <= q < t0.columns.entries@.len() && q != cp
                                ==> #[trigger] t1.columns.entries@[q] == t0.columns.entries@[q]
                    } else {
                        !changed && t1.columns.entries@ == t0.columns.entries@
                    }
                })
            }),
    {
        let p = match self.find_tab(tab_id) {
            Some(p) => p,
            None => {
                return false;
            },
        };
        let ds = self.tabs[p].chosen_file.clone();
        self.tabs[p].columns.toggle(&ds, col)
    }

    /// Set (or, with an empty string, clear) the global filter that
    /// overrides every view's own term while active.
    pub fn set_global_filter(&mut self, term: String)
        requires
            old(self).wf(),
        ensures
            final(self).wf(),
            final(self).global_filter@ == term@,
            final(self).tabs@ == old(self).tabs@,
            final(self).registry == old(self).registry,
            final(self).counter == old(self).counter,
    {
        self.global_filter = term;
    }

    /// Open a new tab showing `chosen_file` (possibly the empty string
    /// for an empty tab). It starts with no filter and no sort, and
    /// inherits a copy of the newest tab's column configurations — a
    /// starting point, not a shared reference. Returns the new tab's
    /// identifier.
    pub fn add_tab(&mut self, chosen_file: String) -> (id: usize)
        requires
            old(self).wf(),
            old(self).counter < usize::MAX,
        ensures
            final(self).wf(),
            id == old(self).counter,
            final(self).counter == old(self).counter + 1,
            final(self).tabs@.len() == old(self).tabs@.len() + 1,
            forall|q: int|
                0 <= q < old(self).tabs@.len() ==> #[trigger] final(self).tabs@[q] == old(
                    self,
                ).tabs@[q],
            ({
                let t = final(self).tabs@.last();
                &&& t.id == id
                &&& t.chosen_file@ == chosen_file@
                &&& t.filter_term@ == Seq::<char>::empty()
                &&& t.sort is None
                &&& (old(self).tabs@.len() > 0 ==> {
                    let src = old(self).tabs@.last().columns;
                    &&& t.columns.entries@.len() == src.entries@.len()
                    &&& forall|e: int|
                        0 <= e < src.entries@.len() ==> (#[trigger] t.columns.entries@[e]).0@
                            == src.entries@[e].0@ && headers_same(
                            src.entries@[e].1@,
                            t.columns.entries@[e].1@,
                        )
                })
                &&& (old(self).tabs@.len() == 0 ==> t.columns.entries@.len() == 0)
            }),
            final(self).registry == old(self).registry,
            final(self).global_filter == old(self).global_filter,
    {
        let id = self.counter;
        let columns = if self.tabs.len() > 0 {
            self.tabs[self.tabs.len() - 1].columns.duplicate()
        } else {
            ColumnMap::new()
        };
        let tab = SheetTab::new(id, chosen_file, columns);
        self.tabs.push(tab);
        self.counter = id + 1;
        id
    }

    /// Close one tab, dropping its view state. Its cached results stay
    /// until evicted by key reuse; a fresh tab never reuses the
    /// identifier. Returns whether the tab existed.
    pub fn close_tab(&mut self, tab_id: usize) -> (ok: bool)
        requires
            old(self).wf(),
        ensures
            final(self).wf(),
            ok == (tab_pos(old(self).tabs@, tab_id) >= 0),
            !ok ==> *final(self) == *old(self),
            ok ==> final(self).tabs@ == old(self).tabs@.remove(
                tab_pos(old(self).tabs@, tab_id),
            ) && final(self).registry == old(self).registry && final(self).global_filter == old(
                self,
            ).global_filter && final(self).counter == old(self).counter,
    {
        let p = match self.find_tab(tab_id) {
            Some(p) => p,
            None => {
                return false;
            },
        };
        self.tabs.remove(p);
        proof {
            let s0 = old(self).tabs@;
            let s1 = self.tabs@;
            assert forall|a: int, b: int|
                0 <= a < b < s1.len() implies (#[trigger] s1[a]).id != (#[trigger] s1[b]).id by {
                let a0: int = if a < p {
                    a
                } else {
                    a + 1
                };
                let b0: int = if b < p {
                    b
                } else {
                    b + 1
                };
                assert(s1[a] == s0[a0]);
                assert(s1[b] == s0[b0]);
            }
        }
        true
    }

    /// Install a loaded dataset: register its store under `id`, hand its
    /// column list to every tab's configuration map, and, when a tab
    /// requested the load, point that tab at the dataset with a cleared
    /// filter and drop its cached result.
    pub fn install_dataset(&mut self, id: String, store: RecordStore, tab_id: Option<usize>)
        requires
            old(self).wf(),
            store.wf(),
        ensures
            final(self).wf(),
            store_pos(final(self).registry.stores@, id@) >= 0,
            final(self).registry.stores@[store_pos(final(self).registry.stores@, id@)].1 == store,
            final(self).global_filter == old(self).global_filter,
            final(self).counter == old(self).counter,
            final(self).tabs@.len() == old(self).tabs@.len(),
            forall|q: int|
                0 <= q < final(self).tabs@.len() ==> (#[trigger] final(self).tabs@[q]).id == old(
                    self,
                ).tabs@[q].id,
            match tab_id {
                Some(t) => tab_pos(old(self).tabs@, t) >= 0 ==> ({
                    let p = tab_pos(old(self).tabs@, t);
                    &&& final(self).tabs@[p].chosen_file@ == id@
                    &&& final(self).tabs@[p].filter_term@ == Seq::<char>::empty()
                    &&& cache_lookup(final(self).registry.cache@, id@, t) is None
                }),
                None => true,
            },
    {
        let headers = crate::view::copy_headers(&store.header);
        self.registry.register(id.clone(), store);
        let ghost reg1 = self.registry;
        let mut q: usize = 0;
        while q < self.tabs.len()
            invariant
                q <= self.tabs@.len(),
                forall|j: int| 0 <= j < self.tabs@.len() ==> (#[trigger] self.tabs@[j]).wf(),
                forall|a: int, b: int|
                    0 <= a < b < self.tabs@.len() ==> (#[trigger] self.tabs@[a]).id != (
                    #[trigger] self.tabs@[b]).id,
                forall|j: int|
                    0 <= j < self.tabs@.len() ==> (#[trigger] self.tabs@[j]).id < self.counter,
                self.tabs@.len() == old(self).tabs@.len(),
                forall|j: int|
                    0 <= j < self.tabs@.len() ==> (#[trigger] self.tabs@[j]).id == old(
                        self,
                    ).tabs@[j].id && self.tabs@[j].chosen_file == old(self).tabs@[j].chosen_file
                        && self.tabs@[j].filter_term == old(self).tabs@[j].filter_term
                        && self.tabs@[j].sort == old(self).tabs@[j].sort,
                self.registry == reg1,
                self.global_filter == old(self).global_filter,
                self.counter == old(self).counter,
            decreases self.tabs@.len() - q,
        {
            let hs = crate::view::copy_headers(&headers);
            self.tabs[q].columns.insert(id.clone(), hs);
            q += 1;
        }
        if let Some(t) = tab_id {
            match self.find_tab(t) {
                Some(p) => {
                    proof {
                        lemma_tab_pos_props(self.tabs@, t);
                        assert forall|j: int|
                            0 <= j < p implies (#[trigger] old(self).tabs@[j]).id != t by {
                            assert(self.tabs@[j].id == old(self).tabs@[j].id);
                            assert(self.tabs@[j].id != t);
                        }
                        assert(old(self).tabs@[p as int].id == t);
                        lemma_tab_pos_of(old(self).tabs@, t, p as int);
                    }
                    self.tabs[p].set_dataset(id.clone());
                    self.tabs[p].clear_filter();
                    self.registry.invalidate(&id, t);
                },
                None => {
                    proof {
                        lemma_tab_pos_props(self.tabs@, t);
                        if tab_pos(old(self).tabs@, t) >= 0 {
                            lemma_tab_pos_props(old(self).tabs@, t);
                            let w = tab_pos(old(self).tabs@, t);
                            assert(self.tabs@[w].id == old(self).tabs@[w].id);
                            assert(self.tabs@[w].id != t);
                            assert(false);
                        }
                    }
                },
            }
        }
    }

    /// Capture a recompute request for one tab: its dataset, its
    /// identifier, and a snapshot of the settings it computes with now
    /// (the effective filter term and the sort choice).
    pub fn make_request(&self, tab_id: usize) -> (r: Option<RecomputeRequest>)
        ensures
            match r {
                Some(req) => tab_pos(self.tabs@, tab_id) >= 0 && ({
                    let t = self.tabs@[tab_pos(self.tabs@, tab_id)];
                    &&& req.dataset_id@ == t.chosen_file@
                    &&& req.view_id == tab_id
                    &&& req.snapshot.filter_term@ == effective_term(
                        self.global_filter@,
                        t.filter_term@,
                    )
                    &&& req.snapshot.sort == t.sort
                }),
                None => tab_pos(self.tabs@, tab_id) < 0,
            },
    {
        let p = match self.find_tab(tab_id) {
            Some(p) => p,
            None => {
                return None;
            },
        };
        let term = self.effective_filter(&self.tabs[p]).clone();
        Some(
            RecomputeRequest {
                dataset_id: self.tabs[p].chosen_file.clone(),
                view_id: tab_id,
                snapshot: Snapshot { filter_term: term, sort: self.tabs[p].sort },
            },
        )
    }

    /// Perform one recompute request: a pure function of the registered
    /// store and the request's snapshot, so it may run on any thread. The
    /// result carries the snapshot for the stale-discard comparison.
    /// `None` when the dataset is not registered.
    pub fn perform_recompute(&self, req: &RecomputeRequest) -> (r: Option<CachedResult>)
        requires
            self.wf(),
        ensures
            match r {
                Some(cr) => store_pos(self.registry.stores@, req.dataset_id@) >= 0 && ({
                    let store = self.registry.stores@[store_pos(
                        self.registry.stores@,
                        req.dataset_id@,
                    )].1;
                    &&& cr.dataset_id@ == req.dataset_id@
                    &&& cr.view_id == req.view_id
                    &&& cr.snapshot.filter_term@ == req.snapshot.filter_term@
                    &&& cr.snapshot.sort == req.snapshot.sort
                    &&& compute_post(
                        store.rows_view(),
                        store.header@.len() as int,
                        req.snapshot.filter_term@,
                        None,
                        req.snapshot.sort,
                        cr.indices@,
                    )
                }),
                None => store_pos(self.registry.stores@, req.dataset_id@) < 0,
            },
    {
        let store = match self.registry.get_store(&req.dataset_id) {
            Some(s) => s,
            None => {
                return None;
            },
        };
        let indices = compute_with_column(
            store,
            req.snapshot.filter_term.as_str(),
            None,
            req.snapshot.sort,
        );
        Some(
            CachedResult {
                dataset_id: req.dataset_id.clone(),
                view_id: req.view_id,
                snapshot: Snapshot {
                    filter_term: req.snapshot.filter_term.clone(),
                    sort: req.snapshot.sort,
                },
                indices,
            },
        )
    }

    /// Apply one completed recompute to the cache — only while its
    /// snapshot still matches the owning tab's current effective filter
    /// and sort; a stale or orphaned result is dropped whole.
    pub fn apply(&mut self, result: CachedResult) -> (applied: bool)
        requires
            old(self).wf(),
        ensures
            final(self).wf(),
            final(self).tabs@ == old(self).tabs@,
            final(self).global_filter == old(self).global_filter,
            final(self).counter == old(self).counter,
            final(self).registry.stores@ == old(self).registry.stores@,
            ({
                let p = tab_pos(old(self).tabs@, result.view_id);
                if p >= 0 {
                    let t = old(self).tabs@[p];
                    &&& applied == result.snapshot.matches_spec(
                        effective_term(old(self).global_filter@, t.filter_term@),
                        t.sort,
                    )
                    &&& (applied ==> final(self).registry.cache@ == cache_upsert(
                        old(self).registry.cache@,
                        result,
                    ))
                    &&& (!applied ==> final(self).registry.cache@ == old(self).registry.cache@)
                } else {
                    !applied && final(self).registry.cache@ == old(self).registry.cache@
                }
            }),
    {
        let p = match self.find_tab(result.view_id) {
            Some(p) => p,
            None => {
                return false;
            },
        };
        let term = self.effective_filter(&self.tabs[p]).clone();
        let sort = self.tabs[p].sort;
        self.registry.apply_result(result, &term, sort)
    }

    /// What one tab should display now, per the registry's three-state
    /// rule applied to the tab's dataset. `NoData` also covers a tab that
    /// does not exist or has no registered dataset.
    pub fn rows_for_tab(&self, tab_id: usize) -> (r: RowSource)
        requires
            self.wf(),
        ensures
            tab_pos(self.tabs@, tab_id) < 0 ==> r is NoData,
            tab_pos(self.tabs@, tab_id) >= 0 ==> ({
                let id = self.tabs@[tab_pos(self.tabs@, tab_id)].chosen_file@;
                match r {
                    RowSource::NoData => store_pos(self.registry.stores@, id) < 0,
                    RowSource::Master => {
                        &&& store_pos(self.registry.stores@, id) >= 0
                        &&& {
                            let entry = cache_lookup(self.registry.cache@, id, tab_id);
                            entry is None || !crate::registry::indices_fit(
                                entry.unwrap().indices@,
                                self.registry.stores@[store_pos(self.registry.stores@, id)].1,
                            )
                        }
                    },
                    RowSource::Computed(v) => {
                        &&& store_pos(self.registry.stores@, id) >= 0
                        &&& cache_lookup(self.registry.cache@, id, tab_id) is Some
                        &&& v@ == cache_lookup(self.registry.cache@, id, tab_id).unwrap().indices@
                        &&& crate::registry::indices_fit(
                            v@,
                            self.registry.stores@[store_pos(self.registry.stores@, id)].1,
                        )
                    },
                }
            }),
    {
        let p = match self.find_tab(tab_id) {
            Some(p) => p,
            None => {
                return RowSource::NoData;
            },
        };
        let ds = self.tabs[p].chosen_file.clone();
        self.registry.get_rows_for_view(&ds, tab_id)
    }
}

} // verus!
