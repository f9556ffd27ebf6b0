//! Per-tab view state: the dataset a tab shows, its filter term, its sort
//! choice, and the per-dataset column visibility it remembers. A tab's
//! state is independent of every other tab's; tabs share only the
//! immutable record stores.

use crate::types::{FileHeader, SortOrder};
use vstd::prelude::*;

verus! {

/// Position of the column list remembered for dataset `id`, or -1.
pub open spec fn cmap_pos(s: Seq<(String, Vec<FileHeader>)>, id: Seq<char>) -> int
    decreases s.len(),
{
    if s.len() == 0 {
        -1
    } else if s[0].0@ == id {
        0
    } else {
        let r = cmap_pos(s.drop_first(), id);
        if r < 0 {
            -1
        } else {
            r + 1
        }
    }
}

/// What `cmap_pos` finds: an entry with the key and none before it, or
/// nothing when no entry carries the key.
pub proof fn lemma_cmap_pos_props(s: Seq<(String, Vec<FileHeader>)>, id: Seq<char>)
    ensures
        cmap_pos(s, id) >= 0 ==> {
            let p = cmap_pos(s, id);
            &&& p < s.len()
            &&& s[p].0@ == id
            &&& forall|j: int| 0 <= j < p ==> s[j].0@ != id
        },
        cmap_pos(s, id) < 0 ==> forall|j: int| 0 <= j < s.len() ==> s[j].0@ != id,
    decreases s.len(),
{
    if s.len() > 0 && s[0].0@ != id {
        lemma_cmap_pos_props(s.drop_first(), id);
        let d = s.drop_first();
        if cmap_pos(s, id) >= 0 {
            let p = cmap_pos(s, id);
            assert(d[p - 1] == s[p]);
            assert forall|j: int| 0 <= j < p implies s[j].0@ != id by {
                if j > 0 {
                    assert(d[j - 1] == s[j]);
                }
            }
        } else {
            assert forall|j: int| 0 <= j < s.len() implies s[j].0@ != id by {
                if j > 0 {
                    assert(d[j - 1] == s[j]);
                }
            }
        }
    }
}

/// A position holding `id` with no earlier occurrence is the position
/// `cmap_pos` finds.
pub proof fn lemma_cmap_pos_of(s: Seq<(String, Vec<FileHeader>)>, id: Seq<char>, p: int)
    requires
        0 <= p < s.len(),
        s[p].0@ == id,
        forall|j: int| 0 <= j < p ==> s[j].0@ != id,
    ensures
        cmap_pos(s, id) == p,
    decreases s.len(),
{
    if p > 0 {
        let d = s.drop_first();
        assert(d[p - 1] == s[p]);
        assert forall|j: int| 0 <= j < p - 1 implies d[j].0@ != id by {
            assert(d[j] == s[j + 1]);
        }
        lemma_cmap_pos_of(d, id, p - 1);
    }
}

/// `h1` is `h0` with its visibility flipped.
pub open spec fn header_flipped(h0: FileHeader, h1: FileHeader) -> bool {
    h1.name@ == h0.name@ && h1.visible == !h0.visible && h1.sort == h0.sort
}

/// `h1` carries the same contents as `h0`.
pub open spec fn header_same(h0: FileHeader, h1: FileHeader) -> bool {
    h1.name@ == h0.name@ && h1.visible == h0.visible && h1.sort == h0.sort
}

/// `b` carries the same column contents as `a`.
pub open spec fn headers_same(a: Seq<FileHeader>, b: Seq<FileHeader>) -> bool {
    a.len() == b.len() && forall|j: int| 0 <= j < a.len() ==> header_same(a[j], #[trigger] b[j])
}

/// `e1` is `e0` with exactly the column at `col` flipped.
pub open spec fn toggled_entry(
    e0: (String, Vec<FileHeader>),
    e1: (String, Vec<FileHeader>),
    col: int,
) -> bool {
    &&& e1.0@ == e0.0@
    &&& e1.1@.len() == e0.1@.len()
    &&& header_flipped(e0.1@[col], e1.1@[col])
    &&& forall|j: int| 0 <= j < e0.1@.len() && j != col ==> header_same(e0.1@[j], #[trigger] e1.1@[j])
}

/// The column configurations one tab remembers, keyed by dataset
/// identifier with unique keys: a tab that switches back to a dataset
/// finds its earlier visibility choices again.
pub struct ColumnMap {
    pub entries: Vec<(String, Vec<FileHeader>)>,
}

impl ColumnMap {
    /// Dataset keys are unique.
    pub open spec fn wf(&self) -> bool {
        forall|p: int, q: int|
            0 <= p < q < self.entries@.len() ==> (#[trigger] self.entries@[p]).0@ != (
            #[trigger] self.entries@[q]).0@
    }

    pub fn new() -> (r: ColumnMap)
        ensures
            r.wf(),
            r.entries@.len() == 0,
    {
        ColumnMap { entries: Vec::new() }
    }

    /// Position of the entry for `id`, if any.
    fn find(&self, id: &String) -> (r: Option<usize>)
        ensures
            match r {
                Some(p) => p == cmap_pos(self.entries@, id@) && p < self.entries@.len(),
                None => cmap_pos(self.entries@, id@) < 0,
            },
    {
        let mut p: usize = 0;
        while p < self.entries.len()
            invariant
                p <= self.entries@.len(),
                forall|j: int| 0 <= j < p ==> (#[trigger] self.entries@[j]).0@ != id@,
            decreases self.entries@.len() - p,
        {
            if self.entries[p].0 == *id {
                proof {
                    lemma_cmap_pos_of(self.entries@, id@, p as int);
                }
                return Some(p);
            }
            p += 1;
        }
        proof {
            lemma_cmap_pos_props(self.entries@, id@);
            if cmap_pos(self.entries@, id@) >= 0 {
                let w = cmap_pos(self.entries@, id@);
                assert(self.entries@[w].0@ != id@);
            }
        }
        None
    }

    /// The columns remembered for `id`, if any.
    pub fn get(&self, id: &String) -> (r: Option<&Vec<FileHeader>>)
        ensures
            match r {
                Some(v) => cmap_pos(self.entries@, id@) >= 0 && *v == self.entries@[cmap_pos(
                    self.entries@,
                    id@,
                )].1,
                None => cmap_pos(self.entries@, id@) < 0,
            },
    {
        match self.find(id) {
            Some(p) => Some(&self.entries[p].1),
            None => None,
        }
    }

    /// Remember `headers` as the column configuration for `id`, replacing
    /// any earlier one; other datasets' configurations are untouched.
    pub fn insert(&mut self, id: String, headers: Vec<FileHeader>)
        requires
            old(self).wf(),
        ensures
            final(self).wf(),
            ({
                let p = cmap_pos(old(self).entries@, id@);
                if p >= 0 {
                    final(self).entries@ =~= old(self).entries@.update(p, (id, headers))
                } else {
                    final(self).entries@ =~= old(self).entries@.push((id, headers))
                }
            }),
    {
        let ghost s0 = self.entries@;
        match self.find(&id) {
            Some(p) => {
                proof {
                    lemma_cmap_pos_props(s0, id@);
                }
                self.entries[p] = (id, headers);
                proof {
                    let s1 = self.entries@;
                    assert forall|a: int, b: int|
                        0 <= a < b < s1.len() implies (#[trigger] s1[a]).0@ != (
                        #[trigger] s1[b]).0@ by {
                        assert(s1[a].0@ == s0[a].0@ && s1[b].0@ == s0[b].0@);
                    }
                }
            },
            None => {
                proof {
                    lemma_cmap_pos_props(s0, id@);
                }
                self.entries.push((id, headers));
                proof {
                    let s1 = self.entries@;
                    assert forall|a: int, b: int|
                        0 <= a < b < s1.len() implies (#[trigger] s1[a]).0@ != (
                        #[trigger] s1[b]).0@ by {
                        if b < s0.len() {
                            assert(s1[a].0@ == s0[a].0@ && s1[b].0@ == s0[b].0@);
                        } else {
                            assert(s1[a] == s0[a]);
                        }
                    }
                }
            },
        }
    }

    /// Flip the visibility of column `col` in the configuration for `id`.
    /// Returns whether anything changed: nothing does when the dataset is
    /// unknown or the column out of range.
    pub fn toggle(&mut self, id: &String, col: usize) -> (changed: bool)
        requires
            old(self).wf(),
        ensures
            final(self).wf(),
            ({
                let p = cmap_pos(old(self).entries@, id@);
                if p >= 0 && (col as int) < old(self).entries@[p].1@.len() {
                    &&& changed
                    &&& final(self).entries@.len() == old(self).entries@.len()
                    &&& toggled_entry(old(self).entries@[p], final(self).entries@[p], col as int)
                    &&& forall|q: int|
                        0 <= q < old(self).entries@.len() && q != p
                            ==> #[trigger] final(self).entries@[q] == old(self).entries@[q]
                } else {
                    !changed && final(self).entries@ == old(self).entries@
                }
            }),
    {
        let ghost s0 = self.entries@;
        let p = match self.find(id) {
            Some(p) => p,
            None => {
                return false;
            },
        };
        proof {
            lemma_cmap_pos_props(s0, id@);
        }
        if col >= self.entries[p].1.len() {
            return false;
        }
        let old_headers = &self.entries[p].1;
        let mut headers: Vec<FileHeader> = Vec::new();
        let mut j: usize = 0;
        while j < old_headers.len()
            invariant
                j <= old_headers@.len(),
                col < old_headers@.len(),
                headers@.len() == j,
                forall|t: int|
                    0 <= t < j && t != col ==> (#[trigger] headers@[t]).name@
                        == old_headers@[t].name@ && headers@[t].visible == old_headers@[t].visible
                        && headers@[t].sort == old_headers@[t].sort,
                (col as int) < j ==> headers@[col as int].name@ == old_headers@[col as int].name@
                    && headers@[col as int].visible == !old_headers@[col as int].visible
                    && headers@[col as int].sort == old_headers@[col as int].sort,
            decreases old_headers@.len() - j,
        {
            let mut h = old_headers[j].duplicate();
            if j == col {
                h.visible = !h.visible;
            }
            headers.push(h);
            j += 1;
        }
        let name = self.entries[p].0.clone();
        self.entries[p] = (name, headers);
        proof {
            let s1 = self.entries@;
            assert forall|a: int, b: int|
                0 <= a < b < s1.len() implies (#[trigger] s1[a]).0@ != (#[trigger] s1[b]).0@ by {
                assert(s1[a].0@ == s0[a].0@ && s1[b].0@ == s0[b].0@);
            }
        }
        true
    }

    /// A copy of this map whose entries are known to match: what a newly
    /// opened tab inherits from an existing one.
    pub fn duplicate(&self) -> (r: ColumnMap)
        requires
            self.wf(),
        ensures
            r.wf(),
            r.entries@.len() == self.entries@.len(),
            forall|p: int|
                0 <= p < self.entries@.len() ==> (#[trigger] r.entries@[p]).0@
                    == self.entries@[p].0@ && headers_same(
                    self.entries@[p].1@,
                    r.entries@[p].1@,
                ),
    {
        let mut entries: Vec<(String, Vec<FileHeader>)> = Vec::new();
        let mut p: usize = 0;
        while p < self.entries.len()
            invariant
                p <= self.entries@.len(),
                entries@.len() == p,
                forall|j: int|
                    0 <= j < p ==> (#[trigger] entries@[j]).0@ == self.entries@[j].0@
                        && headers_same(self.entries@[j].1@, entries@[j].1@),
            decreases self.entries@.len() - p,
        {
            let name = self.entries[p].0.clone();
            let hs = copy_headers(&self.entries[p].1);
            entries.push((name, hs));
            p += 1;
        }
        let r = ColumnMap { entries };
        proof {
            assert forall|a: int, b: int|
                0 <= a < b < r.entries@.len() implies (#[trigger] r.entries@[a]).0@ != (
                #[trigger] r.entries@[b]).0@ by {
                assert(r.entries@[a].0@ == self.entries@[a].0@);
                assert(r.entries@[b].0@ == self.entries@[b].0@);
            }
        }
        r
    }
}

/// A copy of a column list whose fields are known to match the original.
pub fn copy_headers(hs: &Vec<FileHeader>) -> (r: Vec<FileHeader>)
    ensures
        r@.len() == hs@.len(),
        headers_same(hs@, r@),
        forall|j: int|
            0 <= j < hs@.len() ==> (#[trigger] r@[j]).name@ == hs@[j].name@ && r@[j].visible
                == hs@[j].visible && r@[j].sort == hs@[j].sort,
{
    let mut out: Vec<FileHeader> = Vec::new();
    let mut j: usize = 0;
    while j < hs.len()
        invariant
            j <= hs@.len(),
            out@.len() == j,
            forall|t: int|
                0 <= t < j ==> (#[trigger] out@[t]).name@ == hs@[t].name@ && out@[t].visible
                    == hs@[t].visible && out@[t].sort == hs@[t].sort,
        decreases hs@.len() - j,
    {
        out.push(hs[j].duplicate());
        j += 1;
    }
    out
}

/// One open tab's view state: the dataset it shows, its filter term, its
/// sort choice, and the column configurations it remembers. Created with
/// defaults when a tab opens, mutated only through the setters, destroyed
/// when the tab closes.
pub struct SheetTab {
    pub id: usize,
    pub chosen_file: String,
    pub filter_term: String,
    pub sort: Option<(usize, SortOrder)>,
    pub columns: ColumnMap,
}

impl SheetTab {
    pub open spec fn wf(&self) -> bool {
        self.columns.wf()
    }

    /// A fresh tab: no filter, no sort, showing `chosen_file` (which may
    /// be empty for an empty tab), with inherited column configurations.
    pub fn new(id: usize, chosen_file: String, columns: ColumnMap) -> (r: SheetTab)
        requires
            columns.wf(),
        ensures
            r.wf(),
            r.id == id,
            r.chosen_file@ == chosen_file@,
            r.filter_term@ == Seq::<char>::empty(),
            r.sort is None,
            r.columns == columns,
    {
        SheetTab { id, chosen_file, filter_term: String::new(), sort: None, columns }
    }

    /// Point the tab at a dataset. Filter and sort are kept: they belong
    /// to the tab, not the dataset.
    pub fn set_dataset(&mut self, id: String)
        ensures
            final(self).id == old(self).id,
            final(self).chosen_file@ == id@,
            final(self).filter_term == old(self).filter_term,
            final(self).sort == old(self).sort,
            final(self).columns == old(self).columns,
    {
        self.chosen_file = id;
    }

    /// Replace the tab's own filter term.
    pub fn set_filter(&mut self, term: String)
        ensures
            final(self).id == old(self).id,
            final(self).chosen_file == old(self).chosen_file,
            final(self).filter_term@ == term@,
            final(self).sort == old(self).sort,
            final(self).columns == old(self).columns,
    {
        self.filter_term = term;
    }

    /// Clear the tab's own filter term.
    pub fn clear_filter(&mut self)
        ensures
            final(self).id == old(self).id,
            final(self).chosen_file == old(self).chosen_file,
            final(self).filter_term@ == Seq::<char>::empty(),
            final(self).sort == old(self).sort,
            final(self).columns == old(self).columns,
    {
        self.filter_term = String::new();
    }

    /// A click on a column header: a first click sorts the column
    /// ascending, a second flips it descending, and so on; clicking a
    /// different column starts ascending there.
    pub fn set_sort(&mut self, col: usize)
        ensures
            final(self).id == old(self).id,
            final(self).chosen_file == old(self).chosen_file,
            final(self).filter_term == old(self).filter_term,
            final(self).columns == old(self).columns,
            final(self).sort == match old(self).sort {
                Some((c, SortOrder::Asc)) if c == col => Some((col, SortOrder::Dsc)),
                _ => Some((col, SortOrder::Asc)),
            },
    {
        self.sort = match self.sort {
            Some((c, SortOrder::Asc)) if c == col => Some((col, SortOrder::Dsc)),
            _ => Some((col, SortOrder::Asc)),
        };
    }
}

} // verus!
