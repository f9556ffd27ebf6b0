//! Keyboard-driven row selection for a terminal table view: a selected
//! row index over the loaded rows, moved in pages downward and single
//! steps upward, wrapping at the edges and never leaving the table.

use vstd::prelude::*;
use vstd::string::StrSliceExecFns;

verus! {

/// A table's rows and the selection a keyboard moves over them.
pub struct App {
    pub selected: Option<usize>,
    pub items: Vec<Vec<String>>,
}

impl App {
    /// A fresh view over `items` with nothing selected.
    pub fn new(items: Vec<Vec<String>>) -> (r: App)
        ensures
            r.selected is None,
            r.items == items,
    {
        App { selected: None, items }
    }

    /// Move the selection a page (ten rows) down: an unset selection
    /// lands on the first row, and a page that would run past the end
    /// wraps to the first row. Never panics, whatever the table length.
    pub fn next(&mut self)
        ensures
            final(self).items == old(self).items,
            final(self).selected == match old(self).selected {
                Some(i) => {
                    if i + 10 < old(self).items@.len() {
                        Some((i + 10) as usize)
                    } else {
                        Some(0usize)
                    }
                },
                None => Some(0usize),
            },
    {
        let n = self.items.len();
        let i = match self.selected {
            Some(i) => {
                if i < n && n - i > 10 {
                    i + 10
                } else {
                    0
                }
            },
            None => 0,
        };
        self.selected = Some(i);
    }

    /// Move the selection one row up: an unset selection lands on the
    /// first row, and moving up from the first row wraps to the last.
    /// Never panics, even over an empty table.
    pub fn previous(&mut self)
        ensures
            final(self).items == old(self).items,
            final(self).selected == match old(self).selected {
                Some(i) => {
                    if i == 0 {
                        if old(self).items@.len() > 0 {
                            Some((old(self).items@.len() - 1) as usize)
                        } else {
                            Some(0usize)
                        }
                    } else {
                        Some((i - 1) as usize)
                    }
                },
                None => Some(0usize),
            },
    {
        let n = self.items.len();
        let i = match self.selected {
            Some(i) => {
                if i == 0 {
                    if n > 0 {
                        n - 1
                    } else {
                        0
                    }
                } else {
                    i - 1
                }
            },
            None => 0,
        };
        self.selected = Some(i);
    }
}

/// The text after the last `/` of a path — the short name a tab title
/// shows — or the whole text when it has no `/`. Always some text: a
/// path ending in `/` yields the empty string.
pub fn get_last_element_from_path(s: &str) -> (r: Option<&str>)
    ensures
        r is Some,
        match s@.index_of_last('/') {
            Some(p) => r.unwrap()@ == s@.subrange(p + 1, s@.len() as int),
            None => r.unwrap()@ == s@,
        },
{
    let n = s.unicode_len();
    let mut last: Option<usize> = None;
    let mut i: usize = 0;
    while i < n
        invariant
            i <= n,
            n == s@.len(),
            match last {
                Some(p) => p < i && s@[p as int] == '/' && (forall|j: int|
                    p < j < i ==> s@[j] != '/'),
                None => forall|j: int| 0 <= j < i ==> s@[j] != '/',
            },
        decreases n - i,
    {
        if s.get_char(i) == '/' {
            last = Some(i);
        }
        i += 1;
    }
    proof {
        s@.index_of_last_ensures('/');
        match last {
            Some(p) => {
                assert(s@.contains('/')) by {
                    assert(s@[p as int] == '/');
                }
                let w = s@.index_of_last('/').unwrap();
                assert(s@[w] == '/');
                assert(w == p);
            },
            None => {
                if s@.index_of_last('/') is Some {
                    let w = s@.index_of_last('/').unwrap();
                    assert(s@[w] == '/');
                }
            },
        }
    }
    match last {
        Some(p) => Some(s.substring_char(p + 1, n)),
        None => Some(s),
    }
}

} // verus!
