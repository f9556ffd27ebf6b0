//! The windowed access adapter: translate a renderer's visible row range
//! into a bounded slice of the currently applicable row sequence, with
//! overscan, always clipped to the current length — so a virtualized
//! table never materializes more than a bounded window, and a row source
//! that shrank between calls is tolerated. The match-highlight side
//! channel lives here too, a pure computation over the returned text.

use crate::store::RecordStore;
use crate::text::{contains_at, contains_seq, find_sub};
use vstd::prelude::*;
use vstd::string::StrSliceExecFns;

verus! {

/// Lower edge of the clipped window: `start - overscan`, not below zero
/// and not past the upper edge.
pub open spec fn win_lo(len: int, start: int, end: int, overscan: int) -> int {
    let lo = if start >= overscan {
        start - overscan
    } else {
        0
    };
    if lo <= win_hi(len, end, overscan) {
        lo
    } else {
        win_hi(len, end, overscan)
    }
}

/// Upper edge of the clipped window: `end + overscan`, at most `len`.
pub open spec fn win_hi(len: int, end: int, overscan: int) -> int {
    if end + overscan <= len {
        end + overscan
    } else {
        len
    }
}

/// Clip the visible range `[start, end)` widened by `overscan` to the
/// current length. Total: any range, even one from before the row source
/// shrank, is clipped rather than trusted.
pub fn clip_window(len: usize, start: usize, end: usize, overscan: usize) -> (r: (usize, usize))
    ensures
        r.0 as int == win_lo(len as int, start as int, end as int, overscan as int),
        r.1 as int == win_hi(len as int, end as int, overscan as int),
        r.0 <= r.1 <= len,
{
    let hi = if end <= usize::MAX - overscan && end + overscan <= len {
        end + overscan
    } else {
        len
    };
    let lo0 = if start >= overscan {
        start - overscan
    } else {
        0
    };
    let lo = if lo0 <= hi {
        lo0
    } else {
        hi
    };
    (lo, hi)
}

/// The window always stays inside `[0, len)` and, when the overscan has
/// room on the side it is clipped on, holds at least
/// `min(len, end - start + 2 * overscan)` rows.
pub proof fn lemma_window_bounds(len: int, start: int, end: int, overscan: int)
    requires
        0 <= overscan,
        0 <= start <= end <= len,
        start >= overscan || end + overscan >= len,
        start <= overscan || end + overscan <= len,
    ensures
        0 <= win_lo(len, start, end, overscan),
        win_hi(len, end, overscan) <= len,
        win_hi(len, end, overscan) - win_lo(len, start, end, overscan) >= if len <= end - start + 2
            * overscan {
            len
        } else {
            end - start + 2 * overscan
        },
{
}

/// Materialize the window `[lo, hi)` of the given row index sequence as
/// rows of the store: the slice a virtualized renderer consumes.
pub fn visible_slice(
    store: &RecordStore,
    indices: &Vec<usize>,
    start: usize,
    end: usize,
    overscan: usize,
) -> (r: Vec<Vec<String>>)
    requires
        store.wf(),
        forall|k: int| 0 <= k < indices@.len() ==> (#[trigger] indices@[k]) < store.rows@.len(),
    ensures
        r@.len() == win_hi(indices@.len() as int, end as int, overscan as int) - win_lo(
            indices@.len() as int,
            start as int,
            end as int,
            overscan as int,
        ),
        forall|t: int|
            0 <= t < r@.len() ==> (#[trigger] r@[t]).deep_view() == store.rows_view()[indices@[win_lo(
                indices@.len() as int,
                start as int,
                end as int,
                overscan as int,
            ) + t] as int],
{
    let (lo, hi) = clip_window(indices.len(), start, end, overscan);
    let mut out: Vec<Vec<String>> = Vec::new();
    let mut t: usize = lo;
    while t < hi
        invariant
            lo <= t <= hi,
            hi <= indices@.len(),
            store.wf(),
            forall|k: int| 0 <= k < indices@.len() ==> (#[trigger] indices@[k]) < store.rows@.len(),
            out@.len() == t - lo,
            forall|u: int|
                0 <= u < out@.len() ==> (#[trigger] out@[u]).deep_view() == store.rows_view()[indices@[lo
                    + u] as int],
        decreases hi - t,
    {
        let i = indices[t];
        let row = crate::store::clone_row(&store.rows[i]);
        proof {
            assert(store.rows_view()[i as int] == store.rows@[i as int].deep_view());
        }
        out.push(row);
        t += 1;
    }
    out
}

/// The first occurrence of a non-empty filter term in one field, as a
/// character span `(position, length)` for the highlighter; `None` when
/// the field does not contain the term.
pub fn match_span(field: &str, term: &str) -> (r: Option<(usize, usize)>)
    ensures
        match r {
            Some(span) => span.1 == term@.len() && contains_at(field@, term@, span.0 as int) && (
            forall|j: int| 0 <= j < span.0 ==> !contains_at(field@, term@, j)),
            None => !contains_seq(field@, term@),
        },
{
    match find_sub(field, term) {
        Some(k) => Some((k, term.unicode_len())),
        None => None,
    }
}

} // verus!
