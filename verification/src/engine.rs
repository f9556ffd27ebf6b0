//! The filter/sort engine: given a record store and a view's settings, it
//! computes the ordered, filtered row index sequence for that view.
//!
//! Filtering keeps a row when the term is empty or some field contains the
//! term as a case-sensitive substring (only the targeted field when a
//! filter column is supplied). Sorting is stable on the chosen column:
//! when every filtered cell of that column is a decimal literal the keys
//! compare numerically, otherwise all keys compare lexicographically, and
//! rows with equal keys keep their original relative order. An
//! out-of-range sort column means no sort. The computation is a pure
//! function of its inputs, so recomputing never changes an answer.

use crate::numeric::{
    dec_le, dec_parse, is_decimal, lemma_dec_le_total, lemma_dec_le_trans, lemma_dec_parse_bounds,
    lemma_pow10_cap, dec_le_exec, parse_decimal,
};
use crate::store::RecordStore;
use crate::text::{
    contains_seq, contains_sub, lemma_lex_le_total, lemma_lex_le_trans, lex_le, str_lex_le,
};
use crate::types::SortOrder;
use vstd::prelude::*;

verus! {

/// A row matches `term` when the term is empty or some field of the row
/// contains it as a case-sensitive substring.
pub open spec fn row_matches(row: Seq<Seq<char>>, term: Seq<char>) -> bool {
    term.len() == 0 || exists|c: int| 0 <= c < row.len() && contains_seq(row[c], term)
}

/// With a target column in range only that field is tested; a target
/// beyond the row means no column targeting.
pub open spec fn row_matches_opt(row: Seq<Seq<char>>, term: Seq<char>, col: Option<usize>) -> bool {
    match col {
        Some(c) => {
            if (c as int) < row.len() {
                term.len() == 0 || contains_seq(row[c as int], term)
            } else {
                row_matches(row, term)
            }
        },
        None => row_matches(row, term),
    }
}

/// The matching row indices among the first `n` rows, in original order.
pub open spec fn filtered_prefix(
    rows: Seq<Seq<Seq<char>>>,
    term: Seq<char>,
    col: Option<usize>,
    n: int,
) -> Seq<usize>
    decreases n,
{
    if n <= 0 {
        Seq::empty()
    } else {
        let prev = filtered_prefix(rows, term, col, n - 1);
        if row_matches_opt(rows[n - 1], term, col) {
            prev.push((n - 1) as usize)
        } else {
            prev
        }
    }
}

/// The matching row indices of the whole store, in original order.
pub open spec fn filtered_indices(
    rows: Seq<Seq<Seq<char>>>,
    term: Seq<char>,
    col: Option<usize>,
) -> Seq<usize> {
    filtered_prefix(rows, term, col, rows.len() as int)
}

/// The filtered index sequence holds exactly the matching row indices,
/// each once, in increasing order.
pub proof fn lemma_filtered_prefix_props(
    rows: Seq<Seq<Seq<char>>>,
    term: Seq<char>,
    col: Option<usize>,
    n: int,
)
    requires
        0 <= n <= rows.len(),
        rows.len() <= usize::MAX,
    ensures
        forall|k: int|
            0 <= k < filtered_prefix(rows, term, col, n).len() ==> (
            #[trigger] filtered_prefix(rows, term, col, n)[k]) < n && row_matches_opt(
                rows[filtered_prefix(rows, term, col, n)[k] as int],
                term,
                col,
            ),
        forall|p: int, q: int|
            0 <= p < q < filtered_prefix(rows, term, col, n).len() ==> filtered_prefix(
                rows,
                term,
                col,
                n,
            )[p] < filtered_prefix(rows, term, col, n)[q],
        forall|i: usize|
            i < n && row_matches_opt(rows[i as int], term, col) ==> filtered_prefix(
                rows,
                term,
                col,
                n,
            ).contains(i),
    decreases n,
{
    if n > 0 {
        lemma_filtered_prefix_props(rows, term, col, n - 1);
        let prev = filtered_prefix(rows, term, col, n - 1);
        let cur = filtered_prefix(rows, term, col, n);
        assert forall|k: int|
            0 <= k < cur.len() implies cur[k] < n && row_matches_opt(
            rows[cur[k] as int],
            term,
            col,
        ) by {
            if k < prev.len() {
                assert(cur[k] == prev[k]);
            } else {
                assert(cur[k] == (n - 1) as usize);
            }
        }
        assert forall|p: int, q: int| 0 <= p < q < cur.len() implies cur[p] < cur[q] by {
            if q < prev.len() {
                assert(cur[p] == prev[p] && cur[q] == prev[q]);
            } else {
                assert(cur[q] == (n - 1) as usize);
                assert(cur[p] == prev[p]);
                assert(prev[p] < n - 1);
            }
        }
        assert forall|i: usize|
            i < n && row_matches_opt(rows[i as int], term, col) implies cur.contains(i) by {
            if i < n - 1 {
                assert(prev.contains(i));
                let k = choose|k: int| 0 <= k < prev.len() && prev[k] == i;
                assert(cur[k] == i);
            } else {
                assert(cur[cur.len() - 1] == i);
            }
        }
    }
}

/// Whether every filtered cell of column `c` is a decimal literal; when it
/// is, the sort compares numerically, otherwise lexicographically.
pub open spec fn all_numeric(rows: Seq<Seq<Seq<char>>>, idxs: Seq<usize>, c: int) -> bool {
    forall|k: int| 0 <= k < idxs.len() ==> is_decimal(#[trigger] rows[idxs[k] as int][c])
}

/// The sort key of row `i` is at most that of row `j` on column `c`:
/// numeric comparison of the decimal values when `num`, else lexicographic
/// comparison of the field text.
pub open spec fn key_le(rows: Seq<Seq<Seq<char>>>, c: int, num: bool, i: usize, j: usize) -> bool {
    if num {
        dec_le(dec_parse(rows[i as int][c]).unwrap(), dec_parse(rows[j as int][c]).unwrap())
    } else {
        lex_le(rows[i as int][c], rows[j as int][c])
    }
}

/// `key_le` with the sort direction applied: descending flips the order.
pub open spec fn dir_le(
    rows: Seq<Seq<Seq<char>>>,
    c: int,
    num: bool,
    ord: SortOrder,
    i: usize,
    j: usize,
) -> bool {
    match ord {
        SortOrder::Asc => key_le(rows, c, num, i, j),
        SortOrder::Dsc => key_le(rows, c, num, j, i),
    }
}

/// Row `i` must come before row `j` in the sorted result: a strictly
/// smaller key in sort direction, or equal keys and an earlier original
/// position — the stability tie-break.
pub open spec fn row_before(
    rows: Seq<Seq<Seq<char>>>,
    c: int,
    num: bool,
    ord: SortOrder,
    i: usize,
    j: usize,
) -> bool {
    !dir_le(rows, c, num, ord, j, i) || (dir_le(rows, c, num, ord, i, j) && dir_le(
        rows,
        c,
        num,
        ord,
        j,
        i,
    ) && i < j)
}

/// The key order compares any two valid rows one way or the other.
pub proof fn lemma_key_le_total(rows: Seq<Seq<Seq<char>>>, c: int, num: bool, i: usize, j: usize)
    requires
        num ==> is_decimal(rows[i as int][c]) && is_decimal(rows[j as int][c]),
    ensures
        key_le(rows, c, num, i, j) || key_le(rows, c, num, j, i),
{
    if num {
        lemma_dec_le_total(
            dec_parse(rows[i as int][c]).unwrap(),
            dec_parse(rows[j as int][c]).unwrap(),
        );
    } else {
        lemma_lex_le_total(rows[i as int][c], rows[j as int][c]);
    }
}

/// The key order is transitive over valid rows.
pub proof fn lemma_key_le_trans(
    rows: Seq<Seq<Seq<char>>>,
    c: int,
    num: bool,
    i: usize,
    j: usize,
    k: usize,
)
    requires
        key_le(rows, c, num, i, j),
        key_le(rows, c, num, j, k),
    ensures
        key_le(rows, c, num, i, k),
{
    if num {
        lemma_dec_le_trans(
            dec_parse(rows[i as int][c]).unwrap(),
            dec_parse(rows[j as int][c]).unwrap(),
            dec_parse(rows[k as int][c]).unwrap(),
        );
    } else {
        lemma_lex_le_trans(rows[i as int][c], rows[j as int][c], rows[k as int][c]);
    }
}

/// Whether one row of the store matches the term, with optional column
/// targeting.
pub fn row_match_exec(row: &Vec<String>, term: &str, col: Option<usize>) -> (b: bool)
    ensures
        b == row_matches_opt(row.deep_view(), term@, col),
{
    proof {
        assert(row.deep_view().len() == row@.len());
        assert(forall|c: int| 0 <= c < row@.len() ==> row.deep_view()[c] == #[trigger] row@[c]@);
    }
    if term.is_empty() {
        return true;
    }
    if let Some(c) = col {
        if c < row.len() {
            return contains_sub(row[c].as_str(), term);
        }
    }
    let mut c: usize = 0;
    while c < row.len()
        invariant
            c <= row@.len(),
            term@.len() > 0,
            row.deep_view().len() == row@.len(),
            col is Some ==> col.unwrap() >= row@.len(),
            forall|k: int| 0 <= k < row@.len() ==> row.deep_view()[k] == #[trigger] row@[k]@,
            forall|k: int| 0 <= k < c ==> !contains_seq(row.deep_view()[k], term@),
        decreases row@.len() - c,
    {
        if contains_sub(row[c].as_str(), term) {
            return true;
        }
        c += 1;
    }
    false
}

/// The matching row indices of `store`, in original order.
fn filter_rows(store: &RecordStore, term: &str, col: Option<usize>) -> (r: Vec<usize>)
    ensures
        r@ == filtered_indices(store.rows_view(), term@, col),
{
    let rows_n = store.len();
    let mut out: Vec<usize> = Vec::new();
    let mut k: usize = 0;
    while k < rows_n
        invariant
            k <= rows_n,
            rows_n == store.rows@.len(),
            store.rows_view().len() == store.rows@.len(),
            out@ == filtered_prefix(store.rows_view(), term@, col, k as int),
        decreases rows_n - k,
    {
        proof {
            assert(store.rows_view()[k as int] == store.rows@[k as int].deep_view());
        }
        if row_match_exec(&store.rows[k], term, col) {
            out.push(k);
        }
        k += 1;
    }
    out
}

/// Whether the sort keys of all the given rows are decimal literals.
fn all_numeric_exec(store: &RecordStore, c: usize, idxs: &Vec<usize>) -> (num: bool)
    requires
        store.wf(),
        c < store.header@.len(),
        forall|k: int| 0 <= k < idxs@.len() ==> (#[trigger] idxs@[k]) < store.rows@.len(),
    ensures
        num == all_numeric(store.rows_view(), idxs@, c as int),
{
    let mut num = true;
    let mut k: usize = 0;
    while k < idxs.len()
        invariant
            k <= idxs@.len(),
            store.wf(),
            c < store.header@.len(),
            forall|t: int| 0 <= t < idxs@.len() ==> (#[trigger] idxs@[t]) < store.rows@.len(),
            num == all_numeric(store.rows_view(), idxs@.take(k as int), c as int),
        decreases idxs@.len() - k,
    {
        let i = idxs[k];
        proof {
            assert(store.rows_view()[i as int] == store.rows@[i as int].deep_view());
            assert(store.rows_view()[i as int][c as int] == store.rows@[i as int]@[c as int]@);
        }
        let d = parse_decimal(store.rows[i][c].as_str());
        let here = d.is_some();
        proof {
            assert(here == is_decimal(store.rows_view()[i as int][c as int]));
            assert(idxs@.take(k + 1) =~= idxs@.take(k as int).push(i));
            if !(num && here) {
                if !num {
                    let w = choose|w: int|
                        0 <= w < k && !is_decimal(
                            #[trigger] store.rows_view()[idxs@.take(k as int)[w] as int][c as int],
                        );
                    assert(!is_decimal(store.rows_view()[idxs@.take(k + 1)[w] as int][c as int]));
                } else {
                    assert(!is_decimal(store.rows_view()[idxs@.take(k + 1)[k as int] as int][c as int]));
                }
            }
        }
        num = num && here;
        k += 1;
    }
    proof {
        assert(idxs@.take(idxs@.len() as int) =~= idxs@);
    }
    num
}

/// `key_le` decided at run time.
fn key_le_exec(store: &RecordStore, c: usize, num: bool, i: usize, j: usize) -> (r: bool)
    requires
        store.wf(),
        c < store.header@.len(),
        i < store.rows@.len(),
        j < store.rows@.len(),
        num ==> is_decimal(store.rows_view()[i as int][c as int]) && is_decimal(
            store.rows_view()[j as int][c as int],
        ),
    ensures
        r == key_le(store.rows_view(), c as int, num, i, j),
{
    proof {
        assert(store.rows_view()[i as int][c as int] == store.rows@[i as int]@[c as int]@);
        assert(store.rows_view()[j as int][c as int] == store.rows@[j as int]@[c as int]@);
    }
    if num {
        let da = parse_decimal(store.rows[i][c].as_str()).unwrap();
        let db = parse_decimal(store.rows[j][c].as_str()).unwrap();
        proof {
            lemma_dec_parse_bounds(store.rows_view()[i as int][c as int]);
            lemma_dec_parse_bounds(store.rows_view()[j as int][c as int]);
            lemma_pow10_cap();
        }
        dec_le_exec(da, db)
    } else {
        str_lex_le(store.rows[i][c].as_str(), store.rows[j][c].as_str())
    }
}

/// `dir_le` decided at run time.
fn dir_le_exec(store: &RecordStore, c: usize, num: bool, ord: SortOrder, i: usize, j: usize) -> (r:
    bool)
    requires
        store.wf(),
        c < store.header@.len(),
        i < store.rows@.len(),
        j < store.rows@.len(),
        num ==> is_decimal(store.rows_view()[i as int][c as int]) && is_decimal(
            store.rows_view()[j as int][c as int],
        ),
    ensures
        r == dir_le(store.rows_view(), c as int, num, ord, i, j),
{
    match ord {
        SortOrder::Asc => key_le_exec(store, c, num, i, j),
        SortOrder::Dsc => key_le_exec(store, c, num, j, i),
    }
}

/// Stable insertion sort of row indices by the column-`c` key: the result
/// holds the same indices, pairwise ordered by `row_before`, so equal keys
/// keep their original relative order.
fn sort_indices(store: &RecordStore, c: usize, num: bool, ord: SortOrder, input: &Vec<usize>) -> (r:
    Vec<usize>)
    requires
        store.wf(),
        c < store.header@.len(),
        forall|k: int| 0 <= k < input@.len() ==> (#[trigger] input@[k]) < store.rows@.len(),
        forall|p: int, q: int| 0 <= p < q < input@.len() ==> input@[p] < input@[q],
        num ==> all_numeric(store.rows_view(), input@, c as int),
    ensures
        r@.to_multiset() == input@.to_multiset(),
        r@.len() == input@.len(),
        forall|p: int, q: int|
            0 <= p < q < r@.len() ==> row_before(
                store.rows_view(),
                c as int,
                num,
                ord,
                r@[p],
                r@[q],
            ),
        forall|k: int| 0 <= k < r@.len() ==> (#[trigger] r@[k]) < store.rows@.len(),
    decreases input@.len(),
{
    broadcast use vstd::seq_lib::group_to_multiset_ensures;

    let ghost rows = store.rows_view();
    let mut out: Vec<usize> = Vec::new();
    let mut k: usize = 0;
    while k < input.len()
        invariant
            k <= input@.len(),
            store.wf(),
            c < store.header@.len(),
            rows == store.rows_view(),
            forall|t: int| 0 <= t < input@.len() ==> (#[trigger] input@[t]) < store.rows@.len(),
            forall|p: int, q: int| 0 <= p < q < input@.len() ==> input@[p] < input@[q],
            num ==> all_numeric(rows, input@, c as int),
            out@.to_multiset() == input@.take(k as int).to_multiset(),
            out@.len() == k,
            forall|t: int| 0 <= t < out@.len() ==> (#[trigger] out@[t]) < store.rows@.len(),
            forall|t: int|
                0 <= t < out@.len() ==> (num ==> is_decimal(
                    #[trigger] rows[out@[t] as int][c as int],
                )),
            k < input@.len() ==> forall|t: int| 0 <= t < out@.len() ==> out@[t] < input@[k as int],
            forall|p: int, q: int|
                0 <= p < q < out@.len() ==> row_before(rows, c as int, num, ord, out@[p], out@[q]),
        decreases input@.len() - k,
    {
        let item = input[k];
        proof {
            assert(num ==> is_decimal(rows[input@[k as int] as int][c as int]));
        }
        let p = find_pos(store, c, num, ord, &out, item);
        let ghost old_out = out@;
        out.insert(p, item);
        proof {
            assert(out@ == old_out.insert(p as int, item));
            assert(input@.take(k + 1) =~= input@.take(k as int).push(item));
            vstd::seq_lib::to_multiset_insert(old_out, p as int, item);
            vstd::seq_lib::to_multiset_build(input@.take(k as int), item);
            assert(out@.to_multiset() == input@.take(k + 1).to_multiset());
            assert forall|x: int, y: int|
                0 <= x < y < out@.len() implies row_before(
                rows,
                c as int,
                num,
                ord,
                out@[x],
                out@[y],
            ) by {
                lemma_insert_keeps_order(rows, c, num, ord, old_out, p as int, item, x, y);
            }
        }
        k += 1;
    }
    proof {
        assert(input@.take(input@.len() as int) =~= input@);
    }
    out
}

/// The first position in `out` whose key strictly exceeds that of `item`
/// in sort direction; `out.len()` when there is none.
fn find_pos(store: &RecordStore, c: usize, num: bool, ord: SortOrder, out: &Vec<usize>, item: usize) -> (p: usize)
    requires
        store.wf(),
        c < store.header@.len(),
        item < store.rows@.len(),
        num ==> is_decimal(store.rows_view()[item as int][c as int]),
        forall|t: int| 0 <= t < out@.len() ==> (#[trigger] out@[t]) < store.rows@.len(),
        forall|t: int|
            0 <= t < out@.len() ==> (num ==> is_decimal(
                #[trigger] store.rows_view()[out@[t] as int][c as int],
            )),
    ensures
        p <= out@.len(),
        forall|q: int| 0 <= q < p ==> dir_le(store.rows_view(), c as int, num, ord, out@[q], item),
        p < out@.len() ==> !dir_le(store.rows_view(), c as int, num, ord, out@[p as int], item),
{
    let mut p: usize = 0;
    while p < out.len()
        invariant
            p <= out@.len(),
            store.wf(),
            c < store.header@.len(),
            item < store.rows@.len(),
            num ==> is_decimal(store.rows_view()[item as int][c as int]),
            forall|t: int| 0 <= t < out@.len() ==> (#[trigger] out@[t]) < store.rows@.len(),
            forall|t: int|
                0 <= t < out@.len() ==> (num ==> is_decimal(
                    #[trigger] store.rows_view()[out@[t] as int][c as int],
                )),
            forall|q: int|
                0 <= q < p ==> dir_le(store.rows_view(), c as int, num, ord, out@[q], item),
        decreases out@.len() - p,
    {
        if !dir_le_exec(store, c, num, ord, out[p], item) {
            return p;
        }
        p += 1;
    }
    p
}

/// Inserting `item` at the first position whose key exceeds it preserves
/// pairwise `row_before` order, given the facts the sort loop maintains.
proof fn lemma_insert_keeps_order(
    rows: Seq<Seq<Seq<char>>>,
    c: usize,
    num: bool,
    ord: SortOrder,
    old_out: Seq<usize>,
    p: int,
    item: usize,
    x: int,
    y: int,
)
    requires
        0 <= p <= old_out.len(),
        forall|a: int, b: int|
            0 <= a < b < old_out.len() ==> row_before(rows, c as int, num, ord, old_out[a], old_out[b]),
        forall|q: int| 0 <= q < p ==> dir_le(rows, c as int, num, ord, old_out[q], item),
        p < old_out.len() ==> !dir_le(rows, c as int, num, ord, old_out[p], item),
        forall|t: int| 0 <= t < old_out.len() ==> old_out[t] < item,
        num ==> is_decimal(rows[item as int][c as int]),
        forall|t: int|
            0 <= t < old_out.len() ==> (num ==> is_decimal(
                #[trigger] rows[old_out[t] as int][c as int],
            )),
        0 <= x < y < old_out.insert(p, item).len(),
    ensures
        row_before(rows, c as int, num, ord, old_out.insert(p, item)[x], old_out.insert(p, item)[y]),
{
    let cur = old_out.insert(p, item);
    if x == p {
        // item against a later element of the old sequence
        let oj = cur[y];
        assert(oj == old_out[y - 1]);
        let op = old_out[p];
        // old_out[p] comes no later than old_out[y-1]
        if y - 1 > p {
            assert(row_before(rows, c as int, num, ord, op, oj));
        }
        if dir_le(rows, c as int, num, ord, oj, item) {
            if y - 1 == p {
                assert(false);
            } else {
                assert(dir_le(rows, c as int, num, ord, op, oj) || !dir_le(
                    rows,
                    c as int,
                    num,
                    ord,
                    oj,
                    op,
                ));
                match ord {
                    SortOrder::Asc => {
                        lemma_key_le_total(rows, c as int, num, op, oj);
                        lemma_key_le_trans(rows, c as int, num, op, oj, item);
                    },
                    SortOrder::Dsc => {
                        lemma_key_le_total(rows, c as int, num, oj, op);
                        lemma_key_le_trans(rows, c as int, num, item, oj, op);
                    },
                }
                assert(false);
            }
        }
        assert(!dir_le(rows, c as int, num, ord, oj, item));
    } else if y == p {
        // an earlier old element against item: it is no greater, and its
        // original position is smaller, so it comes before item either way
        let ox = cur[x];
        assert(ox == old_out[x]);
        assert(dir_le(rows, c as int, num, ord, ox, item));
        if dir_le(rows, c as int, num, ord, item, ox) {
            assert(ox < item);
        }
        assert(row_before(rows, c as int, num, ord, ox, item));
    } else {
        let ox: int = if x < p {
            x
        } else {
            x - 1
        };
        let oy: int = if y < p {
            y
        } else {
            y - 1
        };
        assert(cur[x] == old_out[ox]);
        assert(cur[y] == old_out[oy]);
        assert(row_before(rows, c as int, num, ord, old_out[ox], old_out[oy]));
    }
}

/// The full contract of `compute`: the result holds exactly the filtered
/// row indices; with a sort column in range they are pairwise ordered by
/// `row_before` (numeric keys when every filtered cell parses as decimal,
/// else lexicographic, direction applied, ties by original position);
/// with no sort, or one out of range, they stand in original order.
pub open spec fn compute_post(
    rows: Seq<Seq<Seq<char>>>,
    width: int,
    term: Seq<char>,
    col: Option<usize>,
    sort: Option<(usize, SortOrder)>,
    r: Seq<usize>,
) -> bool {
    let base = filtered_indices(rows, term, col);
    &&& (forall|k: int| 0 <= k < r.len() ==> (#[trigger] r[k]) < rows.len())
    &&& match sort {
        Some((c, ord)) => {
            if (c as int) < width {
                let num = all_numeric(rows, base, c as int);
                &&& r.to_multiset() == base.to_multiset()
                &&& r.len() == base.len()
                &&& forall|p: int, q: int|
                    0 <= p < q < r.len() ==> row_before(rows, c as int, num, ord, r[p], r[q])
            } else {
                r == base
            }
        },
        None => r == base,
    }
}

/// Compute the ordered, filtered row index sequence for one view, with an
/// optional filter target column.
pub fn compute_with_column(
    store: &RecordStore,
    filter_term: &str,
    filter_col: Option<usize>,
    sort: Option<(usize, SortOrder)>,
) -> (r: Vec<usize>)
    requires
        store.wf(),
    ensures
        compute_post(
            store.rows_view(),
            store.header@.len() as int,
            filter_term@,
            filter_col,
            sort,
            r@,
        ),
{
    let n = store.len();
    let base = filter_rows(store, filter_term, filter_col);
    proof {
        assert(store.rows_view().len() == store.rows@.len());
        lemma_filtered_prefix_props(store.rows_view(), filter_term@, filter_col, n as int);
    }
    match sort {
        None => base,
        Some((c, ord)) => {
            if c >= store.width() {
                base
            } else {
                let num = all_numeric_exec(store, c, &base);
                sort_indices(store, c, num, ord, &base)
            }
        },
    }
}

/// Compute the ordered, filtered row index sequence for one view: the
/// engine's entry point, a pure function of the store, the filter term
/// and the sort choice.
pub fn compute(store: &RecordStore, filter_term: &str, sort: Option<(usize, SortOrder)>) -> (r:
    Vec<usize>)
    requires
        store.wf(),
    ensures
        compute_post(
            store.rows_view(),
            store.header@.len() as int,
            filter_term@,
            None,
            sort,
            r@,
        ),
{
    compute_with_column(store, filter_term, None, sort)
}

/// With an empty filter term every row matches, so the filtered sequence
/// is every row index in original order. Together with `compute`'s
/// contract for an absent sort this pins `compute(store, "", None)` to the
/// identity: every call returns all rows in original order.
pub proof fn lemma_compute_empty_identity(rows: Seq<Seq<Seq<char>>>, col: Option<usize>)
    requires
        rows.len() <= usize::MAX,
    ensures
        filtered_indices(rows, Seq::<char>::empty(), col) == Seq::new(
            rows.len(),
            |i: int| i as usize,
        ),
{
    lemma_empty_identity_prefix(rows, col, rows.len() as int);
}

proof fn lemma_empty_identity_prefix(rows: Seq<Seq<Seq<char>>>, col: Option<usize>, n: int)
    requires
        0 <= n <= rows.len(),
        rows.len() <= usize::MAX,
    ensures
        filtered_prefix(rows, Seq::<char>::empty(), col, n) == Seq::new(n as nat, |i: int| i as usize),
    decreases n,
{
    if n > 0 {
        lemma_empty_identity_prefix(rows, col, n - 1);
        assert(row_matches_opt(rows[n - 1], Seq::<char>::empty(), col));
        assert(Seq::new(n as nat, |i: int| i as usize) =~= Seq::new(
            (n - 1) as nat,
            |i: int| i as usize,
        ).push((n - 1) as usize));
    } else {
        assert(Seq::new(0, |i: int| i as usize) =~= Seq::<usize>::empty());
    }
}

/// Filter correctness: an index is in the filtered sequence exactly when
/// it names a row that matches the term, and the sequence is strictly
/// increasing, so unfiltered relative order is preserved.
pub proof fn lemma_filter_correct(rows: Seq<Seq<Seq<char>>>, term: Seq<char>, col: Option<usize>)
    requires
        rows.len() <= usize::MAX,
    ensures
        forall|i: usize|
            #[trigger] filtered_indices(rows, term, col).contains(i) ==> i < rows.len()
                && row_matches_opt(rows[i as int], term, col),
        forall|i: usize|
            i < rows.len() && row_matches_opt(rows[i as int], term, col)
                ==> filtered_indices(rows, term, col).contains(i),
        forall|p: int, q: int|
            0 <= p < q < filtered_indices(rows, term, col).len() ==> filtered_indices(
                rows,
                term,
                col,
            )[p] < filtered_indices(rows, term, col)[q],
{
    let f = filtered_indices(rows, term, col);
    lemma_filtered_prefix_props(rows, term, col, rows.len() as int);
    assert forall|i: usize|
        #[trigger] f.contains(i) implies i < rows.len() && row_matches_opt(
        rows[i as int],
        term,
        col,
    ) by {
        let k = choose|k: int| 0 <= k < f.len() && f[k] == i;
        assert(f[k] < rows.len() && row_matches_opt(rows[f[k] as int], term, col));
    }
}

/// Filter correctness over a computed result, sorted or not: an index is
/// in the result exactly when it names a row of the store that matches
/// the term.
pub proof fn lemma_computed_membership(
    rows: Seq<Seq<Seq<char>>>,
    width: int,
    term: Seq<char>,
    col: Option<usize>,
    sort: Option<(usize, SortOrder)>,
    r: Seq<usize>,
)
    requires
        compute_post(rows, width, term, col, sort, r),
        rows.len() <= usize::MAX,
    ensures
        forall|i: usize|
            #[trigger] r.contains(i) <==> (i < rows.len() && row_matches_opt(
                rows[i as int],
                term,
                col,
            )),
{
    broadcast use vstd::seq_lib::group_to_multiset_ensures;

    let base = filtered_indices(rows, term, col);
    lemma_filter_correct(rows, term, col);
    match sort {
        Some((c, ord)) => {
            if (c as int) >= width {
                assert(r == base);
            }
        },
        None => {
            assert(r == base);
        },
    }
    assert(r.to_multiset() == base.to_multiset());
    assert forall|i: usize|
        #[trigger] r.contains(i) == (i < rows.len() && row_matches_opt(
            rows[i as int],
            term,
            col,
        )) by {
        if r.contains(i) {
            assert(r.to_multiset().count(i) > 0);
            assert(filtered_indices(rows, term, col).contains(i));
        }
        if i < rows.len() && row_matches_opt(rows[i as int], term, col) {
            assert(filtered_indices(rows, term, col).contains(i));
            assert(base.to_multiset().count(i) > 0);
            assert(r.contains(i));
        }
    }
}

/// Idempotent identity: any result that meets the contract for an empty
/// term, no column targeting and no sort is every row index in original
/// order — so every such call returns the same value, however often it
/// is repeated.
pub proof fn lemma_computed_identity(rows: Seq<Seq<Seq<char>>>, width: int, r: Seq<usize>)
    requires
        compute_post(rows, width, Seq::<char>::empty(), None, None, r),
        rows.len() <= usize::MAX,
    ensures
        r == Seq::new(rows.len(), |i: int| i as usize),
{
    lemma_compute_empty_identity(rows, None);
}

/// Sortedness: in a computed result with a sort column in range, the keys
/// of any two positions stand in sort order.
pub proof fn lemma_computed_sorted(
    rows: Seq<Seq<Seq<char>>>,
    width: int,
    term: Seq<char>,
    col: Option<usize>,
    c: usize,
    ord: SortOrder,
    r: Seq<usize>,
    p: int,
    q: int,
)
    requires
        compute_post(rows, width, term, col, Some((c, ord)), r),
        (c as int) < width,
        rows.len() <= usize::MAX,
        0 <= p < q < r.len(),
    ensures
        dir_le(
            rows,
            c as int,
            all_numeric(rows, filtered_indices(rows, term, col), c as int),
            ord,
            r[p],
            r[q],
        ),
{
    broadcast use vstd::seq_lib::group_to_multiset_ensures;

    let base = filtered_indices(rows, term, col);
    let num = all_numeric(rows, base, c as int);
    assert(row_before(rows, c as int, num, ord, r[p], r[q]));
    if !(dir_le(rows, c as int, num, ord, r[p], r[q]) && dir_le(rows, c as int, num, ord, r[q], r[p])) {
        assert(!dir_le(rows, c as int, num, ord, r[q], r[p]));
        if num {
            assert(r.contains(r[p]));
            assert(r.contains(r[q]));
            assert(r.to_multiset().count(r[p]) > 0);
            assert(r.to_multiset().count(r[q]) > 0);
            assert(base.contains(r[p]));
            assert(base.contains(r[q]));
            let kp = choose|k: int| 0 <= k < base.len() && base[k] == r[p];
            let kq = choose|k: int| 0 <= k < base.len() && base[k] == r[q];
            assert(is_decimal(rows[base[kp] as int][c as int]));
            assert(is_decimal(rows[base[kq] as int][c as int]));
        }
        lemma_key_le_total(rows, c as int, num, r[p], r[q]);
    }
}

/// Sort stability over a computed result: two positions whose sort keys
/// compare equal hold row indices in their original relative order — what
/// a stable sort promises of ties.
pub proof fn lemma_computed_stability(
    rows: Seq<Seq<Seq<char>>>,
    width: int,
    term: Seq<char>,
    col: Option<usize>,
    c: usize,
    ord: SortOrder,
    r: Seq<usize>,
    p: int,
    q: int,
)
    requires
        compute_post(rows, width, term, col, Some((c, ord)), r),
        (c as int) < width,
        0 <= p < q < r.len(),
        dir_le(
            rows,
            c as int,
            all_numeric(rows, filtered_indices(rows, term, col), c as int),
            ord,
            r[p],
            r[q],
        ),
        dir_le(
            rows,
            c as int,
            all_numeric(rows, filtered_indices(rows, term, col), c as int),
            ord,
            r[q],
            r[p],
        ),
    ensures
        r[p] < r[q],
{
    let num = all_numeric(rows, filtered_indices(rows, term, col), c as int);
    assert(row_before(rows, c as int, num, ord, r[p], r[q]));
}

/// Sort stability: in a result pairwise ordered by `row_before`, two rows
/// with equal sort keys stand in their original relative order.
pub proof fn lemma_sort_stable(
    rows: Seq<Seq<Seq<char>>>,
    c: int,
    num: bool,
    ord: SortOrder,
    r: Seq<usize>,
    p: int,
    q: int,
)
    requires
        forall|x: int, y: int|
            0 <= x < y < r.len() ==> row_before(rows, c, num, ord, r[x], r[y]),
        0 <= p < q < r.len(),
        dir_le(rows, c, num, ord, r[p], r[q]),
        dir_le(rows, c, num, ord, r[q], r[p]),
    ensures
        r[p] < r[q],
{
    assert(row_before(rows, c, num, ord, r[p], r[q]));
}

} // verus!
