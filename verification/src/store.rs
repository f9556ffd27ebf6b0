//! The record store: the immutable master dataset of one loaded
//! delimited-text source, and its ingestion from raw bytes.
//!
//! The first record of the source becomes the header; every later record
//! becomes a row. A row whose field count differs from the header's is
//! dropped during ingestion, never repaired, and the count of dropped rows
//! is reported to the caller.

use crate::types::{FileHeader, IoError};
use vstd::prelude::*;

verus! {

/// The master rows and header of one dataset. Owned by the registry under
/// a dataset identifier and never mutated after ingestion: reloading an
/// identifier replaces the store wholesale.
pub struct RecordStore {
    pub header: Vec<FileHeader>,
    pub rows: Vec<Vec<String>>,
}

impl RecordStore {
    /// Every row has exactly one field per header column.
    pub open spec fn wf(&self) -> bool {
        forall|r: int|
            0 <= r < self.rows@.len() ==> #[trigger] self.rows@[r]@.len() == self.header@.len()
    }

    /// The rows as sequences of character sequences.
    pub open spec fn rows_view(&self) -> Seq<Seq<Seq<char>>> {
        self.rows.deep_view()
    }

    /// Number of rows.
    pub fn len(&self) -> (n: usize)
        ensures
            n == self.rows@.len(),
    {
        self.rows.len()
    }

    /// Number of columns.
    pub fn width(&self) -> (n: usize)
        ensures
            n == self.header@.len(),
    {
        self.header.len()
    }
}

/// The first `n` raw rows that ingestion keeps: those with exactly `width`
/// fields, in their original order.
pub open spec fn kept_prefix(raw: Seq<Seq<Seq<char>>>, width: nat, n: int) -> Seq<Seq<Seq<char>>>
    decreases n,
{
    if n <= 0 {
        Seq::empty()
    } else {
        let prev = kept_prefix(raw, width, n - 1);
        if raw[n - 1].len() == width {
            prev.push(raw[n - 1])
        } else {
            prev
        }
    }
}

/// The raw rows that ingestion keeps.
pub open spec fn kept(raw: Seq<Seq<Seq<char>>>, width: nat) -> Seq<Seq<Seq<char>>> {
    kept_prefix(raw, width, raw.len() as int)
}

/// Ingestion keeps at most as many rows as it was given.
pub proof fn lemma_kept_prefix_len(raw: Seq<Seq<Seq<char>>>, width: nat, n: int)
    requires
        0 <= n <= raw.len(),
    ensures
        kept_prefix(raw, width, n).len() <= n,
    decreases n,
{
    if n > 0 {
        lemma_kept_prefix_len(raw, width, n - 1);
    }
}

/// A copy of one row whose field contents are known to match the original.
pub(crate) fn clone_row(row: &Vec<String>) -> (r: Vec<String>)
    ensures
        r.deep_view() == row.deep_view(),
{
    let mut out: Vec<String> = Vec::new();
    let mut i: usize = 0;
    while i < row.len()
        invariant
            i <= row@.len(),
            out@.len() == i,
            forall|k: int| 0 <= k < i ==> out@[k]@ == row@[k]@,
        decreases row@.len() - i,
    {
        out.push(row[i].clone());
        i += 1;
    }
    proof {
        assert(out.deep_view() =~= row.deep_view());
    }
    out
}

/// Build a record store from parsed header names and raw rows: columns
/// start visible and unsorted; rows whose field count differs from the
/// header's are dropped. Returns the store and the dropped-row count.
pub fn ingest(names: &Vec<String>, raw: &Vec<Vec<String>>) -> (r: (RecordStore, usize))
    ensures
        r.0.wf(),
        r.0.header@.len() == names@.len(),
        forall|c: int|
            0 <= c < names@.len() ==> (#[trigger] r.0.header@[c]).name@ == names@[c]@
                && r.0.header@[c].visible && r.0.header@[c].sort is None,
        r.0.rows_view() == kept(raw.deep_view(), names@.len() as nat),
        r.1 + kept(raw.deep_view(), names@.len() as nat).len() == raw@.len(),
{
    let mut header: Vec<FileHeader> = Vec::new();
    let mut i: usize = 0;
    while i < names.len()
        invariant
            i <= names@.len(),
            header@.len() == i,
            forall|c: int|
                0 <= c < i ==> (#[trigger] header@[c]).name@ == names@[c]@ && header@[c].visible
                    && header@[c].sort is None,
        decreases names@.len() - i,
    {
        header.push(FileHeader::new(names[i].clone()));
        i += 1;
    }
    let width = header.len();
    let mut rows: Vec<Vec<String>> = Vec::new();
    let mut dropped: usize = 0;
    let mut k: usize = 0;
    while k < raw.len()
        invariant
            k <= raw@.len(),
            width == names@.len(),
            rows.deep_view() == kept_prefix(raw.deep_view(), width as nat, k as int),
            rows@.len() + dropped == k,
            forall|r: int| 0 <= r < rows@.len() ==> #[trigger] rows@[r]@.len() == width,
        decreases raw@.len() - k,
    {
        proof {
            assert(raw.deep_view()[k as int] == raw@[k as int].deep_view());
            assert(raw@[k as int].deep_view().len() == raw@[k as int]@.len());
        }
        if raw[k].len() == width {
            let row = clone_row(&raw[k]);
            rows.push(row);
            proof {
                assert(rows.deep_view() =~= kept_prefix(
                    raw.deep_view(),
                    width as nat,
                    k + 1,
                ));
            }
        } else {
            dropped += 1;
            proof {
                assert(rows.deep_view() =~= kept_prefix(
                    raw.deep_view(),
                    width as nat,
                    k + 1,
                ));
            }
        }
        k += 1;
    }
    proof {
        lemma_kept_prefix_len(raw.deep_view(), width as nat, raw@.len() as int);
    }
    let store = RecordStore { header, rows };
    (store, dropped)
}

/// A copy of a row index sequence.
pub(crate) fn copy_indices(v: &Vec<usize>) -> (r: Vec<usize>)
    ensures
        r@ == v@,
{
    let mut out: Vec<usize> = Vec::new();
    let mut i: usize = 0;
    while i < v.len()
        invariant
            i <= v@.len(),
            out@ == v@.take(i as int),
        decreases v@.len() - i,
    {
        out.push(v[i]);
        proof {
            assert(v@.take(i + 1) =~= v@.take(i as int).push(v@[i as int]));
        }
        i += 1;
    }
    proof {
        assert(v@.take(v@.len() as int) =~= v@);
    }
    out
}

/// What the csv crate's parser yields on the bytes of one delimited-text
/// source: the header record and the data records, or no value when it
/// rejects the bytes. Parsing an in-memory byte slice is a function of the
/// bytes alone.
pub uninterp spec fn csv_parse_of(bytes: Seq<u8>) -> Option<(Seq<Seq<char>>, Seq<Seq<Seq<char>>>)>;

/// Relies on csv::ReaderBuilder and csv::Reader reading an in-memory byte
/// slice: with flexible record lengths, `headers` yields the first record,
/// `records` yields the remaining ones in order, and reading fails only on
/// a malformed record (such as invalid UTF-8), reported as a csv::Error.
#[verifier::external_body]
fn csv_parse(bytes: &[u8]) -> (r: Result<(Vec<String>, Vec<Vec<String>>), String>)
    ensures
        match r {
            Ok(p) => csv_parse_of(bytes@) == Some((p.0.deep_view(), p.1.deep_view())),
            Err(_) => csv_parse_of(bytes@) is None,
        },
{
    let mut rdr = csv::ReaderBuilder::new().flexible(true).from_reader(bytes);
    let header = match rdr.headers() {
        Ok(h) => h.iter().map(|f| f.to_string()).collect(),
        Err(e) => return Err(e.to_string()),
    };
    let mut rows = Vec::new();
    for rec in rdr.records() {
        match rec {
            Ok(r) => rows.push(r.iter().map(|f| f.to_string()).collect()),
            Err(e) => return Err(e.to_string()),
        }
    }
    Ok((header, rows))
}

/// Load one dataset from the bytes of a delimited-text source. The first
/// record names the columns, which start visible and unsorted; each later
/// record with the right field count becomes a row, the others are dropped
/// and counted. Fails exactly when the parser rejects the bytes, with a
/// message for the user; a failed load never terminates the process.
pub fn load_from_bytes(bytes: &[u8]) -> (r: Result<(RecordStore, usize), IoError>)
    ensures
        match r {
            Ok(p) => {
                &&& csv_parse_of(bytes@) is Some
                &&& p.0.wf()
                &&& p.0.header@.len() == csv_parse_of(bytes@).unwrap().0.len()
                &&& forall|c: int|
                    0 <= c < p.0.header@.len() ==> (#[trigger] p.0.header@[c]).name@
                        == csv_parse_of(bytes@).unwrap().0[c] && p.0.header@[c].visible
                        && p.0.header@[c].sort is None
                &&& p.0.rows_view() == kept(
                    csv_parse_of(bytes@).unwrap().1,
                    csv_parse_of(bytes@).unwrap().0.len() as nat,
                )
                &&& p.1 + p.0.rows@.len() == csv_parse_of(bytes@).unwrap().1.len()
            },
            Err(_) => csv_parse_of(bytes@) is None,
        },
{
    match csv_parse(bytes) {
        Ok((names, raw)) => {
            let (store, dropped) = ingest(&names, &raw);
            proof {
                assert(names.deep_view().len() == names@.len());
                assert(forall|c: int|
                    0 <= c < names@.len() ==> names.deep_view()[c] == #[trigger] names@[c]@);
            }
            Ok((store, dropped))
        },
        Err(m) => Err(IoError::new(m)),
    }
}

} // verus!
