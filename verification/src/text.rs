//! Text primitives of the engine: case-sensitive substring search (the
//! filter policy and the match-highlight side channel) and lexicographic
//! ordering of field values (the sort fallback).

use vstd::prelude::*;
use vstd::string::StrSliceExecFns;

verus! {

/// `needle` occurs in `hay` starting at character position `k`.
pub open spec fn contains_at(hay: Seq<char>, needle: Seq<char>, k: int) -> bool {
    0 <= k && k + needle.len() <= hay.len() && hay.subrange(k, k + needle.len()) == needle
}

/// `needle` occurs somewhere in `hay`; an empty needle occurs everywhere.
pub open spec fn contains_seq(hay: Seq<char>, needle: Seq<char>) -> bool {
    exists|k: int| contains_at(hay, needle, k)
}

/// Character position of the leftmost occurrence of `needle` in `hay`, if any.
pub fn find_sub(hay: &str, needle: &str) -> (r: Option<usize>)
    ensures
        match r {
            Some(k) => contains_at(hay@, needle@, k as int) && (forall|j: int|
                0 <= j < k ==> !contains_at(hay@, needle@, j)),
            None => !contains_seq(hay@, needle@),
        },
{
    let hn = hay.unicode_len();
    let nn = needle.unicode_len();
    if nn > hn {
        return None;
    }
    let mut k: usize = 0;
    while k <= hn - nn
        invariant
            nn <= hn,
            hn == hay@.len(),
            nn == needle@.len(),
            k <= hn - nn + 1,
            forall|j: int| 0 <= j < k ==> !contains_at(hay@, needle@, j),
        decreases hn - nn + 1 - k,
    {
        let mut j: usize = 0;
        let mut ok = true;
        while ok && j < nn
            invariant
                nn <= hn,
                hn == hay@.len(),
                nn == needle@.len(),
                k <= hn - nn,
                j <= nn,
                ok ==> forall|t: int| 0 <= t < j ==> hay@[k + t] == needle@[t],
                !ok ==> j < nn && hay@[k + j] != needle@[j as int],
            decreases nn - j + (if ok { 1int } else { 0int }),
        {
            if hay.get_char(k + j) != needle.get_char(j) {
                ok = false;
            } else {
                j += 1;
            }
        }
        if ok {
            proof {
                assert(hay@.subrange(k as int, k + nn) =~= needle@) by {
                    assert(forall|t: int|
                        0 <= t < nn ==> #[trigger] hay@.subrange(k as int, k + nn)[t] == hay@[k
                            + t]);
                }
            }
            return Some(k);
        }
        proof {
            assert(!contains_at(hay@, needle@, k as int)) by {
                if hay@.subrange(k as int, k + nn) == needle@ {
                    assert(hay@.subrange(k as int, k + nn)[j as int] == hay@[k + j]);
                }
            }
        }
        k += 1;
    }
    proof {
        assert(forall|j: int| #[trigger] contains_at(hay@, needle@, j) ==> j < k);
    }
    None
}

/// Whether `needle` occurs in `hay` as a case-sensitive substring.
pub fn contains_sub(hay: &str, needle: &str) -> (b: bool)
    ensures
        b == contains_seq(hay@, needle@),
{
    match find_sub(hay, needle) {
        Some(_) => true,
        None => false,
    }
}

/// Lexicographic order on character sequences, by unicode scalar value.
pub open spec fn lex_le(a: Seq<char>, b: Seq<char>) -> bool
    decreases a.len(),
{
    if a.len() == 0 {
        true
    } else if b.len() == 0 {
        false
    } else if (a[0] as u32) < (b[0] as u32) {
        true
    } else if (b[0] as u32) < (a[0] as u32) {
        false
    } else {
        lex_le(a.skip(1), b.skip(1))
    }
}

/// Lexicographic order is total.
pub proof fn lemma_lex_le_total(a: Seq<char>, b: Seq<char>)
    ensures
        lex_le(a, b) || lex_le(b, a),
    decreases a.len(),
{
    if a.len() != 0 && b.len() != 0 && (a[0] as u32) == (b[0] as u32) {
        lemma_lex_le_total(a.skip(1), b.skip(1));
    }
}

/// Lexicographic order is transitive.
pub proof fn lemma_lex_le_trans(a: Seq<char>, b: Seq<char>, c: Seq<char>)
    requires
        lex_le(a, b),
        lex_le(b, c),
    ensures
        lex_le(a, c),
    decreases a.len(),
{
    if a.len() != 0 && b.len() != 0 && c.len() != 0 && (a[0] as u32) == (b[0] as u32) && (b[0]
        as u32) == (c[0] as u32) {
        lemma_lex_le_trans(a.skip(1), b.skip(1), c.skip(1));
    }
}

/// Sequences that agree on their first `i` characters compare the same way
/// as their tails past `i`.
proof fn lemma_lex_le_skip(a: Seq<char>, b: Seq<char>, i: int)
    requires
        0 <= i <= a.len(),
        i <= b.len(),
        forall|j: int| 0 <= j < i ==> a[j] == b[j],
    ensures
        lex_le(a, b) == lex_le(a.skip(i), b.skip(i)),
    decreases i,
{
    if i > 0 {
        assert(a[0] == b[0]);
        assert(a.len() != 0 && b.len() != 0);
        assert(lex_le(a, b) == lex_le(a.skip(1), b.skip(1)));
        assert(forall|j: int| 0 <= j < i - 1 ==> a.skip(1)[j] == b.skip(1)[j]);
        lemma_lex_le_skip(a.skip(1), b.skip(1), i - 1);
        assert(a.skip(1).skip(i - 1) =~= a.skip(i));
        assert(b.skip(1).skip(i - 1) =~= b.skip(i));
    } else {
        assert(a.skip(0) =~= a);
        assert(b.skip(0) =~= b);
    }
}

/// Compare two strings lexicographically by unicode scalar value.
pub fn str_lex_le(a: &str, b: &str) -> (r: bool)
    ensures
        r == lex_le(a@, b@),
{
    let an = a.unicode_len();
    let bn = b.unicode_len();
    let mut i: usize = 0;
    loop
        invariant
            i <= an,
            i <= bn,
            an == a@.len(),
            bn == b@.len(),
            forall|j: int| 0 <= j < i ==> a@[j] == b@[j],
        decreases an - i,
    {
        proof {
            lemma_lex_le_skip(a@, b@, i as int);
        }
        if i >= an {
            return true;
        }
        if i >= bn {
            return false;
        }
        let ca = a.get_char(i);
        let cb = b.get_char(i);
        if (ca as u32) < (cb as u32) {
            return true;
        }
        if (cb as u32) < (ca as u32) {
            return false;
        }
        proof {
            assert(a@[i as int] == b@[i as int]);
        }
        i += 1;
    }
}

} // verus!
