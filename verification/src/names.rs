//! Testcase identifiers: lexicographic ordering, substring matching for
//! name filters, and the normalizer that turns a raw storage path into a
//! display name.

use vstd::prelude::*;

verus! {

// ---------------------------------------------------------------------
// Lexicographic order on character sequences
// ---------------------------------------------------------------------
/// Lexicographic `<=` on character sequences, ordering characters by
/// their Unicode scalar value.  A proper prefix sorts before any
/// extension of it.
pub open spec fn lex_leq(a: Seq<char>, b: Seq<char>) -> bool
    decreases a.len(),
{
    if a.len() == 0 {
        true
    } else if b.len() == 0 {
        false
    } else if a[0] != b[0] {
        (a[0] as int) < (b[0] as int)
    } else {
        lex_leq(a.skip(1), b.skip(1))
    }
}

/// Any two character sequences are comparable.
pub proof fn lemma_lex_total(a: Seq<char>, b: Seq<char>)
    ensures
        lex_leq(a, b) || lex_leq(b, a),
    decreases a.len(),
{
    if a.len() > 0 && b.len() > 0 {
        if a[0] == b[0] {
            lemma_lex_total(a.skip(1), b.skip(1));
        } else {
            assert((a[0] as int) != (b[0] as int));
        }
    }
}

/// The lexicographic order is transitive.
pub proof fn lemma_lex_trans(a: Seq<char>, b: Seq<char>, c: Seq<char>)
    requires
        lex_leq(a, b),
        lex_leq(b, c),
    ensures
        lex_leq(a, c),
    decreases a.len(),
{
    if a.len() > 0 && b.len() > 0 && c.len() > 0 && a[0] == b[0] && b[0] == c[0] {
        lemma_lex_trans(a.skip(1), b.skip(1), c.skip(1));
    }
}

/// Compares two strings in the lexicographic order of their character
/// sequences.
pub fn str_lex_leq(a: &str, b: &str) -> (r: bool)
    ensures
        r == lex_leq(a@, b@),
{
    let alen = a.unicode_len();
    let blen = b.unicode_len();
    let mut i: usize = 0;
    proof {
        assert(a@.skip(0) =~= a@);
        assert(b@.skip(0) =~= b@);
    }
    while i < alen && i < blen
        invariant
            i <= alen,
            i <= blen,
            alen == a@.len(),
            blen == b@.len(),
            lex_leq(a@, b@) == lex_leq(a@.skip(i as int), b@.skip(i as int)),
        decreases alen - i,
    {
        let ca = a.get_char(i);
        let cb = b.get_char(i);
        if ca != cb {
            return (ca as u32) < (cb as u32);
        }
        proof {
            assert(a@.skip(i as int)[0] == b@.skip(i as int)[0]);
        }
        proof {
            assert(a@.skip(i as int).skip(1) =~= a@.skip(i + 1));
            assert(b@.skip(i as int).skip(1) =~= b@.skip(i + 1));
        }
        i = i + 1;
    }
    proof {
        assert(a@.skip(i as int).len() == alen - i);
        assert(b@.skip(i as int).len() == blen - i);
    }
    i == alen
}

/// Compares two strings for character-sequence equality.
pub fn str_eq(a: &str, b: &str) -> (r: bool)
    ensures
        r == (a@ == b@),
{
    let alen = a.unicode_len();
    let blen = b.unicode_len();
    if alen != blen {
        return false;
    }
    let mut i: usize = 0;
    while i < alen
        invariant
            i <= alen,
            alen == a@.len(),
            alen == b@.len(),
            forall|t: int| 0 <= t < i ==> a@[t] == b@[t],
        decreases alen - i,
    {
        if a.get_char(i) != b.get_char(i) {
            return false;
        }
        i = i + 1;
    }
    proof {
        assert(a@ =~= b@);
    }
    true
}

// ---------------------------------------------------------------------
// Substring occurrence
// ---------------------------------------------------------------------
/// The pattern `m` occurs in `s` starting at position `i`.
pub open spec fn occurs_at(s: Seq<char>, m: Seq<char>, i: int) -> bool {
    0 <= i && i + m.len() <= s.len() && s.subrange(i, i + m.len()) == m
}

/// The pattern `m` occurs somewhere in `s`.  An empty pattern occurs in
/// every string, which makes an empty name filter match every testcase.
pub open spec fn contains_seq(s: Seq<char>, m: Seq<char>) -> bool {
    exists|i: int| occurs_at(s, m, i)
}

/// Whether `m` occurs in `s` at position `i`; `i + m.len()` must be in
/// range.
fn match_at(s: &str, slen: usize, m: &str, mlen: usize, i: usize) -> (r: bool)
    requires
        slen == s@.len(),
        mlen == m@.len(),
        i + mlen <= slen,
    ensures
        r == occurs_at(s@, m@, i as int),
{
    let mut k: usize = 0;
    while k < mlen
        invariant
            k <= mlen,
            slen == s@.len(),
            mlen == m@.len(),
            i + mlen <= slen,
            forall|t: int| 0 <= t < k ==> s@[i + t] == m@[t],
        decreases mlen - k,
    {
        let cs = s.get_char(i + k);
        let cm = m.get_char(k);
        if cs != cm {
            proof {
                assert(s@.subrange(i as int, i + mlen) != m@) by {
                    assert(s@.subrange(i as int, i + mlen)[k as int] == s@[i + k]);
                }
            }
            return false;
        }
        k = k + 1;
    }
    proof {
        assert(s@.subrange(i as int, i + mlen) =~= m@);
    }
    true
}

/// Whether the pattern occurs anywhere in `s` (the substring semantics
/// of a testcase name filter).
pub fn str_contains(s: &str, m: &str) -> (r: bool)
    ensures
        r == contains_seq(s@, m@),
{
    let slen = s.unicode_len();
    let mlen = m.unicode_len();
    if mlen == 0 {
        proof {
            assert(s@.subrange(0, 0) =~= m@);
            assert(occurs_at(s@, m@, 0));
        }
        return true;
    }
    if mlen > slen {
        return false;
    }
    let mut i: usize = 0;
    while mlen <= slen - i
        invariant
            slen == s@.len(),
            mlen == m@.len(),
            0 < mlen <= slen,
            i <= slen,
            forall|j: int| 0 <= j < i ==> !occurs_at(s@, m@, j),
        decreases slen - i,
    {
        if match_at(s, slen, m, mlen, i) {
            return true;
        }
        i = i + 1;
    }
    proof {
        assert(forall|j: int| j >= i ==> !occurs_at(s@, m@, j));
    }
    false
}

/// The starting position of the last occurrence of the pattern, if any.
fn find_last(s: &str, m: &str) -> (r: Option<usize>)
    ensures
        match r {
            Option::Some(p) => occurs_at(s@, m@, p as int) && (forall|j: int|
                j > p ==> !occurs_at(s@, m@, j)),
            Option::None => !contains_seq(s@, m@),
        },
{
    let slen = s.unicode_len();
    let mlen = m.unicode_len();
    if mlen == 0 {
        proof {
            assert(s@.subrange(slen as int, slen as int) =~= m@);
            assert(occurs_at(s@, m@, slen as int));
        }
        return Option::Some(slen);
    }
    if mlen > slen {
        return Option::None;
    }
    let mut best: Option<usize> = Option::None;
    let mut i: usize = 0;
    while mlen <= slen - i
        invariant
            slen == s@.len(),
            mlen == m@.len(),
            0 < mlen <= slen,
            i <= slen,
            match best {
                Option::Some(p) => occurs_at(s@, m@, p as int) && (forall|j: int|
                    p < j < i ==> !occurs_at(s@, m@, j)),
                Option::None => forall|j: int| 0 <= j < i ==> !occurs_at(s@, m@, j),
            },
        decreases slen - i,
    {
        if match_at(s, slen, m, mlen, i) {
            best = Option::Some(i);
        }
        i = i + 1;
    }
    proof {
        assert(forall|j: int| j >= i ==> !occurs_at(s@, m@, j));
    }
    best
}

// ---------------------------------------------------------------------
// Identifier normalization
// ---------------------------------------------------------------------
/// The storage-layout marker that separates a testcase path's prefix
/// from its display name.
pub open spec fn marker() -> Seq<char> {
    "\\testcases\\"@
}

/// The position of the last occurrence of `m` in `s` (meaningful only
/// when `m` occurs in `s`).
pub open spec fn last_occurrence(s: Seq<char>, m: Seq<char>) -> int {
    choose|i: int| occurs_at(s, m, i) && (forall|j: int| j > i ==> !occurs_at(s, m, j))
}

/// A raw identifier's display name: the part after the last occurrence
/// of the storage marker, or the identifier unchanged when the marker is
/// absent.
pub open spec fn normalized(s: Seq<char>) -> Seq<char> {
    if contains_seq(s, marker()) {
        s.subrange(last_occurrence(s, marker()) + marker().len(), s.len() as int)
    } else {
        s
    }
}

/// Strips the storage path prefix from a raw testcase identifier,
/// producing its display name.  Total: an identifier without the marker
/// comes back unchanged.
pub fn normalize_name(raw: &str) -> (r: String)
    ensures
        r@ == normalized(raw@),
{
    let marker_str = "\\testcases\\";
    let slen = raw.unicode_len();
    let mlen = marker_str.unicode_len();
    match find_last(raw, marker_str) {
        Option::Some(p) => {
            proof {
                let lp = last_occurrence(raw@, marker());
                assert(occurs_at(raw@, marker(), lp) && (forall|j: int|
                    j > lp ==> !occurs_at(raw@, marker(), j)));
                assert(lp == p as int);
            }
            let tail = raw.substring_char(p + mlen, slen);
            tail.to_owned()
        },
        Option::None => raw.to_owned(),
    }
}

} // verus!
