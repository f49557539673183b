//! Byte-level scanning: substring search and trimming, with first-match
//! characterizations used by the decoder proofs.

use vstd::prelude::*;
use crate::ascii::is_space;

verus! {

/// The group separator of the pixel-data line: `],[`.
pub open spec fn sep_rep() -> Seq<u8> {
    seq![0x5d, 0x2c, 0x5b]
}

/// `sep` occurs in `s` at position `i`.
pub open spec fn match_at(s: Seq<u8>, sep: Seq<u8>, i: int) -> bool {
    0 <= i && i + sep.len() <= s.len() && s.subrange(i, i + sep.len()) == sep
}

/// Position of the leftmost occurrence of `sep` in `s`.
pub open spec fn find_sub(s: Seq<u8>, sep: Seq<u8>) -> Option<int>
    decreases s.len(),
{
    if sep.len() == 0 || s.len() < sep.len() {
        None
    } else if s.subrange(0, sep.len() as int) == sep {
        Some(0)
    } else {
        match find_sub(s.drop_first(), sep) {
            None => None,
            Some(i) => Some(i + 1),
        }
    }
}

pub open spec fn find_byte(s: Seq<u8>, b: u8) -> Option<int> {
    find_sub(s, seq![b])
}

/// A one-byte separator occurs at `i` exactly when that byte stands there.
pub proof fn lemma_match_at_byte(s: Seq<u8>, b: u8, i: int)
    ensures
        match_at(s, seq![b], i) <==> (0 <= i < s.len() && s[i] == b),
{
    if 0 <= i < s.len() && s[i] == b {
        assert(s.subrange(i, i + 1) =~= seq![b]);
    }
    if match_at(s, seq![b], i) {
        assert(s.subrange(i, i + 1)[0] == s[i]);
    }
}

/// `find_sub` returns the first occurrence, or `None` when there is none.
pub proof fn lemma_find_sub(s: Seq<u8>, sep: Seq<u8>)
    requires
        sep.len() > 0,
    ensures
        match find_sub(s, sep) {
            None => forall|j: int| !match_at(s, sep, j),
            Some(i) => match_at(s, sep, i) && (forall|j: int| 0 <= j < i ==> !match_at(s, sep, j)),
        },
    decreases s.len(),
{
    if s.len() < sep.len() {
        assert(forall|j: int| !match_at(s, sep, j));
    } else if s.subrange(0, sep.len() as int) == sep {
        assert(match_at(s, sep, 0));
    } else {
        lemma_find_sub(s.drop_first(), sep);
        assert(forall|j: int| #![trigger match_at(s, sep, j)]
            1 <= j && j + sep.len() <= s.len() ==> (match_at(s, sep, j) <==> match_at(
                s.drop_first(),
                sep,
                j - 1,
            ))) by {
            assert forall|j: int| #![trigger s.subrange(j, j + sep.len())]
                1 <= j && j + sep.len() <= s.len() implies (s.subrange(j, j + sep.len()) == s
                .drop_first().subrange(j - 1, j - 1 + sep.len())) by {
                assert(s.subrange(j, j + sep.len()) =~= s.drop_first().subrange(
                    j - 1,
                    j - 1 + sep.len(),
                ));
            }
        }
        assert(!match_at(s, sep, 0));
        match find_sub(s.drop_first(), sep) {
            None => {
                assert(forall|j: int| !match_at(s, sep, j));
            },
            Some(i) => {
                assert(match_at(s.drop_first(), sep, i));
                assert(match_at(s, sep, i + 1));
                assert(forall|j: int| 0 <= j < i + 1 ==> !match_at(s, sep, j));
            },
        }
    }
}

/// A first occurrence pins `find_sub` down.
pub proof fn lemma_find_sub_at(s: Seq<u8>, sep: Seq<u8>, i: int)
    requires
        sep.len() > 0,
        match_at(s, sep, i),
        forall|j: int| 0 <= j < i ==> !match_at(s, sep, j),
    ensures
        find_sub(s, sep) == Some(i),
{
    lemma_find_sub(s, sep);
    match find_sub(s, sep) {
        None => {
            assert(!match_at(s, sep, i));
        },
        Some(k) => {
            if k < i {
                assert(!match_at(s, sep, k));
            }
            if i < k {
                assert(!match_at(s, sep, i));
            }
        },
    }
}

/// Leftmost position of `b` in `s`.
pub fn scan_byte(s: &[u8], b: u8) -> (r: Option<usize>)
    ensures
        match r {
            Some(i) => i < s@.len() && find_byte(s@, b) == Some(i as int),
            None => find_byte(s@, b) is None,
        },
{
    let n = s.len();
    let mut i: usize = 0;
    while i < n
        invariant
            i <= n,
            n == s@.len(),
            forall|j: int| 0 <= j < i ==> s@[j] != b,
        decreases n - i,
    {
        if *vstd::slice::slice_index_get(s, i) == b {
            proof {
                lemma_match_at_byte(s@, b, i as int);
                assert forall|j: int| 0 <= j < i implies !match_at(s@, seq![b], j) by {
                    lemma_match_at_byte(s@, b, j);
                }
                lemma_find_sub_at(s@, seq![b], i as int);
            }
            return Some(i);
        }
        i = i + 1;
    }
    proof {
        lemma_find_sub(s@, seq![b]);
        if find_byte(s@, b) is Some {
            let k = find_byte(s@, b)->Some_0;
            lemma_match_at_byte(s@, b, k);
        }
    }
    None
}

/// Leftmost occurrence of the group separator `],[` in `s`.
pub fn scan_sep(s: &[u8]) -> (r: Option<usize>)
    ensures
        match r {
            Some(i) => i + 3 <= s@.len() && find_sub(s@, sep_rep()) == Some(i as int),
            None => find_sub(s@, sep_rep()) is None,
        },
{
    let n = s.len();
    if n < 3 {
        proof {
            lemma_find_sub(s@, sep_rep());
            if find_sub(s@, sep_rep()) is Some {
                let k = find_sub(s@, sep_rep())->Some_0;
                assert(match_at(s@, sep_rep(), k));
            }
        }
        return None;
    }
    let mut i: usize = 0;
    while i <= n - 3
        invariant
            i <= n - 3 + 1,
            n == s@.len(),
            3 <= n,
            forall|j: int| 0 <= j < i ==> !match_at(s@, sep_rep(), j),
        decreases n - i,
    {
        let b0 = *vstd::slice::slice_index_get(s, i);
        let b1 = *vstd::slice::slice_index_get(s, i + 1);
        let b2 = *vstd::slice::slice_index_get(s, i + 2);
        if b0 == 0x5d && b1 == 0x2c && b2 == 0x5b {
            proof {
                assert(s@.subrange(i as int, i + 3) =~= sep_rep());
                lemma_find_sub_at(s@, sep_rep(), i as int);
            }
            return Some(i);
        }
        proof {
            if match_at(s@, sep_rep(), i as int) {
                assert(s@.subrange(i as int, i + 3)[0] == s@[i as int]);
                assert(s@.subrange(i as int, i + 3)[1] == s@[i + 1]);
                assert(s@.subrange(i as int, i + 3)[2] == s@[i + 2]);
            }
        }
        i = i + 1;
    }
    proof {
        assert(forall|j: int| j + 3 > s@.len() ==> !match_at(s@, sep_rep(), j));
        lemma_find_sub(s@, sep_rep());
        if find_sub(s@, sep_rep()) is Some {
            let k = find_sub(s@, sep_rep())->Some_0;
            assert(match_at(s@, sep_rep(), k));
        }
    }
    None
}

/// Leftmost position of a whitespace byte in `s`.
pub fn scan_space(s: &[u8]) -> (r: Option<usize>)
    ensures
        match r {
            Some(i) => i < s@.len() && is_space(s@[i as int]) && (forall|j: int|
                0 <= j < i ==> !is_space(s@[j])),
            None => forall|j: int| 0 <= j < s@.len() ==> !is_space(s@[j]),
        },
{
    let n = s.len();
    let mut i: usize = 0;
    while i < n
        invariant
            i <= n,
            n == s@.len(),
            forall|j: int| 0 <= j < i ==> !is_space(s@[j]),
        decreases n - i,
    {
        let b = *vstd::slice::slice_index_get(s, i);
        if b == 0x20 || b == 0x09 || b == 0x0a || b == 0x0b || b == 0x0c || b == 0x0d {
            return Some(i);
        }
        i = i + 1;
    }
    None
}

/// One trailing carriage return removed, as the line splitter does.
pub open spec fn strip_cr(s: Seq<u8>) -> Seq<u8> {
    if s.len() > 0 && s.last() == 0x0d {
        s.drop_last()
    } else {
        s
    }
}

/// Removes one trailing carriage return.
pub fn strip_cr_slice(s: &[u8]) -> (r: &[u8])
    ensures
        r@ == strip_cr(s@),
{
    let n = s.len();
    if n > 0 && *vstd::slice::slice_index_get(s, n - 1) == 0x0d {
        let r = vstd::slice::slice_subrange(s, 0, n - 1);
        proof {
            assert(r@ =~= strip_cr(s@));
        }
        r
    } else {
        let r = vstd::slice::slice_subrange(s, 0, n);
        proof {
            assert(r@ =~= s@);
        }
        r
    }
}

/// `s` with leading whitespace removed.
pub open spec fn trim_ws_start(s: Seq<u8>) -> Seq<u8>
    decreases s.len(),
{
    if s.len() > 0 && is_space(s[0]) {
        trim_ws_start(s.drop_first())
    } else {
        s
    }
}

/// `s` with trailing whitespace removed.
pub open spec fn trim_ws_end(s: Seq<u8>) -> Seq<u8>
    decreases s.len(),
{
    if s.len() > 0 && is_space(s.last()) {
        trim_ws_end(s.drop_last())
    } else {
        s
    }
}

/// `s` with surrounding whitespace removed.
pub open spec fn trim_ws_spec(s: Seq<u8>) -> Seq<u8> {
    trim_ws_end(trim_ws_start(s))
}

pub open spec fn is_bracket(b: u8) -> bool {
    b == 0x5b || b == 0x5d
}

/// `s` with leading bracket characters removed.
pub open spec fn trim_br_start(s: Seq<u8>) -> Seq<u8>
    decreases s.len(),
{
    if s.len() > 0 && is_bracket(s[0]) {
        trim_br_start(s.drop_first())
    } else {
        s
    }
}

/// `s` with trailing bracket characters removed.
pub open spec fn trim_br_end(s: Seq<u8>) -> Seq<u8>
    decreases s.len(),
{
    if s.len() > 0 && is_bracket(s.last()) {
        trim_br_end(s.drop_last())
    } else {
        s
    }
}

/// `s` with surrounding bracket characters removed.
pub open spec fn trim_br_spec(s: Seq<u8>) -> Seq<u8> {
    trim_br_end(trim_br_start(s))
}

/// Removes surrounding whitespace.
pub fn trim_ws(s: &[u8]) -> (r: &[u8])
    ensures
        r@ == trim_ws_spec(s@),
{
    let n = s.len();
    let mut lo: usize = 0;
    proof {
        assert(s@.subrange(0, n as int) =~= s@);
    }
    while lo < n
        invariant
            lo <= n,
            n == s@.len(),
            trim_ws_start(s@) == trim_ws_start(s@.subrange(lo as int, n as int)),
        ensures
            lo <= n,
            trim_ws_start(s@) == s@.subrange(lo as int, n as int),
        decreases n - lo,
    {
        let b = *vstd::slice::slice_index_get(s, lo);
        if !(b == 0x20 || b == 0x09 || b == 0x0a || b == 0x0b || b == 0x0c || b == 0x0d) {
            proof {
                assert(trim_ws_start(s@.subrange(lo as int, n as int)) == s@.subrange(
                    lo as int,
                    n as int,
                ));
            }
            break;
        }
        proof {
            let t = s@.subrange(lo as int, n as int);
            assert(is_space(t[0]));
            assert(t.drop_first() =~= s@.subrange(lo + 1, n as int));
        }
        lo = lo + 1;
    }
    let mut hi: usize = n;
    while hi > lo
        invariant
            lo <= hi <= n,
            n == s@.len(),
            trim_ws_start(s@) == s@.subrange(lo as int, n as int),
            trim_ws_spec(s@) == trim_ws_end(s@.subrange(lo as int, hi as int)),
        ensures
            lo <= hi <= n,
            trim_ws_spec(s@) == s@.subrange(lo as int, hi as int),
        decreases hi,
    {
        let b = *vstd::slice::slice_index_get(s, hi - 1);
        if !(b == 0x20 || b == 0x09 || b == 0x0a || b == 0x0b || b == 0x0c || b == 0x0d) {
            break;
        }
        proof {
            let t = s@.subrange(lo as int, hi as int);
            assert(is_space(t.last()));
            assert(t.drop_last() =~= s@.subrange(lo as int, hi - 1));
        }
        hi = hi - 1;
    }
    proof {
        if lo == hi {
            assert(s@.subrange(lo as int, hi as int) =~= Seq::<u8>::empty());
        }
    }
    vstd::slice::slice_subrange(s, lo, hi)
}

/// Removes surrounding bracket characters.
pub fn trim_brackets(s: &[u8]) -> (r: &[u8])
    ensures
        r@ == trim_br_spec(s@),
{
    let n = s.len();
    let mut lo: usize = 0;
    proof {
        assert(s@.subrange(0, n as int) =~= s@);
    }
    while lo < n
        invariant
            lo <= n,
            n == s@.len(),
            trim_br_start(s@) == trim_br_start(s@.subrange(lo as int, n as int)),
        ensures
            lo <= n,
            trim_br_start(s@) == s@.subrange(lo as int, n as int),
        decreases n - lo,
    {
        let b = *vstd::slice::slice_index_get(s, lo);
        if !(b == 0x5b || b == 0x5d) {
            break;
        }
        proof {
            let t = s@.subrange(lo as int, n as int);
            assert(is_bracket(t[0]));
            assert(t.drop_first() =~= s@.subrange(lo + 1, n as int));
        }
        lo = lo + 1;
    }
    let mut hi: usize = n;
    while hi > lo
        invariant
            lo <= hi <= n,
            n == s@.len(),
            trim_br_start(s@) == s@.subrange(lo as int, n as int),
            trim_br_spec(s@) == trim_br_end(s@.subrange(lo as int, hi as int)),
        ensures
            lo <= hi <= n,
            trim_br_spec(s@) == s@.subrange(lo as int, hi as int),
        decreases hi,
    {
        let b = *vstd::slice::slice_index_get(s, hi - 1);
        if !(b == 0x5b || b == 0x5d) {
            break;
        }
        proof {
            let t = s@.subrange(lo as int, hi as int);
            assert(is_bracket(t.last()));
            assert(t.drop_last() =~= s@.subrange(lo as int, hi - 1));
        }
        hi = hi - 1;
    }
    proof {
        if lo == hi {
            assert(s@.subrange(lo as int, hi as int) =~= Seq::<u8>::empty());
        }
    }
    vstd::slice::slice_subrange(s, lo, hi)
}

} // verus!
