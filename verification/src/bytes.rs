//! ASCII case folding and small byte-sequence helpers shared by the scanner
//! and the resolver. Node names, file stems and link targets are compared
//! ASCII-case-insensitively, which is a byte-wise notion: only the bytes
//! `0x41..=0x5a` fold, all others (including UTF-8 continuation bytes) are
//! left alone.

use vstd::prelude::*;

verus! {

/// ASCII case fold of a single byte: upper-case letters map to lower case.
pub open spec fn fold_byte(b: u8) -> u8 {
    if 0x41 <= b && b <= 0x5a {
        (b + 32) as u8
    } else {
        b
    }
}

/// ASCII case fold of a byte sequence.
pub open spec fn fold(s: Seq<u8>) -> Seq<u8> {
    s.map(|i: int, b: u8| fold_byte(b))
}

/// ASCII-case-insensitive equality of byte sequences.
pub open spec fn fold_eq(a: Seq<u8>, b: Seq<u8>) -> bool {
    fold(a) == fold(b)
}

/// Exec counterpart of `fold_byte`.
pub fn fold_byte_exec(b: u8) -> (r: u8)
    ensures
        r == fold_byte(b),
{
    if 0x41 <= b && b <= 0x5a {
        b + 32
    } else {
        b
    }
}

/// ASCII-case-insensitive equality of two byte slices.
pub fn fold_eq_exec(a: &[u8], b: &[u8]) -> (r: bool)
    ensures
        r == fold_eq(a@, b@),
{
    if a.len() != b.len() {
        assert(fold(a@).len() != fold(b@).len());
        return false;
    }
    let n = a.len();
    let mut i: usize = 0;
    while i < n
        invariant
            n == a@.len() == b@.len(),
            i <= n,
            forall|k: int| 0 <= k < i ==> fold_byte(a@[k]) == fold_byte(b@[k]),
        decreases n - i,
    {
        let x = *vstd::slice::slice_index_get(a, i);
        let y = *vstd::slice::slice_index_get(b, i);
        if fold_byte_exec(x) != fold_byte_exec(y) {
            assert(fold(a@)[i as int] != fold(b@)[i as int]);
            return false;
        }
        i += 1;
    }
    assert(fold(a@) =~= fold(b@));
    true
}

/// Plain equality of two byte slices.
pub fn bytes_eq(a: &[u8], b: &[u8]) -> (r: bool)
    ensures
        r == (a@ == b@),
{
    if a.len() != b.len() {
        return false;
    }
    let n = a.len();
    let mut i: usize = 0;
    while i < n
        invariant
            n == a@.len() == b@.len(),
            i <= n,
            forall|k: int| 0 <= k < i ==> a@[k] == b@[k],
        decreases n - i,
    {
        let x = *vstd::slice::slice_index_get(a, i);
        let y = *vstd::slice::slice_index_get(b, i);
        if x != y {
            return false;
        }
        i += 1;
    }
    assert(a@ =~= b@);
    true
}

/// Index of the last occurrence of `b` in `s`, if any.
pub open spec fn last_index_of(s: Seq<u8>, b: u8) -> Option<int>
    decreases s.len(),
{
    if s.len() == 0 {
        None
    } else if s.last() == b {
        Some(s.len() - 1)
    } else {
        last_index_of(s.drop_last(), b)
    }
}

pub proof fn lemma_last_index_bounds(s: Seq<u8>, b: u8)
    ensures
        match last_index_of(s, b) {
            Some(i) => 0 <= i < s.len() && s[i] == b && forall|j: int|
                i < j < s.len() ==> (#[trigger] s[j]) != b,
            None => forall|j: int| 0 <= j < s.len() ==> (#[trigger] s[j]) != b,
        },
    decreases s.len(),
{
    if s.len() > 0 && s.last() != b {
        lemma_last_index_bounds(s.drop_last(), b);
        assert(forall|j: int| 0 <= j < s.len() - 1 ==> s[j] == s.drop_last()[j]);
    }
}

/// The position of `b` with nothing but other bytes after it is the last one.
pub proof fn lemma_last_index_is(s: Seq<u8>, b: u8, i: int)
    requires
        0 <= i < s.len(),
        s[i] == b,
        forall|j: int| i < j < s.len() ==> (#[trigger] s[j]) != b,
    ensures
        last_index_of(s, b) == Some(i),
    decreases s.len(),
{
    if i < s.len() - 1 {
        assert(forall|j: int| 0 <= j < s.len() - 1 ==> s[j] == s.drop_last()[j]);
        lemma_last_index_is(s.drop_last(), b, i);
    }
}

/// Index of the last occurrence of `b` in `s`, scanning from the end.
pub fn rfind_byte(s: &[u8], b: u8) -> (r: Option<usize>)
    ensures
        match r {
            Some(i) => last_index_of(s@, b) == Some(i as int),
            None => last_index_of(s@, b) is None,
        },
{
    let mut i = s.len();
    while i > 0
        invariant
            i <= s@.len(),
            forall|j: int| i <= j < s@.len() ==> (#[trigger] s@[j]) != b,
        decreases i,
    {
        i -= 1;
        if *vstd::slice::slice_index_get(s, i) == b {
            proof {
                lemma_last_index_is(s@, b, i as int);
            }
            return Some(i);
        }
    }
    proof {
        lemma_last_index_bounds(s@, b);
    }
    None
}

/// Appends the bytes of `src` to `dst`.
pub fn push_bytes(dst: &mut Vec<u8>, src: &[u8])
    ensures
        final(dst)@ == old(dst)@ + src@,
{
    let n = src.len();
    let mut i: usize = 0;
    while i < n
        invariant
            i <= n == src@.len(),
            dst@ == old(dst)@ + src@.take(i as int),
        decreases n - i,
    {
        let x = *vstd::slice::slice_index_get(src, i);
        dst.push(x);
        proof {
            assert(old(dst)@ + src@.take(i + 1) =~= (old(dst)@ + src@.take(i as int)).push(
                src@[i as int]));
        }
        i += 1;
    }
    assert(src@.take(n as int) =~= src@);
}

/// View of a list of byte vectors as a sequence of byte sequences.
pub open spec fn views_of(s: Seq<Vec<u8>>) -> Seq<Seq<u8>> {
    s.map(|i: int, v: Vec<u8>| v@)
}

/// Whether some element of `set` holds the same bytes as `x`.
pub fn contains_bytes(set: &Vec<Vec<u8>>, x: &Vec<u8>) -> (r: bool)
    ensures
        r == views_of(set@).contains(x@),
{
    let n = set.len();
    let mut k: usize = 0;
    while k < n
        invariant
            k <= n == set@.len(),
            forall|j: int| 0 <= j < k ==> (#[trigger] set@[j]@) != x@,
        decreases n - k,
    {
        if bytes_eq(set[k].as_slice(), x.as_slice()) {
            assert(views_of(set@)[k as int] == x@);
            return true;
        }
        k += 1;
    }
    proof {
        assert forall|j: int| 0 <= j < views_of(set@).len() implies (#[trigger] views_of(set@)[j])
            != x@ by {
            assert(views_of(set@)[j] == set@[j]@);
        }
    }
    false
}

} // verus!
