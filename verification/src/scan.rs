//! The wikilink scanner: finds `[[Target]]` occurrences in byte content.
//!
//! An occurrence opens at the first position where two `[` bytes are
//! immediately adjacent and closes at the first following position where two
//! `]` bytes are immediately adjacent; a lone `]` inside the body is ordinary
//! content. The body is normalized by truncating at the first `|` or `#` and
//! trimming ASCII whitespace. An empty normalized target (an internal link)
//! yields no occurrence and scanning continues after the closing tag; a body
//! whose normalized bytes are not well-formed UTF-8 ends the scan, as does an
//! unterminated occurrence at end of content.

use vstd::prelude::*;
use vstd::utf8::{valid_utf8, decode_utf8};
use vstd::slice::{slice_index_get, slice_subrange, slice_to_vec};

verus! {

/// First position `i` at or after `from` where `s[i] == s[i + 1] == b`,
/// the start of an adjacent pair of byte `b`.
pub open spec fn first_pair_from(s: Seq<u8>, from: int, b: u8) -> Option<int>
    recommends
        0 <= from,
    decreases s.len() - from,
{
    if from + 1 >= s.len() {
        None
    } else if s[from] == b && s[from + 1] == b {
        Some(from)
    } else {
        first_pair_from(s, from + 1, b)
    }
}

/// First position of an opening `[[` at or after `from`.
pub open spec fn first_open_from(s: Seq<u8>, from: int) -> Option<int> {
    first_pair_from(s, from, 0x5b)
}

/// First position of a closing `]]` at or after `from`.
pub open spec fn first_close_from(s: Seq<u8>, from: int) -> Option<int> {
    first_pair_from(s, from, 0x5d)
}

pub proof fn lemma_first_pair_bounds(s: Seq<u8>, from: int, b: u8)
    requires
        0 <= from,
    ensures
        match first_pair_from(s, from, b) {
            Some(i) => {
                &&& from <= i
                &&& i + 1 < s.len()
                &&& s[i] == b && s[i + 1] == b
                &&& forall|m: int| from <= m < i ==> !((#[trigger] s[m]) == b && s[m + 1] == b)
            },
            None => forall|m: int|
                from <= m && m + 1 < s.len() ==> !((#[trigger] s[m]) == b && s[m + 1] == b),
        },
    decreases s.len() - from,
{
    if from + 1 >= s.len() {
    } else if s[from] == b && s[from + 1] == b {
    } else {
        lemma_first_pair_bounds(s, from + 1, b);
    }
}

/// True of the bytes `u8::is_ascii_whitespace` accepts.
pub open spec fn is_ws(b: u8) -> bool {
    b == 0x20 || b == 0x09 || b == 0x0a || b == 0x0c || b == 0x0d
}

/// First position at or after `from` holding `|` or `#`, the byte that ends
/// the target portion of a link body.
pub open spec fn first_stop_from(s: Seq<u8>, from: int) -> Option<int>
    recommends
        0 <= from,
    decreases s.len() - from,
{
    if from >= s.len() {
        None
    } else if s[from] == 0x7c || s[from] == 0x23 {
        Some(from)
    } else {
        first_stop_from(s, from + 1)
    }
}

pub proof fn lemma_first_stop_bounds(s: Seq<u8>, from: int)
    requires
        0 <= from,
    ensures
        match first_stop_from(s, from) {
            Some(i) => {
                &&& from <= i < s.len()
                &&& (s[i] == 0x7c || s[i] == 0x23)
                &&& forall|m: int| from <= m < i ==> !((#[trigger] s[m]) == 0x7c || s[m] == 0x23)
            },
            None => forall|m: int|
                from <= m < s.len() ==> !((#[trigger] s[m]) == 0x7c || s[m] == 0x23),
        },
    decreases s.len() - from,
{
    if from >= s.len() {
    } else if s[from] == 0x7c || s[from] == 0x23 {
    } else {
        lemma_first_stop_bounds(s, from + 1);
    }
}

/// The body truncated at the first `|` or `#`, if any.
pub open spec fn truncate_at_stop(s: Seq<u8>) -> Seq<u8> {
    match first_stop_from(s, 0) {
        Some(i) => s.take(i),
        None => s,
    }
}

/// Leading ASCII whitespace removed.
pub open spec fn trim_front(s: Seq<u8>) -> Seq<u8>
    decreases s.len(),
{
    if s.len() > 0 && is_ws(s[0]) {
        trim_front(s.drop_first())
    } else {
        s
    }
}

/// Trailing ASCII whitespace removed.
pub open spec fn trim_back(s: Seq<u8>) -> Seq<u8>
    decreases s.len(),
{
    if s.len() > 0 && is_ws(s.last()) {
        trim_back(s.drop_last())
    } else {
        s
    }
}

/// Normalized target of a link body: truncated at the first `|` or `#`,
/// then trimmed of ASCII whitespace on both ends.
pub open spec fn normalize(body: Seq<u8>) -> Seq<u8> {
    trim_back(trim_front(truncate_at_stop(body)))
}

/// The sequence of link occurrences in `s` at or after `pos`, in scan order:
/// each is the offset of its opening `[[` paired with the decoded characters
/// of its normalized target. Internal links (empty target) are skipped; an
/// occurrence with an unterminated tag or an ill-formed target ends the scan.
pub open spec fn scan_from(s: Seq<u8>, pos: int) -> Seq<(int, Seq<char>)>
    recommends
        0 <= pos,
    decreases s.len() - pos,
    when 0 <= pos
    via scan_from_decreases
{
    match first_open_from(s, pos) {
        None => Seq::empty(),
        Some(i) => match first_close_from(s, i + 2) {
            None => Seq::empty(),
            Some(j) => {
                let t = normalize(s.subrange(i + 2, j));
                if !valid_utf8(t) {
                    Seq::empty()
                } else if t.len() == 0 {
                    scan_from(s, j + 2)
                } else {
                    seq![(i, decode_utf8(t))] + scan_from(s, j + 2)
                }
            },
        },
    }
}

#[via_fn]
proof fn scan_from_decreases(s: Seq<u8>, pos: int) {
    lemma_first_pair_bounds(s, pos, 0x5b);
    if let Some(i) = first_open_from(s, pos) {
        lemma_first_pair_bounds(s, i + 2, 0x5d);
    }
}

/// All link occurrences of the whole content.
pub open spec fn links_of(s: Seq<u8>) -> Seq<(int, Seq<char>)> {
    scan_from(s, 0)
}

/// View of an exec occurrence list at the level `scan_from` speaks.
pub open spec fn links_view(r: Seq<(usize, String)>) -> Seq<(int, Seq<char>)> {
    r.map(|i: int, p: (usize, String)| (p.0 as int, p.1@))
}

/// Relies on `memchr::memchr`: returns the least index of `needle` in
/// `haystack`, or `None` when the byte does not occur.
pub assume_specification [ memchr::memchr ](needle: u8, haystack: &[u8]) -> (r: Option<usize>)
    ensures
        match r {
            Some(i) => {
                &&& i < haystack@.len()
                &&& haystack@[i as int] == needle
                &&& forall|j: int| 0 <= j < i ==> (#[trigger] haystack@[j]) != needle
            },
            None => forall|j: int| 0 <= j < haystack@.len() ==> (#[trigger] haystack@[j]) != needle,
        },
;

/// Relies on `memchr::memchr2`: returns the least index at which either
/// `needle1` or `needle2` occurs in `haystack`, or `None` when neither does.
pub assume_specification [ memchr::memchr2 ](needle1: u8, needle2: u8, haystack: &[u8]) -> (r: Option<
    usize,
>)
    ensures
        match r {
            Some(i) => {
                &&& i < haystack@.len()
                &&& (haystack@[i as int] == needle1 || haystack@[i as int] == needle2)
                &&& forall|j: int|
                    0 <= j < i ==> (#[trigger] haystack@[j]) != needle1 && haystack@[j] != needle2
            },
            None => forall|j: int|
                0 <= j < haystack@.len() ==> (#[trigger] haystack@[j]) != needle1 && haystack@[j] != needle2,
        },
;

/// Relies on `String::from_utf8`: succeeds exactly on well-formed UTF-8 and
/// decodes it, in the sense of vstd's UTF-8 model.
#[verifier::external_body]
fn utf8_to_string(bytes: Vec<u8>) -> (r: Option<String>)
    ensures
        r is Some <==> valid_utf8(bytes@),
        r matches Some(t) ==> t@ == decode_utf8(bytes@),
{
    String::from_utf8(bytes).ok()
}

/// Position of the first opening `[[` in `s` at or after `pos`.
pub fn skip_to_opening_tag(s: &[u8], pos: usize) -> (r: Option<usize>)
    requires
        pos <= s@.len(),
    ensures
        match r {
            Some(i) => first_open_from(s@, pos as int) == Some(i as int) && pos <= i && i + 1
                < s@.len(),
            None => first_open_from(s@, pos as int) is None,
        },
{
    let n = s.len();
    let mut cur: usize = pos;
    loop
        invariant
            pos <= cur <= n,
            n == s@.len(),
            first_open_from(s@, pos as int) == first_open_from(s@, cur as int),
        decreases n - cur,
    {
        proof {
            lemma_first_pair_bounds(s@, cur as int, 0x5b);
        }
        let sub = slice_subrange(s, cur, n);
        match memchr::memchr(0x5b, sub) {
            None => {
                proof {
                    assert forall|m: int|
                        cur <= m && m + 1 < s@.len() implies !((#[trigger] s@[m]) == 0x5b
                        && s@[m + 1] == 0x5b) by {
                        assert(s@[m] == sub@[m - cur]);
                    }
                    assert(first_pair_from(s@, cur as int, 0x5b) is None);
                }
                return None;
            },
            Some(k) => {
                let at = cur + k;
                proof {
                    assert(s@[at as int] == sub@[k as int]);
                    assert forall|m: int| cur <= m < at implies (#[trigger] s@[m]) != 0x5b by {
                        assert(s@[m] == sub@[m - cur]);
                    }
                }
                if at + 1 < n && *slice_index_get(s, at + 1) == 0x5b {
                    proof {
                        lemma_first_pair_step(s@, cur as int, at as int, 0x5b);
                    }
                    return Some(at);
                }
                proof {
                    assert forall|m: int|
                        cur <= m <= at && m + 1 < s@.len() implies !((#[trigger] s@[m]) == 0x5b
                        && s@[m + 1] == 0x5b) by {}
                    lemma_first_pair_step(s@, cur as int, (at + 1) as int, 0x5b);
                }
                cur = at + 1;
            },
        }
    }
}

/// Skipping past positions where no adjacent pair starts leaves
/// `first_pair_from` unchanged.
pub proof fn lemma_first_pair_step(s: Seq<u8>, from: int, to: int, b: u8)
    requires
        0 <= from <= to,
        forall|m: int|
            from <= m < to && m + 1 < s.len() ==> !((#[trigger] s[m]) == b && s[m + 1] == b),
    ensures
        first_pair_from(s, from, b) == first_pair_from(s, to, b),
    decreases to - from,
{
    if from < to {
        lemma_first_pair_step(s, from + 1, to, b);
    }
}

/// Body of the link that opens before `pos` and the position just past its
/// closing `]]`: everything from `pos` up to the first adjacent `]]`.
pub fn read_to_closing_tag(s: &[u8], pos: usize) -> (r: Option<(Vec<u8>, usize)>)
    requires
        pos <= s@.len(),
    ensures
        match r {
            Some(p) => {
                &&& first_close_from(s@, pos as int) == Some(p.1 - 2)
                &&& p.0@ == s@.subrange(pos as int, p.1 - 2)
                &&& pos + 2 <= p.1 <= s@.len()
            },
            None => first_close_from(s@, pos as int) is None,
        },
{
    let n = s.len();
    let mut cur: usize = pos;
    loop
        invariant
            pos <= cur <= n,
            n == s@.len(),
            first_close_from(s@, pos as int) == first_close_from(s@, cur as int),
        decreases n - cur,
    {
        proof {
            lemma_first_pair_bounds(s@, cur as int, 0x5d);
        }
        let sub = slice_subrange(s, cur, n);
        match memchr::memchr(0x5d, sub) {
            None => {
                proof {
                    assert forall|m: int|
                        cur <= m && m + 1 < s@.len() implies !((#[trigger] s@[m]) == 0x5d
                        && s@[m + 1] == 0x5d) by {
                        assert(s@[m] == sub@[m - cur]);
                    }
                    assert(first_pair_from(s@, cur as int, 0x5d) is None);
                }
                return None;
            },
            Some(k) => {
                let at = cur + k;
                proof {
                    assert(s@[at as int] == sub@[k as int]);
                    assert forall|m: int| cur <= m < at implies (#[trigger] s@[m]) != 0x5d by {
                        assert(s@[m] == sub@[m - cur]);
                    }
                }
                if at + 1 < n && *slice_index_get(s, at + 1) == 0x5d {
                    proof {
                        lemma_first_pair_step(s@, cur as int, at as int, 0x5d);
                    }
                    let body = slice_to_vec(slice_subrange(s, pos, at));
                    return Some((body, at + 2));
                }
                proof {
                    assert forall|m: int|
                        cur <= m <= at && m + 1 < s@.len() implies !((#[trigger] s@[m]) == 0x5d
                        && s@[m + 1] == 0x5d) by {}
                    lemma_first_pair_step(s@, cur as int, (at + 1) as int, 0x5d);
                }
                cur = at + 1;
            },
        }
    }
}

/// Leading whitespace of `s` runs to `lo` exactly when `trim_front` drops the
/// first `lo` bytes.
proof fn lemma_trim_front_skip(s: Seq<u8>, lo: int)
    requires
        0 <= lo <= s.len(),
        forall|k: int| 0 <= k < lo ==> is_ws(s[k]),
        lo == s.len() || !is_ws(s[lo]),
    ensures
        trim_front(s) == s.skip(lo),
    decreases lo,
{
    if lo == 0 {
        assert(s.skip(0) =~= s);
    } else {
        lemma_trim_front_skip(s.drop_first(), lo - 1);
        assert(s.drop_first().skip(lo - 1) =~= s.skip(lo));
    }
}

/// Trailing whitespace of `s` starts at `hi` exactly when `trim_back` keeps
/// the first `hi` bytes.
proof fn lemma_trim_back_take(s: Seq<u8>, hi: int)
    requires
        0 <= hi <= s.len(),
        forall|k: int| hi <= k < s.len() ==> is_ws(s[k]),
        hi == 0 || !is_ws(s[hi - 1]),
    ensures
        trim_back(s) == s.take(hi),
    decreases s.len() - hi,
{
    if hi == s.len() {
        assert(s.take(hi) =~= s);
    } else {
        lemma_trim_back_take(s.drop_last(), hi);
        assert(s.drop_last().take(hi) =~= s.take(hi));
    }
}

/// `trim_front` then `trim_back` is a subrange of the original.
proof fn lemma_trim_subrange(s: Seq<u8>, lo: int, hi: int)
    requires
        0 <= lo <= hi <= s.len(),
        forall|k: int| 0 <= k < lo ==> is_ws(s[k]),
        lo == s.len() || !is_ws(s[lo]),
        forall|k: int| hi <= k < s.len() ==> is_ws(s[k]),
        hi == lo || !is_ws(s[hi - 1]),
    ensures
        trim_back(trim_front(s)) == s.subrange(lo, hi),
{
    lemma_trim_front_skip(s, lo);
    let t = s.skip(lo);
    assert(forall|k: int| 0 <= k < t.len() ==> t[k] == s[k + lo]);
    lemma_trim_back_take(t, hi - lo);
    assert(t.take(hi - lo) =~= s.subrange(lo, hi));
}

/// Normalized target of a link body as a `String`, or `None` when the
/// normalized bytes are not well-formed UTF-8.
pub fn extract_link_target(buf: Vec<u8>) -> (r: Option<String>)
    ensures
        match r {
            Some(t) => valid_utf8(normalize(buf@)) && t@ == decode_utf8(normalize(buf@)),
            None => !valid_utf8(normalize(buf@)),
        },
{
    proof {
        lemma_first_stop_bounds(buf@, 0);
    }
    let end: usize = match memchr::memchr2(0x7c, 0x23, buf.as_slice()) {
        Some(i) => i,
        None => buf.len(),
    };
    let ghost trunc = truncate_at_stop(buf@);
    proof {
        assert(trunc =~= buf@.subrange(0, end as int));
    }
    let mut lo: usize = 0;
    while lo < end && is_ws_exec(buf[lo])
        invariant
            lo <= end <= buf.len(),
            forall|k: int| 0 <= k < lo ==> is_ws(buf@[k]),
        decreases end - lo,
    {
        lo += 1;
    }
    let mut hi: usize = end;
    while hi > lo && is_ws_exec(buf[hi - 1])
        invariant
            lo <= hi <= end <= buf.len(),
            forall|k: int| hi <= k < end ==> is_ws(buf@[k]),
        decreases hi,
    {
        hi -= 1;
    }
    proof {
        assert(forall|k: int| 0 <= k < trunc.len() ==> trunc[k] == buf@[k]);
        lemma_trim_subrange(trunc, lo as int, hi as int);
        assert(trunc.subrange(lo as int, hi as int) =~= buf@.subrange(lo as int, hi as int));
    }
    let target = slice_to_vec(slice_subrange(buf.as_slice(), lo, hi));
    utf8_to_string(target)
}

/// Exec counterpart of `is_ws`.
pub fn is_ws_exec(b: u8) -> (r: bool)
    ensures
        r == is_ws(b),
{
    b == 0x20 || b == 0x09 || b == 0x0a || b == 0x0c || b == 0x0d
}

/// Next link occurrence of `s` at or after `*pos`, advancing `*pos` past its
/// closing tag; `None` once the rest of the content holds no occurrence.
pub fn next_wikilink(s: &[u8], pos: &mut usize) -> (r: Option<(usize, String)>)
    requires
        *old(pos) <= s@.len(),
    ensures
        *final(pos) <= s@.len(),
        *old(pos) <= *final(pos),
        match r {
            Some(p) => {
                &&& scan_from(s@, *old(pos) as int).len() > 0
                &&& scan_from(s@, *old(pos) as int)[0] == (p.0 as int, p.1@)
                &&& scan_from(s@, *final(pos) as int) == scan_from(
                    s@,
                    *old(pos) as int,
                ).drop_first()
                &&& *old(pos) < *final(pos)
            },
            None => {
                &&& scan_from(s@, *old(pos) as int) == Seq::<(int, Seq<char>)>::empty()
                &&& scan_from(s@, *final(pos) as int) == Seq::<(int, Seq<char>)>::empty()
            },
        },
{
    let n = s.len();
    loop
        invariant
            *pos <= n == s@.len(),
            scan_from(s@, *pos as int) == scan_from(s@, *old(pos) as int),
            *old(pos) <= *pos,
        decreases s@.len() - *pos,
    {
        let ghost prev = *pos;
        let i = match skip_to_opening_tag(s, *pos) {
            Some(i) => i,
            None => {
                return None;
            },
        };
        proof {
            assert(i + 2 <= n);
        }
        let (body, after) = match read_to_closing_tag(s, i + 2) {
            Some(p) => p,
            None => {
                return None;
            },
        };
        let ghost t_bytes = normalize(s@.subrange(i + 2, after - 2));
        match extract_link_target(body) {
            None => {
                return None;
            },
            Some(t) => {
                if t.as_str().is_empty() {
                    proof {
                        vstd::utf8::decode_utf8_encode_utf8(t_bytes);
                        assert(t_bytes.len() == 0);
                        assert(scan_from(s@, prev as int) == scan_from(s@, after as int));
                    }
                    *pos = after;
                } else {
                    proof {
                        vstd::utf8::decode_utf8_encode_utf8(t_bytes);
                        assert(t_bytes.len() > 0);
                        assert(scan_from(s@, prev as int) == seq![(i as int, decode_utf8(t_bytes))]
                            + scan_from(s@, after as int));
                        assert(scan_from(s@, prev as int)[0] == (i as int, t@));
                        assert(scan_from(s@, prev as int).drop_first() =~= scan_from(
                            s@,
                            after as int,
                        ));
                    }
                    *pos = after;
                    return Some((i, t));
                }
            },
        }
    }
}

/// All link occurrences of `s`, in scan order.
pub fn read_wikilinks(s: &[u8]) -> (r: Vec<(usize, String)>)
    ensures
        links_view(r@) == links_of(s@),
{
    let mut out: Vec<(usize, String)> = Vec::new();
    let mut pos: usize = 0;
    loop
        invariant
            pos <= s@.len(),
            links_of(s@) == links_view(out@) + scan_from(s@, pos as int),
        decreases s@.len() - pos,
    {
        match next_wikilink(s, &mut pos) {
            None => {
                assert(links_view(out@) + scan_from(s@, pos as int) =~= links_view(out@));
                return out;
            },
            Some(p) => {
                out.push(p);
                proof {
                    assert(links_view(out@) =~= links_view(out@.drop_last()).push(
                        (p.0 as int, p.1@)));
                }
                assert(links_of(s@) =~= links_view(out@) + scan_from(s@, pos as int));
            },
        }
    }
}

/// Offsets of a scan are at or after its start and strictly ascend.
pub proof fn lemma_scan_offsets_ascending(s: Seq<u8>, pos: int)
    requires
        0 <= pos,
    ensures
        forall|k: int| 0 <= k < scan_from(s, pos).len() ==> pos <= #[trigger] scan_from(s, pos)[k].0,
        forall|k1: int, k2: int|
            0 <= k1 < k2 < scan_from(s, pos).len() ==> scan_from(s, pos)[k1].0 < scan_from(
                s,
                pos,
            )[k2].0,
    decreases s.len() - pos,
{
    lemma_first_pair_bounds(s, pos, 0x5b);
    if let Some(i) = first_open_from(s, pos) {
        lemma_first_pair_bounds(s, i + 2, 0x5d);
        if let Some(j) = first_close_from(s, i + 2) {
            lemma_scan_offsets_ascending(s, j + 2);
            let t = normalize(s.subrange(i + 2, j));
            let whole = scan_from(s, pos);
            let rest = scan_from(s, j + 2);
            if valid_utf8(t) && t.len() > 0 {
                assert(whole == seq![(i, decode_utf8(t))] + rest);
                assert forall|k: int| 0 <= k < whole.len() implies pos <= #[trigger] whole[k].0 by {
                    if k > 0 {
                        assert(whole[k] == rest[k - 1]);
                    }
                }
                assert forall|k1: int, k2: int|
                    0 <= k1 < k2 < whole.len() implies whole[k1].0 < whole[k2].0 by {
                    assert(whole[k2] == rest[k2 - 1]);
                    if k1 > 0 {
                        assert(whole[k1] == rest[k1 - 1]);
                    }
                }
            } else if valid_utf8(t) {
                assert(whole == rest);
            }
        }
    }
}

} // verus!
