//! The streaming scanner: a finite-state cursor fed one chunk of bytes at a
//! time, carrying its state across chunk boundaries. Feeding the same bytes
//! in any chunking yields the same occurrences, and what it yields is
//! exactly what `scan_from` says of the bytes fed so far.

use vstd::prelude::*;
use vstd::utf8::{valid_utf8, decode_utf8};
use vstd::slice::{slice_index_get, slice_to_vec};
use crate::scan::{normalize, scan_from, links_view, extract_link_target};

verus! {

/// State of the scanning cursor between two bytes.
pub ghost enum ScanState {
    /// Looking for an opening pair; `prev_open` records whether the byte
    /// just consumed was a `[` that may begin one.
    Seek { prev_open: bool },
    /// Inside a link body opened at `start`; `prev_close` records whether
    /// the byte just consumed was a `]` that may begin the closing pair.
    Body { start: int, body: Seq<u8>, prev_close: bool },
    /// A link body failed to decode; the rest of the stream yields nothing.
    Dead,
}

/// The cursor together with what it has consumed and emitted.
pub ghost struct ScanMachine {
    pub state: ScanState,
    pub off: int,
    pub out: Seq<(int, Seq<char>)>,
}

/// One byte of progress of the scanning cursor.
pub open spec fn scan_step(m: ScanMachine, b: u8) -> ScanMachine {
    let off = m.off;
    match m.state {
        ScanState::Dead => ScanMachine { state: ScanState::Dead, off: off + 1, out: m.out },
        ScanState::Seek { prev_open } => {
            if b == 0x5b {
                if prev_open {
                    ScanMachine {
                        state: ScanState::Body {
                            start: off - 1,
                            body: Seq::empty(),
                            prev_close: false,
                        },
                        off: off + 1,
                        out: m.out,
                    }
                } else {
                    ScanMachine { state: ScanState::Seek { prev_open: true }, off: off + 1, out: m.out }
                }
            } else {
                ScanMachine { state: ScanState::Seek { prev_open: false }, off: off + 1, out: m.out }
            }
        },
        ScanState::Body { start, body, prev_close } => {
            if b == 0x5d {
                if prev_close {
                    let t = normalize(body);
                    if !valid_utf8(t) {
                        ScanMachine { state: ScanState::Dead, off: off + 1, out: m.out }
                    } else if t.len() == 0 {
                        ScanMachine {
                            state: ScanState::Seek { prev_open: false },
                            off: off + 1,
                            out: m.out,
                        }
                    } else {
                        ScanMachine {
                            state: ScanState::Seek { prev_open: false },
                            off: off + 1,
                            out: m.out.push((start, decode_utf8(t))),
                        }
                    }
                } else {
                    ScanMachine {
                        state: ScanState::Body { start, body, prev_close: true },
                        off: off + 1,
                        out: m.out,
                    }
                }
            } else {
                let grown = if prev_close {
                    body.push(0x5d).push(b)
                } else {
                    body.push(b)
                };
                ScanMachine {
                    state: ScanState::Body { start, body: grown, prev_close: false },
                    off: off + 1,
                    out: m.out,
                }
            }
        },
    }
}

/// The cursor before any byte.
pub open spec fn scan_init() -> ScanMachine {
    ScanMachine { state: ScanState::Seek { prev_open: false }, off: 0, out: Seq::empty() }
}

/// The cursor after consuming all of `s`: the fold of `scan_step`.
pub open spec fn scan_run(s: Seq<u8>) -> ScanMachine
    decreases s.len(),
{
    if s.len() == 0 {
        scan_init()
    } else {
        scan_step(scan_run(s.drop_last()), s.last())
    }
}

/// The cursor run forward from a given state over the bytes of `s`.
pub open spec fn scan_run_from(m: ScanMachine, s: Seq<u8>) -> ScanMachine
    decreases s.len(),
{
    if s.len() == 0 {
        m
    } else {
        scan_run_from(scan_step(m, s[0]), s.drop_first())
    }
}

proof fn lemma_run_from_push(m: ScanMachine, s: Seq<u8>, b: u8)
    ensures
        scan_run_from(m, s.push(b)) == scan_step(scan_run_from(m, s), b),
    decreases s.len(),
{
    if s.len() == 0 {
        assert(s.push(b)[0] == b);
        assert(s.push(b).drop_first() =~= Seq::<u8>::empty());
        assert(scan_run_from(m, s.push(b)) == scan_run_from(
            scan_step(m, b),
            s.push(b).drop_first(),
        ));
        assert(scan_run_from(scan_step(m, b), s.push(b).drop_first()) == scan_step(m, b));
        assert(scan_run_from(m, s) == m);
    } else {
        assert(s.push(b)[0] == s[0]);
        assert(s.push(b).drop_first() =~= s.drop_first().push(b));
        assert(scan_run_from(m, s.push(b)) == scan_run_from(
            scan_step(m, s[0]),
            s.drop_first().push(b),
        ));
        lemma_run_from_push(scan_step(m, s[0]), s.drop_first(), b);
        assert(scan_run_from(m, s) == scan_run_from(scan_step(m, s[0]), s.drop_first()));
    }
}

proof fn lemma_run_eq_run_from(s: Seq<u8>)
    ensures
        scan_run(s) == scan_run_from(scan_init(), s),
    decreases s.len(),
{
    if s.len() > 0 {
        lemma_run_eq_run_from(s.drop_last());
        lemma_run_from_push(scan_init(), s.drop_last(), s.last());
        assert(s.drop_last().push(s.last()) =~= s);
    }
}

/// What the declarative scan says of a link already opened at `start`,
/// before its closing pair has been seen.
pub open spec fn body_tail(s: Seq<u8>, start: int) -> Seq<(int, Seq<char>)> {
    match crate::scan::first_close_from(s, start + 2) {
        None => Seq::empty(),
        Some(j) => {
            let t = normalize(s.subrange(start + 2, j));
            if !valid_utf8(t) {
                Seq::empty()
            } else if t.len() == 0 {
                scan_from(s, j + 2)
            } else {
                seq![(start, decode_utf8(t))] + scan_from(s, j + 2)
            }
        },
    }
}

/// The state invariant of a cursor standing at `m.off` within `s`, and what
/// the rest of the stream will add to its output.
pub open spec fn cursor_inv(s: Seq<u8>, m: ScanMachine) -> bool {
    &&& 0 <= m.off <= s.len()
    &&& match m.state {
        ScanState::Seek { prev_open } => prev_open == (m.off > 0 && s[m.off - 1] == 0x5b),
        ScanState::Body { start, body, prev_close } => {
            &&& 0 <= start && start + 2 <= m.off
            &&& s[start] == 0x5b && s[start + 1] == 0x5b
            &&& prev_close == (m.off > start + 2 && s[m.off - 1] == 0x5d)
            &&& body == s.subrange(start + 2, m.off - (if prev_close { 1int } else { 0int }))
            &&& forall|q: int|
                start + 2 <= q < m.off - 1 ==> !((#[trigger] s[q]) == 0x5d && s[q + 1] == 0x5d)
        },
        ScanState::Dead => true,
    }
}

/// What the cursor will have emitted once the rest of `s` is consumed.
pub open spec fn cursor_rest(s: Seq<u8>, m: ScanMachine) -> Seq<(int, Seq<char>)> {
    match m.state {
        ScanState::Seek { prev_open } => scan_from(s, m.off - (if prev_open { 1int } else { 0int })),
        ScanState::Body { start, body, prev_close } => body_tail(s, start),
        ScanState::Dead => Seq::empty(),
    }
}

/// Running the cursor over the rest of `s` emits exactly what the
/// declarative scan says is left.
proof fn lemma_cursor_matches_scan(s: Seq<u8>, m: ScanMachine)
    requires
        cursor_inv(s, m),
    ensures
        scan_run_from(m, s.skip(m.off)).out == m.out + cursor_rest(s, m),
    decreases s.len() - m.off,
{
    let off = m.off;
    let rest = s.skip(off);
    if off == s.len() {
        assert(rest =~= Seq::<u8>::empty());
        match m.state {
            ScanState::Seek { prev_open } => {
                assert(cursor_rest(s, m) =~= Seq::<(int, Seq<char>)>::empty());
            },
            ScanState::Body { start, body, prev_close } => {
                crate::scan::lemma_first_pair_bounds(s, start + 2, 0x5d);
                assert(cursor_rest(s, m) =~= Seq::<(int, Seq<char>)>::empty());
            },
            ScanState::Dead => {},
        }
        assert(m.out + cursor_rest(s, m) =~= m.out);
    } else {
        let b = s[off];
        let m2 = scan_step(m, b);
        assert(rest[0] == b);
        assert(rest.drop_first() =~= s.skip(off + 1));
        assert(scan_run_from(m, rest) == scan_run_from(m2, s.skip(off + 1)));
        match m.state {
            ScanState::Seek { prev_open } => {
                if b == 0x5b && prev_open {
                    let start = off - 1;
                    assert(m2.state == (ScanState::Body {
                        start,
                        body: Seq::<u8>::empty(),
                        prev_close: false,
                    }));
                    assert(Seq::<u8>::empty() =~= s.subrange(start + 2, off + 1));
                    assert(cursor_inv(s, m2));
                    lemma_cursor_matches_scan(s, m2);
                    assert(crate::scan::first_open_from(s, start) == Some(start));
                    assert(cursor_rest(s, m) == scan_from(s, start));
                    crate::scan::lemma_first_pair_bounds(s, start + 2, 0x5d);
                    match crate::scan::first_close_from(s, start + 2) {
                        None => {
                            assert(scan_from(s, start) == body_tail(s, start));
                        },
                        Some(j) => {
                            let t = normalize(s.subrange(start + 2, j));
                            if !valid_utf8(t) {
                                assert(scan_from(s, start) == Seq::<(int, Seq<char>)>::empty());
                                assert(body_tail(s, start) == Seq::<(int, Seq<char>)>::empty());
                            } else if t.len() == 0 {
                                assert(scan_from(s, start) == scan_from(s, j + 2));
                                assert(body_tail(s, start) == scan_from(s, j + 2));
                            } else {
                                assert(scan_from(s, start) == seq![(start, decode_utf8(t))]
                                    + scan_from(s, j + 2));
                                assert(body_tail(s, start) == seq![(start, decode_utf8(t))]
                                    + scan_from(s, j + 2));
                            }
                        },
                    }
                } else if b == 0x5b {
                    assert(cursor_inv(s, m2));
                    lemma_cursor_matches_scan(s, m2);
                } else {
                    assert(cursor_inv(s, m2));
                    lemma_cursor_matches_scan(s, m2);
                    let p1 = off - (if prev_open { 1int } else { 0int });
                    assert forall|q: int|
                        p1 <= q < off + 1 && q + 1 < s.len() implies !((#[trigger] s[q]) == 0x5b
                        && s[q + 1] == 0x5b) by {}
                    crate::scan::lemma_first_pair_step(s, p1, off + 1, 0x5b);
                    assert(cursor_rest(s, m) == cursor_rest(s, m2));
                }
            },
            ScanState::Body { start, body, prev_close } => {
                if b == 0x5d && prev_close {
                    let j = off - 1;
                    assert forall|q: int|
                        start + 2 <= q < j && q + 1 < s.len() implies !((#[trigger] s[q]) == 0x5d
                        && s[q + 1] == 0x5d) by {}
                    crate::scan::lemma_first_pair_step(s, start + 2, j, 0x5d);
                    assert(crate::scan::first_close_from(s, start + 2) == Some(j));
                    let t = normalize(s.subrange(start + 2, j));
                    assert(body == s.subrange(start + 2, j));
                    if !valid_utf8(t) {
                        assert(cursor_inv(s, m2));
                        lemma_cursor_matches_scan(s, m2);
                        assert(cursor_rest(s, m) =~= Seq::<(int, Seq<char>)>::empty());
                    } else if t.len() == 0 {
                        assert(cursor_inv(s, m2));
                        lemma_cursor_matches_scan(s, m2);
                        assert(cursor_rest(s, m) == scan_from(s, j + 2));
                        assert(cursor_rest(s, m2) == scan_from(s, off + 1));
                    } else {
                        assert(cursor_inv(s, m2));
                        lemma_cursor_matches_scan(s, m2);
                        assert(m2.out =~= m.out.push((start, decode_utf8(t))));
                        assert(m2.out + scan_from(s, off + 1) =~= m.out + (seq![
                            (start, decode_utf8(t)),
                        ] + scan_from(s, off + 1)));
                        assert(cursor_rest(s, m) == seq![(start, decode_utf8(t))] + scan_from(
                            s,
                            off + 1,
                        ));
                    }
                } else if b == 0x5d {
                    assert(s.subrange(start + 2, off) =~= s.subrange(start + 2, off));
                    assert(cursor_inv(s, m2));
                    lemma_cursor_matches_scan(s, m2);
                } else {
                    let grown = if prev_close {
                        body.push(0x5d).push(b)
                    } else {
                        body.push(b)
                    };
                    assert(grown =~= s.subrange(start + 2, off + 1));
                    assert(cursor_inv(s, m2));
                    lemma_cursor_matches_scan(s, m2);
                }
            },
            ScanState::Dead => {
                lemma_cursor_matches_scan(s, m2);
            },
        }
    }
}

/// Chunk-boundary invariance: a cursor fed the bytes of `s` in chunks of
/// any size emits exactly the occurrences the declarative scan finds in
/// `s`, since its output is a function of the concatenated stream alone.
pub proof fn lemma_run_matches_scan(s: Seq<u8>)
    ensures
        scan_run(s).out == scan_from(s, 0),
{
    lemma_run_eq_run_from(s);
    assert(cursor_inv(s, scan_init()));
    lemma_cursor_matches_scan(s, scan_init());
    assert(s.skip(0) =~= s);
    assert(scan_run_from(scan_init(), s).out == Seq::<(int, Seq<char>)>::empty() + scan_from(s, 0));
    assert(Seq::<(int, Seq<char>)>::empty() + scan_from(s, 0) =~= scan_from(s, 0));
}

/// The streaming scanner. Bytes are handed to [`Scanner::feed`] in chunks
/// of any size; link occurrences are returned as soon as their closing tag
/// has been consumed, with offsets counted from the first byte ever fed.
pub struct Scanner {
    dead: bool,
    in_body: bool,
    prev_flag: bool,
    start: usize,
    body: Vec<u8>,
    off: usize,
    consumed: Ghost<Seq<u8>>,
}

impl Scanner {
    /// The bytes this scanner has consumed so far.
    pub closed spec fn stream(&self) -> Seq<u8> {
        self.consumed@
    }

    /// The exec fields mirror the state of `scan_run` on the stream.
    pub closed spec fn wf(&self) -> bool {
        let m = scan_run(self.stream());
        &&& self.off == self.stream().len()
        &&& m.off == self.off
        &&& match m.state {
            ScanState::Dead => self.dead,
            ScanState::Seek { prev_open } => !self.dead && !self.in_body && self.prev_flag
                == prev_open,
            ScanState::Body { start, body, prev_close } => {
                &&& !self.dead
                &&& self.in_body
                &&& self.prev_flag == prev_close
                &&& self.start == start
                &&& self.body@ == body
            },
        }
    }

    /// A fresh scanner that has consumed nothing.
    pub fn new() -> (r: Scanner)
        ensures
            r.wf(),
            r.stream() == Seq::<u8>::empty(),
    {
        Scanner {
            dead: false,
            in_body: false,
            prev_flag: false,
            start: 0,
            body: Vec::new(),
            off: 0,
            consumed: Ghost(Seq::empty()),
        }
    }

    /// Consumes one more chunk and returns the occurrences whose closing
    /// tags it completed: the occurrences of the whole stream so far, past
    /// the ones already returned.
    pub fn feed(&mut self, chunk: &[u8]) -> (r: Vec<(usize, String)>)
        requires
            old(self).wf(),
            old(self).stream().len() + chunk@.len() <= usize::MAX,
        ensures
            final(self).wf(),
            final(self).stream() == old(self).stream() + chunk@,
            scan_run(final(self).stream()).out == scan_run(old(self).stream()).out + links_view(
                r@,
            ),
    {
        let n = chunk.len();
        let mut out: Vec<(usize, String)> = Vec::new();
        let mut i: usize = 0;
        while i < n
            invariant
                i <= n == chunk@.len(),
                self.wf(),
                self.stream() == old(self).stream() + chunk@.take(i as int),
                self.stream().len() + (n - i) <= usize::MAX,
                scan_run(self.stream()).out == scan_run(old(self).stream()).out + links_view(
                    out@,
                ),
            decreases n - i,
        {
            let b = *slice_index_get(chunk, i);
            let ghost pre = self.stream();
            proof {
                self.consumed@ = self.consumed@.push(b);
                assert(self.stream().drop_last() =~= pre);
                assert(self.stream() =~= old(self).stream() + chunk@.take(i + 1));
                assert(scan_run(self.stream()) == scan_step(scan_run(pre), b));
            }
            self.off = self.off + 1;
            if self.dead {
                // nothing: the stream is exhausted for scanning purposes
            } else if !self.in_body {
                if b == 0x5b {
                    if self.prev_flag {
                        self.in_body = true;
                        self.prev_flag = false;
                        self.start = self.off - 2;
                        self.body = Vec::new();
                    } else {
                        self.prev_flag = true;
                    }
                } else {
                    self.prev_flag = false;
                }
            } else {
                if b == 0x5d {
                    if self.prev_flag {
                        let body = slice_to_vec(self.body.as_slice());
                        self.body = Vec::new();
                        let ghost bodyv = body@;
                        self.in_body = false;
                        self.prev_flag = false;
                        match extract_link_target(body) {
                            None => {
                                self.dead = true;
                            },
                            Some(t) => {
                                if !t.as_str().is_empty() {
                                    proof {
                                        vstd::utf8::decode_utf8_encode_utf8(normalize(bodyv));
                                    }
                                    let start = self.start;
                                    out.push((start, t));
                                    proof {
                                        assert(links_view(out@) =~= links_view(
                                            out@.drop_last(),
                                        ).push((start as int, out@.last().1@)));
                                        assert(scan_run(self.stream()).out =~= scan_run(
                                            old(self).stream(),
                                        ).out + links_view(out@));
                                    }
                                } else {
                                    proof {
                                        vstd::utf8::decode_utf8_encode_utf8(normalize(bodyv));
                                    }
                                }
                            },
                        }
                    } else {
                        self.prev_flag = true;
                    }
                } else {
                    if self.prev_flag {
                        self.body.push(0x5d);
                        self.body.push(b);
                        self.prev_flag = false;
                    } else {
                        self.body.push(b);
                    }
                }
            }
            proof {
                assert(scan_run(self.stream()).out =~= scan_run(old(self).stream()).out
                    + links_view(out@));
            }
            i += 1;
        }
        proof {
            assert(chunk@.take(n as int) =~= chunk@);
        }
        out
    }
}

} // verus!
