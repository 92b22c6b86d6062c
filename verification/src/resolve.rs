//! Node resolution: matching a case-insensitive node name against the
//! realm's node files by their stems, with multiplicity as a first-class
//! outcome — ambiguity is fatal only when the caller asks for strictness.

use vstd::prelude::*;
use crate::bytes::{fold_eq, fold_eq_exec, views_of};
use crate::paths::node_name_of;
use vstd::slice::slice_to_vec;
use vstd::utf8::encode_utf8;

verus! {

/// Whether the path's node name ASCII-case-insensitively equals `nb`.
pub open spec fn stem_matches(p: Seq<u8>, nb: Seq<u8>) -> bool {
    match node_name_of(p) {
        Some(st) => fold_eq(st, nb),
        None => false,
    }
}

/// The paths whose node name matches `nb`, in the order given.
pub open spec fn matches_spec(ps: Seq<Seq<u8>>, nb: Seq<u8>) -> Seq<Seq<u8>>
    decreases ps.len(),
{
    if ps.len() == 0 {
        Seq::empty()
    } else {
        let rest = matches_spec(ps.drop_last(), nb);
        if stem_matches(ps.last(), nb) {
            rest.push(ps.last())
        } else {
            rest
        }
    }
}

/// Whether two names are ASCII-case-insensitively equal, the equality by
/// which targets, stems and node names are compared throughout.
pub fn names_equal(a: &str, b: &str) -> (r: bool)
    ensures
        r == fold_eq(encode_utf8(a@), encode_utf8(b@)),
{
    fold_eq_exec(a.as_bytes(), b.as_bytes())
}

/// Exec check of `stem_matches` against a node name given as a string.
pub fn path_matches_node(path: &Vec<u8>, node: &str) -> (r: bool)
    ensures
        r == stem_matches(path@, encode_utf8(node@)),
{
    match crate::paths::node_from_path(path) {
        Some(st) => fold_eq_exec(st.as_slice(), node.as_bytes()),
        None => false,
    }
}

/// The files among `files` backing the node named `node`, in the order the
/// walk yielded them.
pub fn find_node(files: &Vec<Vec<u8>>, node: &str) -> (r: Vec<Vec<u8>>)
    ensures
        views_of(r@) == matches_spec(views_of(files@), encode_utf8(node@)),
{
    let ghost nb = encode_utf8(node@);
    let n = files.len();
    let mut out: Vec<Vec<u8>> = Vec::new();
    let mut i: usize = 0;
    while i < n
        invariant
            i <= n == files@.len(),
            nb == encode_utf8(node@),
            views_of(out@) == matches_spec(views_of(files@).take(i as int), nb),
        decreases n - i,
    {
        proof {
            assert(views_of(files@).take(i + 1).drop_last() =~= views_of(files@).take(i as int));
            assert(views_of(files@).take(i + 1).last() == files@[i as int]@);
        }
        if path_matches_node(&files[i], node) {
            out.push(slice_to_vec(files[i].as_slice()));
            proof {
                assert(views_of(out@) =~= views_of(out@.drop_last()).push(files@[i as int]@));
            }
        }
        i += 1;
    }
    proof {
        assert(views_of(files@).take(n as int) =~= views_of(files@));
    }
    out
}

/// More than one file backed the same node name; `count` says how many.
#[derive(Debug, PartialEq, Eq)]
pub struct AmbiguousName {
    pub count: usize,
}

/// The single file backing `node`: `Ok(None)` when no file matches,
/// `Ok(Some(first))` when exactly one matches or when several do and the
/// caller accepts the first; `Err` with the match count when several match
/// under `strict`.
pub fn find_node_once(files: &Vec<Vec<u8>>, node: &str, strict: bool) -> (r: Result<
    Option<Vec<u8>>,
    AmbiguousName,
>)
    ensures
        ({
            let m = matches_spec(views_of(files@), encode_utf8(node@));
            match r {
                Ok(None) => m.len() == 0,
                Ok(Some(p)) => m.len() >= 1 && p@ == m[0] && (strict ==> m.len() == 1),
                Err(e) => strict && m.len() > 1 && e.count == m.len(),
            }
        }),
{
    let mut m = find_node(files, node);
    let count = m.len();
    if count == 0 {
        return Ok(None);
    }
    if count > 1 && strict {
        return Err(AmbiguousName { count });
    }
    let ghost mv = m@;
    let first = m.remove(0);
    proof {
        assert(first@ == views_of(mv)[0]);
    }
    Ok(Some(first))
}

/// The file backing `node`, best effort: the first match, or `None` when no
/// file matches.
pub fn path_to_node(files: &Vec<Vec<u8>>, node: &str) -> (r: Option<Vec<u8>>)
    ensures
        ({
            let m = matches_spec(views_of(files@), encode_utf8(node@));
            match r {
                Some(p) => m.len() >= 1 && p@ == m[0],
                None => m.len() == 0,
            }
        }),
{
    match find_node_once(files, node, false) {
        Ok(r) => r,
        Err(_) => {
            proof {
                assert(false);
            }
            None
        },
    }
}

} // verus!
