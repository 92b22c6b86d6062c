//! The link graph over a realm snapshot: which files a node's content
//! points at (forward links) and which files point at a node (back links).
//! A snapshot is the list of node files with their content, in walk order;
//! every query is answered from it alone.

use vstd::prelude::*;
use crate::bytes::{fold_eq, fold_eq_exec, views_of};
use crate::resolve::{stem_matches, path_matches_node};
use crate::scan::{links_of, links_view, read_wikilinks};
use vstd::slice::slice_to_vec;
use vstd::utf8::encode_utf8;

verus! {

/// A node file of the realm: its path and the bytes of its content.
pub struct FileRecord {
    pub path: Vec<u8>,
    pub content: Vec<u8>,
}

/// Whether some link occurrence of the content names `nb`,
/// ASCII-case-insensitively.
pub open spec fn spec_links_to(c: Seq<u8>, nb: Seq<u8>) -> bool {
    exists|k: int|
        0 <= k < links_of(c).len() && fold_eq(encode_utf8(#[trigger] links_of(c)[k].1), nb)
}

/// The paths of the files whose content links to `nb`, in snapshot order.
pub open spec fn backlinks_spec(files: Seq<FileRecord>, nb: Seq<u8>) -> Seq<Seq<u8>>
    decreases files.len(),
{
    if files.len() == 0 {
        Seq::empty()
    } else {
        let rest = backlinks_spec(files.drop_last(), nb);
        if spec_links_to(files.last().content@, nb) {
            rest.push(files.last().path@)
        } else {
            rest
        }
    }
}

/// The first index whose path backs the node named `nb`, if any.
pub open spec fn first_match_idx(files: Seq<FileRecord>, nb: Seq<u8>) -> Option<int>
    decreases files.len(),
{
    if files.len() == 0 {
        None
    } else if stem_matches(files[0].path@, nb) {
        Some(0)
    } else {
        match first_match_idx(files.drop_first(), nb) {
            Some(i) => Some(i + 1),
            None => None,
        }
    }
}

pub proof fn lemma_first_match_is(files: Seq<FileRecord>, nb: Seq<u8>, i: int)
    requires
        0 <= i < files.len(),
        stem_matches(files[i].path@, nb),
        forall|j: int| 0 <= j < i ==> !stem_matches(#[trigger] files[j].path@, nb),
    ensures
        first_match_idx(files, nb) == Some(i),
    decreases files.len(),
{
    if i > 0 {
        assert(forall|j: int| 0 <= j < files.len() - 1 ==> files.drop_first()[j] == files[j + 1]);
        lemma_first_match_is(files.drop_first(), nb, i - 1);
    }
}

pub proof fn lemma_first_match_none(files: Seq<FileRecord>, nb: Seq<u8>)
    requires
        forall|j: int| 0 <= j < files.len() ==> !stem_matches(#[trigger] files[j].path@, nb),
    ensures
        first_match_idx(files, nb) is None,
    decreases files.len(),
{
    if files.len() > 0 {
        assert(forall|j: int| 0 <= j < files.len() - 1 ==> files.drop_first()[j] == files[j + 1]);
        lemma_first_match_none(files.drop_first(), nb);
    }
}

pub proof fn lemma_first_match_bounds(files: Seq<FileRecord>, nb: Seq<u8>)
    ensures
        first_match_idx(files, nb) matches Some(i) ==> 0 <= i < files.len() && stem_matches(
            files[i].path@,
            nb,
        ),
    decreases files.len(),
{
    if files.len() > 0 && !stem_matches(files[0].path@, nb) {
        lemma_first_match_bounds(files.drop_first(), nb);
        assert(forall|j: int| 0 <= j < files.len() - 1 ==> files.drop_first()[j] == files[j + 1]);
    }
}

/// Index of the first file backing `node`, the resolver's non-strict choice.
fn find_backing_idx(files: &Vec<FileRecord>, node: &str) -> (r: Option<usize>)
    ensures
        match r {
            Some(i) => first_match_idx(files@, encode_utf8(node@)) == Some(i as int),
            None => first_match_idx(files@, encode_utf8(node@)) is None,
        },
{
    let n = files.len();
    let mut i: usize = 0;
    while i < n
        invariant
            i <= n == files@.len(),
            forall|j: int| 0 <= j < i ==> !stem_matches(#[trigger] files@[j].path@, encode_utf8(node@)),
        decreases n - i,
    {
        if path_matches_node(&files[i].path, node) {
            proof {
                lemma_first_match_is(files@, encode_utf8(node@), i as int);
            }
            return Some(i);
        }
        i += 1;
    }
    proof {
        lemma_first_match_none(files@, encode_utf8(node@));
    }
    None
}

/// Whether the content holds at least one link occurrence whose target
/// ASCII-case-insensitively equals `node`.
pub fn file_links_to(content: &Vec<u8>, node: &str) -> (r: bool)
    ensures
        r == spec_links_to(content@, encode_utf8(node@)),
{
    let links = read_wikilinks(content.as_slice());
    let m = links.len();
    let mut k: usize = 0;
    while k < m
        invariant
            k <= m == links@.len(),
            links_view(links@) == links_of(content@),
            forall|q: int|
                0 <= q < k ==> !fold_eq(encode_utf8(#[trigger] links_of(content@)[q].1), encode_utf8(node@)),
        decreases m - k,
    {
        proof {
            assert(links_of(content@)[k as int].1 == links@[k as int].1@);
        }
        if fold_eq_exec(links[k].1.as_str().as_bytes(), node.as_bytes()) {
            return true;
        }
        k += 1;
    }
    false
}

/// The paths of the snapshot files whose content links to `node`, in
/// snapshot order.
pub fn back_links(files: &Vec<FileRecord>, node: &str) -> (r: Vec<Vec<u8>>)
    ensures
        views_of(r@) == backlinks_spec(files@, encode_utf8(node@)),
{
    let ghost nb = encode_utf8(node@);
    let n = files.len();
    let mut out: Vec<Vec<u8>> = Vec::new();
    let mut i: usize = 0;
    while i < n
        invariant
            i <= n == files@.len(),
            nb == encode_utf8(node@),
            views_of(out@) == backlinks_spec(files@.take(i as int), nb),
        decreases n - i,
    {
        proof {
            assert(files@.take(i + 1).drop_last() =~= files@.take(i as int));
            assert(files@.take(i + 1).last() == files@[i as int]);
        }
        if file_links_to(&files[i].content, node) {
            out.push(slice_to_vec(files[i].path.as_slice()));
            proof {
                assert(views_of(out@) =~= views_of(out@.drop_last()).push(files@[i as int].path@));
            }
        }
        i += 1;
    }
    proof {
        assert(files@.take(n as int) =~= files@);
    }
    out
}

/// The targets of a content's link occurrences, in scan order.
pub open spec fn targets_of(c: Seq<u8>) -> Seq<Seq<char>> {
    links_of(c).map(|i: int, l: (int, Seq<char>)| l.1)
}

/// The targets with ASCII-case-insensitive duplicates dropped, each kept at
/// its first occurrence.
pub open spec fn dedup_targets(ts: Seq<Seq<char>>) -> Seq<Seq<char>>
    decreases ts.len(),
{
    if ts.len() == 0 {
        Seq::empty()
    } else {
        let pre = dedup_targets(ts.drop_last());
        if exists|q: int|
            0 <= q < ts.len() - 1 && fold_eq(
                encode_utf8(#[trigger] ts[q]),
                encode_utf8(ts.last()),
            ) {
            pre
        } else {
            pre.push(ts.last())
        }
    }
}

/// The path of the first file backing `nb`, if one does.
pub open spec fn resolve_path(files: Seq<FileRecord>, nb: Seq<u8>) -> Option<Seq<u8>> {
    match first_match_idx(files, nb) {
        Some(i) => Some(files[i].path@),
        None => None,
    }
}

/// Each target paired with the file it resolves to, if any.
pub open spec fn resolved_targets(ts: Seq<Seq<char>>, files: Seq<FileRecord>) -> Seq<
    (Seq<char>, Option<Seq<u8>>),
> {
    ts.map(|i: int, t: Seq<char>| (t, resolve_path(files, encode_utf8(t))))
}

/// The forward links of the node named `nb`: the deduplicated targets of its
/// backing file's content, each resolved against the snapshot; empty when no
/// file backs the node.
pub open spec fn forward_spec(files: Seq<FileRecord>, nb: Seq<u8>) -> Seq<
    (Seq<char>, Option<Seq<u8>>),
> {
    match first_match_idx(files, nb) {
        None => Seq::empty(),
        Some(i) => resolved_targets(dedup_targets(targets_of(files[i].content@)), files),
    }
}

/// A link target of a node's content, with the file it resolves to, or
/// `None` when no file backs the target.
#[derive(Debug, PartialEq, Eq)]
pub struct ForwardLink {
    pub target: String,
    pub path: Option<Vec<u8>>,
}

/// View of a forward link at the level `forward_spec` speaks.
pub open spec fn fl_view(l: ForwardLink) -> (Seq<char>, Option<Seq<u8>>) {
    (
        l.target@,
        match l.path {
            Some(p) => Some(p@),
            None => None,
        },
    )
}

pub open spec fn fl_views(s: Seq<ForwardLink>) -> Seq<(Seq<char>, Option<Seq<u8>>)> {
    s.map(|i: int, l: ForwardLink| fl_view(l))
}

/// The forward links of `node`: unique targets of its backing file, in
/// first-occurrence order, each with its resolved path.
pub fn forward_links(files: &Vec<FileRecord>, node: &str) -> (r: Vec<ForwardLink>)
    ensures
        fl_views(r@) == forward_spec(files@, encode_utf8(node@)),
{
    let ghost nb = encode_utf8(node@);
    let idx = match find_backing_idx(files, node) {
        Some(i) => i,
        None => {
            let r: Vec<ForwardLink> = Vec::new();
            assert(fl_views(r@) =~= forward_spec(files@, nb));
            return r;
        },
    };
    proof {
        lemma_first_match_bounds(files@, nb);
    }
    let links = read_wikilinks(files[idx].content.as_slice());
    let ghost ts = targets_of(files@[idx as int].content@);
    proof {
        assert(ts.len() == links@.len());
        assert(forall|k: int| 0 <= k < ts.len() ==> ts[k] == links@[k].1@);
    }
    let m = links.len();
    let mut chosen: Vec<String> = Vec::new();
    let mut i: usize = 0;
    while i < m
        invariant
            i <= m == links@.len(),
            idx < files@.len(),
            ts == targets_of(files@[idx as int].content@),
            ts.len() == links@.len(),
            forall|k: int| 0 <= k < ts.len() ==> ts[k] == (#[trigger] links@[k]).1@,
            str_views(chosen@) == dedup_targets(ts.take(i as int)),
        decreases m - i,
    {
        let mut dup = false;
        let mut j: usize = 0;
        while j < i && !dup
            invariant
                j <= i < ts.len() == links@.len(),
                forall|k: int| 0 <= k < ts.len() ==> ts[k] == (#[trigger] links@[k]).1@,
                dup ==> exists|q: int|
                    0 <= q < i && fold_eq(encode_utf8(#[trigger] ts[q]), encode_utf8(ts[i as int])),
                !dup ==> forall|q: int|
                    0 <= q < j ==> !fold_eq(
                        encode_utf8(#[trigger] ts[q]),
                        encode_utf8(ts[i as int]),
                    ),
            decreases i - j,
        {
            if fold_eq_exec(links[j].1.as_str().as_bytes(), links[i].1.as_str().as_bytes()) {
                proof {
                    assert(ts[j as int] == links@[j as int].1@);
                    assert(ts[i as int] == links@[i as int].1@);
                }
                dup = true;
                j += 1;
            } else {
                j += 1;
            }
        }
        proof {
            assert(ts.take(i + 1).drop_last() =~= ts.take(i as int));
            assert(ts.take(i + 1).last() == ts[i as int]);
            assert(forall|q: int| 0 <= q < i ==> ts.take(i + 1)[q] == ts[q]);
        }
        if !dup {
            chosen.push(links[i].1.clone());
            proof {
                assert(str_views(chosen@) =~= str_views(chosen@.drop_last()).push(ts[i as int]));
            }
        }
        i += 1;
    }
    proof {
        assert(ts.take(m as int) =~= ts);
    }
    let ghost ds = dedup_targets(ts);
    let c = chosen.len();
    let mut out: Vec<ForwardLink> = Vec::new();
    let mut k: usize = 0;
    while k < c
        invariant
            k <= c == chosen@.len(),
            ds == str_views(chosen@),
            forward_spec(files@, nb) == resolved_targets(ds, files@),
            fl_views(out@) == resolved_targets(ds, files@).take(k as int),
        decreases c - k,
    {
        let target = chosen[k].clone();
        let p: Option<Vec<u8>> = match find_backing_idx(files, target.as_str()) {
            Some(i2) => {
                proof {
                    lemma_first_match_bounds(files@, encode_utf8(target@));
                }
                Some(slice_to_vec(files[i2].path.as_slice()))
            },
            None => None,
        };
        let ghost new_link = ForwardLink { target, path: p };
        proof {
            assert(target@ == ds[k as int]);
            assert(resolved_targets(ds, files@)[k as int] == (
                ds[k as int],
                resolve_path(files@, encode_utf8(ds[k as int])),
            ));
            assert(fl_view(new_link) == resolved_targets(ds, files@)[k as int]);
        }
        out.push(ForwardLink { target, path: p });
        proof {
            assert(fl_views(out@) =~= fl_views(out@.drop_last()).push(
                resolved_targets(ds, files@)[k as int],
            ));
            assert(resolved_targets(ds, files@).take(k + 1) =~= resolved_targets(
                ds,
                files@,
            ).take(k as int).push(resolved_targets(ds, files@)[k as int]));
        }
        k += 1;
    }
    proof {
        assert(resolved_targets(ds, files@).take(c as int) =~= resolved_targets(ds, files@));
    }
    out
}

/// View of a list of strings as character sequences.
pub open spec fn str_views(s: Seq<String>) -> Seq<Seq<char>> {
    s.map(|i: int, t: String| t@)
}

/// Both halves of a node's link neighbourhood: back links first, then
/// forward links, each computed independently and not merged.
pub struct LinkReport {
    pub backlinks: Vec<Vec<u8>>,
    pub forwardlinks: Vec<ForwardLink>,
}

/// The back links and forward links of `node`, answered from one snapshot.
pub fn links(files: &Vec<FileRecord>, node: &str) -> (r: LinkReport)
    ensures
        views_of(r.backlinks@) == backlinks_spec(files@, encode_utf8(node@)),
        fl_views(r.forwardlinks@) == forward_spec(files@, encode_utf8(node@)),
{
    let backlinks = back_links(files, node);
    let forwardlinks = forward_links(files, node);
    LinkReport { backlinks, forwardlinks }
}

} // verus!
