//! Properties that hold across the resolver and the link graph, stated over
//! the same specification functions the executable contracts use.

use vstd::prelude::*;
use crate::bytes::fold;
use crate::bytes::fold_eq;
use crate::resolve::matches_spec;
use crate::graph::{
    FileRecord, spec_links_to, backlinks_spec, first_match_idx, forward_spec, dedup_targets,
    targets_of, resolved_targets,
};
use vstd::utf8::encode_utf8;

verus! {

/// Resolution is ASCII-case-insensitive: two names that fold to the same
/// bytes match exactly the same files.
pub proof fn lemma_matches_case_insensitive(ps: Seq<Seq<u8>>, n1: Seq<u8>, n2: Seq<u8>)
    requires
        fold(n1) == fold(n2),
    ensures
        matches_spec(ps, n1) == matches_spec(ps, n2),
    decreases ps.len(),
{
    if ps.len() > 0 {
        lemma_matches_case_insensitive(ps.drop_last(), n1, n2);
    }
}

/// A content links to a name independently of the name's ASCII case.
pub proof fn lemma_links_to_case_insensitive(c: Seq<u8>, n1: Seq<u8>, n2: Seq<u8>)
    requires
        fold(n1) == fold(n2),
    ensures
        spec_links_to(c, n1) == spec_links_to(c, n2),
{
}

/// The back links of a node are the same under any ASCII spelling of its
/// name.
pub proof fn lemma_backlinks_case_insensitive(files: Seq<FileRecord>, n1: Seq<u8>, n2: Seq<u8>)
    requires
        fold(n1) == fold(n2),
    ensures
        backlinks_spec(files, n1) == backlinks_spec(files, n2),
    decreases files.len(),
{
    if files.len() > 0 {
        lemma_backlinks_case_insensitive(files.drop_last(), n1, n2);
        lemma_links_to_case_insensitive(files.last().content@, n1, n2);
    }
}

/// A node resolves to the same backing file under any ASCII spelling of its
/// name.
pub proof fn lemma_resolution_case_insensitive(files: Seq<FileRecord>, n1: Seq<u8>, n2: Seq<u8>)
    requires
        fold(n1) == fold(n2),
    ensures
        first_match_idx(files, n1) == first_match_idx(files, n2),
    decreases files.len(),
{
    if files.len() > 0 {
        lemma_resolution_case_insensitive(files.drop_first(), n1, n2);
    }
}

/// The forward links of a node are the same under any ASCII spelling of its
/// name.
pub proof fn lemma_forward_case_insensitive(files: Seq<FileRecord>, n1: Seq<u8>, n2: Seq<u8>)
    requires
        fold(n1) == fold(n2),
    ensures
        forward_spec(files, n1) == forward_spec(files, n2),
{
    lemma_resolution_case_insensitive(files, n1, n2);
}

/// A file whose content links to a name stands among that name's back
/// links.
pub proof fn lemma_backlinks_complete(files: Seq<FileRecord>, nb: Seq<u8>, i: int)
    requires
        0 <= i < files.len(),
        spec_links_to(files[i].content@, nb),
    ensures
        backlinks_spec(files, nb).contains(files[i].path@),
    decreases files.len(),
{
    let b = backlinks_spec(files, nb);
    if i == files.len() - 1 {
        assert(b.last() == files[i].path@);
        assert(b.contains(files[i].path@)) by {
            assert(b[b.len() - 1] == files[i].path@);
        }
    } else {
        lemma_backlinks_complete(files.drop_last(), nb, i);
        let rest = backlinks_spec(files.drop_last(), nb);
        let j = choose|j: int| 0 <= j < rest.len() && rest[j] == files[i].path@;
        assert(b[j] == files[i].path@);
    }
}

/// Every back link of a name is the path of a snapshot file whose content
/// links to the name.
pub proof fn lemma_backlinks_sound(files: Seq<FileRecord>, nb: Seq<u8>, p: Seq<u8>)
    requires
        backlinks_spec(files, nb).contains(p),
    ensures
        exists|i: int|
            0 <= i < files.len() && (#[trigger] files[i]).path@ == p && spec_links_to(
                files[i].content@,
                nb,
            ),
    decreases files.len(),
{
    let b = backlinks_spec(files, nb);
    let rest = backlinks_spec(files.drop_last(), nb);
    let j = choose|j: int| 0 <= j < b.len() && b[j] == p;
    if spec_links_to(files.last().content@, nb) && j == b.len() - 1 {
        assert(files[files.len() - 1].path@ == p);
    } else {
        assert(rest[j] == p);
        assert(rest.contains(p));
        lemma_backlinks_sound(files.drop_last(), nb, p);
        let i = choose|i: int|
            0 <= i < files.drop_last().len() && (#[trigger] files.drop_last()[i]).path@ == p
                && spec_links_to(files.drop_last()[i].content@, nb);
        assert(files[i] == files.drop_last()[i]);
    }
}

/// Deduplication keeps a representative of every target: for each target of
/// the list there is a kept one that folds to the same bytes.
pub proof fn lemma_dedup_covers(ts: Seq<Seq<char>>, k: int)
    requires
        0 <= k < ts.len(),
    ensures
        exists|c: Seq<char>|
            #[trigger] dedup_targets(ts).contains(c) && fold_eq(encode_utf8(c), encode_utf8(ts[k])),
    decreases ts.len(),
{
    let d = dedup_targets(ts);
    let pre = dedup_targets(ts.drop_last());
    if k < ts.len() - 1 {
        lemma_dedup_covers(ts.drop_last(), k);
        let c = choose|c: Seq<char>|
            #[trigger] pre.contains(c) && fold_eq(encode_utf8(c), encode_utf8(ts.drop_last()[k]));
        let j = choose|j: int| 0 <= j < pre.len() && pre[j] == c;
        assert(d[j] == c);
        assert(d.contains(c));
    } else {
        if exists|q: int|
            0 <= q < ts.len() - 1 && fold_eq(encode_utf8(#[trigger] ts[q]), encode_utf8(ts.last())) {
            let q = choose|q: int|
                0 <= q < ts.len() - 1 && fold_eq(
                    encode_utf8(#[trigger] ts[q]),
                    encode_utf8(ts.last()),
                );
            lemma_dedup_covers(ts.drop_last(), q);
            let c = choose|c: Seq<char>|
                #[trigger] pre.contains(c) && fold_eq(
                    encode_utf8(c),
                    encode_utf8(ts.drop_last()[q]),
                );
            assert(d.contains(c));
            assert(fold_eq(encode_utf8(c), encode_utf8(ts[k])));
        } else {
            assert(d.last() == ts.last());
            assert(d.contains(ts[k])) by {
                assert(d[d.len() - 1] == ts[k]);
            }
        }
    }
}

/// Every target of the backing file's content appears, up to ASCII case,
/// among the node's forward links.
pub proof fn lemma_forward_covers_targets(files: Seq<FileRecord>, nb: Seq<u8>, i: int, k: int)
    requires
        first_match_idx(files, nb) == Some(i),
        0 <= i < files.len(),
        0 <= k < targets_of(files[i].content@).len(),
    ensures
        exists|e: (Seq<char>, Option<Seq<u8>>)|
            #[trigger] forward_spec(files, nb).contains(e) && fold_eq(
                encode_utf8(e.0),
                encode_utf8(targets_of(files[i].content@)[k]),
            ),
{
    let ts = targets_of(files[i].content@);
    lemma_dedup_covers(ts, k);
    let c = choose|c: Seq<char>|
        #[trigger] dedup_targets(ts).contains(c) && fold_eq(encode_utf8(c), encode_utf8(ts[k]));
    let j = choose|j: int| 0 <= j < dedup_targets(ts).len() && dedup_targets(ts)[j] == c;
    let fs = forward_spec(files, nb);
    assert(fs == resolved_targets(dedup_targets(ts), files));
    assert(fs[j] == (c, crate::graph::resolve_path(files, encode_utf8(c))));
    assert(fs.contains(fs[j]));
    assert(fold_eq(encode_utf8(fs[j].0), encode_utf8(ts[k])));
}

/// Queries are functions of the snapshot and the name alone: two answers to
/// the same query against one unchanged snapshot are equal.
pub proof fn lemma_queries_idempotent(
    files: Seq<FileRecord>,
    nb: Seq<u8>,
    b1: Seq<Seq<u8>>,
    b2: Seq<Seq<u8>>,
    f1: Seq<(Seq<char>, Option<Seq<u8>>)>,
    f2: Seq<(Seq<char>, Option<Seq<u8>>)>,
)
    requires
        b1 == backlinks_spec(files, nb),
        b2 == backlinks_spec(files, nb),
        f1 == forward_spec(files, nb),
        f2 == forward_spec(files, nb),
    ensures
        b1 == b2,
        f1 == f2,
{
}

} // verus!
