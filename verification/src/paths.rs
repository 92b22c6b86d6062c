//! Path reasoning: file names, stems and extensions of byte paths, the
//! hidden-entry and extension filters that pick node files out of a
//! directory walk, and the upward search for a realm root.
//!
//! Paths are byte strings with `/` separating components; the caller turns
//! platform paths into bytes and back.

use vstd::prelude::*;
use crate::bytes::{
    fold_eq, fold_eq_exec, last_index_of, lemma_last_index_bounds, rfind_byte, push_bytes,
    views_of, contains_bytes,
};
use vstd::slice::{slice_index_get, slice_subrange, slice_to_vec};

verus! {

/// Configuration of the resolver: which extensions mark a node file, the
/// byte that marks a hidden entry, and the extension given to new files.
pub struct RealmConfig {
    pub supported_exts: Vec<Vec<u8>>,
    pub default_ext: Vec<u8>,
    pub hidden_prefix: u8,
}

/// The extension byte strings of the standard configuration:
/// `md`, `markdown`, `org`, `txt`, `text`.
pub open spec fn standard_exts() -> Seq<Seq<u8>> {
    seq![
        seq![0x6d, 0x64],
        seq![0x6d, 0x61, 0x72, 0x6b, 0x64, 0x6f, 0x77, 0x6e],
        seq![0x6f, 0x72, 0x67],
        seq![0x74, 0x78, 0x74],
        seq![0x74, 0x65, 0x78, 0x74],
    ]
}

impl RealmConfig {
    /// The supported extensions as byte sequences.
    pub open spec fn exts(&self) -> Seq<Seq<u8>> {
        views_of(self.supported_exts@)
    }

    /// The standard configuration: markdown, org and plain-text files are
    /// nodes, dot-prefixed entries are hidden, new files get `md`.
    pub fn standard() -> (r: RealmConfig)
        ensures
            r.exts() == standard_exts(),
            r.default_ext@ == standard_exts()[0],
            r.hidden_prefix == 0x2e,
    {
        let mut exts: Vec<Vec<u8>> = Vec::new();
        let e_md: Vec<u8> = vec![0x6d, 0x64];
        let e_markdown: Vec<u8> = vec![0x6d, 0x61, 0x72, 0x6b, 0x64, 0x6f, 0x77, 0x6e];
        let e_org: Vec<u8> = vec![0x6f, 0x72, 0x67];
        let e_txt: Vec<u8> = vec![0x74, 0x78, 0x74];
        let e_text: Vec<u8> = vec![0x74, 0x65, 0x78, 0x74];
        exts.push(e_md);
        exts.push(e_markdown);
        exts.push(e_org);
        exts.push(e_txt);
        exts.push(e_text);
        let default_ext: Vec<u8> = vec![0x6d, 0x64];
        let r = RealmConfig { supported_exts: exts, default_ext, hidden_prefix: 0x2e };
        proof {
            assert(r.exts() =~~= standard_exts());
            assert(r.default_ext@ =~= standard_exts()[0]);
        }
        r
    }
}

/// The component after the last separator, or the whole path.
pub open spec fn file_name_of(p: Seq<u8>) -> Seq<u8> {
    match last_index_of(p, 0x2f) {
        Some(i) => p.skip(i + 1),
        None => p,
    }
}

/// A name that denotes a file of its own: not empty and not one of the
/// relative components `.` and `..`.
pub open spec fn is_plain_name(n: Seq<u8>) -> bool {
    n.len() > 0 && n != seq![0x2eu8] && n != seq![0x2eu8, 0x2eu8]
}

/// The name up to its final `.`; a name without one, or with it in front,
/// is its own stem.
pub open spec fn stem_of_name(n: Seq<u8>) -> Seq<u8> {
    match last_index_of(n, 0x2e) {
        Some(k) => if k == 0 {
            n
        } else {
            n.take(k)
        },
        None => n,
    }
}

/// The part after the final `.` of the name, if that dot is not in front.
pub open spec fn ext_of_name(n: Seq<u8>) -> Option<Seq<u8>> {
    match last_index_of(n, 0x2e) {
        Some(k) => if k == 0 {
            None
        } else {
            Some(n.skip(k + 1))
        },
        None => None,
    }
}

/// The node name a path denotes: the stem of its file name.
pub open spec fn node_name_of(p: Seq<u8>) -> Option<Seq<u8>> {
    if is_plain_name(file_name_of(p)) {
        Some(stem_of_name(file_name_of(p)))
    } else {
        None
    }
}

/// Node name of a path, if the path has a file name of its own.
pub fn node_from_path(path: &Vec<u8>) -> (r: Option<Vec<u8>>)
    ensures
        match r {
            Some(st) => node_name_of(path@) == Some(st@),
            None => node_name_of(path@) is None,
        },
{
    proof {
        lemma_last_index_bounds(path@, 0x2f);
    }
    let plen = path.len();
    let start: usize = match rfind_byte(path.as_slice(), 0x2f) {
        Some(i) => i + 1,
        None => 0,
    };
    let name = slice_subrange(path.as_slice(), start, plen);
    proof {
        assert(name@ =~= file_name_of(path@));
    }
    let nlen = name.len();
    if nlen == 0 {
        return None;
    }
    if nlen == 1 && *slice_index_get(name, 0) == 0x2e {
        proof {
            assert(name@ =~= seq![0x2eu8]);
        }
        return None;
    }
    if nlen == 2 && *slice_index_get(name, 0) == 0x2e && *slice_index_get(name, 1) == 0x2e {
        proof {
            assert(name@ =~= seq![0x2eu8, 0x2eu8]);
        }
        return None;
    }
    proof {
        assert(is_plain_name(name@));
        lemma_last_index_bounds(name@, 0x2e);
    }
    let stem_end: usize = match rfind_byte(name, 0x2e) {
        Some(k) => if k > 0 {
            k
        } else {
            nlen
        },
        None => nlen,
    };
    let stem = slice_to_vec(slice_subrange(name, 0, stem_end));
    proof {
        assert(stem@ =~= stem_of_name(name@));
    }
    Some(stem)
}

/// Whether any component of the path starts with the hidden marker.
pub open spec fn has_hidden_component(p: Seq<u8>, hp: u8) -> bool {
    exists|i: int| 0 <= i < p.len() && #[trigger] p[i] == hp && (i == 0 || p[i - 1] == 0x2f)
}

/// Whether the path's extension is ASCII-case-insensitively one of `exts`.
pub open spec fn ext_supported(p: Seq<u8>, exts: Seq<Seq<u8>>) -> bool {
    match ext_of_name(file_name_of(p)) {
        Some(e) => exists|k: int| 0 <= k < exts.len() && fold_eq(e, #[trigger] exts[k]),
        None => false,
    }
}

/// A path names a node file when no component of it is hidden and its
/// extension is one of the supported set.
pub open spec fn is_node_path(p: Seq<u8>, exts: Seq<Seq<u8>>, hp: u8) -> bool {
    !has_hidden_component(p, hp) && ext_supported(p, exts)
}

/// Exec check of `has_hidden_component`.
fn hidden_check(path: &[u8], hp: u8) -> (r: bool)
    ensures
        r == has_hidden_component(path@, hp),
{
    let n = path.len();
    let mut i: usize = 0;
    while i < n
        invariant
            i <= n == path@.len(),
            forall|j: int|
                0 <= j < i ==> !(#[trigger] path@[j] == hp && (j == 0 || path@[j - 1] == 0x2f)),
        decreases n - i,
    {
        if *slice_index_get(path, i) == hp && (i == 0 || *slice_index_get(path, i - 1) == 0x2f) {
            return true;
        }
        i += 1;
    }
    false
}

/// Exec check of `ext_supported`.
fn ext_check(path: &[u8], cfg: &RealmConfig) -> (r: bool)
    ensures
        r == ext_supported(path@, cfg.exts()),
{
    proof {
        lemma_last_index_bounds(path@, 0x2f);
    }
    let plen = path.len();
    let start: usize = match rfind_byte(path, 0x2f) {
        Some(i) => i + 1,
        None => 0,
    };
    let name = slice_subrange(path, start, plen);
    proof {
        assert(name@ =~= file_name_of(path@));
        lemma_last_index_bounds(name@, 0x2e);
    }
    let k = match rfind_byte(name, 0x2e) {
        Some(k) => k,
        None => {
            return false;
        },
    };
    if k == 0 {
        return false;
    }
    let ext = slice_subrange(name, k + 1, name.len());
    proof {
        assert(ext@ =~= ext_of_name(name@)->Some_0);
    }
    let m = cfg.supported_exts.len();
    let mut j: usize = 0;
    while j < m
        invariant
            j <= m == cfg.supported_exts@.len(),
            ext@ == ext_of_name(file_name_of(path@))->Some_0,
            ext_of_name(file_name_of(path@)) is Some,
            forall|q: int| 0 <= q < j ==> !fold_eq(ext@, #[trigger] cfg.exts()[q]),
        decreases m - j,
    {
        if fold_eq_exec(ext, cfg.supported_exts[j].as_slice()) {
            assert(fold_eq(ext@, cfg.exts()[j as int]));
            return true;
        }
        assert(cfg.exts()[j as int] == cfg.supported_exts@[j as int]@);
        j += 1;
    }
    proof {
        assert forall|q: int| 0 <= q < cfg.exts().len() implies !fold_eq(
            ext@,
            #[trigger] cfg.exts()[q],
        ) by {}
    }
    false
}

/// Whether a walked path names a node file under the configuration.
pub fn is_node_file(path: &Vec<u8>, cfg: &RealmConfig) -> (r: bool)
    ensures
        r == is_node_path(path@, cfg.exts(), cfg.hidden_prefix),
{
    if hidden_check(path.as_slice(), cfg.hidden_prefix) {
        return false;
    }
    ext_check(path.as_slice(), cfg)
}

/// The walked paths that name node files, in walk order.
pub open spec fn node_paths_spec(ps: Seq<Seq<u8>>, exts: Seq<Seq<u8>>, hp: u8) -> Seq<Seq<u8>>
    decreases ps.len(),
{
    if ps.len() == 0 {
        Seq::empty()
    } else {
        let rest = node_paths_spec(ps.drop_last(), exts, hp);
        if is_node_path(ps.last(), exts, hp) {
            rest.push(ps.last())
        } else {
            rest
        }
    }
}

/// Filters a directory walk down to the node files of the realm, keeping
/// the walk's order.
pub fn list_nodes(paths: &Vec<Vec<u8>>, cfg: &RealmConfig) -> (r: Vec<Vec<u8>>)
    ensures
        views_of(r@) == node_paths_spec(views_of(paths@), cfg.exts(), cfg.hidden_prefix),
{
    let n = paths.len();
    let mut out: Vec<Vec<u8>> = Vec::new();
    let mut i: usize = 0;
    while i < n
        invariant
            i <= n == paths@.len(),
            views_of(out@) == node_paths_spec(
                views_of(paths@).take(i as int),
                cfg.exts(),
                cfg.hidden_prefix,
            ),
        decreases n - i,
    {
        let ghost pre = views_of(paths@).take(i as int);
        proof {
            assert(views_of(paths@).take(i + 1).drop_last() =~= pre);
            assert(views_of(paths@).take(i + 1).last() == paths@[i as int]@);
        }
        if is_node_file(&paths[i], cfg) {
            out.push(slice_to_vec(paths[i].as_slice()));
            proof {
                assert(views_of(out@) =~= views_of(out@.drop_last()).push(paths@[i as int]@));
            }
        }
        i += 1;
    }
    proof {
        assert(views_of(paths@).take(n as int) =~= views_of(paths@));
    }
    out
}

/// The parent path: the bytes before the last separator, `/` for a
/// top-level absolute path, the empty path for a bare name.
pub open spec fn parent_of(p: Seq<u8>) -> Option<Seq<u8>> {
    if p.len() == 0 {
        None
    } else if p == seq![0x2fu8] {
        None
    } else {
        match last_index_of(p, 0x2f) {
            None => Some(Seq::empty()),
            Some(i) => if i == 0 {
                Some(seq![0x2fu8])
            } else {
                Some(p.take(i))
            },
        }
    }
}

pub proof fn lemma_parent_shorter(p: Seq<u8>)
    ensures
        parent_of(p) matches Some(q) ==> q.len() < p.len(),
{
    lemma_last_index_bounds(p, 0x2f);
    if p.len() > 0 && p != seq![0x2fu8] {
        if let Some(i) = last_index_of(p, 0x2f) {
            if i == 0 && p.len() == 1 {
                assert(p =~= seq![0x2fu8]);
            }
        }
    }
}

/// The nearest ancestor of `p` (including `p` itself) that is in `marked`.
pub open spec fn root_search(p: Seq<u8>, marked: Seq<Seq<u8>>) -> Option<Seq<u8>>
    decreases p.len(),
    when true
    via root_search_decreases
{
    if marked.contains(p) {
        Some(p)
    } else {
        match parent_of(p) {
            Some(q) => root_search(q, marked),
            None => None,
        }
    }
}

#[via_fn]
proof fn root_search_decreases(p: Seq<u8>, marked: Seq<Seq<u8>>) {
    lemma_parent_shorter(p);
}

/// The realm root that governs `start_dir`: the nearest ancestor directory,
/// `start_dir` included, that is in `marker_dirs`, the list of directories
/// the caller found to hold the realm marker.
pub fn find_root(start_dir: &Vec<u8>, marker_dirs: &Vec<Vec<u8>>) -> (r: Option<Vec<u8>>)
    ensures
        match r {
            Some(p) => root_search(start_dir@, views_of(marker_dirs@)) == Some(p@),
            None => root_search(start_dir@, views_of(marker_dirs@)) is None,
        },
{
    let ghost marked = views_of(marker_dirs@);
    let mut cur: Vec<u8> = slice_to_vec(start_dir.as_slice());
    loop
        invariant
            marked == views_of(marker_dirs@),
            root_search(start_dir@, marked) == root_search(cur@, marked),
        decreases cur@.len(),
    {
        if contains_bytes(marker_dirs, &cur) {
            return Some(cur);
        }
        proof {
            lemma_last_index_bounds(cur@, 0x2f);
            lemma_parent_shorter(cur@);
        }
        if cur.len() == 0 {
            return None;
        }
        if cur.len() == 1 && cur[0] == 0x2f {
            proof {
                assert(cur@ =~= seq![0x2fu8]);
            }
            return None;
        }
        let ghost prev = cur@;
        proof {
            if prev.len() == 1 {
                assert(prev != seq![0x2fu8]);
            }
        }
        match rfind_byte(cur.as_slice(), 0x2f) {
            None => {
                cur = Vec::new();
                proof {
                    assert(parent_of(prev) == Some(cur@));
                }
            },
            Some(i) => {
                if i == 0 {
                    cur = vec![0x2fu8];
                    proof {
                        assert(cur@ =~= seq![0x2fu8]);
                        assert(parent_of(prev) == Some(cur@));
                    }
                } else {
                    cur = slice_to_vec(slice_subrange(cur.as_slice(), 0, i));
                    proof {
                        assert(cur@ =~= prev.take(last_index_of(prev, 0x2f)->Some_0));
                        assert(parent_of(prev) == Some(cur@));
                    }
                }
            },
        }
    }
}

/// The canonical form of a path when one could be computed, else the path
/// as given.
pub fn try_absolute_path(path: &Vec<u8>, canonical: Option<Vec<u8>>) -> (r: Vec<u8>)
    ensures
        match canonical {
            Some(c) => r@ == c@,
            None => r@ == path@,
        },
{
    match canonical {
        Some(c) => c,
        None => slice_to_vec(path.as_slice()),
    }
}

/// Joins a directory and a file name with a separator, unless the directory
/// is empty or already ends with one.
pub open spec fn joined_path(dir: Seq<u8>, name: Seq<u8>) -> Seq<u8> {
    if dir.len() == 0 {
        name
    } else if dir.last() == 0x2f {
        dir + name
    } else {
        dir + seq![0x2fu8] + name
    }
}

/// The file a new node of this name would get: the name with the default
/// extension, under the realm root.
pub fn default_file_name(root: &Vec<u8>, node: &str, cfg: &RealmConfig) -> (r: Vec<u8>)
    ensures
        r@ == joined_path(
            root@,
            vstd::utf8::encode_utf8(node@) + seq![0x2eu8] + cfg.default_ext@,
        ),
{
    let mut out: Vec<u8> = slice_to_vec(root.as_slice());
    if out.len() > 0 && *slice_index_get(out.as_slice(), out.len() - 1) != 0x2f {
        out.push(0x2f);
        proof {
            assert(out@ =~= root@ + seq![0x2fu8]);
        }
    }
    push_bytes(&mut out, node.as_bytes());
    out.push(0x2e);
    push_bytes(&mut out, cfg.default_ext.as_slice());
    proof {
        assert(out@ =~= joined_path(
            root@,
            vstd::utf8::encode_utf8(node@) + seq![0x2eu8] + cfg.default_ext@,
        ));
    }
    out
}

} // verus!
