//! Behaviour of the path helpers and the node resolver.

use nous::paths::{
    RealmConfig, default_file_name, find_root, is_node_file, list_nodes, node_from_path,
    try_absolute_path,
};
use nous::resolve::{find_node, find_node_once, names_equal, path_to_node};

fn p(s: &str) -> Vec<u8> {
    s.as_bytes().to_vec()
}

#[test]
fn node_from_path_takes_the_stem() {
    assert_eq!(node_from_path(&p("realm/notes/Project.md")), Some(p("Project")));
    assert_eq!(node_from_path(&p("note.md")), Some(p("note")));
    assert_eq!(node_from_path(&p("a/b.tar.gz")), Some(p("b.tar")));
    assert_eq!(node_from_path(&p(".hidden")), Some(p(".hidden")));
    assert_eq!(node_from_path(&p("plain")), Some(p("plain")));
    assert_eq!(node_from_path(&p("dir/")), None);
    assert_eq!(node_from_path(&p("a/..")), None);
    assert_eq!(node_from_path(&p(".")), None);
}

#[test]
fn default_file_name_joins_with_default_extension() {
    let cfg = RealmConfig::standard();
    assert_eq!(default_file_name(&p("/realm"), "idea", &cfg), p("/realm/idea.md"));
    assert_eq!(default_file_name(&p("/realm/"), "idea", &cfg), p("/realm/idea.md"));
    assert_eq!(default_file_name(&p(""), "idea", &cfg), p("idea.md"));
}

#[test]
fn find_root_picks_the_nearest_marked_ancestor() {
    let marked = vec![p("/home/me/notes"), p("/home")];
    assert_eq!(find_root(&p("/home/me/notes/deep/dir"), &marked), Some(p("/home/me/notes")));
    assert_eq!(find_root(&p("/home/me"), &marked), Some(p("/home")));
    assert_eq!(find_root(&p("/var/tmp"), &marked), None);
    assert_eq!(find_root(&p("/home/me/notes"), &marked), Some(p("/home/me/notes")));
}

#[test]
fn try_absolute_path_prefers_the_canonical_form() {
    assert_eq!(try_absolute_path(&p("x/../y"), Some(p("/realm/y"))), p("/realm/y"));
    assert_eq!(try_absolute_path(&p("x/y"), None), p("x/y"));
}

#[test]
fn node_files_are_filtered_by_extension_and_hiddenness() {
    let cfg = RealmConfig::standard();
    assert!(is_node_file(&p("note.md"), &cfg));
    assert!(is_node_file(&p("dir/note.Markdown"), &cfg));
    assert!(is_node_file(&p("dir/note.ORG"), &cfg));
    assert!(is_node_file(&p("note.txt"), &cfg));
    assert!(is_node_file(&p("note.text"), &cfg));
    assert!(!is_node_file(&p("note.rs"), &cfg));
    assert!(!is_node_file(&p("note"), &cfg));
    assert!(!is_node_file(&p(".hidden/note.md"), &cfg));
    assert!(!is_node_file(&p("dir/.note.md"), &cfg));
    assert!(!is_node_file(&p(".nous/state.md"), &cfg));
}

#[test]
fn list_nodes_keeps_walk_order() {
    let cfg = RealmConfig::standard();
    let walked = vec![
        p("b.md"),
        p("skip.rs"),
        p("a/deep.org"),
        p(".git/x.md"),
        p("c.TXT"),
    ];
    let nodes = list_nodes(&walked, &cfg);
    assert_eq!(nodes, vec![p("b.md"), p("a/deep.org"), p("c.TXT")]);
}

#[test]
fn lookup_is_ascii_case_insensitive() {
    let files = vec![p("notes/Project.md"), p("other.md")];
    for name in ["Project", "project", "PROJECT", "pRoJeCt"] {
        let found = find_node(&files, name);
        assert_eq!(found, vec![p("notes/Project.md")], "name {name}");
        assert_eq!(path_to_node(&files, name), Some(p("notes/Project.md")));
    }
}

#[test]
fn name_equality_folds_ascii_only() {
    assert!(names_equal("Project", "pROJECT"));
    assert!(names_equal("a-b_c", "A-B_C"));
    assert!(!names_equal("Project", "Projects"));
    assert!(!names_equal("caf\u{e9}", "CAF\u{c9}"));
}

#[test]
fn missing_node_resolves_to_nothing() {
    let files = vec![p("a.md")];
    assert!(find_node(&files, "b").is_empty());
    assert_eq!(path_to_node(&files, "b"), None);
    assert_eq!(find_node_once(&files, "b", true), Ok(None));
}

#[test]
fn ambiguity_is_fatal_only_under_strict_resolution() {
    let files = vec![p("note.md"), p("sub/other.md"), p("note.txt")];
    let strict = find_node_once(&files, "note", true);
    match strict {
        Err(e) => assert_eq!(e.count, 2),
        Ok(_) => panic!("strict resolution accepted an ambiguous name"),
    }
    let lax = find_node_once(&files, "note", false);
    assert_eq!(lax, Ok(Some(p("note.md"))));
    assert_eq!(find_node(&files, "note").len(), 2);
}

#[test]
fn unique_match_resolves_under_strict_resolution() {
    let files = vec![p("note.md"), p("other.md")];
    assert_eq!(find_node_once(&files, "note", true), Ok(Some(p("note.md"))));
}
