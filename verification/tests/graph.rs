//! Behaviour of the link graph queries against in-memory realm snapshots.

use nous::graph::{FileRecord, back_links, file_links_to, forward_links, links};

fn rec(path: &str, content: &[u8]) -> FileRecord {
    FileRecord { path: path.as_bytes().to_vec(), content: content.to_vec() }
}

fn p(s: &str) -> Vec<u8> {
    s.as_bytes().to_vec()
}

#[test]
fn file_links_to_matches_case_insensitively() {
    assert!(file_links_to(&b"see [[Other]]".to_vec(), "other"));
    assert!(file_links_to(&b"see [[other]]".to_vec(), "OTHER"));
    assert!(!file_links_to(&b"see [[Other]]".to_vec(), "unrelated"));
    assert!(!file_links_to(&b"no links".to_vec(), "other"));
}

#[test]
fn roundtrip_between_forward_and_back_links() {
    let realm = vec![
        rec("a.md", b"points to [[B]]"),
        rec("b.md", b"no references here"),
    ];
    let fwd_a = forward_links(&realm, "a");
    assert_eq!(fwd_a.len(), 1);
    assert_eq!(fwd_a[0].target, "B");
    assert_eq!(fwd_a[0].path, Some(p("b.md")));

    let back_b = back_links(&realm, "b");
    assert_eq!(back_b, vec![p("a.md")]);
    let back_a = back_links(&realm, "a");
    assert!(back_a.is_empty());
}

#[test]
fn repeated_queries_agree() {
    let realm = vec![
        rec("a.md", b"[[b]] and [[c]]"),
        rec("b.md", b"[[a]]"),
        rec("c.md", b"[[a]] [[b]]"),
    ];
    let f1 = forward_links(&realm, "a");
    let f2 = forward_links(&realm, "a");
    assert_eq!(f1, f2);
    let b1 = back_links(&realm, "a");
    let b2 = back_links(&realm, "a");
    assert_eq!(b1, b2);
}

#[test]
fn forward_links_deduplicate_targets_case_insensitively() {
    let realm = vec![rec("a.md", b"[[B]] [[b]] [[C]] [[B|alias]]"), rec("b.md", b"")];
    let fwd = forward_links(&realm, "a");
    let names: Vec<&str> = fwd.iter().map(|l| l.target.as_str()).collect();
    assert_eq!(names, vec!["B", "C"]);
    assert_eq!(fwd[0].path, Some(p("b.md")));
    assert_eq!(fwd[1].path, None);
}

#[test]
fn forward_links_of_an_unbacked_node_are_empty() {
    let realm = vec![rec("a.md", b"[[b]]")];
    assert!(forward_links(&realm, "nothere").is_empty());
}

#[test]
fn back_links_collect_every_referring_file() {
    let realm = vec![
        rec("a.md", b"[[x]]"),
        rec("sub/b.md", b"intro [[X#part]] outro"),
        rec("c.md", b"[[y]]"),
        rec("x.md", b"[[x]] self reference"),
    ];
    let back = back_links(&realm, "x");
    assert_eq!(back, vec![p("a.md"), p("sub/b.md"), p("x.md")]);
}

#[test]
fn links_reports_back_then_forward() {
    let realm = vec![
        rec("a.md", b"[[b]]"),
        rec("b.md", b"[[a]]"),
    ];
    let report = links(&realm, "a");
    assert_eq!(report.backlinks, vec![p("b.md")]);
    assert_eq!(report.forwardlinks.len(), 1);
    assert_eq!(report.forwardlinks[0].target, "b");
    assert_eq!(report.forwardlinks[0].path, Some(p("b.md")));
}

#[test]
fn a_node_may_appear_in_both_lists() {
    let realm = vec![
        rec("a.md", b"[[b]]"),
        rec("b.md", b"[[a]]"),
    ];
    let report = links(&realm, "b");
    assert_eq!(report.backlinks, vec![p("a.md")]);
    assert_eq!(report.forwardlinks[0].target, "a");
}
