//! Behaviour of the wikilink scanner on whole contents and on chunked
//! streams.

use nous::scan::{next_wikilink, read_to_closing_tag, read_wikilinks, skip_to_opening_tag};
use nous::stream::Scanner;

fn targets(content: &[u8]) -> Vec<(usize, String)> {
    read_wikilinks(content)
}

#[test]
fn plain_target_is_extracted() {
    let links = targets(b"[[Target]]");
    assert_eq!(links.len(), 1);
    assert_eq!(links[0].0, 0);
    assert_eq!(links[0].1, "Target");
}

#[test]
fn alias_is_cut_off() {
    let links = targets(b"[[Target|Alias Text]]");
    assert_eq!(links.len(), 1);
    assert_eq!(links[0].1, "Target");
}

#[test]
fn heading_anchor_is_cut_off() {
    let links = targets(b"[[Target#Heading]]");
    assert_eq!(links.len(), 1);
    assert_eq!(links[0].1, "Target");
}

#[test]
fn pure_heading_link_is_internal() {
    assert!(targets(b"[[#Heading]]").is_empty());
}

#[test]
fn empty_link_is_internal() {
    assert!(targets(b"[[]]").is_empty());
}

#[test]
fn internal_link_does_not_stop_the_scan() {
    let links = targets(b"[[#intro]] then [[Real]]");
    assert_eq!(links.len(), 1);
    assert_eq!(links[0].1, "Real");
    assert_eq!(links[0].0, 16);
}

#[test]
fn lone_closing_bracket_is_body_content() {
    let links = targets(b"[[a]b]]");
    assert_eq!(links.len(), 1);
    assert_eq!(links[0].1, "a]b");
}

#[test]
fn unterminated_link_yields_nothing() {
    assert!(targets(b"[[Target").is_empty());
    assert!(targets(b"text [[Target more text").is_empty());
}

#[test]
fn target_whitespace_is_trimmed() {
    let links = targets(b"[[  Spaced Name \t]]");
    assert_eq!(links.len(), 1);
    assert_eq!(links[0].1, "Spaced Name");
}

#[test]
fn offsets_are_reported_and_ascend() {
    let links = targets(b"x[[a]] y [[b]] [[c]]");
    let offs: Vec<usize> = links.iter().map(|l| l.0).collect();
    assert_eq!(offs, vec![1, 9, 15]);
    let names: Vec<&str> = links.iter().map(|l| l.1.as_str()).collect();
    assert_eq!(names, vec!["a", "b", "c"]);
}

#[test]
fn adjacency_is_required_for_tags() {
    assert!(targets(b"[ [not a link] ]").is_empty());
    let links = targets(b"[[[x]]");
    assert_eq!(links.len(), 1);
    assert_eq!(links[0].1, "[x");
    assert_eq!(links[0].0, 0);
}

#[test]
fn invalid_utf8_target_ends_the_scan() {
    let links = targets(b"[[\xff\xfe]] [[later]]");
    assert!(links.is_empty());
}

#[test]
fn invalid_bytes_behind_alias_do_not_matter() {
    let links = targets(b"[[ok|\xff\xfe]]");
    assert_eq!(links.len(), 1);
    assert_eq!(links[0].1, "ok");
}

#[test]
fn empty_content_yields_nothing() {
    assert!(targets(b"").is_empty());
    assert!(targets(b"no brackets here").is_empty());
}

#[test]
fn multibyte_target_is_decoded() {
    let content = "see [[caf\u{e9}]] here".as_bytes();
    let links = targets(content);
    assert_eq!(links.len(), 1);
    assert_eq!(links[0].1, "caf\u{e9}");
    assert_eq!(links[0].0, 4);
}

#[test]
fn skip_to_opening_tag_finds_the_first_pair() {
    assert_eq!(skip_to_opening_tag(b"ab[[cd", 0), Some(2));
    assert_eq!(skip_to_opening_tag(b"ab[[cd", 3), None);
    assert_eq!(skip_to_opening_tag(b"a[b[", 0), None);
}

#[test]
fn read_to_closing_tag_returns_body_and_resume_point() {
    let (body, after) = read_to_closing_tag(b"abc]]rest", 0).unwrap();
    assert_eq!(body, b"abc".to_vec());
    assert_eq!(after, 5);
    assert!(read_to_closing_tag(b"abc]d", 0).is_none());
}

#[test]
fn next_wikilink_walks_the_content() {
    let content = b"[[a]] [[b]]";
    let mut pos = 0usize;
    let first = next_wikilink(content, &mut pos).unwrap();
    assert_eq!((first.0, first.1.as_str()), (0, "a"));
    let second = next_wikilink(content, &mut pos).unwrap();
    assert_eq!((second.0, second.1.as_str()), (6, "b"));
    assert!(next_wikilink(content, &mut pos).is_none());
}

fn scan_chunked(content: &[u8], chunk_size: usize) -> Vec<(usize, String)> {
    let mut scanner = Scanner::new();
    let mut out = Vec::new();
    for chunk in content.chunks(chunk_size) {
        out.extend(scanner.feed(chunk));
    }
    out
}

#[test]
fn chunking_does_not_change_the_result() {
    let content: &[u8] = b"x[[a]] [[ skip | me ]]text[[b#h]][[]][[c|alias]] tail [[d";
    let whole = targets(content);
    for size in 1..=content.len() {
        assert_eq!(scan_chunked(content, size), whole);
    }
}

#[test]
fn tag_split_across_chunks_is_still_found() {
    let mut scanner = Scanner::new();
    let mut out = Vec::new();
    out.extend(scanner.feed(b"ab["));
    out.extend(scanner.feed(b"[Target]"));
    out.extend(scanner.feed(b"]"));
    assert_eq!(out.len(), 1);
    assert_eq!(out[0].0, 2);
    assert_eq!(out[0].1, "Target");
}
