use dioxus_press::search::{normalize, search};
use dioxus_press::types::{PageMeta, Tasks};

fn page(route: &'static str, title: &'static str, text: &'static str) -> PageMeta {
    PageMeta {
        route,
        title,
        description: None,
        toc: &[],
        text,
        pager: true,
        tasks: Tasks::default(),
    }
}

fn pages() -> Vec<PageMeta> {
    vec![
        page("/", "Introduction", "Welcome to the docs"),
        page("/signals", "Signals", "Signals store reactive state and implement Copy"),
    ]
}

#[test]
fn normalizes_routes() {
    assert_eq!(normalize("/guides/"), "/guides");
    assert_eq!(normalize("/"), "/");
    assert_eq!(normalize("/a?b=1#c"), "/a");
}

#[test]
fn title_matches_outrank_body_matches() {
    let hits = search(&pages(), "signals");
    assert_eq!(hits[0].route, "/signals");
}

#[test]
fn finds_body_only_matches() {
    let hits = search(&pages(), "reactive");
    assert_eq!(hits.len(), 1);
    assert!(hits[0].snippet.contains("reactive"));
}

#[test]
fn blank_query_finds_nothing() {
    assert!(search(&pages(), "   ").is_empty());
    assert!(search(&pages(), "").is_empty());
}

#[test]
fn query_is_trimmed_and_case_folded() {
    let hits = search(&pages(), "  WELCOME ");
    assert_eq!(hits.len(), 1);
    assert_eq!(hits[0].route, "/");
    assert_eq!(hits[0].snippet, "Welcome to the docs");
}

#[test]
fn title_match_shows_description_or_cut_text() {
    let mut p = page("/d", "Described", "body");
    p.description = Some("A summary");
    let hits = search(&[p], "described");
    assert_eq!(hits[0].snippet, "A summary");
    let long: &'static str = "word ".repeat(30).leak();
    let hits = search(&[page("/l", "Long", long)], "long");
    // 90 bytes of "word " end after "word" then a space, trimmed, then an ellipsis.
    assert_eq!(hits[0].snippet, format!("{}…", "word ".repeat(18).trim()));
}

#[test]
fn title_matches_rank_by_offset_and_ties_keep_order() {
    let ps = vec![
        page("/b", "xx key", ""),
        page("/a", "key", ""),
        page("/c", "body", "key here"),
        page("/d", "also key", ""),
        page("/e", "xx key again", ""),
    ];
    let routes: Vec<&str> = search(&ps, "key").iter().map(|h| h.route).collect();
    assert_eq!(routes, vec!["/a", "/b", "/e", "/d", "/c"]);
}

#[test]
fn at_most_eight_results() {
    let ps: Vec<PageMeta> = (0..12).map(|_| page("/p", "match", "")).collect();
    assert_eq!(search(&ps, "match").len(), 8);
}

#[test]
fn body_snippet_starts_forty_bytes_before_the_match() {
    let text: &'static str = format!("{}needle tail", "a".repeat(100)).leak();
    let hits = search(&[page("/n", "Title", text)], "needle");
    assert_eq!(hits[0].snippet, format!("{}needle tail", "a".repeat(40)));
}

#[test]
fn body_offsets_count_bytes() {
    // "é" takes two bytes, so the body match sits at byte 3 and the cut before it
    // keeps everything.
    let hits = search(&[page("/u", "T", "éa needle")], "needle");
    assert_eq!(hits[0].snippet, "éa needle");
}

#[test]
fn unicode_whitespace_around_the_query_is_trimmed() {
    let hits = search(&pages(), "\u{3000}signals\u{a0}");
    assert_eq!(hits[0].route, "/signals");
}

#[test]
fn non_ascii_titles_match_case_insensitively() {
    let ps = vec![page("/straße", "STRASSE Straße", "")];
    let hits = search(&ps, "straße");
    assert_eq!(hits.len(), 1);
    assert_eq!(hits[0].route, "/straße");
}
