use dioxus_press::ast::Frontmatter;
use dioxus_press::check::{link_problem, page_problems, site_routes, LinkProblem};
use dioxus_press::highlight::Highlighter;
use dioxus_press::site::{load, PageSource, SourceEntry};
use std::path::PathBuf;

fn strings(items: &[&str]) -> Vec<String> {
    items.iter().map(|s| s.to_string()).collect()
}

#[test]
fn anchors_must_name_a_heading() {
    let anchors = strings(&["setup"]);
    let routes = strings(&["/"]);
    assert_eq!(link_problem("#setup", &anchors, &routes, false), None);
    assert_eq!(
        link_problem("#usage", &anchors, &routes, false),
        Some(LinkProblem::UnknownAnchor("usage".to_string()))
    );
    assert_eq!(link_problem("", &anchors, &routes, false), None);
}

#[test]
fn site_paths_must_be_routes() {
    let anchors = Vec::new();
    let routes = strings(&["/", "/guide"]);
    assert_eq!(link_problem("/guide/", &anchors, &routes, false), None);
    assert_eq!(link_problem("/guide#x", &anchors, &routes, false), None);
    assert_eq!(
        link_problem("/nope", &anchors, &routes, false),
        Some(LinkProblem::UnknownRoute("/nope".to_string()))
    );
    assert_eq!(link_problem("//cdn.example.com/x", &anchors, &routes, false), None);
    assert_eq!(link_problem("https://example.com", &anchors, &routes, false), None);
    assert_eq!(link_problem("relative/page", &anchors, &routes, false), None);
}

#[test]
fn the_landing_page_is_not_markdown() {
    let anchors = Vec::new();
    let routes = strings(&["/docs"]);
    assert_eq!(link_problem("/", &anchors, &routes, true), None);
    assert_eq!(
        link_problem("/", &anchors, &routes, false),
        Some(LinkProblem::UnknownRoute("/".to_string()))
    );
}

#[test]
fn a_page_reports_each_broken_link() {
    let hl = Highlighter::load().unwrap();
    let entries = vec![SourceEntry::Page(PageSource {
        stem: "index".to_string(),
        file: PathBuf::from("index.md"),
        frontmatter: Frontmatter::default(),
        body: "## Setup\n\n[ok](#setup) [bad](#nope) [gone](/gone) [home](/)\n".to_string(),
    })];
    let site = load(entries, "", &[], &hl).unwrap();
    let routes = site_routes(&site);
    assert_eq!(routes, vec!["/".to_string()]);
    let problems = page_problems(&site.pages[0], &routes, false);
    assert_eq!(
        problems,
        vec![
            LinkProblem::UnknownAnchor("nope".to_string()),
            LinkProblem::UnknownRoute("/gone".to_string()),
        ]
    );
}
