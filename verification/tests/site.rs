use dioxus_press::ast::{Frontmatter, Node};
use dioxus_press::highlight::Highlighter;
use dioxus_press::site::{
    load, markdown_stem, route_ident, skipped, titleize, PageSource, SidebarNode, SiteError,
    SourceEntry,
};
use std::path::PathBuf;

#[test]
fn idents_and_titles() {
    assert_eq!(route_ident("/"), "Home");
    assert_eq!(
        route_ident("/getting-started/installation"),
        "GettingStartedInstallation"
    );
    assert_eq!(titleize("getting-started"), "Getting Started");
}

#[test]
fn idents_start_with_a_letter() {
    assert_eq!(route_ident("/2024/notes"), "Page2024Notes");
    assert_eq!(route_ident("/docs/v1.2"), "DocsV12");
    assert_eq!(route_ident("/a_b-c"), "ABC");
}

#[test]
fn titles_drop_empty_words() {
    assert_eq!(titleize("__init--x_"), "Init X");
    assert_eq!(titleize(""), "");
    assert_eq!(titleize("api"), "Api");
}

#[test]
fn names_the_walk_skips_or_reads() {
    assert!(skipped(".git"));
    assert!(skipped("_drafts"));
    assert!(!skipped("guide.md"));
    assert_eq!(markdown_stem("guide.md").as_deref(), Some("guide"));
    assert_eq!(markdown_stem("a.b.md").as_deref(), Some("a.b"));
    assert_eq!(markdown_stem("notes.txt"), None);
    assert_eq!(markdown_stem(".md"), None);
}

fn source(stem: &str, file: &str, fm: Frontmatter, body: &str) -> SourceEntry {
    SourceEntry::Page(PageSource {
        stem: stem.to_string(),
        file: PathBuf::from(file),
        frontmatter: fm,
        body: body.to_string(),
    })
}

fn ordered(order: i64) -> Frontmatter {
    Frontmatter {
        order: Some(order),
        ..Frontmatter::default()
    }
}

fn tree() -> Vec<SourceEntry> {
    vec![
        source("zeta", "zeta.md", Frontmatter::default(), "# Zeta\n"),
        SourceEntry::Dir {
            name: "guides".to_string(),
            entries: vec![
                source("deploy", "guides/deploy.md", Frontmatter::default(), "# Deploying\n\nSee [start](/start).\n"),
                source("index", "guides/index.md", ordered(1), "# Guides\n"),
            ],
        },
        source("index", "index.md", Frontmatter::default(), "# Welcome\n"),
        source("start", "start.md", ordered(0), "Read [the guides](/guides#top).\n"),
        source(
            "secret",
            "secret.md",
            Frontmatter {
                hidden: true,
                ..Frontmatter::default()
            },
            "# Secret\n",
        ),
    ]
}

fn titles(nodes: &[SidebarNode]) -> Vec<String> {
    nodes
        .iter()
        .map(|node| match node {
            SidebarNode::Link { title, .. } => title.clone(),
            SidebarNode::Group { title, .. } => format!("{title}/"),
        })
        .collect()
}

#[test]
fn the_sidebar_follows_order_then_title() {
    let hl = Highlighter::load().unwrap();
    let site = load(tree(), "", &[], &hl).unwrap();
    assert_eq!(titles(&site.sidebar), vec!["Welcome", "Start", "Guides/", "Zeta"]);
    let SidebarNode::Group { route, items, .. } = &site.sidebar[2] else {
        panic!("expected a group");
    };
    assert_eq!(route.as_deref(), Some("/guides"));
    assert_eq!(titles(items), vec!["Deploying"]);
}

#[test]
fn pages_come_in_reading_order() {
    let hl = Highlighter::load().unwrap();
    let site = load(tree(), "", &[], &hl).unwrap();
    let routes: Vec<&str> = site.pages.iter().map(|p| p.route.as_str()).collect();
    assert_eq!(routes, vec!["/", "/start", "/guides", "/guides/deploy", "/zeta", "/secret"]);
    let secret = &site.pages[5];
    assert!(secret.hidden);
    assert_eq!(secret.ident, "Secret");
    assert_eq!(secret.file, PathBuf::from("secret.md"));
}

fn hrefs(nodes: &[Node], out: &mut Vec<String>) {
    for node in nodes {
        match node {
            Node::Link { href, children, .. } => {
                out.push(href.clone());
                hrefs(children, out);
            }
            Node::Paragraph(children) => hrefs(children, out),
            _ => {}
        }
    }
}

#[test]
fn links_move_under_the_base_path() {
    let hl = Highlighter::load().unwrap();
    let site = load(tree(), "/docs", &[], &hl).unwrap();
    let start = site.pages.iter().find(|p| p.route == "/docs/start").unwrap();
    let mut links = Vec::new();
    hrefs(&start.doc.nodes, &mut links);
    assert_eq!(links, vec!["/docs/guides#top"]);
    let deploy = site.pages.iter().find(|p| p.route == "/docs/guides/deploy").unwrap();
    let mut links = Vec::new();
    hrefs(&deploy.doc.nodes, &mut links);
    assert_eq!(links, vec!["/docs/start"]);
}

#[test]
fn links_stay_put_at_the_root() {
    let hl = Highlighter::load().unwrap();
    let site = load(tree(), "", &[], &hl).unwrap();
    let start = site.pages.iter().find(|p| p.route == "/start").unwrap();
    let mut links = Vec::new();
    hrefs(&start.doc.nodes, &mut links);
    assert_eq!(links, vec!["/guides#top"]);
}

#[test]
fn an_empty_directory_is_refused() {
    let hl = Highlighter::load().unwrap();
    let result = load(vec![SourceEntry::Dir { name: "empty".to_string(), entries: vec![] }], "", &[], &hl);
    assert!(matches!(result, Err(SiteError::Empty)));
}

#[test]
fn a_duplicate_route_keeps_the_first_page() {
    let hl = Highlighter::load().unwrap();
    let entries = vec![
        SourceEntry::Dir {
            name: "a".to_string(),
            entries: vec![source("index", "a/index.md", Frontmatter::default(), "# Dir A\n")],
        },
        source("a", "a.md", Frontmatter::default(), "# File A\n"),
    ];
    let site = load(entries, "", &[], &hl).unwrap();
    assert_eq!(site.pages.len(), 1);
    assert_eq!(site.pages[0].title, "Dir A");
}
