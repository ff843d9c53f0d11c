use dioxus_press::types::{page, PageMeta, SiteConfig, Tasks, TocItem};

const NO_TOC: &[TocItem] = &[];

fn meta(route: &'static str, title: &'static str) -> PageMeta {
    PageMeta {
        route,
        title,
        description: None,
        toc: NO_TOC,
        text: "",
        pager: true,
        tasks: Tasks::default(),
    }
}

#[test]
fn finds_a_page_by_route() {
    let pages = [meta("/", "Home"), meta("/guide", "Guide"), meta("/guide", "Shadow")];
    assert_eq!(page(&pages, "/guide").map(|p| p.title), Some("Guide"));
    assert_eq!(page(&pages, "/missing"), None);
    assert_eq!(page(&[], "/"), None);
}

#[test]
fn task_percentages_truncate() {
    assert_eq!(Tasks { done: 1, total: 3 }.percent(), 33);
    assert_eq!(Tasks { done: 2, total: 3 }.percent(), 66);
    assert_eq!(Tasks { done: 3, total: 3 }.percent(), 100);
    assert_eq!(Tasks::default().percent(), 0);
    assert!(!Tasks::default().any());
    assert!(Tasks { done: 0, total: 1 }.any());
}

#[test]
fn site_config_defaults_to_the_root() {
    let config = SiteConfig::default();
    assert_eq!(config.title, "Documentation");
    assert_eq!(config.docs_root, "/");
    assert_eq!(config.description, None);
    assert_eq!(config.repository, None);
}

#[test]
fn completion_never_passes_one_hundred() {
    for (done, total) in [(0, 1), (1, 1), (7, 9), (999, 1000), (u32::MAX, u32::MAX)] {
        assert!(Tasks { done, total }.percent() <= 100);
    }
}
