use dioxus_press::links::prefixed_href;

fn routes() -> Vec<String> {
    ["/docs", "/docs/start", "/docs/guides"].iter().map(|s| s.to_string()).collect()
}

#[test]
fn a_root_relative_link_gains_the_base() {
    assert_eq!(
        prefixed_href(&"/start".to_string(), "/docs", &routes()).as_deref(),
        Some("/docs/start")
    );
    assert_eq!(
        prefixed_href(&"/guides/#intro".to_string(), "/docs", &routes()).as_deref(),
        Some("/docs/guides#intro")
    );
}

#[test]
fn a_link_that_resolves_is_left_alone() {
    assert_eq!(prefixed_href(&"/docs/start".to_string(), "/docs", &routes()), None);
    assert_eq!(prefixed_href(&"/nowhere".to_string(), "/docs", &routes()), None);
    assert_eq!(prefixed_href(&"//cdn/x".to_string(), "/docs", &routes()), None);
    assert_eq!(prefixed_href(&"https://x.y/start".to_string(), "/docs", &routes()), None);
}

#[test]
fn rewriting_twice_is_rewriting_once() {
    for href in ["/start", "/guides#a", "/docs", "/x"] {
        let once = prefixed_href(&href.to_string(), "/docs", &routes()).unwrap_or(href.to_string());
        assert_eq!(prefixed_href(&once, "/docs", &routes()), None);
    }
}
