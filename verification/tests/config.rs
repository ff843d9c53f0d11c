use dioxus_press::config::Config;

fn with_base(value: &str) -> Config {
    Config {
        base_path: value.to_string(),
        ..Config::default()
    }
}

#[test]
fn normalizes_base_paths() {
    let base = |value: &str| with_base(value);
    assert_eq!(base("").normalized_base(), "");
    assert_eq!(base("/docs").normalized_base(), "/docs");
    assert_eq!(base("docs/").normalized_base(), "/docs");
    assert_eq!(base("/").normalized_base(), "");
    assert_eq!(base("").docs_root(), "/");
    assert_eq!(base("/docs").docs_root(), "/docs");
    assert!(!base("").has_landing());
    assert!(base("/docs").has_landing());
}

#[test]
fn base_path_whitespace_and_slashes_are_trimmed() {
    assert_eq!(with_base("  //guide//  ").normalized_base(), "/guide");
    assert_eq!(with_base("a/b").normalized_base(), "/a/b");
    assert_eq!(with_base(" / ").normalized_base(), "");
}

#[test]
fn normalizing_twice_changes_nothing() {
    for raw in ["", "/", "docs", "/docs/", "  /a/b/ ", "/ x"] {
        let once = with_base(raw).normalized_base();
        assert_eq!(with_base(&once).normalized_base(), once);
    }
}

#[test]
fn trailing_space_inside_the_slashes_is_the_exception() {
    let once = with_base("docs /").normalized_base();
    assert_eq!(once, "/docs ");
    assert_eq!(with_base(&once).normalized_base(), "/docs");
}

#[test]
fn landing_exactly_when_docs_are_not_at_root() {
    for raw in ["", "/", "docs", "/a/b", "//"] {
        let config = with_base(raw);
        assert_eq!(config.has_landing(), config.docs_root() != "/");
    }
}

#[test]
fn default_config_reads_docs_at_root() {
    let config = Config::default();
    assert_eq!(config.title, "Documentation");
    assert_eq!(config.docs_dir, std::path::PathBuf::from("docs"));
    assert_eq!(
        config.docs_path(std::path::Path::new("/site")),
        std::path::PathBuf::from("/site/docs")
    );
    assert_eq!(dioxus_press::config::CONFIG_FILE, "dioxus-press.toml");
}

#[test]
fn only_slashes_normalize_to_the_root() {
    assert_eq!(with_base("///").normalized_base(), "");
    assert_eq!(with_base("").normalized_base(), "");
    assert_eq!(with_base("//docs//").normalized_base(), "/docs");
    let once = with_base("/a/b/").normalized_base();
    assert_eq!(with_base(&once).normalized_base(), once);
}
