use dioxus_press::template::{replace_all, scaffold, valid_crate_name, Deps, TemplateFile};
use std::path::PathBuf;

const MANIFEST_TEMPLATE: &str = "[package]\nname = \"{{name}}\"\n\n[dependencies]\ndioxus-press = {{types_dep}}\n";

fn templates() -> Vec<TemplateFile> {
    vec![TemplateFile {
        path: "src/main.rs".to_string(),
        contents: "// {{name}} docs\nfn main() {}\n".to_string(),
    }]
}

#[test]
fn a_registry_scaffold_has_no_path_dependencies() {
    let files = scaffold("demo", &Deps::Registry, "0.3.1", MANIFEST_TEMPLATE, "/generated\n", &templates());
    let manifest = &files[0].contents;
    assert_eq!(files[0].path, "Cargo.toml");
    assert!(manifest.contains("name = \"demo\""), "{manifest}");
    assert!(
        manifest.contains("dioxus-press = { version = \"0.3.1\", default-features = false }"),
        "{manifest}"
    );
    assert!(!manifest.contains("path ="), "{manifest}");
}

#[test]
fn a_scaffold_gets_a_dotted_gitignore() {
    let files = scaffold("demo", &Deps::Registry, "0.3.1", MANIFEST_TEMPLATE, "/generated\n", &templates());
    assert_eq!(files[1].path, ".gitignore");
    assert!(files[1].contents.contains("/generated"));
    assert!(files.iter().all(|f| f.path != "gitignore"));
}

#[test]
fn a_scaffold_takes_the_types_only_dependency() {
    for deps in [Deps::Registry, Deps::Local(PathBuf::from("/checkout"))] {
        let files = scaffold("demo", &deps, "0.3.1", MANIFEST_TEMPLATE, "", &templates());
        let line = files[0]
            .contents
            .lines()
            .find(|line| line.starts_with("dioxus-press ="))
            .expect("a dioxus-press dependency");
        assert!(line.contains("default-features = false"), "{line}");
    }
}

#[test]
fn a_local_scaffold_points_at_the_checkout() {
    let files = scaffold("demo", &Deps::Local(PathBuf::from("/checkout")), "0.3.1", MANIFEST_TEMPLATE, "", &templates());
    assert!(files[0].contents.contains("dioxus-press = { path = \"/checkout\", default-features = false }"));
}

#[test]
fn template_files_get_the_name() {
    let files = scaffold("demo", &Deps::Registry, "1.0.0", MANIFEST_TEMPLATE, "", &templates());
    assert_eq!(files.len(), 3);
    assert_eq!(files[2].path, "src/main.rs");
    assert_eq!(files[2].contents, "// demo docs\nfn main() {}\n");
}

#[test]
fn replace_matches_str_replace() {
    for (s, pat, rep) in [("aaa", "aa", "b"), ("x{{name}}y{{name}}", "{{name}}", "n"), ("", "a", "b"), ("abc", "d", "e")] {
        assert_eq!(replace_all(s, pat, rep), s.replace(pat, rep));
    }
}

#[test]
fn detect_prefers_a_checkout() {
    assert!(matches!(Deps::detect(None), Deps::Registry));
    assert!(matches!(Deps::detect(Some(PathBuf::from("/src"))), Deps::Local(_)));
}

#[test]
fn crate_names_are_checked() {
    assert!(valid_crate_name("my-docs_2"));
    assert!(!valid_crate_name("my docs"));
    assert!(!valid_crate_name("dócs"));
}

#[test]
fn text_without_the_placeholder_is_unchanged() {
    assert_eq!(replace_all("name = demo", "{{name}}", "x"), "name = demo");
    assert_eq!(replace_all("", "{{name}}", "x"), "");
}
