use dioxus_press::ast::Frontmatter;
use dioxus_press::frontmatter::{frontmatter_of, split_frame, split_source};

/// Splits a source and decodes its block the way the site builder does.
fn split(source: &str) -> (Frontmatter, String) {
    match split_source(source) {
        (None, body) => (Frontmatter::default(), body),
        (Some(yaml), body) => {
            let value: serde_yaml_ng::Value = serde_yaml_ng::from_str(&yaml).unwrap();
            let text = |key: &str| value.get(key).and_then(|v| v.as_str()).map(str::to_string);
            let fm = frontmatter_of(
                text("title"),
                text("description"),
                value.get("order").and_then(|v| v.as_i64()),
                value.get("hidden").and_then(|v| v.as_bool()),
                value.get("pager").and_then(|v| v.as_bool()),
            );
            (fm, body)
        }
    }
}

#[test]
fn parses_frontmatter() {
    let (fm, body) = split("---\ntitle: Signals\norder: 2\n---\n# Hi\n");
    assert_eq!(fm.title.as_deref(), Some("Signals"));
    assert_eq!(fm.order, Some(2));
    assert_eq!(body, "# Hi\n");
}

#[test]
fn passes_through_without_frontmatter() {
    let (fm, body) = split("# Hi\n");
    assert_eq!(fm, Frontmatter::default());
    assert_eq!(body, "# Hi\n");
}

#[test]
fn absent_keys_take_their_defaults() {
    let fm = frontmatter_of(None, None, None, None, None);
    assert_eq!(fm, Frontmatter::default());
    let fm = frontmatter_of(None, None, None, Some(true), Some(false));
    assert!(fm.hidden);
    assert!(!fm.pager);
}

#[test]
fn raw_block_is_the_yaml_between_the_lines() {
    let (yaml, body) = split_frame("---\ntitle: Signals\norder: 2\n---\n# Hi\n").unwrap();
    assert_eq!(yaml, "title: Signals\norder: 2\n");
    assert_eq!(body, "# Hi\n");
}

#[test]
fn leaves_thematic_break_alone() {
    let (_, body) = split("---\n");
    assert_eq!(body, "---\n");
}

#[test]
fn an_unclosed_block_is_not_frontmatter() {
    assert_eq!(split_frame("---\ntitle: x\n# Body\n"), None);
}

#[test]
fn the_closing_line_may_carry_trailing_space() {
    assert_eq!(split_frame("---  \ta: 1\n---\n"), None);
    let (yaml, body) = split_frame("--- \t\na: 1\n---   \nrest").unwrap();
    assert_eq!(yaml, "a: 1\n");
    assert_eq!(body, "rest");
}

#[test]
fn frame_and_body_reassemble_the_source() {
    let source = "---\nx: y\n---\nbody\nmore\n";
    let (yaml, body) = split_frame(source).unwrap();
    assert_eq!(format!("---\n{yaml}---\n{body}"), source);
}
