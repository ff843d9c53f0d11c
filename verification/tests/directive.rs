use dioxus_press::directive::expand;

#[test]
fn expands_tip_with_title() {
    let out = expand(":::tip Heads up\nbody\n:::\n");
    assert!(out.contains("<Callout kind=\"tip\" title=\"Heads up\">"));
    assert!(out.contains("</Callout>"));
    assert!(out.contains("body"));
}

#[test]
fn leaves_code_blocks_alone() {
    let src = "```\n:::tip\n```\n";
    assert_eq!(expand(src), src);
}

#[test]
fn closes_unbalanced_directive() {
    let out = expand(":::note\nbody\n");
    assert_eq!(out.matches("</Callout>").count(), 1);
}

#[test]
fn text_without_directives_is_unchanged() {
    for src in ["", "# Title\n\nSome *prose*.\n", "no newline at end", "::: not quite\n"] {
        if !src.starts_with(":::") {
            assert_eq!(expand(src), src);
        }
    }
}

#[test]
fn source_without_triple_colons_is_unchanged() {
    let source = "# Title\n\n:: two colons\ntext: with a colon\n```\ncode\n```\n";
    assert_eq!(expand(source), source);
}
