use dioxus_press::ast::HlToken;
use dioxus_press::highlight::{colour_line_into, highlight, Highlighter, Run};
use dioxus_press::lang::{Colour, Language};

fn rebuilt(tokens: &[HlToken]) -> String {
    tokens.iter().map(|t| t.text.as_str()).collect()
}

fn assets() -> Highlighter {
    Highlighter::load().expect("syntect ships both themes")
}

#[test]
fn highlights_rust_into_multiple_colors() {
    let tokens = highlight("let x = 1;\n", Some("rust"), &[], &assets()).unwrap();
    assert!(tokens.len() > 1, "expected several tokens: {tokens:?}");
    assert_eq!(rebuilt(&tokens), "let x = 1;\n");
}

#[test]
fn unknown_language_round_trips_text() {
    let tokens = highlight("hello\nworld\n", Some("not-a-language"), &[], &assets()).unwrap();
    assert_eq!(rebuilt(&tokens), "hello\nworld\n");
}

fn colour(light: &str, dark: &str) -> Colour {
    Colour {
        light: light.to_string(),
        dark: dark.to_string(),
    }
}

fn byteorm_like() -> Language {
    Language {
        name: "bo".to_string(),
        aliases: vec![],
        line_comment: Some("//".to_string()),
        attribute_prefix: None,
        declaration_after: vec!["keyword".to_string()],
        operators: String::new(),
        words: vec![("keyword".to_string(), vec!["model".to_string()])],
        colours: vec![
            ("keyword".to_string(), colour("#1d4ed8", "#3b82f6")),
            ("declaration".to_string(), colour("#047857", "#86efac")),
            ("identifier".to_string(), colour("#1e293b", "#f8fafc")),
        ],
    }
}

#[test]
fn a_custom_language_takes_over_from_syntect() {
    let tokens = highlight("model User {}", Some("bo"), &[byteorm_like()], &assets()).unwrap();
    assert_eq!(tokens[0].dark, "#3b82f6", "keyword: {tokens:?}");
    assert_eq!(tokens[2].dark, "#86efac", "declared name: {tokens:?}");
}

#[test]
fn an_unknown_language_still_falls_back() {
    let tokens = highlight("model User {}", Some("bo"), &[], &assets()).unwrap();
    assert_eq!(rebuilt(&tokens), "model User {}");
}

#[test]
fn the_fence_name_is_trimmed_before_matching() {
    let tokens = highlight("model X", Some("  bo "), &[byteorm_like()], &assets()).unwrap();
    assert_eq!(tokens[0].text, "model");
    assert_eq!(tokens[0].dark, "#3b82f6");
}

#[test]
fn no_language_highlights_as_plain_text() {
    let tokens = highlight("a < b\n", None, &[], &assets()).unwrap();
    assert_eq!(rebuilt(&tokens), "a < b\n");
    assert!(tokens.iter().all(|t| t.light.starts_with('#') && t.dark.starts_with('#')));
}

#[test]
fn empty_code_gives_no_tokens() {
    let tokens = highlight("", Some("rust"), &[], &assets()).unwrap();
    assert!(tokens.is_empty());
}

fn run(rgb: (u8, u8, u8), text: &str) -> Run {
    Run {
        rgb,
        text: text.to_string(),
    }
}

#[test]
fn a_line_takes_each_themes_colours_and_merges_equal_neighbours() {
    let light = vec![run((1, 2, 3), "ab"), run((255, 0, 16), " c")];
    let dark = vec![run((0, 0, 0), "a"), run((0, 0, 0), "b c")];
    let mut out = Vec::new();
    colour_line_into("ab c", &light, &dark, &mut out);
    let got: Vec<(&str, &str, &str)> = out
        .iter()
        .map(|t| (t.text.as_str(), t.light.as_str(), t.dark.as_str()))
        .collect();
    assert_eq!(
        got,
        vec![("ab", "#010203", "#000000"), (" c", "#ff0010", "#000000")]
    );
}

#[test]
fn text_past_the_runs_inherits() {
    let mut out = Vec::new();
    colour_line_into("xy", &vec![run((9, 9, 9), "x")], &vec![], &mut out);
    let got: Vec<(&str, &str, &str)> = out
        .iter()
        .map(|t| (t.text.as_str(), t.light.as_str(), t.dark.as_str()))
        .collect();
    assert_eq!(got, vec![("x", "#090909", "inherit"), ("y", "inherit", "inherit")]);
}

#[test]
fn tokens_are_never_empty_and_neighbours_differ_in_colour() {
    let code = "fn main() {\n    let x = \"hi\";\n}\n";
    let tokens = highlight(code, Some("rust"), &[], &assets()).unwrap();
    assert!(tokens.iter().all(|t| !t.text.is_empty()));
    for pair in tokens.windows(2) {
        assert!((&pair[0].light, &pair[0].dark) != (&pair[1].light, &pair[1].dark));
    }
    assert_eq!(rebuilt(&tokens), code);
}

#[test]
fn the_same_grammar_by_token_or_extension_gives_the_same_tokens() {
    let a = highlight("let x = 1;\n", Some("rust"), &[], &assets()).unwrap();
    let b = highlight("let x = 1;\n", Some("rs"), &[], &assets()).unwrap();
    assert_eq!(a, b);
}

#[test]
fn plain_text_falls_back_to_one_token_per_line() {
    let tokens = highlight("hello\nworld\n", None, &[], &assets()).unwrap();
    let texts: Vec<&str> = tokens.iter().map(|t| t.text.as_str()).collect();
    assert_eq!(texts, vec!["hello\n", "world\n"]);
    let tokens = highlight("hello\nworld\n", Some("not-a-language"), &[], &assets()).unwrap();
    assert_eq!(tokens.len(), 2);
}
