use dioxus_press::lang::{highlight, Colour, Language};

fn colour(light: &str, dark: &str) -> Colour {
    Colour {
        light: light.to_string(),
        dark: dark.to_string(),
    }
}

fn sample() -> Language {
    Language {
        name: "bo".to_string(),
        aliases: vec!["byteorm".to_string()],
        line_comment: Some("//".to_string()),
        attribute_prefix: Some("@".to_string()),
        declaration_after: vec!["keyword".to_string()],
        operators: "=".to_string(),
        words: vec![("keyword".to_string(), vec!["model".to_string()])],
        colours: vec![
            ("keyword".to_string(), colour("#111111", "#aaaaaa")),
            ("comment".to_string(), colour("#222222", "#bbbbbb")),
            ("string".to_string(), colour("#333333", "#cccccc")),
        ],
    }
}

#[test]
fn a_language_answers_to_its_aliases() {
    let language = sample();
    assert!(language.matches("bo"));
    assert!(language.matches("byteorm"));
    assert!(!language.matches("BO"));
}

#[test]
fn tokens_rebuild_the_code() {
    let code = "model User // note\n  name = \"x\" @id 42\n";
    let tokens = highlight(&sample(), code).unwrap();
    let rebuilt: String = tokens.iter().map(|t| t.text.as_str()).collect();
    assert_eq!(rebuilt, code);
}

#[test]
fn classes_take_their_colours() {
    let tokens = highlight(&sample(), "model X // c").unwrap();
    assert_eq!(tokens[0].text, "model");
    assert_eq!(tokens[0].dark, "#aaaaaa");
    let comment = tokens.iter().find(|t| t.text.starts_with("//")).unwrap();
    assert_eq!(comment.dark, "#bbbbbb");
}

#[test]
fn unclassified_text_falls_back_to_the_default_colours() {
    let tokens = highlight(&sample(), "plain").unwrap();
    assert_eq!(tokens[0].light, "#24292e");
    assert_eq!(tokens[0].dark, "#c0c5ce");
}

#[test]
fn a_character_the_tokenizer_cannot_consume_stalls_it() {
    assert_eq!(highlight(&sample(), "a \u{2026} b"), None);
}

#[test]
fn letters_beyond_ascii_tokenize() {
    for code in ["model Café = \"ü\"\n", "名前 = 1", "Ωmega_2 = x"] {
        let tokens = highlight(&sample(), code).unwrap();
        let rebuilt: String = tokens.iter().map(|t| t.text.as_str()).collect();
        assert_eq!(rebuilt, code);
        assert!(tokens.iter().all(|t| !t.text.is_empty()));
        for pair in tokens.windows(2) {
            assert!((&pair[0].light, &pair[0].dark) != (&pair[1].light, &pair[1].dark));
        }
    }
}

#[test]
fn a_symbol_read_as_a_letter_stalls() {
    // `×` is not alphanumeric, but its first byte reads as `Ã`, a letter.
    assert_eq!(highlight(&sample(), "a × b"), None);
}
