use dioxus_press::ast::ListItem;
use dioxus_press::rsx::{escape_braces, has_anchor, heading_tag_level, is_internal, is_task_list};

#[test]
fn internal_links_start_with_one_slash() {
    assert!(is_internal("/guide"));
    assert!(is_internal("/"));
    assert!(!is_internal("//cdn.example.com"));
    assert!(!is_internal("https://example.com"));
    assert!(!is_internal(""));
}

#[test]
fn braces_are_doubled() {
    assert_eq!(escape_braces("a {b} c"), "a {{b}} c");
    assert_eq!(escape_braces("plain"), "plain");
    assert_eq!(escape_braces("}{"), "}}{{");
}

#[test]
fn heading_markup() {
    assert_eq!(heading_tag_level(0), 1);
    assert_eq!(heading_tag_level(3), 3);
    assert_eq!(heading_tag_level(9), 6);
    assert!(has_anchor(2) && has_anchor(3));
    assert!(!has_anchor(1) && !has_anchor(4));
}

#[test]
fn a_task_makes_a_task_list() {
    let mut items = vec![ListItem::new(vec![]), ListItem::new(vec![])];
    assert!(!is_task_list(&items));
    items[1].task = Some(false);
    assert!(is_task_list(&items));
}

#[test]
fn escaping_is_two_replaces_and_prints_the_value() {
    for value in ["a {b}", "{{}}", "plain", "}{"] {
        let escaped = escape_braces(value);
        assert_eq!(escaped, value.replace('{', "{{").replace('}', "}}"));
        assert_eq!(escaped.replace("{{", "{").replace("}}", "}"), value);
    }
}
