use dioxus_press::ast::PropValue;
use dioxus_press::tag::{parse, Tag};

#[test]
fn parses_self_closing_with_mixed_props() {
    let tag = parse(r#"<Counter initial={5} label="hits" wide />"#).unwrap();
    let Tag::SelfClosing { name, props } = tag else {
        panic!("expected self-closing");
    };
    assert_eq!(name, "Counter");
    assert_eq!(props[0], ("initial".into(), PropValue::Expr("5".into())));
    assert_eq!(props[1], ("label".into(), PropValue::Str("hits".into())));
    assert_eq!(props[2], ("wide".into(), PropValue::Flag));
}

#[test]
fn keeps_braces_inside_string_literals() {
    let tag = parse(r#"<Fmt f={|x| format!("{x} ms")} />"#).unwrap();
    let Tag::SelfClosing { props, .. } = tag else {
        panic!("expected self-closing");
    };
    assert_eq!(
        props[0].1,
        PropValue::Expr(r#"|x| format!("{x} ms")"#.into())
    );
}

#[test]
fn parses_open_and_close() {
    assert_eq!(
        parse("<Tabs>"),
        Some(Tag::Open {
            name: "Tabs".into(),
            props: vec![]
        })
    );
    assert_eq!(
        parse("</Tabs>"),
        Some(Tag::Close {
            name: "Tabs".into()
        })
    );
}

#[test]
fn ignores_plain_html() {
    assert_eq!(parse("<div class=\"x\">"), None);
    assert_eq!(parse("<!-- comment -->"), None);
}

#[test]
fn an_unterminated_prop_is_not_a_tag() {
    assert_eq!(parse("<Counter initial={5 />"), None);
    assert_eq!(parse("<Note title=\"open />"), None);
}

#[test]
fn bare_tags_of_any_component_name() {
    for name in ["A", "Tabs", "My_Widget2", "Café"] {
        assert_eq!(
            parse(&format!("<{name}>")),
            Some(Tag::Open { name: name.into(), props: vec![] })
        );
        assert_eq!(
            parse(&format!("<{name} />")),
            Some(Tag::SelfClosing { name: name.into(), props: vec![] })
        );
        assert_eq!(parse(&format!("</{name}>")), Some(Tag::Close { name: name.into() }));
    }
    assert_eq!(parse("<tabs>"), None);
}
