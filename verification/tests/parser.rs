use dioxus_press::ast::{Frontmatter, Node, PropValue};
use dioxus_press::ast::TocEntry;
use dioxus_press::parser::{build_tree, parse, MdEvent, MdTag, MdTagEnd, ParseError};

fn page(source: &str) -> dioxus_press::ast::Document {
    parse(Frontmatter::default(), source).unwrap()
}

#[test]
fn task_list_items_carry_their_state() {
    let doc = page("- [x] Done\n- [ ] Not done\n- Plain\n");
    let Node::List { items, .. } = &doc.nodes[0] else {
        panic!("expected a list, got {:?}", doc.nodes[0]);
    };
    assert_eq!(
        items.iter().map(|item| item.task).collect::<Vec<_>>(),
        vec![Some(true), Some(false), None]
    );
}

#[test]
fn tasks_are_counted_across_the_page() {
    let doc = page(
        "# Roadmap\n\n## Now\n\n- [x] One\n- [x] Two\n\n## Later\n\n- [ ] Three\n- [ ] Four\n",
    );
    assert_eq!(doc.tasks.total, 4);
    assert_eq!(doc.tasks.done, 2);
    assert_eq!(doc.tasks.percent(), 50);
}

#[test]
fn nested_tasks_are_counted_too() {
    let doc = page("- [x] Parent\n  - [ ] Child\n  - [x] Other child\n");
    assert_eq!((doc.tasks.done, doc.tasks.total), (2, 3));
}

#[test]
fn a_page_without_tasks_reports_no_progress() {
    let doc = page("- One\n- Two\n");
    assert_eq!(doc.tasks.total, 0);
    assert_eq!(doc.tasks.percent(), 0);
}

#[test]
fn directive_becomes_a_component_with_children() {
    let doc = page("# Hi\n\n:::tip Note\nBody **text**.\n:::\n\nAfter.\n");
    let Node::Component {
        name,
        props,
        children,
    } = &doc.nodes[1]
    else {
        panic!("expected a component, got {:?}", doc.nodes[1]);
    };
    assert_eq!(name, "Callout");
    assert_eq!(props[0], ("kind".into(), PropValue::Str("tip".into())));
    assert_eq!(props[1], ("title".into(), PropValue::Str("Note".into())));
    assert_eq!(children.len(), 1, "directive body should be nested inside");
    assert!(
        matches!(doc.nodes[2], Node::Paragraph(_)),
        "sibling after close"
    );
}

#[test]
fn inline_component_keeps_expression_props() {
    let doc = page("<Counter initial={5} />\n");
    let text = format!("{:?}", doc.nodes);
    assert!(text.contains("Counter"), "{text}");
    assert!(text.contains("Expr(\"5\")"), "{text}");
}

#[test]
fn headings_get_slugs_and_toc_entries() {
    let doc = page("# Title\n\n## First Section\n\n### Deep\n");
    assert_eq!(doc.first_heading.as_deref(), Some("Title"));
    assert_eq!(doc.toc.len(), 2);
    assert_eq!(doc.toc[0].id, "first-section");
    assert_eq!(doc.toc[1].level, 3);
}

#[test]
fn code_blocks_keep_their_source() {
    let doc = page("```rust\nfn main() {}\n```\n");
    let Node::CodeBlock { lang, code, tokens } = &doc.nodes[0] else {
        panic!("expected a code block");
    };
    assert_eq!(lang.as_deref(), Some("rust"));
    assert_eq!(code, "fn main() {}\n");
    assert!(!tokens.is_empty());
}

#[test]
fn repeated_headings_get_numbered_slugs() {
    let doc = page("## Setup\n\n## Setup\n\n## Setup\n");
    let ids: Vec<&str> = doc.toc.iter().map(|t| t.id.as_str()).collect();
    assert_eq!(ids, vec!["setup", "setup-1", "setup-2"]);
}

#[test]
fn plain_text_strips_markup() {
    let doc = page("# Title\n\nSome *emphasis* and `code`.\n");
    assert_eq!(doc.plain_text, "Title Some emphasis  and code.");
}

#[test]
fn the_title_falls_back_in_order() {
    let doc = page("# From heading\n");
    assert_eq!(doc.title("fallback"), "From heading");
    let titled = parse(
        Frontmatter {
            title: Some("From frontmatter".to_string()),
            ..Frontmatter::default()
        },
        "# From heading\n",
    )
    .unwrap();
    assert_eq!(titled.title("fallback"), "From frontmatter");
    assert_eq!(page("text only\n").title("fallback"), "fallback");
}

#[test]
fn links_and_images_are_kept() {
    let doc = page("[docs](/guide \"The guide\") ![logo](/logo.png)\n");
    let Node::Paragraph(children) = &doc.nodes[0] else {
        panic!("expected a paragraph");
    };
    assert!(matches!(&children[0], Node::Link { href, title, .. } if href == "/guide" && title.as_deref() == Some("The guide")));
    assert!(children.iter().any(|n| matches!(n, Node::Image { src, alt } if src == "/logo.png" && alt == "logo")));
}

#[test]
fn tables_keep_head_and_rows() {
    let doc = page("| a | b |\n|---|---|\n| 1 | 2 |\n");
    let Node::Table { head, rows } = &doc.nodes[0] else {
        panic!("expected a table, got {:?}", doc.nodes);
    };
    assert_eq!(head.len(), 2);
    assert_eq!(rows.len(), 1);
    assert_eq!(rows[0].len(), 2);
}

fn stalling_language() -> dioxus_press::lang::Language {
    dioxus_press::lang::Language {
        name: "st".to_string(),
        aliases: vec![],
        line_comment: None,
        attribute_prefix: None,
        declaration_after: vec![],
        operators: String::new(),
        words: vec![],
        colours: vec![],
    }
}

#[test]
fn a_language_that_never_finishes_is_reported() {
    let hl = dioxus_press::highlight::Highlighter::load().unwrap();
    let languages = vec![stalling_language()];
    let result = dioxus_press::parser::parse_with(
        Frontmatter::default(),
        "```st\nwait\u{2026}\n```\n",
        &languages,
        &hl,
    );
    assert_eq!(result.unwrap_err(), ParseError::Stalled);
    let fine = dioxus_press::parser::parse_with(Frontmatter::default(), "```st\nwait\n```\n", &languages, &hl);
    assert!(fine.is_ok());
}

#[test]
fn a_tree_is_built_from_events() {
    let events = vec![
        MdEvent::Start(MdTag::Heading { level: 2, id: None }),
        MdEvent::Text("Hi there".to_string()),
        MdEvent::End(MdTagEnd::Other),
        MdEvent::Start(MdTag::Paragraph),
        MdEvent::Text("a".to_string()),
        MdEvent::SoftBreak,
        MdEvent::Code("b".to_string()),
    ];
    let (nodes, toc, first) = build_tree(&events);
    assert_eq!(
        toc,
        vec![TocEntry {
            id: "hi-there".to_string(),
            title: "Hi there".to_string(),
            level: 2
        }]
    );
    assert_eq!(first, None);
    assert_eq!(nodes.len(), 2);
    assert_eq!(
        nodes[1],
        Node::Paragraph(vec![
            Node::Text("a".to_string()),
            Node::Text(" ".to_string()),
            Node::InlineCode("b".to_string()),
        ])
    );
}
