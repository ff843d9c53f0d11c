use dioxus_press::ast::{CalloutKind, ListItem, Node, Tasks};

#[test]
fn callout_kinds_round_trip_their_names() {
    for kind in [
        CalloutKind::Note,
        CalloutKind::Tip,
        CalloutKind::Info,
        CalloutKind::Warning,
        CalloutKind::Danger,
    ] {
        assert_eq!(CalloutKind::from_name(kind.as_str()), Some(kind));
    }
    assert_eq!(CalloutKind::from_name("caution"), Some(CalloutKind::Warning));
    assert_eq!(CalloutKind::from_name("error"), Some(CalloutKind::Danger));
    assert_eq!(CalloutKind::from_name("Tip"), None);
}

#[test]
fn tasks_are_counted_at_any_depth() {
    let mut done = ListItem::new(vec![Node::Text("a".to_string())]);
    done.task = Some(true);
    let mut open = ListItem::new(vec![]);
    open.task = Some(false);
    let inner = Node::List { ordered: false, start: 1, items: vec![open] };
    let mut parent = ListItem::new(vec![inner]);
    parent.task = None;
    let nodes = vec![
        Node::List { ordered: false, start: 1, items: vec![done, parent] },
        Node::Paragraph(vec![Node::Text("x".to_string())]),
    ];
    let tasks = Tasks::count(&nodes);
    assert_eq!((tasks.done, tasks.total), (1, 2));
    assert_eq!(Tasks::try_count(&nodes), Some(tasks));
    assert_eq!(tasks.percent(), 50);
}

#[test]
fn a_new_item_is_no_task() {
    let item = ListItem::new(vec![Node::Rule]);
    assert_eq!(item.task, None);
    assert_eq!(item.children, vec![Node::Rule]);
}
