//! Markdown -> [`Document`].
use vstd::prelude::*;
use crate::ast::{
    cells_view, items_view, lemma_cells_view_take, lemma_items_view_take, lemma_nodes_view_take,
    lemma_rows_view_take, node_view, nodes_view, rows_view, ListItemV, Node, NodeV, HlTokenV,
    PropValueV, TocEntryV, ListItem, PropValue, HlToken, TocEntry, tokens_view, props_view,
    prop_value_view, toc_view, Document, Frontmatter, Tasks, nodes_tasks, items_tasks,
};
use crate::text::{string_of_range, trim, trim_range, pieces_from, concat};
use crate::slug::{first_free, numbered, slugify_spec, SlugAllocator};
use crate::tag::{parse_tag, TagV, Tag};
use crate::lang::{Language, LanguageV, languages_view};
use crate::highlight::{standard_themes, Highlighter};
use crate::colour::{fill_nodes, filled_nodes, nodes_stall};
use crate::directive::{expand, expand_spec};
use pulldown_cmark::{CodeBlockKind, Event, Options, Parser, Tag as CmTag, TagEnd};

verus! {

// ---------------------------------------------------------------------------
// The markdown event stream
// ---------------------------------------------------------------------------

/// The tags the builder tells apart, as pulldown-cmark reports them.
#[derive(Debug)]
pub enum MdTag {
    Paragraph,
    Heading { level: u8, id: Option<String> },
    Emphasis,
    Strong,
    Strikethrough,
    BlockQuote,
    Link { dest: String, title: String },
    Image { dest: String, title: String },
    /// `Some(start)` for an ordered list.
    List(Option<u64>),
    Item,
    Table,
    TableHead,
    TableRow,
    TableCell,
    /// The info string of a fenced block, `None` for an indented one.
    CodeBlock(Option<String>),
    HtmlBlock,
    Other,
}

#[derive(Debug)]
pub enum MdTagEnd {
    HtmlBlock,
    TableHead,
    TableRow,
    Other,
}

#[derive(Debug)]
pub enum MdEvent {
    Start(MdTag),
    End(MdTagEnd),
    Text(String),
    Code(String),
    SoftBreak,
    HardBreak,
    Rule,
    /// A block or inline HTML fragment.
    Html(String),
    TaskListMarker(bool),
    Other,
}

pub enum MdTagV {
    Paragraph,
    Heading { level: u8, id: Option<Seq<char>> },
    Emphasis,
    Strong,
    Strikethrough,
    BlockQuote,
    Link { dest: Seq<char>, title: Seq<char> },
    Image { dest: Seq<char>, title: Seq<char> },
    List(Option<u64>),
    Item,
    Table,
    TableHead,
    TableRow,
    TableCell,
    CodeBlock(Option<Seq<char>>),
    HtmlBlock,
    Other,
}

pub enum MdEventV {
    Start(MdTagV),
    End(MdTagEnd),
    Text(Seq<char>),
    Code(Seq<char>),
    SoftBreak,
    HardBreak,
    Rule,
    Html(Seq<char>),
    TaskListMarker(bool),
    Other,
}

pub open spec fn opt_s(o: Option<String>) -> Option<Seq<char>> {
    match o {
        Some(s) => Some(s@),
        None => None,
    }
}

pub open spec fn tag_view(t: MdTag) -> MdTagV {
    match t {
        MdTag::Paragraph => MdTagV::Paragraph,
        MdTag::Heading { level, id } => MdTagV::Heading { level, id: opt_s(id) },
        MdTag::Emphasis => MdTagV::Emphasis,
        MdTag::Strong => MdTagV::Strong,
        MdTag::Strikethrough => MdTagV::Strikethrough,
        MdTag::BlockQuote => MdTagV::BlockQuote,
        MdTag::Link { dest, title } => MdTagV::Link { dest: dest@, title: title@ },
        MdTag::Image { dest, title } => MdTagV::Image { dest: dest@, title: title@ },
        MdTag::List(s) => MdTagV::List(s),
        MdTag::Item => MdTagV::Item,
        MdTag::Table => MdTagV::Table,
        MdTag::TableHead => MdTagV::TableHead,
        MdTag::TableRow => MdTagV::TableRow,
        MdTag::TableCell => MdTagV::TableCell,
        MdTag::CodeBlock(l) => MdTagV::CodeBlock(opt_s(l)),
        MdTag::HtmlBlock => MdTagV::HtmlBlock,
        MdTag::Other => MdTagV::Other,
    }
}

pub open spec fn event_view(e: MdEvent) -> MdEventV {
    match e {
        MdEvent::Start(t) => MdEventV::Start(tag_view(t)),
        MdEvent::End(t) => MdEventV::End(t),
        MdEvent::Text(s) => MdEventV::Text(s@),
        MdEvent::Code(s) => MdEventV::Code(s@),
        MdEvent::SoftBreak => MdEventV::SoftBreak,
        MdEvent::HardBreak => MdEventV::HardBreak,
        MdEvent::Rule => MdEventV::Rule,
        MdEvent::Html(s) => MdEventV::Html(s@),
        MdEvent::TaskListMarker(b) => MdEventV::TaskListMarker(b),
        MdEvent::Other => MdEventV::Other,
    }
}

pub open spec fn events_view(s: Seq<MdEvent>) -> Seq<MdEventV> {
    s.map_values(|e: MdEvent| event_view(e))
}

/// The events pulldown-cmark reports for a source, with tables, strikethrough,
/// task lists and heading attributes enabled.
pub uninterp spec fn cmark_events(text: Seq<char>) -> Seq<MdEventV>;

#[verifier::external_type_specification]
#[verifier::external_body]
pub struct ExEvent<'a>(Event<'a>);

#[verifier::external_type_specification]
#[verifier::external_body]
pub struct ExTag<'a>(CmTag<'a>);

#[verifier::external_type_specification]
#[verifier::external_body]
pub struct ExTagEnd(TagEnd);

/// Part of converting `markdown_events`' result: a `pulldown_cmark::TagEnd` as
/// the builder tells them apart, one arm per variant, the rest `Other`.
#[verifier::external_body]
fn convert_end(t: TagEnd) -> MdTagEnd {
    match t {
        TagEnd::HtmlBlock => MdTagEnd::HtmlBlock,
        TagEnd::TableHead => MdTagEnd::TableHead,
        TagEnd::TableRow => MdTagEnd::TableRow,
        _ => MdTagEnd::Other,
    }
}

/// Part of converting `markdown_events`' result: a block-level
/// `pulldown_cmark::Tag`, one arm per variant, its fields moved.
#[verifier::external_body]
fn convert_block_tag(t: CmTag) -> MdTag {
    match t {
        CmTag::Paragraph => MdTag::Paragraph,
        CmTag::BlockQuote(_) => MdTag::BlockQuote,
        CmTag::HtmlBlock => MdTag::HtmlBlock,
        CmTag::List(start) => MdTag::List(start),
        CmTag::Item => MdTag::Item,
        CmTag::Table(_) => MdTag::Table,
        CmTag::TableHead => MdTag::TableHead,
        CmTag::TableRow => MdTag::TableRow,
        CmTag::TableCell => MdTag::TableCell,
        _ => MdTag::Other,
    }
}

/// Part of converting `markdown_events`' result: an inline or code
/// `pulldown_cmark::Tag`, one arm per variant, its strings copied out.
#[verifier::external_body]
fn convert_tag(t: CmTag) -> MdTag {
    match t {
        CmTag::Heading { level, id, .. } => MdTag::Heading { level: level as u8, id: id.map(|i| i.to_string()) },
        CmTag::Emphasis => MdTag::Emphasis,
        CmTag::Strong => MdTag::Strong,
        CmTag::Strikethrough => MdTag::Strikethrough,
        CmTag::Link { dest_url, title, .. } => MdTag::Link { dest: dest_url.to_string(), title: title.to_string() },
        CmTag::Image { dest_url, title, .. } => MdTag::Image { dest: dest_url.to_string(), title: title.to_string() },
        CmTag::CodeBlock(CodeBlockKind::Fenced(info)) => MdTag::CodeBlock(Some(info.to_string())),
        CmTag::CodeBlock(CodeBlockKind::Indented) => MdTag::CodeBlock(None),
        other => convert_block_tag(other),
    }
}

/// Part of converting `markdown_events`' result: a `pulldown_cmark::Event`, one
/// arm per variant, its strings copied out.
#[verifier::external_body]
fn convert_event(e: Event) -> MdEvent {
    match e {
        Event::Start(t) => MdEvent::Start(convert_tag(t)),
        Event::End(t) => MdEvent::End(convert_end(t)),
        Event::Text(s) => MdEvent::Text(s.to_string()),
        Event::Code(s) => MdEvent::Code(s.to_string()),
        Event::Html(s) | Event::InlineHtml(s) => MdEvent::Html(s.to_string()),
        Event::SoftBreak => MdEvent::SoftBreak,
        Event::HardBreak => MdEvent::HardBreak,
        Event::Rule => MdEvent::Rule,
        Event::TaskListMarker(checked) => MdEvent::TaskListMarker(checked),
        _ => MdEvent::Other,
    }
}

/// `pulldown_cmark::Parser::new_ext` with tables, strikethrough, task lists and
/// heading attributes: the source's markdown events, in order. What they are is
/// named, not stated (`cmark_events`).
#[verifier::external_body]
fn markdown_events(text: &str) -> (r: Vec<MdEvent>)
    ensures
        events_view(r@) == cmark_events(text@),
{
    let options = Options::ENABLE_TABLES | Options::ENABLE_STRIKETHROUGH
        | Options::ENABLE_TASKLISTS | Options::ENABLE_HEADING_ATTRIBUTES;
    Parser::new_ext(text, options).map(convert_event).collect()
}

// ---------------------------------------------------------------------------
// The builder, as a function of the events
// ---------------------------------------------------------------------------

/// The kind of an open container.
pub enum KindV {
    Root,
    Paragraph,
    Heading { level: u8, id: Option<Seq<char>> },
    Emphasis,
    Strong,
    Strikethrough,
    Link { href: Seq<char>, title: Option<Seq<char>> },
    Image { src: Seq<char> },
    Blockquote,
    List { ordered: bool, start: u64, items: Seq<ListItemV> },
    Item { task: Option<bool> },
    Table { head: Seq<Seq<NodeV>>, rows: Seq<Seq<Seq<NodeV>>>, row: Seq<Seq<NodeV>>, in_head: bool },
    TableCell,
    CodeBlock { lang: Option<Seq<char>>, code: Seq<char> },
    Component { name: Seq<char>, props: Seq<(Seq<char>, PropValueV)> },
    /// A container we do not model; its children are spliced into the parent.
    Transparent,
}

pub struct FrameV {
    pub kind: KindV,
    pub children: Seq<NodeV>,
}

/// The builder's state: open containers (the root at the bottom), slug counts, the
/// table of contents and the first `#` heading. Code blocks are built without
/// tokens; highlighting fills them in afterwards.
pub struct BState {
    pub stack: Seq<FrameV>,
    pub slugs: Map<Seq<char>, nat>,
    pub taken: Set<Seq<char>>,
    pub toc: Seq<TocEntryV>,
    pub first_heading: Option<Seq<char>>,
}

pub open spec fn init_state() -> BState {
    BState {
        stack: seq![FrameV { kind: KindV::Root, children: Seq::empty() }],
        slugs: Map::empty(),
        taken: Set::empty(),
        toc: Seq::empty(),
        first_heading: None,
    }
}

pub open spec fn slug_count(m: Map<Seq<char>, nat>, b: Seq<char>) -> nat {
    if m.contains_key(b) {
        m[b]
    } else {
        0
    }
}

pub open spec fn with_stack(st: BState, stack: Seq<FrameV>) -> BState {
    BState { stack, ..st }
}

/// Appends a node to the innermost open container.
pub open spec fn emit(st: BState, n: NodeV) -> BState {
    if st.stack.len() == 0 {
        st
    } else {
        let top = st.stack.last();
        with_stack(
            st,
            st.stack.update(
                st.stack.len() - 1,
                FrameV { kind: top.kind, children: top.children.push(n) },
            ),
        )
    }
}

pub open spec fn open(st: BState, kind: KindV) -> BState {
    with_stack(st, st.stack.push(FrameV { kind, children: Seq::empty() }))
}

pub open spec fn nonempty(s: Seq<char>) -> Option<Seq<char>> {
    if s.len() == 0 {
        None
    } else {
        Some(s)
    }
}

/// Closes the innermost container and hands what it built to its parent.
pub open spec fn close(st: BState) -> BState {
    if st.stack.len() <= 1 {
        st
    } else {
        let frame = st.stack.last();
        let rest = st.stack.drop_last();
        let st1 = with_stack(st, rest);
        let children = frame.children;
        match frame.kind {
            KindV::Root => st1,
            KindV::Transparent => {
                let parent = rest.last();
                with_stack(
                    st,
                    rest.update(
                        rest.len() - 1,
                        FrameV { kind: parent.kind, children: parent.children + children },
                    ),
                )
            },
            KindV::Paragraph => emit(st1, NodeV::Paragraph(children)),
            KindV::Emphasis => emit(st1, NodeV::Emphasis(children)),
            KindV::Strong => emit(st1, NodeV::Strong(children)),
            KindV::Strikethrough => emit(st1, NodeV::Strikethrough(children)),
            KindV::Blockquote => emit(st1, NodeV::Blockquote(children)),
            KindV::Heading { level, id } => {
                let title = plain_text_of(children);
                let base = slugify_spec(title);
                let n = slug_count(st.slugs, base);
                let m = first_free(st.taken, base, n);
                let (hid, slugs, taken) = match id {
                    Some(i) => (i, st.slugs, st.taken),
                    None => (
                        numbered(base, m),
                        st.slugs.insert(base, m + 1),
                        st.taken.insert(numbered(base, m)),
                    ),
                };
                let st2 = BState {
                    stack: rest,
                    slugs,
                    taken,
                    toc: if 2 <= level && level <= 3 {
                        st.toc.push(TocEntryV { id: hid, title, level })
                    } else {
                        st.toc
                    },
                    first_heading: if level == 1 && st.first_heading is None {
                        Some(title)
                    } else {
                        st.first_heading
                    },
                    ..st
                };
                emit(st2, NodeV::Heading { level, id: hid, children })
            },
            KindV::Link { href, title } => emit(st1, NodeV::Link { href, title, children }),
            KindV::Image { src } => emit(st1, NodeV::Image { src, alt: plain_text_of(children) }),
            KindV::CodeBlock { lang, code } => emit(
                st1,
                NodeV::CodeBlock { lang, code, tokens: Seq::empty() },
            ),
            KindV::Component { name, props } => emit(
                st1,
                NodeV::Component { name, props, children },
            ),
            KindV::List { ordered, start, items } => emit(
                st1,
                NodeV::List { ordered, start, items },
            ),
            KindV::Table { head, rows, .. } => emit(st1, NodeV::Table { head, rows }),
            KindV::Item { task } => {
                let parent = rest.last();
                match parent.kind {
                    KindV::List { ordered, start, items } => with_stack(
                        st,
                        rest.update(
                            rest.len() - 1,
                            FrameV {
                                kind: KindV::List {
                                    ordered,
                                    start,
                                    items: items.push(ListItemV { task, children }),
                                },
                                children: parent.children,
                            },
                        ),
                    ),
                    _ => st1,
                }
            },
            KindV::TableCell => {
                let parent = rest.last();
                match parent.kind {
                    KindV::Table { head, rows, row, in_head } => with_stack(
                        st,
                        rest.update(
                            rest.len() - 1,
                            FrameV {
                                kind: KindV::Table { head, rows, row: row.push(children), in_head },
                                children: parent.children,
                            },
                        ),
                    ),
                    _ => st1,
                }
            },
        }
    }
}

/// Closes containers until only `target` are left (never the root).
pub open spec fn close_to(st: BState, target: int) -> BState
    decreases st.stack.len(),
{
    if st.stack.len() > target && st.stack.len() > 1 {
        let next = close(st);
        if next.stack.len() < st.stack.len() {
            close_to(next, target)
        } else {
            st
        }
    } else {
        st
    }
}

/// The innermost open component named `name`, at or below index `k - 1`.
pub open spec fn find_component(stack: Seq<FrameV>, name: Seq<char>, k: int) -> Option<int>
    decreases k,
{
    if k <= 0 {
        None
    } else {
        match stack[k - 1].kind {
            KindV::Component { name: open_name, .. } => if open_name == name {
                Some(k - 1)
            } else {
                find_component(stack, name, k - 1)
            },
            _ => find_component(stack, name, k - 1),
        }
    }
}

/// Unwinds to the matching open component, closing any frames left dangling inside.
pub open spec fn close_component(st: BState, name: Seq<char>) -> BState {
    match find_component(st.stack, name, st.stack.len() as int) {
        None => st,
        Some(t) => close_to(st, t),
    }
}

/// One `>`-terminated chunk of raw HTML: component tags open, close or stand alone.
pub open spec fn html_chunk(st: BState, chunk: Seq<char>) -> BState {
    let c = trim(chunk);
    if c.len() == 0 {
        st
    } else {
        match parse_tag(c) {
            Some(TagV::SelfClosing { name, props }) => emit(
                st,
                NodeV::Component { name, props, children: Seq::empty() },
            ),
            Some(TagV::Open { name, props }) => open(st, KindV::Component { name, props }),
            Some(TagV::Close { name }) => close_component(st, name),
            None => st,
        }
    }
}

pub open spec fn html_chunks(st: BState, chunks: Seq<Seq<char>>) -> BState
    decreases chunks.len(),
{
    if chunks.len() == 0 {
        st
    } else {
        html_chunk(html_chunks(st, chunks.drop_last()), chunks.last())
    }
}

pub open spec fn start_tag(st: BState, t: MdTagV) -> BState {
    match t {
        MdTagV::Paragraph => open(st, KindV::Paragraph),
        MdTagV::Heading { level, id } => open(st, KindV::Heading { level, id }),
        MdTagV::Emphasis => open(st, KindV::Emphasis),
        MdTagV::Strong => open(st, KindV::Strong),
        MdTagV::Strikethrough => open(st, KindV::Strikethrough),
        MdTagV::BlockQuote => open(st, KindV::Blockquote),
        MdTagV::Link { dest, title } => open(st, KindV::Link { href: dest, title: nonempty(title) }),
        MdTagV::Image { dest, .. } => open(st, KindV::Image { src: dest }),
        MdTagV::List(s) => open(
            st,
            KindV::List {
                ordered: s is Some,
                start: match s {
                    Some(n) => n,
                    None => 1,
                },
                items: Seq::empty(),
            },
        ),
        MdTagV::Item => open(st, KindV::Item { task: None }),
        MdTagV::Table => open(
            st,
            KindV::Table { head: Seq::empty(), rows: Seq::empty(), row: Seq::empty(), in_head: false },
        ),
        MdTagV::TableHead => if st.stack.len() > 0 {
            let top = st.stack.last();
            match top.kind {
                KindV::Table { head, rows, row, .. } => with_stack(
                    st,
                    st.stack.update(
                        st.stack.len() - 1,
                        FrameV {
                            kind: KindV::Table { head, rows, row, in_head: true },
                            children: top.children,
                        },
                    ),
                ),
                _ => st,
            }
        } else {
            st
        },
        MdTagV::TableRow => st,
        MdTagV::TableCell => open(st, KindV::TableCell),
        MdTagV::CodeBlock(info) => open(
            st,
            KindV::CodeBlock {
                lang: match info {
                    Some(l) => nonempty(l),
                    None => None,
                },
                code: Seq::empty(),
            },
        ),
        MdTagV::HtmlBlock => st,
        MdTagV::Other => open(st, KindV::Transparent),
    }
}

pub open spec fn end_tag(st: BState, t: MdTagEnd) -> BState {
    match t {
        MdTagEnd::HtmlBlock => st,
        MdTagEnd::TableHead => if st.stack.len() > 0 {
            let top = st.stack.last();
            match top.kind {
                KindV::Table { rows, row, .. } => with_stack(
                    st,
                    st.stack.update(
                        st.stack.len() - 1,
                        FrameV {
                            kind: KindV::Table { head: row, rows, row: Seq::empty(), in_head: false },
                            children: top.children,
                        },
                    ),
                ),
                _ => st,
            }
        } else {
            st
        },
        MdTagEnd::TableRow => if st.stack.len() > 0 {
            let top = st.stack.last();
            match top.kind {
                KindV::Table { head, rows, row, in_head } => if !in_head {
                    with_stack(
                        st,
                        st.stack.update(
                            st.stack.len() - 1,
                            FrameV {
                                kind: KindV::Table {
                                    head,
                                    rows: rows.push(row),
                                    row: Seq::empty(),
                                    in_head,
                                },
                                children: top.children,
                            },
                        ),
                    )
                } else {
                    st
                },
                _ => st,
            }
        } else {
            st
        },
        MdTagEnd::Other => close(st),
    }
}

pub open spec fn space() -> Seq<char> {
    seq![' ']
}

/// What one event does to the builder.
pub open spec fn step(st: BState, e: MdEventV) -> BState {
    match e {
        MdEventV::Start(t) => start_tag(st, t),
        MdEventV::End(t) => end_tag(st, t),
        MdEventV::Text(text) => if st.stack.len() > 0 {
            let top = st.stack.last();
            match top.kind {
                KindV::CodeBlock { lang, code } => with_stack(
                    st,
                    st.stack.update(
                        st.stack.len() - 1,
                        FrameV { kind: KindV::CodeBlock { lang, code: code + text }, children: top.children },
                    ),
                ),
                _ => emit(st, NodeV::Text(text)),
            }
        } else {
            st
        },
        MdEventV::Code(text) => emit(st, NodeV::InlineCode(text)),
        MdEventV::SoftBreak => emit(st, NodeV::Text(space())),
        MdEventV::HardBreak => emit(st, NodeV::Break),
        MdEventV::Rule => emit(st, NodeV::Rule),
        MdEventV::Html(html) => html_chunks(st, pieces_from(html, 0, '>')),
        MdEventV::TaskListMarker(checked) => if st.stack.len() > 0 {
            let top = st.stack.last();
            match top.kind {
                KindV::Item { .. } => with_stack(
                    st,
                    st.stack.update(
                        st.stack.len() - 1,
                        FrameV { kind: KindV::Item { task: Some(checked) }, children: top.children },
                    ),
                ),
                _ => st,
            }
        } else {
            st
        },
        MdEventV::Other => st,
    }
}

pub open spec fn run_events(es: Seq<MdEventV>) -> BState
    decreases es.len(),
{
    if es.len() == 0 {
        init_state()
    } else {
        step(run_events(es.drop_last()), es.last())
    }
}

/// The builder after every event, with every container left open closed.
pub open spec fn build(es: Seq<MdEventV>) -> BState {
    close_to(run_events(es), 1)
}

pub open spec fn built_nodes(st: BState) -> Seq<NodeV> {
    if st.stack.len() > 0 {
        st.stack[0].children
    } else {
        Seq::empty()
    }
}


// ---------------------------------------------------------------------------
// Plain text
// ---------------------------------------------------------------------------

pub open spec fn sp() -> Seq<char> {
    seq![' ']
}

/// The text of a node sequence before trimming: what `collect_text` appends.
pub open spec fn text_nodes(s: Seq<NodeV>) -> Seq<char>
    decreases s,
{
    if s.len() == 0 {
        Seq::empty()
    } else {
        text_nodes(s.drop_last()) + text_node(s.last())
    }
}

pub open spec fn text_items(s: Seq<ListItemV>) -> Seq<char>
    decreases s,
{
    if s.len() == 0 {
        Seq::empty()
    } else {
        text_items(s.drop_last()) + text_nodes(s.last().children) + sp()
    }
}

pub open spec fn text_cells(s: Seq<Seq<NodeV>>) -> Seq<char>
    decreases s,
{
    if s.len() == 0 {
        Seq::empty()
    } else {
        text_cells(s.drop_last()) + text_nodes(s.last()) + sp()
    }
}

pub open spec fn text_rows(s: Seq<Seq<Seq<NodeV>>>) -> Seq<char>
    decreases s,
{
    if s.len() == 0 {
        Seq::empty()
    } else {
        text_rows(s.drop_last()) + text_cells(s.last())
    }
}

pub open spec fn text_node(n: NodeV) -> Seq<char>
    decreases n,
{
    match n {
        NodeV::Text(t) => t,
        NodeV::InlineCode(t) => t,
        NodeV::Break => sp(),
        NodeV::Rule => sp(),
        NodeV::Emphasis(c) => text_nodes(c) + sp(),
        NodeV::Strong(c) => text_nodes(c) + sp(),
        NodeV::Strikethrough(c) => text_nodes(c) + sp(),
        NodeV::Paragraph(c) => text_nodes(c) + sp(),
        NodeV::Blockquote(c) => text_nodes(c) + sp(),
        NodeV::Heading { children, .. } => text_nodes(children) + sp(),
        NodeV::Link { children, .. } => text_nodes(children) + sp(),
        NodeV::Component { children, .. } => text_nodes(children),
        NodeV::Image { alt, .. } => alt,
        NodeV::CodeBlock { code, .. } => code + sp(),
        NodeV::List { items, .. } => text_items(items),
        NodeV::Table { head, rows } => text_cells(head) + text_rows(rows),
    }
}

/// Flattened text with the surrounding whitespace trimmed.
pub open spec fn plain_text_of(s: Seq<NodeV>) -> Seq<char> {
    trim(text_nodes(s))
}

/// Flattens a node tree to plain text, for headings, alt text, and the search index.
pub fn plain_text(nodes: &[Node]) -> (r: String)
    ensures
        r@ == plain_text_of(nodes_view(nodes@)),
{
    let mut out: Vec<char> = Vec::new();
    collect_text(nodes, &mut out);
    let (a, b) = trim_range(&out, 0, out.len());
    proof {
        assert(out@.subrange(0, out@.len() as int) =~= out@);
    }
    string_of_range(&out, a, b)
}

fn push_space(out: &mut Vec<char>)
    ensures
        final(out)@ == old(out)@ + sp(),
{
    out.push(' ');
    proof {
        assert(final(out)@ =~= old(out)@ + sp());
    }
}

fn push_string(out: &mut Vec<char>, s: &String)
    ensures
        final(out)@ == old(out)@ + s@,
{
    crate::text::extend_str(out, s.as_str());
}

fn collect_text(nodes: &[Node], out: &mut Vec<char>)
    ensures
        final(out)@ == old(out)@ + text_nodes(nodes_view(nodes@)),
    decreases nodes@,
{
    let mut i: usize = 0;
    while i < nodes.len()
        invariant
            0 <= i <= nodes.len(),
            out@ == old(out)@ + text_nodes(nodes_view(nodes@.take(i as int))),
        decreases nodes.len() - i,
    {
        proof {
            lemma_nodes_view_take(nodes@, i as int);
            let v = nodes_view(nodes@.take(i as int));
            assert(v.push(node_view(nodes@[i as int])).drop_last() =~= v);
        }
        let ghost before = out@;
        collect_node(&nodes[i], out);
        proof {
            let v = nodes_view(nodes@.take(i as int));
            assert(before + text_node(node_view(nodes@[i as int])) =~= old(out)@ + (text_nodes(v)
                + text_node(node_view(nodes@[i as int]))));
        }
        i += 1;
    }
    proof {
        assert(nodes@.take(i as int) =~= nodes@);
    }
}

#[verifier::loop_isolation(false)]
fn collect_node(node: &Node, out: &mut Vec<char>)
    ensures
        final(out)@ == old(out)@ + text_node(node_view(*node)),
    decreases node,
{
    match node {
        Node::Text(text) | Node::InlineCode(text) => push_string(out, text),
        Node::Break | Node::Rule => push_space(out),
        Node::Emphasis(children) | Node::Strong(children) | Node::Strikethrough(children)
        | Node::Paragraph(children) | Node::Blockquote(children) => {
            collect_text(children.as_slice(), out);
            push_space(out);
            proof {
                assert(final(out)@ =~= old(out)@ + text_node(node_view(*node)));
            }
        },
        Node::Heading { children, .. } | Node::Link { children, .. } => {
            collect_text(children.as_slice(), out);
            push_space(out);
            proof {
                assert(final(out)@ =~= old(out)@ + text_node(node_view(*node)));
            }
        },
        Node::Component { children, .. } => collect_text(children.as_slice(), out),
        Node::Image { alt, .. } => push_string(out, alt),
        Node::CodeBlock { code, .. } => {
            push_string(out, code);
            push_space(out);
            proof {
                assert(final(out)@ =~= old(out)@ + text_node(node_view(*node)));
            }
        },
        Node::List { items, .. } => {
            let ghost start = out@;
            let mut i: usize = 0;
            while i < items.len()
                invariant
                    0 <= i <= items.len(),
                    out@ == start + text_items(items_view(items@.take(i as int))),
                decreases items.len() - i,
            {
                proof {
                    lemma_items_view_take(items@, i as int);
                    let v = items_view(items@.take(i as int));
                    assert(v.push(items@[i as int]@).drop_last() =~= v);
                    assert(decreases_to!(*node => node->items));
                    assert(decreases_to!(node->items => node->items@));
                    assert(decreases_to!(items@ => items@[i as int]));
                    assert(decreases_to!(items@[i as int] => items@[i as int].children));
                    assert(decreases_to!(items@[i as int].children => items@[i as int].children@));
                }
                let ghost before = out@;
                collect_text(items[i].children.as_slice(), out);
                push_space(out);
                proof {
                    let v = items_view(items@.take(i as int));
                    assert(out@ =~= start + text_items(v.push(items@[i as int]@)));
                }
                i += 1;
            }
            proof {
                assert(items@.take(i as int) =~= items@);
            }
        },
        Node::Table { head, rows } => {
            let ghost start = out@;
            proof {
                assert(decreases_to!(*node => node->head));
            }
            collect_cells(head, out);
            let ghost mid = out@;
            let mut r: usize = 0;
            while r < rows.len()
                invariant
                    0 <= r <= rows.len(),
                    mid == start + text_cells(cells_view(head@)),
                    out@ == mid + text_rows(rows_view(rows@.take(r as int))),
                decreases rows.len() - r,
            {
                proof {
                    lemma_rows_view_take(rows@, r as int);
                    let v = rows_view(rows@.take(r as int));
                    assert(v.push(cells_view(rows@[r as int]@)).drop_last() =~= v);
                    assert(decreases_to!(*node => node->rows));
                    assert(decreases_to!(node->rows => node->rows@));
                    assert(decreases_to!(rows@ => rows@[r as int]));
                }
                let ghost before = out@;
                collect_cells(&rows[r], out);
                proof {
                    let v = rows_view(rows@.take(r as int));
                    assert(out@ =~= mid + text_rows(v.push(cells_view(rows@[r as int]@))));
                }
                r += 1;
            }
            proof {
                assert(rows@.take(r as int) =~= rows@);
                assert(out@ =~= start + text_node(node_view(*node)));
            }
        },
    }
}

fn collect_cells(cells: &Vec<Vec<Node>>, out: &mut Vec<char>)
    ensures
        final(out)@ == old(out)@ + text_cells(cells_view(cells@)),
    decreases cells,
{
    let mut i: usize = 0;
    while i < cells.len()
        invariant
            0 <= i <= cells.len(),
            out@ == old(out)@ + text_cells(cells_view(cells@.take(i as int))),
        decreases cells.len() - i,
    {
        proof {
            lemma_cells_view_take(cells@, i as int);
            let v = cells_view(cells@.take(i as int));
            assert(v.push(nodes_view(cells@[i as int]@)).drop_last() =~= v);
            assert(decreases_to!(*cells => cells@));
            assert(decreases_to!(cells@ => cells@[i as int]));
        }
        collect_text(cells[i].as_slice(), out);
        push_space(out);
        proof {
            let v = cells_view(cells@.take(i as int));
            assert(out@ =~= old(out)@ + text_cells(v.push(nodes_view(cells@[i as int]@))));
        }
        i += 1;
    }
    proof {
        assert(cells@.take(i as int) =~= cells@);
    }
}


// ---------------------------------------------------------------------------
// The builder
// ---------------------------------------------------------------------------

enum Kind {
    Root,
    Paragraph,
    Heading { level: u8, id: Option<String> },
    Emphasis,
    Strong,
    Strikethrough,
    Link { href: String, title: Option<String> },
    Image { src: String },
    Blockquote,
    List { ordered: bool, start: u64, items: Vec<ListItem> },
    Item { task: Option<bool> },
    Table { head: Vec<Vec<Node>>, rows: Vec<Vec<Vec<Node>>>, row: Vec<Vec<Node>>, in_head: bool },
    TableCell,
    CodeBlock { lang: Option<String>, code: String },
    Component { name: String, props: Vec<(String, PropValue)> },
    Transparent,
}

struct Frame {
    kind: Kind,
    children: Vec<Node>,
}

spec fn kind_view(k: Kind) -> KindV {
    match k {
        Kind::Root => KindV::Root,
        Kind::Paragraph => KindV::Paragraph,
        Kind::Heading { level, id } => KindV::Heading { level, id: opt_s(id) },
        Kind::Emphasis => KindV::Emphasis,
        Kind::Strong => KindV::Strong,
        Kind::Strikethrough => KindV::Strikethrough,
        Kind::Link { href, title } => KindV::Link { href: href@, title: opt_s(title) },
        Kind::Image { src } => KindV::Image { src: src@ },
        Kind::Blockquote => KindV::Blockquote,
        Kind::List { ordered, start, items } => KindV::List { ordered, start, items: items_view(items@) },
        Kind::Item { task } => KindV::Item { task },
        Kind::Table { head, rows, row, in_head } => KindV::Table {
            head: cells_view(head@),
            rows: rows_view(rows@),
            row: cells_view(row@),
            in_head,
        },
        Kind::TableCell => KindV::TableCell,
        Kind::CodeBlock { lang, code } => KindV::CodeBlock { lang: opt_s(lang), code: code@ },
        Kind::Component { name, props } => KindV::Component { name: name@, props: props_view(props@) },
        Kind::Transparent => KindV::Transparent,
    }
}

spec fn frame_view(f: Frame) -> FrameV {
    FrameV { kind: kind_view(f.kind), children: nodes_view(f.children@) }
}

spec fn stack_view(s: Seq<Frame>) -> Seq<FrameV> {
    s.map_values(|f: Frame| frame_view(f))
}

pub open spec fn is_heading_frame(f: FrameV) -> bool {
    f.kind is Heading
}

/// How many heading containers are open.
pub open spec fn open_headings(s: Seq<FrameV>) -> nat
    decreases s.len(),
{
    if s.len() == 0 {
        0
    } else {
        open_headings(s.drop_last()) + if is_heading_frame(s.last()) {
            1nat
        } else {
            0nat
        }
    }
}

proof fn lemma_open_headings_update(s: Seq<FrameV>, f: FrameV)
    requires
        s.len() > 0,
        is_heading_frame(f) == is_heading_frame(s.last()),
    ensures
        open_headings(s.update(s.len() - 1, f)) == open_headings(s),
{
    assert(s.update(s.len() - 1, f).drop_last() =~= s.drop_last());
}

proof fn lemma_open_headings_push(s: Seq<FrameV>, f: FrameV)
    ensures
        open_headings(s.push(f)) == open_headings(s) + if is_heading_frame(f) {
            1nat
        } else {
            0nat
        },
{
    assert(s.push(f).drop_last() =~= s);
}

struct Builder {
    stack: Vec<Frame>,
    slugs: SlugAllocator,
    slug_map: Ghost<Map<Seq<char>, nat>>,
    slug_taken: Ghost<Set<Seq<char>>>,
    toc: Vec<TocEntry>,
    first_heading: Option<String>,
}

impl Builder {
    spec fn view(self) -> BState {
        BState {
            stack: stack_view(self.stack@),
            slugs: self.slug_map@,
            taken: self.slug_taken@,
            toc: toc_view(self.toc@),
            first_heading: opt_s(self.first_heading),
        }
    }

    /// The root frame stays at the bottom; the slug counts match; every heading
    /// allocation and every open heading came from one of `budget` events.
    spec fn wf(self, budget: nat) -> bool {
        &&& self.stack@.len() >= 1
        &&& self.stack@[0].kind is Root
        &&& self.slugs.wf()
        &&& forall|b: Seq<char>| #[trigger] self.slugs.count(b) == slug_count(self.slug_map@, b)
        &&& self.slugs.handed_out() == self.slug_taken@
        &&& self.slugs.calls() + open_headings(stack_view(self.stack@)) <= budget
        &&& budget <= usize::MAX
    }

    fn new() -> (b: Builder)
        ensures
            b@ == init_state(),
            b.wf(0),
    {
        let mut stack: Vec<Frame> = Vec::new();
        stack.push(Frame { kind: Kind::Root, children: Vec::new() });
        let b = Builder {
            stack,
            slugs: SlugAllocator::new(),
            slug_map: Ghost(Map::empty()),
            slug_taken: Ghost(Set::empty()),
            toc: Vec::new(),
            first_heading: None,
        };
        proof {
            assert(nodes_view(Seq::<Node>::empty()) =~= Seq::<NodeV>::empty());
            assert(stack_view(b.stack@) =~= init_state().stack);
            assert(toc_view(b.toc@) =~= Seq::<TocEntryV>::empty());
            assert(stack_view(b.stack@).drop_last() =~= Seq::<FrameV>::empty());
            assert(open_headings(Seq::<FrameV>::empty()) == 0);
            assert(!is_heading_frame(stack_view(b.stack@).last()));
            assert(open_headings(stack_view(b.stack@)) == 0);
            assert forall|x: Seq<char>| #[trigger] b.slugs.count(x) == slug_count(b.slug_map@, x) by {
                assert(!b.slug_map@.contains_key(x));
            }
        }
        b
    }

    proof fn lemma_stack_view_pop(s: Seq<Frame>)
        requires
            s.len() > 0,
        ensures
            stack_view(s.drop_last()) == stack_view(s).drop_last(),
            stack_view(s).last() == frame_view(s.last()),
    {
        assert(stack_view(s.drop_last()) =~= stack_view(s).drop_last());
    }

    proof fn lemma_stack_view_push(s: Seq<Frame>, f: Frame)
        ensures
            stack_view(s.push(f)) == stack_view(s).push(frame_view(f)),
    {
        assert(stack_view(s.push(f)) =~= stack_view(s).push(frame_view(f)));
    }

    /// Takes the innermost frame off (the root stays).
    fn take_top(&mut self) -> (f: Frame)
        requires
            old(self).stack@.len() >= 2,
        ensures
            final(self).stack@ == old(self).stack@.drop_last(),
            f == old(self).stack@.last(),
            final(self).slugs == old(self).slugs,
            final(self).slug_map == old(self).slug_map,
            final(self).slug_taken == old(self).slug_taken,
            final(self).toc == old(self).toc,
            final(self).first_heading == old(self).first_heading,
    {
        self.stack.pop().unwrap()
    }

    fn emit(&mut self, node: Node)
        requires
            old(self).stack@.len() >= 1,
        ensures
            final(self)@ == emit(old(self)@, node_view(node)),
            final(self).stack@.len() == old(self).stack@.len(),
            final(self).stack@[0].kind is Root <==> old(self).stack@[0].kind is Root,
            open_headings(stack_view(final(self).stack@)) == open_headings(stack_view(old(self).stack@)),
            final(self).slugs == old(self).slugs,
            final(self).slug_map == old(self).slug_map,
            final(self).slug_taken == old(self).slug_taken,
    {
        let mut top = self.stack.pop().unwrap();
        proof {
            Self::lemma_stack_view_pop(old(self).stack@);
            crate::ast::lemma_nodes_view_push(top.children@, node);
        }
        top.children.push(node);
        let ghost newf = frame_view(top);
        self.stack.push(top);
        proof {
            Self::lemma_stack_view_push(old(self).stack@.drop_last(), top);
            let sv = stack_view(old(self).stack@);
            assert(stack_view(self.stack@) =~= sv.update(sv.len() - 1, newf));
            lemma_open_headings_update(sv, newf);
        }
    }

    /// Puts a frame back on top.
    fn put_top(&mut self, f: Frame)
        ensures
            final(self).stack@ == old(self).stack@.push(f),
            final(self).slugs == old(self).slugs,
            final(self).slug_map == old(self).slug_map,
            final(self).slug_taken == old(self).slug_taken,
            final(self).toc == old(self).toc,
            final(self).first_heading == old(self).first_heading,
    {
        self.stack.push(f);
    }

    /// Closes the innermost container (`close`).
    #[verifier::rlimit(60)]
    fn pop(&mut self, Ghost(budget): Ghost<nat>)
        requires
            old(self).wf(budget),
        ensures
            final(self)@ == close(old(self)@),
            final(self).wf(budget),
            final(self).stack@.len() == if old(self).stack@.len() <= 1 {
                old(self).stack@.len()
            } else {
                (old(self).stack@.len() - 1) as nat
            },
    {
        if self.stack.len() <= 1 {
            return;
        }
        let ghost st = self@;
        let ghost sv = stack_view(self.stack@);
        proof {
            Self::lemma_stack_view_pop(self.stack@);
        }
        let frame = self.take_top();
        let ghost rest = stack_view(self.stack@);
        proof {
            assert(rest == sv.drop_last());
            assert(sv.drop_last().push(sv.last()) =~= sv);
            lemma_open_headings_push(rest, sv.last());
        }
        proof {
            assert(self.stack@[0] == old(self).stack@[0]);
            assert(self@ == with_stack(st, rest));
        }
        let Frame { kind, children } = frame;
        match kind {
            Kind::Root => {
                proof {
                    assert(sv.last().kind == KindV::Root);
                    assert(close(st) == with_stack(st, rest));
                    assert(open_headings(rest) <= open_headings(sv));
                    assert(st == old(self)@);
                    assert(self@ == close(old(self)@));
                    assert(self.wf(budget));
                }
                return;
            },
            Kind::Transparent => {
                let Frame { kind: pkind, children: mut pchildren } = self.take_top_any();
                let mut moved = children;
                proof {
                    crate::ast::lemma_nodes_view_concat(pchildren@, moved@);
                }
                pchildren.append(&mut moved);
                let ghost pk = kind_view(pkind);
                self.put_top(Frame { kind: pkind, children: pchildren });
                proof {
                    Self::lemma_stack_view_push(old(self).stack@.drop_last().drop_last(), self.stack@.last());
                    Self::lemma_stack_view_pop(old(self).stack@.drop_last());
                    assert(stack_view(self.stack@) =~= rest.update(
                        rest.len() - 1,
                        FrameV { kind: rest.last().kind, children: rest.last().children + sv.last().children },
                    ));
                    lemma_open_headings_update(rest, stack_view(self.stack@).last());
                }
                proof { assert(self@ == close(old(self)@)); }
            },
            Kind::Paragraph => { self.emit(Node::Paragraph(children)); proof { assert(self@ == close(old(self)@)); } },
            Kind::Emphasis => { self.emit(Node::Emphasis(children)); proof { assert(self@ == close(old(self)@)); } },
            Kind::Strong => { self.emit(Node::Strong(children)); proof { assert(self@ == close(old(self)@)); } },
            Kind::Strikethrough => { self.emit(Node::Strikethrough(children)); proof { assert(self@ == close(old(self)@)); } },
            Kind::Blockquote => { self.emit(Node::Blockquote(children)); proof { assert(self@ == close(old(self)@)); } },
            Kind::Link { href, title } => { self.emit(Node::Link { href, title, children }); proof { assert(self@ == close(old(self)@)); } },
            Kind::Image { src } => {
                let alt = plain_text(children.as_slice());
                self.emit(Node::Image { src, alt });
                proof { assert(self@ == close(old(self)@)); }
            },
            Kind::CodeBlock { lang, code } => {
                let tokens: Vec<HlToken> = Vec::new();
                proof {
                    assert(tokens_view(tokens@) =~= Seq::<HlTokenV>::empty());
                }
                self.emit(Node::CodeBlock { lang, code, tokens });
                proof { assert(self@ == close(old(self)@)); }
            },
            Kind::Component { name, props } => {
                self.emit(Node::Component { name, props, children });
                proof { assert(self@ == close(old(self)@)); }
            },
            Kind::List { ordered, start, items } => {
                self.emit(Node::List { ordered, start, items });
                proof { assert(self@ == close(old(self)@)); }
            },
            Kind::Table { head, rows, .. } => {
                self.emit(Node::Table { head, rows });
                proof { assert(self@ == close(old(self)@)); }
            },

            Kind::Heading { level, id } => {
                let title = plain_text(children.as_slice());
                let ghost base = slugify_spec(title@);
                let hid = match id {
                    Some(i) => i,
                    None => {
                        proof {
                            assert(self.slugs.calls() < usize::MAX);
                        }
                        let ghost old_map = self.slug_map@;
                        let ghost old_taken = self.slug_taken@;
                        let ghost m = first_free(old_taken, base, slug_count(old_map, base));
                        let r = self.slugs.allocate(title.as_str());
                        proof {
                            self.slug_map@ = old_map.insert(base, m + 1);
                            self.slug_taken@ = old_taken.insert(r@);
                            assert forall|b: Seq<char>| #[trigger] self.slugs.count(b) == slug_count(self.slug_map@, b) by {
                                if b == base {
                                } else {
                                }
                            }
                        }
                        r
                    },
                };
                if level == 1 && self.first_heading.is_none() {
                    self.first_heading = Some(title.clone());
                }
                if 2 <= level && level <= 3 {
                    let e = TocEntry { id: hid.clone(), title: title, level };
                    self.toc.push(e);
                    proof {
                        assert(toc_view(self.toc@) =~= st.toc.push(e@));
                    }
                }
                self.emit(Node::Heading { level, id: hid, children });
                proof { assert(self@ == close(old(self)@)); }
            },
            Kind::Item { task } => {
                let ghost mid = self.stack@;
                let Frame { kind: pkind, children: pchildren } = self.take_top_any();
                proof {
                    Self::lemma_stack_view_pop(mid);
                    assert(rest.last() == frame_view(mid.last()));
                }
                match pkind {
                    Kind::List { ordered, start, mut items } => {
                        let ghost before = items@;
                        items.push(ListItem { task, children });
                        proof {
                            crate::ast::lemma_items_view_take(items@, before.len() as int);
                            assert(items@.take(before.len() as int) =~= before);
                            assert(items@.take(before.len() as int + 1) =~= items@);
                            assert(mid.len() >= 2) by {
                                if mid.len() == 1 {
                                    assert(mid[0] == mid.last());
                                }
                            }
                        }
                        let f = Frame { kind: Kind::List { ordered, start, items }, children: pchildren };
                        self.put_top(f);
                        proof {
                            Self::lemma_stack_view_push(mid.drop_last(), f);
                            assert(stack_view(self.stack@) =~= rest.update(rest.len() - 1, frame_view(f)));
                            lemma_open_headings_update(rest, frame_view(f));
                            assert(self.stack@[0] == mid[0]);
                            assert(self@ == close(old(self)@));
                        }
                    },
                    other => {
                        let f = Frame { kind: other, children: pchildren };
                        self.put_top(f);
                        proof {
                            Self::lemma_stack_view_push(mid.drop_last(), f);
                            assert(self.stack@ =~= mid);
                            assert(self@ == close(old(self)@));
                        }
                    },
                }
            },
            Kind::TableCell => {
                let ghost mid = self.stack@;
                let Frame { kind: pkind, children: pchildren } = self.take_top_any();
                proof {
                    Self::lemma_stack_view_pop(mid);
                    assert(rest.last() == frame_view(mid.last()));
                }
                match pkind {
                    Kind::Table { head, rows, mut row, in_head } => {
                        let ghost before = row@;
                        row.push(children);
                        proof {
                            crate::ast::lemma_cells_view_take(row@, before.len() as int);
                            assert(row@.take(before.len() as int) =~= before);
                            assert(row@.take(before.len() as int + 1) =~= row@);
                            assert(mid.len() >= 2) by {
                                if mid.len() == 1 {
                                    assert(mid[0] == mid.last());
                                }
                            }
                        }
                        let f = Frame { kind: Kind::Table { head, rows, row, in_head }, children: pchildren };
                        self.put_top(f);
                        proof {
                            Self::lemma_stack_view_push(mid.drop_last(), f);
                            assert(stack_view(self.stack@) =~= rest.update(rest.len() - 1, frame_view(f)));
                            lemma_open_headings_update(rest, frame_view(f));
                            assert(self.stack@[0] == mid[0]);
                            assert(self@ == close(old(self)@));
                        }
                    },
                    other => {
                        let f = Frame { kind: other, children: pchildren };
                        self.put_top(f);
                        proof {
                            Self::lemma_stack_view_push(mid.drop_last(), f);
                            assert(self.stack@ =~= mid);
                            assert(self@ == close(old(self)@));
                        }
                    },
                }
            },
        }
    }


    fn push_kind(&mut self, kind: Kind, Ghost(budget): Ghost<nat>)
        requires
            old(self).wf(budget),
            budget < usize::MAX,
        ensures
            final(self)@ == open(old(self)@, kind_view(kind)),
            final(self).wf(budget + 1),
            !(kind_view(kind) is Heading) ==> final(self).wf(budget),
            final(self).stack@.len() == old(self).stack@.len() + 1,
    {
        let f = Frame { kind, children: Vec::new() };
        proof {
            assert(nodes_view(f.children@) =~= Seq::<NodeV>::empty());
            Self::lemma_stack_view_push(self.stack@, f);
            lemma_open_headings_push(stack_view(self.stack@), frame_view(f));
        }
        self.put_top(f);
        proof {
            assert(self.stack@[0] == old(self).stack@[0]);
        }
    }

    /// Closes containers until `target` are left (`close_to`).
    fn pop_to(&mut self, target: usize, Ghost(budget): Ghost<nat>)
        requires
            old(self).wf(budget),
        ensures
            final(self)@ == close_to(old(self)@, target as int),
            final(self).wf(budget),
    {
        while self.stack.len() > target && self.stack.len() > 1
            invariant
                self.wf(budget),
                close_to(self@, target as int) == close_to(old(self)@, target as int),
            decreases self.stack.len(),
        {
            self.pop(Ghost(budget));
        }
    }

    fn find_open_component(&self, name: &String) -> (r: Option<usize>)
        ensures
            match r {
                Some(t) => find_component(self@.stack, name@, self@.stack.len() as int) == Some(t as int),
                None => find_component(self@.stack, name@, self@.stack.len() as int) is None,
            },
    {
        let ghost sv = self@.stack;
        let mut k = self.stack.len();
        while k > 0
            invariant
                k <= self.stack@.len(),
                sv == self@.stack,
                sv.len() == self.stack@.len(),
                find_component(sv, name@, k as int) == find_component(sv, name@, sv.len() as int),
            decreases k,
        {
            proof {
                assert(sv[k - 1] == frame_view(self.stack@[k - 1]));
            }
            match &self.stack[k - 1].kind {
                Kind::Component { name: open_name, .. } => {
                    if *open_name == *name {
                        return Some(k - 1);
                    }
                },
                _ => {},
            }
            k -= 1;
        }
        None
    }

    /// One `>`-terminated chunk of raw HTML (`html_chunk`).
    fn html_chunk(&mut self, v: &Vec<char>, lo: usize, hi: usize, Ghost(budget): Ghost<nat>)
        requires
            old(self).wf(budget),
            budget < usize::MAX,
            lo <= hi <= v.len(),
        ensures
            final(self)@ == html_chunk(old(self)@, v@.subrange(lo as int, hi as int)),
            final(self).wf(budget),
    {
        let (a, b) = trim_range(v, lo, hi);
        if a >= b {
            return;
        }
        let chunk = string_of_range(v, a, b);
        proof {
            crate::text::lemma_trim_idempotent(v@.subrange(a as int, b as int));
        }
        match crate::tag::parse(chunk.as_str()) {
            Some(Tag::SelfClosing { name, props }) => {
                self.emit(Node::Component { name, props, children: Vec::new() });
                proof {
                    assert(nodes_view(Seq::<Node>::empty()) =~= Seq::<NodeV>::empty());
                }
            },
            Some(Tag::Open { name, props }) => {
                self.push_kind(Kind::Component { name, props }, Ghost(budget));
                proof {
                    assert(self.wf(budget));
                }
            },
            Some(Tag::Close { name }) => {
                match self.find_open_component(&name) {
                    Some(t) => self.pop_to(t, Ghost(budget)),
                    None => {},
                }
            },
            None => {},
        }
    }

    fn html(&mut self, html: &String, Ghost(budget): Ghost<nat>)
        requires
            old(self).wf(budget),
            budget < usize::MAX,
        ensures
            final(self)@ == html_chunks(old(self)@, pieces_from(html@, 0, '>')),
            final(self).wf(budget),
    {
        let v = crate::text::chars_of(html.as_str());
        let mut pos: usize = 0;
        let ghost mut done: Seq<Seq<char>> = Seq::empty();
        proof {
            assert(pieces_from(v@, 0, '>') == done + pieces_from(v@, 0, '>'));
        }
        while pos < v.len()
            invariant
                pos <= v.len(),
                v@ == html@,
                budget < usize::MAX,
                self.wf(budget),
                pieces_from(v@, 0, '>') == done + pieces_from(v@, pos as int, '>'),
                self@ == html_chunks(old(self)@, done),
            decreases v.len() - pos,
        {
            let e = crate::text::next_piece_end(&v, pos, '>');
            let ghost piece = v@.subrange(pos as int, e as int);
            proof {
                assert(pieces_from(v@, pos as int, '>') == seq![piece] + pieces_from(v@, e as int, '>'));
                assert(done + (seq![piece] + pieces_from(v@, e as int, '>')) =~= done.push(piece)
                    + pieces_from(v@, e as int, '>'));
                assert(done.push(piece).drop_last() =~= done);
            }
            self.html_chunk(&v, pos, e, Ghost(budget));
            proof {
                done = done.push(piece);
            }
            pos = e;
        }
        proof {
            assert(pieces_from(v@, pos as int, '>') =~= Seq::<Seq<char>>::empty());
            assert(done =~= pieces_from(v@, 0, '>'));
        }
    }


    fn top_kind_is(&self, which: u8) -> (r: bool)
        ensures
            r == (self.stack@.len() >= 2 && match self.stack@.last().kind {
                Kind::Table { .. } => which == 0,
                Kind::CodeBlock { .. } => which == 1,
                Kind::Item { .. } => which == 2,
                _ => false,
            }),
    {
        let n = self.stack.len();
        if n < 2 {
            return false;
        }
        match &self.stack[n - 1].kind {
            Kind::Table { .. } => which == 0,
            Kind::CodeBlock { .. } => which == 1,
            Kind::Item { .. } => which == 2,
            _ => false,
        }
    }

    proof fn lemma_root_only_at_bottom(self, budget: nat)
        requires
            self.wf(budget),
            self.stack@.len() == 1,
        ensures
            self@.stack.last().kind is Root,
    {
        assert(self@.stack.last() == frame_view(self.stack@[0]));
    }

    fn start(&mut self, tag: &MdTag, Ghost(budget): Ghost<nat>)
        requires
            old(self).wf(budget),
            budget < usize::MAX,
        ensures
            final(self)@ == start_tag(old(self)@, tag_view(*tag)),
            final(self).wf(budget + 1),
    {
        match tag {
            MdTag::Paragraph => self.push_kind(Kind::Paragraph, Ghost(budget)),
            MdTag::Heading { level, id } => self.push_kind(
                Kind::Heading { level: *level, id: id.clone() },
                Ghost(budget),
            ),
            MdTag::Emphasis => self.push_kind(Kind::Emphasis, Ghost(budget)),
            MdTag::Strong => self.push_kind(Kind::Strong, Ghost(budget)),
            MdTag::Strikethrough => self.push_kind(Kind::Strikethrough, Ghost(budget)),
            MdTag::BlockQuote => self.push_kind(Kind::Blockquote, Ghost(budget)),
            MdTag::Link { dest, title } => {
                let t = if title.as_str().is_empty() {
                    None
                } else {
                    Some(title.clone())
                };
                self.push_kind(Kind::Link { href: dest.clone(), title: t }, Ghost(budget));
            },
            MdTag::Image { dest, .. } => self.push_kind(Kind::Image { src: dest.clone() }, Ghost(budget)),
            MdTag::List(start) => {
                let (ordered, first) = match start {
                    Some(n) => (true, *n),
                    None => (false, 1),
                };
                let items: Vec<ListItem> = Vec::new();
                proof {
                    assert(items_view(items@) =~= Seq::<ListItemV>::empty());
                }
                self.push_kind(Kind::List { ordered, start: first, items }, Ghost(budget));
            },
            MdTag::Item => self.push_kind(Kind::Item { task: None }, Ghost(budget)),
            MdTag::Table => {
                let head: Vec<Vec<Node>> = Vec::new();
                let rows: Vec<Vec<Vec<Node>>> = Vec::new();
                let row: Vec<Vec<Node>> = Vec::new();
                proof {
                    assert(cells_view(head@) =~= Seq::<Seq<NodeV>>::empty());
                    assert(rows_view(rows@) =~= Seq::<Seq<Seq<NodeV>>>::empty());
                }
                self.push_kind(Kind::Table { head, rows, row, in_head: false }, Ghost(budget));
            },
            MdTag::TableHead => {
                if self.top_kind_is(0) {
                    let Frame { kind, children } = self.take_top_any();
                    match kind {
                        Kind::Table { head, rows, row, .. } => {
                            self.put_top(Frame { kind: Kind::Table { head, rows, row, in_head: true }, children });
                        },
                        other => self.put_top(Frame { kind: other, children }),
                    }
                    proof {
                        let sv = stack_view(old(self).stack@);
                        Self::lemma_stack_view_pop(old(self).stack@);
                        Self::lemma_stack_view_push(old(self).stack@.drop_last(), self.stack@.last());
                        assert(stack_view(self.stack@) =~= sv.update(sv.len() - 1, stack_view(self.stack@).last()));
                        lemma_open_headings_update(sv, stack_view(self.stack@).last());
                        assert(self.stack@[0] == old(self).stack@[0]);
                    }
                } else {
                    proof {
                        if self.stack@.len() == 1 {
                            self.lemma_root_only_at_bottom(budget);
                        }
                        assert(self@.stack.last() == frame_view(self.stack@.last()));
                    }
                }
            },
            MdTag::TableRow => {},
            MdTag::TableCell => self.push_kind(Kind::TableCell, Ghost(budget)),
            MdTag::CodeBlock(info) => {
                let lang = match info {
                    Some(l) => if l.as_str().is_empty() {
                        None
                    } else {
                        Some(l.clone())
                    },
                    None => None,
                };
                let code = String::new();
                self.push_kind(Kind::CodeBlock { lang, code }, Ghost(budget));
            },
            MdTag::HtmlBlock => {},
            MdTag::Other => self.push_kind(Kind::Transparent, Ghost(budget)),
        }
    }


    fn end(&mut self, tag: &MdTagEnd, Ghost(budget): Ghost<nat>)
        requires
            old(self).wf(budget),
        ensures
            final(self)@ == end_tag(old(self)@, *tag),
            final(self).wf(budget),
    {
        proof {
            if self.stack@.len() == 1 {
                self.lemma_root_only_at_bottom(budget);
            }
            assert(self@.stack.last() == frame_view(self.stack@.last()));
        }
        match tag {
            MdTagEnd::HtmlBlock => {},
            MdTagEnd::TableHead => {
                if self.top_kind_is(0) {
                    let Frame { kind, children } = self.take_top_any();
                    let f = match kind {
                        Kind::Table { rows, row, .. } => Frame {
                            kind: Kind::Table { head: row, rows, row: Vec::new(), in_head: false },
                            children,
                        },
                        other => Frame { kind: other, children },
                    };
                    proof {
                        assert(cells_view(Seq::<Vec<Node>>::empty()) =~= Seq::<Seq<NodeV>>::empty());
                    }
                    let ghost fv = frame_view(f);
                    self.put_top(f);
                    proof {
                        let sv = stack_view(old(self).stack@);
                        Self::lemma_stack_view_pop(old(self).stack@);
                        Self::lemma_stack_view_push(old(self).stack@.drop_last(), f);
                        assert(stack_view(self.stack@) =~= sv.update(sv.len() - 1, fv));
                        lemma_open_headings_update(sv, fv);
                        assert(self.stack@[0] == old(self).stack@[0]);
                    }
                }
            },
            MdTagEnd::TableRow => {
                if self.top_kind_is(0) {
                    let Frame { kind, children } = self.take_top_any();
                    let f = match kind {
                        Kind::Table { head, mut rows, row, in_head } => {
                            if !in_head {
                                let ghost before = rows@;
                                rows.push(row);
                                proof {
                                    crate::ast::lemma_rows_view_take(rows@, before.len() as int);
                                    assert(rows@.take(before.len() as int) =~= before);
                                    assert(rows@.take(before.len() as int + 1) =~= rows@);
                                    assert(cells_view(Seq::<Vec<Node>>::empty()) =~= Seq::<Seq<NodeV>>::empty());
                                }
                                Frame { kind: Kind::Table { head, rows, row: Vec::new(), in_head }, children }
                            } else {
                                Frame { kind: Kind::Table { head, rows, row, in_head }, children }
                            }
                        },
                        other => Frame { kind: other, children },
                    };
                    let ghost fv = frame_view(f);
                    self.put_top(f);
                    proof {
                        let sv = stack_view(old(self).stack@);
                        Self::lemma_stack_view_pop(old(self).stack@);
                        Self::lemma_stack_view_push(old(self).stack@.drop_last(), f);
                        assert(stack_view(self.stack@) =~= sv.update(sv.len() - 1, fv));
                        lemma_open_headings_update(sv, fv);
                        assert(self.stack@[0] == old(self).stack@[0]);
                        if fv == sv.last() {
                            assert(sv.update(sv.len() - 1, fv) =~= sv);
                        }
                    }
                }
            },
            MdTagEnd::Other => self.pop(Ghost(budget)),
        }
    }


    proof fn lemma_wf_grow(self, budget: nat)
        requires
            self.wf(budget),
            budget < usize::MAX,
        ensures
            self.wf(budget + 1),
    {
    }

    fn event(&mut self, e: &MdEvent, Ghost(budget): Ghost<nat>)
        requires
            old(self).wf(budget),
            budget < usize::MAX,
        ensures
            final(self)@ == step(old(self)@, event_view(*e)),
            final(self).wf(budget + 1),
    {
        proof {
            if self.stack@.len() == 1 {
                self.lemma_root_only_at_bottom(budget);
            }
            assert(self@.stack.last() == frame_view(self.stack@.last()));
        }
        match e {
            MdEvent::Start(t) => self.start(t, Ghost(budget)),
            MdEvent::End(t) => {
                self.end(t, Ghost(budget));
                proof {
                    self.lemma_wf_grow(budget);
                }
            },
            MdEvent::Text(text) => {
                if self.top_kind_is(1) {
                    let Frame { kind, children } = self.take_top_any();
                    let f = match kind {
                        Kind::CodeBlock { lang, code } => {
                            let mut v = crate::text::chars_of(code.as_str());
                            crate::text::extend_str(&mut v, text.as_str());
                            Frame { kind: Kind::CodeBlock { lang, code: crate::text::string_of(&v) }, children }
                        },
                        other => Frame { kind: other, children },
                    };
                    let ghost fv = frame_view(f);
                    self.put_top(f);
                    proof {
                        let sv = stack_view(old(self).stack@);
                        Self::lemma_stack_view_pop(old(self).stack@);
                        Self::lemma_stack_view_push(old(self).stack@.drop_last(), f);
                        assert(stack_view(self.stack@) =~= sv.update(sv.len() - 1, fv));
                        lemma_open_headings_update(sv, fv);
                        assert(self.stack@[0] == old(self).stack@[0]);
                    }
                } else {
                    self.emit(Node::Text(text.clone()));
                }
                proof {
                    self.lemma_wf_grow(budget);
                }
            },
            MdEvent::Code(text) => {
                self.emit(Node::InlineCode(text.clone()));
                proof {
                    self.lemma_wf_grow(budget);
                }
            },
            MdEvent::SoftBreak => {
                let mut sp: Vec<char> = Vec::new();
                sp.push(' ');
                proof {
                    assert(sp@ =~= space());
                }
                self.emit(Node::Text(crate::text::string_of(&sp)));
                proof {
                    self.lemma_wf_grow(budget);
                }
            },
            MdEvent::HardBreak => {
                self.emit(Node::Break);
                proof {
                    self.lemma_wf_grow(budget);
                }
            },
            MdEvent::Rule => {
                self.emit(Node::Rule);
                proof {
                    self.lemma_wf_grow(budget);
                }
            },
            MdEvent::Html(html) => {
                self.html(html, Ghost(budget));
                proof {
                    self.lemma_wf_grow(budget);
                }
            },
            MdEvent::TaskListMarker(checked) => {
                if self.top_kind_is(2) {
                    let Frame { kind, children } = self.take_top_any();
                    let f = match kind {
                        Kind::Item { .. } => Frame { kind: Kind::Item { task: Some(*checked) }, children },
                        other => Frame { kind: other, children },
                    };
                    let ghost fv = frame_view(f);
                    self.put_top(f);
                    proof {
                        let sv = stack_view(old(self).stack@);
                        Self::lemma_stack_view_pop(old(self).stack@);
                        Self::lemma_stack_view_push(old(self).stack@.drop_last(), f);
                        assert(stack_view(self.stack@) =~= sv.update(sv.len() - 1, fv));
                        lemma_open_headings_update(sv, fv);
                        assert(self.stack@[0] == old(self).stack@[0]);
                    }
                }
                proof {
                    self.lemma_wf_grow(budget);
                }
            },
            MdEvent::Other => {
                proof {
                    self.lemma_wf_grow(budget);
                }
            },
        }
    }

    /// Takes the innermost frame off, whatever is left below it.
    fn take_top_any(&mut self) -> (f: Frame)
        requires
            old(self).stack@.len() >= 1,
        ensures
            final(self).stack@ == old(self).stack@.drop_last(),
            f == old(self).stack@.last(),
            final(self).slugs == old(self).slugs,
            final(self).slug_map == old(self).slug_map,
            final(self).slug_taken == old(self).slug_taken,
            final(self).toc == old(self).toc,
            final(self).first_heading == old(self).first_heading,
    {
        self.stack.pop().unwrap()
    }
}


/// The tree, table of contents and first `#` heading built from a markdown event
/// stream (what `build` gives for it).
pub fn build_tree(events: &Vec<MdEvent>) -> (r: (Vec<Node>, Vec<TocEntry>, Option<String>))
    ensures
        ({
            let st = build(events_view(events@));
            &&& nodes_view(r.0@) == built_nodes(st)
            &&& toc_view(r.1@) == st.toc
            &&& opt_s(r.2) == st.first_heading
        }),
{
    let ghost es = events_view(events@);
    let mut b = Builder::new();
    let mut i: usize = 0;
    while i < events.len()
        invariant
            i <= events@.len(),
            es == events_view(events@),
            b.wf(i as nat),
            b@ == run_events(es.take(i as int)),
        decreases events.len() - i,
    {
        proof {
            assert(es.take(i as int + 1).drop_last() =~= es.take(i as int));
            assert(es.take(i as int + 1).last() == event_view(events@[i as int]));
        }
        b.event(&events[i], Ghost(i as nat));
        i += 1;
    }
    proof {
        assert(es.take(i as int) =~= es);
    }
    b.pop_to(1, Ghost(i as nat));
    let root = b.stack.pop().unwrap();
    proof {
        assert(b.stack@.len() == 0) by {
            assert(build(es).stack.len() <= 1) by {
                lemma_close_to_len(run_events(es), 1);
            }
        }
    }
    (root.children, b.toc, b.first_heading)
}

proof fn lemma_close_to_len(st: BState, target: int)
    requires
        target >= 1,
        st.stack.len() >= 1,
    ensures
        close_to(st, target).stack.len() <= target || close_to(st, target).stack.len() <= 1
            || close(close_to(st, target)).stack.len() >= close_to(st, target).stack.len(),
    decreases st.stack.len(),
{
    if st.stack.len() > target && st.stack.len() > 1 {
        let next = close(st);
        if next.stack.len() < st.stack.len() {
            lemma_close_to_len(next, target);
        }
    }
}


// ---------------------------------------------------------------------------
// Parsing a page
// ---------------------------------------------------------------------------

/// Why a page could not be parsed.
#[derive(Debug, Clone, Copy, PartialEq, Eq)]
pub enum ParseError {
    /// syntect's bundled themes lack one of the two the site is coloured with.
    MissingTheme,
    /// The page has more task list items than a `u32` counts.
    TooManyTasks,
    /// A project-defined language never finishes tokenizing one of the code blocks.
    Stalled,
}

/// The state the builder ends in for a page body: directives expanded, markdown
/// read, every container closed.
pub open spec fn body_state(body: Seq<char>) -> BState {
    build(cmark_events(expand_spec(body)))
}

/// A page body parsed up to, but not including, colouring: the built tree with
/// empty token lists, its table of contents, first `#` heading, plain text and
/// task totals.
pub open spec fn drafted(frontmatter: Frontmatter, body: Seq<char>, doc: Document) -> bool {
    let st = body_state(body);
    let built = built_nodes(st);
    &&& nodes_tasks(built).1 <= u32::MAX
    &&& nodes_view(doc.nodes@) == built
    &&& doc.frontmatter == frontmatter
    &&& toc_view(doc.toc@) == st.toc
    &&& opt_s(doc.first_heading) == st.first_heading
    &&& doc.plain_text@ == plain_text_of(built)
    &&& doc.tasks.done == nodes_tasks(built).0
    &&& doc.tasks.total == nodes_tasks(built).1
}

/// What parsing a body returns when the tree `pre` is what gets coloured (the
/// built tree, or the built tree with its links rewritten): the draft with `pre`'s
/// code blocks coloured; an error when the tasks overflow a `u32` or a
/// project-defined language stalls.
pub open spec fn parsed_from(
    frontmatter: Frontmatter,
    body: Seq<char>,
    langs: Seq<LanguageV>,
    hl: Highlighter,
    pre: Seq<NodeV>,
    r: Result<Document, ParseError>,
) -> bool {
    let st = body_state(body);
    let built = built_nodes(st);
    let tasks = nodes_tasks(built);
    match r {
        Ok(doc) => {
            &&& tasks.1 <= u32::MAX
            &&& !nodes_stall(pre, langs)
            &&& filled_nodes(pre, nodes_view(doc.nodes@), langs, hl)
            &&& doc.frontmatter == frontmatter
            &&& toc_view(doc.toc@) == st.toc
            &&& opt_s(doc.first_heading) == st.first_heading
            &&& doc.plain_text@ == plain_text_of(built)
            &&& doc.tasks.done == tasks.0
            &&& doc.tasks.total == tasks.1
        },
        Err(ParseError::TooManyTasks) => tasks.1 > u32::MAX,
        Err(ParseError::Stalled) => tasks.1 <= u32::MAX && nodes_stall(pre, langs),
        Err(ParseError::MissingTheme) => false,
    }
}

/// What `parse_with` returns for a body: the built tree with its code blocks
/// coloured, the table of contents, the first `#` heading, the plain text and
/// the task totals; an error when the tasks overflow a `u32` or a project-defined
/// language stalls.
pub open spec fn parsed(
    frontmatter: Frontmatter,
    body: Seq<char>,
    langs: Seq<LanguageV>,
    hl: Highlighter,
    r: Result<Document, ParseError>,
) -> bool {
    parsed_from(frontmatter, body, langs, hl, built_nodes(body_state(body)), r)
}

/// Parses a page body up to colouring; `TooManyTasks` exactly when its task list
/// items overflow a `u32`.
pub fn draft(frontmatter: Frontmatter, body: &str) -> (r: Result<Document, ParseError>)
    ensures
        match r {
            Ok(doc) => drafted(frontmatter, body@, doc),
            Err(e) => e == ParseError::TooManyTasks && nodes_tasks(
                built_nodes(body_state(body@)),
            ).1 > u32::MAX,
        },
{
    let expanded = expand(body);
    let events = markdown_events(expanded.as_str());
    let (nodes, toc, first_heading) = build_tree(&events);
    let tasks = match Tasks::try_count(nodes.as_slice()) {
        Some(t) => t,
        None => return Err(ParseError::TooManyTasks),
    };
    let plain_text = plain_text(nodes.as_slice());
    Ok(Document { frontmatter, nodes, toc, first_heading, plain_text, tasks })
}

/// Colours the code blocks of a drafted page; `Stalled` when a project-defined
/// language never finishes one of them.
pub fn finish(doc: Document, languages: &[Language], hl: &Highlighter) -> (r: Result<
    Document,
    ParseError,
>)
    ensures
        match r {
            Ok(d) => !nodes_stall(nodes_view(doc.nodes@), languages_view(languages@))
                && filled_nodes(
                nodes_view(doc.nodes@),
                nodes_view(d.nodes@),
                languages_view(languages@),
                *hl,
            )
                && d.frontmatter == doc.frontmatter && d.toc == doc.toc && d.first_heading
                == doc.first_heading && d.plain_text == doc.plain_text && d.tasks == doc.tasks,
            Err(e) => e == ParseError::Stalled && nodes_stall(
                nodes_view(doc.nodes@),
                languages_view(languages@),
            ),
        },
{
    let mut doc = doc;
    if fill_nodes(&mut doc.nodes, languages, hl) {
        Ok(doc)
    } else {
        Err(ParseError::Stalled)
    }
}

/// Parses a page body (what follows its frontmatter block), expanding directives,
/// colouring code, and collecting the table of contents, search text and task
/// totals. `languages` are consulted before syntect.
pub fn parse_with(
    frontmatter: Frontmatter,
    body: &str,
    languages: &[Language],
    hl: &Highlighter,
) -> (r: Result<Document, ParseError>)
    ensures
        parsed(frontmatter, body@, languages_view(languages@), *hl, r),
{
    let doc = draft(frontmatter, body)?;
    finish(doc, languages, hl)
}

/// `parse_with` with no project-defined languages, colouring with syntect's
/// bundled grammars and themes.
pub fn parse(frontmatter: Frontmatter, body: &str) -> (r: Result<Document, ParseError>)
    ensures
        exists|hl: Highlighter| standard_themes(hl) && parsed(frontmatter, body@, Seq::empty(), hl, r),
{
    let hl = match Highlighter::load() {
        Some(hl) => hl,
        None => return Err(ParseError::MissingTheme),
    };
    let none: Vec<Language> = Vec::new();
    proof {
        assert(languages_view(none@) =~= Seq::<LanguageV>::empty());
    }
    parse_with(frontmatter, body, none.as_slice(), &hl)
}

// ---------------------------------------------------------------------------
// Laws
// ---------------------------------------------------------------------------

/// The events of one inline span of kind `t` around a text.
pub open spec fn span_events(t: MdTagV, text: Seq<char>) -> Seq<MdEventV> {
    seq![MdEventV::Start(t), MdEventV::Text(text), MdEventV::End(MdTagEnd::Other)]
}

pub open spec fn steps(st: BState, es: Seq<MdEventV>) -> BState
    decreases es.len(),
{
    if es.len() == 0 {
        st
    } else {
        step(steps(st, es.drop_last()), es.last())
    }
}

proof fn lemma_steps3(st: BState, e0: MdEventV, e1: MdEventV, e2: MdEventV)
    ensures
        steps(st, seq![e0, e1, e2]) == step(step(step(st, e0), e1), e2),
{
    let a = seq![e0];
    let b = seq![e0, e1];
    let c = seq![e0, e1, e2];
    assert(a.drop_last() =~= Seq::<MdEventV>::empty());
    assert(b.drop_last() =~= a);
    assert(c.drop_last() =~= b);
    assert(steps(st, Seq::<MdEventV>::empty()) == st);
    assert(steps(st, a) == step(st, e0));
    assert(steps(st, b) == step(steps(st, a), e1));
    assert(steps(st, c) == step(steps(st, b), e2));
}

proof fn lemma_span(st: BState, kind: KindV, t: MdTagV, text: Seq<char>)
    requires
        st.stack.len() >= 1,
        start_tag(st, t) == open(st, kind),
        !(kind is CodeBlock),
    ensures
        steps(st, span_events(t, text)) == close(emit(open(st, kind), NodeV::Text(text))),
        close(emit(open(st, kind), NodeV::Text(text))).stack.len() == st.stack.len(),
{
    lemma_steps3(st, MdEventV::Start(t), MdEventV::Text(text), MdEventV::End(MdTagEnd::Other));
    let s1 = open(st, kind);
    assert(s1.stack.last().kind == kind);
    let s2 = emit(s1, NodeV::Text(text));
    assert(step(s1, MdEventV::Text(text)) == s2);
    assert(s2.stack.drop_last() =~= st.stack);
}

/// Closing a container gives a node of the container's own kind: in any open
/// container, `~~text~~` adds a strikethrough node, `*text*` an emphasis node,
/// `**text**` a strong node, a paragraph a paragraph node and a block quote a
/// block quote node holding the text, and nothing else changes.
pub proof fn law_spans_keep_their_kind(st: BState, text: Seq<char>)
    requires
        st.stack.len() >= 1,
    ensures
        steps(st, span_events(MdTagV::Strikethrough, text)) == emit(
            st,
            NodeV::Strikethrough(seq![NodeV::Text(text)]),
        ),
        steps(st, span_events(MdTagV::Emphasis, text)) == emit(
            st,
            NodeV::Emphasis(seq![NodeV::Text(text)]),
        ),
        steps(st, span_events(MdTagV::Strong, text)) == emit(st, NodeV::Strong(seq![NodeV::Text(text)])),
        steps(st, span_events(MdTagV::Paragraph, text)) == emit(
            st,
            NodeV::Paragraph(seq![NodeV::Text(text)]),
        ),
        steps(st, span_events(MdTagV::BlockQuote, text)) == emit(
            st,
            NodeV::Blockquote(seq![NodeV::Text(text)]),
        ),
{
    lemma_span(st, KindV::Strikethrough, MdTagV::Strikethrough, text);
    lemma_span(st, KindV::Emphasis, MdTagV::Emphasis, text);
    lemma_span(st, KindV::Strong, MdTagV::Strong, text);
    let c = seq![NodeV::Text(text)];
    let s1 = emit(open(st, KindV::Strikethrough), NodeV::Text(text));
    assert(s1.stack.last().children =~= c);
    assert(with_stack(s1, s1.stack.drop_last()) =~= st) by {
        assert(s1.stack.drop_last() =~= st.stack);
    }
    let e1 = emit(open(st, KindV::Emphasis), NodeV::Text(text));
    assert(e1.stack.last().children =~= c);
    assert(with_stack(e1, e1.stack.drop_last()) =~= st) by {
        assert(e1.stack.drop_last() =~= st.stack);
    }
    let g1 = emit(open(st, KindV::Strong), NodeV::Text(text));
    assert(g1.stack.last().children =~= c);
    assert(with_stack(g1, g1.stack.drop_last()) =~= st) by {
        assert(g1.stack.drop_last() =~= st.stack);
    }
    lemma_span(st, KindV::Paragraph, MdTagV::Paragraph, text);
    lemma_span(st, KindV::Blockquote, MdTagV::BlockQuote, text);
    let p1 = emit(open(st, KindV::Paragraph), NodeV::Text(text));
    assert(p1.stack.last().children =~= c);
    assert(with_stack(p1, p1.stack.drop_last()) =~= st) by {
        assert(p1.stack.drop_last() =~= st.stack);
    }
    let q1 = emit(open(st, KindV::Blockquote), NodeV::Text(text));
    assert(q1.stack.last().children =~= c);
    assert(with_stack(q1, q1.stack.drop_last()) =~= st) by {
        assert(q1.stack.drop_last() =~= st.stack);
    }
}

proof fn lemma_steps_concat(st: BState, a: Seq<MdEventV>, b: Seq<MdEventV>)
    ensures
        steps(st, a + b) == steps(steps(st, a), b),
    decreases b.len(),
{
    if b.len() == 0 {
        assert(a + b =~= a);
    } else {
        lemma_steps_concat(st, a, b.drop_last());
        assert((a + b).drop_last() =~= a + b.drop_last());
        assert((a + b).last() == b.last());
    }
}

proof fn lemma_run_is_steps(es: Seq<MdEventV>)
    ensures
        run_events(es) == steps(init_state(), es),
    decreases es.len(),
{
    if es.len() > 0 {
        lemma_run_is_steps(es.drop_last());
    }
}

proof fn lemma_struck_stack(struck: Seq<char>, rest: Seq<char>) -> (st: BState)
    ensures
        st == close(
            emit(
                emit(
                    open(init_state(), KindV::Paragraph),
                    NodeV::Strikethrough(seq![NodeV::Text(struck)]),
                ),
                NodeV::Text(rest),
            ),
        ),
        st.stack.len() == 1,
        st.stack[0].children == seq![
            NodeV::Paragraph(seq![NodeV::Strikethrough(seq![NodeV::Text(struck)]), NodeV::Text(rest)]),
        ],
{
    let s1 = open(init_state(), KindV::Paragraph);
    let s4 = emit(s1, NodeV::Strikethrough(seq![NodeV::Text(struck)]));
    let s5 = emit(s4, NodeV::Text(rest));
    assert(s1.stack.len() == 2);
    assert(s4.stack.len() == 2);
    assert(s5.stack.len() == 2);
    assert(s5.stack[0] == init_state().stack[0]);
    assert(s5.stack[1].kind == KindV::Paragraph);
    assert(s5.stack[1].children =~= seq![
        NodeV::Strikethrough(seq![NodeV::Text(struck)]),
        NodeV::Text(rest),
    ]);
    let s6 = close(s5);
    assert(s6.stack[0].children =~= seq![
        NodeV::Paragraph(seq![NodeV::Strikethrough(seq![NodeV::Text(struck)]), NodeV::Text(rest)]),
    ]);
    s6
}

proof fn lemma_one_step(st: BState, e: MdEventV)
    ensures
        steps(st, seq![e]) == step(st, e),
{
    let a = seq![e];
    assert(a.drop_last() =~= Seq::<MdEventV>::empty());
    assert(steps(st, Seq::<MdEventV>::empty()) == st);
    assert(a.last() == e);
    assert(steps(st, a) == step(steps(st, a.drop_last()), a.last()));
}

proof fn lemma_text_then_close(st: BState, text: Seq<char>)
    requires
        st.stack.len() >= 1,
        !(st.stack.last().kind is CodeBlock),
    ensures
        steps(st, seq![MdEventV::Text(text), MdEventV::End(MdTagEnd::Other)]) == close(
            emit(st, NodeV::Text(text)),
        ),
{
    let t = seq![MdEventV::Text(text), MdEventV::End(MdTagEnd::Other)];
    assert(t.drop_last() =~= seq![MdEventV::Text(text)]);
    lemma_one_step(st, MdEventV::Text(text));
    assert(step(st, MdEventV::Text(text)) == emit(st, NodeV::Text(text)));
}

/// A paragraph whose first words are struck through builds a paragraph holding a
/// strikethrough node of those words and then the rest of the text, for every
/// pair of texts.
#[verifier::spinoff_prover]
pub proof fn law_struck_paragraph(struck: Seq<char>, rest: Seq<char>)
    ensures
        built_nodes(
            build(
                seq![
                    MdEventV::Start(MdTagV::Paragraph),
                    MdEventV::Start(MdTagV::Strikethrough),
                    MdEventV::Text(struck),
                    MdEventV::End(MdTagEnd::Other),
                    MdEventV::Text(rest),
                    MdEventV::End(MdTagEnd::Other),
                ],
            ),
        ) == seq![
            NodeV::Paragraph(
                seq![NodeV::Strikethrough(seq![NodeV::Text(struck)]), NodeV::Text(rest)],
            ),
        ],
{
    let es = seq![
        MdEventV::Start(MdTagV::Paragraph),
        MdEventV::Start(MdTagV::Strikethrough),
        MdEventV::Text(struck),
        MdEventV::End(MdTagEnd::Other),
        MdEventV::Text(rest),
        MdEventV::End(MdTagEnd::Other),
    ];
    let head = seq![MdEventV::Start(MdTagV::Paragraph)];
    let span = span_events(MdTagV::Strikethrough, struck);
    let tail = seq![MdEventV::Text(rest), MdEventV::End(MdTagEnd::Other)];
    assert(es =~= head + span + tail);
    lemma_run_is_steps(es);
    lemma_steps_concat(init_state(), head + span, tail);
    lemma_steps_concat(init_state(), head, span);
    let s0 = init_state();
    lemma_one_step(s0, MdEventV::Start(MdTagV::Paragraph));
    let s1 = open(s0, KindV::Paragraph);
    assert(steps(s0, head) == s1);
    law_spans_keep_their_kind(s1, struck);
    let s4 = emit(s1, NodeV::Strikethrough(seq![NodeV::Text(struck)]));
    assert(s4.stack.last().kind == KindV::Paragraph);
    lemma_text_then_close(s4, rest);
    let s6 = lemma_struck_stack(struck, rest);
    assert(run_events(es) == s6);
    assert(close_to(s6, 1) == s6);
}


} // verus!
