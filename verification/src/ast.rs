//! The document tree, its mathematical model, and what is derived from it:
//! task totals, plain text and the page title.
use vstd::prelude::*;
use crate::text::str_eq;

verus! {

/// A value passed to an embedded Dioxus component.
#[derive(Debug, Clone, PartialEq)]
pub enum PropValue {
    /// `foo="bar"`: a plain string literal.
    Str(String),
    /// `foo={expr}`: raw Rust, parsed as an expression at codegen time.
    Expr(String),
    /// `foo`: a bare attribute, lowered to `true`.
    Flag,
}

#[derive(Debug, Clone, Copy, PartialEq, Eq)]
pub enum CalloutKind {
    Note,
    Tip,
    Info,
    Warning,
    Danger,
}

/// One highlighted run of source code, coloured for both themes at build time.
#[derive(Debug, Clone, PartialEq)]
pub struct HlToken {
    pub text: String,
    /// `#rrggbb` for the light theme.
    pub light: String,
    /// `#rrggbb` for the dark theme.
    pub dark: String,
}

#[derive(Debug, PartialEq)]
pub enum Node {
    Text(String),
    /// A hard or soft line break.
    Break,
    Emphasis(Vec<Node>),
    Strong(Vec<Node>),
    Strikethrough(Vec<Node>),
    InlineCode(String),
    Link { href: String, title: Option<String>, children: Vec<Node> },
    Image { src: String, alt: String },
    Paragraph(Vec<Node>),
    Heading { level: u8, id: String, children: Vec<Node> },
    CodeBlock {
        lang: Option<String>,
        /// The raw source, kept for the copy button.
        code: String,
        tokens: Vec<HlToken>,
    },
    Blockquote(Vec<Node>),
    List { ordered: bool, start: u64, items: Vec<ListItem> },
    Table { head: Vec<Vec<Node>>, rows: Vec<Vec<Vec<Node>>> },
    Rule,
    /// An embedded Dioxus component: `<Counter initial={5} />`.
    Component { name: String, props: Vec<(String, PropValue)>, children: Vec<Node> },
}

/// One entry in a list. `task` is `Some` for a GFM task list item.
#[derive(Debug, PartialEq)]
pub struct ListItem {
    pub task: Option<bool>,
    pub children: Vec<Node>,
}

/// How many task list items a page has, and how many are ticked.
#[derive(Debug, Clone, Copy, PartialEq, Eq)]
pub struct Tasks {
    pub done: u32,
    pub total: u32,
}

/// A `##`/`###` heading collected for the on-page table of contents.
#[derive(Debug, Clone, PartialEq)]
pub struct TocEntry {
    pub id: String,
    pub title: String,
    pub level: u8,
}

#[derive(Debug, Clone, PartialEq)]
pub struct Frontmatter {
    pub title: Option<String>,
    pub description: Option<String>,
    /// Explicit sidebar ordering; lower sorts first, untitled pages sort last.
    pub order: Option<i64>,
    /// Hide the page from the sidebar (it stays routable).
    pub hidden: bool,
    /// Whether the page takes part in prev/next. Set `false` on a section index.
    pub pager: bool,
}

/// A fully parsed page: metadata, body, and the derived TOC and search text.
#[derive(Debug)]
pub struct Document {
    pub frontmatter: Frontmatter,
    pub nodes: Vec<Node>,
    pub toc: Vec<TocEntry>,
    /// The first `#` heading, used when frontmatter carries no title.
    pub first_heading: Option<String>,
    /// Prose with markup stripped, for the search index.
    pub plain_text: String,
    /// Task list totals for the whole page.
    pub tasks: Tasks,
}

// ---------------------------------------------------------------------------
// The model: the same tree with strings as character sequences
// ---------------------------------------------------------------------------

pub enum PropValueV {
    Str(Seq<char>),
    Expr(Seq<char>),
    Flag,
}

pub struct HlTokenV {
    pub text: Seq<char>,
    pub light: Seq<char>,
    pub dark: Seq<char>,
}

pub enum NodeV {
    Text(Seq<char>),
    Break,
    Emphasis(Seq<NodeV>),
    Strong(Seq<NodeV>),
    Strikethrough(Seq<NodeV>),
    InlineCode(Seq<char>),
    Link { href: Seq<char>, title: Option<Seq<char>>, children: Seq<NodeV> },
    Image { src: Seq<char>, alt: Seq<char> },
    Paragraph(Seq<NodeV>),
    Heading { level: u8, id: Seq<char>, children: Seq<NodeV> },
    CodeBlock { lang: Option<Seq<char>>, code: Seq<char>, tokens: Seq<HlTokenV> },
    Blockquote(Seq<NodeV>),
    List { ordered: bool, start: u64, items: Seq<ListItemV> },
    Table { head: Seq<Seq<NodeV>>, rows: Seq<Seq<Seq<NodeV>>> },
    Rule,
    Component { name: Seq<char>, props: Seq<(Seq<char>, PropValueV)>, children: Seq<NodeV> },
}

pub struct ListItemV {
    pub task: Option<bool>,
    pub children: Seq<NodeV>,
}

pub struct TocEntryV {
    pub id: Seq<char>,
    pub title: Seq<char>,
    pub level: u8,
}

pub open spec fn opt_view(o: Option<String>) -> Option<Seq<char>> {
    match o {
        Some(s) => Some(s@),
        None => None,
    }
}

pub open spec fn prop_value_view(p: PropValue) -> PropValueV {
    match p {
        PropValue::Str(s) => PropValueV::Str(s@),
        PropValue::Expr(s) => PropValueV::Expr(s@),
        PropValue::Flag => PropValueV::Flag,
    }
}

pub open spec fn props_view(s: Seq<(String, PropValue)>) -> Seq<(Seq<char>, PropValueV)> {
    s.map_values(|p: (String, PropValue)| (p.0@, prop_value_view(p.1)))
}

pub open spec fn token_view(t: HlToken) -> HlTokenV {
    HlTokenV { text: t.text@, light: t.light@, dark: t.dark@ }
}

pub open spec fn tokens_view(s: Seq<HlToken>) -> Seq<HlTokenV> {
    s.map_values(|t: HlToken| token_view(t))
}

pub open spec fn nodes_view(s: Seq<Node>) -> Seq<NodeV>
    decreases s,
{
    if s.len() == 0 {
        Seq::empty()
    } else {
        nodes_view(s.drop_last()).push(node_view(s.last()))
    }
}

pub open spec fn items_view(s: Seq<ListItem>) -> Seq<ListItemV>
    decreases s,
{
    if s.len() == 0 {
        Seq::empty()
    } else {
        items_view(s.drop_last()).push(
            ListItemV { task: s.last().task, children: nodes_view(s.last().children@) },
        )
    }
}

pub open spec fn cells_view(s: Seq<Vec<Node>>) -> Seq<Seq<NodeV>>
    decreases s,
{
    if s.len() == 0 {
        Seq::empty()
    } else {
        cells_view(s.drop_last()).push(nodes_view(s.last()@))
    }
}

pub open spec fn rows_view(s: Seq<Vec<Vec<Node>>>) -> Seq<Seq<Seq<NodeV>>>
    decreases s,
{
    if s.len() == 0 {
        Seq::empty()
    } else {
        rows_view(s.drop_last()).push(cells_view(s.last()@))
    }
}

pub open spec fn node_view(n: Node) -> NodeV
    decreases n,
{
    match n {
        Node::Text(t) => NodeV::Text(t@),
        Node::Break => NodeV::Break,
        Node::Emphasis(c) => NodeV::Emphasis(nodes_view(c@)),
        Node::Strong(c) => NodeV::Strong(nodes_view(c@)),
        Node::Strikethrough(c) => NodeV::Strikethrough(nodes_view(c@)),
        Node::InlineCode(t) => NodeV::InlineCode(t@),
        Node::Link { href, title, children } => NodeV::Link {
            href: href@,
            title: opt_view(title),
            children: nodes_view(children@),
        },
        Node::Image { src, alt } => NodeV::Image { src: src@, alt: alt@ },
        Node::Paragraph(c) => NodeV::Paragraph(nodes_view(c@)),
        Node::Heading { level, id, children } => NodeV::Heading {
            level,
            id: id@,
            children: nodes_view(children@),
        },
        Node::CodeBlock { lang, code, tokens } => NodeV::CodeBlock {
            lang: opt_view(lang),
            code: code@,
            tokens: tokens_view(tokens@),
        },
        Node::Blockquote(c) => NodeV::Blockquote(nodes_view(c@)),
        Node::List { ordered, start, items } => NodeV::List {
            ordered,
            start,
            items: items_view(items@),
        },
        Node::Table { head, rows } => NodeV::Table {
            head: cells_view(head@),
            rows: rows_view(rows@),
        },
        Node::Rule => NodeV::Rule,
        Node::Component { name, props, children } => NodeV::Component {
            name: name@,
            props: props_view(props@),
            children: nodes_view(children@),
        },
    }
}

impl View for Node {
    type V = NodeV;

    open spec fn view(&self) -> NodeV {
        node_view(*self)
    }
}

impl View for ListItem {
    type V = ListItemV;

    open spec fn view(&self) -> ListItemV {
        ListItemV { task: self.task, children: nodes_view(self.children@) }
    }
}

impl View for TocEntry {
    type V = TocEntryV;

    open spec fn view(&self) -> TocEntryV {
        TocEntryV { id: self.id@, title: self.title@, level: self.level }
    }
}

pub open spec fn toc_view(s: Seq<TocEntry>) -> Seq<TocEntryV> {
    s.map_values(|t: TocEntry| t@)
}

pub proof fn lemma_nodes_view_len(s: Seq<Node>)
    ensures
        nodes_view(s).len() == s.len(),
    decreases s.len(),
{
    if s.len() > 0 {
        lemma_nodes_view_len(s.drop_last());
    }
}

pub proof fn lemma_nodes_view_index(s: Seq<Node>, i: int)
    requires
        0 <= i < s.len(),
    ensures
        nodes_view(s).len() == s.len(),
        nodes_view(s)[i] == node_view(s[i]),
    decreases s.len(),
{
    lemma_nodes_view_len(s);
    if i < s.len() - 1 {
        lemma_nodes_view_index(s.drop_last(), i);
    }
}

pub proof fn lemma_nodes_view_push(s: Seq<Node>, n: Node)
    ensures
        nodes_view(s.push(n)) == nodes_view(s).push(node_view(n)),
{
    assert(s.push(n).drop_last() =~= s);
}

pub proof fn lemma_nodes_view_take(s: Seq<Node>, i: int)
    requires
        0 <= i < s.len(),
    ensures
        nodes_view(s.take(i + 1)) == nodes_view(s.take(i)).push(node_view(s[i])),
{
    assert(s.take(i + 1).drop_last() =~= s.take(i));
}

pub proof fn lemma_nodes_view_concat(a: Seq<Node>, b: Seq<Node>)
    ensures
        nodes_view(a + b) == nodes_view(a) + nodes_view(b),
    decreases b.len(),
{
    if b.len() == 0 {
        assert(a + b =~= a);
        assert(nodes_view(a) + nodes_view(b) =~= nodes_view(a));
    } else {
        lemma_nodes_view_concat(a, b.drop_last());
        assert((a + b).drop_last() =~= a + b.drop_last());
        assert(nodes_view(a) + nodes_view(b.drop_last()).push(node_view(b.last())) =~= (
        nodes_view(a) + nodes_view(b.drop_last())).push(node_view(b.last())));
    }
}

pub proof fn lemma_items_view_take(s: Seq<ListItem>, i: int)
    requires
        0 <= i < s.len(),
    ensures
        items_view(s.take(i + 1)) == items_view(s.take(i)).push(s[i]@),
{
    assert(s.take(i + 1).drop_last() =~= s.take(i));
}

pub proof fn lemma_cells_view_take(s: Seq<Vec<Node>>, i: int)
    requires
        0 <= i < s.len(),
    ensures
        cells_view(s.take(i + 1)) == cells_view(s.take(i)).push(nodes_view(s[i]@)),
{
    assert(s.take(i + 1).drop_last() =~= s.take(i));
}

pub proof fn lemma_rows_view_take(s: Seq<Vec<Vec<Node>>>, i: int)
    requires
        0 <= i < s.len(),
    ensures
        rows_view(s.take(i + 1)) == rows_view(s.take(i)).push(cells_view(s[i]@)),
{
    assert(s.take(i + 1).drop_last() =~= s.take(i));
}

// ---------------------------------------------------------------------------
// Callout kinds
// ---------------------------------------------------------------------------

pub open spec fn callout_name(k: CalloutKind) -> Seq<char> {
    match k {
        CalloutKind::Note => seq!['n', 'o', 't', 'e'],
        CalloutKind::Tip => seq!['t', 'i', 'p'],
        CalloutKind::Info => seq!['i', 'n', 'f', 'o'],
        CalloutKind::Warning => seq!['w', 'a', 'r', 'n', 'i', 'n', 'g'],
        CalloutKind::Danger => seq!['d', 'a', 'n', 'g', 'e', 'r'],
    }
}

/// The kind a directive name selects: each kind's own name, plus `caution`
/// for a warning and `error` for danger.
pub open spec fn callout_from_name(s: Seq<char>) -> Option<CalloutKind> {
    if s == seq!['n', 'o', 't', 'e'] {
        Some(CalloutKind::Note)
    } else if s == seq!['t', 'i', 'p'] {
        Some(CalloutKind::Tip)
    } else if s == seq!['i', 'n', 'f', 'o'] {
        Some(CalloutKind::Info)
    } else if s == seq!['w', 'a', 'r', 'n', 'i', 'n', 'g'] || s == seq![
        'c',
        'a',
        'u',
        't',
        'i',
        'o',
        'n',
    ] {
        Some(CalloutKind::Warning)
    } else if s == seq!['d', 'a', 'n', 'g', 'e', 'r'] || s == seq!['e', 'r', 'r', 'o', 'r'] {
        Some(CalloutKind::Danger)
    } else {
        None
    }
}

impl CalloutKind {
    pub fn from_name(name: &str) -> (r: Option<CalloutKind>)
        ensures
            r == callout_from_name(name@),
    {
        proof {
            reveal_strlit("note");
            reveal_strlit("tip");
            reveal_strlit("info");
            reveal_strlit("warning");
            reveal_strlit("caution");
            reveal_strlit("danger");
            reveal_strlit("error");
            assert("note"@ =~= seq!['n', 'o', 't', 'e']);
            assert("tip"@ =~= seq!['t', 'i', 'p']);
            assert("info"@ =~= seq!['i', 'n', 'f', 'o']);
            assert("warning"@ =~= seq!['w', 'a', 'r', 'n', 'i', 'n', 'g']);
            assert("caution"@ =~= seq!['c', 'a', 'u', 't', 'i', 'o', 'n']);
            assert("danger"@ =~= seq!['d', 'a', 'n', 'g', 'e', 'r']);
            assert("error"@ =~= seq!['e', 'r', 'r', 'o', 'r']);
        }
        if str_eq(name, "note") {
            Some(CalloutKind::Note)
        } else if str_eq(name, "tip") {
            Some(CalloutKind::Tip)
        } else if str_eq(name, "info") {
            Some(CalloutKind::Info)
        } else if str_eq(name, "warning") || str_eq(name, "caution") {
            Some(CalloutKind::Warning)
        } else if str_eq(name, "danger") || str_eq(name, "error") {
            Some(CalloutKind::Danger)
        } else {
            None
        }
    }

    pub fn as_str(self) -> (r: &'static str)
        ensures
            r@ == callout_name(self),
    {
        proof {
            reveal_strlit("note");
            reveal_strlit("tip");
            reveal_strlit("info");
            reveal_strlit("warning");
            reveal_strlit("danger");
        }
        match self {
            CalloutKind::Note => "note",
            CalloutKind::Tip => "tip",
            CalloutKind::Info => "info",
            CalloutKind::Warning => "warning",
            CalloutKind::Danger => "danger",
        }
    }
}

/// Every kind is found again under its own name.
pub proof fn law_callout_name_round_trip(k: CalloutKind)
    ensures
        callout_from_name(callout_name(k)) == Some(k),
{
}

impl ListItem {
    pub fn new(children: Vec<Node>) -> (r: ListItem)
        ensures
            r.task == None::<bool>,
            r.children == children,
    {
        ListItem { task: None, children }
    }
}

impl Default for Frontmatter {
    /// No title, description or order; shown in the sidebar and the pager.
    fn default() -> (r: Frontmatter)
        ensures
            r.title is None,
            r.description is None,
            r.order is None,
            !r.hidden,
            r.pager,
    {
        Frontmatter { title: None, description: None, order: None, hidden: false, pager: true }
    }
}

/// The title a page shows: its frontmatter title, else its first `#` heading, else
/// the fallback.
pub open spec fn title_of(fm_title: Option<Seq<char>>, first: Option<Seq<char>>, fallback: Seq<char>) -> Seq<char> {
    match fm_title {
        Some(t) => t,
        None => match first {
            Some(h) => h,
            None => fallback,
        },
    }
}

impl Document {
    /// Frontmatter title, else the first `#` heading, else the caller's fallback.
    pub fn title<'a>(&'a self, fallback: &'a str) -> (r: &'a str)
        ensures
            r@ == title_of(opt_view(self.frontmatter.title), opt_view(self.first_heading), fallback@),
    {
        match &self.frontmatter.title {
            Some(t) => t.as_str(),
            None => match &self.first_heading {
                Some(h) => h.as_str(),
                None => fallback,
            },
        }
    }
}

// ---------------------------------------------------------------------------
// Task totals
// ---------------------------------------------------------------------------

/// `(done, total)` over a sequence of nodes, at any depth.
pub open spec fn nodes_tasks(s: Seq<NodeV>) -> (nat, nat)
    decreases s,
{
    if s.len() == 0 {
        (0, 0)
    } else {
        let a = nodes_tasks(s.drop_last());
        let b = node_tasks(s.last());
        (a.0 + b.0, a.1 + b.1)
    }
}

pub open spec fn item_task(t: Option<bool>) -> (nat, nat) {
    match t {
        Some(true) => (1, 1),
        Some(false) => (0, 1),
        None => (0, 0),
    }
}

pub open spec fn items_tasks(s: Seq<ListItemV>) -> (nat, nat)
    decreases s,
{
    if s.len() == 0 {
        (0, 0)
    } else {
        let a = items_tasks(s.drop_last());
        let t = item_task(s.last().task);
        let c = nodes_tasks(s.last().children);
        (a.0 + t.0 + c.0, a.1 + t.1 + c.1)
    }
}

pub open spec fn cells_tasks(s: Seq<Seq<NodeV>>) -> (nat, nat)
    decreases s,
{
    if s.len() == 0 {
        (0, 0)
    } else {
        let a = cells_tasks(s.drop_last());
        let b = nodes_tasks(s.last());
        (a.0 + b.0, a.1 + b.1)
    }
}

pub open spec fn rows_tasks(s: Seq<Seq<Seq<NodeV>>>) -> (nat, nat)
    decreases s,
{
    if s.len() == 0 {
        (0, 0)
    } else {
        let a = rows_tasks(s.drop_last());
        let b = cells_tasks(s.last());
        (a.0 + b.0, a.1 + b.1)
    }
}

pub open spec fn node_tasks(n: NodeV) -> (nat, nat)
    decreases n,
{
    match n {
        NodeV::List { items, .. } => items_tasks(items),
        NodeV::Emphasis(c) => nodes_tasks(c),
        NodeV::Strong(c) => nodes_tasks(c),
        NodeV::Strikethrough(c) => nodes_tasks(c),
        NodeV::Paragraph(c) => nodes_tasks(c),
        NodeV::Blockquote(c) => nodes_tasks(c),
        NodeV::Component { children, .. } => nodes_tasks(children),
        NodeV::Heading { children, .. } => nodes_tasks(children),
        NodeV::Link { children, .. } => nodes_tasks(children),
        NodeV::Table { head, rows } => {
            let a = cells_tasks(head);
            let b = rows_tasks(rows);
            (a.0 + b.0, a.1 + b.1)
        },
        _ => (0, 0),
    }
}

/// The percentage `Tasks::percent` reports: `done * 100 / total` truncated to a byte,
/// and `0` without tasks.
pub open spec fn percent_of(done: u32, total: u32) -> u8 {
    if total == 0 {
        0
    } else {
        ((done as int * 100 / total as int) % 256) as u8
    }
}

pub proof fn lemma_done_le_total_nodes(s: Seq<NodeV>)
    ensures
        nodes_tasks(s).0 <= nodes_tasks(s).1,
    decreases s,
{
    if s.len() > 0 {
        lemma_done_le_total_nodes(s.drop_last());
        lemma_done_le_total_node(s.last());
    }
}

pub proof fn lemma_done_le_total_items(s: Seq<ListItemV>)
    ensures
        items_tasks(s).0 <= items_tasks(s).1,
    decreases s,
{
    if s.len() > 0 {
        lemma_done_le_total_items(s.drop_last());
        lemma_done_le_total_nodes(s.last().children);
    }
}

pub proof fn lemma_done_le_total_cells(s: Seq<Seq<NodeV>>)
    ensures
        cells_tasks(s).0 <= cells_tasks(s).1,
    decreases s,
{
    if s.len() > 0 {
        lemma_done_le_total_cells(s.drop_last());
        lemma_done_le_total_nodes(s.last());
    }
}

pub proof fn lemma_done_le_total_rows(s: Seq<Seq<Seq<NodeV>>>)
    ensures
        rows_tasks(s).0 <= rows_tasks(s).1,
    decreases s,
{
    if s.len() > 0 {
        lemma_done_le_total_rows(s.drop_last());
        lemma_done_le_total_cells(s.last());
    }
}

pub proof fn lemma_done_le_total_node(n: NodeV)
    ensures
        node_tasks(n).0 <= node_tasks(n).1,
    decreases n,
{
    match n {
        NodeV::List { items, .. } => lemma_done_le_total_items(items),
        NodeV::Emphasis(c) => lemma_done_le_total_nodes(c),
        NodeV::Strong(c) => lemma_done_le_total_nodes(c),
        NodeV::Strikethrough(c) => lemma_done_le_total_nodes(c),
        NodeV::Paragraph(c) => lemma_done_le_total_nodes(c),
        NodeV::Blockquote(c) => lemma_done_le_total_nodes(c),
        NodeV::Component { children, .. } => lemma_done_le_total_nodes(children),
        NodeV::Heading { children, .. } => lemma_done_le_total_nodes(children),
        NodeV::Link { children, .. } => lemma_done_le_total_nodes(children),
        NodeV::Table { head, rows } => {
            lemma_done_le_total_cells(head);
            lemma_done_le_total_rows(rows);
        },
        _ => {},
    }
}

/// A page never has more ticked tasks than tasks.
pub proof fn law_done_within_total(nodes: Seq<NodeV>)
    ensures
        nodes_tasks(nodes).0 <= nodes_tasks(nodes).1,
{
    lemma_done_le_total_nodes(nodes);
}

/// A page's completion never exceeds 100%.
pub proof fn law_percent_at_most_hundred(done: u32, total: u32)
    requires
        done <= total,
    ensures
        percent_of(done, total) <= 100,
{
    if total > 0 {
        let p = done as int * 100 / total as int;
        assert(p <= 100) by (nonlinear_arith)
            requires
                0 <= done <= total,
                total > 0,
                p == done as int * 100 / total as int,
        ;
        assert(p >= 0) by (nonlinear_arith)
            requires
                0 <= done,
                total > 0,
                p == done as int * 100 / total as int,
        ;
    }
}

impl Default for Tasks {
    fn default() -> (r: Tasks)
        ensures
            r.done == 0,
            r.total == 0,
    {
        Tasks { done: 0, total: 0 }
    }
}

impl Tasks {
    /// Completion as a whole percentage, and `0` for a page with no tasks.
    pub fn percent(self) -> (r: u8)
        ensures
            r == percent_of(self.done, self.total),
    {
        if self.total == 0 {
            return 0;
        }
        let p = (self.done as u64 * 100) / self.total as u64;
        proof {
            assert(p == self.done as int * 100 / self.total as int);
            assert(p as u8 == (p % 256) as u8) by (bit_vector);
        }
        #[verifier::truncate]
        (p as u8)
    }

    /// Walks a node tree, counting task list items at any depth.
    pub fn count(nodes: &[Node]) -> (r: Tasks)
        requires
            nodes_tasks(nodes_view(nodes@)).1 <= u32::MAX,
        ensures
            r.done == nodes_tasks(nodes_view(nodes@)).0,
            r.total == nodes_tasks(nodes_view(nodes@)).1,
    {
        let mut tasks = Tasks::default();
        let ok = tasks.add(nodes);
        tasks
    }

    /// `count`, or `None` when the page has more task items than a `u32` holds.
    pub fn try_count(nodes: &[Node]) -> (r: Option<Tasks>)
        ensures
            r is Some <==> nodes_tasks(nodes_view(nodes@)).1 <= u32::MAX,
            r matches Some(t) ==> t.done == nodes_tasks(nodes_view(nodes@)).0
                && t.total == nodes_tasks(nodes_view(nodes@)).1,
    {
        let mut tasks = Tasks::default();
        if tasks.add(nodes) {
            Some(tasks)
        } else {
            None
        }
    }

    /// Adds the tasks of `nodes`; `false` (leaving a partial count) when the total
    /// would pass `u32::MAX`.
    fn add(&mut self, nodes: &[Node]) -> (ok: bool)
        requires
            old(self).done <= old(self).total,
        ensures
            ok == (old(self).total + nodes_tasks(nodes_view(nodes@)).1 <= u32::MAX),
            ok ==> final(self).done == old(self).done + nodes_tasks(nodes_view(nodes@)).0,
            ok ==> final(self).total == old(self).total + nodes_tasks(nodes_view(nodes@)).1,
            final(self).done <= final(self).total,
        decreases nodes@,
    {
        let ghost start = *self;
        let ghost all = nodes_view(nodes@);
        let mut i: usize = 0;
        while i < nodes.len()
            invariant
                0 <= i <= nodes.len(),
                all == nodes_view(nodes@),
                start == *old(self),
                self.done == start.done + nodes_tasks(nodes_view(nodes@.take(i as int))).0,
                self.total == start.total + nodes_tasks(nodes_view(nodes@.take(i as int))).1,
                self.done <= self.total,
                nodes_tasks(nodes_view(nodes@.take(i as int))).1 <= nodes_tasks(all).1,
            decreases nodes.len() - i,
        {
            proof {
                lemma_nodes_view_take(nodes@, i as int);
                lemma_tasks_prefix(nodes@, i as int + 1);
                lemma_nodes_tasks_push(nodes_view(nodes@.take(i as int)), node_view(nodes@[i as int]));
                lemma_done_le_total_node(node_view(nodes@[i as int]));
            }
            if !self.add_node(&nodes[i]) {
                return false;
            }
            i += 1;
        }
        proof {
            assert(nodes@.take(i as int) =~= nodes@);
        }
        true
    }

    #[verifier::loop_isolation(false)]
    fn add_node(&mut self, node: &Node) -> (ok: bool)
        requires
            old(self).done <= old(self).total,
        ensures
            ok == (old(self).total + node_tasks(node_view(*node)).1 <= u32::MAX),
            ok ==> final(self).done == old(self).done + node_tasks(node_view(*node)).0,
            ok ==> final(self).total == old(self).total + node_tasks(node_view(*node)).1,
            final(self).done <= final(self).total,
        decreases node,
    {
        match node {
            Node::List { items, .. } => {
                let ghost start = *self;
                let ghost all = items_view(items@);
                let mut i: usize = 0;
                while i < items.len()
                    invariant
                        0 <= i <= items.len(),
                        all == items_view(items@),
                        node_tasks(node_view(*node)) == items_tasks(all),
                        self.done == start.done + items_tasks(items_view(items@.take(i as int))).0,
                        self.total == start.total + items_tasks(items_view(items@.take(i as int))).1,
                        self.done <= self.total,
                        items_tasks(items_view(items@.take(i as int))).1 <= items_tasks(all).1,
                    decreases items.len() - i,
                {
                    let item = &items[i];
                    proof {
                        lemma_items_view_take(items@, i as int);
                        lemma_items_tasks_prefix(items@, i as int + 1);
                        lemma_items_tasks_push(items_view(items@.take(i as int)), items@[i as int]@);
                        assert(decreases_to!(*node => node->items));
                        assert(decreases_to!(*items => items@));
                        assert(decreases_to!(items@ => items@[i as int]));
                        assert(decreases_to!(items@[i as int] => items@[i as int].children));
                        assert(decreases_to!(items@[i as int].children => items@[i as int].children@));
                        assert(decreases_to!(*node => items@[i as int].children@));
                        lemma_done_le_total_nodes(nodes_view(item.children@));
                    }
                    if let Some(checked) = item.task {
                        if self.total == u32::MAX {
                            return false;
                        }
                        self.total += 1;
                        if checked {
                            self.done += 1;
                        }
                    }
                    if !self.add(item.children.as_slice()) {
                        return false;
                    }
                    i += 1;
                }
                proof {
                    assert(items@.take(i as int) =~= items@);
                }
                true
            },
            Node::Emphasis(children) | Node::Strong(children) | Node::Strikethrough(children)
            | Node::Paragraph(children) | Node::Blockquote(children) => {
                self.add(children.as_slice())
            },
            Node::Component { children, .. } | Node::Heading { children, .. } | Node::Link {
                children,
                ..
            } => {
                self.add(children.as_slice())
            },
            Node::Table { head, rows } => {
                let ghost start = *self;
                proof {
                    lemma_done_le_total_cells(cells_view(head@));
                    lemma_rows_tasks_prefix(rows@, 0);
                    assert(rows@.take(0) =~= Seq::<Vec<Vec<Node>>>::empty());
                }
                if !self.add_cells(head) {
                    return false;
                }
                let mut r: usize = 0;
                let ghost mid = *self;
                while r < rows.len()
                    invariant
                        0 <= r <= rows.len(),
                        node_tasks(node_view(*node)).1 == cells_tasks(cells_view(head@)).1
                            + rows_tasks(rows_view(rows@)).1,
                        node_tasks(node_view(*node)).0 == cells_tasks(cells_view(head@)).0
                            + rows_tasks(rows_view(rows@)).0,
                        mid.total == start.total + cells_tasks(cells_view(head@)).1,
                        mid.done == start.done + cells_tasks(cells_view(head@)).0,
                        self.done == mid.done + rows_tasks(rows_view(rows@.take(r as int))).0,
                        self.total == mid.total + rows_tasks(rows_view(rows@.take(r as int))).1,
                        self.done <= self.total,
                        rows_tasks(rows_view(rows@.take(r as int))).1 <= rows_tasks(
                            rows_view(rows@),
                        ).1,
                    decreases rows.len() - r,
                {
                    proof {
                        lemma_rows_view_take(rows@, r as int);
                        lemma_rows_tasks_prefix(rows@, r as int + 1);
                        lemma_rows_tasks_push(rows_view(rows@.take(r as int)), cells_view(rows@[r as int]@));
                        assert(decreases_to!(*node => node->rows));
                        assert(decreases_to!(*rows => rows@));
                        assert(decreases_to!(rows@ => rows@[r as int]));
                        assert(decreases_to!(rows@[r as int] => rows@[r as int]@));
                        assert(decreases_to!(*node => rows@[r as int]@));
                        lemma_done_le_total_cells(cells_view(rows@[r as int]@));
                    }
                    if !self.add_cells(&rows[r]) {
                        return false;
                    }
                    r += 1;
                }
                proof {
                    assert(rows@.take(r as int) =~= rows@);
                }
                true
            },
            _ => true,
        }
    }

    fn add_cells(&mut self, cells: &Vec<Vec<Node>>) -> (ok: bool)
        requires
            old(self).done <= old(self).total,
        ensures
            ok == (old(self).total + cells_tasks(cells_view(cells@)).1 <= u32::MAX),
            ok ==> final(self).done == old(self).done + cells_tasks(cells_view(cells@)).0,
            ok ==> final(self).total == old(self).total + cells_tasks(cells_view(cells@)).1,
            final(self).done <= final(self).total,
        decreases cells@,
    {
        let ghost start = *self;
        let mut i: usize = 0;
        while i < cells.len()
            invariant
                0 <= i <= cells.len(),
                start == *old(self),
                self.done == start.done + cells_tasks(cells_view(cells@.take(i as int))).0,
                self.total == start.total + cells_tasks(cells_view(cells@.take(i as int))).1,
                self.done <= self.total,
                cells_tasks(cells_view(cells@.take(i as int))).1 <= cells_tasks(
                    cells_view(cells@),
                ).1,
            decreases cells.len() - i,
        {
            proof {
                lemma_cells_view_take(cells@, i as int);
                lemma_cells_tasks_prefix(cells@, i as int + 1);
                lemma_cells_tasks_push(cells_view(cells@.take(i as int)), nodes_view(cells@[i as int]@));
                lemma_done_le_total_nodes(nodes_view(cells@[i as int]@));
            }
            if !self.add(cells[i].as_slice()) {
                return false;
            }
            i += 1;
        }
        proof {
            assert(cells@.take(i as int) =~= cells@);
        }
        true
    }
}

pub proof fn lemma_nodes_tasks_push(s: Seq<NodeV>, n: NodeV)
    ensures
        nodes_tasks(s.push(n)) == ((nodes_tasks(s).0 + node_tasks(n).0) as nat, (nodes_tasks(s).1
            + node_tasks(n).1) as nat),
{
    assert(s.push(n).drop_last() =~= s);
}

pub proof fn lemma_items_tasks_push(s: Seq<ListItemV>, n: ListItemV)
    ensures
        items_tasks(s.push(n)) == ((items_tasks(s).0 + item_task(n.task).0 + nodes_tasks(
            n.children,
        ).0) as nat, (items_tasks(s).1 + item_task(n.task).1 + nodes_tasks(n.children).1) as nat),
{
    assert(s.push(n).drop_last() =~= s);
}

pub proof fn lemma_cells_tasks_push(s: Seq<Seq<NodeV>>, n: Seq<NodeV>)
    ensures
        cells_tasks(s.push(n)) == ((cells_tasks(s).0 + nodes_tasks(n).0) as nat, (cells_tasks(s).1
            + nodes_tasks(n).1) as nat),
{
    assert(s.push(n).drop_last() =~= s);
}

pub proof fn lemma_rows_tasks_push(s: Seq<Seq<Seq<NodeV>>>, n: Seq<Seq<NodeV>>)
    ensures
        rows_tasks(s.push(n)) == ((rows_tasks(s).0 + cells_tasks(n).0) as nat, (rows_tasks(s).1
            + cells_tasks(n).1) as nat),
{
    assert(s.push(n).drop_last() =~= s);
}

pub proof fn lemma_tasks_prefix(s: Seq<Node>, i: int)
    requires
        0 <= i <= s.len(),
    ensures
        nodes_tasks(nodes_view(s.take(i))).1 <= nodes_tasks(nodes_view(s)).1,
    decreases s.len() - i,
{
    if i < s.len() {
        lemma_tasks_prefix(s, i + 1);
        lemma_nodes_view_take(s, i);
        lemma_nodes_tasks_push(nodes_view(s.take(i)), node_view(s[i]));
    } else {
        assert(s.take(i) =~= s);
    }
}

pub proof fn lemma_items_tasks_prefix(s: Seq<ListItem>, i: int)
    requires
        0 <= i <= s.len(),
    ensures
        items_tasks(items_view(s.take(i))).1 <= items_tasks(items_view(s)).1,
    decreases s.len() - i,
{
    if i < s.len() {
        lemma_items_tasks_prefix(s, i + 1);
        lemma_items_view_take(s, i);
        lemma_items_tasks_push(items_view(s.take(i)), s[i]@);
    } else {
        assert(s.take(i) =~= s);
    }
}

pub proof fn lemma_cells_tasks_prefix(s: Seq<Vec<Node>>, i: int)
    requires
        0 <= i <= s.len(),
    ensures
        cells_tasks(cells_view(s.take(i))).1 <= cells_tasks(cells_view(s)).1,
    decreases s.len() - i,
{
    if i < s.len() {
        lemma_cells_tasks_prefix(s, i + 1);
        lemma_cells_view_take(s, i);
        lemma_cells_tasks_push(cells_view(s.take(i)), nodes_view(s[i]@));
    } else {
        assert(s.take(i) =~= s);
    }
}

pub proof fn lemma_rows_tasks_prefix(s: Seq<Vec<Vec<Node>>>, i: int)
    requires
        0 <= i <= s.len(),
    ensures
        rows_tasks(rows_view(s.take(i))).1 <= rows_tasks(rows_view(s)).1,
    decreases s.len() - i,
{
    if i < s.len() {
        lemma_rows_tasks_prefix(s, i + 1);
        lemma_rows_view_take(s, i);
        lemma_rows_tasks_push(rows_view(s.take(i)), cells_view(s[i]@));
    } else {
        assert(s.take(i) =~= s);
    }
}

} // verus!
