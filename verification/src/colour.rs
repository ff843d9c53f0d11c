//! Colouring a built document: every code block in the tree gets its tokens.
use vstd::prelude::*;
use crate::ast::{
    cells_view, items_view, lemma_cells_view_take, lemma_items_view_take, lemma_nodes_view_take,
    lemma_rows_view_take, node_view, nodes_view, rows_view, ListItem, ListItemV, Node, NodeV,
};
use crate::highlight::{custom_language, highlight, highlight_ok, opt_str, opt_tokens, Highlighter};
use crate::lang::{lang_tokens, languages_view, Language, LanguageV};

verus! {

// ---------------------------------------------------------------------------
// When colouring cannot finish
// ---------------------------------------------------------------------------

/// A code block whose project-defined language never finishes tokenizing it.
pub open spec fn block_stalls(lang: Option<Seq<char>>, code: Seq<char>, langs: Seq<LanguageV>) -> bool {
    match custom_language(lang, langs, 0) {
        Some(l) => lang_tokens(l, code) is None,
        None => false,
    }
}

pub open spec fn nodes_stall(s: Seq<NodeV>, langs: Seq<LanguageV>) -> bool
    decreases s,
{
    if s.len() == 0 {
        false
    } else {
        nodes_stall(s.drop_last(), langs) || node_stalls(s.last(), langs)
    }
}

pub open spec fn items_stall(s: Seq<ListItemV>, langs: Seq<LanguageV>) -> bool
    decreases s,
{
    if s.len() == 0 {
        false
    } else {
        items_stall(s.drop_last(), langs) || nodes_stall(s.last().children, langs)
    }
}

pub open spec fn cells_stall(s: Seq<Seq<NodeV>>, langs: Seq<LanguageV>) -> bool
    decreases s,
{
    if s.len() == 0 {
        false
    } else {
        cells_stall(s.drop_last(), langs) || nodes_stall(s.last(), langs)
    }
}

pub open spec fn rows_stall(s: Seq<Seq<Seq<NodeV>>>, langs: Seq<LanguageV>) -> bool
    decreases s,
{
    if s.len() == 0 {
        false
    } else {
        rows_stall(s.drop_last(), langs) || cells_stall(s.last(), langs)
    }
}

/// Whether some code block at any depth of `n` stalls.
pub open spec fn node_stalls(n: NodeV, langs: Seq<LanguageV>) -> bool
    decreases n,
{
    match n {
        NodeV::CodeBlock { lang, code, .. } => block_stalls(lang, code, langs),
        NodeV::Emphasis(c) => nodes_stall(c, langs),
        NodeV::Strong(c) => nodes_stall(c, langs),
        NodeV::Strikethrough(c) => nodes_stall(c, langs),
        NodeV::Paragraph(c) => nodes_stall(c, langs),
        NodeV::Blockquote(c) => nodes_stall(c, langs),
        NodeV::Link { children, .. } => nodes_stall(children, langs),
        NodeV::Heading { children, .. } => nodes_stall(children, langs),
        NodeV::Component { children, .. } => nodes_stall(children, langs),
        NodeV::List { items, .. } => items_stall(items, langs),
        NodeV::Table { head, rows } => cells_stall(head, langs) || rows_stall(rows, langs),
        _ => false,
    }
}

// ---------------------------------------------------------------------------
// What colouring does: the same tree, each code block with its tokens
// ---------------------------------------------------------------------------

pub open spec fn filled_nodes(a: Seq<NodeV>, b: Seq<NodeV>, langs: Seq<LanguageV>, hl: Highlighter) -> bool
    decreases a,
{
    a.len() == b.len() && (a.len() == 0 || (filled_nodes(a.drop_last(), b.drop_last(), langs, hl)
        && filled_node(a.last(), b.last(), langs, hl)))
}

pub open spec fn filled_items(a: Seq<ListItemV>, b: Seq<ListItemV>, langs: Seq<LanguageV>, hl: Highlighter) -> bool
    decreases a,
{
    a.len() == b.len() && (a.len() == 0 || (filled_items(a.drop_last(), b.drop_last(), langs, hl)
        && a.last().task == b.last().task && filled_nodes(
        a.last().children,
        b.last().children,
        langs,
        hl,
    )))
}

pub open spec fn filled_cells(a: Seq<Seq<NodeV>>, b: Seq<Seq<NodeV>>, langs: Seq<LanguageV>, hl: Highlighter) -> bool
    decreases a,
{
    a.len() == b.len() && (a.len() == 0 || (filled_cells(a.drop_last(), b.drop_last(), langs, hl)
        && filled_nodes(a.last(), b.last(), langs, hl)))
}

pub open spec fn filled_rows(
    a: Seq<Seq<Seq<NodeV>>>,
    b: Seq<Seq<Seq<NodeV>>>,
    langs: Seq<LanguageV>,
    hl: Highlighter,
) -> bool
    decreases a,
{
    a.len() == b.len() && (a.len() == 0 || (filled_rows(a.drop_last(), b.drop_last(), langs, hl)
        && filled_cells(a.last(), b.last(), langs, hl)))
}

/// `b` is `a` with every code block's tokens replaced by what `highlight` gives
/// for its code and language; everything else is unchanged.
pub open spec fn filled_node(a: NodeV, b: NodeV, langs: Seq<LanguageV>, hl: Highlighter) -> bool
    decreases a,
{
    match a {
        NodeV::CodeBlock { lang, code, .. } => b matches NodeV::CodeBlock {
            lang: l2,
            code: c2,
            tokens,
        } && l2 == lang && c2 == code && highlight_ok(code, lang, langs, hl, Some(tokens)),
        NodeV::Emphasis(c) => b matches NodeV::Emphasis(c2) && filled_nodes(c, c2, langs, hl),
        NodeV::Strong(c) => b matches NodeV::Strong(c2) && filled_nodes(c, c2, langs, hl),
        NodeV::Strikethrough(c) => b matches NodeV::Strikethrough(c2) && filled_nodes(c, c2, langs, hl),
        NodeV::Paragraph(c) => b matches NodeV::Paragraph(c2) && filled_nodes(c, c2, langs, hl),
        NodeV::Blockquote(c) => b matches NodeV::Blockquote(c2) && filled_nodes(c, c2, langs, hl),
        NodeV::Link { href, title, children } => b matches NodeV::Link {
            href: h2,
            title: t2,
            children: c2,
        } && h2 == href && t2 == title && filled_nodes(children, c2, langs, hl),
        NodeV::Heading { level, id, children } => b matches NodeV::Heading {
            level: l2,
            id: i2,
            children: c2,
        } && l2 == level && i2 == id && filled_nodes(children, c2, langs, hl),
        NodeV::Component { name, props, children } => b matches NodeV::Component {
            name: n2,
            props: p2,
            children: c2,
        } && n2 == name && p2 == props && filled_nodes(children, c2, langs, hl),
        NodeV::List { ordered, start, items } => b matches NodeV::List {
            ordered: o2,
            start: s2,
            items: i2,
        } && o2 == ordered && s2 == start && filled_items(items, i2, langs, hl),
        NodeV::Table { head, rows } => b matches NodeV::Table { head: h2, rows: r2 }
            && filled_cells(head, h2, langs, hl) && filled_rows(rows, r2, langs, hl),
        _ => b == a,
    }
}

// ---------------------------------------------------------------------------
// Prefixes
// ---------------------------------------------------------------------------

proof fn lemma_nodes_stall_prefix(s: Seq<Node>, i: int, langs: Seq<LanguageV>)
    requires
        0 <= i <= s.len(),
        nodes_stall(nodes_view(s.take(i)), langs),
    ensures
        nodes_stall(nodes_view(s), langs),
    decreases s.len() - i,
{
    if i < s.len() {
        lemma_nodes_view_take(s, i);
        assert(nodes_view(s.take(i)).push(node_view(s[i])).drop_last() =~= nodes_view(s.take(i)));
        lemma_nodes_stall_prefix(s, i + 1, langs);
    } else {
        assert(s.take(i) =~= s);
    }
}

proof fn lemma_items_stall_prefix(s: Seq<ListItem>, i: int, langs: Seq<LanguageV>)
    requires
        0 <= i <= s.len(),
        items_stall(items_view(s.take(i)), langs),
    ensures
        items_stall(items_view(s), langs),
    decreases s.len() - i,
{
    if i < s.len() {
        lemma_items_view_take(s, i);
        assert(items_view(s.take(i)).push(s[i]@).drop_last() =~= items_view(s.take(i)));
        lemma_items_stall_prefix(s, i + 1, langs);
    } else {
        assert(s.take(i) =~= s);
    }
}

proof fn lemma_cells_stall_prefix(s: Seq<Vec<Node>>, i: int, langs: Seq<LanguageV>)
    requires
        0 <= i <= s.len(),
        cells_stall(cells_view(s.take(i)), langs),
    ensures
        cells_stall(cells_view(s), langs),
    decreases s.len() - i,
{
    if i < s.len() {
        lemma_cells_view_take(s, i);
        assert(cells_view(s.take(i)).push(nodes_view(s[i]@)).drop_last() =~= cells_view(s.take(i)));
        lemma_cells_stall_prefix(s, i + 1, langs);
    } else {
        assert(s.take(i) =~= s);
    }
}

proof fn lemma_rows_stall_prefix(s: Seq<Vec<Vec<Node>>>, i: int, langs: Seq<LanguageV>)
    requires
        0 <= i <= s.len(),
        rows_stall(rows_view(s.take(i)), langs),
    ensures
        rows_stall(rows_view(s), langs),
    decreases s.len() - i,
{
    if i < s.len() {
        lemma_rows_view_take(s, i);
        assert(rows_view(s.take(i)).push(cells_view(s[i]@)).drop_last() =~= rows_view(s.take(i)));
        lemma_rows_stall_prefix(s, i + 1, langs);
    } else {
        assert(s.take(i) =~= s);
    }
}

// ---------------------------------------------------------------------------
// The pass
// ---------------------------------------------------------------------------

/// Colours every code block in `nodes`; `false` when a project-defined language
/// stalls on one of them.
pub fn fill_nodes(nodes: &mut Vec<Node>, langs: &[Language], hl: &Highlighter) -> (ok: bool)
    ensures
        ok == !nodes_stall(nodes_view(old(nodes)@), languages_view(langs@)),
        ok ==> filled_nodes(nodes_view(old(nodes)@), nodes_view(final(nodes)@), languages_view(langs@), *hl),
    decreases old(nodes)@,
{
    let ghost lv = languages_view(langs@);
    let ghost start = nodes@;
    let mut i: usize = 0;
    proof {
        assert(start.take(0) =~= Seq::<Node>::empty());
        assert(nodes@.take(0) =~= Seq::<Node>::empty());
    }
    while i < nodes.len()
        invariant
            0 <= i <= nodes@.len(),
            nodes@.len() == start.len(),
            start == old(nodes)@,
            lv == languages_view(langs@),
            forall|j: int| i <= j < start.len() ==> nodes@[j] == start[j],
            !nodes_stall(nodes_view(start.take(i as int)), lv),
            filled_nodes(nodes_view(start.take(i as int)), nodes_view(nodes@.take(i as int)), lv, *hl),
        decreases start.len() - i,
    {
        let ghost before = nodes@;
        proof {
            lemma_nodes_view_take(start, i as int);
            assert(decreases_to!(start => start[i as int]));
        }
        let ok = fill_node(&mut nodes[i], langs, hl);
        if !ok {
            proof {
                lemma_nodes_stall_prefix(start, i as int + 1, lv);
            }
            return false;
        }
        proof {
            assert(nodes@.take(i as int) =~= before.take(i as int));
            lemma_nodes_view_take(nodes@, i as int);
            lemma_nodes_view_take(start, i as int);
            assert(nodes_view(start.take(i as int)).push(node_view(start[i as int])).drop_last()
                =~= nodes_view(start.take(i as int)));
            assert(nodes_view(nodes@.take(i as int)).push(node_view(nodes@[i as int])).drop_last()
                =~= nodes_view(nodes@.take(i as int)));
        }
        i += 1;
    }
    proof {
        assert(start.take(i as int) =~= start);
        assert(nodes@.take(i as int) =~= nodes@);
    }
    true
}

fn fill_items(items: &mut Vec<ListItem>, langs: &[Language], hl: &Highlighter) -> (ok: bool)
    ensures
        ok == !items_stall(items_view(old(items)@), languages_view(langs@)),
        ok ==> filled_items(items_view(old(items)@), items_view(final(items)@), languages_view(langs@), *hl),
    decreases old(items)@,
{
    let ghost lv = languages_view(langs@);
    let ghost start = items@;
    let mut i: usize = 0;
    proof {
        assert(start.take(0) =~= Seq::<ListItem>::empty());
        assert(items@.take(0) =~= Seq::<ListItem>::empty());
    }
    while i < items.len()
        invariant
            0 <= i <= items@.len(),
            items@.len() == start.len(),
            start == old(items)@,
            lv == languages_view(langs@),
            forall|j: int| i <= j < start.len() ==> items@[j] == start[j],
            !items_stall(items_view(start.take(i as int)), lv),
            filled_items(items_view(start.take(i as int)), items_view(items@.take(i as int)), lv, *hl),
        decreases start.len() - i,
    {
        let ghost before = items@;
        proof {
            lemma_items_view_take(start, i as int);
            assert(decreases_to!(start => start[i as int]));
            assert(decreases_to!(start[i as int] => start[i as int].children));
            assert(decreases_to!(start[i as int].children => start[i as int].children@));
        }
        let ok = fill_nodes(&mut items[i].children, langs, hl);
        if !ok {
            proof {
                lemma_items_stall_prefix(start, i as int + 1, lv);
            }
            return false;
        }
        proof {
            assert(items@.take(i as int) =~= before.take(i as int));
            lemma_items_view_take(items@, i as int);
            lemma_items_view_take(start, i as int);
            assert(items_view(start.take(i as int)).push(start[i as int]@).drop_last()
                =~= items_view(start.take(i as int)));
            assert(items_view(items@.take(i as int)).push(items@[i as int]@).drop_last()
                =~= items_view(items@.take(i as int)));
        }
        i += 1;
    }
    proof {
        assert(start.take(i as int) =~= start);
        assert(items@.take(i as int) =~= items@);
    }
    true
}

fn fill_cells(cells: &mut Vec<Vec<Node>>, langs: &[Language], hl: &Highlighter) -> (ok: bool)
    ensures
        ok == !cells_stall(cells_view(old(cells)@), languages_view(langs@)),
        ok ==> filled_cells(cells_view(old(cells)@), cells_view(final(cells)@), languages_view(langs@), *hl),
    decreases old(cells)@,
{
    let ghost lv = languages_view(langs@);
    let ghost start = cells@;
    let mut i: usize = 0;
    proof {
        assert(start.take(0) =~= Seq::<Vec<Node>>::empty());
        assert(cells@.take(0) =~= Seq::<Vec<Node>>::empty());
    }
    while i < cells.len()
        invariant
            0 <= i <= cells@.len(),
            cells@.len() == start.len(),
            start == old(cells)@,
            lv == languages_view(langs@),
            forall|j: int| i <= j < start.len() ==> cells@[j] == start[j],
            !cells_stall(cells_view(start.take(i as int)), lv),
            filled_cells(cells_view(start.take(i as int)), cells_view(cells@.take(i as int)), lv, *hl),
        decreases start.len() - i,
    {
        let ghost before = cells@;
        proof {
            lemma_cells_view_take(start, i as int);
            assert(decreases_to!(start => start[i as int]));
            assert(decreases_to!(start[i as int] => start[i as int]@));
        }
        let ok = fill_nodes(&mut cells[i], langs, hl);
        if !ok {
            proof {
                lemma_cells_stall_prefix(start, i as int + 1, lv);
            }
            return false;
        }
        proof {
            assert(cells@.take(i as int) =~= before.take(i as int));
            lemma_cells_view_take(cells@, i as int);
            lemma_cells_view_take(start, i as int);
            assert(cells_view(start.take(i as int)).push(nodes_view(start[i as int]@)).drop_last()
                =~= cells_view(start.take(i as int)));
            assert(cells_view(cells@.take(i as int)).push(nodes_view(cells@[i as int]@)).drop_last()
                =~= cells_view(cells@.take(i as int)));
        }
        i += 1;
    }
    proof {
        assert(start.take(i as int) =~= start);
        assert(cells@.take(i as int) =~= cells@);
    }
    true
}

fn fill_rows(rows: &mut Vec<Vec<Vec<Node>>>, langs: &[Language], hl: &Highlighter) -> (ok: bool)
    ensures
        ok == !rows_stall(rows_view(old(rows)@), languages_view(langs@)),
        ok ==> filled_rows(rows_view(old(rows)@), rows_view(final(rows)@), languages_view(langs@), *hl),
    decreases old(rows)@,
{
    let ghost lv = languages_view(langs@);
    let ghost start = rows@;
    let mut i: usize = 0;
    proof {
        assert(start.take(0) =~= Seq::<Vec<Vec<Node>>>::empty());
        assert(rows@.take(0) =~= Seq::<Vec<Vec<Node>>>::empty());
    }
    while i < rows.len()
        invariant
            0 <= i <= rows@.len(),
            rows@.len() == start.len(),
            start == old(rows)@,
            lv == languages_view(langs@),
            forall|j: int| i <= j < start.len() ==> rows@[j] == start[j],
            !rows_stall(rows_view(start.take(i as int)), lv),
            filled_rows(rows_view(start.take(i as int)), rows_view(rows@.take(i as int)), lv, *hl),
        decreases start.len() - i,
    {
        let ghost before = rows@;
        proof {
            lemma_rows_view_take(start, i as int);
            assert(decreases_to!(start => start[i as int]));
            assert(decreases_to!(start[i as int] => start[i as int]@));
        }
        let ok = fill_cells(&mut rows[i], langs, hl);
        if !ok {
            proof {
                lemma_rows_stall_prefix(start, i as int + 1, lv);
            }
            return false;
        }
        proof {
            assert(rows@.take(i as int) =~= before.take(i as int));
            lemma_rows_view_take(rows@, i as int);
            lemma_rows_view_take(start, i as int);
            assert(rows_view(start.take(i as int)).push(cells_view(start[i as int]@)).drop_last()
                =~= rows_view(start.take(i as int)));
            assert(rows_view(rows@.take(i as int)).push(cells_view(rows@[i as int]@)).drop_last()
                =~= rows_view(rows@.take(i as int)));
        }
        i += 1;
    }
    proof {
        assert(start.take(i as int) =~= start);
        assert(rows@.take(i as int) =~= rows@);
    }
    true
}

fn fill_node(node: &mut Node, langs: &[Language], hl: &Highlighter) -> (ok: bool)
    ensures
        ok == !node_stalls(node_view(*old(node)), languages_view(langs@)),
        ok ==> filled_node(node_view(*old(node)), node_view(*final(node)), languages_view(langs@), *hl),
    decreases *old(node),
{
    match node {
        Node::CodeBlock { lang, code, tokens } => {
            let l: Option<&str> = match lang {
                Some(s) => Some(s.as_str()),
                None => None,
            };
            match highlight(code.as_str(), l, langs, hl) {
                Some(t) => {
                    *tokens = t;
                    true
                },
                None => false,
            }
        },
        Node::Emphasis(c) => fill_nodes(c, langs, hl),
        Node::Strong(c) => fill_nodes(c, langs, hl),
        Node::Strikethrough(c) => fill_nodes(c, langs, hl),
        Node::Paragraph(c) => fill_nodes(c, langs, hl),
        Node::Blockquote(c) => fill_nodes(c, langs, hl),
        Node::Link { children, .. } => fill_nodes(children, langs, hl),
        Node::Heading { children, .. } => fill_nodes(children, langs, hl),
        Node::Component { children, .. } => fill_nodes(children, langs, hl),
        Node::List { items, .. } => fill_items(items, langs, hl),
        Node::Table { head, rows } => {
            if !fill_cells(head, langs, hl) {
                return false;
            }
            fill_rows(rows, langs, hl)
        },
        _ => true,
    }
}

} // verus!
