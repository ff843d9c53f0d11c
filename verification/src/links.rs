//! Docs-relative links: a link written as if the docs were served at `/` is
//! pointed under the base path, when that is where its page lives.
use vstd::prelude::*;
use crate::ast::{
    cells_view, items_view, lemma_cells_view_take, lemma_items_view_take, lemma_nodes_view_take,
    lemma_rows_view_take, node_view, nodes_view, rows_view, ListItem, ListItemV, Node, NodeV,
};
use crate::config::{lemma_strip_end_keeps, lemma_strip_end_range, strip_end};
use crate::text::{
    chars_of, extend_range, extend_str, find_char, find_char_in, has_prefix, lemma_find_char, str_eq,
    string_of, string_of_range,
};

verus! {

pub open spec fn routes_view(rs: Seq<String>) -> Seq<Seq<char>> {
    rs.map_values(|r: String| r@)
}

/// Where a link is rewritten to, if anywhere: a site-absolute link (`/...` but not
/// `//...`) whose path is no route, but is one once the base is put in front of
/// it (trailing slashes dropped), keeps its `#fragment` and gains the base.
pub open spec fn prefixed(href: Seq<char>, base: Seq<char>, routes: Seq<Seq<char>>) -> Option<Seq<char>> {
    if !has_prefix(href, seq!['/']) || has_prefix(href, seq!['/', '/']) {
        None
    } else {
        let k = find_char(href, 0, href.len() as int, '#');
        let path = href.subrange(0, k);
        let candidate = base + strip_end(path, '/');
        if routes.contains(path) || !routes.contains(candidate) {
            None
        } else if k < href.len() {
            Some(candidate + seq!['#'] + href.subrange(k + 1, href.len() as int))
        } else {
            Some(candidate)
        }
    }
}

pub open spec fn relinked_href(href: Seq<char>, base: Seq<char>, routes: Seq<Seq<char>>) -> Seq<char> {
    match prefixed(href, base, routes) {
        Some(h) => h,
        None => href,
    }
}

pub open spec fn relinked_nodes(s: Seq<NodeV>, base: Seq<char>, routes: Seq<Seq<char>>) -> Seq<NodeV>
    decreases s,
{
    if s.len() == 0 {
        s
    } else {
        relinked_nodes(s.drop_last(), base, routes).push(relinked_node(s.last(), base, routes))
    }
}

pub open spec fn relinked_items(s: Seq<ListItemV>, base: Seq<char>, routes: Seq<Seq<char>>) -> Seq<ListItemV>
    decreases s,
{
    if s.len() == 0 {
        s
    } else {
        relinked_items(s.drop_last(), base, routes).push(
            ListItemV { task: s.last().task, children: relinked_nodes(s.last().children, base, routes) },
        )
    }
}

pub open spec fn relinked_cells(s: Seq<Seq<NodeV>>, base: Seq<char>, routes: Seq<Seq<char>>) -> Seq<Seq<NodeV>>
    decreases s,
{
    if s.len() == 0 {
        s
    } else {
        relinked_cells(s.drop_last(), base, routes).push(relinked_nodes(s.last(), base, routes))
    }
}

pub open spec fn relinked_rows(s: Seq<Seq<Seq<NodeV>>>, base: Seq<char>, routes: Seq<Seq<char>>) -> Seq<
    Seq<Seq<NodeV>>,
>
    decreases s,
{
    if s.len() == 0 {
        s
    } else {
        relinked_rows(s.drop_last(), base, routes).push(relinked_cells(s.last(), base, routes))
    }
}

/// `n` with every link in it, at any depth, rewritten by `prefixed`.
pub open spec fn relinked_node(n: NodeV, base: Seq<char>, routes: Seq<Seq<char>>) -> NodeV
    decreases n,
{
    match n {
        NodeV::Link { href, title, children } => NodeV::Link {
            href: relinked_href(href, base, routes),
            title,
            children: relinked_nodes(children, base, routes),
        },
        NodeV::Emphasis(c) => NodeV::Emphasis(relinked_nodes(c, base, routes)),
        NodeV::Strong(c) => NodeV::Strong(relinked_nodes(c, base, routes)),
        NodeV::Strikethrough(c) => NodeV::Strikethrough(relinked_nodes(c, base, routes)),
        NodeV::Paragraph(c) => NodeV::Paragraph(relinked_nodes(c, base, routes)),
        NodeV::Blockquote(c) => NodeV::Blockquote(relinked_nodes(c, base, routes)),
        NodeV::Heading { level, id, children } => NodeV::Heading {
            level,
            id,
            children: relinked_nodes(children, base, routes),
        },
        NodeV::Component { name, props, children } => NodeV::Component {
            name,
            props,
            children: relinked_nodes(children, base, routes),
        },
        NodeV::List { ordered, start, items } => NodeV::List {
            ordered,
            start,
            items: relinked_items(items, base, routes),
        },
        NodeV::Table { head, rows } => NodeV::Table {
            head: relinked_cells(head, base, routes),
            rows: relinked_rows(rows, base, routes),
        },
        _ => n,
    }
}

/// A link whose path is already a route is left alone.
pub proof fn law_resolved_links_stay(href: Seq<char>, base: Seq<char>, routes: Seq<Seq<char>>)
    requires
        routes.contains(href.subrange(0, find_char(href, 0, href.len() as int, '#'))),
    ensures
        relinked_href(href, base, routes) == href,
{
}

proof fn lemma_first_hash(s: Seq<char>, m: int)
    requires
        0 <= m <= s.len(),
        forall|j: int| 0 <= j < m ==> s[j] != '#',
        m < s.len() ==> s[m] == '#',
    ensures
        find_char(s, 0, s.len() as int, '#') == m,
{
    lemma_find_char(s, 0, s.len() as int, '#');
    let f = find_char(s, 0, s.len() as int, '#');
    if f < m {
        assert(s[f] == '#');
    }
    if f > m {
        assert(s[m] != '#');
    }
}

/// Rewriting links twice rewrites them once: a rewritten link already resolves.
/// This needs a base path without `#`, which would end the rewritten link's path.
pub proof fn law_relinking_is_idempotent(href: Seq<char>, base: Seq<char>, routes: Seq<Seq<char>>)
    requires
        forall|j: int| 0 <= j < base.len() ==> base[j] != '#',
    ensures
        relinked_href(relinked_href(href, base, routes), base, routes) == relinked_href(
            href,
            base,
            routes,
        ),
{
    match prefixed(href, base, routes) {
        None => {},
        Some(h) => {
            let k = find_char(href, 0, href.len() as int, '#');
            lemma_find_char(href, 0, href.len() as int, '#');
            let path = href.subrange(0, k);
            lemma_strip_end_keeps(path, '/');
            let stripped = strip_end(path, '/');
            let candidate = base + stripped;
            assert forall|j: int| 0 <= j < candidate.len() implies candidate[j] != '#' by {
                if j >= base.len() {
                    assert(candidate[j] == stripped[j - base.len()]);
                    assert(stripped[j - base.len()] == path[j - base.len()]);
                }
            }
            if k < href.len() {
                assert(h[candidate.len() as int] == '#');
                assert forall|j: int| 0 <= j < candidate.len() implies h[j] != '#' by {
                    assert(h[j] == candidate[j]);
                }
                lemma_first_hash(h, candidate.len() as int);
                assert(h.subrange(0, candidate.len() as int) =~= candidate);
            } else {
                lemma_first_hash(h, candidate.len() as int);
                assert(h.subrange(0, candidate.len() as int) =~= candidate);
            }
            law_resolved_links_stay(h, base, routes);
        },
    }
}

/// Whether `route` is one of `routes`.
pub(crate) fn contains_route(routes: &Vec<String>, route: &String) -> (b: bool)
    ensures
        b == routes_view(routes@).contains(route@),
{
    let mut j: usize = 0;
    while j < routes.len()
        invariant
            j <= routes@.len(),
            forall|m: int| 0 <= m < j ==> routes_view(routes@)[m] != route@,
        decreases routes.len() - j,
    {
        if str_eq(routes[j].as_str(), route.as_str()) {
            assert(routes_view(routes@)[j as int] == route@);
            return true;
        }
        j += 1;
    }
    false
}

/// The rewritten form of `href`, if it is rewritten.
pub fn prefixed_href(href: &String, base: &str, routes: &Vec<String>) -> (r: Option<String>)
    ensures
        match r {
            Some(h) => prefixed(href@, base@, routes_view(routes@)) == Some(h@),
            None => prefixed(href@, base@, routes_view(routes@)) is None,
        },
{
    let v = chars_of(href.as_str());
    proof {
        assert(v@.len() >= 1 ==> v@.subrange(0, 1) =~= seq![v@[0]]);
        assert(v@.len() >= 2 ==> v@.subrange(0, 2) =~= seq![v@[0], v@[1]]);
    }
    if v.len() == 0 || v[0] != '/' {
        proof {
            if v@.len() > 0 {
                assert(v@.subrange(0, 1)[0] == v@[0]);
                assert(seq!['/'][0] == '/');
            }
        }
        return None;
    }
    if v.len() >= 2 && v[1] == '/' {
        return None;
    }
    let k = find_char_in(&v, 0, v.len(), '#');
    let path = string_of_range(&v, 0, k);
    let mut e = k;
    while e > 0 && v[e - 1] == '/'
        invariant
            e <= k <= v@.len(),
            strip_end(v@.subrange(0, k as int), '/') == strip_end(v@.subrange(0, e as int), '/'),
        decreases e,
    {
        proof {
            lemma_strip_end_range(v@, 0, e as int, '/');
        }
        e -= 1;
    }
    let mut cand: Vec<char> = Vec::new();
    extend_str(&mut cand, base);
    extend_range(&mut cand, &v, 0, e);
    let candidate = string_of(&cand);
    if contains_route(routes, &path) || !contains_route(routes, &candidate) {
        return None;
    }
    if k < v.len() {
        cand.push('#');
        extend_range(&mut cand, &v, k + 1, v.len());
        Some(string_of(&cand))
    } else {
        Some(candidate)
    }
}

/// Rewrites every link in `nodes`, at any depth, by `prefixed`.
pub fn relink_nodes(nodes: &mut Vec<Node>, base: &str, routes: &Vec<String>)
    ensures
        nodes_view(final(nodes)@) == relinked_nodes(nodes_view(old(nodes)@), base@, routes_view(routes@)),
    decreases old(nodes)@,
{
    let ghost b = base@;
    let ghost rv = routes_view(routes@);
    let ghost start = nodes@;
    let mut i: usize = 0;
    proof {
        assert(start.take(0) =~= Seq::<Node>::empty());
        assert(nodes@.take(0) =~= Seq::<Node>::empty());
    }
    while i < nodes.len()
        invariant
            0 <= i <= nodes@.len(),
            nodes@.len() == start.len(),
            start == old(nodes)@,
            b == base@,
            rv == routes_view(routes@),
            forall|j: int| i <= j < start.len() ==> nodes@[j] == start[j],
            nodes_view(nodes@.take(i as int)) == relinked_nodes(nodes_view(start.take(i as int)), b, rv),
        decreases start.len() - i,
    {
        let ghost before = nodes@;
        proof {
            assert(decreases_to!(start => start[i as int]));
        }
        relink_node(&mut nodes[i], base, routes);
        proof {
            assert(nodes@.take(i as int) =~= before.take(i as int));
            lemma_nodes_view_take(nodes@, i as int);
            lemma_nodes_view_take(start, i as int);
            assert(nodes_view(start.take(i as int)).push(node_view(start[i as int])).drop_last()
                =~= nodes_view(start.take(i as int)));
            assert(nodes_view(nodes@.take(i as int)).push(node_view(nodes@[i as int])).drop_last()
                =~= nodes_view(nodes@.take(i as int)));
            assert(relinked_nodes(nodes_view(start.take(i as int)), b, rv).push(relinked_node(node_view(start[i as int]), b, rv)).drop_last()
                =~= relinked_nodes(nodes_view(start.take(i as int)), b, rv));
        }
        i += 1;
    }
    proof {
        assert(start.take(i as int) =~= start);
        assert(nodes@.take(i as int) =~= nodes@);
    }
}

fn relink_items(items: &mut Vec<ListItem>, base: &str, routes: &Vec<String>)
    ensures
        items_view(final(items)@) == relinked_items(items_view(old(items)@), base@, routes_view(routes@)),
    decreases old(items)@,
{
    let ghost b = base@;
    let ghost rv = routes_view(routes@);
    let ghost start = items@;
    let mut i: usize = 0;
    proof {
        assert(start.take(0) =~= Seq::<ListItem>::empty());
        assert(items@.take(0) =~= Seq::<ListItem>::empty());
    }
    while i < items.len()
        invariant
            0 <= i <= items@.len(),
            items@.len() == start.len(),
            start == old(items)@,
            b == base@,
            rv == routes_view(routes@),
            forall|j: int| i <= j < start.len() ==> items@[j] == start[j],
            items_view(items@.take(i as int)) == relinked_items(items_view(start.take(i as int)), b, rv),
        decreases start.len() - i,
    {
        let ghost before = items@;
        proof {
            assert(decreases_to!(start => start[i as int]));
            assert(decreases_to!(start[i as int] => start[i as int].children));
            assert(decreases_to!(start[i as int].children => start[i as int].children@));
        }
        relink_nodes(&mut items[i].children, base, routes);
        proof {
            assert(items@.take(i as int) =~= before.take(i as int));
            lemma_items_view_take(items@, i as int);
            lemma_items_view_take(start, i as int);
            assert(items_view(start.take(i as int)).push(start[i as int]@).drop_last()
                =~= items_view(start.take(i as int)));
            assert(items_view(items@.take(i as int)).push(items@[i as int]@).drop_last()
                =~= items_view(items@.take(i as int)));
            assert(relinked_items(items_view(start.take(i as int)), b, rv).push(ListItemV { task: start[i as int].task, children: relinked_nodes(nodes_view(start[i as int].children@), b, rv) }).drop_last()
                =~= relinked_items(items_view(start.take(i as int)), b, rv));
        }
        i += 1;
    }
    proof {
        assert(start.take(i as int) =~= start);
        assert(items@.take(i as int) =~= items@);
    }
}

fn relink_cells(cells: &mut Vec<Vec<Node>>, base: &str, routes: &Vec<String>)
    ensures
        cells_view(final(cells)@) == relinked_cells(cells_view(old(cells)@), base@, routes_view(routes@)),
    decreases old(cells)@,
{
    let ghost b = base@;
    let ghost rv = routes_view(routes@);
    let ghost start = cells@;
    let mut i: usize = 0;
    proof {
        assert(start.take(0) =~= Seq::<Vec<Node>>::empty());
        assert(cells@.take(0) =~= Seq::<Vec<Node>>::empty());
    }
    while i < cells.len()
        invariant
            0 <= i <= cells@.len(),
            cells@.len() == start.len(),
            start == old(cells)@,
            b == base@,
            rv == routes_view(routes@),
            forall|j: int| i <= j < start.len() ==> cells@[j] == start[j],
            cells_view(cells@.take(i as int)) == relinked_cells(cells_view(start.take(i as int)), b, rv),
        decreases start.len() - i,
    {
        let ghost before = cells@;
        proof {
            assert(decreases_to!(start => start[i as int]));
            assert(decreases_to!(start[i as int] => start[i as int]@));
        }
        relink_nodes(&mut cells[i], base, routes);
        proof {
            assert(cells@.take(i as int) =~= before.take(i as int));
            lemma_cells_view_take(cells@, i as int);
            lemma_cells_view_take(start, i as int);
            assert(cells_view(start.take(i as int)).push(nodes_view(start[i as int]@)).drop_last()
                =~= cells_view(start.take(i as int)));
            assert(cells_view(cells@.take(i as int)).push(nodes_view(cells@[i as int]@)).drop_last()
                =~= cells_view(cells@.take(i as int)));
            assert(relinked_cells(cells_view(start.take(i as int)), b, rv).push(relinked_nodes(nodes_view(start[i as int]@), b, rv)).drop_last()
                =~= relinked_cells(cells_view(start.take(i as int)), b, rv));
        }
        i += 1;
    }
    proof {
        assert(start.take(i as int) =~= start);
        assert(cells@.take(i as int) =~= cells@);
    }
}

fn relink_rows(rows: &mut Vec<Vec<Vec<Node>>>, base: &str, routes: &Vec<String>)
    ensures
        rows_view(final(rows)@) == relinked_rows(rows_view(old(rows)@), base@, routes_view(routes@)),
    decreases old(rows)@,
{
    let ghost b = base@;
    let ghost rv = routes_view(routes@);
    let ghost start = rows@;
    let mut i: usize = 0;
    proof {
        assert(start.take(0) =~= Seq::<Vec<Vec<Node>>>::empty());
        assert(rows@.take(0) =~= Seq::<Vec<Vec<Node>>>::empty());
    }
    while i < rows.len()
        invariant
            0 <= i <= rows@.len(),
            rows@.len() == start.len(),
            start == old(rows)@,
            b == base@,
            rv == routes_view(routes@),
            forall|j: int| i <= j < start.len() ==> rows@[j] == start[j],
            rows_view(rows@.take(i as int)) == relinked_rows(rows_view(start.take(i as int)), b, rv),
        decreases start.len() - i,
    {
        let ghost before = rows@;
        proof {
            assert(decreases_to!(start => start[i as int]));
            assert(decreases_to!(start[i as int] => start[i as int]@));
        }
        relink_cells(&mut rows[i], base, routes);
        proof {
            assert(rows@.take(i as int) =~= before.take(i as int));
            lemma_rows_view_take(rows@, i as int);
            lemma_rows_view_take(start, i as int);
            assert(rows_view(start.take(i as int)).push(cells_view(start[i as int]@)).drop_last()
                =~= rows_view(start.take(i as int)));
            assert(rows_view(rows@.take(i as int)).push(cells_view(rows@[i as int]@)).drop_last()
                =~= rows_view(rows@.take(i as int)));
            assert(relinked_rows(rows_view(start.take(i as int)), b, rv).push(relinked_cells(cells_view(start[i as int]@), b, rv)).drop_last()
                =~= relinked_rows(rows_view(start.take(i as int)), b, rv));
        }
        i += 1;
    }
    proof {
        assert(start.take(i as int) =~= start);
        assert(rows@.take(i as int) =~= rows@);
    }
}

fn relink_node(node: &mut Node, base: &str, routes: &Vec<String>)
    ensures
        node_view(*final(node)) == relinked_node(node_view(*old(node)), base@, routes_view(routes@)),
    decreases *old(node),
{
    match node {
        Node::Link { href, children, .. } => {
            match prefixed_href(href, base, routes) {
                Some(h) => {
                    *href = h;
                },
                None => {},
            }
            relink_nodes(children, base, routes);
        },
        Node::Emphasis(c) => relink_nodes(c, base, routes),
        Node::Strong(c) => relink_nodes(c, base, routes),
        Node::Strikethrough(c) => relink_nodes(c, base, routes),
        Node::Paragraph(c) => relink_nodes(c, base, routes),
        Node::Blockquote(c) => relink_nodes(c, base, routes),
        Node::Heading { children, .. } => relink_nodes(children, base, routes),
        Node::Component { children, .. } => relink_nodes(children, base, routes),
        Node::List { items, .. } => relink_items(items, base, routes),
        Node::Table { head, rows } => {
            relink_cells(head, base, routes);
            relink_rows(rows, base, routes);
        },
        _ => {},
    }
}

} // verus!
