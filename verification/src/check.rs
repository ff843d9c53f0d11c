//! Link checking: the links a page holds, and which of them lead nowhere.
use vstd::prelude::*;
use crate::ast::{
    cells_view, items_view, lemma_cells_view_take, lemma_items_view_take, lemma_nodes_view_take,
    lemma_rows_view_take, node_view, nodes_view, rows_view, toc_view, ListItemV, Node, NodeV,
};
use crate::config::{lemma_strip_end_range, strip_end};
use crate::links::{contains_route, routes_view};
use crate::site::Page;
use crate::text::{chars_of, find_char, find_char_in, has_prefix, string_of_range};

verus! {

pub open spec fn links_nodes(s: Seq<NodeV>) -> Seq<Seq<char>>
    decreases s,
{
    if s.len() == 0 {
        Seq::empty()
    } else {
        links_nodes(s.drop_last()) + links_node(s.last())
    }
}

pub open spec fn links_items(s: Seq<ListItemV>) -> Seq<Seq<char>>
    decreases s,
{
    if s.len() == 0 {
        Seq::empty()
    } else {
        links_items(s.drop_last()) + links_nodes(s.last().children)
    }
}

pub open spec fn links_cells(s: Seq<Seq<NodeV>>) -> Seq<Seq<char>>
    decreases s,
{
    if s.len() == 0 {
        Seq::empty()
    } else {
        links_cells(s.drop_last()) + links_nodes(s.last())
    }
}

pub open spec fn links_rows(s: Seq<Seq<Seq<NodeV>>>) -> Seq<Seq<char>>
    decreases s,
{
    if s.len() == 0 {
        Seq::empty()
    } else {
        links_rows(s.drop_last()) + links_cells(s.last())
    }
}

/// The targets of the links in `n`, in document order, at any depth.
pub open spec fn links_node(n: NodeV) -> Seq<Seq<char>>
    decreases n,
{
    match n {
        NodeV::Link { href, children, .. } => seq![href] + links_nodes(children),
        NodeV::Emphasis(c) => links_nodes(c),
        NodeV::Strong(c) => links_nodes(c),
        NodeV::Strikethrough(c) => links_nodes(c),
        NodeV::Paragraph(c) => links_nodes(c),
        NodeV::Blockquote(c) => links_nodes(c),
        NodeV::Heading { children, .. } => links_nodes(children),
        NodeV::Component { children, .. } => links_nodes(children),
        NodeV::List { items, .. } => links_items(items),
        NodeV::Table { head, rows } => links_cells(head) + links_rows(rows),
        _ => Seq::empty(),
    }
}

/// Appends the targets of the links in `nodes`.
pub fn collect_links(nodes: &[Node], out: &mut Vec<String>)
    ensures
        routes_view(final(out)@) == routes_view(old(out)@) + links_nodes(nodes_view(nodes@)),
    decreases nodes@,
{
    let ghost start = routes_view(out@);
    let mut i: usize = 0;
    proof {
        assert(start + links_nodes(nodes_view(nodes@.take(0))) =~= start);
    }
    while i < nodes.len()
        invariant
            0 <= i <= nodes.len(),
            routes_view(out@) == start + links_nodes(nodes_view(nodes@.take(i as int))),
        decreases nodes.len() - i,
    {
        proof {
            lemma_nodes_view_take(nodes@, i as int);
            let v = nodes_view(nodes@.take(i as int));
            assert(v.push(node_view(nodes@[i as int])).drop_last() =~= v);
        }
        let ghost before = routes_view(out@);
        collect_node(&nodes[i], out);
        proof {
            let v = nodes_view(nodes@.take(i as int));
            assert(routes_view(out@) =~= start + (links_nodes(v) + links_node(node_view(nodes@[i as int]))));
        }
        i += 1;
    }
    proof {
        assert(nodes@.take(i as int) =~= nodes@);
    }
}

#[verifier::loop_isolation(false)]
fn collect_node(node: &Node, out: &mut Vec<String>)
    ensures
        routes_view(final(out)@) == routes_view(old(out)@) + links_node(node_view(*node)),
    decreases node,
{
    let ghost start = routes_view(out@);
    match node {
        Node::Link { href, children, .. } => {
            out.push(href.clone());
            proof {
                assert(routes_view(out@) =~= start + seq![href@]);
            }
            collect_links(children.as_slice(), out);
            proof {
                assert(routes_view(out@) =~= start + links_node(node_view(*node)));
            }
        },
        Node::Emphasis(children) | Node::Strong(children) | Node::Strikethrough(children)
        | Node::Paragraph(children) | Node::Blockquote(children) => {
            collect_links(children.as_slice(), out);
        },
        Node::Heading { children, .. } | Node::Component { children, .. } => {
            collect_links(children.as_slice(), out);
        },
        Node::List { items, .. } => {
            let mut i: usize = 0;
            proof {
                assert(items_view(items@.take(0)) =~= Seq::<ListItemV>::empty());
                assert(start + Seq::<Seq<char>>::empty() =~= start);
            }
            while i < items.len()
                invariant
                    0 <= i <= items.len(),
                    routes_view(out@) == start + links_items(items_view(items@.take(i as int))),
                decreases items.len() - i,
            {
                proof {
                    lemma_items_view_take(items@, i as int);
                    let v = items_view(items@.take(i as int));
                    assert(v.push(items@[i as int]@).drop_last() =~= v);
                    assert(decreases_to!(*node => node->items));
                    assert(decreases_to!(node->items => node->items@));
                    assert(decreases_to!(items@ => items@[i as int]));
                    assert(decreases_to!(items@[i as int] => items@[i as int].children));
                    assert(decreases_to!(items@[i as int].children => items@[i as int].children@));
                }
                collect_links(items[i].children.as_slice(), out);
                proof {
                    let v = items_view(items@.take(i as int));
                    assert(routes_view(out@) =~= start + links_items(v.push(items@[i as int]@)));
                }
                i += 1;
            }
            proof {
                assert(items@.take(i as int) =~= items@);
            }
        },
        Node::Table { head, rows } => {
            proof {
                assert(decreases_to!(*node => node->head));
            }
            collect_cells(head, out);
            let ghost mid = routes_view(out@);
            let mut r: usize = 0;
            proof {
                assert(rows_view(rows@.take(0)) =~= Seq::<Seq<Seq<NodeV>>>::empty());
                assert(mid + Seq::<Seq<char>>::empty() =~= mid);
            }
            while r < rows.len()
                invariant
                    0 <= r <= rows.len(),
                    mid == start + links_cells(cells_view(head@)),
                    routes_view(out@) == mid + links_rows(rows_view(rows@.take(r as int))),
                decreases rows.len() - r,
            {
                proof {
                    lemma_rows_view_take(rows@, r as int);
                    let v = rows_view(rows@.take(r as int));
                    assert(v.push(cells_view(rows@[r as int]@)).drop_last() =~= v);
                    assert(decreases_to!(*node => node->rows));
                    assert(decreases_to!(node->rows => node->rows@));
                    assert(decreases_to!(rows@ => rows@[r as int]));
                }
                collect_cells(&rows[r], out);
                proof {
                    let v = rows_view(rows@.take(r as int));
                    assert(routes_view(out@) =~= mid + links_rows(v.push(cells_view(rows@[r as int]@))));
                }
                r += 1;
            }
            proof {
                assert(rows@.take(r as int) =~= rows@);
                assert(routes_view(out@) =~= start + links_node(node_view(*node)));
            }
        },
        _ => {
            proof {
                assert(routes_view(out@) =~= start + links_node(node_view(*node)));
            }
        },
    }
}

fn collect_cells(cells: &Vec<Vec<Node>>, out: &mut Vec<String>)
    ensures
        routes_view(final(out)@) == routes_view(old(out)@) + links_cells(cells_view(cells@)),
    decreases cells,
{
    let ghost start = routes_view(out@);
    let mut i: usize = 0;
    proof {
        assert(cells_view(cells@.take(0)) =~= Seq::<Seq<NodeV>>::empty());
        assert(start + Seq::<Seq<char>>::empty() =~= start);
    }
    while i < cells.len()
        invariant
            0 <= i <= cells.len(),
            routes_view(out@) == start + links_cells(cells_view(cells@.take(i as int))),
        decreases cells.len() - i,
    {
        proof {
            lemma_cells_view_take(cells@, i as int);
            let v = cells_view(cells@.take(i as int));
            assert(v.push(nodes_view(cells@[i as int]@)).drop_last() =~= v);
            assert(decreases_to!(*cells => cells@));
            assert(decreases_to!(cells@ => cells@[i as int]));
        }
        collect_links(cells[i].as_slice(), out);
        proof {
            let v = cells_view(cells@.take(i as int));
            assert(routes_view(out@) =~= start + links_cells(v.push(nodes_view(cells@[i as int]@))));
        }
        i += 1;
    }
    proof {
        assert(cells@.take(i as int) =~= cells@);
    }
}

// ---------------------------------------------------------------------------
// Problems
// ---------------------------------------------------------------------------

/// A link that leads nowhere.
#[derive(Debug, Clone, PartialEq)]
pub enum LinkProblem {
    /// `#anchor` names no heading of its own page.
    UnknownAnchor(String),
    /// A site-absolute path that is no route.
    UnknownRoute(String),
}

pub enum LinkProblemV {
    UnknownAnchor(Seq<char>),
    UnknownRoute(Seq<char>),
}

pub open spec fn problem_view(p: LinkProblem) -> LinkProblemV {
    match p {
        LinkProblem::UnknownAnchor(a) => LinkProblemV::UnknownAnchor(a@),
        LinkProblem::UnknownRoute(r) => LinkProblemV::UnknownRoute(r@),
    }
}

/// What is wrong with a link, if anything. A bare `#anchor` must name a heading
/// of the page; a path starting with one `/` must be a route once trailing
/// slashes go, except `/` itself when a landing page takes the root. Other links
/// (external, relative) are not checked.
pub open spec fn problem_of(
    href: Seq<char>,
    anchors: Seq<Seq<char>>,
    routes: Seq<Seq<char>>,
    has_landing: bool,
) -> Option<LinkProblemV> {
    let k = find_char(href, 0, href.len() as int, '#');
    let path = href.subrange(0, k);
    if path.len() == 0 {
        if k < href.len() {
            let anchor = href.subrange(k + 1, href.len() as int);
            if anchors.contains(anchor) {
                None
            } else {
                Some(LinkProblemV::UnknownAnchor(anchor))
            }
        } else {
            None
        }
    } else if !has_prefix(path, seq!['/']) || has_prefix(path, seq!['/', '/']) {
        None
    } else {
        let stripped = strip_end(path, '/');
        let normalized = if stripped.len() == 0 {
            seq!['/']
        } else {
            stripped
        };
        if (has_landing && normalized == seq!['/']) || routes.contains(normalized) {
            None
        } else {
            Some(LinkProblemV::UnknownRoute(path))
        }
    }
}

/// What is wrong with the link `href` on a page whose headings have `anchors`.
pub fn link_problem(href: &str, anchors: &Vec<String>, routes: &Vec<String>, has_landing: bool) -> (r:
    Option<LinkProblem>)
    ensures
        match r {
            Some(p) => problem_of(href@, routes_view(anchors@), routes_view(routes@), has_landing)
                == Some(problem_view(p)),
            None => problem_of(href@, routes_view(anchors@), routes_view(routes@), has_landing) is None,
        },
{
    let v = chars_of(href);
    let k = find_char_in(&v, 0, v.len(), '#');
    if k == 0 {
        if k < v.len() {
            let anchor = string_of_range(&v, k + 1, v.len());
            if contains_route(anchors, &anchor) {
                return None;
            }
            return Some(LinkProblem::UnknownAnchor(anchor));
        }
        return None;
    }
    proof {
        assert(v@.subrange(0, k as int).subrange(0, 1) =~= seq![v@[0]]);
        assert(k >= 2 ==> v@.subrange(0, k as int).subrange(0, 2) =~= seq![v@[0], v@[1]]);
    }
    if v[0] != '/' || (k >= 2 && v[1] == '/') {
        proof {
            if v@[0] != '/' {
                assert(seq![v@[0]][0] != seq!['/'][0]);
            } else {
                assert(seq![v@[0], v@[1]][1] != seq!['/', '/'][1] || v@[1] == '/');
            }
        }
        return None;
    }
    let path = string_of_range(&v, 0, k);
    let mut e = k;
    while e > 0 && v[e - 1] == '/'
        invariant
            e <= k <= v@.len(),
            strip_end(v@.subrange(0, k as int), '/') == strip_end(v@.subrange(0, e as int), '/'),
        decreases e,
    {
        proof {
            lemma_strip_end_range(v@, 0, e as int, '/');
        }
        e -= 1;
    }
    let mut n: Vec<char> = Vec::new();
    if e == 0 {
        n.push('/');
    } else {
        crate::text::extend_range(&mut n, &v, 0, e);
    }
    proof {
        assert(n@ =~= if e == 0 {
            seq!['/']
        } else {
            v@.subrange(0, e as int)
        });
    }
    let is_slash = n.len() == 1 && n[0] == '/';
    proof {
        if n@.len() == 1 {
            assert(n@ =~= seq![n@[0]]);
        }
        assert(is_slash == (n@ == seq!['/'])) by {
            if n@ == seq!['/'] {
                assert(n@[0] == seq!['/'][0]);
            }
        }
    }
    let normalized = crate::text::string_of(&n);
    if (has_landing && is_slash) || contains_route(routes, &normalized) {
        return None;
    }
    Some(LinkProblem::UnknownRoute(path))
}

/// The problems of a list of links, in order.
pub open spec fn problems_of(
    links: Seq<Seq<char>>,
    anchors: Seq<Seq<char>>,
    routes: Seq<Seq<char>>,
    has_landing: bool,
) -> Seq<LinkProblemV>
    decreases links.len(),
{
    if links.len() == 0 {
        Seq::empty()
    } else {
        let rest = problems_of(links.drop_last(), anchors, routes, has_landing);
        match problem_of(links.last(), anchors, routes, has_landing) {
            Some(p) => rest.push(p),
            None => rest,
        }
    }
}

pub open spec fn problems_view(s: Seq<LinkProblem>) -> Seq<LinkProblemV> {
    s.map_values(|p: LinkProblem| problem_view(p))
}

pub open spec fn anchors_of(page: Page) -> Seq<Seq<char>> {
    toc_view(page.doc.toc@).map_values(|t: crate::ast::TocEntryV| t.id)
}

/// The problems of every link on a page, in document order. The page's anchors
/// are its table of contents entries; `routes` are the site's routes.
pub fn page_problems(page: &Page, routes: &Vec<String>, has_landing: bool) -> (r: Vec<LinkProblem>)
    ensures
        problems_view(r@) == problems_of(
            links_nodes(nodes_view(page.doc.nodes@)),
            anchors_of(*page),
            routes_view(routes@),
            has_landing,
        ),
{
    let mut anchors: Vec<String> = Vec::new();
    let mut t: usize = 0;
    while t < page.doc.toc.len()
        invariant
            t <= page.doc.toc@.len(),
            routes_view(anchors@) == anchors_of(*page).take(t as int),
        decreases page.doc.toc.len() - t,
    {
        let ghost before = anchors@;
        anchors.push(page.doc.toc[t].id.clone());
        proof {
            assert(routes_view(anchors@) =~= routes_view(before).push(page.doc.toc@[t as int].id@));
            assert(anchors_of(*page).take(t + 1) =~= anchors_of(*page).take(t as int).push(
                page.doc.toc@[t as int].id@,
            ));
        }
        t += 1;
    }
    proof {
        assert(anchors_of(*page).take(t as int) =~= anchors_of(*page));
    }
    let mut links: Vec<String> = Vec::new();
    collect_links(page.doc.nodes.as_slice(), &mut links);
    proof {
        assert(routes_view(links@) =~= links_nodes(nodes_view(page.doc.nodes@)));
    }
    let ghost ls = links_nodes(nodes_view(page.doc.nodes@));
    let ghost av = anchors_of(*page);
    let mut out: Vec<LinkProblem> = Vec::new();
    let mut i: usize = 0;
    proof {
        assert(ls.take(0) =~= Seq::<Seq<char>>::empty());
        assert(problems_view(out@) =~= Seq::<LinkProblemV>::empty());
    }
    while i < links.len()
        invariant
            i <= links@.len(),
            routes_view(links@) == ls,
            routes_view(anchors@) == av,
            problems_view(out@) == problems_of(ls.take(i as int), av, routes_view(routes@), has_landing),
        decreases links.len() - i,
    {
        proof {
            assert(ls.take(i + 1).drop_last() =~= ls.take(i as int));
            assert(ls.take(i + 1).last() == links@[i as int]@);
        }
        match link_problem(links[i].as_str(), &anchors, routes, has_landing) {
            Some(p) => {
                let ghost before = out@;
                out.push(p);
                proof {
                    assert(problems_view(out@) =~= problems_view(before).push(problem_view(p)));
                }
            },
            None => {},
        }
        i += 1;
    }
    proof {
        assert(ls.take(i as int) =~= ls);
    }
    out
}

/// The route of every page of the site.
pub fn site_routes(site: &crate::site::Site) -> (r: Vec<String>)
    ensures
        routes_view(r@) == site.pages@.map_values(|p: Page| p.route@),
{
    let mut out: Vec<String> = Vec::new();
    let mut i: usize = 0;
    while i < site.pages.len()
        invariant
            i <= site.pages@.len(),
            routes_view(out@) == site.pages@.take(i as int).map_values(|p: Page| p.route@),
        decreases site.pages.len() - i,
    {
        let ghost before = out@;
        out.push(site.pages[i].route.clone());
        proof {
            assert(routes_view(out@) =~= routes_view(before).push(site.pages@[i as int].route@));
            assert(site.pages@.take(i + 1).map_values(|p: Page| p.route@) =~= site.pages@.take(
                i as int,
            ).map_values(|p: Page| p.route@).push(site.pages@[i as int].route@));
        }
        i += 1;
    }
    proof {
        assert(site.pages@.take(i as int) =~= site.pages@);
    }
    out
}

} // verus!
