//! Turns a docs directory into routes and a sidebar.
use vstd::prelude::*;
use crate::text::{
    char_is_alphanumeric, char_is_numeric, char_uppercase, chars_of, extend_range, is_alphanumeric,
    is_numeric, string_of, to_uppercase, has_prefix, find_char,
};
use crate::ast::{opt_view, title_of, Document, Frontmatter, NodeV, nodes_view};
use crate::parser::{body_state, drafted, parsed_from, ParseError};
use crate::config::{strip_end, ExPathBuf};
use crate::lang::{Language, LanguageV, languages_view};
use crate::highlight::Highlighter;
use crate::links::{relink_nodes, relinked_nodes, routes_view};
use crate::colour::{fill_nodes, nodes_stall};
use std::path::PathBuf;

verus! {

// ---------------------------------------------------------------------------
// Words, titles and identifiers
// ---------------------------------------------------------------------------

/// The characters a name is split on: `-` and `_` in a file name, and `/` and `.`
/// as well in a route.
pub open spec fn is_break(c: char, route: bool) -> bool {
    c == '-' || c == '_' || (route && (c == '/' || c == '.'))
}

/// Where the word starting at `i` ends: the next break, or the end.
pub open spec fn word_end(s: Seq<char>, i: int, route: bool) -> int
    decreases s.len() - i,
{
    if 0 <= i < s.len() && !is_break(s[i], route) {
        word_end(s, i + 1, route)
    } else {
        i
    }
}

/// The non-empty pieces of `s[i..]` between breaks, in order.
pub open spec fn words_from(s: Seq<char>, i: int, route: bool) -> Seq<Seq<char>>
    decreases s.len() - i,
{
    if i < 0 || i >= s.len() {
        Seq::empty()
    } else if is_break(s[i], route) {
        words_from(s, i + 1, route)
    } else {
        let e = word_end(s, i, route);
        if e <= i || e > s.len() {
            Seq::empty()
        } else {
            seq![s.subrange(i, e)] + words_from(s, e, route)
        }
    }
}

/// A word with its first character upper-cased (`char::to_uppercase`).
pub open spec fn capitalized(w: Seq<char>) -> Seq<char> {
    if w.len() == 0 {
        w
    } else {
        char_uppercase(w[0]) + w.drop_first()
    }
}

/// The words capitalized and joined with `sep`.
pub open spec fn join_capitalized(ws: Seq<Seq<char>>, sep: Seq<char>) -> Seq<char>
    decreases ws.len(),
{
    if ws.len() == 0 {
        Seq::empty()
    } else if ws.len() == 1 {
        capitalized(ws[0])
    } else {
        join_capitalized(ws.drop_last(), sep) + sep + capitalized(ws.last())
    }
}

/// `getting-started` -> `Getting Started`.
pub open spec fn titleize_spec(name: Seq<char>) -> Seq<char> {
    join_capitalized(words_from(name, 0, false), seq![' '])
}

/// The characters of `s` that are alphanumeric.
pub open spec fn alphanumerics(s: Seq<char>) -> Seq<char>
    decreases s.len(),
{
    if s.len() == 0 {
        s
    } else if char_is_alphanumeric(s.last()) {
        alphanumerics(s.drop_last()).push(s.last())
    } else {
        alphanumerics(s.drop_last())
    }
}

/// `/getting-started/installation` -> `GettingStartedInstallation`: the route's
/// words capitalized and run together, keeping only alphanumerics; `Home` when
/// nothing is left, and a `Page` prefix when it would start with a digit.
pub open spec fn route_ident_spec(route: Seq<char>) -> Seq<char> {
    let ident = alphanumerics(join_capitalized(words_from(route, 0, true), Seq::empty()));
    if ident.len() == 0 {
        seq!['H', 'o', 'm', 'e']
    } else if char_is_numeric(ident[0]) {
        seq!['P', 'a', 'g', 'e'] + ident
    } else {
        ident
    }
}

proof fn lemma_word_end(s: Seq<char>, i: int, route: bool)
    requires
        0 <= i <= s.len(),
    ensures
        i <= word_end(s, i, route) <= s.len(),
        word_end(s, i, route) < s.len() ==> is_break(s[word_end(s, i, route)], route),
    decreases s.len() - i,
{
    if i < s.len() && !is_break(s[i], route) {
        lemma_word_end(s, i + 1, route);
    }
}

proof fn lemma_join_push(ws: Seq<Seq<char>>, w: Seq<char>, sep: Seq<char>)
    ensures
        join_capitalized(ws.push(w), sep) == if ws.len() == 0 {
            capitalized(w)
        } else {
            join_capitalized(ws, sep) + sep + capitalized(w)
        },
{
    assert(ws.push(w).drop_last() =~= ws);
    if ws.len() == 0 {
        assert(ws.push(w)[0] == w);
    }
}

/// Appends `capitalized(v[lo..hi])` to `out`.
fn push_capitalized(out: &mut Vec<char>, v: &Vec<char>, lo: usize, hi: usize)
    requires
        lo < hi <= v.len(),
    ensures
        final(out)@ == old(out)@ + capitalized(v@.subrange(lo as int, hi as int)),
{
    let up = to_uppercase(v[lo]);
    let mut k: usize = 0;
    let ghost start = out@;
    while k < up.len()
        invariant
            0 <= k <= up@.len(),
            out@ == start + up@.subrange(0, k as int),
        decreases up.len() - k,
    {
        out.push(up[k]);
        k += 1;
        proof {
            assert(out@ =~= start + up@.subrange(0, k as int));
        }
    }
    extend_range(out, v, lo + 1, hi);
    proof {
        let w = v@.subrange(lo as int, hi as int);
        assert(up@.subrange(0, k as int) =~= up@);
        assert(w.drop_first() =~= v@.subrange(lo + 1, hi as int));
        assert(out@ =~= start + (char_uppercase(w[0]) + w.drop_first()));
    }
}

/// The words of `v` capitalized and joined with `sep` (`None` for no separator).
fn join_words(v: &Vec<char>, route: bool, sep: Option<char>) -> (r: Vec<char>)
    ensures
        r@ == join_capitalized(
            words_from(v@, 0, route),
            match sep {
                Some(c) => seq![c],
                None => Seq::empty(),
            },
        ),
{
    let ghost sp: Seq<char> = match sep {
        Some(c) => seq![c],
        None => Seq::empty(),
    };
    let mut out: Vec<char> = Vec::new();
    let ghost mut ws: Seq<Seq<char>> = Seq::empty();
    let mut any = false;
    let mut i: usize = 0;
    while i < v.len()
        invariant
            0 <= i <= v@.len(),
            words_from(v@, 0, route) == ws + words_from(v@, i as int, route),
            out@ == join_capitalized(ws, sp),
            any == (ws.len() > 0),
            sp == match sep {
                Some(c) => seq![c],
                None => Seq::<char>::empty(),
            },
        decreases v.len() - i,
    {
        let c = v[i];
        if c == '-' || c == '_' || (route && (c == '/' || c == '.')) {
            i += 1;
        } else {
            let mut e = i + 1;
            proof {
                lemma_word_end(v@, i as int, route);
            }
            while e < v.len() && !(v[e] == '-' || v[e] == '_' || (route && (v[e] == '/' || v[e]
                == '.')))
                invariant
                    i < e <= v@.len(),
                    word_end(v@, e as int, route) == word_end(v@, i as int, route),
                decreases v.len() - e,
            {
                e += 1;
            }
            proof {
                lemma_join_push(ws, v@.subrange(i as int, e as int), sp);
                assert(words_from(v@, i as int, route) == seq![v@.subrange(i as int, e as int)]
                    + words_from(v@, e as int, route));
                assert(ws + words_from(v@, i as int, route) =~= ws.push(
                    v@.subrange(i as int, e as int),
                ) + words_from(v@, e as int, route));
            }
            if any {
                match sep {
                    Some(c) => out.push(c),
                    None => {},
                }
            }
            push_capitalized(&mut out, v, i, e);
            any = true;
            proof {
                ws = ws.push(v@.subrange(i as int, e as int));
            }
            i = e;
        }
    }
    proof {
        assert(ws + Seq::<Seq<char>>::empty() =~= ws);
    }
    out
}

/// `getting-started` -> `Getting Started`.
pub fn titleize(name: &str) -> (r: String)
    ensures
        r@ == titleize_spec(name@),
{
    let v = chars_of(name);
    let out = join_words(&v, false, Some(' '));
    string_of(&out)
}

/// `/getting-started/installation` -> `GettingStartedInstallation`.
pub fn route_ident(route: &str) -> (r: String)
    ensures
        r@ == route_ident_spec(route@),
{
    let v = chars_of(route);
    let joined = join_words(&v, true, None);
    let mut ident: Vec<char> = Vec::new();
    let mut k: usize = 0;
    while k < joined.len()
        invariant
            0 <= k <= joined@.len(),
            ident@ == alphanumerics(joined@.subrange(0, k as int)),
        decreases joined.len() - k,
    {
        proof {
            assert(joined@.subrange(0, k + 1).drop_last() =~= joined@.subrange(0, k as int));
        }
        if is_alphanumeric(joined[k]) {
            ident.push(joined[k]);
        }
        k += 1;
    }
    proof {
        assert(joined@.subrange(0, k as int) =~= joined@);
    }
    if ident.len() == 0 {
        proof {
            reveal_strlit("Home");
        }
        return "Home".to_string();
    }
    if is_numeric(ident[0]) {
        let mut out: Vec<char> = Vec::new();
        out.push('P');
        out.push('a');
        out.push('g');
        out.push('e');
        extend_range(&mut out, &ident, 0, ident.len());
        proof {
            assert(ident@.subrange(0, ident@.len() as int) =~= ident@);
            assert(out@ =~= seq!['P', 'a', 'g', 'e'] + ident@);
        }
        return string_of(&out);
    }
    string_of(&ident)
}


// ---------------------------------------------------------------------------
// Pages, the sidebar and the site
// ---------------------------------------------------------------------------

#[derive(Debug)]
pub struct Page {
    /// URL path, always leading-slashed: `/`, `/guides/deploy`.
    pub route: String,
    /// Rust identifier for the generated `Route` variant.
    pub ident: String,
    pub file: PathBuf,
    pub title: String,
    pub description: Option<String>,
    pub hidden: bool,
    pub doc: Document,
}

#[derive(Debug)]
pub enum SidebarNode {
    Link { title: String, route: String },
    Group {
        title: String,
        /// Set when the directory has an `index.md` of its own.
        route: Option<String>,
        items: Vec<SidebarNode>,
    },
}

#[derive(Debug)]
pub struct Site {
    pub pages: Vec<Page>,
    pub sidebar: Vec<SidebarNode>,
}

/// One markdown file of the docs directory: its name without `.md`, its path
/// relative to the docs root, its decoded frontmatter and its body.
#[derive(Debug)]
pub struct PageSource {
    pub stem: String,
    pub file: PathBuf,
    pub frontmatter: Frontmatter,
    pub body: String,
}

/// An entry of a docs directory, in the order the directory lists them; names
/// that `skipped` refuses and files that are not markdown are left out.
#[derive(Debug)]
pub enum SourceEntry {
    Page(PageSource),
    Dir { name: String, entries: Vec<SourceEntry> },
}

/// Why a docs directory could not be loaded.
#[derive(Debug)]
pub enum SiteError {
    /// The directory holds no markdown file.
    Empty,
    /// A page could not be parsed.
    Parse { file: PathBuf, error: ParseError },
}

pub enum SidebarV {
    Link { title: Seq<char>, route: Seq<char> },
    Group { title: Seq<char>, route: Option<Seq<char>>, items: Seq<SidebarV> },
}

pub open spec fn sidebars_view(s: Seq<SidebarNode>) -> Seq<SidebarV>
    decreases s,
{
    if s.len() == 0 {
        Seq::empty()
    } else {
        sidebars_view(s.drop_last()).push(sidebar_view(s.last()))
    }
}

pub open spec fn sidebar_view(n: SidebarNode) -> SidebarV
    decreases n,
{
    match n {
        SidebarNode::Link { title, route } => SidebarV::Link { title: title@, route: route@ },
        SidebarNode::Group { title, route, items } => SidebarV::Group {
            title: title@,
            route: opt_view(route),
            items: sidebars_view(items@),
        },
    }
}

/// Names the walk passes over: hidden files and directories, and those starting
/// with `_`.
pub open spec fn is_skipped(name: Seq<char>) -> bool {
    name.len() > 0 && (name[0] == '.' || name[0] == '_')
}

/// The stem of a markdown file name: the name without its `.md` extension.
pub open spec fn md_stem(name: Seq<char>) -> Option<Seq<char>> {
    if name.len() > 3 && name[0] != '.' && name.subrange(name.len() - 3, name.len() as int)
        == seq!['.', 'm', 'd'] {
        Some(name.subrange(0, name.len() - 3))
    } else {
        None
    }
}

/// An `index.md` takes its directory's own path; at the docs root that may be `/`.
pub open spec fn index_route(prefix: Seq<char>) -> Seq<char> {
    if prefix.len() == 0 {
        seq!['/']
    } else {
        prefix
    }
}

pub open spec fn index_word() -> Seq<char> {
    seq!['i', 'n', 'd', 'e', 'x']
}

/// The route of a page with this stem in the directory at `prefix`.
pub open spec fn page_route(prefix: Seq<char>, stem: Seq<char>) -> Seq<char> {
    if stem == index_word() {
        index_route(prefix)
    } else {
        prefix + seq!['/'] + stem
    }
}

/// A page as the walk sees it: its route and where it came from.
pub struct PageKey {
    pub route: Seq<char>,
    pub src: PageSource,
}

/// A page's title: its frontmatter title, else its first `#` heading, else its
/// file name titleized.
pub open spec fn key_title(k: PageKey) -> Seq<char> {
    title_of(
        opt_view(k.src.frontmatter.title),
        body_state(k.src.body@).first_heading,
        titleize_spec(k.src.stem@),
    )
}

/// The pages of one directory's own files, in order.
pub open spec fn files_of(es: Seq<SourceEntry>, prefix: Seq<char>) -> Seq<PageKey>
    decreases es.len(),
{
    if es.len() == 0 {
        Seq::empty()
    } else {
        let f = files_of(es.drop_last(), prefix);
        match es.last() {
            SourceEntry::Page(p) => f.push(PageKey { route: page_route(prefix, p.stem@), src: p }),
            SourceEntry::Dir { .. } => f,
        }
    }
}

/// The first page of `ps` with this route.
pub open spec fn first_with_route(ps: Seq<PageKey>, route: Seq<char>, k: int) -> Option<PageKey>
    decreases ps.len() - k,
{
    if k < 0 || k >= ps.len() {
        None
    } else if ps[k].route == route {
        Some(ps[k])
    } else {
        first_with_route(ps, route, k + 1)
    }
}

/// A sidebar entry with what it is sorted by: an explicit order, then a title.
pub type Keyed = (Option<i64>, Seq<char>, SidebarV);

/// The sidebar links of a directory's own pages: not hidden, not its index.
pub open spec fn file_links(fs: Seq<PageKey>, index: Seq<char>) -> Seq<Keyed>
    decreases fs.len(),
{
    if fs.len() == 0 {
        Seq::empty()
    } else {
        let rest = file_links(fs.drop_last(), index);
        let k = fs.last();
        if k.src.frontmatter.hidden || k.route == index {
            rest
        } else {
            rest.push(
                (
                    k.src.frontmatter.order,
                    key_title(k),
                    SidebarV::Link { title: key_title(k), route: k.route },
                ),
            )
        }
    }
}

/// `a` strictly before `b` in code point order (`str`'s `Ord`).
pub open spec fn lex_lt(a: Seq<char>, b: Seq<char>) -> bool
    decreases a.len(),
{
    if b.len() == 0 {
        false
    } else if a.len() == 0 {
        true
    } else if a[0] != b[0] {
        (a[0] as u32) < (b[0] as u32)
    } else {
        lex_lt(a.drop_first(), b.drop_first())
    }
}

/// Whether `a` sorts strictly before `b`: entries with an order come first, by
/// order and then title; the rest by title.
pub open spec fn sorts_before(a: (Option<i64>, Seq<char>), b: (Option<i64>, Seq<char>)) -> bool {
    match (a.0, b.0) {
        (Some(x), Some(y)) => x < y || (x == y && lex_lt(a.1, b.1)),
        (Some(_), None) => true,
        (None, Some(_)) => false,
        (None, None) => lex_lt(a.1, b.1),
    }
}

/// Where `x` goes in `sorted`: before the first entry it sorts before.
pub open spec fn insert_at(sorted: Seq<Keyed>, x: Keyed, k: int) -> int
    decreases sorted.len() - k,
{
    if k < 0 || k >= sorted.len() {
        sorted.len() as int
    } else if sorts_before((x.0, x.1), (sorted[k].0, sorted[k].1)) {
        k
    } else {
        insert_at(sorted, x, k + 1)
    }
}

/// A stable sort: each entry in turn goes after every entry it does not sort
/// before.
pub open spec fn sort_keyed(s: Seq<Keyed>) -> Seq<Keyed>
    decreases s.len(),
{
    if s.len() == 0 {
        s
    } else {
        let sorted = sort_keyed(s.drop_last());
        sorted.insert(insert_at(sorted, s.last(), 0), s.last())
    }
}

pub open spec fn unkeyed(s: Seq<Keyed>) -> Seq<SidebarV> {
    s.map_values(|k: Keyed| k.2)
}

/// At the docs root, a link to its index page heads the sidebar, unless hidden.
pub open spec fn root_head(files: Seq<PageKey>, index: Seq<char>, is_root: bool) -> Seq<SidebarV> {
    if is_root {
        match first_with_route(files, index, 0) {
            Some(k) => if k.src.frontmatter.hidden {
                Seq::empty()
            } else {
                seq![SidebarV::Link { title: key_title(k), route: index }]
            },
            None => Seq::empty(),
        }
    } else {
        Seq::empty()
    }
}

/// The group entry of a subdirectory at `child` whose walk yielded `items`: titled
/// and routed by its index page when it has one, else by its name titleized.
pub open spec fn dir_group(after: Seq<PageKey>, child: Seq<char>, name: Seq<char>, items: Seq<SidebarV>) -> Keyed {
    match first_with_route(after, child, 0) {
        Some(k) => (
            k.src.frontmatter.order,
            key_title(k),
            SidebarV::Group { title: key_title(k), route: Some(k.route), items },
        ),
        None => (None, Seq::empty(), SidebarV::Group { title: titleize_spec(name), route: None, items }),
    }
}

/// The walk over a directory listing at `prefix`: the sidebar entries it yields,
/// and the pages known once it is done (those known before, then those of its
/// subdirectories, then its own files).
pub open spec fn walk(es: Seq<SourceEntry>, base: Seq<char>, prefix: Seq<char>, pages: Seq<PageKey>) -> (
    Seq<SidebarV>,
    Seq<PageKey>,
)
    decreases es, 1int,
{
    let files = files_of(es, prefix);
    let index = index_route(prefix);
    let (groups, after) = walk_dirs(es, base, prefix, pages);
    let nodes = unkeyed(sort_keyed(file_links(files, index) + groups));
    let result = root_head(files, index, prefix == base) + nodes;
    (result, after + files)
}

/// The group entries of a listing's subdirectories, in order, and the pages
/// known after walking them.
pub open spec fn walk_dirs(es: Seq<SourceEntry>, base: Seq<char>, prefix: Seq<char>, pages: Seq<PageKey>) -> (
    Seq<Keyed>,
    Seq<PageKey>,
)
    decreases es, 0int,
{
    if es.len() == 0 {
        (Seq::empty(), pages)
    } else {
        let (groups, known) = walk_dirs(es.drop_last(), base, prefix, pages);
        match es.last() {
            SourceEntry::Page(_) => (groups, known),
            SourceEntry::Dir { name, entries } => {
                let child = prefix + seq!['/'] + name@;
                proof {
                    assert(decreases_to!(es => es[es.len() - 1]));
                }
                let (items, after) = walk(entries@, base, child, known);
                if items.len() == 0 {
                    (groups, after)
                } else {
                    (groups.push(dir_group(after, child, name@, items)), after)
                }
            },
        }
    }
}


// ---------------------------------------------------------------------------
// What the walk makes of each page
// ---------------------------------------------------------------------------

/// A page built from its source at this route, parsed up to colouring.
pub open spec fn page_drafted(page: Page, k: PageKey) -> bool {
    &&& page.route@ == k.route
    &&& page.ident@ == route_ident_spec(k.route)
    &&& page.title@ == key_title(k)
    &&& page.hidden == k.src.frontmatter.hidden
    &&& page.file == k.src.file
    &&& opt_view(page.description) == opt_view(k.src.frontmatter.description)
    &&& drafted(k.src.frontmatter, k.src.body@, page.doc)
}

pub open spec fn routes_match(ps: Seq<Page>, ks: Seq<PageKey>) -> bool {
    &&& ps.len() == ks.len()
    &&& forall|i: int| 0 <= i < ps.len() ==> (#[trigger] ps[i]).route@ == ks[i].route
}

pub open spec fn pages_drafted(ps: Seq<Page>, ks: Seq<PageKey>) -> bool {
    &&& ps.len() == ks.len()
    &&& forall|i: int| 0 <= i < ps.len() ==> page_drafted(#[trigger] ps[i], ks[i])
}

/// The page's task list items overflow a `u32`.
pub open spec fn too_many_tasks(k: PageKey) -> bool {
    crate::ast::nodes_tasks(crate::parser::built_nodes(body_state(k.src.body@))).1 > u32::MAX
}

/// `e` reports a page of `ks` whose tasks overflow.
pub open spec fn draft_error(ks: Seq<PageKey>, e: SiteError) -> bool {
    e matches SiteError::Parse { file, error } && error == ParseError::TooManyTasks && exists|
        i: int,
    | 0 <= i < ks.len() && (#[trigger] ks[i]).src.file == file && too_many_tasks(ks[i])
}

proof fn lemma_files_prefix(es: Seq<SourceEntry>, prefix: Seq<char>, j: int)
    requires
        0 <= j <= es.len(),
    ensures
        files_of(es.take(j), prefix).len() <= files_of(es, prefix).len(),
        files_of(es, prefix).take(files_of(es.take(j), prefix).len() as int) == files_of(
            es.take(j),
            prefix,
        ),
    decreases es.len() - j,
{
    if j < es.len() {
        lemma_files_prefix(es, prefix, j + 1);
        assert(es.take(j + 1).drop_last() =~= es.take(j));
        let a = files_of(es.take(j), prefix);
        let b = files_of(es.take(j + 1), prefix);
        assert(b.take(a.len() as int) =~= a);
        assert(files_of(es, prefix).take(a.len() as int) =~= files_of(es, prefix).take(
            b.len() as int,
        ).take(a.len() as int));
    } else {
        assert(es.take(j) =~= es);
        assert(files_of(es, prefix).take(files_of(es, prefix).len() as int) =~= files_of(es, prefix));
    }
}

proof fn lemma_walk_grows(es: Seq<SourceEntry>, base: Seq<char>, prefix: Seq<char>, known: Seq<PageKey>)
    ensures
        walk(es, base, prefix, known).1.len() >= known.len(),
        walk(es, base, prefix, known).1.take(known.len() as int) == known,
    decreases es, 1int,
{
    lemma_walk_dirs_grows(es, base, prefix, known);
    let a = walk_dirs(es, base, prefix, known).1;
    let f = files_of(es, prefix);
    assert((a + f).take(known.len() as int) =~= a.take(known.len() as int));
}

proof fn lemma_walk_dirs_grows(
    es: Seq<SourceEntry>,
    base: Seq<char>,
    prefix: Seq<char>,
    known: Seq<PageKey>,
)
    ensures
        walk_dirs(es, base, prefix, known).1.len() >= known.len(),
        walk_dirs(es, base, prefix, known).1.take(known.len() as int) == known,
    decreases es, 0int,
{
    if es.len() == 0 {
        assert(known.take(known.len() as int) =~= known);
    } else {
        lemma_walk_dirs_grows(es.drop_last(), base, prefix, known);
        let mid = walk_dirs(es.drop_last(), base, prefix, known).1;
        match es.last() {
            SourceEntry::Page(_) => {},
            SourceEntry::Dir { name, entries } => {
                assert(decreases_to!(es => es[es.len() - 1]));
                let child = prefix + seq!['/'] + name@;
                lemma_walk_grows(entries@, base, child, mid);
                let after = walk(entries@, base, child, mid).1;
                assert(after.take(known.len() as int) =~= after.take(mid.len() as int).take(
                    known.len() as int,
                ));
            },
        }
    }
}

/// The pages known after walking the first `j` entries' subdirectories come
/// first among those known after walking them all.
proof fn lemma_walk_dirs_prefix(
    es: Seq<SourceEntry>,
    base: Seq<char>,
    prefix: Seq<char>,
    known: Seq<PageKey>,
    j: int,
)
    requires
        0 <= j <= es.len(),
    ensures
        walk_dirs(es.take(j), base, prefix, known).1.len() <= walk_dirs(es, base, prefix, known).1.len(),
        walk_dirs(es, base, prefix, known).1.take(
            walk_dirs(es.take(j), base, prefix, known).1.len() as int,
        ) == walk_dirs(es.take(j), base, prefix, known).1,
    decreases es.len() - j,
{
    if j < es.len() {
        lemma_walk_dirs_prefix(es, base, prefix, known, j + 1);
        let t = es.take(j + 1);
        assert(t.drop_last() =~= es.take(j));
        let a = walk_dirs(es.take(j), base, prefix, known).1;
        let b = walk_dirs(t, base, prefix, known).1;
        match t.last() {
            SourceEntry::Page(_) => {},
            SourceEntry::Dir { name, entries } => {
                lemma_walk_grows(entries@, base, prefix + seq!['/'] + name@, a);
            },
        }
        assert(b.len() >= a.len());
        assert(b.take(a.len() as int) == a);
        let all = walk_dirs(es, base, prefix, known).1;
        assert(all.take(a.len() as int) =~= all.take(b.len() as int).take(a.len() as int));
    } else {
        assert(es.take(j) =~= es);
        let all = walk_dirs(es, base, prefix, known).1;
        assert(all.take(all.len() as int) =~= all);
    }
}


// ---------------------------------------------------------------------------
// Building pages
// ---------------------------------------------------------------------------

fn clone_opt(o: &Option<String>) -> (r: Option<String>)
    ensures
        opt_view(r) == opt_view(*o),
{
    match o {
        Some(s) => Some(s.clone()),
        None => None,
    }
}

/// Parses one source at its route into a page, up to colouring.
fn make_page(src: PageSource, route: String) -> (r: Result<Page, SiteError>)
    ensures
        match r {
            Ok(page) => page_drafted(page, PageKey { route: route@, src }),
            Err(e) => draft_error(seq![PageKey { route: route@, src }], e),
        },
{
    let ghost key = PageKey { route: route@, src };
    let fallback = titleize(src.stem.as_str());
    let description = clone_opt(&src.frontmatter.description);
    let hidden = src.frontmatter.hidden;
    let doc = match crate::parser::draft(src.frontmatter, src.body.as_str()) {
        Ok(doc) => doc,
        Err(error) => {
            let e = SiteError::Parse { file: src.file, error };
            proof {
                assert(seq![key][0] == key);
            }
            return Err(e);
        },
    };
    let title = doc.title(fallback.as_str()).to_string();
    let ident = route_ident(route.as_str());
    Ok(Page { route, ident, file: src.file, title, description, hidden, doc })
}


// ---------------------------------------------------------------------------
// Sorting sidebar entries
// ---------------------------------------------------------------------------

pub open spec fn keyed_view(k: (Option<i64>, String, SidebarNode)) -> Keyed {
    (k.0, k.1@, sidebar_view(k.2))
}

pub open spec fn keyeds_view(s: Seq<(Option<i64>, String, SidebarNode)>) -> Seq<Keyed> {
    s.map_values(|k: (Option<i64>, String, SidebarNode)| keyed_view(k))
}

fn lex_less(a: &Vec<char>, b: &Vec<char>) -> (r: bool)
    ensures
        r == lex_lt(a@, b@),
{
    let mut i: usize = 0;
    proof {
        assert(a@.skip(0) =~= a@);
        assert(b@.skip(0) =~= b@);
    }
    while i < a.len() && i < b.len() && a[i] == b[i]
        invariant
            i <= a@.len(),
            i <= b@.len(),
            lex_lt(a@, b@) == lex_lt(a@.skip(i as int), b@.skip(i as int)),
        decreases a.len() - i,
    {
        proof {
            assert(a@.skip(i as int).drop_first() =~= a@.skip(i + 1));
            assert(b@.skip(i as int).drop_first() =~= b@.skip(i + 1));
        }
        i += 1;
    }
    if i == b.len() {
        false
    } else if i == a.len() {
        true
    } else {
        (a[i] as u32) < (b[i] as u32)
    }
}

fn sorts_before_exec(x: &(Option<i64>, String, SidebarNode), y: &(Option<i64>, String, SidebarNode)) -> (r: bool)
    ensures
        r == sorts_before((x.0, x.1@), (y.0, y.1@)),
{
    let a = chars_of(x.1.as_str());
    let b = chars_of(y.1.as_str());
    match (x.0, y.0) {
        (Some(p), Some(q)) => p < q || (p == q && lex_less(&a, &b)),
        (Some(_), None) => true,
        (None, Some(_)) => false,
        (None, None) => lex_less(&a, &b),
    }
}

/// A stable sort of sidebar entries by order, then title.
fn sort_entries(v: Vec<(Option<i64>, String, SidebarNode)>) -> (r: Vec<(Option<i64>, String, SidebarNode)>)
    ensures
        keyeds_view(r@) == sort_keyed(keyeds_view(v@)),
{
    let ghost vs = keyeds_view(v@);
    let ghost v0 = v@;
    let mut sorted: Vec<(Option<i64>, String, SidebarNode)> = Vec::new();
    proof {
        assert(vs.take(0) =~= Seq::<Keyed>::empty());
        assert(keyeds_view(sorted@) =~= Seq::<Keyed>::empty());
    }
    for x in it: v.into_iter()
        invariant
            it.seq() == v0,
            vs == keyeds_view(v0),
            keyeds_view(sorted@) == sort_keyed(vs.take(it.index() as int)),
    {
        let ghost i = it.index() as int;
        let ghost sv = keyeds_view(sorted@);
        let mut k: usize = 0;
        while k < sorted.len() && !sorts_before_exec(&x, &sorted[k])
            invariant
                k <= sorted@.len(),
                sv == keyeds_view(sorted@),
                keyed_view(x) == vs[i],
                insert_at(sv, vs[i], k as int) == insert_at(sv, vs[i], 0),
            decreases sorted.len() - k,
        {
            k += 1;
        }
        proof {
            assert(vs.take(i + 1).drop_last() =~= vs.take(i));
            assert(vs.take(i + 1).last() == vs[i]);
        }
        sorted.insert(k, x);
        proof {
            assert(keyeds_view(sorted@) =~= sv.insert(k as int, vs[i]));
        }
    }
    proof {
        assert(vs.take(vs.len() as int) =~= vs);
    }
    sorted
}


// ---------------------------------------------------------------------------
// The walk
// ---------------------------------------------------------------------------

proof fn lemma_sidebars_view_push(s: Seq<SidebarNode>, n: SidebarNode)
    ensures
        sidebars_view(s.push(n)) == sidebars_view(s).push(sidebar_view(n)),
{
    assert(s.push(n).drop_last() =~= s);
}

proof fn lemma_error_in_prefix(small: Seq<PageKey>, big: Seq<PageKey>, e: SiteError)
    requires
        big.len() >= small.len(),
        big.take(small.len() as int) == small,
        draft_error(small, e),
    ensures
        draft_error(big, e),
{
    let i = choose|i: int|
        0 <= i < small.len() && (#[trigger] small[i]).src.file == e->file && too_many_tasks(
            small[i],
        );
    assert(big.take(small.len() as int)[i] == big[i]);
    assert(big[i] == small[i]);
}

fn concat3(a: &str, sep: char, b: &str) -> (r: String)
    ensures
        r@ == a@ + seq![sep] + b@,
{
    let mut v: Vec<char> = Vec::new();
    crate::text::extend_str(&mut v, a);
    v.push(sep);
    crate::text::extend_str(&mut v, b);
    proof {
        assert(v@ =~= a@ + seq![sep] + b@);
    }
    string_of(&v)
}

fn index_route_of(prefix: &String) -> (r: String)
    ensures
        r@ == index_route(prefix@),
{
    if prefix.as_str().unicode_len() == 0 {
        proof {
            reveal_strlit("/");
        }
        "/".to_string()
    } else {
        prefix.clone()
    }
}

fn page_route_of(prefix: &String, stem: &String) -> (r: String)
    ensures
        r@ == page_route(prefix@, stem@),
{
    proof {
        reveal_strlit("index");
        assert("index"@ =~= index_word());
    }
    if crate::text::str_eq(stem.as_str(), "index") {
        index_route_of(prefix)
    } else {
        concat3(prefix.as_str(), '/', stem.as_str())
    }
}

/// The first page with this route.
fn find_page(pages: &Vec<Page>, route: &String, Ghost(keys): Ghost<Seq<PageKey>>) -> (r: Option<usize>)
    requires
        pages_drafted(pages@, keys),
    ensures
        match r {
            Some(j) => j < pages@.len() && first_with_route(keys, route@, 0) == Some(keys[j as int]),
            None => first_with_route(keys, route@, 0) is None,
        },
{
    let mut j: usize = 0;
    while j < pages.len()
        invariant
            j <= pages@.len(),
            pages_drafted(pages@, keys),
            first_with_route(keys, route@, j as int) == first_with_route(keys, route@, 0),
        decreases pages.len() - j,
    {
        assert(page_drafted(pages@[j as int], keys[j as int]));
        if crate::text::str_eq(pages[j].route.as_str(), route.as_str()) {
            return Some(j);
        }
        j += 1;
    }
    None
}

/// Parses one page of a listing at `prefix` into `files`.
fn page_entry(src: PageSource, prefix: &String, files: &mut Vec<Page>, Ghost(fs): Ghost<Seq<PageKey>>) -> (r:
    Result<(), SiteError>)
    requires
        pages_drafted(old(files)@, fs),
    ensures
        match r {
            Ok(()) => pages_drafted(
                final(files)@,
                fs.push(PageKey { route: page_route(prefix@, src.stem@), src }),
            ),
            Err(e) => draft_error(seq![PageKey { route: page_route(prefix@, src.stem@), src }], e),
        },
{
    let route = page_route_of(prefix, &src.stem);
    let page = make_page(src, route)?;
    let ghost key = PageKey { route: page_route(prefix@, src.stem@), src };
    files.push(page);
    proof {
        assert forall|j: int| 0 <= j < files@.len() implies page_drafted(
            #[trigger] files@[j],
            fs.push(key)[j],
        ) by {
            if j < files@.len() - 1 {
                assert(files@[j] == old(files)@[j]);
            }
        }
    }
    Ok(())
}

/// Walks one subdirectory of a listing at `prefix`, adding its group entry (when
/// it has any entries) to `groups` and its pages to `pages`.
fn dir_entry(
    name: String,
    sub: Vec<SourceEntry>,
    base: &str,
    prefix: &String,
    pages: &mut Vec<Page>,
    groups: &mut Vec<(Option<i64>, String, SidebarNode)>,
    Ghost(known): Ghost<Seq<PageKey>>,
) -> (r: Result<(), SiteError>)
    requires
        pages_drafted(old(pages)@, known),
    ensures
        ({
            let child = prefix@ + seq!['/'] + name@;
            let (items, after) = walk(sub@, base@, child, known);
            match r {
                Ok(()) => pages_drafted(final(pages)@, after) && keyeds_view(final(groups)@) == if items.len()
                    == 0 {
                    keyeds_view(old(groups)@)
                } else {
                    keyeds_view(old(groups)@).push(dir_group(after, child, name@, items))
                },
                Err(e) => draft_error(after, e),
            }
        }),
    decreases sub@, 2int,
{
    let child = concat3(prefix.as_str(), '/', name.as_str());
    let items = walk_entries(sub, base, &child, pages, Ghost(known))?;
    if items.len() > 0 {
        let ghost after = walk(sub@, base@, child@, known).1;
        let g = find_page(pages, &child, Ghost(after));
        let entry = match g {
            Some(j) => {
                assert(page_drafted(pages@[j as int], after[j as int]));
                let t = pages[j].title.clone();
                (
                    pages[j].doc.frontmatter.order,
                    pages[j].title.clone(),
                    SidebarNode::Group { title: t, route: Some(pages[j].route.clone()), items },
                )
            },
            None => (None, String::new(), SidebarNode::Group {
                title: titleize(name.as_str()),
                route: None,
                items,
            }),
        };
        let ghost before = groups@;
        groups.push(entry);
        proof {
            assert(keyeds_view(groups@) =~= keyeds_view(before).push(keyed_view(entry)));
        }
    }
    Ok(())
}

/// The sidebar links of a listing's own pages.
fn own_links(files: &Vec<Page>, index: &String, Ghost(fs): Ghost<Seq<PageKey>>) -> (r: Vec<
    (Option<i64>, String, SidebarNode),
>)
    requires
        pages_drafted(files@, fs),
    ensures
        keyeds_view(r@) == file_links(fs, index@),
{
    let mut keyed: Vec<(Option<i64>, String, SidebarNode)> = Vec::new();
    let mut k: usize = 0;
    proof {
        assert(fs.take(0) =~= Seq::<PageKey>::empty());
        assert(keyeds_view(keyed@) =~= Seq::<Keyed>::empty());
    }
    while k < files.len()
        invariant
            k <= files@.len(),
            pages_drafted(files@, fs),
            keyeds_view(keyed@) == file_links(fs.take(k as int), index@),
        decreases files.len() - k,
    {
        assert(page_drafted(files@[k as int], fs[k as int]));
        proof {
            assert(fs.take(k + 1).drop_last() =~= fs.take(k as int));
            assert(fs.take(k + 1).last() == fs[k as int]);
        }
        if !files[k].hidden && !crate::text::str_eq(files[k].route.as_str(), index.as_str()) {
            let link = SidebarNode::Link { title: files[k].title.clone(), route: files[k].route.clone() };
            let entry = (files[k].doc.frontmatter.order, files[k].title.clone(), link);
            let ghost before = keyed@;
            keyed.push(entry);
            proof {
                assert(keyeds_view(keyed@) =~= keyeds_view(before).push(keyed_view(entry)));
            }
        }
        k += 1;
    }
    proof {
        assert(fs.take(k as int) =~= fs);
    }
    keyed
}

/// The link to the docs root's index that heads its sidebar, if any.
fn head_of(files: &Vec<Page>, index: &String, is_root: bool, Ghost(fs): Ghost<Seq<PageKey>>) -> (r: Vec<
    SidebarNode,
>)
    requires
        pages_drafted(files@, fs),
    ensures
        sidebars_view(r@) == root_head(fs, index@, is_root),
{
    let mut nodes: Vec<SidebarNode> = Vec::new();
    if !is_root {
        return nodes;
    }
    let mut f: usize = 0;
    while f < files.len()
        invariant
            f <= files@.len(),
            nodes@ == Seq::<SidebarNode>::empty(),
            is_root,
            pages_drafted(files@, fs),
            first_with_route(fs, index@, f as int) == first_with_route(fs, index@, 0),
        decreases files.len() - f,
    {
        assert(page_drafted(files@[f as int], fs[f as int]));
        if crate::text::str_eq(files[f].route.as_str(), index.as_str()) {
            if !files[f].hidden {
                let link = SidebarNode::Link { title: files[f].title.clone(), route: index.clone() };
                nodes.push(link);
                proof {
                    lemma_sidebars_view_push(Seq::empty(), link);
                    assert(Seq::<SidebarNode>::empty().push(link) =~= nodes@);
                }
            }
            return nodes;
        }
        f += 1;
    }
    nodes
}

/// `nodes` followed by the sorted entries without their keys.
fn unkey_into(nodes: Vec<SidebarNode>, sorted: Vec<(Option<i64>, String, SidebarNode)>) -> (r: Vec<
    SidebarNode,
>)
    ensures
        sidebars_view(r@) == sidebars_view(nodes@) + unkeyed(keyeds_view(sorted@)),
{
    let mut nodes = nodes;
    let ghost head = sidebars_view(nodes@);
    let ghost sv = unkeyed(keyeds_view(sorted@));
    let ghost s0 = sorted@;
    proof {
        assert(head + sv.take(0) =~= head);
    }
    for x in it: sorted.into_iter()
        invariant
            it.seq() == s0,
            sv == unkeyed(keyeds_view(s0)),
            sidebars_view(nodes@) == head + sv.take(it.index() as int),
    {
        let ghost n = it.index() as int;
        let node = x.2;
        proof {
            lemma_sidebars_view_push(nodes@, node);
            assert(sv[n] == sidebar_view(node));
            assert(head + sv.take(n + 1) =~= (head + sv.take(n)).push(sv[n]));
        }
        nodes.push(node);
    }
    proof {
        assert(sv.take(sv.len() as int) =~= sv);
    }
    nodes
}

proof fn lemma_page_error(
    es: Seq<SourceEntry>,
    base: Seq<char>,
    prefix: Seq<char>,
    known: Seq<PageKey>,
    i: int,
    key: PageKey,
    e: SiteError,
)
    requires
        0 <= i < es.len(),
        files_of(es.take(i + 1), prefix) == files_of(es.take(i), prefix).push(key),
        draft_error(seq![key], e),
    ensures
        draft_error(walk(es, base, prefix, known).1, e),
{
    let fs = files_of(es.take(i), prefix);
    lemma_files_prefix(es, prefix, i + 1);
    let all = walk(es, base, prefix, known).1;
    let d = walk_dirs(es, base, prefix, known).1;
    let m = (d.len() + fs.len()) as int;
    assert(files_of(es, prefix).take(fs.len() + 1 as int)[fs.len() as int] == key);
    assert(files_of(es, prefix)[fs.len() as int] == key);
    assert(all[m] == key);
    let ki = choose|j: int|
        0 <= j < 1 && (#[trigger] seq![key][j]).src.file == e->file && too_many_tasks(
            seq![key][j],
        );
    assert(seq![key][ki] == key);
    assert(all[m].src.file == e->file && too_many_tasks(all[m]));
}

proof fn lemma_dir_error(
    es: Seq<SourceEntry>,
    base: Seq<char>,
    prefix: Seq<char>,
    known: Seq<PageKey>,
    i: int,
    e: SiteError,
)
    requires
        0 <= i < es.len(),
        draft_error(walk_dirs(es.take(i + 1), base, prefix, known).1, e),
    ensures
        draft_error(walk(es, base, prefix, known).1, e),
{
    lemma_walk_dirs_prefix(es, base, prefix, known, i + 1);
    let d = walk_dirs(es, base, prefix, known).1;
    let small = walk_dirs(es.take(i + 1), base, prefix, known).1;
    lemma_error_in_prefix(small, d, e);
    let all = walk(es, base, prefix, known).1;
    assert(all.take(d.len() as int) =~= d);
    lemma_error_in_prefix(d, all, e);
}

/// Reads one directory listing at `prefix`, returning its sidebar entries and
/// appending its pages (those of its subdirectories, then its own).
#[verifier::rlimit(40)]
fn walk_entries(
    entries: Vec<SourceEntry>,
    base: &str,
    prefix: &String,
    pages: &mut Vec<Page>,
    Ghost(known): Ghost<Seq<PageKey>>,
) -> (r: Result<Vec<SidebarNode>, SiteError>)
    requires
        pages_drafted(old(pages)@, known),
    ensures
        match r {
            Ok(sb) => sidebars_view(sb@) == walk(entries@, base@, prefix@, known).0
                && pages_drafted(final(pages)@, walk(entries@, base@, prefix@, known).1),
            Err(e) => draft_error(walk(entries@, base@, prefix@, known).1, e),
        },
    decreases entries@, 1int,
{
    let ghost es = entries@;
    let index = index_route_of(prefix);
    let mut files: Vec<Page> = Vec::new();
    let mut groups: Vec<(Option<i64>, String, SidebarNode)> = Vec::new();
    proof {
        assert(es.take(0) =~= Seq::<SourceEntry>::empty());
        assert(keyeds_view(groups@) =~= Seq::<Keyed>::empty());
    }
    for e in it: entries.into_iter()
        invariant
            it.seq() == es,
            pages_drafted(files@, files_of(es.take(it.index() as int), prefix@)),
            keyeds_view(groups@) == walk_dirs(es.take(it.index() as int), base@, prefix@, known).0,
            pages_drafted(pages@, walk_dirs(es.take(it.index() as int), base@, prefix@, known).1),
    {
        let ghost i = it.index() as int;
        let ghost before = walk_dirs(es.take(i), base@, prefix@, known);
        proof {
            assert(es.take(i + 1).drop_last() =~= es.take(i));
            assert(es.take(i + 1).last() == es[i]);
        }
        match e {
            SourceEntry::Page(src) => {
                let ghost key = PageKey { route: page_route(prefix@, src.stem@), src };
                match page_entry(src, prefix, &mut files, Ghost(files_of(es.take(i), prefix@))) {
                    Ok(()) => {},
                    Err(err) => {
                        proof {
                            lemma_page_error(es, base@, prefix@, known, i, key, err);
                        }
                        return Err(err);
                    },
                }
            },
            SourceEntry::Dir { name, entries: sub } => {
                proof {
                    assert(decreases_to!(es => es[i]));
                }
                match dir_entry(name, sub, base, prefix, pages, &mut groups, Ghost(before.1)) {
                    Ok(()) => {},
                    Err(err) => {
                        proof {
                            lemma_dir_error(es, base@, prefix@, known, i, err);
                        }
                        return Err(err);
                    },
                }
            },
        }
    }
    proof {
        assert(es.take(es.len() as int) =~= es);
    }
    let ghost fs = files_of(es, prefix@);
    let mut keyed = own_links(&files, &index, Ghost(fs));
    let ghost links = keyeds_view(keyed@);
    keyed.append(&mut groups);
    proof {
        assert(keyeds_view(keyed@) =~= links + walk_dirs(es, base@, prefix@, known).0);
    }
    let sorted = sort_entries(keyed);
    let head = head_of(&files, &index, crate::text::str_eq(prefix.as_str(), base), Ghost(fs));
    let nodes = unkey_into(head, sorted);
    let ghost mid = pages@;
    let ghost own = files@;
    pages.append(&mut files);
    proof {
        let w = walk(es, base@, prefix@, known);
        assert(w.1 == walk_dirs(es, base@, prefix@, known).1 + fs);
        assert forall|j: int| 0 <= j < pages@.len() implies page_drafted(#[trigger] pages@[j], w.1[j]) by {
            if j < mid.len() {
                assert(pages@[j] == mid[j]);
            } else {
                assert(pages@[j] == own[j - mid.len()]);
                assert(page_drafted(own[j - mid.len()], fs[j - mid.len()]));
            }
        }
    }
    Ok(nodes)
}


// ---------------------------------------------------------------------------
// Reading order
// ---------------------------------------------------------------------------

/// The routes a sidebar mentions, depth first.
pub open spec fn flat_routes(ns: Seq<SidebarV>) -> Seq<Seq<char>>
    decreases ns,
{
    if ns.len() == 0 {
        Seq::empty()
    } else {
        flat_routes(ns.drop_last()) + node_routes(ns.last())
    }
}

pub open spec fn node_routes(n: SidebarV) -> Seq<Seq<char>>
    decreases n,
{
    match n {
        SidebarV::Link { route, .. } => seq![route],
        SidebarV::Group { route, items, .. } => match route {
            Some(r) => seq![r] + flat_routes(items),
            None => flat_routes(items),
        },
    }
}

pub open spec fn key_routes(ks: Seq<PageKey>) -> Seq<Seq<char>> {
    ks.map_values(|k: PageKey| k.route)
}

/// The index of the first page with this route, from `k` on; the number of pages
/// when there is none.
pub open spec fn first_index(ks: Seq<PageKey>, route: Seq<char>, k: int) -> int
    decreases ks.len() - k,
{
    if k < 0 || k >= ks.len() {
        ks.len() as int
    } else if ks[k].route == route {
        k
    } else {
        first_index(ks, route, k + 1)
    }
}

/// Whether a page with this route is among those chosen.
pub open spec fn taken(ks: Seq<PageKey>, chosen: Seq<int>, route: Seq<char>) -> bool {
    exists|j: int| 0 <= j < chosen.len() && ks[#[trigger] chosen[j]].route == route
}

/// Chooses the first page with `route`, unless one with that route is chosen.
pub open spec fn pick(ks: Seq<PageKey>, chosen: Seq<int>, route: Seq<char>) -> Seq<int> {
    let i = first_index(ks, route, 0);
    if i < ks.len() && !taken(ks, chosen, route) {
        chosen.push(i)
    } else {
        chosen
    }
}

pub open spec fn pick_all(ks: Seq<PageKey>, routes: Seq<Seq<char>>) -> Seq<int>
    decreases routes.len(),
{
    if routes.len() == 0 {
        Seq::empty()
    } else {
        pick(ks, pick_all(ks, routes.drop_last()), routes.last())
    }
}

/// Then every page of the first `n` whose route is not chosen yet, in order.
pub open spec fn pick_rest(ks: Seq<PageKey>, chosen: Seq<int>, n: int) -> Seq<int>
    decreases n,
{
    if n <= 0 {
        chosen
    } else {
        let c = pick_rest(ks, chosen, n - 1);
        if taken(ks, c, ks[n - 1].route) {
            c
        } else {
            c.push(n - 1)
        }
    }
}

/// Reading order: the pages as the sidebar lists them, then the rest, one page
/// per route.
pub open spec fn page_order(ks: Seq<PageKey>, sidebar: Seq<SidebarV>) -> Seq<int> {
    pick_rest(ks, pick_all(ks, flat_routes(sidebar)), ks.len() as int)
}

/// Indices into `ks`, no two of them pages with the same route.
pub open spec fn valid_order(ks: Seq<PageKey>, c: Seq<int>) -> bool {
    &&& forall|j: int| 0 <= j < c.len() ==> 0 <= #[trigger] c[j] < ks.len()
    &&& forall|a: int, b: int|
        0 <= a < b < c.len() ==> ks[#[trigger] c[a]].route != ks[#[trigger] c[b]].route
}

pub open spec fn ints(s: Seq<usize>) -> Seq<int> {
    s.map_values(|x: usize| x as int)
}

proof fn lemma_sidebars_view_take(s: Seq<SidebarNode>, i: int)
    requires
        0 <= i < s.len(),
    ensures
        sidebars_view(s.take(i + 1)) == sidebars_view(s.take(i)).push(sidebar_view(s[i])),
{
    assert(s.take(i + 1).drop_last() =~= s.take(i));
}

proof fn lemma_first_index(ks: Seq<PageKey>, route: Seq<char>, k: int)
    requires
        0 <= k,
    ensures
        k <= first_index(ks, route, k) <= ks.len() || (k > ks.len() && first_index(ks, route, k) == ks.len()),
        first_index(ks, route, k) < ks.len() ==> ks[first_index(ks, route, k)].route == route,
    decreases ks.len() - k,
{
    if k < ks.len() && ks[k].route != route {
        lemma_first_index(ks, route, k + 1);
    }
}

/// Appends the routes the sidebar entries mention, depth first.
fn collect_routes(nodes: &Vec<SidebarNode>, out: &mut Vec<String>)
    ensures
        routes_view(final(out)@) == routes_view(old(out)@) + flat_routes(sidebars_view(nodes@)),
    decreases nodes@,
{
    let ghost start = routes_view(out@);
    let mut i: usize = 0;
    proof {
        assert(nodes@.take(0) =~= Seq::<SidebarNode>::empty());
        assert(start + Seq::<Seq<char>>::empty() =~= start);
    }
    while i < nodes.len()
        invariant
            i <= nodes@.len(),
            routes_view(out@) == start + flat_routes(sidebars_view(nodes@.take(i as int))),
        decreases nodes.len() - i,
    {
        let ghost mid = routes_view(out@);
        proof {
            lemma_sidebars_view_take(nodes@, i as int);
            let v = sidebars_view(nodes@.take(i as int));
            assert(v.push(sidebar_view(nodes@[i as int])).drop_last() =~= v);
            assert(decreases_to!(nodes@ => nodes@[i as int]));
        }
        match &nodes[i] {
            SidebarNode::Link { route, .. } => {
                out.push(route.clone());
                proof {
                    assert(routes_view(out@) =~= mid + seq![route@]);
                }
            },
            SidebarNode::Group { route, items, .. } => {
                let ghost g = route;
                match route {
                    Some(r) => {
                        out.push(r.clone());
                        proof {
                            assert(routes_view(out@) =~= mid + seq![r@]);
                        }
                    },
                    None => {},
                }
                let ghost mid2 = routes_view(out@);
                proof {
                    assert(decreases_to!(nodes@[i as int] => items@));
                }
                collect_routes(items, out);
            },
        }
        proof {
            let v = sidebars_view(nodes@.take(i as int));
            assert(routes_view(out@) =~= start + flat_routes(v) + node_routes(
                sidebar_view(nodes@[i as int]),
            ));
        }
        i += 1;
    }
    proof {
        assert(nodes@.take(i as int) =~= nodes@);
    }
}

/// Whether a page with this route is among those chosen.
fn taken_exec(pages: &Vec<Page>, chosen: &Vec<usize>, route: &String, Ghost(ks): Ghost<Seq<PageKey>>) -> (b:
    bool)
    requires
        routes_match(pages@, ks),
        valid_order(ks, ints(chosen@)),
    ensures
        b == taken(ks, ints(chosen@), route@),
{
    let ghost c = ints(chosen@);
    let mut j: usize = 0;
    while j < chosen.len()
        invariant
            j <= chosen@.len(),
            c == ints(chosen@),
            routes_match(pages@, ks),
            valid_order(ks, c),
            forall|m: int| 0 <= m < j ==> ks[c[m]].route != route@,
        decreases chosen.len() - j,
    {
        assert(0 <= c[j as int] < ks.len());
        assert(pages@[chosen@[j as int] as int].route@ == ks[c[j as int]].route);
        if crate::text::str_eq(pages[chosen[j]].route.as_str(), route.as_str()) {
            return true;
        }
        j += 1;
    }
    false
}

/// The first page with this route, if any.
fn first_index_exec(pages: &Vec<Page>, route: &String, Ghost(ks): Ghost<Seq<PageKey>>) -> (r: usize)
    requires
        routes_match(pages@, ks),
    ensures
        r == first_index(ks, route@, 0),
{
    let mut j: usize = 0;
    while j < pages.len()
        invariant
            j <= pages@.len(),
            routes_match(pages@, ks),
            first_index(ks, route@, j as int) == first_index(ks, route@, 0),
        decreases pages.len() - j,
    {
        assert(pages@[j as int].route@ == ks[j as int].route);
        if crate::text::str_eq(pages[j].route.as_str(), route.as_str()) {
            return j;
        }
        j += 1;
    }
    j
}

/// Reading order: indices into `pages`.
fn order_pages(pages: &Vec<Page>, sidebar: &Vec<SidebarNode>, Ghost(ks): Ghost<Seq<PageKey>>) -> (r: Vec<
    usize,
>)
    requires
        routes_match(pages@, ks),
    ensures
        ints(r@) == page_order(ks, sidebars_view(sidebar@)),
        valid_order(ks, ints(r@)),
{
    let mut routes: Vec<String> = Vec::new();
    collect_routes(sidebar, &mut routes);
    let ghost rs = flat_routes(sidebars_view(sidebar@));
    proof {
        assert(routes_view(routes@) =~= rs);
    }
    let mut chosen: Vec<usize> = Vec::new();
    let mut i: usize = 0;
    proof {
        assert(rs.take(0) =~= Seq::<Seq<char>>::empty());
        assert(ints(chosen@) =~= Seq::<int>::empty());
    }
    while i < routes.len()
        invariant
            i <= routes@.len(),
            routes_view(routes@) == rs,
            routes_match(pages@, ks),
            ints(chosen@) == pick_all(ks, rs.take(i as int)),
            valid_order(ks, ints(chosen@)),
        decreases routes.len() - i,
    {
        proof {
            assert(rs.take(i + 1).drop_last() =~= rs.take(i as int));
            assert(rs.take(i + 1).last() == routes@[i as int]@);
        }
        let first = first_index_exec(pages, &routes[i], Ghost(ks));
        proof {
            lemma_first_index(ks, routes@[i as int]@, 0);
        }
        if first < pages.len() && !taken_exec(pages, &chosen, &routes[i], Ghost(ks)) {
            let ghost before = ints(chosen@);
            chosen.push(first);
            proof {
                assert(ints(chosen@) =~= before.push(first as int));
                let c = ints(chosen@);
                assert forall|a: int, b: int| 0 <= a < b < c.len() implies ks[#[trigger] c[a]].route
                    != ks[#[trigger] c[b]].route by {
                    if b == c.len() - 1 {
                        assert(c[a] == before[a]);
                    } else {
                        assert(c[a] == before[a] && c[b] == before[b]);
                    }
                }
            }
        }
        i += 1;
    }
    proof {
        assert(rs.take(i as int) =~= rs);
    }
    let ghost c0 = ints(chosen@);
    let mut n: usize = 0;
    while n < pages.len()
        invariant
            n <= pages@.len(),
            routes_match(pages@, ks),
            c0 == pick_all(ks, rs),
            ints(chosen@) == pick_rest(ks, c0, n as int),
            valid_order(ks, ints(chosen@)),
        decreases pages.len() - n,
    {
        assert(pages@[n as int].route@ == ks[n as int].route);
        if !taken_exec(pages, &chosen, &pages[n].route, Ghost(ks)) {
            let ghost before = ints(chosen@);
            chosen.push(n);
            proof {
                assert(ints(chosen@) =~= before.push(n as int));
                let c = ints(chosen@);
                assert forall|a: int, b: int| 0 <= a < b < c.len() implies ks[#[trigger] c[a]].route
                    != ks[#[trigger] c[b]].route by {
                    if b == c.len() - 1 {
                        assert(c[a] == before[a]);
                    } else {
                        assert(c[a] == before[a] && c[b] == before[b]);
                    }
                }
            }
        }
        n += 1;
    }
    chosen
}


// ---------------------------------------------------------------------------
// Loading a site
// ---------------------------------------------------------------------------

/// Links are rewritten only when the docs live under a base path.
pub open spec fn relinked_top(nodes: Seq<NodeV>, base: Seq<char>, routes: Seq<Seq<char>>) -> Seq<NodeV> {
    if base.len() == 0 {
        nodes
    } else {
        relinked_nodes(nodes, base, routes)
    }
}

/// The tree a page's code blocks are coloured in: its built tree, links rewritten.
pub open spec fn page_tree(k: PageKey, base: Seq<char>, routes: Seq<Seq<char>>) -> Seq<NodeV> {
    relinked_top(crate::parser::built_nodes(body_state(k.src.body@)), base, routes)
}

/// Whether a page fails to parse with `error`.
pub open spec fn fails_with(
    k: PageKey,
    error: ParseError,
    base: Seq<char>,
    routes: Seq<Seq<char>>,
    langs: Seq<LanguageV>,
) -> bool {
    match error {
        ParseError::TooManyTasks => too_many_tasks(k),
        ParseError::Stalled => !too_many_tasks(k) && nodes_stall(page_tree(k, base, routes), langs),
        ParseError::MissingTheme => false,
    }
}

/// A page of the site: its route, identifier, title and metadata from its source,
/// and its body parsed with links rewritten and code coloured.
pub open spec fn page_built(
    page: Page,
    k: PageKey,
    base: Seq<char>,
    routes: Seq<Seq<char>>,
    langs: Seq<LanguageV>,
    hl: Highlighter,
) -> bool {
    &&& page.route@ == k.route
    &&& page.ident@ == route_ident_spec(k.route)
    &&& page.title@ == key_title(k)
    &&& page.hidden == k.src.frontmatter.hidden
    &&& page.file == k.src.file
    &&& opt_view(page.description) == opt_view(k.src.frontmatter.description)
    &&& parsed_from(
        k.src.frontmatter,
        k.src.body@,
        langs,
        hl,
        page_tree(k, base, routes),
        Ok(page.doc),
    )
}

/// What loading a docs directory gives: the walk's sidebar, and its pages in
/// reading order, one per route, each built; `Empty` without pages, and a parse
/// error naming the file of a page that fails.
pub open spec fn loaded(
    es: Seq<SourceEntry>,
    base: Seq<char>,
    langs: Seq<LanguageV>,
    hl: Highlighter,
    r: Result<Site, SiteError>,
) -> bool {
    let (sidebar, ks) = walk(es, base, base, Seq::empty());
    let routes = key_routes(ks);
    let order = page_order(ks, sidebar);
    match r {
        Ok(site) => {
            &&& ks.len() > 0
            &&& forall|i: int|
                0 <= i < ks.len() ==> !too_many_tasks(#[trigger] ks[i]) && !nodes_stall(
                    page_tree(ks[i], base, routes),
                    langs,
                )
            &&& sidebars_view(site.sidebar@) == sidebar
            &&& site.pages@.len() == order.len()
            &&& forall|j: int|
                0 <= j < order.len() ==> page_built(
                    #[trigger] site.pages@[j],
                    ks[order[j]],
                    base,
                    routes,
                    langs,
                    hl,
                )
        },
        Err(SiteError::Empty) => ks.len() == 0,
        Err(SiteError::Parse { file, error }) => exists|i: int|
            0 <= i < ks.len() && (#[trigger] ks[i]).src.file == file && fails_with(
                ks[i],
                error,
                base,
                routes,
                langs,
            ),
    }
}

/// The pages at the given indices, in that order.
fn take_in_order(pages: Vec<Page>, order: &Vec<usize>, Ghost(ks): Ghost<Seq<PageKey>>) -> (r: Vec<Page>)
    requires
        pages@.len() == ks.len(),
        valid_order(ks, ints(order@)),
    ensures
        r@.len() == order@.len(),
        forall|j: int| 0 <= j < order@.len() ==> #[trigger] r@[j] == pages@[order@[j] as int],
{
    let ghost p0 = pages@;
    let ghost c = ints(order@);
    let mut slots: Vec<Option<Page>> = Vec::new();
    for p in it: pages.into_iter()
        invariant
            it.seq() == p0,
            slots@.len() == it.index(),
            forall|m: int| 0 <= m < slots@.len() ==> #[trigger] slots@[m] == Some(p0[m]),
    {
        slots.push(Some(p));
    }
    let mut out: Vec<Page> = Vec::new();
    let mut k: usize = 0;
    proof {
        assert forall|m: int| 0 <= m < order@.len() implies slots@[#[trigger] order@[m] as int] == Some(
            p0[order@[m] as int],
        ) by {
            assert(c[m] == order@[m] as int);
        }
    }
    while k < order.len()
        invariant
            k <= order@.len(),
            slots@.len() == p0.len(),
            c == ints(order@),
            valid_order(ks, c),
            p0.len() == ks.len(),
            out@.len() == k,
            forall|j: int| 0 <= j < k ==> #[trigger] out@[j] == p0[order@[j] as int],
            forall|m: int| k <= m < order@.len() ==> slots@[#[trigger] order@[m] as int] == Some(
                p0[order@[m] as int],
            ),
        decreases order.len() - k,
    {
        assert(c[k as int] == order@[k as int] as int);
        let idx = order[k];
        let ghost before = slots@;
        let taken_page = slots[idx].take();
        proof {
            assert forall|m: int| k < m < order@.len() implies slots@[#[trigger] order@[m] as int]
                == Some(p0[order@[m] as int]) by {
                assert(c[m] == order@[m] as int);
                assert(ks[c[k as int]].route != ks[c[m]].route);
                assert(order@[m] != idx);
                assert(slots@[order@[m] as int] == before[order@[m] as int]);
            }
        }
        match taken_page {
            Some(page) => {
                out.push(page);
            },
            None => {
                proof {
                    assert(false);
                }
            },
        }
        k += 1;
    }
    out
}

/// The route of every page.
fn page_routes(pages: &Vec<Page>, Ghost(ks): Ghost<Seq<PageKey>>) -> (r: Vec<String>)
    requires
        pages_drafted(pages@, ks),
    ensures
        routes_view(r@) == key_routes(ks),
{
    let mut routes: Vec<String> = Vec::new();
    let mut i: usize = 0;
    while i < pages.len()
        invariant
            i <= pages@.len(),
            pages_drafted(pages@, ks),
            routes_view(routes@) == key_routes(ks).take(i as int),
        decreases pages.len() - i,
    {
        assert(page_drafted(pages@[i as int], ks[i as int]));
        let ghost before = routes@;
        routes.push(pages[i].route.clone());
        proof {
            assert(routes_view(routes@) =~= routes_view(before).push(pages@[i as int].route@));
            assert(key_routes(ks).take(i + 1) =~= key_routes(ks).take(i as int).push(ks[i as int].route));
        }
        i += 1;
    }
    proof {
        assert(key_routes(ks).take(i as int) =~= key_routes(ks));
    }
    routes
}

/// Rewrites a drafted page's links and colours its code.
fn build_page(
    page: &mut Page,
    base: &str,
    routes: &Vec<String>,
    relink: bool,
    languages: &[Language],
    hl: &Highlighter,
    Ghost(k): Ghost<PageKey>,
    Ghost(rv): Ghost<Seq<Seq<char>>>,
) -> (ok: bool)
    requires
        page_drafted(*old(page), k),
        rv == routes_view(routes@),
        relink == (base@.len() > 0),
    ensures
        ok ==> page_built(*final(page), k, base@, rv, languages_view(languages@), *hl),
        ok ==> !too_many_tasks(k) && !nodes_stall(page_tree(k, base@, rv), languages_view(languages@)),
        !ok ==> fails_with(k, ParseError::Stalled, base@, rv, languages_view(languages@)),
        final(page).file == old(page).file,
{
    if relink {
        relink_nodes(&mut page.doc.nodes, base, routes);
    }
    assert(nodes_view(page.doc.nodes@) == page_tree(k, base@, rv));
    fill_nodes(&mut page.doc.nodes, languages, hl)
}

/// The site: the sidebar, and the built pages in reading order.
fn assemble(
    pages: Vec<Page>,
    sidebar: Vec<SidebarNode>,
    Ghost(ks): Ghost<Seq<PageKey>>,
    Ghost(base): Ghost<Seq<char>>,
    Ghost(rv): Ghost<Seq<Seq<char>>>,
    Ghost(lv): Ghost<Seq<LanguageV>>,
    Ghost(hv): Ghost<Highlighter>,
) -> (site: Site)
    requires
        pages@.len() == ks.len(),
        forall|j: int| 0 <= j < pages@.len() ==> page_built(#[trigger] pages@[j], ks[j], base, rv, lv, hv),
    ensures
        sidebars_view(site.sidebar@) == sidebars_view(sidebar@),
        site.pages@.len() == page_order(ks, sidebars_view(sidebar@)).len(),
        forall|j: int|
            0 <= j < site.pages@.len() ==> page_built(
                #[trigger] site.pages@[j],
                ks[page_order(ks, sidebars_view(sidebar@))[j]],
                base,
                rv,
                lv,
                hv,
            ),
{
    assert forall|j: int| 0 <= j < pages@.len() implies (#[trigger] pages@[j]).route@ == ks[j].route by {
        assert(page_built(pages@[j], ks[j], base, rv, lv, hv));
    }
    let order = order_pages(&pages, &sidebar, Ghost(ks));
    let ghost p0 = pages@;
    let ordered = take_in_order(pages, &order, Ghost(ks));
    proof {
        let c = ints(order@);
        assert forall|j: int| 0 <= j < ordered@.len() implies page_built(
            #[trigger] ordered@[j],
            ks[c[j]],
            base,
            rv,
            lv,
            hv,
        ) by {
            assert(c[j] == order@[j] as int);
            assert(ordered@[j] == p0[order@[j] as int]);
            assert(0 <= c[j] < ks.len());
        }
    }
    Site { pages: ordered, sidebar }
}

/// Loads a docs directory, given as its listing: every markdown file becomes a
/// page, routed by its path under `base` (pass an empty base to serve the docs at
/// `/`). Links written as if the docs sat at `/` are pointed under the base.
#[verifier::rlimit(40)]
pub fn load(entries: Vec<SourceEntry>, base: &str, languages: &[Language], hl: &Highlighter) -> (r:
    Result<Site, SiteError>)
    ensures
        loaded(entries@, base@, languages_view(languages@), *hl, r),
{
    let ghost es = entries@;
    let ghost lv = languages_view(languages@);
    let mut pages: Vec<Page> = Vec::new();
    let prefix = base.to_string();
    let sidebar = walk_entries(entries, base, &prefix, &mut pages, Ghost(Seq::empty()))?;
    let ghost ks = walk(es, base@, base@, Seq::empty()).1;
    if pages.len() == 0 {
        return Err(SiteError::Empty);
    }
    let routes = page_routes(&pages, Ghost(ks));
    let ghost rv = key_routes(ks);
    let relink = base.unicode_len() > 0;
    let mut i: usize = 0;
    while i < pages.len()
        invariant
            i <= pages@.len(),
            ks == walk(es, base@, base@, Seq::empty()).1,
            es == entries@,
            pages@.len() == ks.len(),
            rv == routes_view(routes@),
            rv == key_routes(ks),
            lv == languages_view(languages@),
            relink == (base@.len() > 0),
            forall|j: int| i <= j < pages@.len() ==> page_drafted(#[trigger] pages@[j], ks[j]),
            forall|j: int| 0 <= j < i ==> page_built(#[trigger] pages@[j], ks[j], base@, rv, lv, *hl),
            forall|j: int|
                0 <= j < i ==> !too_many_tasks(#[trigger] ks[j]) && !nodes_stall(
                    page_tree(ks[j], base@, rv),
                    lv,
                ),
        decreases pages.len() - i,
    {
        let ghost before = pages@;
        let ok = build_page(&mut pages[i], base, &routes, relink, languages, hl, Ghost(ks[i as int]), Ghost(rv));
        if !ok {
            let failed = pages.remove(i);
            let err = SiteError::Parse { file: failed.file, error: ParseError::Stalled };
            proof {
                assert(failed.file == ks[i as int].src.file);
                assert(fails_with(ks[i as int], ParseError::Stalled, base@, rv, lv));
                assert(0 <= i < ks.len());
                assert(loaded(es, base@, lv, *hl, Err(err)));
            }
            return Err(err);
        }
        proof {
            assert forall|j: int| i < j < pages@.len() implies page_drafted(#[trigger] pages@[j], ks[j]) by {
                assert(pages@[j] == before[j]);
            }
            assert forall|j: int| 0 <= j <= i implies page_built(#[trigger] pages@[j], ks[j], base@, rv, lv, *hl) by {
                if j < i {
                    assert(pages@[j] == before[j]);
                }
            }
        }
        i += 1;
    }
    Ok(assemble(pages, sidebar, Ghost(ks), Ghost(base@), Ghost(rv), Ghost(lv), Ghost(*hl)))
}


// ---------------------------------------------------------------------------
// Reading a directory
// ---------------------------------------------------------------------------

/// Whether the walk passes over this file or directory name.
pub fn skipped(name: &str) -> (b: bool)
    ensures
        b == is_skipped(name@),
{
    let v = chars_of(name);
    v.len() > 0 && (v[0] == '.' || v[0] == '_')
}

/// The stem of a markdown file's name, or `None` when it is not markdown.
pub fn markdown_stem(name: &str) -> (r: Option<String>)
    ensures
        opt_view(r) == md_stem(name@),
{
    let v = chars_of(name);
    let n = v.len();
    if n > 3 && v[0] != '.' && v[n - 3] == '.' && v[n - 2] == 'm' && v[n - 1] == 'd' {
        proof {
            assert(v@.subrange(n - 3, n as int) =~= seq!['.', 'm', 'd']);
        }
        Some(crate::text::string_of_range(&v, 0, n - 3))
    } else {
        proof {
            if n > 3 && v@.subrange(n - 3, n as int) == seq!['.', 'm', 'd'] {
                assert(v@.subrange(n - 3, n as int)[0] == v@[n - 3]);
                assert(v@.subrange(n - 3, n as int)[1] == v@[n - 2]);
                assert(v@.subrange(n - 3, n as int)[2] == v@[n - 1]);
            }
        }
        None
    }
}


// ---------------------------------------------------------------------------
// Laws
// ---------------------------------------------------------------------------

proof fn lemma_pick_valid(ks: Seq<PageKey>, c: Seq<int>, route: Seq<char>)
    requires
        valid_order(ks, c),
    ensures
        valid_order(ks, pick(ks, c, route)),
{
    let i = first_index(ks, route, 0);
    lemma_first_index(ks, route, 0);
    if i < ks.len() && !taken(ks, c, route) {
        let r = c.push(i);
        assert forall|a: int, b: int| 0 <= a < b < r.len() implies ks[#[trigger] r[a]].route
            != ks[#[trigger] r[b]].route by {
            if b == r.len() - 1 {
                assert(r[a] == c[a]);
                if ks[c[a]].route == route {
                    assert(taken(ks, c, route));
                }
            } else {
                assert(r[a] == c[a] && r[b] == c[b]);
            }
        }
        assert forall|j: int| 0 <= j < r.len() implies 0 <= #[trigger] r[j] < ks.len() by {
            if j < c.len() {
                assert(r[j] == c[j]);
            }
        }
    }
}

proof fn lemma_pick_all_valid(ks: Seq<PageKey>, routes: Seq<Seq<char>>)
    ensures
        valid_order(ks, pick_all(ks, routes)),
    decreases routes.len(),
{
    if routes.len() > 0 {
        lemma_pick_all_valid(ks, routes.drop_last());
        lemma_pick_valid(ks, pick_all(ks, routes.drop_last()), routes.last());
    }
}

proof fn lemma_pick_rest(ks: Seq<PageKey>, c: Seq<int>, n: int)
    requires
        valid_order(ks, c),
        0 <= n <= ks.len(),
    ensures
        valid_order(ks, pick_rest(ks, c, n)),
        forall|m: int| 0 <= m < n ==> taken(ks, pick_rest(ks, c, n), #[trigger] ks[m].route),
    decreases n,
{
    if n > 0 {
        lemma_pick_rest(ks, c, n - 1);
        let prev = pick_rest(ks, c, n - 1);
        let route = ks[n - 1].route;
        if !taken(ks, prev, route) {
            let r = prev.push(n - 1);
            assert forall|a: int, b: int| 0 <= a < b < r.len() implies ks[#[trigger] r[a]].route
                != ks[#[trigger] r[b]].route by {
                if b == r.len() - 1 {
                    assert(r[a] == prev[a]);
                    if ks[prev[a]].route == route {
                        assert(taken(ks, prev, route));
                    }
                } else {
                    assert(r[a] == prev[a] && r[b] == prev[b]);
                }
            }
            assert forall|j: int| 0 <= j < r.len() implies 0 <= #[trigger] r[j] < ks.len() by {
                if j < prev.len() {
                    assert(r[j] == prev[j]);
                }
            }
            assert forall|m: int| 0 <= m < n implies taken(ks, r, #[trigger] ks[m].route) by {
                if m < n - 1 {
                    let j = choose|j: int| 0 <= j < prev.len() && ks[#[trigger] prev[j]].route == ks[m].route;
                    assert(r[j] == prev[j]);
                } else {
                    assert(r[r.len() - 1] == n - 1);
                }
            }
        }
    }
}

/// Reading order lists every route of the site exactly once: no two entries are
/// pages with the same route, and every page's route is among them.
pub proof fn law_reading_order_one_page_per_route(ks: Seq<PageKey>, sidebar: Seq<SidebarV>)
    ensures
        valid_order(ks, page_order(ks, sidebar)),
        forall|i: int| 0 <= i < ks.len() ==> taken(ks, page_order(ks, sidebar), #[trigger] ks[i].route),
{
    lemma_pick_all_valid(ks, flat_routes(sidebar));
    lemma_pick_rest(ks, pick_all(ks, flat_routes(sidebar)), ks.len() as int);
}

proof fn lemma_lex_asym(a: Seq<char>, b: Seq<char>)
    ensures
        !(lex_lt(a, b) && lex_lt(b, a)),
        !lex_lt(a, a),
    decreases a.len(),
{
    if a.len() > 0 && b.len() > 0 && a[0] == b[0] {
        lemma_lex_asym(a.drop_first(), b.drop_first());
    }
    if a.len() > 0 {
        lemma_lex_asym(a.drop_first(), a.drop_first());
    }
}

proof fn lemma_lex_trans(a: Seq<char>, b: Seq<char>, c: Seq<char>)
    requires
        lex_lt(a, b),
        lex_lt(b, c),
    ensures
        lex_lt(a, c),
    decreases a.len(),
{
    if a.len() > 0 && b.len() > 0 && c.len() > 0 && a[0] == b[0] && b[0] == c[0] {
        lemma_lex_trans(a.drop_first(), b.drop_first(), c.drop_first());
    }
}

proof fn lemma_before_asym(x: (Option<i64>, Seq<char>), y: (Option<i64>, Seq<char>))
    ensures
        !(sorts_before(x, y) && sorts_before(y, x)),
{
    lemma_lex_asym(x.1, y.1);
}

proof fn lemma_before_trans(x: (Option<i64>, Seq<char>), y: (Option<i64>, Seq<char>), z: (Option<i64>, Seq<char>))
    requires
        sorts_before(x, y),
        sorts_before(y, z),
    ensures
        sorts_before(x, z),
{
    if lex_lt(x.1, y.1) && lex_lt(y.1, z.1) {
        lemma_lex_trans(x.1, y.1, z.1);
    }
}

/// No entry sorts before an earlier one.
pub open spec fn listed_in_order(s: Seq<Keyed>) -> bool {
    forall|i: int, j: int|
        0 <= i < j < s.len() ==> !sorts_before((#[trigger] s[j].0, s[j].1), (#[trigger] s[i].0, s[i].1))
}

proof fn lemma_insert_at(sorted: Seq<Keyed>, x: Keyed, k: int)
    requires
        0 <= k <= sorted.len(),
        forall|m: int| 0 <= m < k ==> !sorts_before((x.0, x.1), (#[trigger] sorted[m].0, sorted[m].1)),
    ensures
        k <= insert_at(sorted, x, k) <= sorted.len(),
        forall|m: int|
            0 <= m < insert_at(sorted, x, k) ==> !sorts_before((x.0, x.1), (#[trigger] sorted[m].0, sorted[m].1)),
        insert_at(sorted, x, k) < sorted.len() ==> sorts_before(
            (x.0, x.1),
            (sorted[insert_at(sorted, x, k)].0, sorted[insert_at(sorted, x, k)].1),
        ),
    decreases sorted.len() - k,
{
    if k < sorted.len() && !sorts_before((x.0, x.1), (sorted[k].0, sorted[k].1)) {
        lemma_insert_at(sorted, x, k + 1);
    }
}

/// Sorting a sidebar listing puts it in order (entries with an `order` first, by
/// order then title; the rest by title) and keeps every entry.
pub proof fn law_sidebar_sorted(s: Seq<Keyed>)
    ensures
        listed_in_order(sort_keyed(s)),
        sort_keyed(s).to_multiset() == s.to_multiset(),
    decreases s.len(),
{
    broadcast use vstd::seq_lib::group_to_multiset_ensures;

    if s.len() > 0 {
        law_sidebar_sorted(s.drop_last());
        let sorted = sort_keyed(s.drop_last());
        let x = s.last();
        lemma_insert_at(sorted, x, 0);
        let p = insert_at(sorted, x, 0);
        let r = sorted.insert(p, x);
        assert forall|i: int, j: int| 0 <= i < j < r.len() implies !sorts_before(
            (#[trigger] r[j].0, r[j].1),
            (#[trigger] r[i].0, r[i].1),
        ) by {
            if j < p {
                assert(r[i] == sorted[i] && r[j] == sorted[j]);
            } else if j == p {
                assert(r[j] == x && r[i] == sorted[i]);
            } else if i < p {
                assert(r[i] == sorted[i] && r[j] == sorted[j - 1]);
            } else if i == p {
                assert(r[i] == x && r[j] == sorted[j - 1]);
                let y = (sorted[p].0, sorted[p].1);
                let z = (sorted[j - 1].0, sorted[j - 1].1);
                if j - 1 > p {
                    assert(!sorts_before(z, y));
                }
                if sorts_before(z, (x.0, x.1)) {
                    lemma_before_trans(z, (x.0, x.1), y);
                    lemma_before_asym(z, y);
                }
            } else {
                assert(r[i] == sorted[i - 1] && r[j] == sorted[j - 1]);
            }
        }
        assert(s =~= s.drop_last().push(x));
        assert(r.to_multiset() == sorted.to_multiset().insert(x));
        assert(s.to_multiset() == s.drop_last().to_multiset().insert(x));
    }
}

/// In every sorted sidebar listing, entries with an `order` come before entries
/// without one; two ordered entries come by order, equal orders by title; two
/// unordered entries come by title, in code point order.
pub proof fn law_sidebar_order(s: Seq<Keyed>)
    ensures
        forall|i: int, j: int|
            0 <= i < j < sort_keyed(s).len() ==> {
                let a = #[trigger] sort_keyed(s)[i];
                let b = #[trigger] sort_keyed(s)[j];
                &&& a.0 is None ==> b.0 is None
                &&& (a.0 is None && b.0 is None) ==> !lex_lt(b.1, a.1)
                &&& (a.0 is Some && b.0 is Some) ==> a.0->0 <= b.0->0 && (a.0->0 == b.0->0 ==> !lex_lt(
                    b.1,
                    a.1,
                ))
            },
{
    law_sidebar_sorted(s);
    let r = sort_keyed(s);
    assert forall|i: int, j: int| 0 <= i < j < r.len() implies {
        let a = #[trigger] r[i];
        let b = #[trigger] r[j];
        &&& a.0 is None ==> b.0 is None
        &&& (a.0 is None && b.0 is None) ==> !lex_lt(b.1, a.1)
        &&& (a.0 is Some && b.0 is Some) ==> a.0->0 <= b.0->0 && (a.0->0 == b.0->0 ==> !lex_lt(b.1, a.1))
    } by {
        assert(!sorts_before((r[j].0, r[j].1), (r[i].0, r[i].1)));
    }
}

} // verus!
