//! Parses component tags from raw HTML events. Only capitalized names count.
use vstd::prelude::*;
use crate::ast::{prop_value_view, props_view, PropValue, PropValueV};
use crate::text::{
    char_is_alphanumeric, chars_of, is_alphanumeric, is_ascii_upper, skip_whitespace, skip_ws,
    string_of, string_of_range, trim, trim_range,
};

verus! {

#[derive(Debug, Clone, PartialEq)]
pub enum Tag {
    Open { name: String, props: Vec<(String, PropValue)> },
    SelfClosing { name: String, props: Vec<(String, PropValue)> },
    Close { name: String },
}

pub enum TagV {
    Open { name: Seq<char>, props: Seq<(Seq<char>, PropValueV)> },
    SelfClosing { name: Seq<char>, props: Seq<(Seq<char>, PropValueV)> },
    Close { name: Seq<char> },
}

impl View for Tag {
    type V = TagV;

    open spec fn view(&self) -> TagV {
        match *self {
            Tag::Open { name, props } => TagV::Open { name: name@, props: props_view(props@) },
            Tag::SelfClosing { name, props } => TagV::SelfClosing {
                name: name@,
                props: props_view(props@),
            },
            Tag::Close { name } => TagV::Close { name: name@ },
        }
    }
}

// ---------------------------------------------------------------------------
// The grammar, over the characters `b` between `<` and `>`
// ---------------------------------------------------------------------------

/// Components are capitalized; everything else is left to plain HTML.
pub open spec fn is_component_name(name: Seq<char>) -> bool {
    &&& name.len() > 0
    &&& is_ascii_upper(name[0])
    &&& forall|i: int| 0 <= i < name.len() ==> char_is_alphanumeric(name[i]) || name[i] == '_'
}

/// Characters of an identifier: alphanumerics and `_`, and `-` after the first.
pub open spec fn ident_char(c: char, first: bool) -> bool {
    char_is_alphanumeric(c) || c == '_' || (!first && c == '-')
}

pub open spec fn ident_end(b: Seq<char>, start: int, k: int) -> int
    decreases b.len() - k,
{
    if start <= k < b.len() && ident_char(b[k], k == start) {
        ident_end(b, start, k + 1)
    } else {
        k
    }
}

pub open spec fn dash_to_underscore(s: Seq<char>) -> Seq<char> {
    s.map_values(|c: char| if c == '-' { '_' } else { c })
}

/// An identifier after optional whitespace: its name with `-` read as `_`, and
/// where it ends.
pub open spec fn scan_ident(b: Seq<char>, p: int) -> Option<(Seq<char>, int)> {
    let q = skip_ws(b, p);
    let e = ident_end(b, q, q);
    if e <= q {
        None
    } else {
        Some((dash_to_underscore(b.subrange(q, e)), e))
    }
}

/// A quoted value from index `i` on, backslash escaping the next character.
pub open spec fn quoted_scan(b: Seq<char>, q: char, i: int, escaped: bool, acc: Seq<char>) -> Option<
    (Seq<char>, int),
>
    decreases b.len() - i,
{
    if i < 0 || i >= b.len() {
        None
    } else {
        let c = b[i];
        if escaped {
            quoted_scan(b, q, i + 1, false, acc.push(c))
        } else if c == '\\' {
            quoted_scan(b, q, i + 1, true, acc)
        } else if c == q {
            Some((acc, i + 1))
        } else {
            quoted_scan(b, q, i + 1, false, acc.push(c))
        }
    }
}

/// The index of the `}` that closes the `{` at the start, skipping over string
/// literals.
pub open spec fn braced_scan(
    b: Seq<char>,
    i: int,
    depth: int,
    quote: Option<char>,
    escaped: bool,
) -> Option<int>
    decreases b.len() - i,
{
    if i < 0 || i >= b.len() {
        None
    } else {
        let c = b[i];
        if escaped {
            braced_scan(b, i + 1, depth, quote, false)
        } else {
            match quote {
                Some(qq) => if c == '\\' {
                    braced_scan(b, i + 1, depth, quote, true)
                } else if c == qq {
                    braced_scan(b, i + 1, depth, None, false)
                } else {
                    braced_scan(b, i + 1, depth, quote, false)
                },
                None => if c == '"' {
                    braced_scan(b, i + 1, depth, Some('"'), false)
                } else if c == '{' {
                    braced_scan(b, i + 1, depth + 1, None, false)
                } else if c == '}' {
                    if depth - 1 == 0 {
                        Some(i)
                    } else {
                        braced_scan(b, i + 1, depth - 1, None, false)
                    }
                } else {
                    braced_scan(b, i + 1, depth, None, false)
                },
            }
        }
    }
}

/// The props from index `p` on, appended to `acc`; `None` for malformed input.
pub open spec fn props_scan(b: Seq<char>, p: int, acc: Seq<(Seq<char>, PropValueV)>) -> Option<
    Seq<(Seq<char>, PropValueV)>,
>
    decreases b.len() - p,
{
    let q = skip_ws(b, p);
    if p < 0 || q >= b.len() {
        if p < 0 {
            None
        } else {
            Some(acc)
        }
    } else {
        match scan_ident(b, q) {
            None => None,
            Some((name, e)) => {
                let f = skip_ws(b, e);
                if f > b.len() {
                    None
                } else if !(f < b.len() && b[f] == '=') {
                    if f <= p {
                        None
                    } else {
                        props_scan(b, f, acc.push((name, PropValueV::Flag)))
                    }
                } else {
                    let g = skip_ws(b, f + 1);
                    if g >= b.len() {
                        None
                    } else if b[g] == '"' || b[g] == '\'' {
                        match quoted_scan(b, b[g], g + 1, false, Seq::empty()) {
                            None => None,
                            Some((val, np)) => if np <= p || np > b.len() {
                                None
                            } else {
                                props_scan(b, np, acc.push((name, PropValueV::Str(val))))
                            },
                        }
                    } else if b[g] == '{' {
                        match braced_scan(b, g, 0, None, false) {
                            None => None,
                            Some(ci) => if ci + 1 <= p || ci + 1 > b.len() || ci < g + 1 {
                                None
                            } else {
                                props_scan(
                                    b,
                                    ci + 1,
                                    acc.push((name, PropValueV::Expr(trim(b.subrange(g + 1, ci))))),
                                )
                            },
                        }
                    } else {
                        None
                    }
                }
            },
        }
    }
}

/// A component tag: `<Name props>`, `<Name props />` or `</Name>`, surrounding
/// whitespace allowed.
pub open spec fn parse_tag(input: Seq<char>) -> Option<TagV> {
    let t = trim(input);
    if !(t.len() >= 2 && t[0] == '<' && t.last() == '>') {
        None
    } else {
        let body = t.subrange(1, t.len() - 1);
        if body.len() > 0 && body[0] == '/' {
            let name = trim(body.subrange(1, body.len() as int));
            if is_component_name(name) {
                Some(TagV::Close { name })
            } else {
                None
            }
        } else {
            let self_closing = body.len() > 0 && body.last() == '/';
            let b = if self_closing {
                body.drop_last()
            } else {
                body
            };
            match scan_ident(b, 0) {
                None => None,
                Some((name, e)) => if !is_component_name(name) {
                    None
                } else {
                    match props_scan(b, e, Seq::empty()) {
                        None => None,
                        Some(props) => if self_closing {
                            Some(TagV::SelfClosing { name, props })
                        } else {
                            Some(TagV::Open { name, props })
                        },
                    }
                },
            }
        }
    }
}

// ---------------------------------------------------------------------------
// Scanning
// ---------------------------------------------------------------------------

fn is_component(name: &Vec<char>) -> (r: bool)
    ensures
        r == is_component_name(name@),
{
    if name.len() == 0 {
        return false;
    }
    if !('A' <= name[0] && name[0] <= 'Z') {
        return false;
    }
    let mut i: usize = 0;
    while i < name.len()
        invariant
            0 <= i <= name.len(),
            forall|j: int| 0 <= j < i ==> char_is_alphanumeric(name@[j]) || name@[j] == '_',
        decreases name.len() - i,
    {
        let c = name[i];
        if !(is_alphanumeric(c) || c == '_') {
            return false;
        }
        i += 1;
    }
    true
}

proof fn lemma_ident_end(b: Seq<char>, start: int, k: int)
    requires
        0 <= start <= k <= b.len(),
    ensures
        k <= ident_end(b, start, k) <= b.len(),
    decreases b.len() - k,
{
    if start <= k < b.len() && ident_char(b[k], k == start) {
        lemma_ident_end(b, start, k + 1);
    }
}

fn ident(b: &Vec<char>, p: usize) -> (r: Option<(Vec<char>, usize)>)
    requires
        p <= b.len(),
    ensures
        match r {
            Some((name, e)) => scan_ident(b@, p as int) == Some((name@, e as int)) && p < e <= b.len(),
            None => scan_ident(b@, p as int) is None,
        },
{
    let q = skip_whitespace(b, p, b.len());
    proof {
        assert(b@.subrange(0, b@.len() as int) =~= b@);
        lemma_ident_end(b@, q as int, q as int);
    }
    let mut k = q;
    while k < b.len() && (is_alphanumeric(b[k]) || b[k] == '_' || (k > q && b[k] == '-'))
        invariant
            q <= k <= b.len(),
            ident_end(b@, q as int, k as int) == ident_end(b@, q as int, q as int),
        decreases b.len() - k,
    {
        k += 1;
    }
    if k <= q {
        return None;
    }
    let mut name: Vec<char> = Vec::new();
    let mut i = q;
    while i < k
        invariant
            q <= i <= k <= b.len(),
            name@ == dash_to_underscore(b@.subrange(q as int, i as int)),
        decreases k - i,
    {
        let c = b[i];
        name.push(if c == '-' { '_' } else { c });
        i += 1;
        proof {
            assert(name@ =~= dash_to_underscore(b@.subrange(q as int, i as int)));
        }
    }
    Some((name, k))
}

proof fn lemma_quoted_scan(b: Seq<char>, q: char, i: int, escaped: bool, acc: Seq<char>)
    requires
        0 <= i,
    ensures
        quoted_scan(b, q, i, escaped, acc) matches Some((v, np)) ==> i < np <= b.len(),
    decreases b.len() - i,
{
    if i < b.len() {
        let c = b[i];
        if escaped {
            lemma_quoted_scan(b, q, i + 1, false, acc.push(c));
        } else if c == '\\' {
            lemma_quoted_scan(b, q, i + 1, true, acc);
        } else if c == q {
        } else {
            lemma_quoted_scan(b, q, i + 1, false, acc.push(c));
        }
    }
}

fn quoted(b: &Vec<char>, p: usize, quote: char) -> (r: Option<(Vec<char>, usize)>)
    requires
        p < b.len(),
    ensures
        match r {
            Some((v, np)) => quoted_scan(b@, quote, p + 1, false, Seq::empty()) == Some(
                (v@, np as int),
            ) && p + 1 < np <= b.len(),
            None => quoted_scan(b@, quote, p + 1, false, Seq::empty()) is None,
        },
{
    proof {
        lemma_quoted_scan(b@, quote, p + 1, false, Seq::empty());
    }
    let mut out: Vec<char> = Vec::new();
    let mut escaped = false;
    let mut i = p + 1;
    while i < b.len()
        invariant
            p + 1 <= i <= b.len(),
            quoted_scan(b@, quote, i as int, escaped, out@) == quoted_scan(
                b@,
                quote,
                p + 1,
                false,
                Seq::empty(),
            ),
        decreases b.len() - i,
    {
        let c = b[i];
        if escaped {
            out.push(c);
            escaped = false;
        } else if c == '\\' {
            escaped = true;
        } else if c == quote {
            proof {
                lemma_quoted_scan(b@, quote, i as int, escaped, out@);
            }
            return Some((out, i + 1));
        } else {
            out.push(c);
        }
        i += 1;
    }
    None
}

proof fn lemma_braced_scan(
    b: Seq<char>,
    i: int,
    depth: int,
    quote: Option<char>,
    escaped: bool,
)
    requires
        0 <= i,
    ensures
        braced_scan(b, i, depth, quote, escaped) matches Some(ci) ==> i <= ci < b.len(),
    decreases b.len() - i,
{
    if i < b.len() {
        let c = b[i];
        if escaped {
            lemma_braced_scan(b, i + 1, depth, quote, false);
        } else {
            match quote {
                Some(qq) => if c == '\\' {
                    lemma_braced_scan(b, i + 1, depth, quote, true);
                } else if c == qq {
                    lemma_braced_scan(b, i + 1, depth, None, false);
                } else {
                    lemma_braced_scan(b, i + 1, depth, quote, false);
                },
                None => if c == '"' {
                    lemma_braced_scan(b, i + 1, depth, Some('"'), false);
                } else if c == '{' {
                    lemma_braced_scan(b, i + 1, depth + 1, None, false);
                } else if c == '}' {
                    if depth - 1 != 0 {
                        lemma_braced_scan(b, i + 1, depth - 1, None, false);
                    }
                } else {
                    lemma_braced_scan(b, i + 1, depth, None, false);
                },
            }
        }
    }
}

/// The index of the brace that closes the one at `p`.
fn braced(b: &Vec<char>, p: usize) -> (r: Option<usize>)
    requires
        p < b.len(),
        b@[p as int] == '{',
    ensures
        match r {
            Some(ci) => braced_scan(b@, p as int, 0, None, false) == Some(ci as int) && p < ci < b.len(),
            None => braced_scan(b@, p as int, 0, None, false) is None,
        },
{
    proof {
        lemma_braced_scan(b@, p as int, 0, None, false);
    }
    let mut depth: usize = 0;
    let mut quote: Option<char> = None;
    let mut escaped = false;
    let mut i = p;
    while i < b.len()
        invariant
            p <= i <= b.len(),
            b@[p as int] == '{',
            i > p ==> depth >= 1,
            i == p ==> depth == 0 && quote is None && !escaped,
            depth <= i - p,
            braced_scan(b@, i as int, depth as int, quote, escaped) == braced_scan(
                b@,
                p as int,
                0,
                None,
                false,
            ),
        decreases b.len() - i,
    {
        let c = b[i];
        if escaped {
            escaped = false;
        } else {
            match quote {
                Some(qq) => {
                    if c == '\\' {
                        escaped = true;
                    } else if c == qq {
                        quote = None;
                    }
                },
                None => {
                    if c == '"' {
                        quote = Some('"');
                    } else if c == '{' {
                        depth += 1;
                    } else if c == '}' {
                        depth -= 1;
                        if depth == 0 {
                            return Some(i);
                        }
                    }
                },
            }
        }
        i += 1;
    }
    None
}

/// The props of a tag body from `p` on.
fn props(b: &Vec<char>, p: usize) -> (r: Option<Vec<(String, PropValue)>>)
    requires
        p <= b.len(),
    ensures
        match r {
            Some(v) => props_scan(b@, p as int, Seq::empty()) == Some(props_view(v@)),
            None => props_scan(b@, p as int, Seq::empty()) is None,
        },
{
    let mut out: Vec<(String, PropValue)> = Vec::new();
    let mut pos = p;
    proof {
        assert(props_view(out@) =~= Seq::empty());
        assert(b@.subrange(0, b@.len() as int) =~= b@);
    }
    loop
        invariant
            pos <= b.len(),
            b@.subrange(0, b@.len() as int) == b@,
            props_scan(b@, pos as int, props_view(out@)) == props_scan(b@, p as int, Seq::empty()),
        decreases b.len() - pos,
    {
        let q = skip_whitespace(b, pos, b.len());
        if q >= b.len() {
            return Some(out);
        }
        let (name, e) = match ident(b, q) {
            Some(found) => found,
            None => return None,
        };
        let f = skip_whitespace(b, e, b.len());
        let ghost acc = props_view(out@);
        if !(f < b.len() && b[f] == '=') {
            let key = string_of(&name);
            out.push((key, PropValue::Flag));
            proof {
                assert(props_view(out@) =~= acc.push((name@, PropValueV::Flag)));
            }
            pos = f;
            continue;
        }
        let g = skip_whitespace(b, f + 1, b.len());
        if g >= b.len() {
            return None;
        }
        let c = b[g];
        if c == '"' || c == '\'' {
            match quoted(b, g, c) {
                None => return None,
                Some((val, np)) => {
                    let key = string_of(&name);
                    let text = string_of(&val);
                    out.push((key, PropValue::Str(text)));
                    proof {
                        assert(props_view(out@) =~= acc.push((name@, PropValueV::Str(val@))));
                    }
                    pos = np;
                },
            }
        } else if c == '{' {
            match braced(b, g) {
                None => return None,
                Some(ci) => {
                    let (x, y) = trim_range(b, g + 1, ci);
                    let key = string_of(&name);
                    let text = string_of_range(b, x, y);
                    out.push((key, PropValue::Expr(text)));
                    proof {
                        assert(props_view(out@) =~= acc.push(
                            (name@, PropValueV::Expr(trim(b@.subrange(g + 1, ci as int)))),
                        ));
                    }
                    pos = ci + 1;
                },
            }
        } else {
            return None;
        }
    }
}

fn parse_close(v: &Vec<char>, lo: usize, hi: usize) -> (r: Option<Tag>)
    requires
        lo <= hi <= v.len(),
    ensures
        ({
            let name = trim(v@.subrange(lo as int, hi as int));
            match r {
                Some(t) => is_component_name(name) && t@ == TagV::Close { name },
                None => !is_component_name(name),
            }
        }),
{
    let (x, y) = trim_range(v, lo, hi);
    let mut name: Vec<char> = Vec::new();
    crate::text::extend_range(&mut name, v, x, y);
    proof {
        assert(name@ =~= v@.subrange(x as int, y as int));
    }
    if is_component(&name) {
        Some(Tag::Close { name: string_of(&name) })
    } else {
        None
    }
}

fn parse_open(b: &Vec<char>, self_closing: bool) -> (r: Option<Tag>)
    ensures
        match r {
            Some(t) => match scan_ident(b@, 0) {
                None => false,
                Some((name, e)) => is_component_name(name) && match props_scan(b@, e, Seq::empty()) {
                    None => false,
                    Some(props) => if self_closing {
                        t@ == TagV::SelfClosing { name, props }
                    } else {
                        t@ == TagV::Open { name, props }
                    },
                },
            },
            None => match scan_ident(b@, 0) {
                None => true,
                Some((name, e)) => !is_component_name(name) || props_scan(b@, e, Seq::empty()) is None,
            },
        },
{
    let (name, e) = match ident(b, 0) {
        Some(found) => found,
        None => return None,
    };
    if !is_component(&name) {
        return None;
    }
    let props = match props(b, e) {
        Some(found) => found,
        None => return None,
    };
    let name = string_of(&name);
    if self_closing {
        Some(Tag::SelfClosing { name, props })
    } else {
        Some(Tag::Open { name, props })
    }
}

/// Parses a single component tag. `None` for plain HTML, comments, or malformed input.
pub fn parse(input: &str) -> (r: Option<Tag>)
    ensures
        match r {
            Some(t) => parse_tag(input@) == Some(t@),
            None => parse_tag(input@) is None,
        },
{
    let v = chars_of(input);
    let (lo, hi) = trim_range(&v, 0, v.len());
    proof {
        assert(v@.subrange(0, v@.len() as int) =~= v@);
    }
    let ghost t = v@.subrange(lo as int, hi as int);
    if !(hi - lo >= 2 && v[lo] == '<' && v[hi - 1] == '>') {
        return None;
    }
    let blo = lo + 1;
    let bhi = hi - 1;
    let ghost body = t.subrange(1, t.len() - 1);
    proof {
        assert(body =~= v@.subrange(blo as int, bhi as int));
    }
    if bhi > blo && v[blo] == '/' {
        proof {
            assert(body.subrange(1, body.len() as int) =~= v@.subrange(blo + 1, bhi as int));
        }
        return parse_close(&v, blo + 1, bhi);
    }
    let self_closing = bhi > blo && v[bhi - 1] == '/';
    let end = if self_closing {
        bhi - 1
    } else {
        bhi
    };
    let mut b: Vec<char> = Vec::new();
    crate::text::extend_range(&mut b, &v, blo, end);
    proof {
        if self_closing {
            assert(b@ =~= body.drop_last());
        } else {
            assert(b@ =~= body);
        }
    }
    parse_open(&b, self_closing)
}

// ---------------------------------------------------------------------------
// Laws
// ---------------------------------------------------------------------------

/// Whatever the input, a tag that parses names a component.
pub proof fn law_parsed_tags_name_components(input: Seq<char>)
    ensures
        parse_tag(input) matches Some(t) ==> match t {
            TagV::Open { name, .. } => is_component_name(name),
            TagV::SelfClosing { name, .. } => is_component_name(name),
            TagV::Close { name } => is_component_name(name),
        },
{
}

proof fn lemma_trim_tag(x: Seq<char>)
    requires
        x.len() >= 2,
        x[0] == '<',
        x.last() == '>',
    ensures
        trim(x) == x,
{
    assert(crate::text::trim_start(x) == x);
    assert(crate::text::trim_end(x) == x);
}

proof fn lemma_ident_through(b: Seq<char>, n: Seq<char>, k: int)
    requires
        is_component_name(n),
        n.len() <= b.len(),
        b.subrange(0, n.len() as int) == n,
        0 <= k <= n.len(),
        n.len() < b.len() ==> !ident_char(b[n.len() as int], false),
    ensures
        ident_end(b, 0, k) == n.len(),
    decreases n.len() - k,
{
    if k < n.len() {
        assert(b[k] == n[k]);
        assert(char_is_alphanumeric(n[k]) || n[k] == '_');
        lemma_ident_through(b, n, k + 1);
    }
}

proof fn lemma_no_dash(n: Seq<char>)
    requires
        is_component_name(n),
    ensures
        dash_to_underscore(n) == n,
{
    assert forall|i: int| 0 <= i < n.len() implies n[i] != '-' by {
        assert(char_is_alphanumeric(n[i]) || n[i] == '_');
    }
    assert(dash_to_underscore(n) =~= n);
}

proof fn lemma_name_edges(n: Seq<char>)
    requires
        is_component_name(n),
    ensures
        !crate::text::is_white_space(n[0]),
        n[0] != '/',
        n.last() != '/',
        !crate::text::is_white_space(n.last()),
        dash_to_underscore(n) == n,
        n.subrange(0, n.len() as int) == n,
{
    assert(char_is_alphanumeric(n[n.len() - 1]) || n[n.len() - 1] == '_');
    assert(!crate::text::is_white_space(n[n.len() - 1]));
    lemma_no_dash(n);
    assert(n.subrange(0, n.len() as int) =~= n);
}

proof fn lemma_open_tag(n: Seq<char>)
    requires
        is_component_name(n),
    ensures
        parse_tag(seq!['<'] + n + seq!['>']) == Some(TagV::Open { name: n, props: Seq::empty() }),
{
    lemma_name_edges(n);
    let x = seq!['<'] + n + seq!['>'];
    lemma_trim_tag(x);
    assert(x.subrange(1, x.len() - 1) =~= n);
    assert(skip_ws(n, 0) == 0);
    lemma_ident_through(n, n, 0);
    assert(skip_ws(n, n.len() as int) == n.len());
}

proof fn lemma_self_closing_tag(n: Seq<char>)
    requires
        is_component_name(n),
    ensures
        parse_tag(seq!['<'] + n + seq![' ', '/', '>']) == Some(
            TagV::SelfClosing { name: n, props: Seq::empty() },
        ),
{
    lemma_name_edges(n);
    let y = seq!['<'] + n + seq![' ', '/', '>'];
    lemma_trim_tag(y);
    let body = y.subrange(1, y.len() - 1);
    assert(body =~= n + seq![' ', '/']);
    let b = n + seq![' '];
    assert(body.drop_last() =~= b);
    assert(b[0] == n[0]);
    assert(b[n.len() as int] == ' ');
    assert(b.subrange(0, n.len() as int) =~= n);
    lemma_ident_through(b, n, 0);
    assert(b.subrange(0, n.len() as int) == n);
    assert(skip_ws(b, n.len() + 1int) == b.len());
    assert(skip_ws(b, n.len() as int) == b.len());
    assert(skip_ws(b, 0) == 0);
}

proof fn lemma_close_tag(n: Seq<char>)
    requires
        is_component_name(n),
    ensures
        parse_tag(seq!['<', '/'] + n + seq!['>']) == Some(TagV::Close { name: n }),
{
    lemma_name_edges(n);
    let z = seq!['<', '/'] + n + seq!['>'];
    lemma_trim_tag(z);
    let zb = z.subrange(1, z.len() - 1);
    assert(zb =~= seq!['/'] + n);
    assert(zb.subrange(1, zb.len() as int) =~= n);
    assert(crate::text::trim_start(n) == n);
    assert(crate::text::trim_end(n) == n);
}

/// `<Name>`, `<Name />` and `</Name>` parse as an opening, a self-closing and a
/// closing tag of `Name`, with no props, for every component name.
pub proof fn law_bare_component_tags(n: Seq<char>)
    requires
        is_component_name(n),
    ensures
        parse_tag(seq!['<'] + n + seq!['>']) == Some(TagV::Open { name: n, props: Seq::empty() }),
        parse_tag(seq!['<'] + n + seq![' ', '/', '>']) == Some(
            TagV::SelfClosing { name: n, props: Seq::empty() },
        ),
        parse_tag(seq!['<', '/'] + n + seq!['>']) == Some(TagV::Close { name: n }),
{
    lemma_open_tag(n);
    lemma_self_closing_tag(n);
    lemma_close_tag(n);
}

// ---------------------------------------------------------------------------
// Braced values
// ---------------------------------------------------------------------------

/// How many more `{` than `}` `s` holds.
pub open spec fn brace_depth(s: Seq<char>) -> int
    decreases s.len(),
{
    if s.len() == 0 {
        0
    } else {
        brace_depth(s.drop_last()) + if s.last() == '{' {
            1int
        } else if s.last() == '}' {
            -1int
        } else {
            0int
        }
    }
}

/// An expression whose braces nest and balance (no prefix closes more than it
/// opens, and the whole closes all it opens), with no string literal in it.
pub open spec fn balanced_expr(e: Seq<char>) -> bool {
    &&& forall|i: int| 0 <= i < e.len() ==> e[i] != '"'
    &&& forall|k: int| 0 <= k <= e.len() ==> brace_depth(#[trigger] e.take(k)) >= 0
    &&& brace_depth(e) == 0
}

proof fn lemma_braced_from(b: Seq<char>, g: int, e: Seq<char>, k: int)
    requires
        0 <= g,
        g + 1 + e.len() < b.len(),
        b.subrange(g + 1, g + 1 + e.len()) == e,
        b[g + 1 + e.len()] == '}',
        balanced_expr(e),
        0 <= k <= e.len(),
    ensures
        braced_scan(b, g + 1 + k, 1 + brace_depth(e.take(k)), None, false) == Some(g + 1 + e.len()),
    decreases e.len() - k,
{
    if k < e.len() {
        let c = e[k];
        assert(b[g + 1 + k] == b.subrange(g + 1, g + 1 + e.len())[k]);
        assert(b[g + 1 + k] == c);
        assert(e.take(k + 1).drop_last() =~= e.take(k));
        assert(e.take(k + 1).last() == c);
        assert(brace_depth(e.take(k + 1)) >= 0);
        lemma_braced_from(b, g, e, k + 1);
    } else {
        assert(e.take(k) =~= e);
    }
}

/// A braced value whose braces nest and balance is read whole: the scan from its
/// opening `{` ends at the `}` that follows the expression, not at an inner one.
pub proof fn law_braced_value_read_whole(b: Seq<char>, g: int, e: Seq<char>)
    requires
        0 <= g,
        b[g] == '{',
        g + 1 + e.len() < b.len(),
        b.subrange(g + 1, g + 1 + e.len()) == e,
        b[g + 1 + e.len()] == '}',
        balanced_expr(e),
    ensures
        braced_scan(b, g, 0, None, false) == Some(g + 1 + e.len()),
{
    lemma_braced_from(b, g, e, 0);
    assert(e.take(0) =~= Seq::<char>::empty());
}

proof fn lemma_ident_run(b: Seq<char>, start: int, w: Seq<char>, k: int)
    requires
        0 <= start <= k <= start + w.len(),
        start + w.len() < b.len(),
        b.subrange(start, start + w.len()) == w,
        forall|i: int| 0 <= i < w.len() ==> char_is_alphanumeric(#[trigger] w[i]) || w[i] == '_',
        !ident_char(b[start + w.len()], false),
        !ident_char(b[start + w.len()], true),
    ensures
        ident_end(b, start, k) == start + w.len(),
    decreases start + w.len() - k,
{
    if k < start + w.len() {
        assert(b[k] == b.subrange(start, start + w.len())[k - start]);
        assert(char_is_alphanumeric(w[k - start]) || w[k - start] == '_');
        lemma_ident_run(b, start, w, k + 1);
    }
}

/// A prop name: alphanumerics and `_`.
pub open spec fn prop_name(w: Seq<char>) -> bool {
    &&& w.len() > 0
    &&& forall|i: int| 0 <= i < w.len() ==> char_is_alphanumeric(#[trigger] w[i]) || w[i] == '_'
}

proof fn lemma_word_plain(w: Seq<char>)
    requires
        prop_name(w),
    ensures
        dash_to_underscore(w) == w,
        !crate::text::is_white_space(w[0]),
{
    assert forall|i: int| 0 <= i < w.len() implies w[i] != '-' by {
        assert(char_is_alphanumeric(w[i]) || w[i] == '_');
    }
    assert(dash_to_underscore(w) =~= w);
    assert(char_is_alphanumeric(w[0]) || w[0] == '_');
}

/// The characters between `<` and `/>` of `<Name prop={expr} />`.
pub open spec fn braced_tag_body(name: Seq<char>, prop: Seq<char>, e: Seq<char>) -> Seq<char> {
    name + seq![' '] + prop + seq!['=', '{'] + e + seq!['}', ' ']
}

proof fn lemma_braced_props(name: Seq<char>, prop: Seq<char>, e: Seq<char>)
    requires
        is_component_name(name),
        prop_name(prop),
        balanced_expr(e),
    ensures
        scan_ident(braced_tag_body(name, prop, e), 0) == Some((name, name.len() as int)),
        props_scan(braced_tag_body(name, prop, e), name.len() as int, Seq::empty()) == Some(
            seq![(prop, PropValueV::Expr(trim(e)))],
        ),
{
    let b = braced_tag_body(name, prop, e);
    let l = name.len() as int;
    let p = prop.len() as int;
    let n = e.len() as int;
    assert(b.len() == l + p + n + 5);
    assert(b[l] == ' ');
    assert(b[l + 1 + p] == '=');
    assert(b[l + 2 + p] == '{');
    assert(b[l + 3 + p + n] == '}');
    assert(b[l + 4 + p + n] == ' ');
    assert(b.subrange(0, l) =~= name);
    assert(b.subrange(l + 1, l + 1 + p) =~= prop);
    assert(b.subrange(l + 3 + p, l + 3 + p + n) =~= e);
    lemma_name_edges(name);
    lemma_word_plain(prop);
    assert(b[0] == name[0]);
    assert(b[l + 1] == prop[0]);
    // the component name
    assert(skip_ws(b, 0) == 0);
    lemma_ident_through(b, name, 0);
    // the prop name
    assert(skip_ws(b, l + 1) == l + 1);
    assert(skip_ws(b, l) == l + 1);
    lemma_ident_run(b, l + 1, prop, l + 1);
    assert(scan_ident(b, l + 1) == Some((prop, l + 1 + p)));
    assert(skip_ws(b, l + 1 + p) == l + 1 + p);
    assert(skip_ws(b, l + 2 + p) == l + 2 + p);
    // the braced value
    law_braced_value_read_whole(b, l + 2 + p, e);
    let ci = l + 3 + p + n;
    assert(b.subrange(l + 3 + p, ci) == e);
    assert(skip_ws(b, ci + 2) == ci + 2);
    assert(skip_ws(b, ci + 1) == ci + 2);
    let acc = seq![(prop, PropValueV::Expr(trim(e)))];
    assert(Seq::<(Seq<char>, PropValueV)>::empty().push((prop, PropValueV::Expr(trim(e)))) =~= acc);
    assert(props_scan(b, ci + 1, acc) == Some(acc));
}

/// `<Name prop={expr} />` parses as a self-closing tag of `Name` whose one prop is
/// the trimmed expression, for every component name, prop name and expression
/// whose braces nest and balance.
pub proof fn law_braced_prop_tag(name: Seq<char>, prop: Seq<char>, e: Seq<char>)
    requires
        is_component_name(name),
        prop_name(prop),
        balanced_expr(e),
    ensures
        parse_tag(seq!['<'] + braced_tag_body(name, prop, e) + seq!['/', '>']) == Some(
            TagV::SelfClosing { name, props: seq![(prop, PropValueV::Expr(trim(e)))] },
        ),
{
    let body = braced_tag_body(name, prop, e);
    let y = seq!['<'] + body + seq!['/', '>'];
    lemma_trim_tag(y);
    let inner = y.subrange(1, y.len() - 1);
    assert(inner =~= body.push('/'));
    assert(inner.drop_last() =~= body);
    lemma_name_edges(name);
    assert(inner[0] == name[0]);
    lemma_braced_props(name, prop, e);
}

} // verus!
