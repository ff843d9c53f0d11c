//! Framing a leading `---` YAML block: where it starts, where it closes, and the
//! body that follows. Decoding the YAML itself is the caller's business.
use vstd::prelude::*;
use crate::ast::Frontmatter;
use crate::text::{
    chars_of, has_prefix, lemma_line_end, line_end, next_line_end, skip_whitespace_back,
    starts_with_at, string_of_range, trim_end,
};

verus! {

pub open spec fn dashes() -> Seq<char> {
    seq!['-', '-', '-']
}

/// The first index at or after `i` that is not a space or a tab.
pub open spec fn skip_blanks(s: Seq<char>, i: int) -> int
    decreases s.len() - i,
{
    if 0 <= i < s.len() && (s[i] == ' ' || s[i] == '\t') {
        skip_blanks(s, i + 1)
    } else {
        i
    }
}

/// Where the YAML starts: the source opens with `---`, then spaces or tabs, then a
/// newline.
pub open spec fn yaml_start(s: Seq<char>) -> Option<int> {
    if has_prefix(s, dashes()) {
        let k = skip_blanks(s, 3);
        if k < s.len() && s[k] == '\n' {
            Some(k + 1)
        } else {
            None
        }
    } else {
        None
    }
}

/// The start of the first line at or after `p` that reads `---` once trailing
/// whitespace is dropped.
pub open spec fn closing_line(s: Seq<char>, p: int) -> Option<int>
    decreases s.len() - p,
{
    if p < 0 || p >= s.len() {
        None
    } else {
        let e = line_end(s, p);
        if e <= p || e > s.len() {
            None
        } else if trim_end(s.subrange(p, e)) == dashes() {
            Some(p)
        } else {
            closing_line(s, e)
        }
    }
}

/// The YAML text and the body after its closing line, when the source has a
/// complete frontmatter block.
pub open spec fn frame(s: Seq<char>) -> Option<(Seq<char>, Seq<char>)> {
    match yaml_start(s) {
        None => None,
        Some(a) => match closing_line(s, a) {
            None => None,
            Some(p) => Some((s.subrange(a, p), s.subrange(line_end(s, p), s.len() as int))),
        },
    }
}

proof fn lemma_skip_blanks(s: Seq<char>, i: int)
    ensures
        i <= skip_blanks(s, i),
    decreases s.len() - i,
{
    if 0 <= i < s.len() && (s[i] == ' ' || s[i] == '\t') {
        lemma_skip_blanks(s, i + 1);
    }
}

proof fn lemma_closing_line(s: Seq<char>, p: int)
    requires
        0 <= p,
    ensures
        closing_line(s, p) matches Some(q) ==> p <= q < s.len() && q < line_end(s, q) <= s.len()
            && trim_end(s.subrange(q, line_end(s, q))) == dashes(),
    decreases s.len() - p,
{
    if p < s.len() {
        lemma_line_end(s, p);
        lemma_closing_line(s, line_end(s, p));
    }
}

/// Splits a leading `---` block off the source: `Some((yaml, body))` when the
/// source opens with `---` (spaces or tabs may follow) on a line of its own and a
/// later line reads `---`; `None` when it has no such block.
pub fn split_frame(source: &str) -> (r: Option<(String, String)>)
    ensures
        match r {
            Some((yaml, body)) => frame(source@) == Some((yaml@, body@)),
            None => frame(source@) is None,
        },
{
    let v = chars_of(source);
    if !starts_with_at(&v, 0, v.len(), &['-', '-', '-']) {
        proof {
            assert(v@.subrange(0, v@.len() as int) =~= v@);
        }
        return None;
    }
    proof {
        assert(v@.subrange(0, v@.len() as int) =~= v@);
        reveal_with_fuel(skip_blanks, 2);
    }
    let mut k: usize = 3;
    while k < v.len() && (v[k] == ' ' || v[k] == '\t')
        invariant
            3 <= k <= v@.len(),
            skip_blanks(v@, k as int) == skip_blanks(v@, 3),
        decreases v.len() - k,
    {
        k += 1;
    }
    if k >= v.len() || v[k] != '\n' {
        return None;
    }
    let a = k + 1;
    let mut p = a;
    while p < v.len()
        invariant
            a <= p <= v@.len(),
            v@ == source@,
            yaml_start(v@) == Some(a as int),
            closing_line(v@, p as int) == closing_line(v@, a as int),
        decreases v.len() - p,
    {
        let e = next_line_end(&v, p);
        let t = skip_whitespace_back(&v, p, e);
        if t - p == 3 && starts_with_at(&v, p, t, &['-', '-', '-']) {
            proof {
                assert(v@.subrange(p as int, t as int).subrange(0, 3) =~= v@.subrange(
                    p as int,
                    t as int,
                ));
            }
            let yaml = string_of_range(&v, a, p);
            let body = string_of_range(&v, e, v.len());
            return Some((yaml, body));
        }
        proof {
            if trim_end(v@.subrange(p as int, e as int)) == dashes() {
                assert(v@.subrange(p as int, t as int).subrange(0, 3) =~= dashes());
            }
        }
        p = e;
    }
    None
}

/// A page source split into its frontmatter block, when it opens with one, and
/// its body: the whole source when it has none.
pub fn split_source(source: &str) -> (r: (Option<String>, String))
    ensures
        match frame(source@) {
            Some((yaml, body)) => r.0 matches Some(y) && y@ == yaml && r.1@ == body,
            None => r.0 is None && r.1@ == source@,
        },
{
    match split_frame(source) {
        Some((yaml, body)) => (Some(yaml), body),
        None => (None, source.to_string()),
    }
}

/// The frontmatter a decoded block gives: keys it leaves out leave the title,
/// description and order unset, the page shown in the sidebar, and in the pager.
pub fn frontmatter_of(
    title: Option<String>,
    description: Option<String>,
    order: Option<i64>,
    hidden: Option<bool>,
    pager: Option<bool>,
) -> (r: Frontmatter)
    ensures
        r.title == title,
        r.description == description,
        r.order == order,
        r.hidden == (hidden == Some(true)),
        r.pager == (pager != Some(false)),
{
    let hidden = match hidden {
        Some(h) => h,
        None => false,
    };
    let pager = match pager {
        Some(p) => p,
        None => true,
    };
    Frontmatter { title, description, order, hidden, pager }
}

/// A frontmatter block and the body re-assemble the source: it opens with `---`,
/// the YAML sits between that line and a closing `---` line, and the body is all
/// that follows.
pub proof fn law_frame_reassembles(s: Seq<char>)
    ensures
        frame(s) matches Some((yaml, body)) ==> {
            let a = yaml_start(s)->0;
            let p = closing_line(s, a)->0;
            let e = line_end(s, p);
            &&& 0 < a <= p < e <= s.len()
            &&& has_prefix(s, dashes())
            &&& trim_end(s.subrange(p, e)) == dashes()
            &&& s == s.subrange(0, a) + yaml + s.subrange(p, e) + body
        },
{
    if let Some((yaml, body)) = frame(s) {
        lemma_skip_blanks(s, 3);
        let a = yaml_start(s).unwrap();
        lemma_closing_line(s, a);
        let p = closing_line(s, a).unwrap();
        let e = line_end(s, p);
        assert(s =~= s.subrange(0, a) + yaml + s.subrange(p, e) + body);
    }
}

} // verus!
