//! The decisions behind lowering a document to `rsx!`: which links stay inside
//! the site, how text is escaped for a format string, and heading markup.
use vstd::prelude::*;
use crate::ast::{ListItem, ListItemV};
use crate::text::{chars_of, has_prefix, string_of};

verus! {

/// Links to a site path (`/...`, but not the protocol-relative `//...`) become
/// router links.
pub open spec fn internal(href: Seq<char>) -> bool {
    has_prefix(href, seq!['/']) && !has_prefix(href, seq!['/', '/'])
}

pub fn is_internal(href: &str) -> (b: bool)
    ensures
        b == internal(href@),
{
    let v = chars_of(href);
    proof {
        if v@.len() >= 1 {
            assert(v@.subrange(0, 1) =~= seq![v@[0]]);
            if v@.subrange(0, 1) == seq!['/'] {
                assert(v@.subrange(0, 1)[0] == '/');
            }
        }
        if v@.len() >= 2 {
            assert(v@.subrange(0, 2) =~= seq![v@[0], v@[1]]);
            if v@.subrange(0, 2) == seq!['/', '/'] {
                assert(v@.subrange(0, 2)[1] == '/');
            }
        }
    }
    v.len() >= 1 && v[0] == '/' && !(v.len() >= 2 && v[1] == '/')
}

/// Text with `{` and `}` doubled, so that `rsx!` reads it as a literal format
/// string.
pub open spec fn escaped(s: Seq<char>) -> Seq<char>
    decreases s.len(),
{
    if s.len() == 0 {
        s
    } else {
        let c = s.last();
        escaped(s.drop_last()) + if c == '{' || c == '}' {
            seq![c, c]
        } else {
            seq![c]
        }
    }
}

pub fn escape_braces(value: &str) -> (r: String)
    ensures
        r@ == escaped(value@),
{
    let v = chars_of(value);
    let mut out: Vec<char> = Vec::new();
    let mut i: usize = 0;
    while i < v.len()
        invariant
            i <= v@.len(),
            out@ == escaped(v@.take(i as int)),
        decreases v.len() - i,
    {
        proof {
            assert(v@.take(i + 1).drop_last() =~= v@.take(i as int));
        }
        let c = v[i];
        out.push(c);
        if c == '{' || c == '}' {
            out.push(c);
        }
        proof {
            assert(out@ =~= escaped(v@.take(i + 1)));
        }
        i += 1;
    }
    proof {
        assert(v@.take(i as int) =~= v@);
    }
    string_of(&out)
}

/// The `h1`..`h6` element a heading of this level renders as.
pub fn heading_tag_level(level: u8) -> (r: u8)
    ensures
        r == if level < 1 {
            1
        } else if level > 6 {
            6
        } else {
            level
        },
{
    if level < 1 {
        1
    } else if level > 6 {
        6
    } else {
        level
    }
}

/// `##` and `###` headings carry a permalink anchor.
pub fn has_anchor(level: u8) -> (b: bool)
    ensures
        b == (2 <= level <= 3),
{
    2 <= level && level <= 3
}

/// A list with any task item is styled as a task list.
pub fn is_task_list(items: &[ListItem]) -> (b: bool)
    ensures
        b == exists|i: int| 0 <= i < items@.len() && (#[trigger] items@[i]).task is Some,
{
    let mut i: usize = 0;
    while i < items.len()
        invariant
            i <= items@.len(),
            forall|j: int| 0 <= j < i ==> (#[trigger] items@[j]).task is None,
        decreases items.len() - i,
    {
        if items[i].task.is_some() {
            return true;
        }
        i += 1;
    }
    false
}

/// `str::replace` of one character by a string.
pub open spec fn replace_char(s: Seq<char>, c: char, by: Seq<char>) -> Seq<char>
    decreases s.len(),
{
    if s.len() == 0 {
        s
    } else {
        replace_char(s.drop_last(), c, by) + if s.last() == c {
            by
        } else {
            seq![s.last()]
        }
    }
}

/// What a format string with no arguments prints: `{{` gives `{` and `}}` gives `}`;
/// `None` for a lone brace, which would be a placeholder or an error.
pub open spec fn format_literal(s: Seq<char>) -> Option<Seq<char>>
    decreases s.len(),
{
    if s.len() == 0 {
        Some(s)
    } else if s[0] == '{' || s[0] == '}' {
        if s.len() >= 2 && s[1] == s[0] {
            match format_literal(s.skip(2)) {
                Some(r) => Some(seq![s[0]] + r),
                None => None,
            }
        } else {
            None
        }
    } else {
        match format_literal(s.skip(1)) {
            Some(r) => Some(seq![s[0]] + r),
            None => None,
        }
    }
}

proof fn lemma_replace_concat(a: Seq<char>, b: Seq<char>, c: char, by: Seq<char>)
    ensures
        replace_char(a + b, c, by) == replace_char(a, c, by) + replace_char(b, c, by),
    decreases b.len(),
{
    if b.len() == 0 {
        assert(a + b =~= a);
        assert(replace_char(a, c, by) + replace_char(b, c, by) =~= replace_char(a, c, by));
    } else {
        lemma_replace_concat(a, b.drop_last(), c, by);
        assert((a + b).drop_last() =~= a + b.drop_last());
        assert((a + b).last() == b.last());
    }
}

proof fn lemma_escaped_concat(a: Seq<char>, b: Seq<char>)
    ensures
        escaped(a + b) == escaped(a) + escaped(b),
    decreases b.len(),
{
    if b.len() == 0 {
        assert(a + b =~= a);
        assert(escaped(a) + escaped(b) =~= escaped(a));
    } else {
        lemma_escaped_concat(a, b.drop_last());
        assert((a + b).drop_last() =~= a + b.drop_last());
        assert((a + b).last() == b.last());
    }
}

proof fn lemma_single(x: char, c: char, by: Seq<char>)
    ensures
        replace_char(seq![x], c, by) == if x == c {
            by
        } else {
            seq![x]
        },
        escaped(seq![x]) == if x == '{' || x == '}' {
            seq![x, x]
        } else {
            seq![x]
        },
{
    let one = seq![x];
    assert(one.drop_last() =~= Seq::<char>::empty());
    assert(one.last() == x);
    assert(replace_char(one.drop_last(), c, by) =~= Seq::<char>::empty());
    assert(escaped(one.drop_last()) =~= Seq::<char>::empty());
    assert(Seq::<char>::empty() + by =~= by);
    assert(Seq::<char>::empty() + seq![x] =~= seq![x]);
    assert(Seq::<char>::empty() + seq![x, x] =~= seq![x, x]);
}

/// Escaping doubles each brace: it is replacing `{` by `{{` and then `}` by `}}`.
pub proof fn law_escaped_is_two_replaces(s: Seq<char>)
    ensures
        escaped(s) == replace_char(replace_char(s, '{', seq!['{', '{']), '}', seq!['}', '}']),
    decreases s.len(),
{
    if s.len() > 0 {
        let init = s.drop_last();
        let c = s.last();
        law_escaped_is_two_replaces(init);
        let p = if c == '{' {
            seq!['{', '{']
        } else {
            seq![c]
        };
        lemma_replace_concat(replace_char(init, '{', seq!['{', '{']), p, '}', seq!['}', '}']);
        lemma_single(c, '{', seq!['{', '{']);
        if c == '{' {
            lemma_single('{', '}', seq!['}', '}']);
            assert(p =~= seq!['{'] + seq!['{']);
            lemma_replace_concat(seq!['{'], seq!['{'], '}', seq!['}', '}']);
            assert(replace_char(p, '}', seq!['}', '}']) =~= seq!['{', '{']);
        } else {
            lemma_single(c, '}', seq!['}', '}']);
        }
    }
}

/// A format string with no arguments made from the escaped text prints the text.
pub proof fn law_escaped_prints_itself(s: Seq<char>)
    ensures
        format_literal(escaped(s)) == Some(s),
    decreases s.len(),
{
    if s.len() > 0 {
        let c = s[0];
        let rest = s.skip(1);
        law_escaped_prints_itself(rest);
        assert(s =~= seq![c] + rest);
        lemma_escaped_concat(seq![c], rest);
        lemma_single(c, c, seq![c]);
        let e = escaped(s);
        if c == '{' || c == '}' {
            assert(escaped(seq![c]) =~= seq![c, c]);
            assert(e.skip(2) =~= escaped(rest));
        } else {
            assert(escaped(seq![c]) =~= seq![c]);
            assert(e.skip(1) =~= escaped(rest));
        }
        assert(seq![c] + rest =~= s);
    }
}

} // verus!
