//! Rewrites `:::tip` container directives into `<Callout>` tags before parsing.
use vstd::prelude::*;
use crate::ast::{callout_from_name, callout_name, CalloutKind};
use crate::text::{
    ascii_lower, ascii_to_lower, chars_of, concat, extend_range, extend_str, has_prefix,
    is_white_space, is_whitespace, lemma_concat_push, lemma_lines_concat, lemma_line_end,
    line_end, lines_from, next_line_end, split_lines, starts_with_at, starts_with_vec_at,
    string_of, trim, trim_range,
};

verus! {

pub struct ExpandState {
    pub out: Seq<char>,
    pub fence: Option<Seq<char>>,
    pub depth: nat,
}

/// The run of `ch` that `s` starts with.
pub open spec fn run_len(s: Seq<char>, ch: char, k: int) -> int
    decreases s.len() - k,
{
    if 0 <= k < s.len() && s[k] == ch {
        run_len(s, ch, k + 1)
    } else {
        k
    }
}

/// The fence a trimmed line opens: three or more backticks, else three or more tildes.
pub open spec fn fence_of(trimmed: Seq<char>) -> Option<Seq<char>> {
    let b = run_len(trimmed, '`', 0);
    let t = run_len(trimmed, '~', 0);
    if b >= 3 {
        Some(Seq::new(b as nat, |i: int| '`'))
    } else if t >= 3 {
        Some(Seq::new(t as nat, |i: int| '~'))
    } else {
        None
    }
}

pub open spec fn colons() -> Seq<char> {
    seq![':', ':', ':']
}

/// `value` with `\` and `"` backslash-escaped.
pub open spec fn escape_attr(s: Seq<char>) -> Seq<char>
    decreases s.len(),
{
    if s.len() == 0 {
        Seq::empty()
    } else {
        let c = s.last();
        escape_attr(s.drop_last()) + if c == '\\' {
            seq!['\\', '\\']
        } else if c == '"' {
            seq!['\\', '"']
        } else {
            seq![c]
        }
    }
}

/// The index of the first whitespace character of `s` at or after `k`, or `s.len()`.
pub open spec fn first_ws(s: Seq<char>, k: int) -> int
    decreases s.len() - k,
{
    if 0 <= k < s.len() && !is_white_space(s[k]) {
        first_ws(s, k + 1)
    } else {
        k
    }
}

/// What follows `:::` on an opening line: a kind name (any ASCII case), then an
/// optional title.
pub open spec fn parse_open(rest: Seq<char>) -> Option<(CalloutKind, Option<Seq<char>>)> {
    let w = first_ws(rest, 0);
    let name = rest.subrange(0, w);
    let title = if w < rest.len() {
        Some(trim(rest.subrange(w + 1, rest.len() as int)))
    } else {
        None
    };
    match callout_from_name(name.map_values(|c: char| ascii_lower(c))) {
        None => None,
        Some(kind) => Some(
            (
                kind,
                match title {
                    Some(t) => if t.len() == 0 {
                        None
                    } else {
                        Some(t)
                    },
                    None => None,
                },
            ),
        ),
    }
}

pub open spec fn callout_prefix() -> Seq<char> {
    seq!['\n', '<', 'C', 'a', 'l', 'l', 'o', 'u', 't', ' ', 'k', 'i', 'n', 'd', '=', '"']
}

pub open spec fn title_prefix() -> Seq<char> {
    seq![' ', 't', 'i', 't', 'l', 'e', '=', '"']
}

pub open spec fn open_end() -> Seq<char> {
    seq!['>', '\n', '\n']
}

pub open spec fn close_name() -> Seq<char> {
    seq!['<', '/', 'C', 'a', 'l', 'l', 'o', 'u', 't', '>']
}

/// `\n</Callout>\n\n`, written for a `:::` line.
pub open spec fn close_line() -> Seq<char> {
    seq!['\n'] + close_name() + seq!['\n', '\n']
}

/// `\n</Callout>\n`, written at the end for each directive left open.
pub open spec fn close_tail() -> Seq<char> {
    seq!['\n'] + close_name() + seq!['\n']
}

/// The opening tag a directive becomes.
pub open spec fn open_tag(kind: CalloutKind, title: Option<Seq<char>>) -> Seq<char> {
    callout_prefix() + callout_name(kind) + seq!['"'] + match title {
        Some(t) => title_prefix() + escape_attr(t) + seq!['"'],
        None => Seq::empty(),
    } + open_end()
}

/// One line of the source: fenced code passes through untouched; outside it,
/// `:::kind title` opens a callout and a bare `:::` closes the innermost one.
pub open spec fn expand_line(st: ExpandState, line: Seq<char>) -> ExpandState {
    let trimmed = trim(line);
    match st.fence {
        Some(marker) => ExpandState {
            out: st.out + line,
            fence: if has_prefix(trimmed, marker) {
                None
            } else {
                Some(marker)
            },
            depth: st.depth,
        },
        None => match fence_of(trimmed) {
            Some(marker) => ExpandState { out: st.out + line, fence: Some(marker), depth: st.depth },
            None => {
                if has_prefix(trimmed, colons()) {
                    let rest = trim(trimmed.subrange(3, trimmed.len() as int));
                    if rest.len() == 0 {
                        if st.depth > 0 {
                            ExpandState {
                                out: st.out + close_line(),
                                fence: None,
                                depth: (st.depth - 1) as nat,
                            }
                        } else {
                            ExpandState { out: st.out + line, fence: None, depth: st.depth }
                        }
                    } else {
                        match parse_open(rest) {
                            Some((kind, title)) => ExpandState {
                                out: st.out + open_tag(kind, title),
                                fence: None,
                                depth: st.depth + 1,
                            },
                            None => ExpandState { out: st.out + line, fence: None, depth: st.depth },
                        }
                    }
                } else {
                    ExpandState { out: st.out + line, fence: None, depth: st.depth }
                }
            },
        },
    }
}

pub open spec fn expand_lines(lines: Seq<Seq<char>>) -> ExpandState
    decreases lines.len(),
{
    if lines.len() == 0 {
        ExpandState { out: Seq::empty(), fence: None, depth: 0 }
    } else {
        expand_line(expand_lines(lines.drop_last()), lines.last())
    }
}

pub open spec fn close_all(depth: nat) -> Seq<char>
    decreases depth,
{
    if depth == 0 {
        Seq::empty()
    } else {
        close_all((depth - 1) as nat) + close_tail()
    }
}

/// The expanded source: every line rewritten in turn, then one closing tag for
/// each directive still open.
pub open spec fn expand_spec(source: Seq<char>) -> Seq<char> {
    let st = expand_lines(split_lines(source));
    st.out + close_all(st.depth)
}

// ---------------------------------------------------------------------------

fn run_of(v: &Vec<char>, lo: usize, hi: usize, ch: char) -> (r: usize)
    requires
        lo <= hi <= v.len(),
    ensures
        r as int == run_len(v@.subrange(lo as int, hi as int), ch, 0),
        r <= hi - lo,
{
    let ghost t = v@.subrange(lo as int, hi as int);
    let mut k: usize = 0;
    while lo + k < hi && v[lo + k] == ch
        invariant
            lo + k <= hi <= v.len(),
            t == v@.subrange(lo as int, hi as int),
            run_len(t, ch, k as int) == run_len(t, ch, 0),
        decreases hi - lo - k,
    {
        k += 1;
    }
    k
}

fn repeated(ch: char, n: usize) -> (r: Vec<char>)
    ensures
        r@ == Seq::new(n as nat, |i: int| ch),
{
    let mut r: Vec<char> = Vec::new();
    while r.len() < n
        invariant
            r@.len() <= n,
            forall|i: int| 0 <= i < r@.len() ==> r@[i] == ch,
        decreases n - r.len(),
    {
        r.push(ch);
    }
    proof {
        assert(r@ =~= Seq::new(n as nat, |i: int| ch));
    }
    r
}

fn fence_marker(v: &Vec<char>, lo: usize, hi: usize) -> (r: Option<Vec<char>>)
    requires
        lo <= hi <= v.len(),
    ensures
        match r {
            Some(m) => fence_of(v@.subrange(lo as int, hi as int)) == Some(m@),
            None => fence_of(v@.subrange(lo as int, hi as int)) is None,
        },
{
    let b = run_of(v, lo, hi, '`');
    if b >= 3 {
        return Some(repeated('`', b));
    }
    let t = run_of(v, lo, hi, '~');
    if t >= 3 {
        return Some(repeated('~', t));
    }
    None
}

fn escape_into(out: &mut Vec<char>, v: &Vec<char>, lo: usize, hi: usize)
    requires
        lo <= hi <= v.len(),
    ensures
        final(out)@ == old(out)@ + escape_attr(v@.subrange(lo as int, hi as int)),
{
    let mut i = lo;
    while i < hi
        invariant
            lo <= i <= hi <= v.len(),
            out@ == old(out)@ + escape_attr(v@.subrange(lo as int, i as int)),
        decreases hi - i,
    {
        let c = v[i];
        proof {
            assert(v@.subrange(lo as int, i + 1).drop_last() =~= v@.subrange(lo as int, i as int));
        }
        let ghost before = out@;
        if c == '\\' {
            out.push('\\');
            out.push('\\');
        } else if c == '"' {
            out.push('\\');
            out.push('"');
        } else {
            out.push(c);
        }
        i += 1;
        proof {
            assert(out@ =~= old(out)@ + escape_attr(v@.subrange(lo as int, i as int)));
        }
    }
}

fn push_all(out: &mut Vec<char>, s: &str)
    ensures
        final(out)@ == old(out)@ + s@,
{
    extend_str(out, s);
}

fn push_open_tag(out: &mut Vec<char>, kind: CalloutKind, title: &Option<(usize, usize)>, v: &Vec<char>)
    requires
        *title matches Some((a, b)) ==> a <= b <= v.len(),
    ensures
        final(out)@ == old(out)@ + open_tag(
            kind,
            match *title {
                Some((a, b)) => Some(v@.subrange(a as int, b as int)),
                None => None,
            },
        ),
{
    proof {
        reveal_strlit("\n<Callout kind=\"");
        reveal_strlit(" title=\"");
        reveal_strlit(">\n\n");
        reveal_strlit("\"");
        assert("\n<Callout kind=\""@ =~= callout_prefix());
        assert(" title=\""@ =~= title_prefix());
        assert(">\n\n"@ =~= open_end());
        assert("\""@ =~= seq!['"']);
    }
    let ghost start = out@;
    push_all(out, "\n<Callout kind=\"");
    push_all(out, kind.as_str());
    push_all(out, "\"");
    let ghost mid = out@;
    match title {
        Some((a, b)) => {
            push_all(out, " title=\"");
            escape_into(out, v, *a, *b);
            push_all(out, "\"");
        },
        None => {},
    }
    push_all(out, ">\n\n");
    proof {
        match *title {
            Some((a, b)) => {
                assert(out@ =~= start + open_tag(kind, Some(v@.subrange(a as int, b as int))));
            },
            None => {
                assert(out@ =~= start + open_tag(kind, None));
            },
        }
    }
}

proof fn lemma_first_ws(s: Seq<char>, k: int)
    requires
        0 <= k <= s.len(),
    ensures
        k <= first_ws(s, k) <= s.len(),
        first_ws(s, k) < s.len() ==> is_white_space(s[first_ws(s, k)]),
    decreases s.len() - k,
{
    if k < s.len() && !is_white_space(s[k]) {
        lemma_first_ws(s, k + 1);
    }
}

/// The kind and title bounds of a directive whose text after `:::` is `v[lo..hi]`.
fn open_directive(v: &Vec<char>, lo: usize, hi: usize) -> (r: Option<
    (CalloutKind, Option<(usize, usize)>),
>)
    requires
        lo <= hi <= v.len(),
    ensures
        match r {
            Some((kind, title)) => (title matches Some((a, b)) ==> a <= b <= v.len()) && parse_open(
                v@.subrange(lo as int, hi as int),
            ) == Some(
                (
                    kind,
                    match title {
                        Some((a, b)) => Some(v@.subrange(a as int, b as int)),
                        None => None,
                    },
                ),
            ),
            None => parse_open(v@.subrange(lo as int, hi as int)) is None,
        },
{
    let ghost rest = v@.subrange(lo as int, hi as int);
    proof {
        lemma_first_ws(rest, 0);
    }
    let mut w = lo;
    while w < hi && !is_whitespace(v[w])
        invariant
            lo <= w <= hi <= v.len(),
            rest == v@.subrange(lo as int, hi as int),
            first_ws(rest, w - lo) == first_ws(rest, 0),
        decreases hi - w,
    {
        w += 1;
    }
    let mut name: Vec<char> = Vec::new();
    let mut i = lo;
    while i < w
        invariant
            lo <= i <= w <= hi <= v.len(),
            name@ == v@.subrange(lo as int, i as int).map_values(|c: char| ascii_lower(c)),
        decreases w - i,
    {
        name.push(ascii_to_lower(v[i]));
        i += 1;
        proof {
            assert(name@ =~= v@.subrange(lo as int, i as int).map_values(|c: char| ascii_lower(c)));
        }
    }
    proof {
        assert(rest.subrange(0, w - lo) =~= v@.subrange(lo as int, w as int));
    }
    let name_str = string_of(&name);
    let kind = match CalloutKind::from_name(name_str.as_str()) {
        Some(k) => k,
        None => return None,
    };
    if w < hi {
        let (a, b) = trim_range(v, w + 1, hi);
        proof {
            assert(rest.subrange(w - lo + 1, rest.len() as int) =~= v@.subrange(w + 1, hi as int));
        }
        if a < b {
            Some((kind, Some((a, b))))
        } else {
            Some((kind, None))
        }
    } else {
        Some((kind, None))
    }
}

pub fn expand(source: &str) -> (r: String)
    ensures
        r@ == expand_spec(source@),
{
    let v = chars_of(source);
    let mut out: Vec<char> = Vec::new();
    let mut fence: Option<Vec<char>> = None;
    let mut depth: usize = 0;
    let mut pos: usize = 0;
    let ghost mut done: Seq<Seq<char>> = Seq::empty();
    proof {
        assert(lines_from(v@, 0) == done + lines_from(v@, 0));
    }
    while pos < v.len()
        invariant
            pos <= v.len(),
            v@ == source@,
            split_lines(v@) == done + lines_from(v@, pos as int),
            ({
                let st = expand_lines(done);
                &&& st.out == out@
                &&& st.depth == depth
                &&& st.fence == match fence {
                    Some(m) => Some(m@),
                    None => None::<Seq<char>>,
                }
            }),
            depth <= pos,
        decreases v.len() - pos,
    {
        let e = next_line_end(&v, pos);
        let ghost line = v@.subrange(pos as int, e as int);
        proof {
            lemma_line_end(v@, pos as int);
            assert(lines_from(v@, pos as int) == seq![line] + lines_from(v@, e as int));
            assert(done + (seq![line] + lines_from(v@, e as int)) =~= done.push(line) + lines_from(v@, e as int));
            assert(done.push(line).drop_last() =~= done);
        }
        let (tlo, thi) = trim_range(&v, pos, e);
        let ghost trimmed = v@.subrange(tlo as int, thi as int);
        let mut handled = false;
        match &fence {
            Some(marker) => {
                if starts_with_vec_at(&v, tlo, thi, marker) {
                    fence = None;
                }
                extend_range(&mut out, &v, pos, e);
                handled = true;
            },
            None => {
                match fence_marker(&v, tlo, thi) {
                    Some(m) => {
                        fence = Some(m);
                        extend_range(&mut out, &v, pos, e);
                        handled = true;
                    },
                    None => {},
                }
            },
        }
        if !handled {
            if starts_with_at(&v, tlo, thi, &[':', ':', ':']) {
                proof {
                    assert([':', ':', ':']@ =~= colons());
                }
                let (rlo, rhi) = trim_range(&v, tlo + 3, thi);
                proof {
                    assert(trimmed.subrange(3, trimmed.len() as int) =~= v@.subrange(tlo + 3, thi as int));
                }
                if rlo == rhi {
                    if depth > 0 {
                        depth -= 1;
                        push_all(&mut out, "\n</Callout>\n\n");
                        proof {
                            reveal_strlit("\n</Callout>\n\n");
                            assert("\n</Callout>\n\n"@ =~= close_line());
                        }
                        handled = true;
                    }
                } else {
                    match open_directive(&v, rlo, rhi) {
                        Some((kind, title)) => {
                            depth += 1;
                            push_open_tag(&mut out, kind, &title, &v);
                            handled = true;
                        },
                        None => {},
                    }
                }
            } else {
                proof {
                    assert([':', ':', ':']@ =~= colons());
                }
            }
            if !handled {
                extend_range(&mut out, &v, pos, e);
            }
        }
        proof {
            done = done.push(line);
        }
        pos = e;
    }
    proof {
        assert(lines_from(v@, pos as int) =~= Seq::<Seq<char>>::empty());
        assert(done =~= split_lines(v@));
    }
    let ghost st_out = out@;
    let mut k: usize = 0;
    while k < depth
        invariant
            k <= depth,
            out@ == st_out + close_all(k as nat),
        decreases depth - k,
    {
        push_all(&mut out, "\n</Callout>\n");
        proof {
            reveal_strlit("\n</Callout>\n");
            assert("\n</Callout>\n"@ =~= close_tail());
        }
        k += 1;
        proof {
            assert(out@ =~= st_out + close_all(k as nat));
        }
    }
    string_of(&out)
}

// ---------------------------------------------------------------------------
// Laws
// ---------------------------------------------------------------------------

/// No line of `lines`, trimmed, starts with `:::`.
pub open spec fn no_directive_lines(lines: Seq<Seq<char>>) -> bool {
    forall|i: int| 0 <= i < lines.len() ==> !has_prefix(#[trigger] trim(lines[i]), colons())
}

proof fn lemma_expand_plain(lines: Seq<Seq<char>>)
    requires
        no_directive_lines(lines),
    ensures
        expand_lines(lines).out == concat(lines),
        expand_lines(lines).depth == 0,
    decreases lines.len(),
{
    if lines.len() > 0 {
        let init = lines.drop_last();
        assert(no_directive_lines(init)) by {
            assert forall|i: int| 0 <= i < init.len() implies !has_prefix(
                #[trigger] trim(init[i]),
                colons(),
            ) by {
                assert(init[i] == lines[i]);
            }
        }
        lemma_expand_plain(init);
        assert(!has_prefix(trim(lines[lines.len() - 1]), colons()));
        assert(lines == init.push(lines.last()));
        lemma_concat_push(init, lines.last());
    }
}

/// A source in which no line starts with `:::` comes back unchanged.
pub proof fn law_expand_without_directives_is_identity(source: Seq<char>)
    requires
        no_directive_lines(split_lines(source)),
    ensures
        expand_spec(source) == source,
{
    lemma_expand_plain(split_lines(source));
    lemma_lines_concat(source, 0);
    assert(source.subrange(0, source.len() as int) =~= source);
    assert(close_all(0) =~= Seq::<char>::empty());
    assert(concat(split_lines(source)) + Seq::<char>::empty() =~= concat(split_lines(source)));
}

/// `s` contains `:::` somewhere.
pub open spec fn contains_colons(s: Seq<char>) -> bool {
    exists|i: int| 0 <= i && i + 3 <= s.len() && #[trigger] s.subrange(i, i + 3) == colons()
}

proof fn lemma_trim_start_is_suffix(s: Seq<char>) -> (j: int)
    ensures
        0 <= j <= s.len(),
        crate::text::trim_start(s) == s.subrange(j, s.len() as int),
    decreases s.len(),
{
    if s.len() > 0 && is_white_space(s[0]) {
        let k = lemma_trim_start_is_suffix(s.drop_first());
        assert(s.drop_first().subrange(k, s.drop_first().len() as int) =~= s.subrange(
            k + 1,
            s.len() as int,
        ));
        k + 1
    } else {
        assert(s.subrange(0, s.len() as int) =~= s);
        0
    }
}

proof fn lemma_trim_end_is_prefix(s: Seq<char>) -> (m: int)
    ensures
        0 <= m <= s.len(),
        crate::text::trim_end(s) == s.subrange(0, m),
    decreases s.len(),
{
    if s.len() > 0 && is_white_space(s.last()) {
        let k = lemma_trim_end_is_prefix(s.drop_last());
        assert(s.drop_last().subrange(0, k) =~= s.subrange(0, k));
        k
    } else {
        assert(s.subrange(0, s.len() as int) =~= s);
        s.len() as int
    }
}

/// Each line of `lines_from(s, lo)` is a stretch of `s`.
proof fn lemma_lines_are_ranges(s: Seq<char>, lo: int)
    requires
        0 <= lo <= s.len(),
    ensures
        forall|k: int|
            0 <= k < lines_from(s, lo).len() ==> exists|a: int, b: int|
                lo <= a <= b <= s.len() && #[trigger] lines_from(s, lo)[k] == s.subrange(a, b),
    decreases s.len() - lo,
{
    if lo < s.len() {
        lemma_line_end(s, lo);
        let e = line_end(s, lo);
        lemma_lines_are_ranges(s, e);
        let ls = lines_from(s, lo);
        assert(ls == seq![s.subrange(lo, e)] + lines_from(s, e));
        assert forall|k: int| 0 <= k < ls.len() implies exists|a: int, b: int|
            lo <= a <= b <= s.len() && #[trigger] ls[k] == s.subrange(a, b) by {
            if k == 0 {
                assert(ls[0] == s.subrange(lo, e));
            } else {
                assert(ls[k] == lines_from(s, e)[k - 1]);
            }
        }
    }
}

/// Only lines that, trimmed, start with `:::` are rewritten: a source that does not
/// contain `:::` at all comes back unchanged.
pub proof fn law_expand_without_colons_is_identity(source: Seq<char>)
    requires
        !contains_colons(source),
    ensures
        expand_spec(source) == source,
{
    let ls = split_lines(source);
    lemma_lines_are_ranges(source, 0);
    assert forall|k: int| 0 <= k < ls.len() implies !has_prefix(#[trigger] trim(ls[k]), colons()) by {
        let (a, b) = choose|a: int, b: int|
            0 <= a <= b <= source.len() && ls[k] == source.subrange(a, b);
        let line = ls[k];
        let j = lemma_trim_start_is_suffix(line);
        let st = crate::text::trim_start(line);
        let m = lemma_trim_end_is_prefix(st);
        let t = trim(line);
        assert(t == line.subrange(j, j + m));
        if has_prefix(t, colons()) {
            assert(source.subrange(a + j, a + j + 3) =~= t.subrange(0, 3));
            assert(contains_colons(source));
        }
    }
    law_expand_without_directives_is_identity(source);
}

proof fn lemma_escape_attr_concat(a: Seq<char>, b: Seq<char>)
    ensures
        escape_attr(a + b) == escape_attr(a) + escape_attr(b),
    decreases b.len(),
{
    if b.len() == 0 {
        assert(a + b =~= a);
        assert(escape_attr(a) + escape_attr(b) =~= escape_attr(a));
    } else {
        lemma_escape_attr_concat(a, b.drop_last());
        assert((a + b).drop_last() =~= a + b.drop_last());
        assert((a + b).last() == b.last());
    }
}

proof fn lemma_escape_attr_reads_back(b: Seq<char>, i: int, t: Seq<char>, acc: Seq<char>)
    requires
        0 <= i,
        i + escape_attr(t).len() < b.len(),
        b.subrange(i, i + escape_attr(t).len()) == escape_attr(t),
        b[i + escape_attr(t).len()] == '"',
    ensures
        crate::tag::quoted_scan(b, '"', i, false, acc) == Some((acc + t, i + escape_attr(t).len() + 1)),
    decreases t.len(),
{
    if t.len() == 0 {
        assert(acc + t =~= acc);
    } else {
        let c = t[0];
        let rest = t.skip(1);
        assert(t =~= seq![c] + rest);
        lemma_escape_attr_concat(seq![c], rest);
        assert(seq![c].drop_last() =~= Seq::<char>::empty());
        let p = escape_attr(seq![c]);
        assert(seq![c].last() == c);
        assert(escape_attr(seq![c].drop_last()) =~= Seq::<char>::empty());
        assert(Seq::<char>::empty() + seq!['\\', c] =~= seq!['\\', c]);
        assert(Seq::<char>::empty() + seq![c] =~= seq![c]);
        let n = p.len();
        assert(escape_attr(t) == p + escape_attr(rest));
        assert(b.subrange(i + n, i + n + escape_attr(rest).len()) =~= escape_attr(rest)) by {
            assert forall|k: int| 0 <= k < escape_attr(rest).len() implies b[i + n + k] == escape_attr(
                rest,
            )[k] by {
                assert(b.subrange(i, i + escape_attr(t).len())[n + k] == escape_attr(t)[n + k]);
            }
        }
        assert(b.subrange(i, i + escape_attr(t).len())[0] == b[i]);
        if c == '\\' || c == '"' {
            assert(p =~= seq!['\\', c]);
            assert(b[i] == '\\');
            assert(b.subrange(i, i + escape_attr(t).len())[1] == b[i + 1]);
            assert(b[i + 1] == c);
            lemma_escape_attr_reads_back(b, i + 2, rest, acc.push(c));
            assert(crate::tag::quoted_scan(b, '"', i + 1, true, acc) == crate::tag::quoted_scan(
                b,
                '"',
                i + 2,
                false,
                acc.push(c),
            ));
        } else {
            assert(p =~= seq![c]);
            assert(b[i] == c);
            lemma_escape_attr_reads_back(b, i + 1, rest, acc.push(c));
        }
        assert(acc.push(c) + rest =~= acc + t);
    }
}

/// The title written into a callout's `title` attribute reads back as the
/// directive's title: the tag parser's quoted value over the escaped title and its
/// closing quote gives exactly the title, whatever quotes or backslashes it holds.
pub proof fn law_callout_title_reads_back(title: Seq<char>, after: Seq<char>)
    ensures
        crate::tag::quoted_scan(escape_attr(title) + seq!['"'] + after, '"', 0, false, Seq::empty())
            == Some((title, escape_attr(title).len() + 1int)),
{
    let b = escape_attr(title) + seq!['"'] + after;
    assert(b.subrange(0, escape_attr(title).len() as int) =~= escape_attr(title));
    lemma_escape_attr_reads_back(b, 0, title, Seq::empty());
    assert(Seq::<char>::empty() + title =~= title);
}

} // verus!
