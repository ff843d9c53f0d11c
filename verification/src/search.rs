//! The docs' search: ranking the build-time page index against a query, and the
//! route normalisation that decides which page is current.
use vstd::prelude::*;
use crate::text::{chars_of, extend_range, string_of, trim, trim_range, trimmed};
use crate::types::PageMeta;

verus! {

/// `str::to_lowercase` of a string with a character beyond ASCII: the lowercase
/// form, by Unicode's mappings and its final sigma rule.
pub uninterp spec fn unicode_str_lowercase(s: Seq<char>) -> Seq<char>;

pub open spec fn all_ascii(s: Seq<char>) -> bool {
    forall|i: int| 0 <= i < s.len() ==> crate::text::is_ascii_char(#[trigger] s[i])
}

/// `str::to_lowercase`: an ASCII string with its letters made lowercase.
pub open spec fn str_lowercase(s: Seq<char>) -> Seq<char> {
    if all_ascii(s) {
        s.map_values(|c: char| crate::text::ascii_lower(c))
    } else {
        unicode_str_lowercase(s)
    }
}

/// `str::to_lowercase`.
#[verifier::external_body]
fn lowercase(s: &str) -> (r: String)
    ensures
        r@ == str_lowercase(s@),
        !all_ascii(s@) ==> r@ == unicode_str_lowercase(s@),
{
    s.to_lowercase()
}

/// A search result: the page's route and title, and an excerpt to show under them.
pub struct Hit {
    pub route: &'static str,
    pub title: &'static str,
    pub snippet: String,
}

pub struct HitV {
    pub route: Seq<char>,
    pub title: Seq<char>,
    pub snippet: Seq<char>,
}

impl View for Hit {
    type V = HitV;

    open spec fn view(&self) -> HitV {
        HitV { route: self.route@, title: self.title@, snippet: self.snippet@ }
    }
}

pub open spec fn hits_view(h: Seq<Hit>) -> Seq<HitV> {
    h.map_values(|x: Hit| x@)
}

// ---------------------------------------------------------------------------
// Bytes
// ---------------------------------------------------------------------------

/// How many bytes a character takes in UTF-8.
pub open spec fn utf8_len(c: char) -> nat {
    if (c as u32) < 0x80 {
        1
    } else if (c as u32) < 0x800 {
        2
    } else if (c as u32) < 0x10000 {
        3
    } else {
        4
    }
}

/// How many bytes a string takes in UTF-8.
pub open spec fn utf8_bytes(s: Seq<char>) -> nat
    decreases s.len(),
{
    if s.len() == 0 {
        0
    } else {
        utf8_bytes(s.drop_last()) + utf8_len(s.last())
    }
}

/// The number of characters, from `k` on, before the last character boundary at
/// or below byte `idx` (`floor_boundary`).
pub open spec fn boundary_from(s: Seq<char>, idx: int, k: int) -> int
    decreases s.len() - k,
{
    if 0 <= k < s.len() && utf8_bytes(s.take(k + 1)) <= idx {
        boundary_from(s, idx, k + 1)
    } else {
        k
    }
}

// ---------------------------------------------------------------------------
// The ranking
// ---------------------------------------------------------------------------

/// `needle` occurs in `hay` at character `i`.
pub open spec fn matches_at(hay: Seq<char>, needle: Seq<char>, i: int) -> bool {
    0 <= i && i + needle.len() <= hay.len() && hay.subrange(i, i + needle.len()) == needle
}

/// The first place from `i` on where `needle` occurs in `hay` (`str::find`).
pub open spec fn find_from(hay: Seq<char>, needle: Seq<char>, i: int) -> Option<int>
    decreases hay.len() + 1 - i,
{
    if i < 0 || i + needle.len() > hay.len() {
        None
    } else if matches_at(hay, needle, i) {
        Some(i)
    } else {
        find_from(hay, needle, i + 1)
    }
}

/// `text` cut at the last character boundary within `max` bytes and trimmed, with
/// an ellipsis when something was cut off.
pub open spec fn truncate_spec(text: Seq<char>, max: int) -> Seq<char> {
    let k = boundary_from(text, max, 0);
    trim(text.take(k)) + if k < text.len() {
        seq!['…']
    } else {
        Seq::empty()
    }
}

pub open spec fn opt_str_view(o: Option<&'static str>) -> Option<Seq<char>> {
    match o {
        Some(s) => Some(s@),
        None => None,
    }
}

/// The excerpt of a hit: for a title match the page's description (else its text
/// cut to 90 bytes); for a match at byte `at` of the text, the text from 40 bytes
/// before it, cut to 110 bytes.
pub open spec fn snippet_spec(description: Option<Seq<char>>, text: Seq<char>, at: Option<int>) -> Seq<
    char,
> {
    match at {
        None => match description {
            Some(d) => d,
            None => truncate_spec(text, 90),
        },
        Some(a) => {
            let start = boundary_from(text, if a >= 40 { a - 40 } else { 0 }, 0);
            truncate_spec(text.skip(start), 110)
        },
    }
}

/// A page's score and hit for a lowercase needle: a title match scores its byte
/// offset in the lowercased title, a text match 1000 plus its byte offset in the
/// lowercased text; `None` when neither matches.
pub open spec fn page_hit(p: PageMeta, needle: Seq<char>) -> Option<(int, HitV)> {
    let tl = str_lowercase(p.title@);
    let xl = str_lowercase(p.text@);
    match find_from(tl, needle, 0) {
        Some(i) => Some(
            (
                utf8_bytes(tl.take(i)) as int,
                HitV {
                    route: p.route@,
                    title: p.title@,
                    snippet: snippet_spec(opt_str_view(p.description), p.text@, None),
                },
            ),
        ),
        None => match find_from(xl, needle, 0) {
            Some(i) => Some(
                (
                    1000 + utf8_bytes(xl.take(i)) as int,
                    HitV {
                        route: p.route@,
                        title: p.title@,
                        snippet: snippet_spec(
                            opt_str_view(p.description),
                            p.text@,
                            Some(utf8_bytes(xl.take(i)) as int),
                        ),
                    },
                ),
            ),
            None => None,
        },
    }
}

/// The scored hits of the pages, in page order.
pub open spec fn page_hits(pages: Seq<PageMeta>, needle: Seq<char>) -> Seq<(int, HitV)>
    decreases pages.len(),
{
    if pages.len() == 0 {
        Seq::empty()
    } else {
        let prev = page_hits(pages.drop_last(), needle);
        match page_hit(pages.last(), needle) {
            Some(h) => prev.push(h),
            None => prev,
        }
    }
}

/// Where a hit with score `key` goes among sorted hits: before the first with a
/// higher score, so that equal scores keep their order.
pub open spec fn insert_pos(s: Seq<(int, HitV)>, key: int, j: int) -> int
    decreases s.len() - j,
{
    if j < 0 || j >= s.len() {
        s.len() as int
    } else if s[j].0 > key {
        j
    } else {
        insert_pos(s, key, j + 1)
    }
}

pub open spec fn insert_sorted(s: Seq<(int, HitV)>, x: (int, HitV)) -> Seq<(int, HitV)> {
    s.insert(insert_pos(s, x.0, 0), x)
}

/// The hits stably sorted by score.
pub open spec fn sort_hits(s: Seq<(int, HitV)>) -> Seq<(int, HitV)>
    decreases s.len(),
{
    if s.len() == 0 {
        s
    } else {
        insert_sorted(sort_hits(s.drop_last()), s.last())
    }
}

/// What a search gives: nothing for a query that is blank once trimmed; else the
/// pages whose lowercased title or text contains the trimmed, lowercased query,
/// ranked by score (title matches by offset, text matches by 1000 plus offset),
/// pages with equal scores in index order, at most eight.
pub open spec fn search_spec(pages: Seq<PageMeta>, query: Seq<char>) -> Seq<HitV> {
    let needle = str_lowercase(trim(query));
    if needle.len() == 0 {
        Seq::empty()
    } else {
        let s = sort_hits(page_hits(pages, needle));
        let top = if s.len() > 8 {
            s.take(8)
        } else {
            s
        };
        top.map_values(|h: (int, HitV)| h.1)
    }
}

/// Scores never go down along `s`.
pub open spec fn by_score(s: Seq<(int, HitV)>) -> bool {
    forall|i: int, j: int| 0 <= i < j < s.len() ==> (#[trigger] s[i]).0 <= (#[trigger] s[j]).0
}

proof fn lemma_insert_pos(s: Seq<(int, HitV)>, key: int, j: int)
    requires
        0 <= j <= s.len(),
        by_score(s),
        forall|m: int| 0 <= m < j ==> (#[trigger] s[m]).0 <= key,
    ensures
        j <= insert_pos(s, key, j) <= s.len(),
        forall|m: int| 0 <= m < insert_pos(s, key, j) ==> (#[trigger] s[m]).0 <= key,
        forall|m: int| insert_pos(s, key, j) <= m < s.len() ==> (#[trigger] s[m]).0 > key,
    decreases s.len() - j,
{
    if j < s.len() && s[j].0 <= key {
        lemma_insert_pos(s, key, j + 1);
    } else if j < s.len() {
        assert forall|m: int| j <= m < s.len() implies (#[trigger] s[m]).0 > key by {
            if m > j {
                assert(s[j].0 <= s[m].0);
            }
        }
    }
}

/// Ranking the hits orders them by score and keeps every one of them.
pub proof fn law_ranking_sorted(s: Seq<(int, HitV)>)
    ensures
        by_score(sort_hits(s)),
        sort_hits(s).to_multiset() == s.to_multiset(),
    decreases s.len(),
{
    broadcast use vstd::seq_lib::group_to_multiset_ensures;

    if s.len() > 0 {
        law_ranking_sorted(s.drop_last());
        let sorted = sort_hits(s.drop_last());
        let x = s.last();
        lemma_insert_pos(sorted, x.0, 0);
        let p = insert_pos(sorted, x.0, 0);
        let r = sorted.insert(p, x);
        assert forall|i: int, j: int| 0 <= i < j < r.len() implies (#[trigger] r[i]).0 <= (
        #[trigger] r[j]).0 by {
            if j < p {
                assert(r[i] == sorted[i] && r[j] == sorted[j]);
            } else if j == p {
                assert(r[j] == x && r[i] == sorted[i]);
            } else if i < p {
                assert(r[i] == sorted[i] && r[j] == sorted[j - 1]);
            } else if i == p {
                assert(r[i] == x && r[j] == sorted[j - 1]);
            } else {
                assert(r[i] == sorted[i - 1] && r[j] == sorted[j - 1]);
            }
        }
        assert(s =~= s.drop_last().push(x));
        assert(r.to_multiset() == sorted.to_multiset().insert(x));
        assert(s.to_multiset() == s.drop_last().to_multiset().insert(x));
    }
}

/// The hits of `s` with score `v`, in their order in `s`.
pub open spec fn with_score(s: Seq<(int, HitV)>, v: int) -> Seq<(int, HitV)>
    decreases s.len(),
{
    if s.len() == 0 {
        s
    } else {
        with_score(s.drop_last(), v) + if s.last().0 == v {
            seq![s.last()]
        } else {
            Seq::empty()
        }
    }
}

proof fn lemma_with_score_concat(a: Seq<(int, HitV)>, b: Seq<(int, HitV)>, v: int)
    ensures
        with_score(a + b, v) == with_score(a, v) + with_score(b, v),
    decreases b.len(),
{
    if b.len() == 0 {
        assert(a + b =~= a);
        assert(with_score(a, v) + with_score(b, v) =~= with_score(a, v));
    } else {
        lemma_with_score_concat(a, b.drop_last(), v);
        assert((a + b).drop_last() =~= a + b.drop_last());
        assert((a + b).last() == b.last());
    }
}

proof fn lemma_with_score_none(s: Seq<(int, HitV)>, v: int)
    requires
        forall|i: int| 0 <= i < s.len() ==> (#[trigger] s[i]).0 != v,
    ensures
        with_score(s, v) == Seq::<(int, HitV)>::empty(),
    decreases s.len(),
{
    if s.len() > 0 {
        lemma_with_score_none(s.drop_last(), v);
        assert(s.last() == s[s.len() - 1]);
    }
}

/// Ranking is stable: the hits with any one score come in the order the pages
/// gave them.
pub proof fn law_ranking_stable(s: Seq<(int, HitV)>, v: int)
    ensures
        with_score(sort_hits(s), v) == with_score(s, v),
    decreases s.len(),
{
    if s.len() > 0 {
        let init = s.drop_last();
        law_ranking_stable(init, v);
        law_ranking_sorted(init);
        let sorted = sort_hits(init);
        let x = s.last();
        lemma_insert_pos(sorted, x.0, 0);
        let p = insert_pos(sorted, x.0, 0);
        let r = sorted.insert(p, x);
        let a = sorted.take(p);
        let b = sorted.skip(p);
        assert(r =~= a + seq![x] + b);
        assert(sorted =~= a + b);
        lemma_with_score_concat(a + seq![x], b, v);
        lemma_with_score_concat(a, seq![x], v);
        lemma_with_score_concat(a, b, v);
        let one = seq![x];
        assert(one.drop_last() =~= Seq::<(int, HitV)>::empty());
        assert(one.last() == x);
        assert(with_score(one.drop_last(), v) =~= Seq::<(int, HitV)>::empty());
        assert(Seq::<(int, HitV)>::empty() + seq![x] =~= seq![x]);
        assert(Seq::<(int, HitV)>::empty() + Seq::<(int, HitV)>::empty() =~= Seq::<(int, HitV)>::empty());
        if v == x.0 {
            assert forall|i: int| 0 <= i < b.len() implies (#[trigger] b[i]).0 != v by {
                assert(b[i] == sorted[p + i]);
            }
            lemma_with_score_none(b, v);
            assert(with_score(seq![x], v) =~= seq![x]);
            assert(with_score(a, v) + seq![x] + Seq::<(int, HitV)>::empty() =~= with_score(a, v) + seq![x]);
            assert(with_score(a, v) + Seq::<(int, HitV)>::empty() =~= with_score(a, v));
        } else {
            assert(with_score(seq![x], v) =~= Seq::<(int, HitV)>::empty());
            assert(with_score(a, v) + Seq::<(int, HitV)>::empty() =~= with_score(a, v));
            assert(with_score(s, v) == with_score(init, v) + Seq::<(int, HitV)>::empty());
            assert(with_score(init, v) + Seq::<(int, HitV)>::empty() =~= with_score(init, v));
        }
    }
}

/// A search gives the top of the ranking: the hits ranked by score (keeping every
/// hit), cut to at most eight from the best end, so that no hit left out scores
/// better than a hit given.
pub proof fn law_search_gives_best_hits(pages: Seq<PageMeta>, query: Seq<char>)
    ensures
        ({
            let needle = str_lowercase(trim(query));
            let ranking = sort_hits(page_hits(pages, needle));
            let r = search_spec(pages, query);
            &&& needle.len() > 0 ==> {
                &&& by_score(ranking)
                &&& ranking.to_multiset() == page_hits(pages, needle).to_multiset()
                &&& r.len() == if ranking.len() > 8 {
                    8
                } else {
                    ranking.len()
                }
                &&& forall|i: int| 0 <= i < r.len() ==> #[trigger] r[i] == ranking[i].1
                &&& forall|i: int, j: int|
                    0 <= i < r.len() <= j < ranking.len() ==> (#[trigger] ranking[i]).0 <= (
                    #[trigger] ranking[j]).0
            }
            &&& needle.len() == 0 ==> r.len() == 0
        }),
{
    let needle = str_lowercase(trim(query));
    law_ranking_sorted(page_hits(pages, needle));
}

/// At most eight results come back.
pub proof fn law_search_at_most_eight(pages: Seq<PageMeta>, query: Seq<char>)
    ensures
        search_spec(pages, query).len() <= 8,
{
}

// ---------------------------------------------------------------------------
// Executable
// ---------------------------------------------------------------------------

fn char_bytes(c: char) -> (n: u8)
    ensures
        n == utf8_len(c),
{
    let u = c as u32;
    if u < 0x80 {
        1
    } else if u < 0x800 {
        2
    } else if u < 0x10000 {
        3
    } else {
        4
    }
}

proof fn lemma_utf8_bytes_bound(s: Seq<char>)
    ensures
        utf8_bytes(s) <= 4 * s.len(),
    decreases s.len(),
{
    if s.len() > 0 {
        lemma_utf8_bytes_bound(s.drop_last());
    }
}

/// The bytes of the first `k` characters.
fn prefix_bytes(v: &Vec<char>, k: usize) -> (n: u128)
    requires
        k <= v.len(),
    ensures
        n == utf8_bytes(v@.take(k as int)),
        n <= 4 * k,
{
    let mut n: u128 = 0;
    let mut i: usize = 0;
    while i < k
        invariant
            i <= k <= v.len(),
            n == utf8_bytes(v@.take(i as int)),
            n <= 4 * i,
        decreases k - i,
    {
        proof {
            assert(v@.take(i as int + 1).drop_last() =~= v@.take(i as int));
        }
        n = n + char_bytes(v[i]) as u128;
        i += 1;
    }
    n
}

/// The number of characters before the last character boundary at or below byte
/// `idx`.
fn boundary(v: &Vec<char>, idx: u128) -> (k: usize)
    ensures
        k == boundary_from(v@, idx as int, 0),
        k <= v.len(),
{
    let mut k: usize = 0;
    let mut b: u128 = 0;
    while k < v.len() && b + char_bytes(v[k]) as u128 <= idx
        invariant
            k <= v.len(),
            b == utf8_bytes(v@.take(k as int)),
            b <= 4 * k,
            boundary_from(v@, idx as int, k as int) == boundary_from(v@, idx as int, 0),
        decreases v.len() - k,
    {
        proof {
            assert(v@.take(k as int + 1).drop_last() =~= v@.take(k as int));
        }
        b = b + char_bytes(v[k]) as u128;
        k += 1;
    }
    proof {
        if k < v.len() {
            assert(v@.take(k as int + 1).drop_last() =~= v@.take(k as int));
        }
    }
    k
}

fn truncate(v: &Vec<char>, max: u128) -> (r: String)
    ensures
        r@ == truncate_spec(v@, max as int),
{
    let k = boundary(v, max);
    let (a, b) = trim_range(v, 0, k);
    let mut out: Vec<char> = Vec::new();
    extend_range(&mut out, v, a, b);
    if k < v.len() {
        out.push('…');
    }
    proof {
        assert(v@.take(k as int) =~= v@.subrange(0, k as int));
        if k < v.len() {
            assert(out@ =~= v@.subrange(a as int, b as int) + seq!['…']);
        } else {
            assert(out@ =~= v@.subrange(a as int, b as int) + Seq::<char>::empty());
        }
    }
    string_of(&out)
}

fn snippet(p: &PageMeta, at: Option<u128>) -> (r: String)
    ensures
        r@ == snippet_spec(
            opt_str_view(p.description),
            p.text@,
            match at {
                Some(a) => Some(a as int),
                None => None,
            },
        ),
{
    let v = chars_of(p.text);
    match at {
        None => match p.description {
            Some(d) => d.to_string(),
            None => truncate(&v, 90),
        },
        Some(a) => {
            let lo: u128 = if a >= 40 {
                a - 40
            } else {
                0
            };
            let start = boundary(&v, lo);
            let mut rest: Vec<char> = Vec::new();
            extend_range(&mut rest, &v, start, v.len());
            proof {
                assert(rest@ =~= v@.skip(start as int));
            }
            truncate(&rest, 110)
        },
    }
}

/// Whether `needle` occurs in `hay` at `i`.
fn matches_here(hay: &Vec<char>, needle: &Vec<char>, i: usize) -> (b: bool)
    requires
        i + needle.len() <= hay.len(),
    ensures
        b == matches_at(hay@, needle@, i as int),
{
    let mut j: usize = 0;
    while j < needle.len()
        invariant
            j <= needle.len(),
            i + needle.len() <= hay.len(),
            hay@.subrange(i as int, i + j) =~= needle@.subrange(0, j as int),
        decreases needle.len() - j,
    {
        if hay[i + j] != needle[j] {
            proof {
                assert(hay@.subrange(i as int, i + needle.len())[j as int] == hay@[i + j]);
            }
            return false;
        }
        proof {
            assert(hay@.subrange(i as int, i + j + 1) =~= hay@.subrange(i as int, i + j).push(
                hay@[i + j],
            ));
            assert(needle@.subrange(0, j + 1) =~= needle@.subrange(0, j as int).push(needle@[j as int]));
        }
        j += 1;
    }
    proof {
        assert(needle@.subrange(0, needle@.len() as int) =~= needle@);
    }
    true
}

/// The first place where `needle` occurs in `hay`.
fn find_in(hay: &Vec<char>, needle: &Vec<char>) -> (r: Option<usize>)
    requires
        needle@.len() > 0,
    ensures
        match r {
            Some(i) => find_from(hay@, needle@, 0) == Some(i as int) && i <= hay.len(),
            None => find_from(hay@, needle@, 0) is None,
        },
{
    if needle.len() > hay.len() {
        return None;
    }
    let last = hay.len() - needle.len();
    let mut i: usize = 0;
    while i <= last
        invariant
            last == hay.len() - needle.len(),
            needle@.len() > 0,
            last + needle@.len() == hay@.len(),
            i <= last + 1,
            find_from(hay@, needle@, i as int) == find_from(hay@, needle@, 0),
        decreases last + 1 - i,
    {
        if matches_here(hay, needle, i) {
            return Some(i);
        }
        i += 1;
    }
    None
}

pub open spec fn scored_view(h: Seq<(u128, Hit)>) -> Seq<(int, HitV)> {
    h.map_values(|x: (u128, Hit)| (x.0 as int, x.1@))
}

pub open spec fn opt_scored(o: Option<(u128, Hit)>) -> Option<(int, HitV)> {
    match o {
        Some(x) => Some((x.0 as int, x.1@)),
        None => None,
    }
}

fn score_page(p: &PageMeta, needle: &Vec<char>) -> (r: Option<(u128, Hit)>)
    requires
        needle@.len() > 0,
    ensures
        opt_scored(r) == page_hit(*p, needle@),
{
    let tls = lowercase(p.title);
    let tl = chars_of(tls.as_str());
    match find_in(&tl, needle) {
        Some(i) => {
            let score = prefix_bytes(&tl, i);
            let snip = snippet(p, None);
            Some((score, Hit { route: p.route, title: p.title, snippet: snip }))
        },
        None => {
            let xls = lowercase(p.text);
            let xl = chars_of(xls.as_str());
            match find_in(&xl, needle) {
                Some(i) => {
                    let at = prefix_bytes(&xl, i);
                    let snip = snippet(p, Some(at));
                    Some((1000 + at, Hit { route: p.route, title: p.title, snippet: snip }))
                },
                None => None,
            }
        },
    }
}

fn insert_hit(hits: &mut Vec<(u128, Hit)>, score: u128, hit: Hit)
    ensures
        scored_view(final(hits)@) == insert_sorted(scored_view(old(hits)@), (score as int, hit@)),
{
    let ghost sv = scored_view(hits@);
    let mut j: usize = 0;
    while j < hits.len() && hits[j].0 <= score
        invariant
            j <= hits@.len(),
            sv == scored_view(hits@),
            insert_pos(sv, score as int, j as int) == insert_pos(sv, score as int, 0),
        decreases hits.len() - j,
    {
        j += 1;
    }
    let ghost x = (score as int, hit@);
    hits.insert(j, (score, hit));
    proof {
        assert(scored_view(hits@) =~= sv.insert(j as int, x));
    }
}

/// Ranks pages by where the query matches: title beats body, earlier beats later.
pub fn search(pages: &[PageMeta], query: &str) -> (r: Vec<Hit>)
    ensures
        hits_view(r@) == search_spec(pages@, query@),
{
    let t = trimmed(query);
    let ts = string_of(&t);
    let ns = lowercase(ts.as_str());
    let needle = chars_of(ns.as_str());
    if needle.len() == 0 {
        let none: Vec<Hit> = Vec::new();
        proof {
            assert(hits_view(none@) =~= Seq::<HitV>::empty());
        }
        return none;
    }
    let mut hits: Vec<(u128, Hit)> = Vec::new();
    let mut i: usize = 0;
    proof {
        assert(pages@.take(0) =~= Seq::<PageMeta>::empty());
        assert(scored_view(hits@) =~= Seq::<(int, HitV)>::empty());
    }
    while i < pages.len()
        invariant
            i <= pages@.len(),
            needle@ == str_lowercase(trim(query@)),
            needle@.len() > 0,
            scored_view(hits@) == sort_hits(page_hits(pages@.take(i as int), needle@)),
        decreases pages.len() - i,
    {
        let ghost prev = page_hits(pages@.take(i as int), needle@);
        proof {
            assert(pages@.take(i as int + 1).drop_last() =~= pages@.take(i as int));
            assert(pages@.take(i as int + 1).last() == pages@[i as int]);
        }
        match score_page(&pages[i], &needle) {
            Some((score, hit)) => {
                insert_hit(&mut hits, score, hit);
                proof {
                    let h = (score as int, hit@);
                    assert(page_hits(pages@.take(i as int + 1), needle@) == prev.push(h));
                    assert(prev.push(h).drop_last() =~= prev);
                }
            },
            None => {},
        }
        i += 1;
    }
    proof {
        assert(pages@.take(i as int) =~= pages@);
    }
    let ghost sorted = scored_view(hits@);
    while hits.len() > 8
        invariant
            sorted.len() > 8 ==> scored_view(hits@) == sorted.take(hits@.len() as int),
            sorted.len() <= 8 ==> scored_view(hits@) == sorted,
            sorted.len() > 8 ==> hits@.len() >= 8,
            hits@.len() <= sorted.len(),
        decreases hits.len(),
    {
        hits.pop();
        proof {
            assert(scored_view(hits@) =~= sorted.take(hits@.len() as int));
        }
    }
    let ghost top = scored_view(hits@);
    let mut out: Vec<Hit> = Vec::new();
    let ghost n = hits@.len();
    while hits.len() > 0
        invariant
            n == top.len(),
            hits@.len() <= n,
            scored_view(hits@) == top.skip(n - hits@.len()),
            hits_view(out@) == top.take(n - hits@.len()).map_values(|h: (int, HitV)| h.1),
        decreases hits.len(),
    {
        let ghost k = n - hits@.len();
        let ghost before = hits@;
        let ghost out0 = out@;
        let (_, h) = hits.remove(0);
        proof {
            assert(scored_view(before)[0] == top.skip(k)[0]);
            assert(top[k] == (before[0].0 as int, h@));
            assert(hits@ =~= before.skip(1));
        }
        out.push(h);
        proof {
            assert(scored_view(hits@) =~= scored_view(before).skip(1));
            assert(top.skip(k).skip(1) =~= top.skip(k + 1));
            assert(scored_view(hits@) =~= top.skip(n - hits@.len()));
            assert(hits_view(out@) =~= hits_view(out0).push(h@));
            assert(top.take(k + 1).map_values(|h: (int, HitV)| h.1) =~= top.take(k).map_values(
                |h: (int, HitV)| h.1,
            ).push(top[k].1));
            assert(hits_view(out@) =~= top.take(n - hits@.len()).map_values(|h: (int, HitV)| h.1));
        }
    }
    proof {
        assert(top.take(n as int) =~= top);
    }
    out
}

// ---------------------------------------------------------------------------
// Routes
// ---------------------------------------------------------------------------

/// The index of the first `?` or `#` in `s` from `i` on; its length without one.
pub open spec fn query_start(s: Seq<char>, i: int) -> int
    decreases s.len() - i,
{
    if i < 0 || i >= s.len() {
        s.len() as int
    } else if s[i] == '?' || s[i] == '#' {
        i
    } else {
        query_start(s, i + 1)
    }
}

/// `s` without its trailing slashes.
pub open spec fn trim_slashes_end(s: Seq<char>) -> Seq<char>
    decreases s.len(),
{
    if s.len() > 0 && s.last() == '/' {
        trim_slashes_end(s.drop_last())
    } else {
        s
    }
}

/// A route cut at its query or fragment, without trailing slashes; `/` when
/// nothing is left.
pub open spec fn normalize_spec(route: Seq<char>) -> Seq<char> {
    let t = trim_slashes_end(route.take(query_start(route, 0)));
    if t.len() == 0 {
        seq!['/']
    } else {
        t
    }
}

/// The current path, normalised so `/guides/` and `/guides?x=1` both match `/guides`.
pub fn normalize(route: &str) -> (r: String)
    ensures
        r@ == normalize_spec(route@),
{
    let v = chars_of(route);
    let mut q: usize = 0;
    while q < v.len() && v[q] != '?' && v[q] != '#'
        invariant
            q <= v.len(),
            v@ == route@,
            query_start(v@, q as int) == query_start(v@, 0),
        decreases v.len() - q,
    {
        q += 1;
    }
    let mut e = q;
    proof {
        assert(v@.take(q as int) =~= v@.subrange(0, q as int));
    }
    while e > 0 && v[e - 1] == '/'
        invariant
            e <= q <= v.len(),
            trim_slashes_end(v@.subrange(0, e as int)) == trim_slashes_end(v@.take(q as int)),
        decreases e,
    {
        proof {
            assert(v@.subrange(0, e as int).drop_last() =~= v@.subrange(0, e - 1));
        }
        e -= 1;
    }
    proof {
        if e > 0 {
            assert(v@.subrange(0, e as int).last() == v@[e - 1]);
        }
    }
    if e == 0 {
        let mut out: Vec<char> = Vec::new();
        out.push('/');
        proof {
            assert(out@ =~= seq!['/']);
        }
        string_of(&out)
    } else {
        let mut out: Vec<char> = Vec::new();
        extend_range(&mut out, &v, 0, e);
        proof {
            assert(out@ =~= v@.subrange(0, e as int));
        }
        string_of(&out)
    }
}

} // verus!
