//! `dioxus-press.toml`, the only configuration file a site needs, and it is
//! optional. Reading and decoding the file is the caller's; what the settings mean
//! for routing is here.
use vstd::prelude::*;
use crate::text::{chars_of, extend_range, is_white_space, string_of, trim, trim_range};
use std::path::{Path, PathBuf};

verus! {

pub const CONFIG_FILE: &'static str = "dioxus-press.toml";

#[verifier::external_type_specification]
#[verifier::external_body]
pub struct ExPathBuf(PathBuf);

#[verifier::external_type_specification]
#[verifier::external_body]
pub struct ExPath(Path);

#[derive(Debug)]
pub struct Config {
    /// Site title, shown in the navbar and appended to page titles.
    pub title: String,
    pub description: Option<String>,
    /// Repository URL for the navbar link.
    pub repository: Option<String>,
    /// Markdown root, relative to the project.
    pub docs_dir: PathBuf,
    /// URL prefix for every documentation route. Empty serves the docs at `/`.
    pub base_path: String,
}

/// The path `PathBuf::from` makes of a string.
pub uninterp spec fn path_of(s: Seq<char>) -> PathBuf;

/// The path `Path::join` makes of a root and a part: the part under the root, or
/// the part itself where it is absolute, by the rules of the target platform.
pub uninterp spec fn joined_path(root: &Path, part: PathBuf) -> PathBuf;

/// `PathBuf::from` a string.
#[verifier::external_body]
fn path_from(s: &str) -> (r: PathBuf)
    ensures
        r == path_of(s@),
{
    PathBuf::from(s)
}

/// `Path::join`.
#[verifier::external_body]
fn path_join(root: &Path, part: &PathBuf) -> (r: PathBuf)
    ensures
        r == joined_path(root, *part),
{
    root.join(part)
}

impl Default for Config {
    /// Titled "Documentation", reading `docs/`, served at `/`.
    fn default() -> (r: Config)
        ensures
            r.title@ == "Documentation"@,
            r.description is None,
            r.repository is None,
            r.base_path@ == Seq::<char>::empty(),
            r.docs_dir == path_of("docs"@),
    {
        Config {
            title: "Documentation".to_string(),
            description: None,
            repository: None,
            docs_dir: path_from("docs"),
            base_path: String::new(),
        }
    }
}

// ---------------------------------------------------------------------------
// The base path
// ---------------------------------------------------------------------------

/// `s` without leading `c`s.
pub open spec fn strip_start(s: Seq<char>, c: char) -> Seq<char>
    decreases s.len(),
{
    if s.len() > 0 && s[0] == c {
        strip_start(s.drop_first(), c)
    } else {
        s
    }
}

/// `s` without trailing `c`s.
pub open spec fn strip_end(s: Seq<char>, c: char) -> Seq<char>
    decreases s.len(),
{
    if s.len() > 0 && s.last() == c {
        strip_end(s.drop_last(), c)
    } else {
        s
    }
}

/// `str::trim_matches(c)`.
pub open spec fn trim_matches(s: Seq<char>, c: char) -> Seq<char> {
    strip_end(strip_start(s, c), c)
}

/// The base path with surrounding whitespace and slashes removed, then one
/// leading slash put back; empty for the root.
pub open spec fn normalize_base(s: Seq<char>) -> Seq<char> {
    let t = trim_matches(trim(s), '/');
    if t.len() == 0 {
        Seq::empty()
    } else {
        seq!['/'] + t
    }
}

/// Where the documentation index lives: the normalized base, or `/`.
pub open spec fn docs_root_of(s: Seq<char>) -> Seq<char> {
    let base = normalize_base(s);
    if base.len() == 0 {
        seq!['/']
    } else {
        base
    }
}

proof fn lemma_strip_start_range(s: Seq<char>, a: int, b: int, c: char)
    requires
        0 <= a <= b <= s.len(),
        a < b ==> s[a] == c,
    ensures
        a < b ==> strip_start(s.subrange(a, b), c) == strip_start(s.subrange(a + 1, b), c),
{
    if a < b {
        assert(s.subrange(a, b).drop_first() =~= s.subrange(a + 1, b));
    }
}

pub(crate) proof fn lemma_strip_end_range(s: Seq<char>, a: int, b: int, c: char)
    requires
        0 <= a <= b <= s.len(),
        a < b ==> s[b - 1] == c,
    ensures
        a < b ==> strip_end(s.subrange(a, b), c) == strip_end(s.subrange(a, b - 1), c),
{
    if a < b {
        assert(s.subrange(a, b).drop_last() =~= s.subrange(a, b - 1));
    }
}

/// The bounds of `v[a..b]` with leading and trailing `c`s removed.
fn trim_char_range(v: &Vec<char>, a: usize, b: usize, c: char) -> (r: (usize, usize))
    requires
        a <= b <= v.len(),
    ensures
        a <= r.0 <= r.1 <= b,
        trim_matches(v@.subrange(a as int, b as int), c) == v@.subrange(r.0 as int, r.1 as int),
{
    let mut lo = a;
    while lo < b && v[lo] == c
        invariant
            a <= lo <= b <= v.len(),
            strip_start(v@.subrange(a as int, b as int), c) == strip_start(
                v@.subrange(lo as int, b as int),
                c,
            ),
        decreases b - lo,
    {
        proof {
            lemma_strip_start_range(v@, lo as int, b as int, c);
        }
        lo += 1;
    }
    let mut hi = b;
    proof {
        assert(strip_start(v@.subrange(lo as int, b as int), c) == v@.subrange(lo as int, b as int));
    }
    while hi > lo && v[hi - 1] == c
        invariant
            a <= lo <= hi <= b <= v.len(),
            strip_end(v@.subrange(lo as int, b as int), c) == strip_end(
                v@.subrange(lo as int, hi as int),
                c,
            ),
        decreases hi - lo,
    {
        proof {
            lemma_strip_end_range(v@, lo as int, hi as int, c);
        }
        hi -= 1;
    }
    (lo, hi)
}

/// The normalized base of a raw `base_path` value.
fn normalized(base_path: &str) -> (r: String)
    ensures
        r@ == normalize_base(base_path@),
{
    let v = chars_of(base_path);
    let (a, b) = trim_range(&v, 0, v.len());
    let (lo, hi) = trim_char_range(&v, a, b, '/');
    proof {
        assert(v@.subrange(0, v@.len() as int) =~= v@);
    }
    if lo == hi {
        return String::new();
    }
    let mut out: Vec<char> = Vec::new();
    out.push('/');
    extend_range(&mut out, &v, lo, hi);
    proof {
        assert(out@ =~= seq!['/'] + v@.subrange(lo as int, hi as int));
    }
    string_of(&out)
}

impl Config {
    /// Where the markdown lives: `docs_dir` under the project root.
    pub fn docs_path(&self, root: &Path) -> (r: PathBuf)
        ensures
            r == joined_path(root, self.docs_dir),
    {
        path_join(root, &self.docs_dir)
    }

    /// The base path with a leading slash and no trailing one. Empty means the root.
    pub fn normalized_base(&self) -> (r: String)
        ensures
            r@ == normalize_base(self.base_path@),
    {
        normalized(self.base_path.as_str())
    }

    /// Where the documentation index lives, for links back to it.
    pub fn docs_root(&self) -> (r: String)
        ensures
            r@ == docs_root_of(self.base_path@),
    {
        let base = self.normalized_base();
        if base.as_str().unicode_len() == 0 {
            proof {
                reveal_strlit("/");
            }
            "/".to_string()
        } else {
            base
        }
    }

    /// Whether the root is free for a landing page.
    pub fn has_landing(&self) -> (r: bool)
        ensures
            r == (normalize_base(self.base_path@).len() > 0),
    {
        let base = self.normalized_base();
        base.as_str().unicode_len() > 0
    }
}

// ---------------------------------------------------------------------------
// Laws
// ---------------------------------------------------------------------------

proof fn lemma_strip_start_first(s: Seq<char>, c: char)
    ensures
        strip_start(s, c).len() > 0 ==> strip_start(s, c)[0] != c,
        strip_start(s, c).len() <= s.len(),
    decreases s.len(),
{
    if s.len() > 0 && s[0] == c {
        lemma_strip_start_first(s.drop_first(), c);
    }
}

pub(crate) proof fn lemma_strip_end_keeps(s: Seq<char>, c: char)
    ensures
        strip_end(s, c).len() <= s.len(),
        strip_end(s, c) == s.subrange(0, strip_end(s, c).len() as int),
        strip_end(s, c).len() > 0 ==> strip_end(s, c).last() != c,
    decreases s.len(),
{
    if s.len() > 0 && s.last() == c {
        lemma_strip_end_keeps(s.drop_last(), c);
        let r = strip_end(s.drop_last(), c);
        assert(s.drop_last().subrange(0, r.len() as int) =~= s.subrange(0, r.len() as int));
    } else {
        assert(s.subrange(0, s.len() as int) =~= s);
    }
}

proof fn lemma_trim_fixed(n: Seq<char>)
    requires
        n.len() > 0,
        !is_white_space(n[0]),
        !is_white_space(n.last()),
    ensures
        trim(n) == n,
{
}

/// Normalizing a base path twice gives what normalizing it once gave, unless
/// what remains between its slashes ends in whitespace (`"docs /"` normalizes to
/// `"/docs "`, and that to `"/docs"`).
pub proof fn law_normalize_base_idempotent(s: Seq<char>)
    requires
        normalize_base(s).len() == 0 || !is_white_space(normalize_base(s).last()),
    ensures
        normalize_base(normalize_base(s)) == normalize_base(s),
{
    let n = normalize_base(s);
    if n.len() == 0 {
        assert(trim(n) =~= n);
        assert(trim_matches(n, '/') =~= n);
    } else {
        let u = strip_start(trim(s), '/');
        let t = strip_end(u, '/');
        lemma_strip_start_first(trim(s), '/');
        lemma_strip_end_keeps(u, '/');
        assert(t[0] == u[0]);
        assert(n == seq!['/'] + t);
        assert(n.last() == t.last());
        lemma_trim_fixed(n);
        assert(n.drop_first() =~= t);
        assert(strip_start(n, '/') == strip_start(t, '/'));
        assert(strip_start(t, '/') == t);
        assert(strip_end(t, '/') == t);
    }
}

/// The root is free for a landing page exactly when the docs do not live at `/`.
pub proof fn law_landing_iff_docs_below_root(s: Seq<char>)
    ensures
        (normalize_base(s).len() > 0) == (docs_root_of(s) != seq!['/']),
{
    let n = normalize_base(s);
    if n.len() > 0 {
        let t = trim_matches(trim(s), '/');
        assert(n.len() == t.len() + 1);
        assert(n.len() >= 2);
    }
}

/// A normalized base path is empty or starts with `/` and does not end with one.
pub proof fn law_normalized_base_shape(s: Seq<char>)
    ensures
        normalize_base(s).len() > 0 ==> normalize_base(s)[0] == '/' && normalize_base(s).last()
            != '/' && normalize_base(s).len() >= 2,
{
    let n = normalize_base(s);
    if n.len() > 0 {
        let u = strip_start(trim(s), '/');
        lemma_strip_end_keeps(u, '/');
    }
}

proof fn lemma_strip_start_suffix(s: Seq<char>, c: char) -> (j: int)
    ensures
        0 <= j <= s.len(),
        strip_start(s, c) == s.subrange(j, s.len() as int),
        strip_start(s, c).len() == 0 <==> forall|i: int| 0 <= i < s.len() ==> s[i] == c,
    decreases s.len(),
{
    if s.len() > 0 && s[0] == c {
        let k = lemma_strip_start_suffix(s.drop_first(), c);
        assert(s.drop_first().subrange(k, s.drop_first().len() as int) =~= s.subrange(k + 1, s.len() as int));
        if strip_start(s, c).len() == 0 {
            assert forall|i: int| 0 <= i < s.len() implies s[i] == c by {
                if i > 0 {
                    assert(s.drop_first()[i - 1] == s[i]);
                }
            }
        } else {
            assert(exists|i: int| 0 <= i < s.drop_first().len() && s.drop_first()[i] != c);
            let i = choose|i: int| 0 <= i < s.drop_first().len() && s.drop_first()[i] != c;
            assert(s[i + 1] != c);
        }
        k + 1
    } else {
        assert(s.subrange(0, s.len() as int) =~= s);
        if s.len() > 0 {
            assert(s[0] != c);
        }
        0
    }
}

/// For a base path with no whitespace in it: the normalized base is empty exactly
/// when the path is all slashes; otherwise it starts with a single slash and does
/// not end with one; and normalizing it again changes nothing.
pub proof fn law_normalized_base_without_whitespace(s: Seq<char>)
    requires
        forall|i: int| 0 <= i < s.len() ==> !is_white_space(s[i]),
    ensures
        (normalize_base(s).len() == 0) == (forall|i: int| 0 <= i < s.len() ==> s[i] == '/'),
        normalize_base(s).len() > 0 ==> normalize_base(s).len() >= 2 && normalize_base(s)[0] == '/'
            && normalize_base(s)[1] != '/' && normalize_base(s).last() != '/',
        normalize_base(normalize_base(s)) == normalize_base(s),
{
    if s.len() > 0 {
        lemma_trim_fixed(s);
    } else {
        assert(trim(s) =~= s);
    }
    let u = strip_start(s, '/');
    let j = lemma_strip_start_suffix(s, '/');
    lemma_strip_start_first(s, '/');
    lemma_strip_end_keeps(u, '/');
    let t = strip_end(u, '/');
    if u.len() > 0 {
        assert(t.len() > 0) by {
            if t.len() == 0 {
                lemma_strip_end_empty(u, '/');
                assert(u[0] == '/');
            }
        }
        assert(t[0] == u[0]);
        let n = normalize_base(s);
        assert(n[1] == t[0]);
        assert(n.last() == t.last());
        assert(t.last() == u[t.len() - 1]);
        assert(u[t.len() - 1] == s[j + t.len() - 1]);
        law_normalize_base_idempotent(s);
    } else {
        assert(t.len() == 0);
        law_normalize_base_idempotent(s);
    }
    law_normalized_base_shape(s);
}

proof fn lemma_strip_end_empty(s: Seq<char>, c: char)
    requires
        strip_end(s, c).len() == 0,
    ensures
        forall|i: int| 0 <= i < s.len() ==> s[i] == c,
    decreases s.len(),
{
    if s.len() > 0 && s.last() == c {
        lemma_strip_end_empty(s.drop_last(), c);
        assert forall|i: int| 0 <= i < s.len() implies s[i] == c by {
            if i < s.len() - 1 {
                assert(s.drop_last()[i] == s[i]);
            }
        }
    }
}

} // verus!
