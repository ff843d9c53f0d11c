//! The `dxpress new` scaffold: how the generated project depends on Dioxus Press,
//! and the files it is written with.
use vstd::prelude::*;
use crate::config::ExPathBuf;
use crate::text::{chars_of, extend_str, is_ascii_alnum, string_of};
use std::path::PathBuf;

verus! {

/// How the generated project should depend on the Dioxus Press crates.
#[derive(Debug)]
pub enum Deps {
    /// Published crates, the normal case.
    Registry,
    /// Path dependencies into a checkout, for working on Dioxus Press itself.
    Local(PathBuf),
}

/// The text `Path::display` shows for a path: its bytes read as UTF-8, lossily,
/// by the rules of the target platform.
pub uninterp spec fn displayed(path: PathBuf) -> Seq<char>;

/// `Path::display`, collected into a string.
#[verifier::external_body]
fn display(path: &PathBuf) -> (r: String)
    ensures
        r@ == displayed(*path),
{
    path.display().to_string()
}

pub open spec fn registry_entry(version: Seq<char>) -> Seq<char> {
    "{ version = \""@ + version + "\", default-features = false }"@
}

pub open spec fn local_entry(shown: Seq<char>) -> Seq<char> {
    "{ path = \""@ + shown + "\", default-features = false }"@
}

/// The dependency table for a way of depending on the crates.
pub open spec fn dep_entry(deps: Deps, version: Seq<char>) -> Seq<char> {
    match deps {
        Deps::Registry => registry_entry(version),
        Deps::Local(root) => local_entry(displayed(root)),
    }
}

fn quoted_entry(head: &str, value: &str) -> (r: String)
    ensures
        r@ == head@ + value@ + "\", default-features = false }"@,
{
    let mut v: Vec<char> = Vec::new();
    extend_str(&mut v, head);
    extend_str(&mut v, value);
    extend_str(&mut v, "\", default-features = false }");
    proof {
        assert(v@ =~= head@ + value@ + "\", default-features = false }"@);
    }
    string_of(&v)
}

impl Deps {
    /// Prefers a live checkout (the one this binary was built from, if it is still
    /// on disk); without one, the published crates.
    pub fn detect(checkout: Option<PathBuf>) -> (r: Deps)
        ensures
            match checkout {
                Some(root) => r == Deps::Local(root),
                None => r == Deps::Registry,
            },
    {
        match checkout {
            Some(root) => Deps::Local(root),
            None => Deps::Registry,
        }
    }

    /// The dependency table for `dioxus-press` in the generated manifest.
    /// `default-features = false` keeps the CLI's parser and highlighter out of the
    /// site's build; all it needs is the shared types.
    pub fn entry(&self, version: &str) -> (r: String)
        ensures
            r@ == dep_entry(*self, version@),
    {
        proof {
            reveal_strlit("{ version = \"");
            reveal_strlit("{ path = \"");
            reveal_strlit("\", default-features = false }");
        }
        match self {
            Deps::Registry => quoted_entry("{ version = \"", version),
            Deps::Local(root) => {
                let shown = display(root);
                let r = quoted_entry("{ path = \"", shown.as_str());
                assert(r@ == local_entry(shown@));
                r
            },
        }
    }
}

// ---------------------------------------------------------------------------
// Placeholders
// ---------------------------------------------------------------------------

/// `str::replace`: every non-overlapping occurrence of `pat` in `s[i..]`, left to
/// right, replaced by `rep`.
pub open spec fn replaced(s: Seq<char>, pat: Seq<char>, rep: Seq<char>, i: int) -> Seq<char>
    decreases s.len() - i,
{
    if i < 0 || i >= s.len() {
        Seq::empty()
    } else if pat.len() > 0 && i + pat.len() <= s.len() && s.subrange(i, i + pat.len()) == pat {
        rep + replaced(s, pat, rep, i + pat.len())
    } else {
        seq![s[i]] + replaced(s, pat, rep, i + 1)
    }
}

/// `s` with every `pat` replaced by `rep`; `pat` is not empty.
pub fn replace_all(s: &str, pat: &str, rep: &str) -> (r: String)
    requires
        pat@.len() > 0,
    ensures
        r@ == replaced(s@, pat@, rep@, 0),
{
    let v = chars_of(s);
    let p = chars_of(pat);
    let mut out: Vec<char> = Vec::new();
    let mut i: usize = 0;
    proof {
        assert(out@ + replaced(v@, p@, rep@, 0) =~= replaced(v@, p@, rep@, 0));
    }
    while i < v.len()
        invariant
            i <= v@.len(),
            v@ == s@,
            p@ == pat@,
            p@.len() > 0,
            out@ + replaced(v@, p@, rep@, i as int) == replaced(v@, p@, rep@, 0),
        decreases v.len() - i,
    {
        if p.len() <= v.len() - i && crate::text::starts_with_vec_at(&v, i, v.len(), &p) {
            proof {
                assert(v@.subrange(i as int, v@.len() as int).subrange(0, p@.len() as int) =~= v@.subrange(
                    i as int,
                    i + p@.len(),
                ));
            }
            let ghost before = out@;
            extend_str(&mut out, rep);
            proof {
                assert(before + replaced(v@, p@, rep@, i as int) =~= out@ + replaced(v@, p@, rep@, i + p@.len()));
            }
            i += p.len();
        } else {
            proof {
                if i + p@.len() <= v@.len() {
                    assert(v@.subrange(i as int, v@.len() as int).subrange(0, p@.len() as int) =~= v@.subrange(
                        i as int,
                        i + p@.len(),
                    ));
                }
            }
            let ghost before = out@;
            out.push(v[i]);
            proof {
                assert(before + replaced(v@, p@, rep@, i as int) =~= out@ + replaced(v@, p@, rep@, i + 1));
            }
            i += 1;
        }
    }
    proof {
        assert(out@ + Seq::<char>::empty() =~= out@);
    }
    string_of(&out)
}

proof fn lemma_replaced_untouched(s: Seq<char>, pat: Seq<char>, rep: Seq<char>, i: int)
    requires
        0 <= i <= s.len(),
        pat.len() > 0,
        forall|k: int| 0 <= k && k + pat.len() <= s.len() ==> #[trigger] s.subrange(k, k + pat.len()) != pat,
    ensures
        replaced(s, pat, rep, i) == s.subrange(i, s.len() as int),
    decreases s.len() - i,
{
    if i < s.len() {
        lemma_replaced_untouched(s, pat, rep, i + 1);
        assert(seq![s[i]] + s.subrange(i + 1, s.len() as int) =~= s.subrange(i, s.len() as int));
    }
}

/// Text without the placeholder comes out of a replacement unchanged.
pub proof fn law_replace_leaves_other_text(s: Seq<char>, pat: Seq<char>, rep: Seq<char>)
    requires
        pat.len() > 0,
        forall|k: int| 0 <= k && k + pat.len() <= s.len() ==> #[trigger] s.subrange(k, k + pat.len()) != pat,
    ensures
        replaced(s, pat, rep, 0) == s,
{
    lemma_replaced_untouched(s, pat, rep, 0);
    assert(s.subrange(0, s.len() as int) =~= s);
}

/// A file of the scaffold: its path under the new project and its contents.
#[derive(Debug, Clone, PartialEq)]
pub struct TemplateFile {
    pub path: String,
    pub contents: String,
}

pub open spec fn name_mark() -> Seq<char> {
    "{{name}}"@
}

pub open spec fn dep_mark() -> Seq<char> {
    "{{types_dep}}"@
}

/// What a scaffold writes: `Cargo.toml` from the manifest template with the
/// crate's name and its `dioxus-press` dependency filled in, `.gitignore` (stored
/// undotted, since packaging strips dotfiles), then every template file with the
/// name filled in.
pub fn scaffold(
    name: &str,
    deps: &Deps,
    version: &str,
    manifest: &str,
    gitignore: &str,
    templates: &Vec<TemplateFile>,
) -> (r: Vec<TemplateFile>)
    ensures
        r@.len() == templates@.len() + 2,
        r@[0].path@ == "Cargo.toml"@,
        r@[0].contents@ == replaced(
            replaced(manifest@, name_mark(), name@, 0),
            dep_mark(),
            dep_entry(*deps, version@),
            0,
        ),
        r@[1].path@ == ".gitignore"@,
        r@[1].contents@ == gitignore@,
        forall|i: int|
            0 <= i < templates@.len() ==> (#[trigger] r@[i + 2]).path@ == templates@[i].path@ && r@[i
                + 2].contents@ == replaced(templates@[i].contents@, name_mark(), name@, 0),
{
    proof {
        reveal_strlit("{{name}}");
        reveal_strlit("{{types_dep}}");
    }
    let entry = deps.entry(version);
    let named = replace_all(manifest, "{{name}}", name);
    let contents = replace_all(named.as_str(), "{{types_dep}}", entry.as_str());
    let mut out: Vec<TemplateFile> = Vec::new();
    out.push(TemplateFile { path: "Cargo.toml".to_string(), contents });
    out.push(TemplateFile { path: ".gitignore".to_string(), contents: gitignore.to_string() });
    let mut i: usize = 0;
    while i < templates.len()
        invariant
            i <= templates@.len(),
            out@.len() == i + 2,
            out@[0].path@ == "Cargo.toml"@,
            out@[0].contents@ == replaced(
                replaced(manifest@, name_mark(), name@, 0),
                dep_mark(),
                entry@,
                0,
            ),
            out@[1].path@ == ".gitignore"@,
            out@[1].contents@ == gitignore@,
            name_mark() == "{{name}}"@,
            "{{name}}"@.len() > 0,
            forall|j: int|
                0 <= j < i ==> (#[trigger] out@[j + 2]).path@ == templates@[j].path@ && out@[j
                    + 2].contents@ == replaced(templates@[j].contents@, name_mark(), name@, 0),
        decreases templates.len() - i,
    {
        let file = TemplateFile {
            path: templates[i].path.clone(),
            contents: replace_all(templates[i].contents.as_str(), "{{name}}", name),
        };
        out.push(file);
        i += 1;
    }
    out
}

/// A crate name the scaffold accepts: ASCII letters, digits, `-` and `_`.
pub open spec fn crate_name_ok(name: Seq<char>) -> bool {
    forall|i: int| 0 <= i < name.len() ==> is_ascii_alnum(#[trigger] name[i]) || name[i] == '-' || name[i]
        == '_'
}

pub fn valid_crate_name(name: &str) -> (b: bool)
    ensures
        b == crate_name_ok(name@),
{
    let v = chars_of(name);
    let mut i: usize = 0;
    while i < v.len()
        invariant
            i <= v@.len(),
            v@ == name@,
            forall|j: int| 0 <= j < i ==> is_ascii_alnum(#[trigger] v@[j]) || v@[j] == '-' || v@[j] == '_',
        decreases v.len() - i,
    {
        let c = v[i];
        let ok = ('a' <= c && c <= 'z') || ('A' <= c && c <= 'Z') || ('0' <= c && c <= '9') || c == '-'
            || c == '_';
        if !ok {
            return false;
        }
        i += 1;
    }
    true
}

} // verus!
