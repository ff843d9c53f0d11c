//! Build-time syntax highlighting, resolved for a light and a dark theme.
use vstd::prelude::*;
use crate::ast::{HlToken, HlTokenV, tokens_view};
use crate::lang::{
    colour_of, lang_matches, lang_scan, lang_step, lang_tokens, push_run, Language, LanguageV,
    languages_view,
};
use crate::text::{
    chars_of, concat, has_prefix, is_ascii_char, is_white_space, lemma_line_end, line_end, lines_from, next_line_end, split_lines,
    string_of_range, trim, trimmed,
};
use syntect::easy::HighlightLines;
use syntect::highlighting::{Theme, ThemeSet};
use syntect::parsing::{SyntaxReference, SyntaxSet};

verus! {

#[verifier::external_type_specification]
#[verifier::external_body]
pub struct ExSyntaxSet(SyntaxSet);

#[verifier::external_type_specification]
#[verifier::external_body]
pub struct ExSyntaxReference(SyntaxReference);

#[verifier::external_type_specification]
#[verifier::external_body]
pub struct ExTheme(Theme);

#[verifier::external_type_specification]
#[verifier::external_body]
pub struct ExThemeSet(ThemeSet);

#[verifier::external_type_specification]
#[verifier::external_body]
pub struct ExHighlightLines<'a>(HighlightLines<'a>);

/// One styled run of a line: its foreground colour and its text.
pub struct Run {
    pub rgb: (u8, u8, u8),
    pub text: String,
}

/// A run as plain values: its colour and its text.
pub open spec fn run_views(runs: Seq<Run>) -> Seq<((u8, u8, u8), Seq<char>)> {
    runs.map_values(|r: Run| (r.rgb, r.text@))
}

pub open spec fn run_texts(runs: Seq<Run>) -> Seq<Seq<char>> {
    runs.map_values(|r: Run| r.text@)
}

pub open spec fn opt_run_views(o: Option<Vec<Run>>) -> Option<Seq<((u8, u8, u8), Seq<char>)>> {
    match o {
        Some(v) => Some(run_views(v@)),
        None => None,
    }
}

pub open spec fn opt_syntax(o: Option<&SyntaxReference>) -> Option<SyntaxReference> {
    match o {
        Some(s) => Some(*s),
        None => None,
    }
}

/// The grammar `SyntaxSet::find_syntax_by_token` finds in a set for a token.
pub uninterp spec fn syntax_by_token(set: SyntaxSet, token: Seq<char>) -> Option<SyntaxReference>;

/// The grammar `SyntaxSet::find_syntax_by_extension` finds in a set for an extension.
pub uninterp spec fn syntax_by_extension(set: SyntaxSet, ext: Seq<char>) -> Option<SyntaxReference>;

/// The grammar `SyntaxSet::find_syntax_plain_text` finds in a set.
pub uninterp spec fn plain_syntax(set: SyntaxSet) -> SyntaxReference;

/// Whether a set holds a grammar named `Plain Text`.
pub uninterp spec fn has_plain_text(set: SyntaxSet) -> bool;

/// The theme a theme set holds under a name.
pub uninterp spec fn theme_named(set: ThemeSet, name: Seq<char>) -> Theme;

/// The styled runs syntect gives for the last line of `fed`, highlighting with the
/// grammar `syntax` and the theme `theme` after the lines before it, each line
/// passed with the syntax set it is paired with; `None` if syntect reports an error.
pub uninterp spec fn syntect_runs(
    syntax: SyntaxReference,
    theme: Theme,
    fed: Seq<(SyntaxSet, Seq<char>)>,
) -> Option<Seq<((u8, u8, u8), Seq<char>)>>;

/// The history of a `HighlightLines`: the grammar and the theme it was made with,
/// and the lines it has highlighted since, each with the syntax set it was passed
/// with. Its parse state is what that history left, so what it gives for the next
/// line depends on these and on the set passed with that line alone.
pub uninterp spec fn line_state(h: HighlightLines) -> (
    SyntaxReference,
    Theme,
    Seq<(SyntaxSet, Seq<char>)>,
);

/// `SyntaxSet::load_defaults_newlines`: syntect's bundled grammars, among them
/// `Plain Text`.
#[verifier::external_body]
fn default_syntaxes() -> (r: SyntaxSet)
    ensures
        has_plain_text(r),
{
    SyntaxSet::load_defaults_newlines()
}

/// The names under which a theme set holds its themes: the keys of its `themes` map.
pub uninterp spec fn theme_names(set: ThemeSet) -> Set<Seq<char>>;

/// The themes that syntect documents `ThemeSet::load_defaults` to include.
pub open spec fn bundled_theme_names() -> Set<Seq<char>> {
    set![
        "base16-ocean.dark"@,
        "base16-eighties.dark"@,
        "base16-mocha.dark"@,
        "base16-ocean.light"@,
        "InspiredGitHub"@,
        "Solarized (dark)"@,
        "Solarized (light)"@,
    ]
}

/// `ThemeSet::load_defaults`: syntect's bundled themes. Its documentation lists the keys
/// the set includes; that the set holds no others is not stated here.
#[verifier::external_body]
fn default_themes() -> (r: ThemeSet)
    ensures
        bundled_theme_names().subset_of(theme_names(r)),
{
    ThemeSet::load_defaults()
}

/// `BTreeMap::remove` on a theme set's `themes`: takes the theme of that name out, if
/// there is one, and leaves the other names and their themes.
#[verifier::external_body]
fn take_theme(set: &mut ThemeSet, name: &str) -> (r: Option<Theme>)
    ensures
        r is Some <==> theme_names(*old(set)).contains(name@),
        r matches Some(t) ==> t == theme_named(*old(set), name@),
        theme_names(*final(set)) == theme_names(*old(set)).remove(name@),
        forall|k: Seq<char>|
            k != name@ && theme_names(*old(set)).contains(k) ==> #[trigger] theme_named(*final(set), k)
                == theme_named(*old(set), k),
{
    set.themes.remove(name)
}

/// `SyntaxSet::find_syntax_by_token`: a grammar by name or extension token.
#[verifier::external_body]
fn find_syntax_by_token<'a>(set: &'a SyntaxSet, token: &str) -> (r: Option<&'a SyntaxReference>)
    ensures
        opt_syntax(r) == syntax_by_token(*set, token@),
{
    set.find_syntax_by_token(token)
}

/// `SyntaxSet::find_syntax_by_extension`: a grammar by file extension.
#[verifier::external_body]
fn find_syntax_by_extension<'a>(set: &'a SyntaxSet, ext: &str) -> (r: Option<&'a SyntaxReference>)
    ensures
        opt_syntax(r) == syntax_by_extension(*set, ext@),
{
    set.find_syntax_by_extension(ext)
}

/// `SyntaxSet::find_syntax_plain_text`: the plain text grammar. It panics on a set
/// without one.
#[verifier::external_body]
fn find_syntax_plain_text(set: &SyntaxSet) -> (r: &SyntaxReference)
    requires
        has_plain_text(*set),
    ensures
        *r == plain_syntax(*set),
{
    set.find_syntax_plain_text()
}

/// `HighlightLines::new`: a highlighter for one grammar and one theme, that has
/// highlighted nothing yet.
#[verifier::external_body]
fn highlight_lines<'a>(syntax: &SyntaxReference, theme: &'a Theme) -> (r: HighlightLines<'a>)
    ensures
        line_state(r) == (*syntax, *theme, Seq::<(SyntaxSet, Seq<char>)>::empty()),
{
    HighlightLines::new(syntax, theme)
}

/// `HighlightLines::highlight_line`: the styled runs of the next line, carrying the
/// parse state over from the lines before it; each run keeps its foreground colour.
/// Its documentation promises that the runs' texts concatenate to the line.
#[verifier::external_body]
fn highlight_line(h: &mut HighlightLines, line: &str, set: &SyntaxSet) -> (r: Option<Vec<Run>>)
    ensures
        opt_run_views(r) == syntect_runs(
            line_state(*old(h)).0,
            line_state(*old(h)).1,
            line_state(*old(h)).2.push((*set, line@)),
        ),
        r is Some ==> line_state(*final(h)) == (
            line_state(*old(h)).0,
            line_state(*old(h)).1,
            line_state(*old(h)).2.push((*set, line@)),
        ),
        r matches Some(runs) ==> concat(run_texts(runs@)) == line@,
{
    match h.highlight_line(line, set) {
        Ok(runs) => Some(
            runs.into_iter().map(
                |(style, text)| Run {
                    rgb: (style.foreground.r, style.foreground.g, style.foreground.b),
                    text: text.to_string(),
                },
            ).collect(),
        ),
        Err(_) => None,
    }
}

/// syntect's bundled grammars and the two themes every code block is coloured with.
pub struct Highlighter {
    syntaxes: SyntaxSet,
    light: Theme,
    dark: Theme,
    theme_set: Ghost<ThemeSet>,
}

/// A highlighter whose light theme is `InspiredGitHub` and whose dark theme is
/// `base16-ocean.dark`, both of the theme set it loaded.
pub open spec fn standard_themes(h: Highlighter) -> bool {
    &&& h.light_theme() == theme_named(h.loaded_themes(), "InspiredGitHub"@)
    &&& h.dark_theme() == theme_named(h.loaded_themes(), "base16-ocean.dark"@)
}

impl Highlighter {
    /// Its grammars include plain text, the fallback for every code block.
    #[verifier::type_invariant]
    spec fn holds_plain_text(self) -> bool {
        has_plain_text(self.syntaxes)
    }

    /// The grammars it highlights with.
    pub closed spec fn syntax_set(self) -> SyntaxSet {
        self.syntaxes
    }

    /// The theme of the light colours.
    pub closed spec fn light_theme(self) -> Theme {
        self.light
    }

    /// The theme of the dark colours.
    pub closed spec fn dark_theme(self) -> Theme {
        self.dark
    }

    /// The theme set the two themes were taken from.
    pub closed spec fn loaded_themes(self) -> ThemeSet {
        self.theme_set@
    }

    /// Loads the bundled grammars and, of syntect's bundled themes, `InspiredGitHub`
    /// for the light colours and `base16-ocean.dark` for the dark ones. syntect
    /// bundles both, so this always succeeds.
    pub fn load() -> (r: Option<Highlighter>)
        ensures
            r matches Some(h) && standard_themes(h),
            r matches Some(h) && bundled_theme_names().subset_of(theme_names(h.loaded_themes())),
    {
        let mut themes = default_themes();
        let ghost loaded = themes;
        proof {
            reveal_strlit("InspiredGitHub");
            reveal_strlit("base16-ocean.dark");
            assert(bundled_theme_names().contains("InspiredGitHub"@));
            assert(bundled_theme_names().contains("base16-ocean.dark"@));
            assert("InspiredGitHub"@.len() != "base16-ocean.dark"@.len());
        }
        let light = take_theme(&mut themes, "InspiredGitHub")?;
        assert(theme_names(themes).contains("base16-ocean.dark"@));
        let dark = take_theme(&mut themes, "base16-ocean.dark")?;
        Some(Highlighter { syntaxes: default_syntaxes(), light, dark, theme_set: Ghost(loaded) })
    }
}

// ---------------------------------------------------------------------------
// Colours
// ---------------------------------------------------------------------------

pub open spec fn hex_digit(d: nat) -> char {
    if d < 10 {
        crate::text::digit_char(d)
    } else if d == 10 {
        'a'
    } else if d == 11 {
        'b'
    } else if d == 12 {
        'c'
    } else if d == 13 {
        'd'
    } else if d == 14 {
        'e'
    } else {
        'f'
    }
}

pub open spec fn hex_byte(b: u8) -> Seq<char> {
    seq![hex_digit((b / 16) as nat), hex_digit((b % 16) as nat)]
}

/// `#rrggbb` in lowercase hex.
pub open spec fn hex_colour(rgb: (u8, u8, u8)) -> Seq<char> {
    seq!['#'] + hex_byte(rgb.0) + hex_byte(rgb.1) + hex_byte(rgb.2)
}

pub open spec fn inherit_word() -> Seq<char> {
    seq!['i', 'n', 'h', 'e', 'r', 'i', 't']
}

/// The colour of the run that covers character `offset` of a line, `inherit`
/// past the last run.
pub open spec fn colour_at(
    runs: Seq<((u8, u8, u8), Seq<char>)>,
    offset: int,
    cursor: int,
    k: int,
) -> Seq<char>
    decreases runs.len() - k,
{
    if k < 0 || k >= runs.len() {
        inherit_word()
    } else if offset < cursor + runs[k].1.len() {
        hex_colour(runs[k].0)
    } else {
        colour_at(runs, offset, cursor + runs[k].1.len(), k + 1)
    }
}

/// One line's tokens appended to `out`, from character `k` on: each character
/// takes the colour of the run covering it in each theme, and neighbours with one
/// colour pair merge.
pub open spec fn colour_line(
    line: Seq<char>,
    light: Seq<((u8, u8, u8), Seq<char>)>,
    dark: Seq<((u8, u8, u8), Seq<char>)>,
    out: Seq<HlTokenV>,
    k: int,
) -> Seq<HlTokenV>
    decreases line.len() - k,
{
    if k < 0 || k >= line.len() {
        out
    } else {
        colour_line(
            line,
            light,
            dark,
            push_run(out, seq![line[k]], (colour_at(light, k, 0, 0), colour_at(dark, k, 0, 0))),
            k + 1,
        )
    }
}

pub open spec fn token_texts(t: Seq<HlTokenV>) -> Seq<Seq<char>> {
    t.map_values(|x: HlTokenV| x.text)
}

/// The custom language a fence info string selects: the first that matches it,
/// trimmed.
pub open spec fn custom_language(lang: Option<Seq<char>>, langs: Seq<LanguageV>, k: int) -> Option<
    LanguageV,
>
    decreases langs.len() - k,
{
    match lang {
        None => None,
        Some(name) => if k < 0 || k >= langs.len() {
            None
        } else if lang_matches(langs[k], trim(name)) {
            Some(langs[k])
        } else {
            custom_language(lang, langs, k + 1)
        },
    }
}

/// The syntect grammar a fence info string selects: by token, then by extension,
/// else plain text.
pub open spec fn chosen_syntax(set: SyntaxSet, lang: Option<Seq<char>>) -> SyntaxReference {
    match lang {
        Some(name) => if trim(name).len() > 0 {
            match syntax_by_token(set, trim(name)) {
                Some(s) => s,
                None => match syntax_by_extension(set, trim(name)) {
                    Some(s) => s,
                    None => plain_syntax(set),
                },
            }
        } else {
            plain_syntax(set)
        },
        None => plain_syntax(set),
    }
}

/// Whether a fence info string finds no grammar, so that the code falls back to
/// plain text.
pub open spec fn falls_back(set: SyntaxSet, lang: Option<Seq<char>>) -> bool {
    match lang {
        Some(name) => trim(name).len() == 0 || (syntax_by_token(set, trim(name)) is None
            && syntax_by_extension(set, trim(name)) is None),
        None => true,
    }
}

/// The tokens for `code` from character `pos` on, appended to `out`, after the
/// lines `fed` have been highlighted: each line is highlighted in the light and
/// the dark theme and coloured by `colour_line`, its tokens merging with those
/// before it unless `per_line` keeps lines apart; `None` if syntect fails on a line.
pub open spec fn syntect_from(
    set: SyntaxSet,
    syntax: SyntaxReference,
    light: Theme,
    dark: Theme,
    per_line: bool,
    code: Seq<char>,
    pos: int,
    fed: Seq<(SyntaxSet, Seq<char>)>,
    out: Seq<HlTokenV>,
) -> Option<Seq<HlTokenV>>
    decreases code.len() - pos,
{
    if pos < 0 || pos >= code.len() {
        Some(out)
    } else {
        let e = line_end(code, pos);
        if e <= pos || e > code.len() {
            Some(out)
        } else {
            let line = code.subrange(pos, e);
            let fed2 = fed.push((set, line));
            match syntect_runs(syntax, light, fed2) {
                Some(l) => match syntect_runs(syntax, dark, fed2) {
                    Some(d) => syntect_from(
                        set,
                        syntax,
                        light,
                        dark,
                        per_line,
                        code,
                        e,
                        fed2,
                        line_tokens(line, l, d, out, per_line),
                    ),
                    None => None,
                },
                None => None,
            }
        }
    }
}

/// One line's tokens appended to `out`: merging with the last token unless
/// `per_line` starts the line afresh.
pub open spec fn line_tokens(
    line: Seq<char>,
    light: Seq<((u8, u8, u8), Seq<char>)>,
    dark: Seq<((u8, u8, u8), Seq<char>)>,
    out: Seq<HlTokenV>,
    per_line: bool,
) -> Seq<HlTokenV> {
    if per_line {
        out + colour_line(line, light, dark, Seq::empty(), 0)
    } else {
        colour_line(line, light, dark, out, 0)
    }
}

/// The whole code as one token, in the themes' default foreground colours.
pub open spec fn plain_token(code: Seq<char>) -> Seq<HlTokenV> {
    seq![HlTokenV { text: code, light: "#24292e"@, dark: "#c0c5ce"@ }]
}

/// What syntect colours `code` as, for a fence info string: the grammar it
/// selects, each line highlighted in both themes, one token per run of characters
/// with equal colours in both (kept within its line when the code falls back to
/// plain text); the whole code as one plain token if the grammar fails on a line.
pub open spec fn syntect_tokens(hl: Highlighter, code: Seq<char>, lang: Option<Seq<char>>) -> Seq<
    HlTokenV,
> {
    match syntect_from(
        hl.syntax_set(),
        chosen_syntax(hl.syntax_set(), lang),
        hl.light_theme(),
        hl.dark_theme(),
        falls_back(hl.syntax_set(), lang),
        code,
        0,
        Seq::empty(),
        Seq::empty(),
    ) {
        Some(t) => t,
        None => plain_token(code),
    }
}

/// What `highlight` returns for a code block: the custom language's tokens when
/// one matches (`None` if its tokenizer would never finish); otherwise syntect's.
pub open spec fn highlight_ok(
    code: Seq<char>,
    lang: Option<Seq<char>>,
    langs: Seq<LanguageV>,
    hl: Highlighter,
    r: Option<Seq<HlTokenV>>,
) -> bool {
    match custom_language(lang, langs, 0) {
        Some(l) => r == lang_tokens(l, code),
        None => r == Some(syntect_tokens(hl, code, lang)),
    }
}

// ---------------------------------------------------------------------------

fn hex_digit_of(d: u8) -> (c: char)
    requires
        d < 16,
    ensures
        c == hex_digit(d as nat),
{
    if d < 10 {
        ((d + 48) as u8) as char
    } else {
        ((d - 10 + 97) as u8) as char
    }
}

fn push_hex_byte(out: &mut Vec<char>, b: u8)
    ensures
        final(out)@ == old(out)@ + hex_byte(b),
{
    out.push(hex_digit_of(b / 16));
    out.push(hex_digit_of(b % 16));
    proof {
        assert(final(out)@ =~= old(out)@ + hex_byte(b));
    }
}

fn hex_colour_of(rgb: (u8, u8, u8)) -> (r: String)
    ensures
        r@ == hex_colour(rgb),
{
    let mut out: Vec<char> = Vec::new();
    out.push('#');
    push_hex_byte(&mut out, rgb.0);
    push_hex_byte(&mut out, rgb.1);
    push_hex_byte(&mut out, rgb.2);
    proof {
        assert(out@ =~= hex_colour(rgb));
    }
    crate::text::string_of(&out)
}

fn colour_at_of(runs: &Vec<Run>, offset: usize) -> (r: String)
    ensures
        r@ == colour_at(run_views(runs@), offset as int, 0, 0),
{
    let ghost rv = run_views(runs@);
    let mut cursor: usize = 0;
    let mut k: usize = 0;
    while k < runs.len()
        invariant
            0 <= k <= runs@.len(),
            cursor <= offset,
            cursor <= usize::MAX,
            rv == run_views(runs@),
            colour_at(rv, offset as int, cursor as int, k as int) == colour_at(
                rv,
                offset as int,
                0,
                0,
            ),
        decreases runs.len() - k,
    {
        let len = chars_of(runs[k].text.as_str()).len();
        if offset - cursor < len {
            return hex_colour_of(runs[k].rgb);
        }
        cursor = cursor + len;
        k += 1;
    }
    proof {
        assert(colour_at(rv, offset as int, cursor as int, k as int) == inherit_word());
    }
    proof {
        reveal_strlit("inherit");
        assert("inherit"@ =~= inherit_word());
    }
    "inherit".to_string()
}

pub proof fn lemma_push_run_concat(out: Seq<HlTokenV>, t: Seq<char>, c: (Seq<char>, Seq<char>))
    ensures
        concat(token_texts(push_run(out, t, c))) == concat(token_texts(out)) + t,
{
    let r = push_run(out, t, c);
    if out.len() > 0 && out.last().light == c.0 && out.last().dark == c.1 {
        assert(token_texts(r).drop_last() =~= token_texts(out).drop_last());
        assert(token_texts(out).drop_last().push(out.last().text) =~= token_texts(out));
        assert(concat(token_texts(out)) == concat(token_texts(out).drop_last()) + out.last().text);
        assert(concat(token_texts(r)) == concat(token_texts(r).drop_last()) + token_texts(r).last());
        assert(token_texts(r).last() == out.last().text + t);
        assert(concat(token_texts(out).drop_last()) + (out.last().text + t) =~= concat(
            token_texts(out).drop_last(),
        ) + out.last().text + t);
    } else {
        assert(token_texts(r) =~= token_texts(out).push(t));
        crate::text::lemma_concat_push(token_texts(out), t);
    }
}

fn push_char_token(out: &mut Vec<HlToken>, c: char, light: String, dark: String)
    ensures
        tokens_view(final(out)@) == push_run(tokens_view(old(out)@), seq![c], (light@, dark@)),
{
    let mut one: Vec<char> = Vec::new();
    one.push(c);
    proof {
        assert(one@.subrange(0, 1) =~= seq![c]);
    }
    crate::lang::push_token_pub(out, &one, 0, 1, (light, dark));
}

/// Colours one line from the runs syntect gave for it in the light and the dark
/// theme.
pub fn colour_line_into(line: &str, light: &Vec<Run>, dark: &Vec<Run>, out: &mut Vec<HlToken>)
    ensures
        tokens_view(final(out)@) == colour_line(
            line@,
            run_views(light@),
            run_views(dark@),
            tokens_view(old(out)@),
            0,
        ),
{
    let v = chars_of(line);
    let mut k: usize = 0;
    while k < v.len()
        invariant
            k <= v@.len(),
            v@ == line@,
            colour_line(v@, run_views(light@), run_views(dark@), tokens_view(out@), k as int)
                == colour_line(
                v@,
                run_views(light@),
                run_views(dark@),
                tokens_view(old(out)@),
                0,
            ),
        decreases v.len() - k,
    {
        let lc = colour_at_of(light, k);
        let dc = colour_at_of(dark, k);
        push_char_token(out, v[k], lc, dc);
        k += 1;
    }
}

proof fn lemma_colour_line_concat(
    line: Seq<char>,
    light: Seq<((u8, u8, u8), Seq<char>)>,
    dark: Seq<((u8, u8, u8), Seq<char>)>,
    out: Seq<HlTokenV>,
    k: int,
)
    requires
        0 <= k <= line.len(),
    ensures
        concat(token_texts(colour_line(line, light, dark, out, k))) == concat(token_texts(out))
            + line.subrange(k, line.len() as int),
    decreases line.len() - k,
{
    if k < line.len() {
        let c = (colour_at(light, k, 0, 0), colour_at(dark, k, 0, 0));
        let next = push_run(out, seq![line[k]], c);
        lemma_push_run_concat(out, seq![line[k]], c);
        lemma_colour_line_concat(line, light, dark, next, k + 1);
        assert(concat(token_texts(out)) + line.subrange(k, line.len() as int) =~= concat(
            token_texts(out),
        ) + seq![line[k]] + line.subrange(k + 1, line.len() as int));
    } else {
        assert(concat(token_texts(out)) + line.subrange(k, line.len() as int) =~= concat(
            token_texts(out),
        ));
    }
}

pub open spec fn opt_str(o: Option<&str>) -> Option<Seq<char>> {
    match o {
        Some(s) => Some(s@),
        None => None,
    }
}

pub open spec fn opt_tokens(o: Option<Vec<HlToken>>) -> Option<Seq<HlTokenV>> {
    match o {
        Some(t) => Some(tokens_view(t@)),
        None => None,
    }
}

fn find_custom<'a>(name: &str, custom: &'a [Language]) -> (r: Option<&'a Language>)
    ensures
        match r {
            Some(l) => custom_language(Some(name@), languages_view(custom@), 0) == Some(l@),
            None => custom_language(Some(name@), languages_view(custom@), 0) is None,
        },
{
    let t = trimmed(name);
    let ts = crate::text::string_of(&t);
    let ghost langs = languages_view(custom@);
    let mut k: usize = 0;
    while k < custom.len()
        invariant
            0 <= k <= custom@.len(),
            langs == languages_view(custom@),
            langs.len() == custom@.len(),
            ts@ == trim(name@),
            custom_language(Some(name@), langs, k as int) == custom_language(Some(name@), langs, 0),
        decreases custom.len() - k,
    {
        if custom[k].matches(ts.as_str()) {
            return Some(&custom[k]);
        }
        k += 1;
    }
    None
}

/// The grammar of the bundled set that a fence info string selects.
fn choose_syntax<'a>(lang: Option<&str>, hl: &'a Highlighter) -> (r: (&'a SyntaxReference, bool))
    ensures
        *r.0 == chosen_syntax(hl.syntax_set(), opt_str(lang)),
        r.1 == falls_back(hl.syntax_set(), opt_str(lang)),
{
    proof {
        use_type_invariant(hl);
    }
    match lang {
        Some(name) => {
            let t = trimmed(name);
            if t.len() > 0 {
                let ts = crate::text::string_of(&t);
                match find_syntax_by_token(&hl.syntaxes, ts.as_str()) {
                    Some(s) => (s, false),
                    None => match find_syntax_by_extension(&hl.syntaxes, ts.as_str()) {
                        Some(s) => (s, false),
                        None => (find_syntax_plain_text(&hl.syntaxes), true),
                    },
                }
            } else {
                (find_syntax_plain_text(&hl.syntaxes), true)
            }
        },
        None => (find_syntax_plain_text(&hl.syntaxes), true),
    }
}

/// Highlights `code` as `lang`: a project-defined language takes precedence;
/// otherwise syntect's grammar for `lang` (by name, then by extension, else plain
/// text), one token per run of equal colours in both themes. If the grammar fails
/// on a line, the whole code comes back as one plain token.
pub fn highlight(code: &str, lang: Option<&str>, custom: &[Language], hl: &Highlighter) -> (r: Option<
    Vec<HlToken>,
>)
    ensures
        highlight_ok(code@, opt_str(lang), languages_view(custom@), *hl, opt_tokens(r)),
{
    match lang {
        Some(name) => {
            match find_custom(name, custom) {
                Some(language) => return crate::lang::highlight(language, code),
                None => {},
            }
        },
        None => {},
    }
    let (syntax, per_line) = choose_syntax(lang, hl);
    let ghost set = hl.syntax_set();
    let ghost total = syntect_from(
        set,
        *syntax,
        hl.light_theme(),
        hl.dark_theme(),
        per_line,
        code@,
        0,
        Seq::empty(),
        Seq::empty(),
    );
    let mut light = highlight_lines(syntax, &hl.light);
    let mut dark = highlight_lines(syntax, &hl.dark);
    let v = chars_of(code);
    let mut out: Vec<HlToken> = Vec::new();
    let mut pos: usize = 0;
    let ghost mut fed: Seq<(SyntaxSet, Seq<char>)> = Seq::empty();
    proof {
        assert(tokens_view(out@) =~= Seq::<HlTokenV>::empty());
    }
    while pos < v.len()
        invariant
            pos <= v.len(),
            v@ == code@,
            set == hl.syntax_set(),
            *syntax == chosen_syntax(set, opt_str(lang)),
            per_line == falls_back(set, opt_str(lang)),
            custom_language(opt_str(lang), languages_view(custom@), 0) is None,
            line_state(light) == (*syntax, hl.light_theme(), fed),
            line_state(dark) == (*syntax, hl.dark_theme(), fed),
            total == syntect_from(
                set,
                *syntax,
                hl.light_theme(),
                hl.dark_theme(),
                per_line,
                code@,
                0,
                Seq::empty(),
                Seq::empty(),
            ),
            syntect_from(
                set,
                *syntax,
                hl.light_theme(),
                hl.dark_theme(),
                per_line,
                code@,
                pos as int,
                fed,
                tokens_view(out@),
            ) == total,
        decreases v.len() - pos,
    {
        let e = next_line_end(&v, pos);
        let line = string_of_range(&v, pos, e);
        let light_runs = match highlight_line(&mut light, line.as_str(), &hl.syntaxes) {
            Some(r) => r,
            None => return Some(plain_tokens(code)),
        };
        let dark_runs = match highlight_line(&mut dark, line.as_str(), &hl.syntaxes) {
            Some(r) => r,
            None => return Some(plain_tokens(code)),
        };
        if per_line {
            let mut fresh: Vec<HlToken> = Vec::new();
            colour_line_into(line.as_str(), &light_runs, &dark_runs, &mut fresh);
            let ghost before = tokens_view(out@);
            out.append(&mut fresh);
            proof {
                assert(tokens_view(Seq::<HlToken>::empty()) =~= Seq::<HlTokenV>::empty());
                assert(tokens_view(out@) =~= before + colour_line(
                    line@,
                    run_views(light_runs@),
                    run_views(dark_runs@),
                    Seq::empty(),
                    0,
                ));
            }
        } else {
            colour_line_into(line.as_str(), &light_runs, &dark_runs, &mut out);
        }
        proof {
            fed = fed.push((set, line@));
        }
        pos = e;
    }
    Some(out)
}

fn plain_tokens(code: &str) -> (r: Vec<HlToken>)
    ensures
        tokens_view(r@) == plain_token(code@),
{
    let mut r: Vec<HlToken> = Vec::new();
    r.push(HlToken { text: code.to_string(), light: "#24292e".to_string(), dark: "#c0c5ce".to_string() });
    proof {
        assert(tokens_view(r@) =~= plain_token(code@));
    }
    r
}


// ---------------------------------------------------------------------------
// Laws
// ---------------------------------------------------------------------------

proof fn lemma_scan_rebuilds(l: LanguageV, s: Seq<char>, i: int, expect: bool, out: Seq<HlTokenV>)
    requires
        0 <= i <= s.len(),
    ensures
        lang_scan(l, s, i, expect, out) matches Some(t) ==> concat(token_texts(t)) == concat(
            token_texts(out),
        ) + s.subrange(i, s.len() as int),
    decreases s.len() - i,
{
    if i >= s.len() {
        assert(concat(token_texts(out)) + s.subrange(i, s.len() as int) =~= concat(token_texts(out)));
    } else {
        match lang_step(l, s, i, expect) {
            None => {},
            Some((e, class, next)) => {
                if i < e <= s.len() {
                    let piece = s.subrange(i, e);
                    let pushed = push_run(out, piece, colour_of(l, class));
                    lemma_push_run_concat(out, piece, colour_of(l, class));
                    lemma_scan_rebuilds(l, s, e, next, pushed);
                    assert(concat(token_texts(out)) + s.subrange(i, s.len() as int) =~= concat(
                        token_texts(out),
                    ) + piece + s.subrange(e, s.len() as int));
                }
            },
        }
    }
}

proof fn lemma_concat_append(a: Seq<Seq<char>>, b: Seq<Seq<char>>)
    ensures
        concat(a + b) == concat(a) + concat(b),
    decreases b.len(),
{
    if b.len() == 0 {
        assert(a + b =~= a);
        assert(concat(a) + concat(b) =~= concat(a));
    } else {
        lemma_concat_append(a, b.drop_last());
        assert((a + b).drop_last() =~= a + b.drop_last());
        assert((a + b).last() == b.last());
    }
}

proof fn lemma_line_tokens_concat(
    line: Seq<char>,
    l: Seq<((u8, u8, u8), Seq<char>)>,
    d: Seq<((u8, u8, u8), Seq<char>)>,
    out: Seq<HlTokenV>,
    per_line: bool,
)
    ensures
        concat(token_texts(line_tokens(line, l, d, out, per_line))) == concat(token_texts(out)) + line,
{
    assert(line.subrange(0, line.len() as int) =~= line);
    if per_line {
        let none = Seq::<HlTokenV>::empty();
        let t = colour_line(line, l, d, none, 0);
        lemma_colour_line_concat(line, l, d, none, 0);
        assert(token_texts(none) =~= Seq::<Seq<char>>::empty());
        assert(Seq::<char>::empty() + line =~= line);
        assert(token_texts(out + t) =~= token_texts(out) + token_texts(t));
        lemma_concat_append(token_texts(out), token_texts(t));
    } else {
        lemma_colour_line_concat(line, l, d, out, 0);
    }
}

proof fn lemma_syntect_from_rebuilds(
    set: SyntaxSet,
    syntax: SyntaxReference,
    light: Theme,
    dark: Theme,
    per_line: bool,
    code: Seq<char>,
    pos: int,
    fed: Seq<(SyntaxSet, Seq<char>)>,
    out: Seq<HlTokenV>,
)
    requires
        0 <= pos <= code.len(),
    ensures
        syntect_from(set, syntax, light, dark, per_line, code, pos, fed, out) matches Some(t) ==> concat(
            token_texts(t),
        ) == concat(token_texts(out)) + code.subrange(pos, code.len() as int),
    decreases code.len() - pos,
{
    if pos >= code.len() {
        assert(concat(token_texts(out)) + code.subrange(pos, code.len() as int) =~= concat(
            token_texts(out),
        ));
    } else {
        crate::text::lemma_line_end(code, pos);
        let e = line_end(code, pos);
        let line = code.subrange(pos, e);
        let fed2 = fed.push((set, line));
        match syntect_runs(syntax, light, fed2) {
            Some(l) => match syntect_runs(syntax, dark, fed2) {
                Some(d) => {
                    let next = line_tokens(line, l, d, out, per_line);
                    lemma_line_tokens_concat(line, l, d, out, per_line);
                    lemma_syntect_from_rebuilds(set, syntax, light, dark, per_line, code, e, fed2, next);
                    assert(concat(token_texts(out)) + code.subrange(pos, code.len() as int)
                        =~= concat(token_texts(out)) + line + code.subrange(e, code.len() as int));
                },
                None => {},
            },
            None => {},
        }
    }
}

/// Highlighting loses no text: whatever the language, the tokens' texts put back
/// together are the code.
pub proof fn law_tokens_rebuild_code(
    code: Seq<char>,
    lang: Option<Seq<char>>,
    langs: Seq<LanguageV>,
    hl: Highlighter,
    tokens: Seq<HlTokenV>,
)
    requires
        highlight_ok(code, lang, langs, hl, Some(tokens)),
    ensures
        concat(token_texts(tokens)) == code,
{
    match custom_language(lang, langs, 0) {
        Some(l) => {
            lemma_scan_rebuilds(l, code, 0, false, Seq::empty());
            assert(token_texts(Seq::<HlTokenV>::empty()) =~= Seq::<Seq<char>>::empty());
            assert(Seq::<char>::empty() + code.subrange(0, code.len() as int) =~= code);
        },
        None => {
            let set = hl.syntax_set();
            let syn = chosen_syntax(set, lang);
            lemma_syntect_from_rebuilds(
                set,
                syn,
                hl.light_theme(),
                hl.dark_theme(),
                falls_back(set, lang),
                code,
                0,
                Seq::empty(),
                Seq::empty(),
            );
            assert(token_texts(Seq::<HlTokenV>::empty()) =~= Seq::<Seq<char>>::empty());
            assert(Seq::<char>::empty() + code.subrange(0, code.len() as int) =~= code);
            let p = plain_token(code);
            assert(token_texts(p) =~= seq![code]);
            assert(seq![code].drop_last() =~= Seq::<Seq<char>>::empty());
            assert(concat(seq![code]) == concat(Seq::<Seq<char>>::empty()) + code);
            assert(Seq::<char>::empty() + code =~= code);
        },
    }
}

// ---------------------------------------------------------------------------
// Token shape
// ---------------------------------------------------------------------------

/// No token is empty, and no two neighbours have the same colours in both themes.
pub open spec fn well_split(t: Seq<HlTokenV>) -> bool {
    &&& forall|i: int| 0 <= i < t.len() ==> (#[trigger] t[i]).text.len() > 0
    &&& forall|i: int|
        0 <= i < t.len() - 1 ==> !((#[trigger] t[i]).light == t[i + 1].light && t[i].dark == t[i
            + 1].dark)
}

proof fn lemma_push_run_split(out: Seq<HlTokenV>, text: Seq<char>, c: (Seq<char>, Seq<char>))
    requires
        well_split(out),
        text.len() > 0,
    ensures
        well_split(push_run(out, text, c)),
{
    let r = push_run(out, text, c);
    if out.len() > 0 && out.last().light == c.0 && out.last().dark == c.1 {
        assert forall|i: int| 0 <= i < r.len() implies (#[trigger] r[i]).text.len() > 0 by {
            if i < out.len() - 1 {
                assert(r[i] == out[i]);
            }
        }
        assert forall|i: int| 0 <= i < r.len() - 1 implies !((#[trigger] r[i]).light == r[i
            + 1].light && r[i].dark == r[i + 1].dark) by {
            assert(r[i] == out[i]);
            assert(r[i + 1].light == out[i + 1].light && r[i + 1].dark == out[i + 1].dark);
        }
    } else {
        assert forall|i: int| 0 <= i < r.len() implies (#[trigger] r[i]).text.len() > 0 by {
            if i < out.len() {
                assert(r[i] == out[i]);
            }
        }
        assert forall|i: int| 0 <= i < r.len() - 1 implies !((#[trigger] r[i]).light == r[i
            + 1].light && r[i].dark == r[i + 1].dark) by {
            assert(r[i] == out[i]);
            if i + 1 < out.len() {
                assert(r[i + 1] == out[i + 1]);
            }
        }
    }
}

proof fn lemma_scan_split(l: LanguageV, s: Seq<char>, i: int, expect: bool, out: Seq<HlTokenV>)
    requires
        well_split(out),
    ensures
        lang_scan(l, s, i, expect, out) matches Some(t) ==> well_split(t),
    decreases s.len() - i,
{
    if 0 <= i < s.len() {
        match lang_step(l, s, i, expect) {
            None => {},
            Some((e, class, next)) => {
                if i < e <= s.len() {
                    lemma_push_run_split(out, s.subrange(i, e), colour_of(l, class));
                    lemma_scan_split(l, s, e, next, push_run(out, s.subrange(i, e), colour_of(l, class)));
                }
            },
        }
    }
}

proof fn lemma_colour_line_split(
    line: Seq<char>,
    light: Seq<((u8, u8, u8), Seq<char>)>,
    dark: Seq<((u8, u8, u8), Seq<char>)>,
    out: Seq<HlTokenV>,
    k: int,
)
    requires
        well_split(out),
    ensures
        well_split(colour_line(line, light, dark, out, k)),
    decreases line.len() - k,
{
    if 0 <= k < line.len() {
        let c = (colour_at(light, k, 0, 0), colour_at(dark, k, 0, 0));
        lemma_push_run_split(out, seq![line[k]], c);
        lemma_colour_line_split(line, light, dark, push_run(out, seq![line[k]], c), k + 1);
    }
}

/// No token is empty.
pub open spec fn tokens_nonempty(t: Seq<HlTokenV>) -> bool {
    forall|i: int| 0 <= i < t.len() ==> (#[trigger] t[i]).text.len() > 0
}

proof fn lemma_syntect_from_split(
    set: SyntaxSet,
    syntax: SyntaxReference,
    light: Theme,
    dark: Theme,
    per_line: bool,
    code: Seq<char>,
    pos: int,
    fed: Seq<(SyntaxSet, Seq<char>)>,
    out: Seq<HlTokenV>,
)
    requires
        tokens_nonempty(out),
        !per_line ==> well_split(out),
    ensures
        syntect_from(set, syntax, light, dark, per_line, code, pos, fed, out) matches Some(t) ==> (
        tokens_nonempty(t) && (!per_line ==> well_split(t))),
        syntect_from(set, syntax, light, dark, per_line, code, pos, fed, out) is None ==> 0 <= pos
            < code.len(),
    decreases code.len() - pos,
{
    if 0 <= pos < code.len() {
        let e = line_end(code, pos);
        if pos < e <= code.len() {
            let line = code.subrange(pos, e);
            let fed2 = fed.push((set, line));
            match syntect_runs(syntax, light, fed2) {
                Some(l) => match syntect_runs(syntax, dark, fed2) {
                    Some(d) => {
                        let next = line_tokens(line, l, d, out, per_line);
                        if per_line {
                            let none = Seq::<HlTokenV>::empty();
                            assert(well_split(none));
                            lemma_colour_line_split(line, l, d, none, 0);
                            let t = colour_line(line, l, d, none, 0);
                            assert forall|i: int| 0 <= i < next.len() implies (
                            #[trigger] next[i]).text.len() > 0 by {
                                if i < out.len() {
                                    assert(next[i] == out[i]);
                                } else {
                                    assert(next[i] == t[i - out.len()]);
                                }
                            }
                        } else {
                            lemma_colour_line_split(line, l, d, out, 0);
                        }
                        lemma_syntect_from_split(
                            set,
                            syntax,
                            light,
                            dark,
                            per_line,
                            code,
                            e,
                            fed2,
                            next,
                        );
                    },
                    None => {},
                },
                None => {},
            }
        }
    }
}

/// No highlighted token is empty; and no two neighbouring tokens have the same
/// colours in both themes, unless the code fell back to plain text, whose lines
/// stay apart.
pub proof fn law_tokens_well_split(
    code: Seq<char>,
    lang: Option<Seq<char>>,
    langs: Seq<LanguageV>,
    hl: Highlighter,
    tokens: Seq<HlTokenV>,
)
    requires
        highlight_ok(code, lang, langs, hl, Some(tokens)),
    ensures
        tokens_nonempty(tokens),
        custom_language(lang, langs, 0) is Some || !falls_back(hl.syntax_set(), lang) ==> well_split(
            tokens,
        ),
{
    let none = Seq::<HlTokenV>::empty();
    assert(well_split(none));
    match custom_language(lang, langs, 0) {
        Some(l) => {
            lemma_scan_split(l, code, 0, false, none);
        },
        None => {
            let set = hl.syntax_set();
            lemma_syntect_from_split(
                set,
                chosen_syntax(set, lang),
                hl.light_theme(),
                hl.dark_theme(),
                falls_back(set, lang),
                code,
                0,
                Seq::empty(),
                none,
            );
            let p = plain_token(code);
            assert(p[0].text == code);
        },
    }
}

// ---------------------------------------------------------------------------
// Project languages finish on ASCII
// ---------------------------------------------------------------------------

proof fn lemma_run_while(s: Seq<char>, k: int, ok: spec_fn(char) -> bool)
    requires
        0 <= k <= s.len(),
    ensures
        k <= crate::lang::run_while(s, k, ok) <= s.len(),
        k < s.len() && ok(s[k]) ==> k < crate::lang::run_while(s, k, ok),
    decreases s.len() - k,
{
    if k < s.len() && ok(s[k]) {
        lemma_run_while(s, k + 1, ok);
    }
}

proof fn lemma_string_end(s: Seq<char>, k: int, escaped: bool)
    requires
        0 <= k <= s.len(),
    ensures
        k <= crate::lang::string_end(s, k, escaped) <= s.len(),
    decreases s.len() - k,
{
    if k < s.len() {
        if escaped || s[k] == '\\' {
            lemma_string_end(s, k + 1, !escaped && s[k] == '\\');
        } else if s[k] != '"' && s[k] != '\n' {
            lemma_string_end(s, k + 1, false);
        }
    }
}

/// The character the tokenizer classifies a non-ASCII character by: a Latin-1
/// character from `U+00C2` on, and a letter unless the character takes two bytes.
proof fn lemma_lead_beyond_ascii(c: char)
    requires
        !is_ascii_char(c),
    ensures
        0xc2 <= crate::lang::lead(c) as u32 <= 0xf4,
        crate::lang::utf8_len(c) != 2 ==> crate::text::char_is_alphabetic(crate::lang::lead(c)),
{
    let n = c as u32;
    vstd::utf8::char_is_scalar(c);
    let k = crate::lang::lead_code(c);
    assert(0xc2 <= k <= 0xf4) by (nonlinear_arith)
        requires
            0x80 <= n <= 0x10ffff,
            k == (if n < 0x800 {
                (0xc0 + n / 64) as u32
            } else if n < 0x10000 {
                (0xe0 + n / 4096) as u32
            } else {
                (0xf0 + n / 262144) as u32
            }),
    ;
    if n >= 0x800 {
        assert(0xe0 <= k) by (nonlinear_arith)
            requires
                0x800 <= n <= 0x10ffff,
                k == (if n < 0x10000 {
                    (0xe0 + n / 4096) as u32
                } else {
                    (0xf0 + n / 262144) as u32
                }),
        ;
    }
    assert((k as u8) as u32 == k) by (bit_vector)
        requires
            k < 0x100,
    ;
    let b: u8 = k as u8;
    assert(crate::lang::lead(c) == b as char);
    assert((b as char) as u32 == b as u32);
}

/// A project-defined language whose attribute prefix, if it has one, is not empty
/// makes progress at every character that is ASCII or alphanumeric.
proof fn lemma_step_progress(l: LanguageV, s: Seq<char>, i: int, expect: bool)
    requires
        0 <= i < s.len(),
        is_ascii_char(s[i]) || crate::text::char_is_alphanumeric(s[i]),
        l.attribute_prefix is None || l.attribute_prefix->0.len() > 0,
    ensures
        lang_step(l, s, i, expect) matches Some((e, _, _)) && i < e <= s.len(),
{
    let c = s[i];
    let a = crate::lang::lead(c);
    if is_ascii_char(c) {
        assert(crate::lang::lead_code(c) == c as u32);
        let n: u32 = c as u32;
        assert((n as u8) as u32 == n) by (bit_vector)
            requires
                n < 0x80,
        ;
        let b: u8 = n as u8;
        assert(a == b as char);
        assert((b as char) as u32 == b as u32);
        assert(a as u32 == c as u32);
        vstd::utf8::char_u32_cast(a, a as u32);
        vstd::utf8::char_u32_cast(c, c as u32);
        assert(a == c);
    } else {
        lemma_lead_beyond_ascii(c);
        assert(!is_white_space(a));
        assert(c != '\n');
        assert(crate::lang::is_word_char(c));
    }
    let rest = s.subrange(i, s.len() as int);
    if is_white_space(a) {
        lemma_run_while(s, i, |x: char| is_white_space(x));
    } else if l.line_comment is Some && has_prefix(rest, l.line_comment->0) {
        lemma_run_while(s, i, |x: char| crate::lang::is_not_newline(x));
    } else if a == '"' {
        lemma_string_end(s, i + 1, false);
    } else if l.attribute_prefix is Some && has_prefix(rest, l.attribute_prefix->0) {
        let p = l.attribute_prefix->0.len();
        lemma_run_while(s, i + p, |x: char| crate::lang::is_word_char(x));
    } else if '0' <= a && a <= '9' {
        lemma_run_while(s, i, |x: char| crate::lang::is_number_char(x));
    } else if crate::text::char_is_alphabetic(a) || a == '_' {
        lemma_run_while(s, i, |x: char| crate::lang::is_word_char(x));
        assert(crate::lang::is_word_char(s[i]));
    }
}

proof fn lemma_scan_total(l: LanguageV, s: Seq<char>, i: int, expect: bool, out: Seq<HlTokenV>)
    requires
        0 <= i <= s.len(),
        forall|j: int|
            0 <= j < s.len() ==> is_ascii_char(#[trigger] s[j]) || crate::text::char_is_alphanumeric(
                s[j],
            ),
        l.attribute_prefix is None || l.attribute_prefix->0.len() > 0,
    ensures
        lang_scan(l, s, i, expect, out) is Some,
    decreases s.len() - i,
{
    if i < s.len() {
        lemma_step_progress(l, s, i, expect);
        let (e, class, next) = lang_step(l, s, i, expect)->0;
        lemma_scan_total(l, s, e, next, push_run(out, s.subrange(i, e), colour_of(l, class)));
    }
}

/// A project-defined language always finishes on code whose every character is
/// ASCII or alphanumeric, unless its attribute prefix is empty.
pub proof fn law_code_tokenizes(l: LanguageV, code: Seq<char>)
    requires
        forall|j: int|
            0 <= j < code.len() ==> is_ascii_char(#[trigger] code[j])
                || crate::text::char_is_alphanumeric(code[j]),
        l.attribute_prefix is None || l.attribute_prefix->0.len() > 0,
    ensures
        lang_tokens(l, code) is Some,
{
    lemma_scan_total(l, code, 0, false, Seq::empty());
}

/// The tokens of a project-defined language are never empty, and no two
/// neighbours have the same colours in both themes.
pub proof fn law_lang_tokens_well_split(l: LanguageV, code: Seq<char>)
    ensures
        lang_tokens(l, code) matches Some(t) ==> well_split(t),
{
    assert(well_split(Seq::<HlTokenV>::empty()));
    lemma_scan_split(l, code, 0, false, Seq::empty());
}

} // verus!
