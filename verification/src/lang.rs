//! User-defined languages for code highlighting, declared in `languages/*.toml`.
use vstd::prelude::*;
use crate::ast::{HlToken, HlTokenV, token_view, tokens_view};
use crate::text::{
    char_is_alphabetic, char_is_alphanumeric, chars_of, has_char, has_prefix, is_alphabetic,
    is_alphanumeric, is_white_space, is_whitespace, starts_with_vec_at, str_eq, string_of_range,
};

verus! {

/// Where language definitions live, relative to the project root.
pub const LANGUAGES_DIR: &'static str = "languages";

/// A light/dark colour pair, both `#rrggbb`.
#[derive(Debug, Clone)]
pub struct Colour {
    pub light: String,
    pub dark: String,
}

#[derive(Debug, Clone)]
pub struct Language {
    /// The fence info string this applies to, e.g. ```` ```bo ````.
    pub name: String,
    pub aliases: Vec<String>,
    /// Everything from this marker to end of line is a comment.
    pub line_comment: Option<String>,
    /// A sigil that turns the following word into an `attribute` token, e.g. `@`.
    pub attribute_prefix: Option<String>,
    /// Token classes whose word makes the *next* word a `declaration`.
    pub declaration_after: Vec<String>,
    /// Characters the tokenizer emits as `operator`.
    pub operators: String,
    /// Literal words per token class: `keyword = ["model", "enum"]`, first class first.
    pub words: Vec<(String, Vec<String>)>,
    /// Colour per token class: `comment`, `string`, `attribute`, `number`, `brace`,
    /// `paren`, `operator`, `punctuation`, `identifier`, `declaration`.
    pub colours: Vec<(String, Colour)>,
}

pub struct LanguageV {
    pub name: Seq<char>,
    pub aliases: Seq<Seq<char>>,
    pub line_comment: Option<Seq<char>>,
    pub attribute_prefix: Option<Seq<char>>,
    pub declaration_after: Seq<Seq<char>>,
    pub operators: Seq<char>,
    pub words: Seq<(Seq<char>, Seq<Seq<char>>)>,
    pub colours: Seq<(Seq<char>, (Seq<char>, Seq<char>))>,
}

pub open spec fn strings_view(s: Seq<String>) -> Seq<Seq<char>> {
    s.map_values(|x: String| x@)
}

pub open spec fn opt_str_view(o: Option<String>) -> Option<Seq<char>> {
    match o {
        Some(s) => Some(s@),
        None => None,
    }
}

impl View for Language {
    type V = LanguageV;

    open spec fn view(&self) -> LanguageV {
        LanguageV {
            name: self.name@,
            aliases: strings_view(self.aliases@),
            line_comment: opt_str_view(self.line_comment),
            attribute_prefix: opt_str_view(self.attribute_prefix),
            declaration_after: strings_view(self.declaration_after@),
            operators: self.operators@,
            words: self.words@.map_values(|w: (String, Vec<String>)| (w.0@, strings_view(w.1@))),
            colours: self.colours@.map_values(
                |c: (String, Colour)| (c.0@, (c.1.light@, c.1.dark@)),
            ),
        }
    }
}

pub open spec fn languages_view(s: Seq<Language>) -> Seq<LanguageV> {
    s.map_values(|l: Language| l@)
}

/// Whether a fence info string names this language or one of its aliases.
pub open spec fn lang_matches(l: LanguageV, name: Seq<char>) -> bool {
    l.name == name || exists|i: int| 0 <= i < l.aliases.len() && l.aliases[i] == name
}

/// The first entry of `colours` keyed by `class`.
pub open spec fn colour_entry(cs: Seq<(Seq<char>, (Seq<char>, Seq<char>))>, class: Seq<char>, k: int) -> Option<
    (Seq<char>, Seq<char>),
>
    decreases cs.len() - k,
{
    if k < 0 || k >= cs.len() {
        None
    } else if cs[k].0 == class {
        Some(cs[k].1)
    } else {
        colour_entry(cs, class, k + 1)
    }
}

pub open spec fn identifier_word() -> Seq<char> {
    seq!['i', 'd', 'e', 'n', 't', 'i', 'f', 'i', 'e', 'r']
}

pub open spec fn default_light() -> Seq<char> {
    seq!['#', '2', '4', '2', '9', '2', 'e']
}

pub open spec fn default_dark() -> Seq<char> {
    seq!['#', 'c', '0', 'c', '5', 'c', 'e']
}

/// The colours of a token class: its own, else the `identifier` colours, else
/// GitHub-like defaults.
pub open spec fn colour_of(l: LanguageV, class: Seq<char>) -> (Seq<char>, Seq<char>) {
    match colour_entry(l.colours, class, 0) {
        Some(c) => c,
        None => match colour_entry(l.colours, identifier_word(), 0) {
            Some(c) => c,
            None => (default_light(), default_dark()),
        },
    }
}

/// The first class whose word list holds `word`.
pub open spec fn class_entry(ws: Seq<(Seq<char>, Seq<Seq<char>>)>, word: Seq<char>, k: int) -> Option<
    Seq<char>,
>
    decreases ws.len() - k,
{
    if k < 0 || k >= ws.len() {
        None
    } else if exists|j: int| 0 <= j < ws[k].1.len() && ws[k].1[j] == word {
        Some(ws[k].0)
    } else {
        class_entry(ws, word, k + 1)
    }
}

/// The character the tokenizer classifies a character by: the Latin-1 reading of
/// its first UTF-8 byte (the character itself in ASCII).
pub open spec fn lead_code(c: char) -> u32 {
    let n = c as u32;
    if n < 0x80 {
        n
    } else if n < 0x800 {
        (0xc0 + n / 64) as u32
    } else if n < 0x10000 {
        (0xe0 + n / 4096) as u32
    } else {
        (0xf0 + n / 262144) as u32
    }
}

pub open spec fn lead(c: char) -> char {
    (lead_code(c) as u8) as char
}

pub open spec fn utf8_len(c: char) -> nat {
    let n = c as u32;
    if n < 0x80 {
        1
    } else if n < 0x800 {
        2
    } else if n < 0x10000 {
        3
    } else {
        4
    }
}

/// The length of the run at `k` whose characters satisfy `ok`.
pub open spec fn run_while(s: Seq<char>, k: int, ok: spec_fn(char) -> bool) -> int
    decreases s.len() - k,
{
    if 0 <= k < s.len() && ok(s[k]) {
        run_while(s, k + 1, ok)
    } else {
        k
    }
}

pub open spec fn is_word_char(c: char) -> bool {
    char_is_alphanumeric(c) || c == '_'
}

pub open spec fn is_number_char(c: char) -> bool {
    ('0' <= c && c <= '9') || c == '.'
}

pub open spec fn is_not_newline(c: char) -> bool {
    c != '\n'
}

/// Where a string literal that opens at `start` ends: after its closing quote, at
/// an unescaped line end, or at the end of the code.
pub open spec fn string_end(s: Seq<char>, k: int, escaped: bool) -> int
    decreases s.len() - k,
{
    if k < 0 || k >= s.len() {
        s.len() as int
    } else if escaped {
        string_end(s, k + 1, false)
    } else if s[k] == '\\' {
        string_end(s, k + 1, true)
    } else if s[k] == '"' {
        k + 1
    } else if s[k] == '\n' {
        k
    } else {
        string_end(s, k + 1, false)
    }
}

/// Appends a run, merging with the previous one when the colours are unchanged.
pub open spec fn push_run(out: Seq<HlTokenV>, text: Seq<char>, colour: (Seq<char>, Seq<char>)) -> Seq<
    HlTokenV,
> {
    if out.len() > 0 && out.last().light == colour.0 && out.last().dark == colour.1 {
        out.update(
            out.len() - 1,
            HlTokenV { text: out.last().text + text, light: out.last().light, dark: out.last().dark },
        )
    } else {
        out.push(HlTokenV { text, light: colour.0, dark: colour.1 })
    }
}

pub open spec fn w_comment() -> Seq<char> {
    seq!['c', 'o', 'm', 'm', 'e', 'n', 't']
}

pub open spec fn w_string() -> Seq<char> {
    seq!['s', 't', 'r', 'i', 'n', 'g']
}

pub open spec fn w_attribute() -> Seq<char> {
    seq!['a', 't', 't', 'r', 'i', 'b', 'u', 't', 'e']
}

pub open spec fn w_number() -> Seq<char> {
    seq!['n', 'u', 'm', 'b', 'e', 'r']
}

pub open spec fn w_declaration() -> Seq<char> {
    seq!['d', 'e', 'c', 'l', 'a', 'r', 'a', 't', 'i', 'o', 'n']
}

pub open spec fn w_brace() -> Seq<char> {
    seq!['b', 'r', 'a', 'c', 'e']
}

pub open spec fn w_paren() -> Seq<char> {
    seq!['p', 'a', 'r', 'e', 'n']
}

pub open spec fn w_operator() -> Seq<char> {
    seq!['o', 'p', 'e', 'r', 'a', 't', 'o', 'r']
}

pub open spec fn w_punctuation() -> Seq<char> {
    seq!['p', 'u', 'n', 'c', 't', 'u', 'a', 't', 'i', 'o', 'n']
}

/// One token at `i`: its end, its class, and whether the next word is a declaration.
/// `None` where the tokenizer makes no progress.
pub open spec fn lang_step(l: LanguageV, s: Seq<char>, i: int, expect: bool) -> Option<
    (int, Seq<char>, bool),
> {
    let c = s[i];
    let a = lead(c);
    let rest = s.subrange(i, s.len() as int);
    if is_white_space(a) {
        Some((run_while(s, i, |x: char| is_white_space(x)), identifier_word(), expect))
    } else if l.line_comment is Some && has_prefix(rest, l.line_comment->0) {
        Some((run_while(s, i, |x: char| is_not_newline(x)), w_comment(), expect))
    } else if a == '"' {
        Some((string_end(s, i + 1, false), w_string(), expect))
    } else if l.attribute_prefix is Some && has_prefix(rest, l.attribute_prefix->0) {
        let p = l.attribute_prefix->0.len();
        let e = run_while(s, i + p, |x: char| is_word_char(x));
        if e <= i {
            None
        } else {
            Some((e, w_attribute(), expect))
        }
    } else if '0' <= a && a <= '9' {
        Some((run_while(s, i, |x: char| is_number_char(x)), w_number(), expect))
    } else if char_is_alphabetic(a) || a == '_' {
        let e = run_while(s, i, |x: char| is_word_char(x));
        if e <= i {
            None
        } else if expect {
            Some((e, w_declaration(), false))
        } else {
            match class_entry(l.words, s.subrange(i, e), 0) {
                Some(class) => Some(
                    (
                        e,
                        class,
                        exists|j: int|
                            0 <= j < l.declaration_after.len() && l.declaration_after[j] == class,
                    ),
                ),
                None => Some((e, identifier_word(), false)),
            }
        }
    } else {
        let class = if a == '{' || a == '}' {
            w_brace()
        } else if a == '(' || a == ')' {
            w_paren()
        } else if has_char(l.operators, a) {
            w_operator()
        } else {
            w_punctuation()
        };
        if (lead_code(c) < 0x80) != (utf8_len(c) == 1) || (lead_code(c) >= 0x80 && utf8_len(c) != 2) {
            None
        } else {
            Some((i + 1, class, expect))
        }
    }
}

/// The tokens of `s[i..]`, appended to `out`; `None` where the tokenizer would
/// never finish.
pub open spec fn lang_scan(l: LanguageV, s: Seq<char>, i: int, expect: bool, out: Seq<HlTokenV>) -> Option<
    Seq<HlTokenV>,
>
    decreases s.len() - i,
{
    if i < 0 || i >= s.len() {
        Some(out)
    } else {
        match lang_step(l, s, i, expect) {
            None => None,
            Some((e, class, next)) => if e <= i || e > s.len() {
                None
            } else {
                lang_scan(l, s, e, next, push_run(out, s.subrange(i, e), colour_of(l, class)))
            },
        }
    }
}

pub open spec fn lang_tokens(l: LanguageV, code: Seq<char>) -> Option<Seq<HlTokenV>> {
    lang_scan(l, code, 0, false, Seq::empty())
}

// ---------------------------------------------------------------------------

impl Language {
    pub fn matches(&self, lang: &str) -> (r: bool)
        ensures
            r == lang_matches(self@, lang@),
    {
        if str_eq(self.name.as_str(), lang) {
            return true;
        }
        let mut i: usize = 0;
        while i < self.aliases.len()
            invariant
                0 <= i <= self.aliases@.len(),
                self.name@ != lang@,
                forall|j: int| 0 <= j < i ==> self.aliases@[j]@ != lang@,
            decreases self.aliases.len() - i,
        {
            if str_eq(self.aliases[i].as_str(), lang) {
                proof {
                    assert(0 <= i < self@.aliases.len());
                    assert(self@.aliases[i as int] == lang@);
                }
                return true;
            }
            i += 1;
        }
        proof {
            if exists|j: int| 0 <= j < self@.aliases.len() && self@.aliases[j] == lang@ {
                let j = choose|j: int| 0 <= j < self@.aliases.len() && self@.aliases[j] == lang@;
                assert(self.aliases@[j]@ == lang@);
            }
        }
        false
    }

    fn lookup_colour(&self, class: &Vec<char>) -> (r: Option<(String, String)>)
        ensures
            match r {
                Some((a, b)) => colour_entry(self@.colours, class@, 0) == Some((a@, b@)),
                None => colour_entry(self@.colours, class@, 0) is None,
            },
    {
        let ghost cs = self@.colours;
        let mut k: usize = 0;
        while k < self.colours.len()
            invariant
                0 <= k <= self.colours@.len(),
                cs == self@.colours,
                cs.len() == self.colours@.len(),
                colour_entry(cs, class@, k as int) == colour_entry(cs, class@, 0),
            decreases self.colours.len() - k,
        {
            let key = chars_of(self.colours[k].0.as_str());
            if crate::text::vec_eq(&key, class) {
                return Some((self.colours[k].1.light.clone(), self.colours[k].1.dark.clone()));
            }
            k += 1;
        }
        None
    }

    fn colour(&self, class: &Vec<char>) -> (r: (String, String))
        ensures
            (r.0@, r.1@) == colour_of(self@, class@),
    {
        match self.lookup_colour(class) {
            Some(c) => c,
            None => {
                let ident = chars_of("identifier");
                proof {
                    reveal_strlit("identifier");
                    assert("identifier"@ =~= identifier_word());
                }
                match self.lookup_colour(&ident) {
                    Some(c) => c,
                    None => {
                        proof {
                            reveal_strlit("#24292e");
                            reveal_strlit("#c0c5ce");
                            assert("#24292e"@ =~= default_light());
                            assert("#c0c5ce"@ =~= default_dark());
                        }
                        ("#24292e".to_string(), "#c0c5ce".to_string())
                    },
                }
            },
        }
    }

    fn class_of(&self, v: &Vec<char>, lo: usize, hi: usize) -> (r: Option<Vec<char>>)
        requires
            lo <= hi <= v.len(),
        ensures
            match r {
                Some(c) => class_entry(self@.words, v@.subrange(lo as int, hi as int), 0) == Some(c@),
                None => class_entry(self@.words, v@.subrange(lo as int, hi as int), 0) is None,
            },
    {
        let ghost ws = self@.words;
        let ghost word = v@.subrange(lo as int, hi as int);
        let mut k: usize = 0;
        while k < self.words.len()
            invariant
                0 <= k <= self.words@.len(),
                ws == self@.words,
                ws.len() == self.words@.len(),
                word == v@.subrange(lo as int, hi as int),
                lo <= hi <= v.len(),
                class_entry(ws, word, k as int) == class_entry(ws, word, 0),
            decreases self.words.len() - k,
        {
            let list = &self.words[k].1;
            let mut j: usize = 0;
            let mut found = false;
            while j < list.len()
                invariant
                    0 <= j <= list@.len(),
                    *list == self.words@[k as int].1,
                    ws[k as int].1 == strings_view(list@),
                    word == v@.subrange(lo as int, hi as int),
                    lo <= hi <= v.len(),
                    found == exists|m: int| 0 <= m < j && ws[k as int].1[m] == word,
                decreases list.len() - j,
            {
                let cand = chars_of(list[j].as_str());
                let eq = crate::text::range_eq(v, lo, hi, &cand);
                proof {
                    assert(ws[k as int].1[j as int] == list@[j as int]@);
                    assert(eq == (ws[k as int].1[j as int] == word));
                }
                if eq {
                    found = true;
                }
                j += 1;
            }
            if found {
                return Some(chars_of(self.words[k].0.as_str()));
            }
            k += 1;
        }
        None
    }

    fn declares(&self, class: &Vec<char>) -> (r: bool)
        ensures
            r == exists|j: int|
                0 <= j < self@.declaration_after.len() && self@.declaration_after[j] == class@,
    {
        let mut j: usize = 0;
        while j < self.declaration_after.len()
            invariant
                0 <= j <= self.declaration_after@.len(),
                forall|m: int| 0 <= m < j ==> self.declaration_after@[m]@ != class@,
            decreases self.declaration_after.len() - j,
        {
            let cand = chars_of(self.declaration_after[j].as_str());
            if crate::text::vec_eq(&cand, class) {
                proof {
                    assert(self@.declaration_after[j as int] == class@);
                }
                return true;
            }
            j += 1;
        }
        proof {
            if exists|m: int| 0 <= m < self@.declaration_after.len() && self@.declaration_after[m] == class@ {
                let m = choose|m: int|
                    0 <= m < self@.declaration_after.len() && self@.declaration_after[m] == class@;
                assert(self.declaration_after@[m]@ == class@);
            }
        }
        false
    }
}

fn lead_of(c: char) -> (r: (char, u32))
    ensures
        r.0 == lead(c),
        r.1 == lead_code(c),
{
    let n = c as u32;
    let code: u32 = if n < 0x80 {
        n
    } else if n < 0x800 {
        0xc0 + n / 64
    } else if n < 0x10000 {
        0xe0 + n / 4096
    } else {
        0xf0 + n / 262144
    };
    ((code as u8) as char, code)
}

fn utf8_len_of(c: char) -> (r: usize)
    ensures
        r == utf8_len(c),
{
    let n = c as u32;
    if n < 0x80 {
        1
    } else if n < 0x800 {
        2
    } else if n < 0x10000 {
        3
    } else {
        4
    }
}

pub(crate) fn push_token_pub(out: &mut Vec<HlToken>, v: &Vec<char>, lo: usize, hi: usize, colour: (String, String))
    requires
        lo <= hi <= v.len(),
    ensures
        tokens_view(final(out)@) == push_run(
            tokens_view(old(out)@),
            v@.subrange(lo as int, hi as int),
            (colour.0@, colour.1@),
        ),
{
    let ghost before = tokens_view(out@);
    let n = out.len();
    if n > 0 && out[n - 1].light == colour.0 && out[n - 1].dark == colour.1 {
        let mut last = out.pop().unwrap();
        let mut text = chars_of(last.text.as_str());
        crate::text::extend_range(&mut text, v, lo, hi);
        last.text = crate::text::string_of(&text);
        out.push(last);
        proof {
            assert(tokens_view(out@) =~= before.update(
                before.len() - 1,
                HlTokenV {
                    text: before.last().text + v@.subrange(lo as int, hi as int),
                    light: before.last().light,
                    dark: before.last().dark,
                },
            ));
        }
    } else {
        let text = string_of_range(v, lo, hi);
        out.push(HlToken { text, light: colour.0, dark: colour.1 });
        proof {
            assert(tokens_view(out@) =~= before.push(
                HlTokenV {
                    text: v@.subrange(lo as int, hi as int),
                    light: colour.0@,
                    dark: colour.1@,
                },
            ));
        }
    }
}

fn run_end(v: &Vec<char>, k: usize, ok: impl Fn(char) -> bool, spec_ok: Ghost<spec_fn(char) -> bool>) -> (r: usize)
    requires
        k <= v.len(),
        forall|c: char| call_requires(ok, (c,)),
        forall|c: char, b: bool| call_ensures(ok, (c,), b) ==> b == spec_ok@(c),
    ensures
        r == run_while(v@, k as int, spec_ok@),
        k <= r <= v.len(),
{
    let mut e = k;
    while e < v.len() && ok(v[e])
        invariant
            k <= e <= v.len(),
            forall|c: char| call_requires(ok, (c,)),
            forall|c: char, b: bool| call_ensures(ok, (c,), b) ==> b == spec_ok@(c),
            run_while(v@, e as int, spec_ok@) == run_while(v@, k as int, spec_ok@),
        decreases v.len() - e,
    {
        e += 1;
    }
    e
}

fn string_end_of(v: &Vec<char>, start: usize) -> (r: usize)
    requires
        start <= v.len(),
    ensures
        r == string_end(v@, start as int, false),
{
    let mut k = start;
    let mut escaped = false;
    while k < v.len()
        invariant
            start <= k <= v.len(),
            string_end(v@, k as int, escaped) == string_end(v@, start as int, false),
        decreases v.len() - k,
    {
        let ch = v[k];
        if escaped {
            escaped = false;
        } else if ch == '\\' {
            escaped = true;
        } else if ch == '"' {
            return k + 1;
        } else if ch == '\n' {
            return k;
        }
        k += 1;
    }
    v.len()
}

fn contains_char(v: &Vec<char>, c: char) -> (r: bool)
    ensures
        r == has_char(v@, c),
{
    let mut j: usize = 0;
    while j < v.len()
        invariant
            0 <= j <= v@.len(),
            forall|m: int| 0 <= m < j ==> v@[m] != c,
        decreases v.len() - j,
    {
        if v[j] == c {
            return true;
        }
        j += 1;
    }
    false
}

fn word(s: &str) -> (r: Vec<char>)
    ensures
        r@ == s@,
{
    chars_of(s)
}

/// One token at `i` (see `lang_step`).
fn step(
    language: &Language,
    v: &Vec<char>,
    i: usize,
    expect: bool,
    comment_marker: &Option<Vec<char>>,
    attr_prefix: &Option<Vec<char>>,
    operators: &Vec<char>,
) -> (r: Option<(usize, Vec<char>, bool)>)
    requires
        i < v.len(),
        match *comment_marker {
            Some(m) => language@.line_comment == Some(m@),
            None => language@.line_comment is None,
        },
        match *attr_prefix {
            Some(p) => language@.attribute_prefix == Some(p@),
            None => language@.attribute_prefix is None,
        },
        operators@ == language@.operators,
    ensures
        match r {
            Some((e, class, next)) => lang_step(language@, v@, i as int, expect) == Some(
                (e as int, class@, next),
            ),
            None => lang_step(language@, v@, i as int, expect) is None,
        },
{
    proof {
        reveal_strlit("identifier");
        reveal_strlit("comment");
        reveal_strlit("string");
        reveal_strlit("attribute");
        reveal_strlit("number");
        reveal_strlit("declaration");
        reveal_strlit("brace");
        reveal_strlit("paren");
        reveal_strlit("operator");
        reveal_strlit("punctuation");
        assert("identifier"@ =~= identifier_word());
        assert("comment"@ =~= w_comment());
        assert("string"@ =~= w_string());
        assert("attribute"@ =~= w_attribute());
        assert("number"@ =~= w_number());
        assert("declaration"@ =~= w_declaration());
        assert("brace"@ =~= w_brace());
        assert("paren"@ =~= w_paren());
        assert("operator"@ =~= w_operator());
        assert("punctuation"@ =~= w_punctuation());
    }
    let c = v[i];
    let (a, code) = lead_of(c);
    let n = v.len();
    if is_whitespace(a) {
        let end = run_end(v, i, |x: char| -> (b: bool) ensures b == is_white_space(x) { is_whitespace(x) }, Ghost(|x: char| is_white_space(x)));
        return Some((end, word("identifier"), expect));
    }
    let is_comment = match comment_marker {
        Some(m) => starts_with_vec_at(v, i, n, m),
        None => false,
    };
    if is_comment {
        let end = run_end(v, i, |x: char| -> (b: bool) ensures b == is_not_newline(x) { x != '\n' }, Ghost(|x: char| is_not_newline(x)));
        return Some((end, word("comment"), expect));
    }
    if a == '"' {
        let end = string_end_of(v, i + 1);
        return Some((end, word("string"), expect));
    }
    let is_attr = match attr_prefix {
        Some(p) => starts_with_vec_at(v, i, n, p),
        None => false,
    };
    if is_attr {
        let plen = match attr_prefix {
            Some(p) => p.len(),
            None => 0,
        };
        let end = run_end(v, i + plen, |x: char| -> (b: bool) ensures b == is_word_char(x) { is_alphanumeric(x) || x == '_' }, Ghost(|x: char| is_word_char(x)));
        if end <= i {
            return None;
        }
        return Some((end, word("attribute"), expect));
    }
    if '0' <= a && a <= '9' {
        let end = run_end(v, i, |x: char| -> (b: bool) ensures b == is_number_char(x) { ('0' <= x && x <= '9') || x == '.' }, Ghost(|x: char| is_number_char(x)));
        return Some((end, word("number"), expect));
    }
    if is_alphabetic(a) || a == '_' {
        let end = run_end(v, i, |x: char| -> (b: bool) ensures b == is_word_char(x) { is_alphanumeric(x) || x == '_' }, Ghost(|x: char| is_word_char(x)));
        if end <= i {
            return None;
        }
        if expect {
            return Some((end, word("declaration"), false));
        }
        return match language.class_of(v, i, end) {
            Some(found) => {
                let next = language.declares(&found);
                Some((end, found, next))
            },
            None => Some((end, word("identifier"), false)),
        };
    }
    let class = if a == '{' || a == '}' {
        word("brace")
    } else if a == '(' || a == ')' {
        word("paren")
    } else if contains_char(operators, a) {
        word("operator")
    } else {
        word("punctuation")
    };
    let lc = code < 0x80;
    let ul = utf8_len_of(c);
    if lc != (ul == 1) || (!lc && ul != 2) {
        return None;
    }
    Some((i + 1, class, expect))
}

/// Tokenizes with a user-defined language. `None` where the tokenizer would never
/// finish: on a character whose first byte reads as a letter but which cannot start
/// a word, or after an empty attribute prefix.
pub fn highlight(language: &Language, code: &str) -> (r: Option<Vec<HlToken>>)
    ensures
        match r {
            Some(t) => lang_tokens(language@, code@) == Some(tokens_view(t@)),
            None => lang_tokens(language@, code@) is None,
        },
{
    let v = chars_of(code);
    let mut out: Vec<HlToken> = Vec::new();
    let mut i: usize = 0;
    let mut expect_declaration = false;
    let comment_marker: Option<Vec<char>> = match &language.line_comment {
        Some(m) => Some(chars_of(m.as_str())),
        None => None,
    };
    let attr_prefix: Option<Vec<char>> = match &language.attribute_prefix {
        Some(p) => Some(chars_of(p.as_str())),
        None => None,
    };
    let operators = chars_of(language.operators.as_str());
    proof {
        assert(tokens_view(out@) =~= Seq::<HlTokenV>::empty());
    }
    while i < v.len()
        invariant
            i <= v.len(),
            v@ == code@,
            lang_scan(language@, v@, i as int, expect_declaration, tokens_view(out@)) == lang_tokens(
                language@,
                code@,
            ),
            match comment_marker {
                Some(m) => language@.line_comment == Some(m@),
                None => language@.line_comment is None,
            },
            match attr_prefix {
                Some(p) => language@.attribute_prefix == Some(p@),
                None => language@.attribute_prefix is None,
            },
            operators@ == language@.operators,
        decreases v.len() - i,
    {
        let (end, class, next) = match step(
            language,
            &v,
            i,
            expect_declaration,
            &comment_marker,
            &attr_prefix,
            &operators,
        ) {
            Some(found) => found,
            None => return None,
        };
        if end <= i || end > v.len() {
            return None;
        }
        let colour = language.colour(&class);
        push_token_pub(&mut out, &v, i, end, colour);
        i = end;
        expect_declaration = next;
    }
    Some(out)
}

} // verus!
