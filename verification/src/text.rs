//! Characters and text: the Unicode classes the library relies on, and the
//! trimming, prefix and splitting rules that `str` gives the rest of the crate.
use vstd::prelude::*;

verus! {

// ---------------------------------------------------------------------------
// Character classes
// ---------------------------------------------------------------------------

/// The Unicode `White_Space` property, which `char::is_whitespace` tests.
pub open spec fn is_white_space(c: char) -> bool {
    ||| ('\t' <= c && c <= '\r')
    ||| c == ' '
    ||| c == '\u{85}'
    ||| c == '\u{a0}'
    ||| c == '\u{1680}'
    ||| ('\u{2000}' <= c && c <= '\u{200a}')
    ||| c == '\u{2028}'
    ||| c == '\u{2029}'
    ||| c == '\u{202f}'
    ||| c == '\u{205f}'
    ||| c == '\u{3000}'
}

pub open spec fn is_ascii_char(c: char) -> bool {
    (c as u32) < 128
}

pub open spec fn is_ascii_upper(c: char) -> bool {
    'A' <= c && c <= 'Z'
}

pub open spec fn is_ascii_lower(c: char) -> bool {
    'a' <= c && c <= 'z'
}

pub open spec fn is_ascii_digit(c: char) -> bool {
    '0' <= c && c <= '9'
}

pub open spec fn is_ascii_alnum(c: char) -> bool {
    is_ascii_upper(c) || is_ascii_lower(c) || is_ascii_digit(c)
}

/// A character of the Latin-1 supplement, `U+0080` to `U+00FF`.
pub open spec fn is_latin1(c: char) -> bool {
    0x80 <= (c as u32) && (c as u32) <= 0xff
}

/// The letters of the Latin-1 supplement (`ª µ º`, `À`..`Ö`, `Ø`..`ö`, `ø`..`ÿ`):
/// its characters with the Unicode `Alphabetic` property.
pub open spec fn latin1_letter(c: char) -> bool {
    let n = c as u32;
    n == 0xaa || n == 0xb5 || n == 0xba || (0xc0 <= n && n <= 0xd6) || (0xd8 <= n && n <= 0xf6) || (
    0xf8 <= n && n <= 0xff)
}

/// The numerals of the Latin-1 supplement (`² ³ ¹ ¼ ½ ¾`): its characters in the
/// general category `No`.
pub open spec fn latin1_numeral(c: char) -> bool {
    let n = c as u32;
    n == 0xb2 || n == 0xb3 || n == 0xb9 || n == 0xbc || n == 0xbd || n == 0xbe
}

/// `char::is_alphanumeric` beyond Latin-1 and whitespace: Unicode `Alphabetic` or
/// `Numeric`.
pub uninterp spec fn unicode_alphanumeric(c: char) -> bool;

/// `char::is_alphanumeric`: the letters and digits in ASCII, the letters and
/// numerals in Latin-1; never whitespace.
pub open spec fn char_is_alphanumeric(c: char) -> bool {
    if is_ascii_char(c) {
        is_ascii_alnum(c)
    } else if is_latin1(c) {
        latin1_letter(c) || latin1_numeral(c)
    } else if is_white_space(c) {
        false
    } else {
        unicode_alphanumeric(c)
    }
}

/// `char::is_alphabetic` beyond Latin-1 and whitespace: the Unicode `Alphabetic`
/// property.
pub uninterp spec fn unicode_alphabetic(c: char) -> bool;

/// `char::is_alphabetic`: the letters in ASCII and in Latin-1; never whitespace.
pub open spec fn char_is_alphabetic(c: char) -> bool {
    if is_ascii_char(c) {
        is_ascii_upper(c) || is_ascii_lower(c)
    } else if is_latin1(c) {
        latin1_letter(c)
    } else if is_white_space(c) {
        false
    } else {
        unicode_alphabetic(c)
    }
}

/// `char::is_numeric` beyond Latin-1 and whitespace: Unicode general categories
/// `Nd`, `Nl` and `No`.
pub uninterp spec fn unicode_numeric(c: char) -> bool;

/// `char::is_numeric`: the digits in ASCII, the numerals in Latin-1; never
/// whitespace.
pub open spec fn char_is_numeric(c: char) -> bool {
    if is_ascii_char(c) {
        is_ascii_digit(c)
    } else if is_latin1(c) {
        latin1_numeral(c)
    } else if is_white_space(c) {
        false
    } else {
        unicode_numeric(c)
    }
}

/// Beyond Latin-1, a character that is not whitespace.
pub open spec fn beyond_latin1(c: char) -> bool {
    (c as u32) > 0xff && !is_white_space(c)
}

/// `char::to_lowercase` outside ASCII: the full lowercase mapping, one or more
/// characters.
pub uninterp spec fn unicode_lowercase(c: char) -> Seq<char>;

/// `char::to_lowercase`: in ASCII the ASCII lowercase letter.
pub open spec fn char_lowercase(c: char) -> Seq<char> {
    if is_ascii_char(c) {
        seq![ascii_lower(c)]
    } else {
        unicode_lowercase(c)
    }
}

/// `char::to_uppercase` outside ASCII: the full uppercase mapping, one or more
/// characters.
pub uninterp spec fn unicode_uppercase(c: char) -> Seq<char>;

/// `char::to_uppercase`: in ASCII the ASCII uppercase letter.
pub open spec fn char_uppercase(c: char) -> Seq<char> {
    if is_ascii_char(c) {
        seq![ascii_upper(c)]
    } else {
        unicode_uppercase(c)
    }
}

/// The ASCII case mapping of one letter (other characters are unchanged).
pub open spec fn ascii_lower(c: char) -> char {
    if is_ascii_upper(c) {
        ((c as u32) + 32) as char
    } else {
        c
    }
}

pub open spec fn ascii_upper(c: char) -> char {
    if is_ascii_lower(c) {
        ((c as u32) - 32) as char
    } else {
        c
    }
}

/// Whether a character has the `White_Space` property, as `char::is_whitespace`
/// tests.
pub(crate) fn is_whitespace(c: char) -> (b: bool)
    ensures
        b == is_white_space(c),
{
    ('\t' <= c && c <= '\r') || c == ' ' || c == '\u{85}' || c == '\u{a0}' || c == '\u{1680}'
        || ('\u{2000}' <= c && c <= '\u{200a}') || c == '\u{2028}' || c == '\u{2029}' || c
        == '\u{202f}' || c == '\u{205f}' || c == '\u{3000}'
}

/// `char::is_alphanumeric`.
#[verifier::external_body]
pub(crate) fn is_alphanumeric(c: char) -> (b: bool)
    ensures
        b == char_is_alphanumeric(c),
        beyond_latin1(c) ==> b == unicode_alphanumeric(c),
{
    c.is_alphanumeric()
}

/// `char::is_alphabetic`.
#[verifier::external_body]
pub(crate) fn is_alphabetic(c: char) -> (b: bool)
    ensures
        b == char_is_alphabetic(c),
        beyond_latin1(c) ==> b == unicode_alphabetic(c),
{
    c.is_alphabetic()
}

/// `char::is_numeric`.
#[verifier::external_body]
pub(crate) fn is_numeric(c: char) -> (b: bool)
    ensures
        b == char_is_numeric(c),
        beyond_latin1(c) ==> b == unicode_numeric(c),
{
    c.is_numeric()
}

/// `char::to_lowercase`, collected. An ASCII character maps to its ASCII lowercase.
#[verifier::external_body]
pub(crate) fn to_lowercase(c: char) -> (r: Vec<char>)
    ensures
        r@ == char_lowercase(c),
        !is_ascii_char(c) ==> r@ == unicode_lowercase(c),
{
    c.to_lowercase().collect()
}

/// `char::to_uppercase`, collected. An ASCII character maps to its ASCII uppercase.
#[verifier::external_body]
pub(crate) fn to_uppercase(c: char) -> (r: Vec<char>)
    ensures
        r@ == char_uppercase(c),
        !is_ascii_char(c) ==> r@ == unicode_uppercase(c),
{
    c.to_uppercase().collect()
}

/// `String::push`.
#[verifier::external_body]
pub(crate) fn push_char(s: &mut String, c: char)
    ensures
        final(s)@ == old(s)@.push(c),
{
    s.push(c)
}

/// `<str as PartialEq>::eq`.
#[verifier::external_body]
pub(crate) fn str_eq(a: &str, b: &str) -> (r: bool)
    ensures
        r == (a@ == b@),
{
    a == b
}

pub fn ascii_to_lower(c: char) -> (r: char)
    ensures
        r == ascii_lower(c),
{
    if 'A' <= c && c <= 'Z' {
        ((c as u8) + 32) as char
    } else {
        c
    }
}

// ---------------------------------------------------------------------------
// Conversions between `str`, `String` and character vectors
// ---------------------------------------------------------------------------

/// The characters of a string slice.
pub fn chars_of(s: &str) -> (v: Vec<char>)
    ensures
        v@ == s@,
{
    let mut v: Vec<char> = Vec::new();
    proof {
        assert(s@.take(s@.len() as int) =~= s@);
    }
    for c in it: s.chars()
        invariant
            it.seq() == s@,
            v@ == s@.take(it.index() as int),
    {
        proof {
            assert(s@.take(it.index() as int).push(c) =~= s@.take(it.index() + 1));
        }
        v.push(c);
    }
    v
}

/// A string holding the characters `v[lo..hi]`.
pub fn string_of_range(v: &Vec<char>, lo: usize, hi: usize) -> (s: String)
    requires
        lo <= hi <= v.len(),
    ensures
        s@ == v@.subrange(lo as int, hi as int),
{
    let mut s = String::new();
    let mut i = lo;
    while i < hi
        invariant
            lo <= i <= hi <= v.len(),
            s@ == v@.subrange(lo as int, i as int),
        decreases hi - i,
    {
        push_char(&mut s, v[i]);
        i += 1;
        proof {
            assert(s@ =~= v@.subrange(lo as int, i as int));
        }
    }
    s
}

/// A string holding all of `v`.
pub fn string_of(v: &Vec<char>) -> (s: String)
    ensures
        s@ == v@,
{
    let s = string_of_range(v, 0, v.len());
    proof {
        assert(v@.subrange(0, v@.len() as int) =~= v@);
    }
    s
}

/// Appends the characters `v[lo..hi]` to `out`.
pub fn extend_range(out: &mut Vec<char>, v: &Vec<char>, lo: usize, hi: usize)
    requires
        lo <= hi <= v.len(),
    ensures
        final(out)@ == old(out)@ + v@.subrange(lo as int, hi as int),
{
    let mut i = lo;
    while i < hi
        invariant
            lo <= i <= hi <= v.len(),
            out@ == old(out)@ + v@.subrange(lo as int, i as int),
        decreases hi - i,
    {
        out.push(v[i]);
        i += 1;
        proof {
            assert(out@ =~= old(out)@ + v@.subrange(lo as int, i as int));
        }
    }
}

/// Appends the characters of a string slice to `out`.
pub fn extend_str(out: &mut Vec<char>, s: &str)
    ensures
        final(out)@ == old(out)@ + s@,
{
    let v = chars_of(s);
    extend_range(out, &v, 0, v.len());
    proof {
        assert(v@.subrange(0, v@.len() as int) =~= v@);
    }
}

// ---------------------------------------------------------------------------
// Trimming
// ---------------------------------------------------------------------------

/// `s` without leading whitespace (`str::trim_start`).
pub open spec fn trim_start(s: Seq<char>) -> Seq<char>
    decreases s.len(),
{
    if s.len() > 0 && is_white_space(s[0]) {
        trim_start(s.drop_first())
    } else {
        s
    }
}

/// `s` without trailing whitespace (`str::trim_end`).
pub open spec fn trim_end(s: Seq<char>) -> Seq<char>
    decreases s.len(),
{
    if s.len() > 0 && is_white_space(s.last()) {
        trim_end(s.drop_last())
    } else {
        s
    }
}

/// `s` without leading or trailing whitespace (`str::trim`).
pub open spec fn trim(s: Seq<char>) -> Seq<char> {
    trim_end(trim_start(s))
}

/// The index of the first character of `s[i..]` that is not whitespace.
pub open spec fn skip_ws(s: Seq<char>, i: int) -> int
    decreases s.len() - i,
{
    if 0 <= i < s.len() && is_white_space(s[i]) {
        skip_ws(s, i + 1)
    } else {
        i
    }
}

/// The end of `s[..j]` once trailing whitespace is dropped, not going below `lo`.
pub open spec fn skip_ws_back(s: Seq<char>, lo: int, j: int) -> int
    decreases j - lo,
{
    if lo < j && j <= s.len() && is_white_space(s[j - 1]) {
        skip_ws_back(s, lo, j - 1)
    } else {
        j
    }
}

pub proof fn lemma_skip_ws(s: Seq<char>, lo: int, hi: int)
    requires
        0 <= lo <= hi <= s.len(),
    ensures
        lo <= skip_ws(s.subrange(0, hi), lo) <= hi,
        trim_start(s.subrange(lo, hi)) == s.subrange(skip_ws(s.subrange(0, hi), lo), hi),
    decreases hi - lo,
{
    let t = s.subrange(0, hi);
    let r = s.subrange(lo, hi);
    if lo < hi && is_white_space(s[lo]) {
        lemma_skip_ws(s, lo + 1, hi);
        assert(r.drop_first() =~= s.subrange(lo + 1, hi));
    }
}

pub proof fn lemma_skip_ws_back(s: Seq<char>, lo: int, hi: int)
    requires
        0 <= lo <= hi <= s.len(),
    ensures
        lo <= skip_ws_back(s, lo, hi) <= hi,
        trim_end(s.subrange(lo, hi)) == s.subrange(lo, skip_ws_back(s, lo, hi)),
    decreases hi - lo,
{
    let r = s.subrange(lo, hi);
    if lo < hi && is_white_space(s[hi - 1]) {
        lemma_skip_ws_back(s, lo, hi - 1);
        assert(r.drop_last() =~= s.subrange(lo, hi - 1));
    }
}

/// The first index at or after `lo` (and before `hi`) that is not whitespace.
pub fn skip_whitespace(v: &Vec<char>, lo: usize, hi: usize) -> (r: usize)
    requires
        lo <= hi <= v.len(),
    ensures
        lo <= r <= hi,
        trim_start(v@.subrange(lo as int, hi as int)) == v@.subrange(r as int, hi as int),
        r == skip_ws(v@.subrange(0, hi as int), lo as int),
{
    proof {
        lemma_skip_ws(v@, lo as int, hi as int);
    }
    let ghost t = v@.subrange(0, hi as int);
    let mut i = lo;
    while i < hi && is_whitespace(v[i])
        invariant
            lo <= i <= hi <= v.len(),
            t == v@.subrange(0, hi as int),
            skip_ws(t, i as int) == skip_ws(t, lo as int),
        decreases hi - i,
    {
        i += 1;
    }
    i
}

/// The end of `v[lo..hi]` once trailing whitespace is dropped.
pub fn skip_whitespace_back(v: &Vec<char>, lo: usize, hi: usize) -> (r: usize)
    requires
        lo <= hi <= v.len(),
    ensures
        lo <= r <= hi,
        trim_end(v@.subrange(lo as int, hi as int)) == v@.subrange(lo as int, r as int),
{
    proof {
        lemma_skip_ws_back(v@, lo as int, hi as int);
    }
    let mut j = hi;
    while lo < j && is_whitespace(v[j - 1])
        invariant
            lo <= j <= hi <= v.len(),
            skip_ws_back(v@, lo as int, j as int) == skip_ws_back(v@, lo as int, hi as int),
        decreases j - lo,
    {
        j -= 1;
    }
    j
}

pub proof fn lemma_trim_start_idempotent(s: Seq<char>)
    ensures
        trim_start(trim_start(s)) == trim_start(s),
        trim_start(s).len() > 0 ==> !is_white_space(trim_start(s)[0]),
    decreases s.len(),
{
    if s.len() > 0 && is_white_space(s[0]) {
        lemma_trim_start_idempotent(s.drop_first());
    }
}

pub proof fn lemma_trim_end_keeps_start(s: Seq<char>)
    requires
        s.len() > 0 ==> !is_white_space(s[0]),
    ensures
        trim_end(s).len() > 0 ==> !is_white_space(trim_end(s)[0]),
        trim_end(s).len() > 0 ==> trim_end(s)[0] == s[0],
        trim_end(trim_end(s)) == trim_end(s),
        trim_end(s).len() > 0 ==> !is_white_space(trim_end(s).last()),
    decreases s.len(),
{
    if s.len() > 0 && is_white_space(s.last()) {
        if s.len() > 1 {
            assert(s.drop_last()[0] == s[0]);
        }
        lemma_trim_end_keeps_start(s.drop_last());
    }
}

/// Trimming twice is trimming once.
pub proof fn lemma_trim_idempotent(s: Seq<char>)
    ensures
        trim(trim(s)) == trim(s),
        trim(s) == s ==> trim(s) == s,
{
    lemma_trim_start_idempotent(s);
    let a = trim_start(s);
    lemma_trim_end_keeps_start(a);
    let t = trim_end(a);
    if t.len() > 0 {
        assert(trim_start(t) == t);
    } else {
        assert(trim_start(t) == t);
    }
}

/// The bounds of `v[lo..hi]` with surrounding whitespace removed.
pub fn trim_range(v: &Vec<char>, lo: usize, hi: usize) -> (r: (usize, usize))
    requires
        lo <= hi <= v.len(),
    ensures
        lo <= r.0 <= r.1 <= hi,
        trim(v@.subrange(lo as int, hi as int)) == v@.subrange(r.0 as int, r.1 as int),
        trim_start(v@.subrange(lo as int, hi as int)) == v@.subrange(r.0 as int, hi as int),
{
    let a = skip_whitespace(v, lo, hi);
    let b = skip_whitespace_back(v, a, hi);
    (a, b)
}

/// The characters of `s` with surrounding whitespace removed (`str::trim`).
pub fn trimmed(s: &str) -> (r: Vec<char>)
    ensures
        r@ == trim(s@),
{
    let v = chars_of(s);
    let (a, b) = trim_range(&v, 0, v.len());
    let mut out: Vec<char> = Vec::new();
    extend_range(&mut out, &v, a, b);
    proof {
        assert(v@.subrange(0, v@.len() as int) =~= v@);
        assert(out@ =~= v@.subrange(a as int, b as int));
    }
    out
}

// ---------------------------------------------------------------------------
// Prefixes, searching and splitting
// ---------------------------------------------------------------------------

/// `s` starts with `p`.
pub open spec fn has_prefix(s: Seq<char>, p: Seq<char>) -> bool {
    p.len() <= s.len() && s.subrange(0, p.len() as int) == p
}

/// Whether `v[lo..hi]` starts with `p`.
pub fn starts_with_at(v: &Vec<char>, lo: usize, hi: usize, p: &[char]) -> (b: bool)
    requires
        lo <= hi <= v.len(),
    ensures
        b == has_prefix(v@.subrange(lo as int, hi as int), p@),
{
    let ghost s = v@.subrange(lo as int, hi as int);
    if p.len() > hi - lo {
        return false;
    }
    let mut k: usize = 0;
    while k < p.len()
        invariant
            p@.len() <= hi - lo,
            lo <= hi <= v.len(),
            s == v@.subrange(lo as int, hi as int),
            0 <= k <= p@.len(),
            forall|j: int| 0 <= j < k ==> s[j] == p@[j],
        decreases p.len() - k,
    {
        if v[lo + k] != p[k] {
            proof {
                assert(s.subrange(0, p@.len() as int)[k as int] != p@[k as int]);
            }
            return false;
        }
        k += 1;
    }
    proof {
        assert(s.subrange(0, p@.len() as int) =~= p@);
    }
    true
}

/// Whether `v[lo..hi]` starts with the characters of `p`.
pub fn starts_with_vec_at(v: &Vec<char>, lo: usize, hi: usize, p: &Vec<char>) -> (b: bool)
    requires
        lo <= hi <= v.len(),
    ensures
        b == has_prefix(v@.subrange(lo as int, hi as int), p@),
{
    starts_with_at(v, lo, hi, p.as_slice())
}

/// Whether `a[alo..ahi]` and `b` hold the same characters.
pub fn range_eq(a: &Vec<char>, alo: usize, ahi: usize, b: &Vec<char>) -> (r: bool)
    requires
        alo <= ahi <= a.len(),
    ensures
        r == (a@.subrange(alo as int, ahi as int) == b@),
{
    if ahi - alo != b.len() {
        proof {
            assert(a@.subrange(alo as int, ahi as int).len() != b@.len());
        }
        return false;
    }
    let r = starts_with_at(a, alo, ahi, b.as_slice());
    proof {
        let s = a@.subrange(alo as int, ahi as int);
        assert(s.subrange(0, b@.len() as int) =~= s);
    }
    r
}

/// Whether two character vectors are equal.
pub fn vec_eq(a: &Vec<char>, b: &Vec<char>) -> (r: bool)
    ensures
        r == (a@ == b@),
{
    let r = range_eq(a, 0, a.len(), b);
    proof {
        assert(a@.subrange(0, a@.len() as int) =~= a@);
    }
    r
}

/// Whether `c` occurs in `s`.
pub open spec fn has_char(s: Seq<char>, c: char) -> bool {
    exists|i: int| 0 <= i < s.len() && s[i] == c
}

/// The index of the first `c` in `v[lo..hi]`, or `hi`.
pub open spec fn find_char(s: Seq<char>, lo: int, hi: int, c: char) -> int
    decreases hi - lo,
{
    if lo < hi && 0 <= lo < s.len() && s[lo] != c {
        find_char(s, lo + 1, hi, c)
    } else {
        lo
    }
}

pub proof fn lemma_find_char(s: Seq<char>, lo: int, hi: int, c: char)
    requires
        0 <= lo <= hi <= s.len(),
    ensures
        lo <= find_char(s, lo, hi, c) <= hi,
        forall|j: int| lo <= j < find_char(s, lo, hi, c) ==> s[j] != c,
        find_char(s, lo, hi, c) < hi ==> s[find_char(s, lo, hi, c)] == c,
    decreases hi - lo,
{
    if lo < hi && s[lo] != c {
        lemma_find_char(s, lo + 1, hi, c);
    }
}

pub fn find_char_in(v: &Vec<char>, lo: usize, hi: usize, c: char) -> (r: usize)
    requires
        lo <= hi <= v.len(),
    ensures
        r == find_char(v@, lo as int, hi as int, c),
        lo <= r <= hi,
        forall|j: int| lo <= j < r ==> v@[j] != c,
        r < hi ==> v@[r as int] == c,
{
    proof {
        lemma_find_char(v@, lo as int, hi as int, c);
    }
    let mut i = lo;
    while i < hi && v[i] != c
        invariant
            lo <= i <= hi <= v.len(),
            find_char(v@, i as int, hi as int, c) == find_char(v@, lo as int, hi as int, c),
        decreases hi - i,
    {
        i += 1;
    }
    i
}

/// The end of the line that starts at `lo`: just past its `'\n'`, or `s.len()`.
/// Lines are the pieces of `str::split_inclusive('\n')`.
pub open spec fn line_end(s: Seq<char>, lo: int) -> int {
    let k = find_char(s, lo, s.len() as int, '\n');
    if k < s.len() {
        k + 1
    } else {
        k
    }
}

/// `str::split_inclusive('\n')` from index `lo` on: each line keeps its `'\n'`,
/// and a final line without one is kept when it is not empty.
pub open spec fn lines_from(s: Seq<char>, lo: int) -> Seq<Seq<char>>
    decreases s.len() - lo,
{
    if lo < 0 || lo >= s.len() {
        Seq::empty()
    } else {
        let e = line_end(s, lo);
        if e <= lo || e > s.len() {
            Seq::empty()
        } else {
            seq![s.subrange(lo, e)] + lines_from(s, e)
        }
    }
}

pub open spec fn split_lines(s: Seq<char>) -> Seq<Seq<char>> {
    lines_from(s, 0)
}

pub proof fn lemma_line_end(s: Seq<char>, lo: int)
    requires
        0 <= lo < s.len(),
    ensures
        lo < line_end(s, lo) <= s.len(),
        forall|j: int| lo <= j < line_end(s, lo) - 1 ==> s[j] != '\n',
{
    lemma_find_char(s, lo, s.len() as int, '\n');
}

pub fn next_line_end(v: &Vec<char>, lo: usize) -> (e: usize)
    requires
        lo < v.len(),
    ensures
        e == line_end(v@, lo as int),
        lo < e <= v.len(),
{
    proof {
        lemma_line_end(v@, lo as int);
    }
    let k = find_char_in(v, lo, v.len(), '\n');
    if k < v.len() {
        k + 1
    } else {
        k
    }
}

/// The end of the piece that starts at `lo` when splitting after each `sep`.
pub open spec fn piece_end(s: Seq<char>, lo: int, sep: char) -> int {
    let k = find_char(s, lo, s.len() as int, sep);
    if k < s.len() {
        k + 1
    } else {
        k
    }
}

/// `str::split_inclusive(sep)` from index `lo` on.
pub open spec fn pieces_from(s: Seq<char>, lo: int, sep: char) -> Seq<Seq<char>>
    decreases s.len() - lo,
{
    if lo < 0 || lo >= s.len() {
        Seq::empty()
    } else {
        let e = piece_end(s, lo, sep);
        if e <= lo || e > s.len() {
            Seq::empty()
        } else {
            seq![s.subrange(lo, e)] + pieces_from(s, e, sep)
        }
    }
}

pub proof fn lemma_piece_end(s: Seq<char>, lo: int, sep: char)
    requires
        0 <= lo < s.len(),
    ensures
        lo < piece_end(s, lo, sep) <= s.len(),
{
    lemma_find_char(s, lo, s.len() as int, sep);
}

pub fn next_piece_end(v: &Vec<char>, lo: usize, sep: char) -> (e: usize)
    requires
        lo < v.len(),
    ensures
        e == piece_end(v@, lo as int, sep),
        lo < e <= v.len(),
{
    proof {
        lemma_piece_end(v@, lo as int, sep);
    }
    let k = find_char_in(v, lo, v.len(), sep);
    if k < v.len() {
        k + 1
    } else {
        k
    }
}

/// The concatenation of a sequence of strings.
pub open spec fn concat(parts: Seq<Seq<char>>) -> Seq<char>
    decreases parts.len(),
{
    if parts.len() == 0 {
        Seq::empty()
    } else {
        concat(parts.drop_last()) + parts.last()
    }
}

pub proof fn lemma_concat_push(parts: Seq<Seq<char>>, p: Seq<char>)
    ensures
        concat(parts.push(p)) == concat(parts) + p,
{
    assert(parts.push(p).drop_last() =~= parts);
}

pub proof fn lemma_lines_concat(s: Seq<char>, lo: int)
    requires
        0 <= lo <= s.len(),
    ensures
        concat(lines_from(s, lo)) == s.subrange(lo, s.len() as int),
    decreases s.len() - lo,
{
    if lo < s.len() {
        lemma_line_end(s, lo);
        let e = line_end(s, lo);
        lemma_lines_concat(s, e);
        assert(lines_from(s, lo) == seq![s.subrange(lo, e)] + lines_from(s, e));
        lemma_concat_prepend(s.subrange(lo, e), lines_from(s, e));
        assert(s.subrange(lo, e) + s.subrange(e, s.len() as int) =~= s.subrange(lo, s.len() as int));
    } else {
        assert(s.subrange(lo, s.len() as int) =~= Seq::<char>::empty());
    }
}

pub proof fn lemma_concat_prepend(p: Seq<char>, parts: Seq<Seq<char>>)
    ensures
        concat(seq![p] + parts) == p + concat(parts),
    decreases parts.len(),
{
    if parts.len() == 0 {
        assert(seq![p] + parts =~= seq![p]);
        assert(seq![p].drop_last() =~= Seq::<Seq<char>>::empty());
        assert(concat(Seq::<Seq<char>>::empty()) == Seq::<char>::empty());
        assert(concat(seq![p]) == concat(seq![p].drop_last()) + seq![p].last());
        assert(Seq::<char>::empty() + p =~= p);
        assert(p + Seq::<char>::empty() =~= p);
    } else {
        lemma_concat_prepend(p, parts.drop_last());
        assert((seq![p] + parts).drop_last() =~= seq![p] + parts.drop_last());
        assert((seq![p] + parts).last() == parts.last());
        assert(p + concat(parts.drop_last()) + parts.last() =~= p + (concat(parts.drop_last()) + parts.last()));
    }
}

/// The decimal digit for `d < 10`.
pub open spec fn digit_char(d: nat) -> char {
    if d == 0 {
        '0'
    } else if d == 1 {
        '1'
    } else if d == 2 {
        '2'
    } else if d == 3 {
        '3'
    } else if d == 4 {
        '4'
    } else if d == 5 {
        '5'
    } else if d == 6 {
        '6'
    } else if d == 7 {
        '7'
    } else if d == 8 {
        '8'
    } else {
        '9'
    }
}

/// Decimal digits of a natural number, most significant first.
pub open spec fn decimal(n: nat) -> Seq<char>
    decreases n,
{
    if n < 10 {
        seq![digit_char(n)]
    } else {
        decimal(n / 10).push(digit_char(n % 10))
    }
}

fn digit(d: usize) -> (c: char)
    requires
        d < 10,
    ensures
        c == digit_char(d as nat),
{
    if d == 0 {
        '0'
    } else if d == 1 {
        '1'
    } else if d == 2 {
        '2'
    } else if d == 3 {
        '3'
    } else if d == 4 {
        '4'
    } else if d == 5 {
        '5'
    } else if d == 6 {
        '6'
    } else if d == 7 {
        '7'
    } else if d == 8 {
        '8'
    } else {
        '9'
    }
}

/// The decimal digits of `n` (`usize::to_string`).
pub fn usize_to_decimal(n: usize) -> (r: Vec<char>)
    ensures
        r@ == decimal(n as nat),
    decreases n,
{
    if n < 10 {
        let mut v: Vec<char> = Vec::new();
        v.push(digit(n));
        proof {
            assert(v@ =~= seq![digit_char(n as nat)]);
        }
        v
    } else {
        let mut v = usize_to_decimal(n / 10);
        v.push(digit(n % 10));
        v
    }
}

} // verus!
