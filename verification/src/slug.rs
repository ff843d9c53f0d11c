//! Heading slugs: URL fragments made from heading text, unique per page.
use vstd::prelude::*;
use crate::text::{
    ascii_lower, digit_char, char_is_alphanumeric, char_lowercase, chars_of, decimal, extend_range,
    is_alphanumeric, is_ascii_char, is_ascii_digit, is_ascii_lower,
    string_of, to_lowercase, usize_to_decimal,
};

verus! {

/// The slug being built after reading `s`, and whether it just ended a word
/// (leading separators are dropped, so the start counts as one).
pub open spec fn slug_scan(s: Seq<char>) -> (Seq<char>, bool)
    decreases s.len(),
{
    if s.len() == 0 {
        (Seq::empty(), true)
    } else {
        let prev = slug_scan(s.drop_last());
        let c = s.last();
        if char_is_alphanumeric(c) {
            (prev.0 + char_lowercase(c), false)
        } else if !prev.1 {
            (prev.0.push('-'), true)
        } else {
            prev
        }
    }
}

/// `s` without its trailing dashes.
pub open spec fn trim_dashes(s: Seq<char>) -> Seq<char>
    decreases s.len(),
{
    if s.len() > 0 && s.last() == '-' {
        trim_dashes(s.drop_last())
    } else {
        s
    }
}

pub open spec fn section_word() -> Seq<char> {
    seq!['s', 'e', 'c', 't', 'i', 'o', 'n']
}

/// The slug of a heading: alphanumeric runs lowercased and joined by single dashes,
/// with no dash at either end; `section` when nothing is left.
pub open spec fn slugify_spec(s: Seq<char>) -> Seq<char> {
    let t = trim_dashes(slug_scan(s).0);
    if t.len() == 0 {
        section_word()
    } else {
        t
    }
}

pub proof fn lemma_trim_dashes(s: Seq<char>)
    ensures
        trim_dashes(s).len() > 0 ==> trim_dashes(s).last() != '-',
    decreases s.len(),
{
    if s.len() > 0 && s.last() == '-' {
        lemma_trim_dashes(s.drop_last());
    }
}

/// A slug is never empty and never ends with a dash.
pub proof fn law_slug_nonempty_no_trailing_dash(s: Seq<char>)
    ensures
        slugify_spec(s).len() > 0,
        slugify_spec(s).last() != '-',
{
    lemma_trim_dashes(slug_scan(s).0);
}

/// Turns heading text into a URL fragment: "Hello, World!" -> "hello-world".
pub fn slugify(text: &str) -> (r: String)
    ensures
        r@ == slugify_spec(text@),
{
    let v = chars_of(text);
    let mut out: Vec<char> = Vec::new();
    let mut prev_dash = true;
    let mut i: usize = 0;
    while i < v.len()
        invariant
            0 <= i <= v.len(),
            v@ == text@,
            (out@, prev_dash) == slug_scan(v@.take(i as int)),
        decreases v.len() - i,
    {
        proof {
            assert(v@.take(i as int + 1).drop_last() =~= v@.take(i as int));
        }
        let ch = v[i];
        if is_alphanumeric(ch) {
            let lower = to_lowercase(ch);
            extend_range(&mut out, &lower, 0, lower.len());
            proof {
                assert(lower@.subrange(0, lower@.len() as int) =~= lower@);
            }
            prev_dash = false;
        } else if !prev_dash {
            out.push('-');
            prev_dash = true;
        }
        i += 1;
    }
    proof {
        assert(v@.take(i as int) =~= text@);
    }
    let ghost scanned = out@;
    while out.len() > 0 && out[out.len() - 1] == '-'
        invariant
            trim_dashes(out@) == trim_dashes(scanned),
        decreases out.len(),
    {
        out.pop();
    }
    if out.len() == 0 {
        out.push('s');
        out.push('e');
        out.push('c');
        out.push('t');
        out.push('i');
        out.push('o');
        out.push('n');
        proof {
            assert(out@ =~= section_word());
        }
    }
    string_of(&out)
}

pub open spec fn dash() -> Seq<char> {
    seq!['-']
}

/// The slug handed out for a base slug that was handed out `n` times before.
pub open spec fn numbered(base: Seq<char>, n: nat) -> Seq<char> {
    if n == 0 {
        base
    } else {
        base + dash() + decimal(n)
    }
}

/// Whether `m` is the first number from `n` on whose slug is free: every slug of
/// `base` numbered from `n` up to `m` is taken, and the one numbered `m` is not.
pub open spec fn free_from(taken: Set<Seq<char>>, base: Seq<char>, n: nat, m: nat) -> bool {
    &&& n <= m
    &&& !taken.contains(numbered(base, m))
    &&& forall|j: nat| n <= j < m ==> taken.contains(#[trigger] numbered(base, j))
}

/// The first number from `n` on whose slug of `base` is not yet taken.
pub open spec fn first_free(taken: Set<Seq<char>>, base: Seq<char>, n: nat) -> nat {
    choose|m: nat| free_from(taken, base, n, m)
}

/// The slugs of `base` numbered below `n`.
pub open spec fn numbered_below(base: Seq<char>, n: nat) -> Set<Seq<char>>
    decreases n,
{
    if n == 0 {
        Set::empty()
    } else {
        numbered_below(base, (n - 1) as nat).insert(numbered(base, (n - 1) as nat))
    }
}

/// Hands out unique slugs within one page, appending `-1`, `-2`, ... on collision.
#[derive(Debug)]
pub struct SlugAllocator {
    seen: Vec<(String, usize)>,
    taken: Vec<String>,
}

impl Default for SlugAllocator {
    /// An allocator that has handed out nothing.
    fn default() -> (r: SlugAllocator)
        ensures
            r.wf(),
            r.calls() == 0,
            r.handed_out() == Set::<Seq<char>>::empty(),
            forall|b: Seq<char>| r.count(b) == 0,
    {
        SlugAllocator::new()
    }
}

impl SlugAllocator {
    /// Each base slug is recorded at most once, and every slug of a base numbered
    /// below its count has been handed out.
    pub closed spec fn wf(self) -> bool {
        &&& forall|i: int, j: int|
            0 <= i < j < self.seen@.len() ==> self.seen@[i].0@ != self.seen@[j].0@
        &&& forall|i: int, j: nat|
            0 <= i < self.seen@.len() && j < self.seen@[i].1 ==> self.handed_out().contains(
                #[trigger] numbered(self.seen@[i].0@, j),
            )
    }

    /// How many numbers of `base` have been used up: the next slug for `base` is the
    /// first free one from this number on.
    pub closed spec fn count(self, base: Seq<char>) -> nat {
        if exists|i: int| 0 <= i < self.seen@.len() && self.seen@[i].0@ == base {
            let i = choose|i: int| 0 <= i < self.seen@.len() && self.seen@[i].0@ == base;
            self.seen@[i].1 as nat
        } else {
            0
        }
    }

    /// The slugs handed out so far.
    pub closed spec fn handed_out(self) -> Set<Seq<char>> {
        self.taken@.map_values(|s: String| s@).to_set()
    }

    /// How many slugs have been handed out.
    pub closed spec fn calls(self) -> nat {
        self.taken@.len()
    }

    pub fn new() -> (r: SlugAllocator)
        ensures
            r.wf(),
            r.calls() == 0,
            r.handed_out() == Set::<Seq<char>>::empty(),
            forall|b: Seq<char>| r.count(b) == 0,
    {
        let r = SlugAllocator { seen: Vec::new(), taken: Vec::new() };
        proof {
            assert(r.taken@.map_values(|s: String| s@) =~= Seq::<Seq<char>>::empty());
            assert(r.handed_out() =~= Set::<Seq<char>>::empty());
        }
        r
    }

    /// Whether `s` has been handed out.
    fn is_taken(&self, s: &String) -> (r: bool)
        ensures
            r == self.handed_out().contains(s@),
    {
        let ghost views = self.taken@.map_values(|t: String| t@);
        let mut i: usize = 0;
        while i < self.taken.len()
            invariant
                0 <= i <= self.taken@.len(),
                views == self.taken@.map_values(|t: String| t@),
                forall|j: int| 0 <= j < i ==> views[j] != s@,
            decreases self.taken.len() - i,
        {
            if crate::text::str_eq(self.taken[i].as_str(), s.as_str()) {
                proof {
                    assert(views[i as int] == s@);
                    assert(views.contains(s@));
                }
                return true;
            }
            i += 1;
        }
        proof {
            if views.to_set().contains(s@) {
                assert(views.contains(s@));
                let j = choose|j: int| 0 <= j < views.len() && views[j] == s@;
                assert(views[j] != s@);
            }
        }
        false
    }

    /// The next slug for `text`: its base slug if that is free, else the first of
    /// `base-1`, `base-2`, ... (counting on from the last number used for this base)
    /// that has not been handed out. No slug is ever handed out twice.
    pub fn allocate(&mut self, text: &str) -> (r: String)
        requires
            old(self).wf(),
            old(self).calls() < usize::MAX,
        ensures
            final(self).wf(),
            final(self).calls() == old(self).calls() + 1,
            !old(self).handed_out().contains(r@),
            final(self).handed_out() == old(self).handed_out().insert(r@),
            r@ == numbered(
                slugify_spec(text@),
                first_free(old(self).handed_out(), slugify_spec(text@), old(self).count(slugify_spec(text@))),
            ),
            r@ == slugify_spec(text@) || r@.take(slugify_spec(text@).len() + 1int) == slugify_spec(text@)
                + dash(),
            final(self).count(slugify_spec(text@)) == first_free(
                old(self).handed_out(),
                slugify_spec(text@),
                old(self).count(slugify_spec(text@)),
            ) + 1,
            forall|b: Seq<char>|
                b != slugify_spec(text@) ==> final(self).count(b) == old(self).count(b),
    {
        let base = slugify(text);
        let ghost old_self = *self;
        let ghost handed = old_self.handed_out();
        proof {
            lemma_handed_out_finite(old_self);
        }
        let mut k: usize = 0;
        while k < self.seen.len() && !(self.seen[k].0 == base)
            invariant
                0 <= k <= self.seen@.len(),
                *self == old_self,
                forall|j: int| 0 <= j < k ==> self.seen@[j].0@ != base@,
            decreases self.seen.len() - k,
        {
            k += 1;
        }
        let n0: usize = if k < self.seen.len() {
            self.seen[k].1
        } else {
            0
        };
        proof {
            if k < self.seen.len() {
                old_self.lemma_count_after(k as int);
            } else {
                assert(!exists|i: int| 0 <= i < old_self.seen@.len() && old_self.seen@[i].0@ == base@);
            }
            assert(n0 == old_self.count(base@));
            assert forall|j: nat| j < n0 implies handed.contains(#[trigger] numbered(base@, j)) by {
                assert(k < self.seen.len());
            }
            lemma_numbered_below_bound(base@, n0 as nat, handed);
        }
        let mut n: usize = n0;
        let mut cand = numbered_string(&base, n);
        while self.is_taken(&cand)
            invariant
                *self == old_self,
                handed == old_self.handed_out(),
                handed.finite(),
                handed.len() <= old_self.calls(),
                old_self.calls() < usize::MAX,
                n0 <= n <= old_self.calls(),
                cand@ == numbered(base@, n as nat),
                forall|j: nat| j < n ==> handed.contains(#[trigger] numbered(base@, j)),
            decreases old_self.calls() - n,
        {
            proof {
                assert forall|j: nat| j < n + 1 implies handed.contains(#[trigger] numbered(base@, j)) by {
                    if j == n {
                    }
                }
                lemma_numbered_below_bound(base@, (n + 1) as nat, handed);
            }
            n = n + 1;
            cand = numbered_string(&base, n);
        }
        proof {
            assert(free_from(handed, base@, n0 as nat, n as nat));
            lemma_first_free_unique(handed, base@, n0 as nat, n as nat);
        }
        if k < self.seen.len() {
            let key = self.seen[k].0.clone();
            self.seen.set(k, (key, n + 1));
        } else {
            let key = base.clone();
            self.seen.push((key, n + 1));
        }
        let ghost mid = *self;
        self.taken.push(cand.clone());
        proof {
            let vs = old_self.taken@.map_values(|s: String| s@);
            assert(self.taken@.map_values(|s: String| s@) =~= vs + seq![cand@]);
            Seq::<Seq<char>>::lemma_to_set_insert_commutes(vs, cand@);
            assert(self.handed_out() =~= handed.insert(cand@));
            // counts
            assert(mid.seen@[k as int].0@ == base@);
            self.lemma_count_after(k as int);
            assert forall|b: Seq<char>| b != base@ implies self.count(b) == old_self.count(b) by {
                if exists|i: int| 0 <= i < old_self.seen@.len() && old_self.seen@[i].0@ == b {
                    let i = choose|i: int| 0 <= i < old_self.seen@.len() && old_self.seen@[i].0@ == b;
                    old_self.lemma_count_after(i);
                    self.lemma_count_after(i);
                } else {
                    assert(!exists|i: int| 0 <= i < self.seen@.len() && self.seen@[i].0@ == b) by {
                        if exists|i: int| 0 <= i < self.seen@.len() && self.seen@[i].0@ == b {
                            let i = choose|i: int| 0 <= i < self.seen@.len() && self.seen@[i].0@ == b;
                            if i < old_self.seen@.len() {
                                assert(old_self.seen@[i].0@ == b);
                            }
                        }
                    }
                }
            }
            // well-formedness
            assert forall|i: int, j: int| 0 <= i < j < self.seen@.len() implies self.seen@[i].0@
                != self.seen@[j].0@ by {
                if j == k as int {
                } else if i == k as int {
                }
            }
            assert forall|i: int, j: nat|
                0 <= i < self.seen@.len() && j < self.seen@[i].1 implies self.handed_out().contains(
                #[trigger] numbered(self.seen@[i].0@, j),
            ) by {
                if i == k as int {
                    if j < n {
                    } else {
                        assert(j == n);
                    }
                } else {
                    assert(old_self.seen@[i] == self.seen@[i]);
                }
            }
            lemma_numbered_prefix(base@, n as nat);
        }
        cand
    }

    proof fn lemma_count_after(self, i: int)
        requires
            0 <= i < self.seen@.len(),
            forall|a: int, b: int|
                0 <= a < b < self.seen@.len() ==> self.seen@[a].0@ != self.seen@[b].0@,
        ensures
            self.count(self.seen@[i].0@) == self.seen@[i].1,
    {
        let b = self.seen@[i].0@;
        let j = choose|j: int| 0 <= j < self.seen@.len() && self.seen@[j].0@ == b;
        assert(j == i) by {
            if j < i {
            } else if i < j {
            }
        }
    }
}

proof fn lemma_handed_out_finite(a: SlugAllocator)
    ensures
        a.handed_out().finite(),
        a.handed_out().len() <= a.calls(),
{
    let vs = a.taken@.map_values(|s: String| s@);
    vs.lemma_cardinality_of_set();
    vstd::seq_lib::seq_to_set_is_finite(vs);
}

/// The slug of `base` numbered `n`, as a string.
fn numbered_string(base: &String, n: usize) -> (r: String)
    ensures
        r@ == numbered(base@, n as nat),
{
    if n == 0 {
        base.clone()
    } else {
        let mut out = chars_of(base.as_str());
        out.push('-');
        let digits = usize_to_decimal(n);
        extend_range(&mut out, &digits, 0, digits.len());
        proof {
            assert(digits@.subrange(0, digits@.len() as int) =~= digits@);
            assert(out@ =~= base@ + dash() + decimal(n as nat));
        }
        string_of(&out)
    }
}

proof fn lemma_numbered_prefix(base: Seq<char>, n: nat)
    ensures
        numbered(base, n) == base || numbered(base, n).take(base.len() + 1int) == base + dash(),
{
    if n > 0 {
        assert(numbered(base, n).take(base.len() + 1int) =~= base + dash());
    }
}

proof fn lemma_numbered_below(base: Seq<char>, n: nat)
    ensures
        numbered_below(base, n).finite(),
        numbered_below(base, n).len() == n,
        forall|s: Seq<char>| #[trigger] numbered_below(base, n).contains(s) <==> exists|j: nat|
            j < n && s == numbered(base, j),
    decreases n,
{
    if n > 0 {
        let m = (n - 1) as nat;
        lemma_numbered_below(base, m);
        assert(!numbered_below(base, m).contains(numbered(base, m))) by {
            if numbered_below(base, m).contains(numbered(base, m)) {
                let j = choose|j: nat| j < m && numbered(base, m) == numbered(base, j);
                lemma_numbered_injective(base, j, m);
            }
        }
        assert forall|s: Seq<char>| #[trigger] numbered_below(base, n).contains(s) <==> exists|j: nat|
            j < n && s == numbered(base, j) by {
            if exists|j: nat| j < n && s == numbered(base, j) {
                let j = choose|j: nat| j < n && s == numbered(base, j);
                if j < m {
                    assert(numbered_below(base, m).contains(s));
                }
            }
        }
    }
}

/// If every slug of `base` numbered below `n` is in the finite set `taken`, then
/// `taken` has at least `n` members.
proof fn lemma_numbered_below_bound(base: Seq<char>, n: nat, taken: Set<Seq<char>>)
    requires
        taken.finite(),
        forall|j: nat| j < n ==> taken.contains(#[trigger] numbered(base, j)),
    ensures
        n <= taken.len(),
{
    lemma_numbered_below(base, n);
    assert(numbered_below(base, n).subset_of(taken)) by {
        assert forall|s: Seq<char>| numbered_below(base, n).contains(s) implies taken.contains(s) by {
            let j = choose|j: nat| j < n && s == numbered(base, j);
        }
    }
    vstd::set_lib::lemma_len_subset(numbered_below(base, n), taken);
}

/// There is only one first free number.
pub proof fn lemma_first_free_unique(taken: Set<Seq<char>>, base: Seq<char>, n: nat, m: nat)
    requires
        free_from(taken, base, n, m),
    ensures
        first_free(taken, base, n) == m,
{
    let c = first_free(taken, base, n);
    assert(free_from(taken, base, n, c));
    if c < m {
        assert(taken.contains(numbered(base, c)));
    } else if m < c {
        assert(taken.contains(numbered(base, m)));
    }
}

/// Two slugs of one base with different numbers differ.
pub proof fn lemma_numbered_injective(base: Seq<char>, a: nat, b: nat)
    requires
        numbered(base, a) == numbered(base, b),
    ensures
        a == b,
{
    lemma_decimal_len(a);
    lemma_decimal_len(b);
    if a == 0 && b > 0 {
        assert(numbered(base, b).len() > base.len());
    } else if b == 0 && a > 0 {
        assert(numbered(base, a).len() > base.len());
    } else if a > 0 && b > 0 {
        let k = base.len() + 1;
        assert(numbered(base, a).subrange(k as int, numbered(base, a).len() as int) =~= decimal(a));
        assert(numbered(base, b).subrange(k as int, numbered(base, b).len() as int) =~= decimal(b));
        lemma_decimal_injective(a, b);
    }
}

pub proof fn lemma_decimal_len(n: nat)
    ensures
        decimal(n).len() >= 1,
        (decimal(n).len() == 1) == (n < 10),
    decreases n,
{
    if n >= 10 {
        lemma_decimal_len(n / 10);
    }
}

proof fn lemma_digit_injective(x: nat, y: nat)
    requires
        x < 10,
        y < 10,
        digit_char(x) == digit_char(y),
    ensures
        x == y,
{
}

pub proof fn lemma_decimal_injective(a: nat, b: nat)
    requires
        decimal(a) == decimal(b),
    ensures
        a == b,
    decreases a,
{
    lemma_decimal_len(a);
    lemma_decimal_len(b);
    if a < 10 && b < 10 {
        assert(decimal(a)[0] == decimal(b)[0]);
        assert(decimal(a) == seq![digit_char(a)]);
        assert(decimal(b) == seq![digit_char(b)]);
        assert(seq![digit_char(a)][0] == digit_char(a));
        assert(seq![digit_char(b)][0] == digit_char(b));
        lemma_digit_injective(a, b);
    } else if a >= 10 && b >= 10 {
        assert(decimal(a).last() == decimal(b).last());
        assert(decimal(a).last() == digit_char(a % 10));
        assert(decimal(b).last() == digit_char(b % 10));
        lemma_digit_injective(a % 10, b % 10);
        assert(decimal(a).drop_last() =~= decimal(a / 10));
        assert(decimal(b).drop_last() =~= decimal(b / 10));
        lemma_decimal_injective(a / 10, b / 10);
        assert(a == (a / 10) * 10 + a % 10);
        assert(b == (b / 10) * 10 + b % 10);
    }
}

/// Asking twice for the same heading text never gives the same slug twice.
pub proof fn law_repeat_allocations_differ(base: Seq<char>, n: nat)
    ensures
        numbered(base, n) != numbered(base, n + 1),
{
    if numbered(base, n) == numbered(base, n + 1) {
        lemma_numbered_injective(base, n, n + 1);
    }
}

/// The characters a slug of ASCII text is made of.
pub open spec fn slug_char(c: char) -> bool {
    is_ascii_lower(c) || is_ascii_digit(c) || c == '-'
}

/// Lowercase ASCII letters, digits and single dashes, with no dash at either end.
pub open spec fn is_slug(r: Seq<char>) -> bool {
    &&& r.len() > 0
    &&& forall|i: int| 0 <= i < r.len() ==> slug_char(#[trigger] r[i])
    &&& r[0] != '-'
    &&& r.last() != '-'
    &&& forall|i: int| 0 <= i < r.len() - 1 && #[trigger] r[i] == '-' ==> r[i + 1] != '-'
}

/// What scanning ASCII text has built so far: slug characters and single dashes,
/// none leading, ending in a dash exactly when the scan just ended a word.
pub open spec fn scan_shape(o: Seq<char>, prev_dash: bool) -> bool {
    &&& forall|i: int| 0 <= i < o.len() ==> slug_char(#[trigger] o[i])
    &&& o.len() > 0 ==> o[0] != '-'
    &&& forall|i: int| 0 <= i < o.len() - 1 && #[trigger] o[i] == '-' ==> o[i + 1] != '-'
    &&& prev_dash == (o.len() == 0 || o.last() == '-')
}

proof fn lemma_scan_shape(s: Seq<char>)
    requires
        forall|i: int| 0 <= i < s.len() ==> is_ascii_char(#[trigger] s[i]),
    ensures
        scan_shape(slug_scan(s).0, slug_scan(s).1),
    decreases s.len(),
{
    if s.len() > 0 {
        let init = s.drop_last();
        assert forall|i: int| 0 <= i < init.len() implies is_ascii_char(#[trigger] init[i]) by {
            assert(init[i] == s[i]);
        }
        lemma_scan_shape(init);
        let prev = slug_scan(init);
        let c = s.last();
        assert(is_ascii_char(c));
        if char_is_alphanumeric(c) {
            let o = prev.0 + char_lowercase(c);
            assert(char_lowercase(c) == seq![ascii_lower(c)]);
            assert(slug_char(ascii_lower(c)));
            assert(o.last() == ascii_lower(c));
            assert forall|i: int| 0 <= i < o.len() implies slug_char(#[trigger] o[i]) by {
                if i < prev.0.len() {
                    assert(o[i] == prev.0[i]);
                }
            }
            assert forall|i: int| 0 <= i < o.len() - 1 && #[trigger] o[i] == '-' implies o[i + 1] != '-' by {
                assert(o[i] == prev.0[i]);
                if i + 1 < prev.0.len() {
                    assert(o[i + 1] == prev.0[i + 1]);
                }
            }
            if prev.0.len() > 0 {
                assert(o[0] == prev.0[0]);
            }
        } else if !prev.1 {
            let o = prev.0.push('-');
            assert forall|i: int| 0 <= i < o.len() implies slug_char(#[trigger] o[i]) by {
                if i < prev.0.len() {
                    assert(o[i] == prev.0[i]);
                }
            }
            assert forall|i: int| 0 <= i < o.len() - 1 && #[trigger] o[i] == '-' implies o[i + 1] != '-' by {
                assert(o[i] == prev.0[i]);
                if i + 1 < prev.0.len() {
                    assert(o[i + 1] == prev.0[i + 1]);
                }
            }
            assert(o[0] == prev.0[0]);
        }
    }
}

proof fn lemma_trim_dashes_prefix(s: Seq<char>)
    ensures
        trim_dashes(s).len() <= s.len(),
        trim_dashes(s) == s.take(trim_dashes(s).len() as int),
    decreases s.len(),
{
    if s.len() > 0 && s.last() == '-' {
        lemma_trim_dashes_prefix(s.drop_last());
        assert(s.drop_last().take(trim_dashes(s).len() as int) =~= s.take(trim_dashes(s).len() as int));
    } else {
        assert(s.take(s.len() as int) =~= s);
    }
}

/// The slug of ASCII text is lowercase letters, digits and single dashes, with no
/// dash at either end.
pub proof fn law_ascii_slug_shape(s: Seq<char>)
    requires
        forall|i: int| 0 <= i < s.len() ==> is_ascii_char(#[trigger] s[i]),
    ensures
        is_slug(slugify_spec(s)),
{
    lemma_scan_shape(s);
    let o = slug_scan(s).0;
    lemma_trim_dashes(o);
    lemma_trim_dashes_prefix(o);
    let t = trim_dashes(o);
    if t.len() == 0 {
        let w = section_word();
        assert(is_slug(w));
    } else {
        assert forall|i: int| 0 <= i < t.len() implies slug_char(#[trigger] t[i]) by {
            assert(t[i] == o[i]);
        }
        assert forall|i: int| 0 <= i < t.len() - 1 && #[trigger] t[i] == '-' implies t[i + 1] != '-' by {
            assert(t[i] == o[i]);
            assert(t[i + 1] == o[i + 1]);
        }
        assert(t[0] == o[0]);
    }
}

proof fn lemma_slug_scan_fixed(r: Seq<char>, k: int)
    requires
        is_slug(r),
        0 <= k <= r.len(),
    ensures
        slug_scan(r.take(k)) == (r.take(k), k == 0 || r[k - 1] == '-'),
    decreases k,
{
    if k > 0 {
        lemma_slug_scan_fixed(r, k - 1);
        assert(r.take(k).drop_last() =~= r.take(k - 1));
        let c = r[k - 1];
        assert(r.take(k).last() == c);
        assert(slug_char(c));
        if c == '-' {
            assert(k - 1 > 0);
            assert(r[k - 2] != '-');
            assert(r.take(k - 1).push('-') =~= r.take(k));
        } else {
            assert(r.take(k - 1) + seq![c] =~= r.take(k));
        }
    } else {
        assert(r.take(0) =~= Seq::<char>::empty());
    }
}

/// A slug slugifies to itself; so slugifying ASCII text twice gives what
/// slugifying it once gave.
pub proof fn law_slugify_idempotent(s: Seq<char>)
    requires
        forall|i: int| 0 <= i < s.len() ==> is_ascii_char(#[trigger] s[i]),
    ensures
        slugify_spec(slugify_spec(s)) == slugify_spec(s),
{
    law_ascii_slug_shape(s);
    let r = slugify_spec(s);
    lemma_slug_scan_fixed(r, r.len() as int);
    assert(r.take(r.len() as int) =~= r);
}

} // verus!
