//! Character classes, trimming, cleaning and decimal rendering over `Seq<char>`.
use vstd::prelude::*;
use vstd::string::StringExecFns;

verus! {

// ---------------------------------------------------------------------------
// Character classes
// ---------------------------------------------------------------------------

/// A control character: Unicode general category Cc.
pub open spec fn is_control_spec(c: char) -> bool {
    (c as u32) <= 0x1f || (0x7f <= (c as u32) && (c as u32) <= 0x9f)
}

/// A character with the Unicode `White_Space` property.
pub open spec fn is_whitespace_spec(c: char) -> bool {
    let v = c as u32;
    ||| 0x09 <= v <= 0x0d
    ||| v == 0x20
    ||| v == 0x85
    ||| v == 0xa0
    ||| v == 0x1680
    ||| 0x2000 <= v <= 0x200a
    ||| v == 0x2028
    ||| v == 0x2029
    ||| v == 0x202f
    ||| v == 0x205f
    ||| v == 0x3000
}

/// An ASCII letter or digit.
pub open spec fn is_ascii_alnum_spec(c: char) -> bool {
    let v = c as u32;
    ||| 0x30 <= v <= 0x39
    ||| 0x41 <= v <= 0x5a
    ||| 0x61 <= v <= 0x7a
}

pub fn is_control(c: char) -> (r: bool)
    ensures
        r == is_control_spec(c),
{
    let v = c as u32;
    v <= 0x1f || (0x7f <= v && v <= 0x9f)
}

pub fn is_whitespace(c: char) -> (r: bool)
    ensures
        r == is_whitespace_spec(c),
{
    let v = c as u32;
    (0x09 <= v && v <= 0x0d) || v == 0x20 || v == 0x85 || v == 0xa0 || v == 0x1680 || (0x2000
        <= v && v <= 0x200a) || v == 0x2028 || v == 0x2029 || v == 0x202f || v == 0x205f || v
        == 0x3000
}

pub fn is_ascii_alnum(c: char) -> (r: bool)
    ensures
        r == is_ascii_alnum_spec(c),
{
    let v = c as u32;
    (0x30 <= v && v <= 0x39) || (0x41 <= v && v <= 0x5a) || (0x61 <= v && v <= 0x7a)
}

// ---------------------------------------------------------------------------
// Trimming and cleaning
// ---------------------------------------------------------------------------

/// `s` without its leading white space.
pub open spec fn trim_start_spec(s: Seq<char>) -> Seq<char>
    decreases s.len(),
{
    if s.len() > 0 && is_whitespace_spec(s[0]) {
        trim_start_spec(s.drop_first())
    } else {
        s
    }
}

/// `s` without its trailing white space.
pub open spec fn trim_end_spec(s: Seq<char>) -> Seq<char>
    decreases s.len(),
{
    if s.len() > 0 && is_whitespace_spec(s.last()) {
        trim_end_spec(s.drop_last())
    } else {
        s
    }
}

/// Trimming keeps a property that every character of the text has.
pub proof fn lemma_trim_keeps(s: Seq<char>, p: spec_fn(char) -> bool)
    requires
        forall|i: int| 0 <= i < s.len() ==> p(#[trigger] s[i]),
    ensures
        forall|i: int| 0 <= i < trim_spec(s).len() ==> p(#[trigger] trim_spec(s)[i]),
{
    lemma_trim_start_keeps(s, p);
    lemma_trim_end_keeps(trim_start_spec(s), p);
}

proof fn lemma_trim_start_keeps(s: Seq<char>, p: spec_fn(char) -> bool)
    requires
        forall|i: int| 0 <= i < s.len() ==> p(#[trigger] s[i]),
    ensures
        forall|i: int| 0 <= i < trim_start_spec(s).len() ==> p(#[trigger] trim_start_spec(s)[i]),
    decreases s.len(),
{
    if s.len() > 0 && is_whitespace_spec(s[0]) {
        let t = s.drop_first();
        assert forall|i: int| 0 <= i < t.len() implies p(#[trigger] t[i]) by {
            assert(t[i] == s[i + 1]);
        }
        lemma_trim_start_keeps(t, p);
        assert(trim_start_spec(s) == trim_start_spec(t));
    } else {
        assert(trim_start_spec(s) == s);
    }
}

proof fn lemma_trim_end_keeps(s: Seq<char>, p: spec_fn(char) -> bool)
    requires
        forall|i: int| 0 <= i < s.len() ==> p(#[trigger] s[i]),
    ensures
        forall|i: int| 0 <= i < trim_end_spec(s).len() ==> p(#[trigger] trim_end_spec(s)[i]),
    decreases s.len(),
{
    if s.len() > 0 && is_whitespace_spec(s.last()) {
        let t = s.drop_last();
        assert forall|i: int| 0 <= i < t.len() implies p(#[trigger] t[i]) by {
            assert(t[i] == s[i]);
        }
        lemma_trim_end_keeps(t, p);
        assert(trim_end_spec(s) == trim_end_spec(t));
    } else {
        assert(trim_end_spec(s) == s);
    }
}

/// Text that neither starts nor ends with white space is its own trim.
pub proof fn lemma_trim_unchanged(s: Seq<char>)
    requires
        s.len() > 0 ==> !is_whitespace_spec(s[0]) && !is_whitespace_spec(s.last()),
    ensures
        trim_spec(s) == s,
{
}

/// `str::trim`: `s` without leading and trailing white space.
pub open spec fn trim_spec(s: Seq<char>) -> Seq<char> {
    trim_end_spec(trim_start_spec(s))
}

/// Whether cleaning removes `c`: a control character, except a line feed when
/// `keep_newlines` holds.
pub open spec fn removed_by_cleaning(c: char, keep_newlines: bool) -> bool {
    is_control_spec(c) && !(keep_newlines && c == '\n')
}

/// The characters of `s` that cleaning keeps, in order.
pub open spec fn drop_controls(s: Seq<char>, keep_newlines: bool) -> Seq<char>
    decreases s.len(),
{
    if s.len() == 0 {
        s
    } else if removed_by_cleaning(s.last(), keep_newlines) {
        drop_controls(s.drop_last(), keep_newlines)
    } else {
        drop_controls(s.drop_last(), keep_newlines).push(s.last())
    }
}

/// The first `n` elements of `s`, or all of `s` when it is shorter.
pub open spec fn at_most<A>(s: Seq<A>, n: int) -> Seq<A> {
    if s.len() <= n {
        s
    } else {
        s.take(n)
    }
}

/// Text trimmed, stripped of control characters and cut to `max` characters.
pub open spec fn clean_text_spec(s: Seq<char>, max: int) -> Seq<char> {
    at_most(drop_controls(trim_spec(s), false), max)
}

/// Text trimmed, stripped of control characters other than line feeds and cut to `max`
/// characters.
pub open spec fn clean_lines_spec(s: Seq<char>, max: int) -> Seq<char> {
    at_most(drop_controls(trim_spec(s), true), max)
}

/// Extending a sequence by at most one element keeps its first `n` elements.
pub proof fn lemma_at_most_extend<A>(s: Seq<A>, t: Seq<A>, n: int)
    requires
        0 <= n,
        t == s || (exists|x: A| t == s.push(x)),
    ensures
        s.len() >= n ==> at_most(t, n) == at_most(s, n),
        s.len() < n ==> at_most(t, n) == t,
{
    if s.len() >= n {
        if t != s {
            let x = choose|x: A| t == s.push(x);
            assert(t.take(n) =~= s.take(n));
        }
    }
}

pub fn chars_of(s: &str) -> (r: Vec<char>)
    ensures
        r@ == s@,
{
    let mut out: Vec<char> = Vec::new();
    for c in it: s.chars()
        invariant
            out@ == it.seq().take(it.index() as int),
    {
        out.push(c);
    }
    out
}

/// `String::push`: appends one character.
#[verifier::external_body]
fn push_char(s: &mut String, c: char)
    ensures
        final(s)@ == old(s)@.push(c),
{
    s.push(c);
}

pub fn string_of(v: &Vec<char>) -> (r: String)
    ensures
        r@ == v@,
{
    let mut out = String::new();
    let mut i: usize = 0;
    while i < v.len()
        invariant
            i <= v.len(),
            out@ == v@.take(i as int),
        decreases v.len() - i,
    {
        push_char(&mut out, v[i]);
        i = i + 1;
        assert(out@ =~= v@.take(i as int));
    }
    assert(v@.take(v.len() as int) =~= v@);
    out
}

pub fn trim(v: &Vec<char>) -> (r: Vec<char>)
    ensures
        r@ == trim_spec(v@),
{
    let n = v.len();
    let mut i: usize = 0;
    assert(v@.skip(0) =~= v@);
    while i < n && is_whitespace(v[i])
        invariant
            i <= n,
            n == v.len(),
            trim_start_spec(v@) == trim_start_spec(v@.skip(i as int)),
        decreases n - i,
    {
        assert(v@.skip(i as int).drop_first() =~= v@.skip(i + 1));
        i = i + 1;
    }
    assert(trim_start_spec(v@.skip(i as int)) == v@.skip(i as int));
    let mut j: usize = n;
    assert(v@.skip(i as int) =~= v@.subrange(i as int, j as int));
    while j > i && is_whitespace(v[j - 1])
        invariant
            i <= j <= n,
            n == v.len(),
            trim_spec(v@) == trim_end_spec(v@.subrange(i as int, j as int)),
        decreases j - i,
    {
        assert(v@.subrange(i as int, j as int).drop_last() =~= v@.subrange(i as int, j - 1));
        j = j - 1;
    }
    let mut out: Vec<char> = Vec::new();
    let mut k: usize = i;
    while k < j
        invariant
            i <= k <= j <= n,
            n == v.len(),
            out@ == v@.subrange(i as int, k as int),
        decreases j - k,
    {
        out.push(v[k]);
        k = k + 1;
        assert(out@ =~= v@.subrange(i as int, k as int));
    }
    out
}

/// Trims `value`, drops its control characters (line feeds too unless `keep_newlines`) and
/// keeps at most `max_chars` of the rest.
fn clean_chars(value: &str, max_chars: usize, keep_newlines: bool) -> (r: String)
    ensures
        r@ == at_most(drop_controls(trim_spec(value@), keep_newlines), max_chars as int),
{
    let all = chars_of(value);
    let t = trim(&all);
    let mut out: Vec<char> = Vec::new();
    let mut i: usize = 0;
    while i < t.len()
        invariant
            i <= t.len(),
            out@ == at_most(drop_controls(t@.take(i as int), keep_newlines), max_chars as int),
        decreases t.len() - i,
    {
        let c = t[i];
        let ghost before = drop_controls(t@.take(i as int), keep_newlines);
        assert(t@.take(i + 1).drop_last() =~= t@.take(i as int));
        let ghost after = drop_controls(t@.take(i + 1), keep_newlines);
        proof {
            if !removed_by_cleaning(c, keep_newlines) {
                assert(after == before.push(c));
            }
            lemma_at_most_extend(before, after, max_chars as int);
        }
        let removed = is_control(c) && !(keep_newlines && c == '\n');
        if !removed && out.len() < max_chars {
            out.push(c);
        }
        i = i + 1;
    }
    assert(t@.take(t.len() as int) =~= t@);
    string_of(&out)
}

/// Trims `value`, drops its control characters and keeps at most `max_chars` of the rest.
pub fn clean_text(value: &str, max_chars: usize) -> (r: String)
    ensures
        r@ == clean_text_spec(value@, max_chars as int),
{
    clean_chars(value, max_chars, false)
}

/// Like `clean_text`, but line feeds are kept.
pub fn clean_lines(value: &str, max_chars: usize) -> (r: String)
    ensures
        r@ == clean_lines_spec(value@, max_chars as int),
{
    clean_chars(value, max_chars, true)
}

// ---------------------------------------------------------------------------
// Comparisons and searches
// ---------------------------------------------------------------------------

pub fn chars_eq(a: &Vec<char>, b: &Vec<char>) -> (r: bool)
    ensures
        r == (a@ == b@),
{
    if a.len() != b.len() {
        return false;
    }
    let mut i: usize = 0;
    while i < a.len()
        invariant
            i <= a.len(),
            a.len() == b.len(),
            a@.take(i as int) == b@.take(i as int),
        decreases a.len() - i,
    {
        if a[i] != b[i] {
            assert(a@.take(i + 1)[i as int] != b@.take(i + 1)[i as int]);
            assert(a@[i as int] != b@[i as int]);
            return false;
        }
        assert(a@.take(i + 1) =~= b@.take(i + 1));
        i = i + 1;
    }
    assert(a@ =~= a@.take(a.len() as int));
    assert(b@ =~= b@.take(b.len() as int));
    true
}

/// Equality of a character vector with the characters of a string.
pub fn eq_str(a: &Vec<char>, b: &str) -> (r: bool)
    ensures
        r == (a@ == b@),
{
    let bv = chars_of(b);
    chars_eq(a, &bv)
}

/// Whether `s` begins with `prefix`.
pub open spec fn starts_with_spec(s: Seq<char>, prefix: Seq<char>) -> bool {
    prefix.len() <= s.len() && s.take(prefix.len() as int) == prefix
}

pub fn starts_with(s: &Vec<char>, prefix: &str) -> (r: bool)
    ensures
        r == starts_with_spec(s@, prefix@),
{
    let p = chars_of(prefix);
    if p.len() > s.len() {
        return false;
    }
    let mut i: usize = 0;
    while i < p.len()
        invariant
            i <= p.len() <= s.len(),
            p@ == prefix@,
            s@.take(i as int) == p@.take(i as int),
        decreases p.len() - i,
    {
        if s[i] != p[i] {
            assert(s@.take(p.len() as int)[i as int] == s@[i as int]);
            assert(p@[i as int] == prefix@[i as int]);
            assert(s@.take(prefix@.len() as int)[i as int] != prefix@[i as int]);
            return false;
        }
        assert(s@.take(i + 1) =~= p@.take(i + 1));
        i = i + 1;
    }
    assert(p@ =~= p@.take(p.len() as int));
    true
}

/// Whether `needle` occurs in `hay` at position `i`.
pub open spec fn occurs_at(hay: Seq<char>, needle: Seq<char>, i: int) -> bool {
    0 <= i && i + needle.len() <= hay.len() && hay.subrange(i, i + needle.len()) == needle
}

/// Whether `needle` occurs somewhere in `hay` (`str::contains` on a string pattern).
pub open spec fn contains_spec(hay: Seq<char>, needle: Seq<char>) -> bool {
    exists|i: int| occurs_at(hay, needle, i)
}

fn matches_at(hay: &Vec<char>, needle: &Vec<char>, i: usize) -> (r: bool)
    requires
        i + needle.len() <= hay.len(),
    ensures
        r == occurs_at(hay@, needle@, i as int),
{
    let mut k: usize = 0;
    while k < needle.len()
        invariant
            k <= needle.len(),
            i + needle.len() <= hay.len(),
            hay@.subrange(i as int, i + k) == needle@.take(k as int),
        decreases needle.len() - k,
    {
        if hay[i + k] != needle[k] {
            assert(hay@.subrange(i as int, i + needle.len())[k as int] != needle@[k as int]);
            return false;
        }
        assert(hay@.subrange(i as int, i + k + 1) =~= needle@.take(k + 1));
        k = k + 1;
    }
    assert(needle@ =~= needle@.take(needle.len() as int));
    true
}

pub fn contains(hay: &Vec<char>, needle: &Vec<char>) -> (r: bool)
    ensures
        r == contains_spec(hay@, needle@),
{
    if needle.len() > hay.len() {
        assert forall|i: int| !occurs_at(hay@, needle@, i) by {}
        return false;
    }
    if needle.len() == 0 {
        assert(hay@.subrange(0, 0) =~= needle@);
        assert(occurs_at(hay@, needle@, 0));
        return true;
    }
    let last = hay.len() - needle.len();
    let mut i: usize = 0;
    while i <= last
        invariant
            last + needle.len() == hay.len(),
            needle.len() >= 1,
            forall|j: int| 0 <= j < i ==> !occurs_at(hay@, needle@, j),
        decreases last + 1 - i,
    {
        if matches_at(hay, needle, i) {
            return true;
        }
        i = i + 1;
    }
    assert forall|j: int| !occurs_at(hay@, needle@, j) by {
        if 0 <= j && j + needle.len() <= hay.len() {
            assert(j < i);
        }
    }
    false
}

// ---------------------------------------------------------------------------
// Decimal rendering
// ---------------------------------------------------------------------------

pub open spec fn digit_char(d: int) -> char {
    (d + 48) as char
}

/// The decimal digits of `n`, most significant first.
pub open spec fn nat_digits(n: nat) -> Seq<char>
    decreases n,
{
    if n < 10 {
        seq![digit_char(n as int)]
    } else {
        nat_digits(n / 10).push(digit_char((n % 10) as int))
    }
}

/// The decimal rendering of an integer, with a leading `-` when negative.
pub open spec fn decimal(i: int) -> Seq<char> {
    if i < 0 {
        seq!['-'] + nat_digits((-i) as nat)
    } else {
        nat_digits(i as nat)
    }
}

fn digit(d: u64) -> (c: char)
    requires
        d < 10,
    ensures
        c == digit_char(d as int),
{
    let b: u8 = (d as u8) + 48;
    b as char
}

pub fn push_decimal_u64(out: &mut Vec<char>, n: u64)
    ensures
        final(out)@ == old(out)@ + nat_digits(n as nat),
    decreases n,
{
    if n < 10 {
        out.push(digit(n));
        assert(final(out)@ =~= old(out)@ + nat_digits(n as nat));
    } else {
        push_decimal_u64(out, n / 10);
        out.push(digit(n % 10));
        assert(final(out)@ =~= old(out)@ + nat_digits(n as nat));
    }
}

pub fn push_decimal_u128(out: &mut Vec<char>, n: u128)
    ensures
        final(out)@ == old(out)@ + nat_digits(n as nat),
    decreases n,
{
    if n < 10 {
        out.push(digit(n as u64));
        assert(final(out)@ =~= old(out)@ + nat_digits(n as nat));
    } else {
        push_decimal_u128(out, n / 10);
        out.push(digit((n % 10) as u64));
        assert(final(out)@ =~= old(out)@ + nat_digits(n as nat));
    }
}

pub fn push_decimal_i64(out: &mut Vec<char>, n: i64)
    ensures
        final(out)@ == old(out)@ + decimal(n as int),
{
    if n < 0 {
        out.push('-');
        let m: u64 = ((-(n + 1)) as u64) + 1;
        push_decimal_u64(out, m);
        assert(final(out)@ =~= old(out)@ + decimal(n as int));
    } else {
        push_decimal_u64(out, n as u64);
    }
}

pub fn push_str(out: &mut Vec<char>, s: &str)
    ensures
        final(out)@ == old(out)@ + s@,
{
    let cs = chars_of(s);
    push_all(out, &cs);
}

pub fn push_all(out: &mut Vec<char>, s: &Vec<char>)
    ensures
        final(out)@ == old(out)@ + s@,
{
    let mut i: usize = 0;
    while i < s.len()
        invariant
            i <= s.len(),
            out@ == old(out)@ + s@.take(i as int),
        decreases s.len() - i,
    {
        out.push(s[i]);
        i = i + 1;
        assert(out@ =~= old(out)@ + s@.take(i as int));
    }
    assert(s@.take(s.len() as int) =~= s@);
}

// ---------------------------------------------------------------------------
// Case mapping (Unicode tables, from std)
// ---------------------------------------------------------------------------

/// What `str::to_uppercase` returns for a string with these characters.
pub uninterp spec fn uppercase_of(s: Seq<char>) -> Seq<char>;

/// What `str::to_lowercase` returns for a string with these characters.
pub uninterp spec fn lowercase_of(s: Seq<char>) -> Seq<char>;

/// Whether every character is ASCII.
pub open spec fn all_ascii(s: Seq<char>) -> bool {
    forall|i: int| 0 <= i < s.len() ==> (#[trigger] s[i] as u32) < 128
}

/// `c` with `a`-`z` turned into `A`-`Z` (`char::to_ascii_uppercase`).
pub open spec fn ascii_upper(c: char) -> char {
    if 'a' <= c <= 'z' {
        ((c as u32) - 32) as char
    } else {
        c
    }
}

/// `c` with `A`-`Z` turned into `a`-`z` (`char::to_ascii_lowercase`).
pub open spec fn ascii_lower(c: char) -> char {
    if 'A' <= c <= 'Z' {
        ((c as u32) + 32) as char
    } else {
        c
    }
}

/// The upper-case form of a string: for ASCII text, `a`-`z` become `A`-`Z` and nothing else
/// changes; other text is mapped by the Unicode tables, named by `uppercase_of`.
pub open spec fn upper_case(s: Seq<char>) -> Seq<char> {
    if all_ascii(s) {
        s.map_values(|c: char| ascii_upper(c))
    } else {
        uppercase_of(s)
    }
}

/// The lower-case form of a string: for ASCII text, `A`-`Z` become `a`-`z` and nothing else
/// changes; other text is mapped by the Unicode tables, named by `lowercase_of`.
pub open spec fn lower_case(s: Seq<char>) -> Seq<char> {
    if all_ascii(s) {
        s.map_values(|c: char| ascii_lower(c))
    } else {
        lowercase_of(s)
    }
}

/// `str::to_uppercase`, which maps each character by Unicode's case tables. Those tables are
/// not restated beyond ASCII, where the only mappings are `a`-`z` to `A`-`Z` (as
/// `str::to_ascii_uppercase` does); the result for other text is named by `uppercase_of`.
#[verifier::external_body]
pub(crate) fn to_uppercase(s: &str) -> (r: String)
    ensures
        r@ == upper_case(s@),
        !all_ascii(s@) ==> r@ == uppercase_of(s@),
{
    s.to_uppercase()
}

/// `str::to_lowercase`, which maps each character by Unicode's case tables. Those tables are
/// not restated beyond ASCII, where the only mappings are `A`-`Z` to `a`-`z` (as
/// `str::to_ascii_lowercase` does); the result for other text is named by `lowercase_of`.
#[verifier::external_body]
pub(crate) fn to_lowercase(s: &str) -> (r: String)
    ensures
        r@ == lower_case(s@),
        !all_ascii(s@) ==> r@ == lowercase_of(s@),
{
    s.to_lowercase()
}

pub fn from_str(s: &str) -> (r: String)
    ensures
        r@ == s@,
{
    String::from_str(s)
}


// ---------------------------------------------------------------------------
// UTF-8 length
// ---------------------------------------------------------------------------

/// The number of bytes that UTF-8 takes for `c`.
pub open spec fn utf8_width(c: char) -> int {
    if (c as u32) < 0x80 {
        1
    } else if (c as u32) < 0x800 {
        2
    } else if (c as u32) < 0x10000 {
        3
    } else {
        4
    }
}

/// The number of bytes that UTF-8 takes for `s` (what `str::len` returns).
pub open spec fn utf8_len(s: Seq<char>) -> int
    decreases s.len(),
{
    if s.len() == 0 {
        0
    } else {
        utf8_width(s[0]) + utf8_len(s.drop_first())
    }
}

pub proof fn lemma_utf8_len(s: Seq<char>)
    ensures
        vstd::utf8::encode_utf8(s).len() == utf8_len(s),
        s.len() <= utf8_len(s) <= 4 * s.len(),
    decreases s.len(),
{
    if s.len() > 0 {
        lemma_utf8_len(s.drop_first());
        let c = s[0];
        vstd::utf8::char_is_scalar(c);
    }
}

/// The UTF-8 length of the characters.
pub fn utf8_length(v: &Vec<char>) -> (r: u128)
    ensures
        r == utf8_len(v@),
{
    let mut total: u128 = 0;
    let mut i: usize = 0;
    proof {
        lemma_utf8_len(v@);
        assert(v@.skip(0) =~= v@);
    }
    while i < v.len()
        invariant
            i <= v.len(),
            total <= 4 * i,
            utf8_len(v@) == total + utf8_len(v@.skip(i as int)),
        decreases v.len() - i,
    {
        let c = v[i] as u32;
        let w: u128 = if c < 0x80 {
            1
        } else if c < 0x800 {
            2
        } else if c < 0x10000 {
            3
        } else {
            4
        };
        assert(v@.skip(i as int).drop_first() =~= v@.skip(i + 1));
        total = total + w;
        i = i + 1;
    }
    total
}


// ---------------------------------------------------------------------------
// Finding characters
// ---------------------------------------------------------------------------

/// The position of the first `c` in `s`.
pub open spec fn find_char(s: Seq<char>, c: char) -> Option<int>
    decreases s.len(),
{
    if s.len() == 0 {
        None
    } else if s[0] == c {
        Some(0)
    } else {
        match find_char(s.drop_first(), c) {
            Some(i) => Some(i + 1),
            None => None,
        }
    }
}

pub fn find_char_exec(v: &Vec<char>, c: char) -> (r: Option<usize>)
    ensures
        match r {
            Some(i) => find_char(v@, c) == Some(i as int) && i < v.len(),
            None => find_char(v@, c) is None,
        },
{
    let mut i: usize = 0;
    assert(v@.skip(0) =~= v@);
    while i < v.len()
        invariant
            i <= v.len(),
            forall|k: int| 0 <= k < i ==> v@[k] != c,
            find_char(v@, c) == match find_char(v@.skip(i as int), c) {
                Some(j) => Some(j + i),
                None => None,
            },
        decreases v.len() - i,
    {
        if v[i] == c {
            assert(v@.skip(i as int)[0] == c);
            return Some(i);
        }
        assert(v@.skip(i as int).drop_first() =~= v@.skip(i + 1));
        i = i + 1;
    }
    None
}

} // verus!
