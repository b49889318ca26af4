//! Character-level text handling shared by the rest of the library.

use vstd::prelude::*;
use vstd::utf8::{decode_utf8, valid_utf8};

verus! {

/// Whether `c` carries the Unicode `White_Space` property (PropList.txt):
/// U+0009..U+000D, U+0020, U+0085, U+00A0, U+1680, U+2000..U+200A, U+2028,
/// U+2029, U+202F, U+205F and U+3000.
pub open spec fn unicode_white_space(c: char) -> bool {
    ||| '\u{9}' <= c <= '\u{d}'
    ||| c == ' '
    ||| c == '\u{85}'
    ||| c == '\u{a0}'
    ||| c == '\u{1680}'
    ||| '\u{2000}' <= c <= '\u{200a}'
    ||| c == '\u{2028}'
    ||| c == '\u{2029}'
    ||| c == '\u{202f}'
    ||| c == '\u{205f}'
    ||| c == '\u{3000}'
}

/// Whether `c` is alphabetic or numeric in the Unicode sense, as `char::is_alphanumeric` reports.
pub uninterp spec fn unicode_alphanumeric(c: char) -> bool;

/// An ASCII letter or digit.
pub open spec fn ascii_alphanumeric(c: char) -> bool {
    ||| 'a' <= c <= 'z'
    ||| 'A' <= c <= 'Z'
    ||| '0' <= c <= '9'
}

/// Whether `c` is alphabetic or numeric: among ASCII characters exactly the
/// letters and digits (the only ASCII characters with the Unicode `Alphabetic`
/// property or a numeric general category), elsewhere as `unicode_alphanumeric`.
pub open spec fn alphanumeric(c: char) -> bool {
    if c <= '\u{7f}' {
        ascii_alphanumeric(c)
    } else {
        unicode_alphanumeric(c)
    }
}

/// Whether `c` carries the Unicode `White_Space` property (as
/// `char::is_whitespace` reports).
pub fn is_white_space(c: char) -> (r: bool)
    ensures
        r == unicode_white_space(c),
{
    ('\u{9}' <= c && c <= '\u{d}') || c == ' ' || c == '\u{85}' || c == '\u{a0}' || c
        == '\u{1680}' || ('\u{2000}' <= c && c <= '\u{200a}') || c == '\u{2028}' || c
        == '\u{2029}' || c == '\u{202f}' || c == '\u{205f}' || c == '\u{3000}'
}

/// `char::is_alphanumeric` reports whether its argument is alphabetic or
/// numeric; on ASCII that is exactly the letters and digits.
pub assume_specification[ char::is_alphanumeric ](c: char) -> (r: bool)
    ensures
        r == if c <= '\u{7f}' {
            ascii_alphanumeric(c)
        } else {
            unicode_alphanumeric(c)
        },
;

/// The lower case of one character: ASCII characters lowered by ASCII rules
/// (which the Unicode lowercase mapping agrees with there), every other
/// character by its Unicode lowercase mapping.
pub open spec fn lower_case(c: char) -> Seq<char> {
    if c <= '\u{7f}' {
        seq![ascii_lower(c)]
    } else {
        unicode_lowercase(c)
    }
}

/// The lower case of `c` (see `lower_case`), appended to `out`.
pub fn push_lower_case(out: &mut String, c: char)
    ensures
        final(out)@ == old(out)@ + lower_case(c),
{
    if c <= '\u{7f}' {
        out.push(ascii_lowercase(c));
        assert(final(out)@ =~= old(out)@ + lower_case(c));
    } else {
        let lower = lowercase_of(c);
        push_text(out, lower.as_str());
    }
}

/// ASCII lower-casing of one character: `A`..`Z` become `a`..`z`, everything else is kept.
pub open spec fn ascii_lower(c: char) -> char {
    if 'A' <= c && c <= 'Z' {
        ((c as u32) + 32) as char
    } else {
        c
    }
}

/// ASCII lower-casing of `c` (as `char::to_ascii_lowercase` does).
pub fn ascii_lowercase(c: char) -> (r: char)
    ensures
        r == ascii_lower(c),
{
    if 'A' <= c && c <= 'Z' {
        let b: u8 = (c as u8) + 32;
        assert(b as u32 == (c as u32) + 32);
        b as char
    } else {
        c
    }
}

/// The characters of the Unicode lowercase mapping of `c`, as
/// `char::to_lowercase` yields them (one or more; `c` itself when it has no
/// lowercase mapping).
pub uninterp spec fn unicode_lowercase(c: char) -> Seq<char>;

/// `char::to_lowercase` of `c`, its characters collected into text. Claimed:
/// the result is `unicode_lowercase(c)`, a function of `c` alone.
#[verifier::external_body]
pub(crate) fn lowercase_of(c: char) -> (r: String)
    ensures
        r@ == unicode_lowercase(c),
{
    c.to_lowercase().to_string()
}

/// `String::push` appends one character.
pub assume_specification[ String::push ](s: &mut String, ch: char)
    ensures
        final(s)@ == old(s)@.push(ch),
;

/// `core::str::Utf8Error`, the error of `core::str::from_utf8`.
#[verifier::external_type_specification]
#[verifier::external_body]
pub struct ExUtf8Error(core::str::Utf8Error);

/// `core::str::from_utf8` accepts exactly the valid UTF-8 byte strings and
/// gives back the characters they encode.
pub assume_specification[ core::str::from_utf8 ](v: &[u8]) -> (r: Result<&str, core::str::Utf8Error>)
    ensures
        r is Ok <==> valid_utf8(v@),
        r matches Ok(s) ==> s@ == decode_utf8(v@),
;

/// The characters of `s`, in order.
pub fn chars_of(s: &str) -> (v: Vec<char>)
    ensures
        v@ == s@,
{
    let mut v: Vec<char> = Vec::new();
    for c in it: s.chars()
        invariant
            v@ == it.seq().take(it.index() as int),
            it.seq() == s@,
    {
        v.push(c);
    }
    v
}


/// Appends the characters of `t` to `out`.
pub fn push_text(out: &mut String, t: &str)
    ensures
        final(out)@ == old(out)@ + t@,
{
    let v = chars_of(t);
    let mut i: usize = 0;
    while i < v.len()
        invariant
            i <= v.len(),
            v@ == t@,
            out@ == old(out)@ + v@.take(i as int),
        decreases v.len() - i,
    {
        out.push(v[i]);
        i = i + 1;
        assert(out@ =~= old(out)@ + v@.take(i as int));
    }
    assert(v@.take(i as int) =~= v@);
}

/// The text that the bytes `src[start..end]` encode, when that span lies in
/// `src` and holds valid UTF-8.
pub open spec fn span_text(src: Seq<u8>, start: int, end: int) -> Option<Seq<char>> {
    if 0 <= start <= end <= src.len() && valid_utf8(src.subrange(start, end)) {
        Some(decode_utf8(src.subrange(start, end)))
    } else {
        None
    }
}

/// Optional characters taken as a sequence.
pub open spec fn opt_chars(o: Option<Vec<char>>) -> Option<Seq<char>> {
    match o {
        Some(v) => Some(v@),
        None => None,
    }
}

/// The characters that `src[start..end]` encodes, when that span lies in `src`
/// and holds valid UTF-8.
pub fn span_chars(src: &[u8], start: usize, end: usize) -> (r: Option<Vec<char>>)
    ensures
        opt_chars(r) == span_text(src@, start as int, end as int),
{
    if start > end || end > src.len() {
        return None;
    }
    let mut bytes: Vec<u8> = Vec::new();
    let mut k = start;
    while k < end
        invariant
            start <= k <= end <= src@.len(),
            bytes@ == src@.subrange(start as int, k as int),
        decreases end - k,
    {
        bytes.push(src[k]);
        k = k + 1;
        assert(bytes@ =~= src@.subrange(start as int, k as int));
    }
    match core::str::from_utf8(bytes.as_slice()) {
        Ok(s) => Some(chars_of(s)),
        Err(_) => None,
    }
}

/// Text with the leading characters that have the `White_Space` property removed.
pub open spec fn trim_start(s: Seq<char>) -> Seq<char>
    decreases s.len(),
{
    if s.len() > 0 && unicode_white_space(s[0]) {
        trim_start(s.drop_first())
    } else {
        s
    }
}

/// Text with the trailing characters that have the `White_Space` property removed.
pub open spec fn trim_end(s: Seq<char>) -> Seq<char>
    decreases s.len(),
{
    if s.len() > 0 && unicode_white_space(s.last()) {
        trim_end(s.drop_last())
    } else {
        s
    }
}

/// Text with white space removed at both ends, as `str::trim` does.
pub open spec fn trim(s: Seq<char>) -> Seq<char> {
    trim_end(trim_start(s))
}

proof fn lemma_trim_start_at(s: Seq<char>, lo: int)
    requires
        0 <= lo <= s.len(),
        forall|i: int| 0 <= i < lo ==> unicode_white_space(#[trigger] s[i]),
        lo == s.len() || !unicode_white_space(s[lo]),
    ensures
        trim_start(s) == s.subrange(lo, s.len() as int),
    decreases lo,
{
    if lo == 0 {
        assert(s.subrange(0, s.len() as int) =~= s);
    } else {
        let t = s.drop_first();
        assert forall|i: int| 0 <= i < lo - 1 implies unicode_white_space(#[trigger] t[i]) by {
            assert(t[i] == s[i + 1]);
        }
        if lo - 1 < t.len() {
            assert(t[lo - 1] == s[lo]);
        }
        lemma_trim_start_at(t, lo - 1);
        assert(t.subrange(lo - 1, t.len() as int) =~= s.subrange(lo, s.len() as int));
    }
}

proof fn lemma_trim_end_at(s: Seq<char>, hi: int)
    requires
        0 <= hi <= s.len(),
        forall|i: int| hi <= i < s.len() ==> unicode_white_space(#[trigger] s[i]),
        hi == 0 || !unicode_white_space(s[hi - 1]),
    ensures
        trim_end(s) == s.subrange(0, hi),
    decreases s.len() - hi,
{
    if hi == s.len() {
        assert(s.subrange(0, hi) =~= s);
    } else {
        let t = s.drop_last();
        assert forall|i: int| hi <= i < t.len() implies unicode_white_space(#[trigger] t[i]) by {
            assert(t[i] == s[i]);
        }
        if hi > 0 {
            assert(t[hi - 1] == s[hi - 1]);
        }
        lemma_trim_end_at(t, hi);
        assert(t.subrange(0, hi) =~= s.subrange(0, hi));
    }
}

/// `trim_end` keeps a prefix, ending in a character that is not white space,
/// and drops only white space after it.
proof fn lemma_trim_end_prefix(s: Seq<char>)
    ensures
        trim_end(s) == s.subrange(0, trim_end(s).len() as int),
        trim_end(s).len() <= s.len(),
        forall|i: int| trim_end(s).len() <= i < s.len() ==> unicode_white_space(#[trigger] s[i]),
        trim_end(s).len() == 0 || !unicode_white_space(s[trim_end(s).len() - 1]),
    decreases s.len(),
{
    if s.len() > 0 && unicode_white_space(s.last()) {
        let t = s.drop_last();
        lemma_trim_end_prefix(t);
        assert(t.subrange(0, trim_end(t).len() as int) =~= s.subrange(0, trim_end(t).len() as int));
        assert forall|i: int| trim_end(s).len() <= i < s.len() implies unicode_white_space(
            #[trigger] s[i],
        ) by {
            if i < t.len() {
                assert(s[i] == t[i]);
            }
        }
        if trim_end(t).len() > 0 {
            assert(s[trim_end(t).len() - 1] == t[trim_end(t).len() - 1]);
        }
    } else {
        assert(s.subrange(0, s.len() as int) =~= s);
    }
}

/// `trim_start` keeps a suffix, starting with a character that is not white
/// space, and drops only white space before it.
proof fn lemma_trim_start_suffix(s: Seq<char>)
    ensures
        trim_start(s) == s.subrange(s.len() - trim_start(s).len(), s.len() as int),
        trim_start(s).len() <= s.len(),
        forall|i: int| 0 <= i < s.len() - trim_start(s).len() ==> unicode_white_space(#[trigger] s[i]),
        trim_start(s).len() == 0 || !unicode_white_space(s[s.len() - trim_start(s).len()]),
    decreases s.len(),
{
    if s.len() > 0 && unicode_white_space(s[0]) {
        let t = s.drop_first();
        lemma_trim_start_suffix(t);
        let lo = t.len() - trim_start(t).len();
        assert(t.subrange(lo, t.len() as int) =~= s.subrange(lo + 1, s.len() as int));
        assert forall|i: int| 0 <= i < s.len() - trim_start(s).len() implies unicode_white_space(
            #[trigger] s[i],
        ) by {
            if i > 0 {
                assert(s[i] == t[i - 1]);
            }
        }
        if trim_start(t).len() > 0 {
            assert(s[lo + 1] == t[lo]);
        }
    } else {
        assert(s.subrange(0, s.len() as int) =~= s);
    }
}

/// Trimming the trailing white space first does not change the trimmed text.
pub proof fn lemma_trim_of_trim_end(t: Seq<char>)
    ensures
        trim(trim_end(t)) == trim(t),
{
    lemma_trim_end_prefix(t);
    lemma_trim_start_suffix(t);
    let e = trim_end(t);
    let hi = e.len() as int;
    let lo = t.len() - trim_start(t).len();
    if lo == t.len() {
        if hi > 0 {
            assert(unicode_white_space(t[hi - 1]));
        }
        assert(e.len() == 0);
        assert(trim_start(t).len() == 0);
    } else {
        assert(!unicode_white_space(t[lo]));
        assert(lo < hi);
        lemma_trim_start_at(e, lo);
        assert(e.subrange(lo, e.len() as int) =~= t.subrange(lo, hi));
        let m = t.subrange(lo, hi);
        assert(m[m.len() - 1] == t[hi - 1]);
        lemma_trim_end_at(m, m.len() as int);
        let ts = trim_start(t);
        assert forall|i: int| hi - lo <= i < ts.len() implies unicode_white_space(#[trigger] ts[i]) by {
            assert(ts[i] == t[lo + i]);
        }
        assert(ts[hi - lo - 1] == t[hi - 1]);
        lemma_trim_end_at(ts, hi - lo);
        assert(ts.subrange(0, hi - lo) =~= m);
    }
}

/// Trimming trimmed text changes nothing.
pub proof fn lemma_trim_idempotent(t: Seq<char>)
    ensures
        trim(trim(t)) == trim(t),
{
    let s = trim_start(t);
    lemma_trim_start_suffix(t);
    lemma_trim_end_prefix(s);
    let u = trim_end(s);
    if u.len() > 0 {
        assert(u[0] == s[0]);
        assert(s[0] == t[t.len() - s.len()]);
        assert(trim_start(u) == u);
        assert(u.last() == s[u.len() - 1]);
    }
}

/// Trailing white space is trimmed from the end of a concatenation: from the
/// second part if it holds anything else, from the first otherwise.
pub proof fn lemma_trim_end_concat(a: Seq<char>, b: Seq<char>)
    ensures
        trim_end(a + b) == if trim_end(b).len() > 0 {
            a + trim_end(b)
        } else {
            trim_end(a)
        },
    decreases b.len(),
{
    if b.len() == 0 {
        assert(a + b =~= a);
    } else if unicode_white_space(b.last()) {
        assert((a + b).drop_last() =~= a + b.drop_last());
        assert((a + b).last() == b.last());
        lemma_trim_end_concat(a, b.drop_last());
    } else {
        assert((a + b).last() == b.last());
    }
}

/// Bounds of the trimmed part of `s[from..to]`: `s[r.0..r.1]` is `trim(s[from..to])`.
pub fn trim_bounds(s: &Vec<char>, from: usize, to: usize) -> (r: (usize, usize))
    requires
        from <= to <= s.len(),
    ensures
        from <= r.0 <= r.1 <= to,
        s@.subrange(r.0 as int, r.1 as int) == trim(s@.subrange(from as int, to as int)),
{
    let mut lo = from;
    while lo < to && is_white_space(s[lo])
        invariant
            from <= lo <= to <= s.len(),
            forall|i: int| from <= i < lo ==> unicode_white_space(#[trigger] s@[i]),
        decreases to - lo,
    {
        lo = lo + 1;
    }
    let mut hi = to;
    while hi > lo && is_white_space(s[hi - 1])
        invariant
            from <= lo <= hi <= to <= s.len(),
            forall|i: int| hi <= i < to ==> unicode_white_space(#[trigger] s@[i]),
        decreases hi - lo,
    {
        hi = hi - 1;
    }
    proof {
        let w = s@.subrange(from as int, to as int);
        assert forall|i: int| 0 <= i < lo - from implies unicode_white_space(#[trigger] w[i]) by {
            assert(w[i] == s@[from + i]);
        }
        if lo < to {
            assert(w[lo - from] == s@[lo as int]);
        }
        lemma_trim_start_at(w, lo - from);
        let u = w.subrange(lo - from, w.len() as int);
        assert(u =~= s@.subrange(lo as int, to as int));
        assert forall|i: int| hi - lo <= i < u.len() implies unicode_white_space(#[trigger] u[i]) by {
            assert(u[i] == s@[lo + i]);
        }
        if hi > lo {
            assert(u[hi - lo - 1] == s@[hi - 1]);
        }
        lemma_trim_end_at(u, hi - lo);
        assert(u.subrange(0, hi - lo) =~= s@.subrange(lo as int, hi as int));
    }
    (lo, hi)
}

/// A `String` holding `s[lo..hi]`.
pub fn string_of(s: &Vec<char>, lo: usize, hi: usize) -> (r: String)
    requires
        lo <= hi <= s.len(),
    ensures
        r@ == s@.subrange(lo as int, hi as int),
{
    let mut r = String::new();
    let mut i = lo;
    while i < hi
        invariant
            lo <= i <= hi <= s.len(),
            r@ == s@.subrange(lo as int, i as int),
        decreases hi - i,
    {
        r.push(s[i]);
        i = i + 1;
        assert(r@ =~= s@.subrange(lo as int, i as int));
    }
    r
}

/// Whether `s` equals the text `t`.
pub fn text_is(s: &String, t: &str) -> (r: bool)
    ensures
        r == (s@ == t@),
{
    let u = t.to_owned();
    *s == u
}

/// Whether `s[lo..hi]` starts with `p`.
pub fn has_prefix(s: &Vec<char>, lo: usize, hi: usize, p: &Vec<char>) -> (r: bool)
    requires
        lo <= hi <= s.len(),
    ensures
        r == (p.len() <= hi - lo && s@.subrange(lo as int, lo + p.len()) == p@),
{
    if p.len() > hi - lo {
        return false;
    }
    let mut i: usize = 0;
    while i < p.len()
        invariant
            p.len() <= hi - lo,
            lo <= hi <= s.len(),
            i <= p.len(),
            forall|j: int| 0 <= j < i ==> s@[lo + j] == p@[j],
        decreases p.len() - i,
    {
        if s[lo + i] != p[i] {
            assert(s@.subrange(lo as int, lo + p.len())[i as int] != p@[i as int]);
            return false;
        }
        i = i + 1;
    }
    assert(s@.subrange(lo as int, lo + p.len()) =~= p@);
    true
}

/// Whether `s[lo..hi]` ends with `p`.
pub fn has_suffix(s: &Vec<char>, lo: usize, hi: usize, p: &Vec<char>) -> (r: bool)
    requires
        lo <= hi <= s.len(),
    ensures
        r == (p.len() <= hi - lo && s@.subrange(hi - p.len(), hi as int) == p@),
{
    if p.len() > hi - lo {
        return false;
    }
    has_prefix(s, hi - p.len(), hi, p)
}

/// The character `'0' + d`.
pub open spec fn digit_char(d: int) -> char {
    if d == 0 {
        '0'
    } else if d == 1 {
        '1'
    } else if d == 2 {
        '2'
    } else if d == 3 {
        '3'
    } else if d == 4 {
        '4'
    } else if d == 5 {
        '5'
    } else if d == 6 {
        '6'
    } else if d == 7 {
        '7'
    } else if d == 8 {
        '8'
    } else {
        '9'
    }
}

/// The decimal notation of `n`, without leading zeros.
pub open spec fn decimal(n: nat) -> Seq<char>
    decreases n,
{
    if n < 10 {
        seq![digit_char(n as int)]
    } else {
        decimal(n / 10).push(digit_char((n % 10) as int))
    }
}

/// Two numbers with the same decimal notation are equal.
pub proof fn lemma_decimal_injective(a: nat, b: nat)
    requires
        decimal(a) == decimal(b),
    ensures
        a == b,
    decreases a + b,
{
    if a < 10 && b < 10 {
        assert(decimal(a)[0] == digit_char(a as int));
        assert(decimal(b)[0] == digit_char(b as int));
    } else if a < 10 {
        lemma_decimal_len(b / 10);
        assert(decimal(b).len() >= 2);
    } else if b < 10 {
        lemma_decimal_len(a / 10);
        assert(decimal(a).len() >= 2);
    } else {
        assert(decimal(a).last() == digit_char((a % 10) as int));
        assert(decimal(b).last() == digit_char((b % 10) as int));
        assert(decimal(a).drop_last() =~= decimal(a / 10));
        assert(decimal(b).drop_last() =~= decimal(b / 10));
        lemma_decimal_injective(a / 10, b / 10);
    }
}

/// Decimal notation is never empty.
pub proof fn lemma_decimal_len(n: nat)
    ensures
        decimal(n).len() >= 1,
    decreases n,
{
    if n >= 10 {
        lemma_decimal_len(n / 10);
    }
}

fn digit(d: usize) -> (c: char)
    requires
        d < 10,
    ensures
        c == digit_char(d as int),
{
    if d == 0 {
        '0'
    } else if d == 1 {
        '1'
    } else if d == 2 {
        '2'
    } else if d == 3 {
        '3'
    } else if d == 4 {
        '4'
    } else if d == 5 {
        '5'
    } else if d == 6 {
        '6'
    } else if d == 7 {
        '7'
    } else if d == 8 {
        '8'
    } else {
        '9'
    }
}

/// Appends the decimal notation of `n` to `out`.
pub fn push_decimal(out: &mut String, n: u128)
    ensures
        final(out)@ == old(out)@ + decimal(n as nat),
    decreases n,
{
    if n >= 10 {
        push_decimal(out, n / 10);
    }
    out.push(digit((n % 10) as usize));
    proof {
        if n >= 10 {
            assert(decimal(n as nat) == decimal((n / 10) as nat).push(digit_char((n % 10) as int)));
        }
        assert(final(out)@ =~= old(out)@ + decimal(n as nat));
    }
}

/// Texts taken by their characters.
pub open spec fn texts(v: Seq<String>) -> Seq<Seq<char>> {
    v.map_values(|s: String| s@)
}

/// Whether the text `x` occurs in `v`.
pub fn contains_text(v: &Vec<String>, x: &String) -> (r: bool)
    ensures
        r == texts(v@).contains(x@),
{
    let mut i: usize = 0;
    while i < v.len()
        invariant
            i <= v.len(),
            forall|j: int| 0 <= j < i ==> texts(v@)[j] != x@,
        decreases v.len() - i,
    {
        if v[i] == *x {
            assert(texts(v@)[i as int] == x@);
            return true;
        }
        i = i + 1;
    }
    false
}

/// Lexicographic order of character sequences by code point, the order of `str`.
pub open spec fn text_lt(a: Seq<char>, b: Seq<char>) -> bool
    decreases a.len(),
{
    if a.len() == 0 {
        b.len() > 0
    } else if b.len() == 0 {
        false
    } else if a[0] != b[0] {
        (a[0] as u32) < (b[0] as u32)
    } else {
        text_lt(a.drop_first(), b.drop_first())
    }
}

/// `text_lt` is irreflexive.
pub proof fn lemma_text_lt_irreflexive(a: Seq<char>)
    ensures
        !text_lt(a, a),
    decreases a.len(),
{
    if a.len() > 0 {
        lemma_text_lt_irreflexive(a.drop_first());
    }
}

/// `text_lt` is transitive.
pub proof fn lemma_text_lt_transitive(a: Seq<char>, b: Seq<char>, c: Seq<char>)
    requires
        text_lt(a, b),
        text_lt(b, c),
    ensures
        text_lt(a, c),
    decreases a.len(),
{
    if a.len() > 0 && b.len() > 0 && c.len() > 0 && a[0] == b[0] && b[0] == c[0] {
        lemma_text_lt_transitive(a.drop_first(), b.drop_first(), c.drop_first());
    }
}

/// Any two texts are ordered one way or the other unless they are equal.
pub proof fn lemma_text_lt_total(a: Seq<char>, b: Seq<char>)
    ensures
        text_lt(a, b) || text_lt(b, a) || a == b,
    decreases a.len(),
{
    if a.len() > 0 && b.len() > 0 {
        if a[0] == b[0] {
            lemma_text_lt_total(a.drop_first(), b.drop_first());
            if a.drop_first() == b.drop_first() {
                assert(a.len() == a.drop_first().len() + 1);
                assert(b.len() == b.drop_first().len() + 1);
                assert forall|i: int| 0 <= i < a.len() implies a[i] == b[i] by {
                    if i > 0 {
                        assert(a[i] == a.drop_first()[i - 1]);
                        assert(b[i] == b.drop_first()[i - 1]);
                    }
                }
                assert(a =~= b);
            }
        } else {
            vstd::utf8::char_u32_cast(a[0], a[0] as u32);
            vstd::utf8::char_u32_cast(b[0], b[0] as u32);
        }
    } else if a.len() == 0 && b.len() == 0 {
        assert(a =~= b);
    }
}

/// Compares two texts: `Less`, `Equal` or `Greater` as -1, 0 or 1.
pub fn text_order(a: &String, b: &String) -> (r: i8)
    ensures
        r == -1 <==> text_lt(a@, b@),
        r == 0 <==> a@ == b@,
        r == 1 <==> text_lt(b@, a@),
        -1 <= r <= 1,
{
    let x = chars_of(a.as_str());
    let y = chars_of(b.as_str());
    let mut i: usize = 0;
    while i < x.len() && i < y.len() && x[i] == y[i]
        invariant
            i <= x.len(),
            i <= y.len(),
            x@ == a@,
            y@ == b@,
            x@.subrange(0, i as int) == y@.subrange(0, i as int),
        decreases x.len() - i,
    {
        assert(x@.subrange(0, i + 1) =~= x@.subrange(0, i as int).push(x@[i as int]));
        assert(y@.subrange(0, i + 1) =~= y@.subrange(0, i as int).push(y@[i as int]));
        i = i + 1;
    }
    proof {
        lemma_text_lt_skip(x@, y@, i as int);
        lemma_text_lt_irreflexive(a@);
        lemma_text_lt_total(a@, b@);
    }
    if i == x.len() && i == y.len() {
        assert(x@ =~= x@.subrange(0, i as int));
        assert(y@ =~= y@.subrange(0, i as int));
        0
    } else if i == x.len() {
        -1
    } else if i == y.len() {
        1
    } else if (x[i] as u32) < (y[i] as u32) {
        -1
    } else {
        1
    }
}

proof fn lemma_text_lt_skip(a: Seq<char>, b: Seq<char>, i: int)
    requires
        0 <= i <= a.len(),
        i <= b.len(),
        a.subrange(0, i) == b.subrange(0, i),
    ensures
        text_lt(a, b) == text_lt(a.subrange(i, a.len() as int), b.subrange(i, b.len() as int)),
        text_lt(b, a) == text_lt(b.subrange(i, b.len() as int), a.subrange(i, a.len() as int)),
    decreases i,
{
    if i > 0 {
        assert(a[0] == a.subrange(0, i)[0]);
        assert(b[0] == b.subrange(0, i)[0]);
        assert(a.drop_first().subrange(0, i - 1) =~= a.subrange(0, i).drop_first());
        assert(b.drop_first().subrange(0, i - 1) =~= b.subrange(0, i).drop_first());
        lemma_text_lt_skip(a.drop_first(), b.drop_first(), i - 1);
        assert(a.drop_first().subrange(i - 1, a.len() - 1) =~= a.subrange(i, a.len() as int));
        assert(b.drop_first().subrange(i - 1, b.len() - 1) =~= b.subrange(i, b.len() as int));
    } else {
        assert(a.subrange(0, a.len() as int) =~= a);
        assert(b.subrange(0, b.len() as int) =~= b);
    }
}

} // verus!
