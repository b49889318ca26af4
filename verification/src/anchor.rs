//! Heading slugs and the section a directive belongs to.

use vstd::prelude::*;

use vstd::set_lib::{lemma_int_range, lemma_len_subset, lemma_map_size, set_int_range};

use crate::syntax::{blocks_flat, lemma_blocks_apart, tree_placed, SyntaxNode, syntax_view};
use crate::text::{
    ascii_lower, chars_of, contains_text, lower_case, push_lower_case, decimal, lemma_decimal_injective, push_decimal,
    push_text, span_chars, span_text, string_of, text_is, texts, trim, trim_bounds,
    alphanumeric, ascii_alphanumeric, lemma_trim_idempotent,
};

verus! {

/// What one character of a heading contributes to its slug: alphanumerics in
/// lower case, space and `-` as `-`, `_` as itself, nothing otherwise.
pub open spec fn slug_char(c: char) -> Seq<char> {
    if alphanumeric(c) {
        lower_case(c)
    } else if c == ' ' || c == '-' {
        seq!['-']
    } else if c == '_' {
        seq!['_']
    } else {
        seq![]
    }
}

/// The GitHub-compatible slug of a heading text.
pub open spec fn slug_of(s: Seq<char>) -> Seq<char>
    decreases s.len(),
{
    if s.len() == 0 {
        seq![]
    } else {
        slug_of(s.drop_last()) + slug_char(s.last())
    }
}

/// The slug of joined texts is the slugs of the texts joined.
pub proof fn lemma_slug_concat(s: Seq<char>, t: Seq<char>)
    ensures
        slug_of(s + t) == slug_of(s) + slug_of(t),
    decreases t.len(),
{
    if t.len() == 0 {
        assert(s + t =~= s);
        assert(slug_of(s) + slug_of(t) =~= slug_of(s));
    } else {
        assert((s + t).drop_last() =~= s + t.drop_last());
        assert((s + t).last() == t.last());
        lemma_slug_concat(s, t.drop_last());
        assert(slug_of(s + t) =~= slug_of(s) + slug_of(t));
    }
}

/// What one more character adds to a slug: the lower case of an alphanumeric
/// character, `-` for a space or `-`, `_` for `_`, and nothing for any other
/// character (punctuation and symbols, ASCII or not, are dropped).
pub proof fn lemma_slug_push(s: Seq<char>, c: char)
    ensures
        alphanumeric(c) ==> slug_of(s.push(c)) == slug_of(s) + lower_case(c),
        !alphanumeric(c) && (c == ' ' || c == '-') ==> slug_of(s.push(c)) == slug_of(s).push('-'),
        !alphanumeric(c) && c == '_' ==> slug_of(s.push(c)) == slug_of(s).push('_'),
        !alphanumeric(c) && c != ' ' && c != '-' && c != '_' ==> slug_of(s.push(c)) == slug_of(s),
{
    assert(s.push(c).drop_last() =~= s);
    assert(s.push(c).last() == c);
    assert(slug_of(s) + seq!['-'] =~= slug_of(s).push('-'));
    assert(slug_of(s) + seq!['_'] =~= slug_of(s).push('_'));
    assert(slug_of(s) + Seq::<char>::empty() =~= slug_of(s));
}

/// Every character of a slug is `-`, `_`, or one of the characters of the
/// lower case of an alphanumeric character of the text.
pub proof fn lemma_slug_chars_come_from_text(s: Seq<char>)
    ensures
        forall|i: int|
            0 <= i < slug_of(s).len() ==> #[trigger] slug_of(s)[i] == '-' || slug_of(s)[i] == '_'
                || exists|j: int|
                0 <= j < s.len() && alphanumeric(s[j]) && #[trigger] lower_case(s[j]).contains(
                    slug_of(s)[i],
                ),
    decreases s.len(),
{
    if s.len() > 0 {
        let t = s.drop_last();
        let c = s.last();
        lemma_slug_chars_come_from_text(t);
        let prev = slug_of(t);
        assert forall|i: int| 0 <= i < slug_of(s).len() implies #[trigger] slug_of(s)[i] == '-'
            || slug_of(s)[i] == '_' || exists|j: int|
            0 <= j < s.len() && alphanumeric(s[j]) && #[trigger] lower_case(s[j]).contains(
                slug_of(s)[i],
            ) by {
            let x = slug_of(s)[i];
            if i < prev.len() {
                assert(x == prev[i]);
                if x != '-' && x != '_' {
                    let j = choose|j: int|
                        0 <= j < t.len() && alphanumeric(t[j]) && #[trigger] lower_case(
                            t[j],
                        ).contains(prev[i]);
                    assert(s[j] == t[j]);
                }
            } else {
                assert(x == slug_char(c)[i - prev.len()]);
                if alphanumeric(c) {
                    assert(lower_case(c)[i - prev.len()] == x);
                    assert(lower_case(s[s.len() - 1]).contains(x));
                }
            }
        }
    }
}

/// Text of ASCII characters only.
pub open spec fn is_ascii_text(s: Seq<char>) -> bool {
    forall|i: int| 0 <= i < s.len() ==> #[trigger] s[i] <= '\u{7f}'
}

/// What one ASCII character contributes to a slug: letters and digits in ASCII
/// lower case, space and `-` as `-`, `_` as itself, nothing otherwise.
pub open spec fn ascii_slug_char(c: char) -> Seq<char> {
    if ascii_alphanumeric(c) {
        seq![ascii_lower(c)]
    } else if c == ' ' || c == '-' {
        seq!['-']
    } else if c == '_' {
        seq!['_']
    } else {
        seq![]
    }
}

/// The slug of ASCII text, character by character by `ascii_slug_char`.
pub open spec fn ascii_slug(s: Seq<char>) -> Seq<char>
    decreases s.len(),
{
    if s.len() == 0 {
        seq![]
    } else {
        ascii_slug(s.drop_last()) + ascii_slug_char(s.last())
    }
}

/// A character a slug of ASCII text can hold: a lower-case ASCII letter, a
/// digit, `-` or `_`.
pub open spec fn is_ascii_slug_char(c: char) -> bool {
    ||| 'a' <= c <= 'z'
    ||| '0' <= c <= '9'
    ||| c == '-'
    ||| c == '_'
}

/// Whether a character contributes to a slug: alphanumeric, space, `-` or `_`.
pub open spec fn kept_in_slug(c: char) -> bool {
    alphanumeric(c) || c == ' ' || c == '-' || c == '_'
}

/// How many characters of `s` contribute to its slug.
pub open spec fn kept_count(s: Seq<char>) -> nat
    decreases s.len(),
{
    if s.len() == 0 {
        0
    } else {
        kept_count(s.drop_last()) + if kept_in_slug(s.last()) {
            1nat
        } else {
            0nat
        }
    }
}

/// The slug of ASCII text keeps its letters and digits in lower case, turns
/// spaces and `-` into `-`, keeps `_` and drops everything else: one
/// character for each kept one, each a lower-case letter, a digit, `-` or `_`.
pub proof fn lemma_ascii_slug(s: Seq<char>)
    requires
        is_ascii_text(s),
    ensures
        slug_of(s) == ascii_slug(s),
        slug_of(s).len() == kept_count(s),
        forall|i: int| 0 <= i < slug_of(s).len() ==> is_ascii_slug_char(#[trigger] slug_of(s)[i]),
    decreases s.len(),
{
    if s.len() > 0 {
        let t = s.drop_last();
        assert(is_ascii_text(t)) by {
            assert forall|i: int| 0 <= i < t.len() implies #[trigger] t[i] <= '\u{7f}' by {
                assert(t[i] == s[i]);
            }
        }
        lemma_ascii_slug(t);
        let c = s.last();
        assert(c == s[s.len() - 1]);
        let prev = slug_of(t);
        if 'A' <= c && c <= 'Z' {
            assert((ascii_lower(c) as u32) == (c as u32) + 32);
        }
        assert(slug_char(c) == ascii_slug_char(c));
        assert forall|i: int| 0 <= i < slug_of(s).len() implies is_ascii_slug_char(
            #[trigger] slug_of(s)[i],
        ) by {
            if i >= prev.len() {
                assert(slug_of(s)[i] == slug_char(c)[i - prev.len()]);
            } else {
                assert(slug_of(s)[i] == prev[i]);
            }
        }
    }
}

/// Text made of slug characters is its own slug.
proof fn lemma_slug_of_slug_chars(t: Seq<char>)
    requires
        forall|i: int| 0 <= i < t.len() ==> is_ascii_slug_char(#[trigger] t[i]),
    ensures
        slug_of(t) == t,
    decreases t.len(),
{
    if t.len() > 0 {
        let u = t.drop_last();
        assert forall|i: int| 0 <= i < u.len() implies is_ascii_slug_char(#[trigger] u[i]) by {
            assert(u[i] == t[i]);
        }
        lemma_slug_of_slug_chars(u);
        let c = t.last();
        assert(is_ascii_slug_char(t[t.len() - 1]));
        assert(slug_char(c) =~= seq![c]);
        assert(t =~= u + seq![c]);
    }
}

/// Slugging the slug of ASCII text changes nothing.
pub proof fn lemma_ascii_slug_idempotent(s: Seq<char>)
    requires
        is_ascii_text(s),
    ensures
        slug_of(slug_of(s)) == slug_of(s),
{
    lemma_ascii_slug(s);
    lemma_slug_of_slug_chars(slug_of(s));
}

/// The slug of `s[lo..hi]`.
pub fn slugify_range(s: &Vec<char>, lo: usize, hi: usize) -> (r: String)
    requires
        lo <= hi <= s.len(),
    ensures
        r@ == slug_of(s@.subrange(lo as int, hi as int)),
{
    let mut r = String::new();
    let mut i = lo;
    assert(s@.subrange(lo as int, lo as int) =~= Seq::<char>::empty());
    while i < hi
        invariant
            lo <= i <= hi <= s.len(),
            r@ == slug_of(s@.subrange(lo as int, i as int)),
        decreases hi - i,
    {
        let c = s[i];
        if c.is_alphanumeric() {
            push_lower_case(&mut r, c);
        } else if c == ' ' || c == '-' {
            r.push('-');
        } else if c == '_' {
            r.push('_');
        }
        proof {
            let t = s@.subrange(lo as int, i + 1);
            assert(t.drop_last() =~= s@.subrange(lo as int, i as int));
            assert(t.last() == c);
        }
        i = i + 1;
        assert(r@ =~= slug_of(s@.subrange(lo as int, i as int)));
    }
    r
}

/// Compute the GitHub-compatible slug for a heading text.
/// Rules: lowercase, spaces → `-`, keep alphanumeric and `-_`, strip the rest.
pub fn slugify(text: &str) -> (r: String)
    ensures
        r@ == slug_of(text@),
{
    let v = chars_of(text);
    assert(v@.subrange(0, v.len() as int) =~= v@);
    slugify_range(&v, 0, v.len())
}

/// The slug of the last heading that starts before byte `pos`, if any.
pub open spec fn section_before(headings: Seq<(usize, Seq<char>)>, pos: int) -> Option<Seq<char>>
    decreases headings.len(),
{
    if headings.len() == 0 {
        None
    } else if headings.last().0 < pos {
        Some(headings.last().1)
    } else {
        section_before(headings.drop_last(), pos)
    }
}

/// Headings as (byte start, slug) pairs taken by the characters of the slugs.
pub open spec fn heading_pairs(headings: Seq<(usize, String)>) -> Seq<(usize, Seq<char>)> {
    headings.map_values(|h: (usize, String)| (h.0, h.1@))
}

/// Given the list of (heading_byte_start, slug) pairs and the byte position of
/// a directive, return the slug of the immediately preceding heading (if any).
pub fn source_section_for(headings: &[(usize, String)], directive_start: usize) -> (r: Option<
    String,
>)
    ensures
        crate::opt_text(r) == section_before(heading_pairs(headings@), directive_start as int),
{
    let mut i = headings.len();
    assert(headings@.subrange(0, i as int) =~= headings@);
    while i > 0
        invariant
            i <= headings@.len(),
            section_before(heading_pairs(headings@), directive_start as int) == section_before(
                heading_pairs(headings@.subrange(0, i as int)),
                directive_start as int,
            ),
        decreases i,
    {
        let ghost hs = heading_pairs(headings@.subrange(0, i as int));
        assert(hs.drop_last() =~= heading_pairs(headings@.subrange(0, i - 1)));
        assert(hs.last() == (headings@[i - 1].0, headings@[i - 1].1@));
        if headings[i - 1].0 < directive_start {
            return Some(headings[i - 1].1.clone());
        }
        i = i - 1;
    }
    None
}


/// How often `x` occurs in `s`.
pub open spec fn count_of(s: Seq<Seq<char>>, x: Seq<char>) -> nat
    decreases s.len(),
{
    if s.len() == 0 {
        0
    } else {
        count_of(s.drop_last(), x) + if s.last() == x {
            1nat
        } else {
            0nat
        }
    }
}

/// `base` followed by `-` and the number `k`.
pub open spec fn suffixed(base: Seq<char>, k: nat) -> Seq<char> {
    base + seq!['-'] + decimal(k)
}

/// `k` is the least number from `from` on whose suffixed slug is not yet taken.
pub open spec fn is_first_free(base: Seq<char>, from: nat, taken: Seq<Seq<char>>, k: nat) -> bool {
    &&& from <= k
    &&& !taken.contains(suffixed(base, k))
    &&& forall|m: nat| from <= m < k ==> taken.contains(#[trigger] suffixed(base, m))
}

/// The least number from `from` on whose suffixed slug is not yet taken.
pub open spec fn first_free(base: Seq<char>, from: nat, taken: Seq<Seq<char>>) -> nat {
    choose|k: nat| is_first_free(base, from, taken, k)
}

/// The slug given to a heading with base slug `base`, after headings with base
/// slugs `earlier` were given the slugs `taken`: the first occurrence keeps the
/// base slug unless it is taken, the n-th repetition gets the first free `base-k`
/// with `k >= n`.
pub open spec fn next_slug(base: Seq<char>, earlier: Seq<Seq<char>>, taken: Seq<Seq<char>>) -> Seq<
    char,
> {
    let n = count_of(earlier, base);
    if n == 0 {
        if taken.contains(base) {
            suffixed(base, first_free(base, 1, taken))
        } else {
            base
        }
    } else {
        suffixed(base, first_free(base, n, taken))
    }
}

/// The unique slugs given to headings with the base slugs `bases`, in order.
pub open spec fn unique_slugs(bases: Seq<Seq<char>>) -> Seq<Seq<char>>
    decreases bases.len(),
{
    if bases.len() == 0 {
        seq![]
    } else {
        let prev = unique_slugs(bases.drop_last());
        prev.push(next_slug(bases.last(), bases.drop_last(), prev))
    }
}

proof fn lemma_suffixed_injective(base: Seq<char>, a: nat, b: nat)
    requires
        suffixed(base, a) == suffixed(base, b),
    ensures
        a == b,
{
    let n = base.len() + 1;
    assert(suffixed(base, a).subrange(n as int, suffixed(base, a).len() as int) =~= decimal(a));
    assert(suffixed(base, b).subrange(n as int, suffixed(base, b).len() as int) =~= decimal(b));
    lemma_decimal_injective(a, b);
}

/// If every suffixed slug numbered `from..k` is taken, there are at least
/// `k - from` taken slugs.
proof fn lemma_taken_bound(base: Seq<char>, from: nat, k: nat, taken: Seq<Seq<char>>)
    requires
        from <= k,
        forall|m: nat| from <= m < k ==> taken.contains(#[trigger] suffixed(base, m)),
    ensures
        k - from <= taken.len(),
{
    let r = set_int_range(from as int, k as int);
    let f = |m: int| suffixed(base, m as nat);
    lemma_int_range(from as int, k as int);
    assert forall|x: int, y: int| r.contains(x) && r.contains(y) && #[trigger] f(x) == #[trigger] f(
        y,
    ) implies x == y by {
        lemma_suffixed_injective(base, x as nat, y as nat);
    }
    lemma_map_size(r, r.map(f), f);
    assert forall|s: Seq<char>| r.map(f).contains(s) implies taken.to_set().contains(s) by {
        let m = choose|m: int| r.contains(m) && f(m) == s;
        assert(taken.contains(suffixed(base, m as nat)));
    }
    taken.lemma_cardinality_of_set();
    lemma_len_subset(r.map(f), taken.to_set());
}

proof fn lemma_least_free(base: Seq<char>, from: nat, taken: Seq<Seq<char>>, m0: nat)
    requires
        from <= m0,
        !taken.contains(suffixed(base, m0)),
    ensures
        is_first_free(base, from, taken, first_free(base, from, taken)),
        first_free(base, from, taken) <= m0,
    decreases m0 - from,
{
    if forall|m: nat| from <= m < m0 ==> taken.contains(#[trigger] suffixed(base, m)) {
        assert(is_first_free(base, from, taken, m0));
        lemma_first_free_is(base, from, taken, m0);
    } else {
        let m1 = choose|m: nat| from <= m < m0 && !taken.contains(#[trigger] suffixed(base, m));
        lemma_least_free(base, from, taken, m1);
    }
}

/// There is a least free suffix number from `from` on, and it is at most
/// `from` plus the number of taken slugs.
pub proof fn lemma_first_free_exists(base: Seq<char>, from: nat, taken: Seq<Seq<char>>)
    ensures
        is_first_free(base, from, taken, first_free(base, from, taken)),
        first_free(base, from, taken) <= from + taken.len(),
{
    let top = from + taken.len();
    if forall|m: nat| from <= m < top + 1 ==> taken.contains(#[trigger] suffixed(base, m)) {
        lemma_taken_bound(base, from, top + 1, taken);
    } else {
        let m0 = choose|m: nat| from <= m < top + 1 && !taken.contains(#[trigger] suffixed(base, m));
        lemma_least_free(base, from, taken, m0);
    }
}

/// A least free suffix number is the one `first_free` names.
pub proof fn lemma_first_free_is(base: Seq<char>, from: nat, taken: Seq<Seq<char>>, k: nat)
    requires
        is_first_free(base, from, taken, k),
    ensures
        first_free(base, from, taken) == k,
{
    let j = first_free(base, from, taken);
    assert(is_first_free(base, from, taken, j));
    if j < k {
        assert(taken.contains(suffixed(base, j)));
    } else if k < j {
        assert(taken.contains(suffixed(base, k)));
    }
}

/// A fresh `String` holding `base-k`.
fn suffixed_text(base: &String, k: u128) -> (r: String)
    ensures
        r@ == suffixed(base@, k as nat),
{
    let mut r = base.clone();
    r.push('-');
    push_decimal(&mut r, k);
    assert(r@ =~= suffixed(base@, k as nat));
    r
}

/// The least number from `from` on whose suffixed slug is not in `taken`.
fn first_free_number(base: &String, from: u128, taken: &Vec<String>) -> (k: u128)
    requires
        from <= taken.len(),
    ensures
        k == first_free(base@, from as nat, texts(taken@)),
{
    let ghost t = texts(taken@);
    let mut k = from;
    while contains_text(taken, &suffixed_text(base, k))
        invariant
            from <= k <= from + t.len(),
            from <= taken.len(),
            t == texts(taken@),
            forall|m: nat| from <= m < k ==> t.contains(#[trigger] suffixed(base@, m)),
        decreases from + t.len() - k,
    {
        proof {
            assert forall|m: nat| from <= m < k + 1 implies t.contains(
                #[trigger] suffixed(base@, m),
            ) by {}
            lemma_taken_bound(base@, from as nat, (k + 1) as nat, t);
        }
        k = k + 1;
    }
    proof {
        lemma_first_free_is(base@, from as nat, t, k as nat);
    }
    k
}

/// The unique slugs for headings whose base slugs are `bases`, in order:
/// duplicates receive GitHub-style numeric suffixes.
pub fn unique_slug_list(bases: &Vec<String>) -> (r: Vec<String>)
    ensures
        texts(r@) == unique_slugs(texts(bases@)),
{
    let ghost b = texts(bases@);
    let mut out: Vec<String> = Vec::new();
    let mut i: usize = 0;
    assert(b.take(0) =~= Seq::<Seq<char>>::empty());
    while i < bases.len()
        invariant
            i <= bases.len(),
            b == texts(bases@),
            texts(out@) == unique_slugs(b.take(i as int)),
            out.len() == i,
        decreases bases.len() - i,
    {
        let base = &bases[i];
        let mut n: usize = 0;
        let mut j: usize = 0;
        assert(b.take(0) =~= Seq::<Seq<char>>::empty());
        while j < i
            invariant
                j <= i < bases.len(),
                b == texts(bases@),
                n == count_of(b.take(j as int), base@),
                n <= j,
            decreases i - j,
        {
            assert(b.take(j + 1).drop_last() =~= b.take(j as int));
            if bases[j] == *base {
                n = n + 1;
            }
            j = j + 1;
        }
        let ghost prev = texts(out@);
        let slug = if n == 0 {
            if contains_text(&out, base) {
                let k = first_free_number(base, 1, &out);
                suffixed_text(base, k)
            } else {
                base.clone()
            }
        } else {
            let k = first_free_number(base, n as u128, &out);
            suffixed_text(base, k)
        };
        proof {
            let bi = b.take(i + 1);
            assert(bi.drop_last() =~= b.take(i as int));
            assert(bi.last() == base@);
        }
        out.push(slug);
        i = i + 1;
        assert(texts(out@) =~= prev.push(slug@));
    }
    assert(b.take(i as int) =~= b);
    out
}

/// Unique slugs come one per heading.
pub proof fn lemma_unique_slugs_len(bases: Seq<Seq<char>>)
    ensures
        unique_slugs(bases).len() == bases.len(),
    decreases bases.len(),
{
    if bases.len() > 0 {
        lemma_unique_slugs_len(bases.drop_last());
    }
}

/// The slugs given to the first `j` headings do not depend on the later ones.
proof fn lemma_unique_slugs_prefix(bases: Seq<Seq<char>>, j: int)
    requires
        0 <= j <= bases.len(),
    ensures
        unique_slugs(bases.take(j)) == unique_slugs(bases).take(j),
    decreases bases.len(),
{
    lemma_unique_slugs_len(bases);
    lemma_unique_slugs_len(bases.take(j));
    if j < bases.len() {
        lemma_unique_slugs_prefix(bases.drop_last(), j);
        assert(bases.drop_last().take(j) =~= bases.take(j));
        assert(unique_slugs(bases).take(j) =~= unique_slugs(bases.drop_last()).take(j));
    } else {
        assert(bases.take(j) =~= bases);
        assert(unique_slugs(bases).take(j) =~= unique_slugs(bases));
    }
}

/// The slug of the `i`-th heading, from the headings before it: with `c` the
/// number of earlier headings with the same base slug `b`, it is `b` itself
/// when `c` is 0 and no earlier heading was given `b`; otherwise it is `b-k`
/// for the least `k` from `c` (from 1 when `c` is 0) on such that no earlier
/// heading was given `b-k`.
pub proof fn lemma_unique_slug_at(bases: Seq<Seq<char>>, i: int)
    requires
        0 <= i < bases.len(),
    ensures
        unique_slugs(bases).len() == bases.len(),
        count_of(bases.take(i), bases[i]) == 0 && !unique_slugs(bases).take(i).contains(bases[i])
            ==> unique_slugs(bases)[i] == bases[i],
        count_of(bases.take(i), bases[i]) == 0 && unique_slugs(bases).take(i).contains(bases[i])
            ==> is_first_free(bases[i], 1, unique_slugs(bases).take(i), first_free(bases[i], 1, unique_slugs(bases).take(i)))
            && unique_slugs(bases)[i] == suffixed(bases[i], first_free(bases[i], 1, unique_slugs(bases).take(i))),
        count_of(bases.take(i), bases[i]) > 0 ==> is_first_free(
            bases[i],
            count_of(bases.take(i), bases[i]),
            unique_slugs(bases).take(i),
            first_free(bases[i], count_of(bases.take(i), bases[i]), unique_slugs(bases).take(i)),
        ) && unique_slugs(bases)[i] == suffixed(
            bases[i],
            first_free(bases[i], count_of(bases.take(i), bases[i]), unique_slugs(bases).take(i)),
        ),
{
    lemma_unique_slugs_len(bases);
    lemma_unique_slugs_prefix(bases, i + 1);
    lemma_unique_slugs_prefix(bases, i);
    let t = bases.take(i + 1);
    assert(t.drop_last() =~= bases.take(i));
    assert(t.last() == bases[i]);
    assert(unique_slugs(bases)[i] == unique_slugs(t)[i]);
    let b = bases[i];
    let earlier = unique_slugs(bases).take(i);
    let c = count_of(bases.take(i), b);
    if c == 0 {
        if earlier.contains(b) {
            lemma_first_free_exists(b, 1, earlier);
        }
    } else {
        lemma_first_free_exists(b, c, earlier);
    }
}

/// No two headings of a document receive the same slug.
pub proof fn lemma_unique_slugs_distinct(bases: Seq<Seq<char>>)
    ensures
        unique_slugs(bases).no_duplicates(),
    decreases bases.len(),
{
    if bases.len() > 0 {
        let prev = unique_slugs(bases.drop_last());
        let base = bases.last();
        let n = count_of(bases.drop_last(), base);
        lemma_unique_slugs_distinct(bases.drop_last());
        let s = next_slug(base, bases.drop_last(), prev);
        if n == 0 {
            if prev.contains(base) {
                lemma_first_free_exists(base, 1, prev);
            }
        } else {
            lemma_first_free_exists(base, n, prev);
        }
        assert(!prev.contains(s));
        let all = prev.push(s);
        assert forall|i: int, j: int| 0 <= i < all.len() && 0 <= j < all.len() && i != j implies all[i]
            != all[j] by {
            if i == prev.len() {
                assert(prev.contains(all[j]));
            } else if j == prev.len() {
                assert(prev.contains(all[i]));
            }
        }
    }
}


/// A syntax node taken as plain values: kind, byte start, byte end, depth.
pub type NodeV = (Seq<char>, usize, usize, usize);

/// The kinds of the two heading nodes of the Markdown grammar.
pub open spec fn is_heading_kind(k: Seq<char>) -> bool {
    k == "atx_heading"@ || k == "setext_heading"@
}

/// The kinds of the marker tokens of a heading, which are not part of its text.
pub open spec fn is_marker_kind(k: Seq<char>) -> bool {
    ||| k == "atx_h1_marker"@
    ||| k == "atx_h2_marker"@
    ||| k == "atx_h3_marker"@
    ||| k == "atx_h4_marker"@
    ||| k == "atx_h5_marker"@
    ||| k == "atx_h6_marker"@
    ||| k == "setext_h1_underline"@
    ||| k == "setext_h2_underline"@
}

/// The trimmed texts of the children of node `i` from node `j` on (in preorder,
/// a child of `i` lies one level below it, before the next node at `i`'s level
/// or above), skipping marker tokens and spans that are not valid UTF-8.
pub open spec fn child_parts(src: Seq<u8>, nodes: Seq<NodeV>, i: int, j: int) -> Seq<Seq<char>>
    decreases nodes.len() - j,
{
    if j < 0 || j >= nodes.len() || nodes[j].3 <= nodes[i].3 {
        seq![]
    } else {
        let rest = child_parts(src, nodes, i, j + 1);
        let t = span_text(src, nodes[j].1 as int, nodes[j].2 as int);
        if nodes[j].3 == nodes[i].3 + 1 && !is_marker_kind(nodes[j].0) && t is Some {
            seq![trim(t->0)] + rest
        } else {
            rest
        }
    }
}

/// Texts joined with single spaces between them.
pub open spec fn join_space(parts: Seq<Seq<char>>) -> Seq<char>
    decreases parts.len(),
{
    if parts.len() == 0 {
        seq![]
    } else if parts.len() == 1 {
        parts[0]
    } else {
        join_space(parts.drop_last()) + seq![' '] + parts.last()
    }
}

/// The plain text of heading node `i`: the texts of its children other than
/// the marker tokens, joined by spaces and trimmed.
pub open spec fn heading_text_of(src: Seq<u8>, nodes: Seq<NodeV>, i: int) -> Seq<char> {
    trim(join_space(child_parts(src, nodes, i, i + 1)))
}

/// The text of an ATX heading of any level is its inline content alone: for a
/// heading node whose children are an `atx_hN_marker` (N from 1 to 6) and an
/// `inline` node with text `t`, the heading text is `trim(t)` and its slug
/// `slug_of(trim(t))`, whatever the level; no character of the marker gets in.
pub proof fn lemma_atx_heading_text(src: Seq<u8>, nodes: Seq<NodeV>, i: int, level: char, t: Seq<char>)
    requires
        0 <= i,
        i + 2 < nodes.len(),
        nodes[i].0 == "atx_heading"@,
        '1' <= level <= '6',
        nodes[i + 1].0 == "atx_h"@ + seq![level] + "_marker"@,
        nodes[i + 2].0 == "inline"@,
        nodes[i + 1].3 == nodes[i].3 + 1,
        nodes[i + 2].3 == nodes[i].3 + 1,
        i + 3 == nodes.len() || nodes[i + 3].3 <= nodes[i].3,
        span_text(src, nodes[i + 2].1 as int, nodes[i + 2].2 as int) == Some(t),
    ensures
        heading_text_of(src, nodes, i) == trim(t),
        slug_of(heading_text_of(src, nodes, i)) == slug_of(trim(t)),
{
    reveal_strlit("atx_h");
    reveal_strlit("_marker");
    reveal_strlit("inline");
    reveal_strlit("atx_h1_marker");
    reveal_strlit("atx_h2_marker");
    reveal_strlit("atx_h3_marker");
    reveal_strlit("atx_h4_marker");
    reveal_strlit("atx_h5_marker");
    reveal_strlit("atx_h6_marker");
    reveal_strlit("setext_h1_underline");
    reveal_strlit("setext_h2_underline");
    let m = nodes[i + 1].0;
    if level == '1' {
        assert(m =~= "atx_h1_marker"@);
    } else if level == '2' {
        assert(m =~= "atx_h2_marker"@);
    } else if level == '3' {
        assert(m =~= "atx_h3_marker"@);
    } else if level == '4' {
        assert(m =~= "atx_h4_marker"@);
    } else if level == '5' {
        assert(m =~= "atx_h5_marker"@);
    } else {
        assert(m =~= "atx_h6_marker"@);
    }
    assert(is_marker_kind(m));
    assert(!is_marker_kind(nodes[i + 2].0)) by {
        assert(nodes[i + 2].0.len() == 6);
    }
    assert(child_parts(src, nodes, i, i + 3) == Seq::<Seq<char>>::empty());
    assert(child_parts(src, nodes, i, i + 2) =~= seq![trim(t)]);
    assert(child_parts(src, nodes, i, i + 1) == child_parts(src, nodes, i, i + 2));
    assert(join_space(seq![trim(t)]) == trim(t));
    lemma_trim_idempotent(t);
}

fn is_marker(kind: &String) -> (r: bool)
    ensures
        r == is_marker_kind(kind@),
{
    text_is(kind, "atx_h1_marker") || text_is(kind, "atx_h2_marker") || text_is(
        kind,
        "atx_h3_marker",
    ) || text_is(kind, "atx_h4_marker") || text_is(kind, "atx_h5_marker") || text_is(
        kind,
        "atx_h6_marker",
    ) || text_is(kind, "setext_h1_underline") || text_is(kind, "setext_h2_underline")
}

fn is_heading(kind: &String) -> (r: bool)
    ensures
        r == is_heading_kind(kind@),
{
    text_is(kind, "atx_heading") || text_is(kind, "setext_heading")
}

/// Texts joined with single spaces between them.
pub fn join_with_space(parts: &Vec<String>) -> (r: String)
    ensures
        r@ == join_space(texts(parts@)),
{
    let ghost p = texts(parts@);
    let mut r = String::new();
    let mut i: usize = 0;
    assert(p.take(0) =~= Seq::<Seq<char>>::empty());
    while i < parts.len()
        invariant
            i <= parts.len(),
            p == texts(parts@),
            r@ == join_space(p.take(i as int)),
        decreases parts.len() - i,
    {
        if i > 0 {
            r.push(' ');
        }
        push_text(&mut r, parts[i].as_str());
        proof {
            let q = p.take(i + 1);
            assert(q.drop_last() =~= p.take(i as int));
            if i == 0 {
                assert(r@ =~= q[0]);
            } else {
                assert(r@ =~= join_space(q.drop_last()) + seq![' '] + q.last());
            }
        }
        i = i + 1;
    }
    assert(p.take(i as int) =~= p);
    r
}

/// Extract the plain text of heading node `i` (skipping the marker tokens).
pub fn heading_text(source: &[u8], nodes: &Vec<SyntaxNode>, i: usize) -> (r: String)
    requires
        i < nodes.len(),
    ensures
        r@ == heading_text_of(source@, syntax_view(nodes@), i as int),
{
    let ghost n = syntax_view(nodes@);
    let d = nodes[i].depth;
    let mut parts: Vec<String> = Vec::new();
    let mut j = i + 1;
    while j < nodes.len() && nodes[j].depth > d
        invariant
            i < j <= nodes.len(),
            n == syntax_view(nodes@),
            d == n[i as int].3,
            texts(parts@) + child_parts(source@, n, i as int, j as int) == child_parts(
                source@,
                n,
                i as int,
                i + 1,
            ),
        decreases nodes.len() - j,
    {
        let ghost before = texts(parts@);
        let ghost t = span_text(source@, n[j as int].1 as int, n[j as int].2 as int);
        if nodes[j].depth == d + 1 && !is_marker(&nodes[j].kind) {
            match span_chars(source, nodes[j].start, nodes[j].end) {
                Some(v) => {
                    let (lo, hi) = trim_bounds(&v, 0, v.len());
                    assert(v@.subrange(0, v.len() as int) =~= v@);
                    parts.push(string_of(&v, lo, hi));
                    assert(texts(parts@) =~= before.push(trim(t->0)));
                },
                None => {},
            }
        }
        proof {
            let rest = child_parts(source@, n, i as int, j + 1);
            assert(texts(parts@) + rest =~= before + child_parts(source@, n, i as int, j as int));
        }
        j = j + 1;
    }
    assert(child_parts(source@, n, i as int, j as int) =~= Seq::<Seq<char>>::empty());
    assert(texts(parts@) + Seq::<Seq<char>>::empty() =~= texts(parts@));
    let joined = join_with_space(&parts);
    let v = chars_of(joined.as_str());
    let (lo, hi) = trim_bounds(&v, 0, v.len());
    assert(v@.subrange(0, v.len() as int) =~= v@);
    string_of(&v, lo, hi)
}

/// The (byte start, base slug) pairs of the heading nodes among the first `n`
/// nodes, in document order.
pub open spec fn raw_headings(src: Seq<u8>, nodes: Seq<NodeV>, n: int) -> Seq<(usize, Seq<char>)>
    decreases n,
{
    if n <= 0 {
        seq![]
    } else {
        let prev = raw_headings(src, nodes, n - 1);
        if is_heading_kind(nodes[n - 1].0) {
            prev.push((nodes[n - 1].1, slug_of(heading_text_of(src, nodes, n - 1))))
        } else {
            prev
        }
    }
}

/// The headings of a document as (byte start, unique slug) pairs, in document order.
pub open spec fn headings_of(src: Seq<u8>, nodes: Seq<NodeV>) -> Seq<(usize, Seq<char>)> {
    let raw = raw_headings(src, nodes, nodes.len() as int);
    let slugs = unique_slugs(raw.map_values(|h: (usize, Seq<char>)| h.1));
    Seq::new(raw.len(), |k: int| (raw[k].0, slugs[k]))
}

/// Extract all headings of a parsed document in document order, as
/// (byte_start_of_heading_node, slug) pairs. Duplicate heading texts receive
/// GitHub-style numeric suffixes on 2nd+ occurrence: first → "usage",
/// second → "usage-1", third → "usage-2", etc.
pub fn collect_headings(source: &[u8], nodes: &Vec<SyntaxNode>) -> (r: Vec<(usize, String)>)
    ensures
        heading_pairs(r@) == headings_of(source@, syntax_view(nodes@)),
        tree_placed(syntax_view(nodes@)) && blocks_flat(syntax_view(nodes@)) ==> forall|i: int, j: int|
            0 <= i < j < r.len() ==> #[trigger] r@[i].0 < #[trigger] r@[j].0,
{
    let ghost n = syntax_view(nodes@);
    let mut starts: Vec<usize> = Vec::new();
    let mut bases: Vec<String> = Vec::new();
    let mut i: usize = 0;
    while i < nodes.len()
        invariant
            i <= nodes.len(),
            n == syntax_view(nodes@),
            starts.len() == bases.len(),
            starts.len() == raw_headings(source@, n, i as int).len(),
            forall|k: int|
                0 <= k < starts.len() ==> (#[trigger] raw_headings(source@, n, i as int)[k]) == (
                starts@[k],
                bases@[k]@,
            ),
        decreases nodes.len() - i,
    {
        if is_heading(&nodes[i].kind) {
            let text = heading_text(source, nodes, i);
            starts.push(nodes[i].start);
            bases.push(slugify(text.as_str()));
        }
        i = i + 1;
    }
    let ghost raw = raw_headings(source@, n, n.len() as int);
    assert(texts(bases@) =~= raw.map_values(|h: (usize, Seq<char>)| h.1));
    let slugs = unique_slug_list(&bases);
    proof {
        lemma_unique_slugs_len(texts(bases@));
    }
    let mut r: Vec<(usize, String)> = Vec::new();
    let mut k: usize = 0;
    let ghost h = headings_of(source@, n);
    while k < starts.len()
        invariant
            k <= starts.len(),
            starts.len() == raw.len(),
            slugs.len() == raw.len(),
            h.len() == raw.len(),
            h == headings_of(source@, n),
            raw == raw_headings(source@, n, n.len() as int),
            texts(slugs@) == unique_slugs(raw.map_values(|h: (usize, Seq<char>)| h.1)),
            forall|q: int| 0 <= q < starts.len() ==> (#[trigger] raw[q]).0 == starts@[q],
            heading_pairs(r@) == h.take(k as int),
        decreases starts.len() - k,
    {
        let slug = slugs[k].clone();
        let ghost old_pairs = heading_pairs(r@);
        let ghost sv = slug@;
        r.push((starts[k], slug));
        proof {
            assert(heading_pairs(r@) =~= old_pairs.push((starts@[k as int], sv)));
            assert(texts(slugs@)[k as int] == slugs@[k as int]@);
            assert(h[k as int] == (raw[k as int].0, unique_slugs(
                raw.map_values(|h: (usize, Seq<char>)| h.1),
            )[k as int]));
            assert(h[k as int] == (starts@[k as int], slugs@[k as int]@));
            assert(heading_pairs(r@) =~= h.take(k + 1));
        }
        k = k + 1;
    }
    assert(h.take(k as int) =~= h);
    proof {
        if tree_placed(n) && blocks_flat(n) {
            assert forall|i: int, j: int| 0 <= i < j < r.len() implies #[trigger] r@[i].0
                < #[trigger] r@[j].0 by {
                lemma_headings_in_document_order(source@, n, i, j);
                assert(heading_pairs(r@)[i].0 == r@[i].0);
                assert(heading_pairs(r@)[j].0 == r@[j].0);
            }
        }
    }
    r
}

proof fn lemma_raw_headings_ordered(src: Seq<u8>, nodes: Seq<NodeV>, n: int)
    requires
        tree_placed(nodes),
        blocks_flat(nodes),
        0 <= n <= nodes.len(),
    ensures
        forall|i: int, j: int|
            0 <= i < j < raw_headings(src, nodes, n).len() ==> #[trigger] raw_headings(
                src,
                nodes,
                n,
            )[i].0 < #[trigger] raw_headings(src, nodes, n)[j].0,
        forall|k: int, q: int|
            0 <= k < raw_headings(src, nodes, n).len() && n <= q < nodes.len() && is_heading_kind(
                #[trigger] nodes[q].0,
            ) ==> #[trigger] raw_headings(src, nodes, n)[k].0 < nodes[q].1,
    decreases n,
{
    if n > 0 {
        lemma_raw_headings_ordered(src, nodes, n - 1);
        let prev = raw_headings(src, nodes, n - 1);
        let cur = raw_headings(src, nodes, n);
        if is_heading_kind(nodes[n - 1].0) {
            assert forall|k: int| 0 <= k < prev.len() implies #[trigger] cur[k] == prev[k] by {}
            assert(cur.last().0 == nodes[n - 1].1);
            assert forall|q: int| n <= q < nodes.len() && is_heading_kind(
                #[trigger] nodes[q].0,
            ) implies nodes[n - 1].1 < nodes[q].1 by {
                lemma_blocks_apart(nodes, n - 1, q);
            }
            assert forall|k: int| 0 <= k < prev.len() implies #[trigger] prev[k].0 < nodes[n - 1].1 by {
                assert(is_heading_kind(nodes[n - 1].0));
            }
        }
    }
}

/// Headings come in document order: each starts after the one before it,
/// when the nodes they are read from are placed as a parsed tree's are.
pub proof fn lemma_headings_in_document_order(src: Seq<u8>, nodes: Seq<NodeV>, i: int, j: int)
    requires
        tree_placed(nodes),
        blocks_flat(nodes),
        0 <= i < j < headings_of(src, nodes).len(),
    ensures
        headings_of(src, nodes)[i].0 < headings_of(src, nodes)[j].0,
{
    let raw = raw_headings(src, nodes, nodes.len() as int);
    lemma_raw_headings_ordered(src, nodes, nodes.len() as int);
    assert(raw[i].0 < raw[j].0);
}

/// No two headings of a document share a slug.
pub proof fn lemma_heading_slugs_distinct(src: Seq<u8>, nodes: Seq<NodeV>, i: int, j: int)
    requires
        0 <= i < j < headings_of(src, nodes).len(),
    ensures
        headings_of(src, nodes)[i].1 != headings_of(src, nodes)[j].1,
{
    let raw = raw_headings(src, nodes, nodes.len() as int);
    let bases = raw.map_values(|h: (usize, Seq<char>)| h.1);
    lemma_unique_slugs_distinct(bases);
    lemma_unique_slugs_len(bases);
}

} // verus!
