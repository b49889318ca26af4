//! Directive comments: finding them in a parsed document and reading them.

use vstd::prelude::*;
use vstd::utf8::{decode_utf8, valid_utf8};

use crate::anchor::{collect_headings, heading_pairs, headings_of, section_before, source_section_for, NodeV};
use crate::resolve::{parse_target, resolved_target, target_parts};
use crate::syntax::{
    blocks_flat, is_block_kind, lemma_blocks_apart, markdown_syntax, parse_markdown, syntax_view,
    tree_placed, SyntaxNode,
};
use crate::text::{
    chars_of, has_prefix, is_white_space, has_suffix, span_chars, string_of, text_is, texts, trim,
    trim_bounds, trim_end, trim_start, unicode_white_space, lemma_trim_end_concat,
    lemma_trim_of_trim_end,
};
use crate::graph::directives_view;
use crate::{Directive, DirectiveKind, DirectiveView, ExtractError};

verus! {

/// Whether a byte is ASCII white space (space, tab, line feed, form feed or
/// carriage return).
pub open spec fn is_ascii_space(b: u8) -> bool {
    b == 0x20u8 || b == 0x09u8 || b == 0x0Au8 || b == 0x0Cu8 || b == 0x0Du8
}

/// The index of the first byte at or after `i` of `b` that is not ASCII white
/// space (`b.len()` when there is none).
pub open spec fn skip_ascii_space(b: Seq<u8>, i: int) -> int
    decreases b.len() - i,
{
    if i < 0 || i >= b.len() || !is_ascii_space(b[i]) {
        i
    } else {
        skip_ascii_space(b, i + 1)
    }
}

/// Whether the bytes `b` open an HTML comment: `<!--` after leading ASCII
/// white space.
pub open spec fn opens_comment(b: Seq<u8>) -> bool {
    let i = skip_ascii_space(b, 0);
    &&& i + 4 <= b.len()
    &&& b[i] == 0x3Cu8
    &&& b[i + 1] == 0x21u8
    &&& b[i + 2] == 0x2Du8
    &&& b[i + 3] == 0x2Du8
}

/// Whether a node of kind `k` spanning the bytes `b` can hold a directive: a
/// `directive_comment` always, an `html_block` when it opens an HTML comment.
pub open spec fn is_candidate(k: Seq<char>, b: Seq<u8>) -> bool {
    k == "directive_comment"@ || (k == "html_block"@ && opens_comment(b))
}

/// The directive kind written as `k`, if any.
pub open spec fn kind_of_name(k: Seq<char>) -> Option<DirectiveKind> {
    if k == "constrained-by"@ {
        Some(DirectiveKind::ConstrainedBy)
    } else if k == "blocked-by"@ {
        Some(DirectiveKind::BlockedBy)
    } else if k == "supersedes"@ {
        Some(DirectiveKind::Supersedes)
    } else if k == "derived-from"@ {
        Some(DirectiveKind::DerivedFrom)
    } else {
        None
    }
}

/// The first index at or after `i` of a white-space character of `s`.
pub open spec fn first_ws_from(s: Seq<char>, i: int) -> Option<int>
    decreases s.len() - i,
{
    if i < 0 || i >= s.len() {
        None
    } else if unicode_white_space(s[i]) {
        Some(i)
    } else {
        first_ws_from(s, i + 1)
    }
}

/// The kind word and the target text of a comment body: split at the first
/// white space, both halves trimmed; the target is empty when there is no
/// white space.
pub open spec fn split_body(inner: Seq<char>) -> (Seq<char>, Seq<char>) {
    match first_ws_from(inner, 0) {
        Some(p) => (trim(inner.subrange(0, p)), trim(inner.subrange(p + 1, inner.len() as int))),
        None => (inner, Seq::<char>::empty()),
    }
}

/// The trimmed body of a comment `<!-- body -->`, if `text` (once trimmed) has
/// that form.
pub open spec fn comment_body(text: Seq<char>) -> Option<Seq<char>> {
    let t = trim(text);
    let o = "<!--"@;
    let c = "-->"@;
    if o.len() + c.len() <= t.len() && t.subrange(0, o.len() as int) == o && t.subrange(
        t.len() - c.len(),
        t.len() as int,
    ) == c {
        Some(trim(t.subrange(o.len() as int, t.len() - c.len())))
    } else {
        None
    }
}

/// The directive that the comment `text` at byte span `[start, end)` of the
/// file `path` declares, if it declares one. Its `target_file` is the written
/// target path resolved against the directory of `path`.
pub open spec fn comment_directive(
    text: Seq<char>,
    path: Seq<char>,
    headings: Seq<(usize, Seq<char>)>,
    start: usize,
    end: usize,
) -> Option<DirectiveView> {
    match comment_body(text) {
        None => None,
        Some(inner) => {
            let (k, rest) = split_body(inner);
            match kind_of_name(k) {
                None => None,
                Some(kind) => match target_parts(rest) {
                    Err(_) => None,
                    Ok((file, section)) => Some(
                        DirectiveView {
                            kind,
                            source_file: path,
                            source_section: section_before(headings, start as int),
                            target_file: resolved_target(path, file),
                            target_section: section,
                            span: (start, end),
                        },
                    ),
                },
            }
        },
    }
}

/// The directives declared by the comment nodes among the first `n` nodes, in
/// document order, or the error for the first comment whose bytes are not
/// valid UTF-8. Nodes whose span lies outside the source are passed over.
pub open spec fn directives_upto(
    src: Seq<u8>,
    nodes: Seq<NodeV>,
    path: Seq<char>,
    headings: Seq<(usize, Seq<char>)>,
    n: int,
) -> Result<Seq<DirectiveView>, ExtractError>
    decreases n,
{
    if n <= 0 {
        Ok(seq![])
    } else {
        match directives_upto(src, nodes, path, headings, n - 1) {
            Err(e) => Err(e),
            Ok(prev) => {
                let nd = nodes[n - 1];
                if !(nd.1 <= nd.2 <= src.len()) || !is_candidate(
                    nd.0,
                    src.subrange(nd.1 as int, nd.2 as int),
                ) {
                    Ok(prev)
                } else if !valid_utf8(src.subrange(nd.1 as int, nd.2 as int)) {
                    Err(ExtractError::InvalidUtf8 { start: nd.1, end: nd.2 })
                } else {
                    match comment_directive(
                        decode_utf8(src.subrange(nd.1 as int, nd.2 as int)),
                        path,
                        headings,
                        nd.1,
                        nd.2,
                    ) {
                        Some(d) => Ok(prev.push(d)),
                        None => Ok(prev),
                    }
                }
            },
        }
    }
}

/// The directives of a parsed document, or the error that stops the
/// extraction.
pub open spec fn document_directives(src: Seq<u8>, nodes: Seq<NodeV>, path: Seq<char>) -> Result<
    Seq<DirectiveView>,
    ExtractError,
> {
    directives_upto(src, nodes, path, headings_of(src, nodes), nodes.len() as int)
}

/// Extracted directives are, one for one, the described ones.
pub open spec fn all_agree(ds: Seq<Directive>, ps: Seq<DirectiveView>) -> bool {
    &&& ds.len() == ps.len()
    &&& forall|i: int| 0 <= i < ds.len() ==> #[trigger] ds[i]@ == ps[i]
}

/// An extraction result agrees with the described one.
pub open spec fn result_agrees(
    r: Result<Vec<Directive>, ExtractError>,
    p: Result<Seq<DirectiveView>, ExtractError>,
) -> bool {
    match (r, p) {
        (Ok(ds), Ok(ps)) => all_agree(ds@, ps),
        (Err(e), Err(e2)) => e == e2,
        _ => false,
    }
}

proof fn lemma_first_ws_at(s: Seq<char>, i: int, k: int)
    requires
        0 <= i <= k <= s.len(),
        forall|j: int| i <= j < k ==> !unicode_white_space(s[j]),
        k == s.len() || unicode_white_space(s[k]),
    ensures
        first_ws_from(s, i) == (if k == s.len() {
            None::<int>
        } else {
            Some(k)
        }),
    decreases k - i,
{
    if i < k {
        lemma_first_ws_at(s, i + 1, k);
    }
}

/// Once extraction has stopped at an error, it stops there for good.
proof fn lemma_error_persists(
    src: Seq<u8>,
    nodes: Seq<NodeV>,
    path: Seq<char>,
    headings: Seq<(usize, Seq<char>)>,
    k: int,
    n: int,
)
    requires
        0 <= k <= n,
        directives_upto(src, nodes, path, headings, k) is Err,
    ensures
        directives_upto(src, nodes, path, headings, n) == directives_upto(
            src,
            nodes,
            path,
            headings,
            k,
        ),
    decreases n - k,
{
    if k < n {
        lemma_error_persists(src, nodes, path, headings, k, n - 1);
    }
}

/// Whether the bytes `src[start..end]` open an HTML comment.
fn opens_comment_at(src: &[u8], start: usize, end: usize) -> (r: bool)
    requires
        start <= end <= src.len(),
    ensures
        r == opens_comment(src@.subrange(start as int, end as int)),
{
    let ghost b = src@.subrange(start as int, end as int);
    let mut i = start;
    while i < end && (src[i] == 0x20u8 || src[i] == 0x09u8 || src[i] == 0x0Au8 || src[i] == 0x0Cu8
        || src[i] == 0x0Du8)
        invariant
            start <= i <= end <= src.len(),
            b == src@.subrange(start as int, end as int),
            skip_ascii_space(b, 0) == skip_ascii_space(b, i - start),
        decreases end - i,
    {
        assert(b[i - start] == src@[i as int]);
        i = i + 1;
    }
    if i < end {
        assert(b[i - start] == src@[i as int]);
    }
    assert(skip_ascii_space(b, i - start) == i - start);
    if end - i < 4 {
        return false;
    }
    assert(b[i - start + 1] == src@[i + 1]);
    assert(b[i - start + 2] == src@[i + 2]);
    assert(b[i - start + 3] == src@[i + 3]);
    assert(b[i - start] == src@[i as int]);
    src[i] == 0x3Cu8 && src[i + 1] == 0x21u8 && src[i + 2] == 0x2Du8 && src[i + 3] == 0x2Du8
}

/// Directive spans in document order: each is a non-empty span of the
/// source, and each ends at or before the start of every later one.
pub open spec fn spans_in_order(ds: Seq<DirectiveView>, len: int) -> bool {
    &&& forall|i: int| 0 <= i < ds.len() ==> #[trigger] ds[i].span.0 < ds[i].span.1 <= len
    &&& forall|i: int, j: int|
        0 <= i < j < ds.len() ==> #[trigger] ds[i].span.1 <= #[trigger] ds[j].span.0
}

proof fn lemma_directives_upto_ordered(
    src: Seq<u8>,
    nodes: Seq<NodeV>,
    path: Seq<char>,
    headings: Seq<(usize, Seq<char>)>,
    n: int,
)
    requires
        tree_placed(nodes),
        blocks_flat(nodes),
        0 <= n <= nodes.len(),
    ensures
        directives_upto(src, nodes, path, headings, n) matches Ok(ps) ==> {
            &&& spans_in_order(ps, src.len() as int)
            &&& forall|k: int, q: int|
                0 <= k < ps.len() && n <= q < nodes.len() && is_block_kind(#[trigger] nodes[q].0)
                    ==> #[trigger] ps[k].span.1 <= nodes[q].1
        },
    decreases n,
{
    if n > 0 {
        lemma_directives_upto_ordered(src, nodes, path, headings, n - 1);
        if let Ok(prev) = directives_upto(src, nodes, path, headings, n - 1) {
            if let Ok(ps) = directives_upto(src, nodes, path, headings, n) {
                if ps.len() > prev.len() {
                    let nd = nodes[n - 1];
                    assert(ps == prev.push(ps.last()));
                    assert(ps.last().span == (nd.1, nd.2));
                    assert(is_block_kind(nd.0));
                    assert forall|k: int| 0 <= k < prev.len() implies #[trigger] ps[k] == prev[k] by {}
                    assert forall|q: int| n <= q < nodes.len() && is_block_kind(
                        #[trigger] nodes[q].0,
                    ) implies nd.2 <= nodes[q].1 by {
                        lemma_blocks_apart(nodes, n - 1, q);
                    }
                    assert(nd.1 < nd.2);
                    assert forall|k: int| 0 <= k < prev.len() implies #[trigger] prev[k].span.1
                        <= nd.1 by {
                        assert(is_block_kind(nodes[n - 1].0));
                    }
                } else {
                    assert(ps == prev);
                }
            }
        }
    }
}

/// Directives come in document order: their spans are non-empty spans of the
/// source, each ending at or before the start of the next, when the nodes
/// they are read from are placed as a parsed tree's are.
pub proof fn lemma_directives_in_document_order(src: Seq<u8>, nodes: Seq<NodeV>, path: Seq<char>)
    requires
        tree_placed(nodes),
        blocks_flat(nodes),
    ensures
        document_directives(src, nodes, path) matches Ok(ps) ==> spans_in_order(
            ps,
            src.len() as int,
        ),
{
    lemma_directives_upto_ordered(src, nodes, path, headings_of(src, nodes), nodes.len() as int);
}

proof fn lemma_agreeing_spans(ds: Seq<Directive>, ps: Seq<DirectiveView>, len: int)
    requires
        all_agree(ds, ps),
        spans_in_order(ps, len),
    ensures
        spans_in_order(directives_view(ds), len),
{
    assert(directives_view(ds) =~= ps);
}

/// A directive comment's target is the whole rest of its body after the kind
/// word: for the comment `<!--` + `k` + `w` + `t` + `-->`, with `k` a word
/// without white space and `w` a white-space character, the directive is the
/// one that the target `trim(t)` describes (a section name with spaces in it
/// is slugged whole), resolved against the directory of `path`; none when `k`
/// names no kind or `trim(t)` is not a well-formed target.
pub proof fn lemma_comment_target_is_rest(
    k: Seq<char>,
    w: char,
    t: Seq<char>,
    path: Seq<char>,
    headings: Seq<(usize, Seq<char>)>,
    start: usize,
    end: usize,
)
    requires
        k.len() > 0,
        forall|i: int| 0 <= i < k.len() ==> !unicode_white_space(#[trigger] k[i]),
        unicode_white_space(w),
    ensures
        comment_directive("<!--"@ + k + seq![w] + t + "-->"@, path, headings, start, end)
            == match kind_of_name(k) {
            None => None,
            Some(kind) => match target_parts(trim(t)) {
                Err(_) => None,
                Ok((file, section)) => Some(
                    DirectiveView {
                        kind,
                        source_file: path,
                        source_section: section_before(headings, start as int),
                        target_file: resolved_target(path, file),
                        target_section: section,
                        span: (start, end),
                    },
                ),
            },
        },
{
    reveal_strlit("<!--");
    reveal_strlit("-->");
    let o = "<!--"@;
    let c = "-->"@;
    let body = k + seq![w] + t;
    let text = o + body + c;
    assert(text =~= "<!--"@ + k + seq![w] + t + "-->"@);
    assert(text[0] == '<');
    assert(text.last() == '>');
    assert(trim_start(text) == text);
    assert(trim(text) == text);
    assert(text.subrange(0, o.len() as int) =~= o);
    assert(text.subrange(text.len() - c.len(), text.len() as int) =~= c);
    assert(text.subrange(o.len() as int, text.len() - c.len()) =~= body);
    assert(body[0] == k[0]);
    assert(trim_start(body) == body);
    lemma_trim_end_concat(k, seq![w] + t);
    lemma_trim_end_concat(seq![w], t);
    assert(trim_end(seq![w]).len() == 0) by {
        let one = seq![w];
        assert(one.last() == w);
        assert(one.drop_last() =~= Seq::<char>::empty());
        assert(trim_end(Seq::<char>::empty()) == Seq::<char>::empty());
    }
    assert(k.last() == k[k.len() - 1]);
    assert(trim_end(k) == k);
    assert(body =~= k + (seq![w] + t));
    let inner = trim(body);
    lemma_trim_of_trim_end(t);
    assert(comment_body(text) == Some(inner));
    if trim_end(t).len() > 0 {
        assert(inner =~= k + seq![w] + trim_end(t));
        assert(inner[k.len() as int] == w);
        assert forall|j: int| 0 <= j < k.len() implies !unicode_white_space(#[trigger] inner[j]) by {
            assert(inner[j] == k[j]);
        }
        lemma_first_ws_at(inner, 0, k.len() as int);
        assert(inner.subrange(0, k.len() as int) =~= k);
        assert(k[0] == k[0]);
        assert(trim_start(k) == k);
        assert(inner.subrange(k.len() as int + 1, inner.len() as int) =~= trim_end(t));
        assert(split_body(inner) == (k, trim(t)));
    } else {
        assert(inner == k);
        lemma_first_ws_at(inner, 0, k.len() as int);
        assert(trim(trim_end(t)) =~= Seq::<char>::empty());
        assert(split_body(inner) == (k, trim(t)));
    }
}

fn kind_of_word(k: &String) -> (r: Option<DirectiveKind>)
    ensures
        r == kind_of_name(k@),
{
    if text_is(k, "constrained-by") {
        Some(DirectiveKind::ConstrainedBy)
    } else if text_is(k, "blocked-by") {
        Some(DirectiveKind::BlockedBy)
    } else if text_is(k, "supersedes") {
        Some(DirectiveKind::Supersedes)
    } else if text_is(k, "derived-from") {
        Some(DirectiveKind::DerivedFrom)
    } else {
        None
    }
}

/// Read the directive that the comment `text` at byte span `[start, end)` of
/// the file `path` declares, if it declares one.
#[verifier::rlimit(40)]
#[verifier::spinoff_prover]
pub fn parse_comment(
    text: &Vec<char>,
    path: &str,
    headings: &Vec<(usize, String)>,
    start: usize,
    end: usize,
) -> (r: Option<Directive>)
    ensures
        comment_directive(text@, path@, heading_pairs(headings@), start, end) == match r {
            Some(d) => Some(d@),
            None => None::<DirectiveView>,
        },
{
    let ghost spec_d = comment_directive(text@, path@, heading_pairs(headings@), start, end);
    let (lo, hi) = trim_bounds(text, 0, text.len());
    assert(text@.subrange(0, text.len() as int) =~= text@);
    let ghost t = text@.subrange(lo as int, hi as int);
    let open = chars_of("<!--");
    let close = chars_of("-->");
    let starts_open = has_prefix(text, lo, hi, &open);
    proof {
        if open.len() <= hi - lo {
            assert(t.subrange(0, open.len() as int) =~= text@.subrange(lo as int, lo + open.len()));
        }
    }
    if !starts_open {
        return None;
    }
    let a = lo + open.len();
    let ends_close = has_suffix(text, a, hi, &close);
    proof {
        if close.len() <= hi - a {
            assert(t.subrange(t.len() - close.len(), t.len() as int) =~= text@.subrange(
                hi - close.len(),
                hi as int,
            ));
        }
    }
    if !ends_close {
        return None;
    }
    let b = hi - close.len();
    assert(t.subrange(open.len() as int, t.len() - close.len()) =~= text@.subrange(a as int, b as int));
    let (ilo, ihi) = trim_bounds(text, a, b);
    let ghost inner = text@.subrange(ilo as int, ihi as int);
    assert(comment_body(text@) == Some(inner));
    let mut p = ilo;
    while p < ihi && !is_white_space(text[p])
        invariant
            ilo <= p <= ihi <= text.len(),
            forall|j: int| ilo <= j < p ==> !unicode_white_space(text@[j]),
        decreases ihi - p,
    {
        p = p + 1;
    }
    proof {
        assert forall|j: int| 0 <= j < p - ilo implies !unicode_white_space(inner[j]) by {
            assert(inner[j] == text@[ilo + j]);
        }
        if p < ihi {
            assert(inner[p - ilo] == text@[p as int]);
        }
        lemma_first_ws_at(inner, 0, p - ilo);
    }
    let (word, rest) = if p < ihi {
        let (klo, khi) = trim_bounds(text, ilo, p);
        let (rlo, rhi) = trim_bounds(text, p + 1, ihi);
        assert(inner.subrange(0, p - ilo) =~= text@.subrange(ilo as int, p as int));
        assert(inner.subrange(p - ilo + 1, inner.len() as int) =~= text@.subrange(p + 1, ihi as int));
        (string_of(text, klo, khi), string_of(text, rlo, rhi))
    } else {
        (string_of(text, ilo, ihi), String::new())
    };
    assert(split_body(inner) == (word@, rest@));
    let kind = match kind_of_word(&word) {
        Some(k) => k,
        None => return None,
    };
    let (target_file, target_section) = match parse_target(rest.as_str(), path) {
        Ok(pair) => pair,
        Err(_) => return None,
    };
    let source_section = source_section_for(headings.as_slice(), start);
    Some(
        Directive {
            kind,
            source_file: path.to_owned(),
            source_section,
            target_file,
            target_section,
            span: (start, end),
        },
    )
}

/// Collect the directives of a parsed document, in document order. Stops at
/// the first comment whose bytes are not valid UTF-8.
pub fn collect_directives(source: &[u8], nodes: &Vec<SyntaxNode>, path: &str) -> (r: Result<
    Vec<Directive>,
    ExtractError,
>)
    ensures
        result_agrees(r, document_directives(source@, syntax_view(nodes@), path@)),
        tree_placed(syntax_view(nodes@)) && blocks_flat(syntax_view(nodes@)) ==> (r matches Ok(ds)
            ==> spans_in_order(directives_view(ds@), source@.len() as int)),
{
    let ghost n = syntax_view(nodes@);
    let headings = collect_headings(source, nodes);
    let ghost hs = heading_pairs(headings@);
    let mut out: Vec<Directive> = Vec::new();
    let mut i: usize = 0;
    while i < nodes.len()
        invariant
            i <= nodes.len(),
            n == syntax_view(nodes@),
            hs == heading_pairs(headings@),
            hs == headings_of(source@, n),
            directives_upto(source@, n, path@, hs, i as int) matches Ok(ps) && all_agree(out@, ps),
        decreases nodes.len() - i,
    {
        let ghost ps = directives_upto(source@, n, path@, hs, i as int)->Ok_0;
        let node = &nodes[i];
        if node.start <= node.end && node.end <= source.len() && (text_is(
            &node.kind,
            "directive_comment",
        ) || (text_is(&node.kind, "html_block") && opens_comment_at(source, node.start, node.end))) {
            match span_chars(source, node.start, node.end) {
                None => {
                    proof {
                        lemma_error_persists(source@, n, path@, hs, i + 1, n.len() as int);
                    }
                    return Err(ExtractError::InvalidUtf8 { start: node.start, end: node.end });
                },
                Some(text) => {
                    let found = parse_comment(&text, path, &headings, node.start, node.end);
                    match found {
                        Some(d) => {
                            out.push(d);
                            assert(out@.last()@ == d@);
                        },
                        None => {},
                    }
                },
            }
        }
        i = i + 1;
    }
    proof {
        if tree_placed(n) && blocks_flat(n) {
            lemma_directives_in_document_order(source@, n, path@);
            lemma_agreeing_spans(out@, document_directives(source@, n, path@)->Ok_0, source@.len() as int);
        }
    }
    Ok(out)
}

/// Extract directive comments from a byte slice holding the Markdown file `path`.
pub fn extract_bytes(source: &[u8], path: &str) -> (r: Result<Vec<Directive>, ExtractError>)
    ensures
        match markdown_syntax(source@) {
            None => r == Err::<Vec<Directive>, ExtractError>(ExtractError::ParseFailed),
            Some(nodes) => result_agrees(r, document_directives(source@, nodes, path@)),
        },
        r matches Ok(ds) ==> spans_in_order(directives_view(ds@), source@.len() as int),
{
    match parse_markdown(source) {
        None => Err(ExtractError::ParseFailed),
        Some(nodes) => collect_directives(source, &nodes, path),
    }
}

/// The slugs of the headings of a document, in document order.
pub open spec fn heading_slugs(src: Seq<u8>, nodes: Seq<NodeV>) -> Seq<Seq<char>> {
    headings_of(src, nodes).map_values(|h: (usize, Seq<char>)| h.1)
}

/// Parse a markdown source buffer and return its heading slugs (for use in
/// cross-file anchor validation).
pub fn headings_in_file(source: &[u8]) -> (r: Result<Vec<String>, ExtractError>)
    ensures
        match markdown_syntax(source@) {
            None => r == Err::<Vec<String>, ExtractError>(ExtractError::ParseFailed),
            Some(nodes) => r matches Ok(v) && texts(v@) == heading_slugs(source@, nodes),
        },
{
    match parse_markdown(source) {
        None => Err(ExtractError::ParseFailed),
        Some(nodes) => {
            let headings = collect_headings(source, &nodes);
            let mut v: Vec<String> = Vec::new();
            let mut i: usize = 0;
            let ghost h = heading_pairs(headings@);
            while i < headings.len()
                invariant
                    i <= headings.len(),
                    h == heading_pairs(headings@),
                    texts(v@) == h.take(i as int).map_values(|p: (usize, Seq<char>)| p.1),
                decreases headings.len() - i,
            {
                let ghost before = texts(v@);
                let slug = headings[i].1.clone();
                assert(slug@ == h[i as int].1);
                v.push(slug);
                assert(texts(v@) =~= before.push(h[i as int].1));
                assert(h.take(i + 1).map_values(|p: (usize, Seq<char>)| p.1) =~= h.take(
                    i as int,
                ).map_values(|p: (usize, Seq<char>)| p.1).push(h[i as int].1));
                i = i + 1;
            }
            assert(h.take(i as int) =~= h);
            Ok(v)
        },
    }
}

} // verus!
