//! Directive targets: parsing the written target and checking it against the
//! files it names.

use vstd::prelude::*;

use crate::anchor::{slug_of, slugify_range};
use crate::extract::{heading_slugs, headings_in_file};
use crate::syntax::markdown_syntax;
use crate::text::{
    chars_of, contains_text, string_of, texts, trim, trim_bounds, trim_end, trim_start,
    unicode_white_space,
};
use crate::{clone_opt_text, opt_text, Directive, DirectiveView, ResolveError, ResolveErrorView};

verus! {

/// Text with its leading `#` characters removed.
pub open spec fn trim_hashes(s: Seq<char>) -> Seq<char>
    decreases s.len(),
{
    if s.len() > 0 && s[0] == '#' {
        trim_hashes(s.drop_first())
    } else {
        s
    }
}

/// The first index at or after `i` where `c` occurs in `s`.
pub open spec fn first_index_from(s: Seq<char>, c: char, i: int) -> Option<int>
    decreases s.len() - i,
{
    if i < 0 || i >= s.len() {
        None
    } else if s[i] == c {
        Some(i)
    } else {
        first_index_from(s, c, i + 1)
    }
}

/// The slug of a section anchor, or none when the anchor is empty.
pub open spec fn anchor_slug(sec: Seq<char>) -> Option<Seq<char>> {
    if sec.len() == 0 {
        None
    } else {
        Some(slug_of(sec))
    }
}

/// How a written target splits into a relative path (not yet resolved against
/// the directive's file) and a section slug:
///   `path/to/doc.md#section name` → (path, slug), `path/to/doc.md` → (path,
///   none), `#section name` → (none, slug); an empty target or anchor is
///   malformed and an absolute path is refused.
pub open spec fn target_parts(raw: Seq<char>) -> Result<
    (Option<Seq<char>>, Option<Seq<char>>),
    ResolveErrorView,
> {
    let r = trim(raw);
    if r.len() == 0 {
        Err(ResolveErrorView::MalformedTarget(r))
    } else if r[0] == '#' {
        let sec = trim(trim_hashes(r));
        if sec.len() == 0 {
            Err(ResolveErrorView::MalformedTarget(r))
        } else {
            Ok((None, Some(slug_of(sec))))
        }
    } else if r[0] == '/' {
        Err(ResolveErrorView::AbsolutePath(r))
    } else {
        match first_index_from(r, '#', 0) {
            Some(i) => Ok((Some(r.subrange(0, i)), anchor_slug(trim(r.subrange(i + 1, r.len() as int))))),
            None => Ok((Some(r), None)),
        }
    }
}

proof fn lemma_trim_hashes_at(s: Seq<char>, k: int)
    requires
        0 <= k <= s.len(),
        forall|i: int| 0 <= i < k ==> s[i] == '#',
        k == s.len() || s[k] != '#',
    ensures
        trim_hashes(s) == s.subrange(k, s.len() as int),
    decreases k,
{
    if k == 0 {
        assert(s.subrange(0, s.len() as int) =~= s);
    } else {
        let t = s.drop_first();
        assert forall|i: int| 0 <= i < k - 1 implies t[i] == '#' by {
            assert(t[i] == s[i + 1]);
        }
        if k < s.len() {
            assert(t[k - 1] == s[k]);
        }
        lemma_trim_hashes_at(t, k - 1);
        assert(t.subrange(k - 1, t.len() as int) =~= s.subrange(k, s.len() as int));
    }
}

proof fn lemma_first_index_at(s: Seq<char>, c: char, i: int, k: int)
    requires
        0 <= i <= k <= s.len(),
        forall|j: int| i <= j < k ==> s[j] != c,
        k == s.len() || s[k] == c,
    ensures
        first_index_from(s, c, i) == (if k == s.len() {
            None::<int>
        } else {
            Some(k)
        }),
    decreases k - i,
{
    if i < k {
        lemma_first_index_at(s, c, i + 1, k);
    }
}

/// The written forms of a target: for a path `p` (not empty, not starting
/// with white space, `/` or `#`, and holding no `#`) and a section text `sec`
/// (not ending in white space):
/// - `p` alone is that path with no section;
/// - `p#sec` is that path with the slug of all of `sec`, trimmed (spaces and
///   further `#` included), or no section when `sec` is blank;
/// - `#sec` (with `sec` not starting with `#`) is a section of the same file
///   with that slug, or a malformed target when `sec` is blank.
pub proof fn lemma_target_forms(p: Seq<char>, sec: Seq<char>)
    requires
        p.len() > 0,
        !unicode_white_space(p[0]),
        p[0] != '/',
        p[0] != '#',
        forall|i: int| 0 <= i < p.len() ==> #[trigger] p[i] != '#',
        sec.len() == 0 || !unicode_white_space(sec.last()),
    ensures
        !unicode_white_space(p.last()) ==> target_parts(p) == Ok::<
            (Option<Seq<char>>, Option<Seq<char>>),
            ResolveErrorView,
        >((Some(p), None)),
        target_parts(p + seq!['#'] + sec) == Ok::<
            (Option<Seq<char>>, Option<Seq<char>>),
            ResolveErrorView,
        >(
            (
                Some(p),
                if trim(sec).len() == 0 {
                    None
                } else {
                    Some(slug_of(trim(sec)))
                },
            ),
        ),
        sec.len() == 0 || sec[0] != '#' ==> target_parts(seq!['#'] + sec) == if trim(sec).len() == 0 {
            Err::<(Option<Seq<char>>, Option<Seq<char>>), ResolveErrorView>(
                ResolveErrorView::MalformedTarget(seq!['#'] + sec),
            )
        } else {
            Ok((None, Some(slug_of(trim(sec)))))
        },
{
    // `p` alone.
    assert(trim_start(p) == p);
    if !unicode_white_space(p.last()) {
        assert(trim_end(p) == p);
        lemma_first_index_at(p, '#', 0, p.len() as int);
    }
    // `p#sec`.
    let r = p + seq!['#'] + sec;
    assert(r[0] == p[0]);
    assert(trim_start(r) == r);
    if sec.len() > 0 {
        assert(r.last() == sec.last());
    } else {
        assert(r.last() == '#');
    }
    assert(trim_end(r) == r);
    assert forall|j: int| 0 <= j < p.len() implies #[trigger] r[j] != '#' by {
        assert(r[j] == p[j]);
    }
    assert(r[p.len() as int] == '#');
    lemma_first_index_at(r, '#', 0, p.len() as int);
    assert(r.subrange(0, p.len() as int) =~= p);
    assert(r.subrange(p.len() as int + 1, r.len() as int) =~= sec);
    // `#sec`.
    let h = seq!['#'] + sec;
    assert(h[0] == '#');
    assert(trim_start(h) == h);
    if sec.len() > 0 {
        assert(h.last() == sec.last());
    } else {
        assert(h.last() == '#');
    }
    assert(trim_end(h) == h);
    if sec.len() == 0 || sec[0] != '#' {
        assert forall|i: int| 0 <= i < 1 implies h[i] == '#' by {}
        if sec.len() > 0 {
            assert(h[1] == sec[0]);
        }
        lemma_trim_hashes_at(h, 1);
        assert(h.subrange(1, h.len() as int) =~= sec);
    }
}

/// Optional results of target parsing taken by their characters.
pub open spec fn parts_view(p: (Option<String>, Option<String>)) -> (Option<Seq<char>>, Option<
    Seq<char>,
>) {
    (crate::opt_text(p.0), crate::opt_text(p.1))
}

/// A parse result taken by its characters.
pub open spec fn parts_result_view(
    r: Result<(Option<String>, Option<String>), ResolveError>,
) -> Result<(Option<Seq<char>>, Option<Seq<char>>), ResolveErrorView> {
    match r {
        Ok(p) => Ok(parts_view(p)),
        Err(e) => Err(e@),
    }
}

/// Split a written target into its relative path (as written, not resolved)
/// and its section slug; see `target_parts`.
pub fn split_target(raw: &str) -> (r: Result<(Option<String>, Option<String>), ResolveError>)
    ensures
        parts_result_view(r) == target_parts(raw@),
{
    let v = chars_of(raw);
    let (lo, hi) = trim_bounds(&v, 0, v.len());
    assert(v@.subrange(0, v.len() as int) =~= v@);
    let ghost r = v@.subrange(lo as int, hi as int);
    if lo == hi {
        return Err(ResolveError::MalformedTarget(string_of(&v, lo, hi)));
    }
    assert(r[0] == v@[lo as int]);
    if v[lo] == '#' {
        let mut h = lo;
        while h < hi && v[h] == '#'
            invariant
                lo <= h <= hi <= v.len(),
                forall|i: int| lo <= i < h ==> v@[i] == '#',
            decreases hi - h,
        {
            h = h + 1;
        }
        proof {
            assert forall|i: int| 0 <= i < h - lo implies r[i] == '#' by {
                assert(r[i] == v@[lo + i]);
            }
            if h < hi {
                assert(r[h - lo] == v@[h as int]);
            }
            lemma_trim_hashes_at(r, h - lo);
            assert(r.subrange(h - lo, r.len() as int) =~= v@.subrange(h as int, hi as int));
        }
        let (slo, shi) = trim_bounds(&v, h, hi);
        if slo == shi {
            return Err(ResolveError::MalformedTarget(string_of(&v, lo, hi)));
        }
        return Ok((None, Some(slugify_range(&v, slo, shi))));
    }
    if v[lo] == '/' {
        return Err(ResolveError::AbsolutePath(string_of(&v, lo, hi)));
    }
    let mut k = lo;
    while k < hi && v[k] != '#'
        invariant
            lo <= k <= hi <= v.len(),
            forall|i: int| lo <= i < k ==> v@[i] != '#',
        decreases hi - k,
    {
        k = k + 1;
    }
    proof {
        assert forall|i: int| 0 <= i < k - lo implies r[i] != '#' by {
            assert(r[i] == v@[lo + i]);
        }
        if k < hi {
            assert(r[k - lo] == v@[k as int]);
        }
        lemma_first_index_at(r, '#', 0, k - lo);
    }
    if k == hi {
        return Ok((Some(string_of(&v, lo, hi)), None));
    }
    assert(r.subrange(0, k - lo) =~= v@.subrange(lo as int, k as int));
    assert(r.subrange(k - lo + 1, r.len() as int) =~= v@.subrange(k + 1, hi as int));
    let path = string_of(&v, lo, k);
    let (slo, shi) = trim_bounds(&v, k + 1, hi);
    if slo == shi {
        Ok((Some(path), None))
    } else {
        Ok((Some(path), Some(slugify_range(&v, slo, shi))))
    }
}

/// The text of the parent directory that `std::path::Path::parent` gives for
/// the path written as `p`; none where the path ends in a root or prefix or is
/// empty. It follows the path syntax of the target the crate is built for,
/// which is fixed when the crate is built.
pub uninterp spec fn std_path_parent(p: Seq<char>) -> Option<Seq<char>>;

/// The text of the path that `std::path::Path::join` gives for `rel` adjoined
/// to `base` (an absolute `rel` replaces `base`). It follows the path syntax
/// of the target the crate is built for, which is fixed when the crate is
/// built.
pub uninterp spec fn std_path_join(base: Seq<char>, rel: Seq<char>) -> Seq<char>;

/// `std::path::Path::parent` of the path written as `p`, written back as text
/// (lossless: a path made from text stays text). Claimed: the result is
/// `std_path_parent` of `p`, a function of `p` alone.
#[verifier::external_body]
fn path_parent(p: &str) -> (r: Option<String>)
    ensures
        crate::opt_text(r) == std_path_parent(p@),
{
    match std::path::Path::new(p).parent() {
        Some(d) => Some(d.to_string_lossy().into_owned()),
        None => None,
    }
}

/// `std::path::Path::join` of the paths written as `base` and `rel`, written
/// back as text (lossless, as above). Claimed: the result is `std_path_join`
/// of `base` and `rel`, a function of the two alone.
#[verifier::external_body]
fn path_join(base: &str, rel: &str) -> (r: String)
    ensures
        r@ == std_path_join(base@, rel@),
{
    std::path::Path::new(base).join(rel).to_string_lossy().into_owned()
}

/// The directory against which a path written in `source_file` is taken: its
/// parent, or `.` when it has none.
pub open spec fn base_dir(source_file: Seq<char>) -> Seq<char> {
    match std_path_parent(source_file) {
        Some(d) => d,
        None => "."@,
    }
}

/// A written target path, if any, resolved against the directory of
/// `source_file`.
pub open spec fn resolved_target(source_file: Seq<char>, path: Option<Seq<char>>) -> Option<
    Seq<char>,
> {
    match path {
        Some(p) => Some(std_path_join(base_dir(source_file), p)),
        None => None,
    }
}

/// The path `raw` taken relative to the directory of `source_file` (or to `.`
/// when `source_file` has no parent).
pub fn resolve_path(raw: &str, source_file: &str) -> (r: String)
    ensures
        r@ == std_path_join(base_dir(source_file@), raw@),
{
    let base = match path_parent(source_file) {
        Some(p) => p,
        None => ".".to_owned(),
    };
    path_join(base.as_str(), raw)
}

/// Parse a raw target string (from the directive comment) into
/// (optional_path, optional_anchor), the path resolved against the directory
/// of `source_file`.
///
/// Accepted forms:
///   `path/to/doc.md#section name` → (Some(path), Some(slug))
///   `path/to/doc.md`              → (Some(path), None)
///   `#section name`               → (None, Some(slug))
pub fn parse_target(raw: &str, source_file: &str) -> (r: Result<
    (Option<String>, Option<String>),
    ResolveError,
>)
    ensures
        match (r, target_parts(raw@)) {
            (Ok((file, section)), Ok((path, slug))) => {
                &&& crate::opt_text(file) == resolved_target(source_file@, path)
                &&& crate::opt_text(section) == slug
            },
            (Err(e), Err(e2)) => e@ == e2,
            _ => false,
        },
{
    match split_target(raw) {
        Ok((Some(path), section)) => Ok((Some(resolve_path(path.as_str(), source_file)), section)),
        Ok((None, section)) => Ok((None, section)),
        Err(e) => Err(e),
    }
}

/// Whether `section` is among the heading slugs `slugs` of `target_file`.
pub open spec fn section_result(file: Seq<char>, section: Seq<char>, slugs: Seq<Seq<char>>) -> Result<
    (),
    ResolveErrorView,
> {
    if slugs.contains(section) {
        Ok(())
    } else {
        Err(ResolveErrorView::MissingSection { file, section })
    }
}

/// A check result taken by its characters.
pub open spec fn check_view(r: Result<(), ResolveError>) -> Result<(), ResolveErrorView> {
    match r {
        Ok(()) => Ok(()),
        Err(e) => Err(e@),
    }
}

/// Check that `section` is one of the heading slugs `slugs` of `target_file`.
pub fn check_section(target_file: &str, section: &str, slugs: &Vec<String>) -> (r: Result<
    (),
    ResolveError,
>)
    ensures
        check_view(r) == section_result(target_file@, section@, texts(slugs@)),
{
    let s = section.to_owned();
    if contains_text(slugs, &s) {
        Ok(())
    } else {
        Err(ResolveError::MissingSection { file: target_file.to_owned(), section: s })
    }
}


/// Check that the target file exists and, if a section is given, that the
/// section slug is one of its heading slugs. `contents` is `None` when the
/// file does not exist or could not be read; when no section is given it is
/// not looked at beyond that. A file that the parser gives no tree for counts
/// as missing.
pub fn validate_target(target_file: &str, target_section: Option<&str>, contents: Option<&[u8]>) -> (r: Result<
    (),
    ResolveError,
>)
    ensures
        check_view(r) == match (contents, target_section) {
            (None, _) => Err(ResolveErrorView::MissingFile(target_file@)),
            (Some(_), None) => Ok(()),
            (Some(b), Some(s)) => match markdown_syntax(b@) {
                None => Err(ResolveErrorView::MissingFile(target_file@)),
                Some(nodes) => section_result(target_file@, s@, heading_slugs(b@, nodes)),
            },
        },
{
    let bytes = match contents {
        None => return Err(ResolveError::MissingFile(target_file.to_owned())),
        Some(b) => b,
    };
    match target_section {
        None => Ok(()),
        Some(section) => match headings_in_file(bytes) {
            Err(_) => Err(ResolveError::MissingFile(target_file.to_owned())),
            Ok(slugs) => check_section(target_file, section, &slugs),
        },
    }
}

/// What a directive asks to check: its target file with its target section;
/// for a same-file anchor, its own file with that section; nothing for a
/// directive with neither a target file nor a section.
pub open spec fn validation_of(d: DirectiveView) -> Option<(Seq<char>, Option<Seq<char>>)> {
    match d.target_file {
        Some(f) => Some((f, d.target_section)),
        None => match d.target_section {
            Some(s) => Some((d.source_file, Some(s))),
            None => None,
        },
    }
}

/// The file and section to check for the directive `d` (see `validation_of`).
pub fn validation_target(d: &Directive) -> (r: Option<(String, Option<String>)>)
    ensures
        validation_of(d@) == match r {
            Some((file, section)) => Some((file@, opt_text(section))),
            None => None::<(Seq<char>, Option<Seq<char>>)>,
        },
{
    match &d.target_file {
        Some(f) => Some((f.clone(), clone_opt_text(&d.target_section))),
        None => match &d.target_section {
            Some(s) => Some((d.source_file.clone(), Some(s.clone()))),
            None => None,
        },
    }
}

} // verus!
