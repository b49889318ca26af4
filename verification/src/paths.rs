//! File paths as the sequences of components by which paths are compared:
//! repeated separators and `.` components (but a leading one) do not count.
//! Paths follow Unix syntax: `/` is the only separator and there are no
//! prefixes (drive letters or UNC names).

use vstd::prelude::*;

use crate::text::{lemma_text_lt_irreflexive, lemma_text_lt_total, lemma_text_lt_transitive, string_of, chars_of, text_lt, text_order};

verus! {

/// One component of a path.
#[derive(Debug)]
pub enum PathPart {
    /// The leading `/` of an absolute path.
    RootDir,
    /// A leading `.`.
    CurDir,
    /// `..`.
    ParentDir,
    /// Any other component.
    Normal(String),
}

/// A path component taken by its characters.
pub enum PartV {
    RootDir,
    CurDir,
    ParentDir,
    Normal(Seq<char>),
}

impl View for PathPart {
    type V = PartV;

    open spec fn view(&self) -> PartV {
        match self {
            PathPart::RootDir => PartV::RootDir,
            PathPart::CurDir => PartV::CurDir,
            PathPart::ParentDir => PartV::ParentDir,
            PathPart::Normal(s) => PartV::Normal(s@),
        }
    }
}

/// Components taken by their characters.
pub open spec fn parts_view(ps: Seq<PathPart>) -> Seq<PartV> {
    ps.map_values(|p: PathPart| p@)
}

/// What one `/`-separated piece of a path contributes: nothing for an empty
/// piece or `.`, a parent for `..`, itself otherwise.
pub open spec fn piece_parts(piece: Seq<char>) -> Seq<PartV> {
    if piece.len() == 0 || piece == seq!['.'] {
        seq![]
    } else if piece == seq!['.', '.'] {
        seq![PartV::ParentDir]
    } else {
        seq![PartV::Normal(piece)]
    }
}

/// The components contributed by the pieces of `s` from position `i` on,
/// the current piece having begun at `start`.
pub open spec fn pieces_from(s: Seq<char>, i: int, start: int) -> Seq<PartV>
    decreases s.len() - i,
{
    if i >= s.len() {
        piece_parts(s.subrange(start, s.len() as int))
    } else if s[i] == '/' {
        piece_parts(s.subrange(start, i)) + pieces_from(s, i + 1, i + 1)
    } else {
        pieces_from(s, i + 1, start)
    }
}

/// Whether the path starts with a `.` component (and has no root).
pub open spec fn leading_cur_dir(s: Seq<char>) -> bool {
    s.len() >= 1 && s[0] == '.' && (s.len() == 1 || s[1] == '/')
}

/// The components of a path in Unix syntax: a root for a leading `/`, a `.`
/// only at the very beginning of a relative path, then the non-empty pieces
/// between `/` separators other than `.`.
pub open spec fn path_parts(s: Seq<char>) -> Seq<PartV> {
    (if s.len() > 0 && s[0] == '/' {
        seq![PartV::RootDir]
    } else if leading_cur_dir(s) {
        seq![PartV::CurDir]
    } else {
        seq![]
    }) + pieces_from(s, 0, 0)
}

/// A piece of a path that names a file or directory: not empty, no `/` in
/// it, and neither `.` nor `..`.
pub open spec fn is_name_piece(x: Seq<char>) -> bool {
    &&& x.len() > 0
    &&& forall|i: int| 0 <= i < x.len() ==> #[trigger] x[i] != '/'
    &&& x != seq!['.']
    &&& x != seq!['.', '.']
}

/// Reading `p + "/" + x` (with no `/` in `x`) runs through `p` as reading `p`
/// does and then adds the parts of `x`.
proof fn lemma_pieces_append(p: Seq<char>, x: Seq<char>, i: int, start: int)
    requires
        0 <= start <= i <= p.len(),
        forall|j: int| 0 <= j < x.len() ==> #[trigger] x[j] != '/',
    ensures
        pieces_from(p + seq!['/'] + x, i, start) == pieces_from(p, i, start) + piece_parts(x),
    decreases p.len() - i,
{
    let s = p + seq!['/'] + x;
    if i == p.len() {
        assert(s[i] == '/');
        assert(s.subrange(start, i) =~= p.subrange(start, p.len() as int));
        lemma_pieces_tail(s, p.len() as int + 1, p.len() as int + 1);
        assert(s.subrange(p.len() as int + 1, s.len() as int) =~= x);
    } else {
        assert(s[i] == p[i]);
        lemma_pieces_append(p, x, i + 1, if p[i] == '/' { i + 1 } else { start });
        if p[i] == '/' {
            assert(s.subrange(start, i) =~= p.subrange(start, i));
        }
    }
}

/// From a position with no `/` after it, the rest is one piece.
proof fn lemma_pieces_tail(s: Seq<char>, i: int, start: int)
    requires
        0 <= start <= i <= s.len(),
        forall|j: int| i <= j < s.len() ==> #[trigger] s[j] != '/',
    ensures
        pieces_from(s, i, start) == piece_parts(s.subrange(start, s.len() as int)),
    decreases s.len() - i,
{
    if i < s.len() {
        lemma_pieces_tail(s, i + 1, start);
    }
}

/// Adding a piece to a non-empty path adds its component: a name adds itself,
/// `..` adds a parent component, and `.` or an empty piece adds nothing. So
/// paths that differ by a `..` never have the same components.
pub proof fn lemma_path_parts_append(p: Seq<char>, x: Seq<char>)
    requires
        p.len() > 0,
        forall|j: int| 0 <= j < x.len() ==> #[trigger] x[j] != '/',
    ensures
        is_name_piece(x) ==> path_parts(p + seq!['/'] + x) == path_parts(p).push(PartV::Normal(x)),
        x == seq!['.', '.'] ==> path_parts(p + seq!['/'] + x) == path_parts(p).push(PartV::ParentDir),
        x == seq!['.'] || x.len() == 0 ==> path_parts(p + seq!['/'] + x) == path_parts(p),
{
    let s = p + seq!['/'] + x;
    assert(s[0] == p[0]);
    if p.len() >= 2 {
        assert(s[1] == p[1]);
    } else {
        assert(s[1] == '/');
    }
    assert(leading_cur_dir(s) == leading_cur_dir(p));
    lemma_pieces_append(p, x, 0, 0);
    let head = if p.len() > 0 && p[0] == '/' {
        seq![PartV::RootDir]
    } else if leading_cur_dir(p) {
        seq![PartV::CurDir]
    } else {
        seq![]
    };
    if is_name_piece(x) {
        assert(piece_parts(x) == seq![PartV::Normal(x)]);
        assert(path_parts(s) =~= path_parts(p).push(PartV::Normal(x)));
    } else if x == seq!['.', '.'] {
        assert(path_parts(s) =~= path_parts(p).push(PartV::ParentDir));
    } else if x == seq!['.'] || x.len() == 0 {
        assert(path_parts(s) =~= path_parts(p));
    }
}

/// Paths that differ by a `..` piece are different places: `p/../x` and
/// `p/x` never have the same components.
pub proof fn lemma_parent_piece_is_kept(p: Seq<char>, x: Seq<char>)
    requires
        p.len() > 0,
        is_name_piece(x),
    ensures
        path_parts(p + seq!['/', '.', '.', '/'] + x) != path_parts(p + seq!['/'] + x),
{
    let q = p + seq!['/', '.', '.'];
    assert(p + seq!['/'] + seq!['.', '.'] =~= q);
    lemma_path_parts_append(p, seq!['.', '.']);
    lemma_path_parts_append(q, x);
    lemma_path_parts_append(p, x);
    assert(q + seq!['/'] + x =~= p + seq!['/', '.', '.', '/'] + x);
    assert(path_parts(q + seq!['/'] + x).len() == path_parts(p + seq!['/'] + x).len() + 1);
}

/// The rank of a component kind in the order of components.
pub open spec fn part_rank(p: PartV) -> int {
    match p {
        PartV::RootDir => 1,
        PartV::CurDir => 2,
        PartV::ParentDir => 3,
        PartV::Normal(_) => 4,
    }
}

/// The order of components: root, `.`, `..`, then other components by text.
pub open spec fn part_lt(a: PartV, b: PartV) -> bool {
    if part_rank(a) != part_rank(b) {
        part_rank(a) < part_rank(b)
    } else {
        match (a, b) {
            (PartV::Normal(x), PartV::Normal(y)) => text_lt(x, y),
            _ => false,
        }
    }
}

/// The lexicographic order of component sequences.
pub open spec fn parts_lt(a: Seq<PartV>, b: Seq<PartV>) -> bool
    decreases a.len(),
{
    if a.len() == 0 {
        b.len() > 0
    } else if b.len() == 0 {
        false
    } else if a[0] != b[0] {
        part_lt(a[0], b[0])
    } else {
        parts_lt(a.drop_first(), b.drop_first())
    }
}

proof fn lemma_part_lt_irreflexive(a: PartV)
    ensures
        !part_lt(a, a),
{
    if let PartV::Normal(x) = a {
        lemma_text_lt_irreflexive(x);
    }
}

proof fn lemma_part_lt_transitive(a: PartV, b: PartV, c: PartV)
    requires
        part_lt(a, b),
        part_lt(b, c),
    ensures
        part_lt(a, c),
{
    if let (PartV::Normal(x), PartV::Normal(y), PartV::Normal(z)) = (a, b, c) {
        lemma_text_lt_transitive(x, y, z);
    }
}

proof fn lemma_part_lt_total(a: PartV, b: PartV)
    ensures
        part_lt(a, b) || part_lt(b, a) || a == b,
{
    if let (PartV::Normal(x), PartV::Normal(y)) = (a, b) {
        lemma_text_lt_total(x, y);
    }
}

/// `parts_lt` is irreflexive.
pub proof fn lemma_parts_lt_irreflexive(a: Seq<PartV>)
    ensures
        !parts_lt(a, a),
    decreases a.len(),
{
    if a.len() > 0 {
        lemma_parts_lt_irreflexive(a.drop_first());
    }
}

/// `parts_lt` is transitive.
pub proof fn lemma_parts_lt_transitive(a: Seq<PartV>, b: Seq<PartV>, c: Seq<PartV>)
    requires
        parts_lt(a, b),
        parts_lt(b, c),
    ensures
        parts_lt(a, c),
    decreases a.len(),
{
    if a.len() > 0 && b.len() > 0 && c.len() > 0 {
        if a[0] == b[0] && b[0] == c[0] {
            lemma_parts_lt_transitive(a.drop_first(), b.drop_first(), c.drop_first());
        } else if a[0] != b[0] && b[0] != c[0] {
            lemma_part_lt_transitive(a[0], b[0], c[0]);
            if a[0] == c[0] {
                lemma_part_lt_transitive(b[0], c[0], b[0]);
                lemma_part_lt_irreflexive(b[0]);
            }
        }
    }
}

/// Any two component sequences are ordered one way or the other unless equal.
pub proof fn lemma_parts_lt_total(a: Seq<PartV>, b: Seq<PartV>)
    ensures
        parts_lt(a, b) || parts_lt(b, a) || a == b,
    decreases a.len(),
{
    if a.len() > 0 && b.len() > 0 {
        if a[0] == b[0] {
            lemma_parts_lt_total(a.drop_first(), b.drop_first());
            if a.drop_first() == b.drop_first() {
                assert(a.len() == a.drop_first().len() + 1);
                assert(b.len() == b.drop_first().len() + 1);
                assert forall|i: int| 0 <= i < a.len() implies a[i] == b[i] by {
                    if i > 0 {
                        assert(a[i] == a.drop_first()[i - 1]);
                        assert(b[i] == b.drop_first()[i - 1]);
                    }
                }
                assert(a =~= b);
            }
        } else {
            lemma_part_lt_total(a[0], b[0]);
        }
    } else if a.len() == 0 && b.len() == 0 {
        assert(a =~= b);
    }
}

fn piece_parts_of(s: &Vec<char>, lo: usize, hi: usize, out: &mut Vec<PathPart>)
    requires
        lo <= hi <= s.len(),
    ensures
        parts_view(final(out)@) == parts_view(old(out)@) + piece_parts(s@.subrange(lo as int, hi as int)),
{
    let ghost piece = s@.subrange(lo as int, hi as int);
    let ghost before = parts_view(out@);
    if hi == lo {
        assert(parts_view(out@) =~= before + piece_parts(piece));
        return;
    }
    if hi - lo == 1 && s[lo] == '.' {
        assert(piece =~= seq!['.']);
        assert(parts_view(out@) =~= before + piece_parts(piece));
        return;
    }
    if hi - lo == 2 && s[lo] == '.' && s[lo + 1] == '.' {
        assert(piece =~= seq!['.', '.']);
        out.push(PathPart::ParentDir);
        assert(parts_view(out@) =~= before + piece_parts(piece));
        return;
    }
    assert(piece != seq!['.']) by {
        if piece == seq!['.'] {
            assert(piece.len() == 1);
            assert(piece[0] == s@[lo as int]);
        }
    }
    assert(piece != seq!['.', '.']) by {
        if piece == seq!['.', '.'] {
            assert(piece.len() == 2);
            assert(piece[0] == s@[lo as int]);
            assert(piece[1] == s@[lo + 1]);
        }
    }
    assert(piece_parts(piece) == seq![PartV::Normal(piece)]);
    out.push(PathPart::Normal(string_of(s, lo, hi)));
    assert(parts_view(out@) =~= before + piece_parts(piece));
}

/// The components of the path written as `p`.
pub fn path_parts_of(p: &String) -> (r: Vec<PathPart>)
    ensures
        parts_view(r@) == path_parts(p@),
{
    let s = chars_of(p.as_str());
    let mut out: Vec<PathPart> = Vec::new();
    if s.len() > 0 && s[0] == '/' {
        out.push(PathPart::RootDir);
    } else if s.len() >= 1 && s[0] == '.' && (s.len() == 1 || s[1] == '/') {
        out.push(PathPart::CurDir);
    }
    let ghost head = parts_view(out@);
    assert(head =~= (if s@.len() > 0 && s@[0] == '/' {
        seq![PartV::RootDir]
    } else if leading_cur_dir(s@) {
        seq![PartV::CurDir]
    } else {
        seq![]
    }));
    let mut i: usize = 0;
    let mut start: usize = 0;
    while i < s.len()
        invariant
            start <= i <= s.len(),
            parts_view(out@) + pieces_from(s@, i as int, start as int) == head + pieces_from(
                s@,
                0,
                0,
            ),
        decreases s.len() - i,
    {
        if s[i] == '/' {
            let ghost before = parts_view(out@);
            piece_parts_of(&s, start, i, &mut out);
            assert(parts_view(out@) + pieces_from(s@, i + 1, i + 1) =~= before + pieces_from(
                s@,
                i as int,
                start as int,
            ));
            start = i + 1;
        }
        i = i + 1;
    }
    let ghost before = parts_view(out@);
    piece_parts_of(&s, start, s.len(), &mut out);
    assert(parts_view(out@) =~= before + pieces_from(s@, i as int, start as int));
    out
}

fn part_order(a: &PathPart, b: &PathPart) -> (r: i8)
    ensures
        r == -1 <==> part_lt(a@, b@),
        r == 0 <==> a@ == b@,
        r == 1 <==> part_lt(b@, a@),
        -1 <= r <= 1,
{
    proof {
        lemma_part_lt_irreflexive(a@);
        lemma_part_lt_total(a@, b@);
        if part_lt(a@, b@) && part_lt(b@, a@) {
            lemma_part_lt_transitive(a@, b@, a@);
        }
    }
    match (a, b) {
        (PathPart::Normal(x), PathPart::Normal(y)) => text_order(x, y),
        _ => {
            let ra: u8 = match a {
                PathPart::RootDir => 1,
                PathPart::CurDir => 2,
                PathPart::ParentDir => 3,
                PathPart::Normal(_) => 4,
            };
            let rb: u8 = match b {
                PathPart::RootDir => 1,
                PathPart::CurDir => 2,
                PathPart::ParentDir => 3,
                PathPart::Normal(_) => 4,
            };
            if ra < rb {
                -1
            } else if ra > rb {
                1
            } else {
                0
            }
        },
    }
}

proof fn lemma_parts_lt_skip(a: Seq<PartV>, b: Seq<PartV>, i: int)
    requires
        0 <= i <= a.len(),
        i <= b.len(),
        a.subrange(0, i) == b.subrange(0, i),
    ensures
        parts_lt(a, b) == parts_lt(a.subrange(i, a.len() as int), b.subrange(i, b.len() as int)),
        parts_lt(b, a) == parts_lt(b.subrange(i, b.len() as int), a.subrange(i, a.len() as int)),
    decreases i,
{
    if i > 0 {
        assert(a[0] == a.subrange(0, i)[0]);
        assert(b[0] == b.subrange(0, i)[0]);
        assert(a.drop_first().subrange(0, i - 1) =~= a.subrange(0, i).drop_first());
        assert(b.drop_first().subrange(0, i - 1) =~= b.subrange(0, i).drop_first());
        lemma_parts_lt_skip(a.drop_first(), b.drop_first(), i - 1);
        assert(a.drop_first().subrange(i - 1, a.len() - 1) =~= a.subrange(i, a.len() as int));
        assert(b.drop_first().subrange(i - 1, b.len() - 1) =~= b.subrange(i, b.len() as int));
    } else {
        assert(a.subrange(0, a.len() as int) =~= a);
        assert(b.subrange(0, b.len() as int) =~= b);
    }
}

/// Compares two paths by their components (Unix syntax): -1, 0 or 1, as
/// `PathBuf`'s order does on Unix.
pub fn path_order(a: &String, b: &String) -> (r: i8)
    ensures
        r == -1 <==> parts_lt(path_parts(a@), path_parts(b@)),
        r == 0 <==> path_parts(a@) == path_parts(b@),
        r == 1 <==> parts_lt(path_parts(b@), path_parts(a@)),
        -1 <= r <= 1,
{
    let x = path_parts_of(a);
    let y = path_parts_of(b);
    let ghost xv = parts_view(x@);
    let ghost yv = parts_view(y@);
    let mut i: usize = 0;
    while i < x.len() && i < y.len() && part_order(&x[i], &y[i]) == 0
        invariant
            i <= x.len(),
            i <= y.len(),
            xv == parts_view(x@),
            yv == parts_view(y@),
            xv.subrange(0, i as int) == yv.subrange(0, i as int),
        decreases x.len() - i,
    {
        assert(xv.subrange(0, i + 1) =~= xv.subrange(0, i as int).push(xv[i as int]));
        assert(yv.subrange(0, i + 1) =~= yv.subrange(0, i as int).push(yv[i as int]));
        i = i + 1;
    }
    proof {
        lemma_parts_lt_skip(xv, yv, i as int);
        lemma_parts_lt_irreflexive(xv);
        lemma_parts_lt_total(xv, yv);
        if parts_lt(xv, yv) && parts_lt(yv, xv) {
            lemma_parts_lt_transitive(xv, yv, xv);
        }
    }
    if i == x.len() && i == y.len() {
        assert(xv =~= xv.subrange(0, i as int));
        assert(yv =~= yv.subrange(0, i as int));
        0
    } else if i == x.len() {
        assert(xv.subrange(i as int, xv.len() as int).len() == 0);
        -1
    } else if i == y.len() {
        assert(yv.subrange(i as int, yv.len() as int).len() == 0);
        1
    } else {
        let r = part_order(&x[i], &y[i]);
        assert(xv[i as int] == x@[i as int]@);
        assert(yv[i as int] == y@[i as int]@);
        assert(xv.subrange(i as int, xv.len() as int)[0] == xv[i as int]);
        assert(yv.subrange(i as int, yv.len() as int)[0] == yv[i as int]);
        r
    }
}

} // verus!
