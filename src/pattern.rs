//! Source path patterns: literal text mixed with named captures, and the
//! matcher that runs them against request paths.
//!
//! A capture `(name)` takes one or more characters other than `/`, as many
//! as it can; a capture `(name..)` takes one or more characters of any kind,
//! as few as it can. Where a choice fails later on, the next one is tried.

use vstd::prelude::*;
use crate::text::{chars_range, is_digit, occurs_at};

verus! {

/// One piece of a source path.
#[derive(Debug, Clone, PartialEq, Eq)]
pub enum PathPiece {
    /// Text that must appear as it is.
    Literal(Vec<char>),
    /// `(name)`, or `(name..)` when `spans_slashes` holds.
    Capture { name: Vec<char>, spans_slashes: bool },
}

/// A path piece with its text as character sequences.
pub enum PieceView {
    Literal(Seq<char>),
    Capture { name: Seq<char>, spans_slashes: bool },
}

impl View for PathPiece {
    type V = PieceView;

    open spec fn view(&self) -> PieceView {
        match self {
            PathPiece::Literal(t) => PieceView::Literal(t@),
            PathPiece::Capture { name, spans_slashes } => PieceView::Capture {
                name: name@,
                spans_slashes: *spans_slashes,
            },
        }
    }
}

/// The views of a sequence of pieces.
pub open spec fn pieces_view(ps: Seq<PathPiece>) -> Seq<PieceView> {
    ps.map_values(|p: PathPiece| p@)
}

/// The name of a capture piece.
pub open spec fn piece_name(p: PieceView) -> Seq<char> {
    match p {
        PieceView::Capture { name, .. } => name,
        PieceView::Literal(_) => Seq::empty(),
    }
}

pub open spec fn is_capture(p: PieceView) -> bool {
    p is Capture
}

pub open spec fn is_name_start(c: char) -> bool {
    ('a' <= c && c <= 'z') || ('A' <= c && c <= 'Z')
}

pub open spec fn is_name_char(c: char) -> bool {
    is_name_start(c) || is_digit(c) || c == '_' || c == '-'
}

/// How many name characters follow from index `j` on.
pub open spec fn name_run(s: Seq<char>, j: int) -> nat
    decreases s.len() - j,
{
    if 0 <= j < s.len() && is_name_char(s[j]) {
        1 + name_run(s, j + 1)
    } else {
        0
    }
}

/// The capture token that starts at index `i` of `s`, if one does:
/// `(NAME)` or `(NAME..)` with `NAME` a letter followed by letters, digits,
/// `_` or `-`. Gives the name, whether it spans slashes, and the index just
/// after the token.
pub open spec fn token_at(s: Seq<char>, i: int) -> Option<(Seq<char>, bool, int)> {
    if 0 <= i && i + 1 < s.len() && s[i] == '(' && is_name_start(s[i + 1]) {
        let e = i + 1 + name_run(s, i + 1);
        if e < s.len() && s[e] == ')' {
            Some((s.subrange(i + 1, e), false, e + 1))
        } else if e + 2 < s.len() && s[e] == '.' && s[e + 1] == '.' && s[e + 2] == ')' {
            Some((s.subrange(i + 1, e), true, e + 3))
        } else {
            None
        }
    } else {
        None
    }
}

/// The pieces of `s` from index `i` on, where the literal text that is
/// pending began at `lit`.
pub open spec fn pieces_from(s: Seq<char>, lit: int, i: int) -> Seq<PieceView>
    decreases s.len() - i,
{
    if i < 0 || i >= s.len() {
        seq![PieceView::Literal(s.subrange(lit, s.len() as int))]
    } else {
        match token_at(s, i) {
            Some((name, spans_slashes, e)) => {
                let before = if i > lit {
                    seq![PieceView::Literal(s.subrange(lit, i))]
                } else {
                    Seq::empty()
                };
                before + seq![PieceView::Capture { name, spans_slashes }] + pieces_from(s, e, e)
            },
            None => pieces_from(s, lit, i + 1),
        }
    }
}

/// The pieces of a source path: literal runs and captures, in order, ending
/// with the (possibly empty) literal text after the last capture.
pub open spec fn pieces_of(s: Seq<char>) -> Seq<PieceView> {
    pieces_from(s, 0, 0)
}

/// Whether any piece is a capture.
pub open spec fn has_capture(ps: Seq<PieceView>) -> bool {
    exists|i: int| 0 <= i < ps.len() && is_capture(#[trigger] ps[i])
}

/// No two captures share a name.
pub open spec fn names_distinct(ps: Seq<PieceView>) -> bool {
    forall|i: int, j: int|
        0 <= i < j < ps.len() && is_capture(#[trigger] ps[i]) && is_capture(#[trigger] ps[j])
            ==> piece_name(ps[i]) != piece_name(ps[j])
}

/// How many characters other than `/` follow from index `pos` on.
pub open spec fn slash_free_run(s: Seq<char>, pos: int) -> nat
    decreases s.len() - pos,
{
    if 0 <= pos < s.len() && s[pos] != '/' {
        1 + slash_free_run(s, pos + 1)
    } else {
        0
    }
}

/// A capture that was matched: the index of its piece and the range of the
/// path that it took.
pub type Span = (usize, usize, usize);

/// The outcome of matching pieces `k..` against `path` from `pos` on: the
/// captures taken, with the index where the match ends; `None` where no
/// choice of the captures lets every piece match.
pub open spec fn match_at(
    ps: Seq<PieceView>,
    k: int,
    path: Seq<char>,
    pos: int,
    exact: bool,
) -> Option<(Seq<(int, int, int)>, int)>
    decreases ps.len() - k, 1int, 0int,
{
    if k < 0 || pos < 0 || pos > path.len() {
        None
    } else if k >= ps.len() {
        if exact && pos != path.len() {
            None
        } else {
            Some((Seq::empty(), pos))
        }
    } else {
        match ps[k] {
            PieceView::Literal(l) => {
                if pos + l.len() <= path.len() && path.subrange(pos, pos + l.len()) == l {
                    match_at(ps, k + 1, path, pos + l.len(), exact)
                } else {
                    None
                }
            },
            PieceView::Capture { spans_slashes, .. } => {
                if spans_slashes {
                    match_longer(ps, k, path, pos, exact, 1)
                } else {
                    match_shorter(ps, k, path, pos, exact, slash_free_run(path, pos))
                }
            },
        }
    }
}

/// Capture `k` takes `len` characters, or fewer where that fails.
pub open spec fn match_shorter(
    ps: Seq<PieceView>,
    k: int,
    path: Seq<char>,
    pos: int,
    exact: bool,
    len: nat,
) -> Option<(Seq<(int, int, int)>, int)>
    decreases ps.len() - k, 0int, len,
{
    if len == 0 || k < 0 || k >= ps.len() {
        None
    } else {
        match match_at(ps, k + 1, path, pos + len, exact) {
            Some((spans, end)) => Some((seq![(k, pos, pos + len)] + spans, end)),
            None => match_shorter(ps, k, path, pos, exact, (len - 1) as nat),
        }
    }
}

/// Capture `k` takes `len` characters, or more where that fails.
pub open spec fn match_longer(
    ps: Seq<PieceView>,
    k: int,
    path: Seq<char>,
    pos: int,
    exact: bool,
    len: int,
) -> Option<(Seq<(int, int, int)>, int)>
    decreases ps.len() - k, 0int, path.len() + 1 - pos - len,
{
    if len < 1 || k < 0 || k >= ps.len() || pos + len > path.len() {
        None
    } else {
        match match_at(ps, k + 1, path, pos + len, exact) {
            Some((spans, end)) => Some((seq![(k, pos, pos + len)] + spans, end)),
            None => match_longer(ps, k, path, pos, exact, len + 1),
        }
    }
}

/// The spans of a match, as integers.
pub open spec fn spans_view(v: Seq<Span>) -> Seq<(int, int, int)> {
    v.map_values(|t: Span| (t.0 as int, t.1 as int, t.2 as int))
}

/// Every span names a capture piece and a range of the path.
pub open spec fn spans_valid(ps: Seq<PieceView>, path: Seq<char>, v: Seq<(int, int, int)>) -> bool {
    forall|i: int|
        0 <= i < v.len() ==> {
            let t = #[trigger] v[i];
            &&& 0 <= t.0 < ps.len()
            &&& is_capture(ps[t.0])
            &&& 0 <= t.1 <= t.2 <= path.len()
        }
}


fn is_name_start_char(c: char) -> (r: bool)
    ensures
        r == is_name_start(c),
{
    ('a' <= c && c <= 'z') || ('A' <= c && c <= 'Z')
}

fn is_name_char_exec(c: char) -> (r: bool)
    ensures
        r == is_name_char(c),
{
    is_name_start_char(c) || ('0' <= c && c <= '9') || c == '_' || c == '-'
}

/// The index just after the run of name characters that starts at `j`.
fn name_end(v: &[char], j: usize) -> (r: usize)
    requires
        j <= v@.len(),
    ensures
        r == j + name_run(v@, j as int),
        r <= v@.len(),
{
    let mut i = j;
    while i < v.len() && is_name_char_exec(v[i])
        invariant
            j <= i <= v@.len(),
            j + name_run(v@, j as int) == i + name_run(v@, i as int),
        decreases v@.len() - i,
    {
        i += 1;
    }
    i
}

/// The capture token at index `i`: where its name ends, whether it spans
/// slashes, and the index just after it.
pub fn token_at_index(v: &[char], i: usize) -> (r: Option<(usize, bool, usize)>)
    requires
        i < v@.len(),
    ensures
        match r {
            Some((ne, b, e)) => {
                &&& token_at(v@, i as int) == Some((v@.subrange(i + 1, ne as int), b, e as int))
                &&& i + 1 <= ne < e <= v@.len()
            },
            None => token_at(v@, i as int) is None,
        },
{
    let n = v.len();
    if i + 1 < n && v[i] == '(' && is_name_start_char(v[i + 1]) {
        let e = name_end(v, i + 1);
        if e < n && v[e] == ')' {
            Some((e, false, e + 1))
        } else if n - e > 2 && v[e] == '.' && v[e + 1] == '.' && v[e + 2] == ')' {
            Some((e, true, e + 3))
        } else {
            None
        }
    } else {
        None
    }
}

/// Splits a source path into literal runs and captures.
pub fn parse_path(s: &[char]) -> (r: Vec<PathPiece>)
    ensures
        pieces_view(r@) == pieces_of(s@),
{
    let mut r: Vec<PathPiece> = Vec::new();
    let mut lit: usize = 0;
    let mut i: usize = 0;
    while i < s.len()
        invariant
            lit <= i <= s@.len(),
            pieces_view(r@) + pieces_from(s@, lit as int, i as int) == pieces_of(s@),
        decreases s@.len() - i,
    {
        match token_at_index(s, i) {
            Some((ne, b, e)) => {
                let ghost before = if i > lit {
                    seq![PieceView::Literal(s@.subrange(lit as int, i as int))]
                } else {
                    Seq::empty()
                };
                let ghost old_r = r@;
                let ghost cap = PieceView::Capture { name: s@.subrange(i + 1, ne as int), spans_slashes: b };
                if i > lit {
                    r.push(PathPiece::Literal(chars_range(s, lit, i)));
                }
                r.push(PathPiece::Capture { name: chars_range(s, i + 1, ne), spans_slashes: b });
                assert(pieces_view(r@) =~= pieces_view(old_r) + before + seq![cap]);
                assert(pieces_from(s@, lit as int, i as int) == before + seq![cap] + pieces_from(
                    s@,
                    e as int,
                    e as int,
                ));
                assert(pieces_view(r@) + pieces_from(s@, e as int, e as int) =~= pieces_view(old_r)
                    + pieces_from(s@, lit as int, i as int));
                lit = e;
                i = e;
            },
            None => {
                i += 1;
            },
        }
    }
    let ghost old_r = r@;
    r.push(PathPiece::Literal(chars_range(s, lit, s.len())));
    assert(pieces_view(r@) =~= pieces_view(old_r) + pieces_from(s@, lit as int, i as int));
    r
}

/// The index just after the run of characters other than `/` from `pos`.
fn slash_free_end(path: &[char], pos: usize) -> (r: usize)
    requires
        pos <= path@.len(),
    ensures
        r == pos + slash_free_run(path@, pos as int),
        r <= path@.len(),
{
    let mut i = pos;
    while i < path.len() && path[i] != '/'
        invariant
            pos <= i <= path@.len(),
            pos + slash_free_run(path@, pos as int) == i + slash_free_run(path@, i as int),
        decreases path@.len() - i,
    {
        i += 1;
    }
    i
}

/// Matches pieces `k..` against `path` from `pos` on.
pub fn match_pieces(ps: &[PathPiece], k: usize, path: &[char], pos: usize, exact: bool) -> (r:
    Option<(Vec<Span>, usize)>)
    requires
        k <= ps@.len(),
        pos <= path@.len(),
    ensures
        match r {
            Some((v, e)) => {
                &&& match_at(pieces_view(ps@), k as int, path@, pos as int, exact) == Some(
                    (spans_view(v@), e as int),
                )
                &&& spans_valid(pieces_view(ps@), path@, spans_view(v@))
                &&& pos <= e <= path@.len()
            },
            None => match_at(pieces_view(ps@), k as int, path@, pos as int, exact) is None,
        },
    decreases ps@.len() - k,
{
    let ghost pv = pieces_view(ps@);
    let n = ps.len();
    let plen = path.len();
    if k >= n {
        if exact && pos != path.len() {
            return None;
        }
        let v: Vec<Span> = Vec::new();
        assert(spans_view(v@) =~= Seq::empty());
        return Some((v, pos));
    }
    assert(pv[k as int] == ps@[k as int]@);
    match &ps[k] {
        PathPiece::Literal(l) => {
            if l.len() <= path.len() - pos && occurs_at(path, l.as_slice(), pos) {
                match_pieces(ps, k + 1, path, pos + l.len(), exact)
            } else {
                None
            }
        },
        PathPiece::Capture { spans_slashes, .. } => {
            assert(is_capture(pv[k as int]));
            if *spans_slashes {
                assert(match_at(pv, k as int, path@, pos as int, exact) == match_longer(pv, k as int, path@, pos as int, exact, 1));
                if pos == plen {
                    return None;
                }
                let mut len: usize = 1;
                loop
                    invariant
                        k < ps@.len(),
                        n == ps@.len(),
                        plen == path@.len(),
                        pos <= path@.len(),
                        1 <= len,
                        len <= path@.len() - pos,
                        pv == pieces_view(ps@),
                        is_capture(pv[k as int]),
                        match_at(pv, k as int, path@, pos as int, exact) == match_longer(
                            pv,
                            k as int,
                            path@,
                            pos as int,
                            exact,
                            len as int,
                        ),
                    decreases path@.len() - pos - len,
                {
                    match match_pieces(ps, k + 1, path, pos + len, exact) {
                        Some((mut v, e)) => {
                            let ghost old_v = v@;
                            v.insert(0, (k, pos, pos + len));
                            assert(spans_view(v@) =~= seq![(k as int, pos as int, pos + len)]
                                + spans_view(old_v));
                            assert(spans_valid(pv, path@, spans_view(v@))) by {
                                assert forall|i: int| 1 <= i < spans_view(v@).len() implies
                                    spans_view(v@)[i] == spans_view(old_v)[i - 1] by {}
                            }
                            assert(match_longer(pv, k as int, path@, pos as int, exact, len as int)
                                == Some((spans_view(v@), e as int)));
                            return Some((v, e));
                        },
                        None => {},
                    }
                    if len == plen - pos {
                        assert(match_longer(pv, k as int, path@, pos as int, exact, len + 1) is None);
                        return None;
                    }
                    len += 1;
                }
                None
            } else {
                assert(match_at(pv, k as int, path@, pos as int, exact) == match_shorter(pv, k as int, path@, pos as int, exact, slash_free_run(path@, pos as int)));
                let run_end = slash_free_end(path, pos);
                let mut len: usize = run_end - pos;
                while len > 0
                    invariant
                        k < ps@.len(),
                        n == ps@.len(),
                        plen == path@.len(),
                        pos + len <= path@.len(),
                        pv == pieces_view(ps@),
                        is_capture(pv[k as int]),
                        match_at(pv, k as int, path@, pos as int, exact) == match_shorter(
                            pv,
                            k as int,
                            path@,
                            pos as int,
                            exact,
                            len as nat,
                        ),
                    decreases len,
                {
                    match match_pieces(ps, k + 1, path, pos + len, exact) {
                        Some((mut v, e)) => {
                            let ghost old_v = v@;
                            v.insert(0, (k, pos, pos + len));
                            assert(spans_view(v@) =~= seq![(k as int, pos as int, pos + len)]
                                + spans_view(old_v));
                            assert(spans_valid(pv, path@, spans_view(v@))) by {
                                assert forall|i: int| 1 <= i < spans_view(v@).len() implies
                                    spans_view(v@)[i] == spans_view(old_v)[i - 1] by {}
                            }
                            assert(match_shorter(pv, k as int, path@, pos as int, exact, len as nat)
                                == Some((spans_view(v@), e as int)));
                            return Some((v, e));
                        },
                        None => {},
                    }
                    len -= 1;
                }
                None
            }
        },
    }
}

} // verus!
