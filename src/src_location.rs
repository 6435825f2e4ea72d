//! Source locations: where to listen, and which request paths to take.

use vstd::prelude::*;
use crate::error::Error;
use crate::pattern::{
    has_capture, is_capture, match_at, match_pieces, names_distinct, parse_path, piece_name,
    pieces_of, pieces_view, spans_valid, spans_view, PathPiece, PieceView,
};
use crate::text::{chars_of, same_chars, string_of, string_of_range};
use crate::utils::{split_url, Protocol, SplitUrl};

verus! {

/// A source location: the interface and port to listen on, and the paths
/// of incoming requests that it takes.
#[derive(Debug, PartialEq, Eq)]
pub struct SrcLocation {
    host: String,
    port: u16,
    protocol: Protocol,
    /// The path as it was written.
    path: String,
    /// The path, compiled into pieces to match against.
    pieces: Vec<PathPiece>,
    /// Only requests whose whole path matches are taken.
    exact: bool,
    /// The path holds at least one capture.
    has_patterns: bool,
}

/// A source location as plain values.
pub struct SrcView {
    pub host: Seq<char>,
    pub port: u16,
    pub protocol: Protocol,
    pub path: Seq<char>,
    pub exact: bool,
}

impl SrcView {
    /// Whether the path holds a capture.
    pub open spec fn has_patterns(self) -> bool {
        has_capture(pieces_of(self.path))
    }
}

impl View for SrcLocation {
    type V = SrcView;

    closed spec fn view(&self) -> SrcView {
        SrcView {
            host: self.host@,
            port: self.port,
            protocol: self.protocol,
            path: self.path@,
            exact: self.exact,
        }
    }
}

/// What parsing `s` as a source location gives: an optional `=` that asks
/// for exact matches, then a URL-like text whose protocol is `http` (the
/// default, with port 80 by default) or `tcp` (with a port and no path).
#[verifier::opaque]
pub open spec fn src_parse(s: Seq<char>) -> Result<SrcView, Error> {
    let exact = s.len() > 0 && s[0] == '=';
    let body = if exact {
        s.skip(1)
    } else {
        s
    };
    match split_url(body) {
        Err(e) => Err(e),
        Ok(u) => {
            let protocol = match u.protocol {
                Some(p) => p,
                None => Protocol::Http,
            };
            if protocol == Protocol::Https {
                Err(Error::SourceProtocol)
            } else if protocol == Protocol::Tcp && u.port is None {
                Err(Error::TcpSourceWithoutPort)
            } else if protocol == Protocol::Tcp && u.path != seq!['/'] {
                Err(Error::TcpSourceWithPath)
            } else if !names_distinct(pieces_of(u.path)) {
                Err(Error::DuplicateCapture)
            } else {
                Ok(
                    SrcView {
                        host: u.host,
                        port: match u.port {
                            Some(p) => p,
                            None => 80,
                        },
                        protocol,
                        path: u.path,
                        exact,
                    },
                )
            }
        },
    }
}

/// What a successful match hands on, as plain values.
pub struct MatchesView {
    /// Each capture's name and the text it took, in the order of the path.
    pub captures: Seq<(Seq<char>, Seq<char>)>,
    /// The part of the request path after the match.
    pub tail: Seq<char>,
    /// The request's query string.
    pub query: Seq<char>,
}

/// The captures that the spans of a match stand for.
pub open spec fn captures_of(ps: Seq<PieceView>, path: Seq<char>, spans: Seq<(int, int, int)>) -> Seq<
    (Seq<char>, Seq<char>),
> {
    spans.map_values(|t: (int, int, int)| (piece_name(ps[t.0]), path.subrange(t.1, t.2)))
}

/// What matching a request with `path` and `query` against `src` gives:
/// the pieces of the source path must match from the start of `path` (and
/// reach its end when `src` is exact); the rest of `path` is the tail.
pub open spec fn match_request(src: SrcView, path: Seq<char>, query: Seq<char>) -> Option<MatchesView> {
    let ps = pieces_of(src.path);
    match match_at(ps, 0, path, 0, src.exact) {
        None => None,
        Some((spans, end)) => Some(
            MatchesView { captures: captures_of(ps, path, spans), tail: path.skip(end), query },
        ),
    }
}

/// The text that the first capture named `name` took.
pub open spec fn lookup(captures: Seq<(Seq<char>, Seq<char>)>, name: Seq<char>) -> Option<Seq<char>>
    decreases captures.len(),
{
    if captures.len() == 0 {
        None
    } else if captures[0].0 == name {
        Some(captures[0].1)
    } else {
        lookup(captures.drop_first(), name)
    }
}

/// The views of captured names and texts.
pub open spec fn captures_view(v: Seq<(String, String)>) -> Seq<(Seq<char>, Seq<char>)> {
    v.map_values(|c: (String, String)| (c.0@, c.1@))
}

/// The captures, tail and query of a request that matched a source location.
#[derive(Debug, PartialEq, Eq)]
pub struct Matches {
    captures: Vec<(String, String)>,
    path_tail: String,
    query: String,
}

impl View for Matches {
    type V = MatchesView;

    closed spec fn view(&self) -> MatchesView {
        MatchesView {
            captures: captures_view(self.captures@),
            tail: self.path_tail@,
            query: self.query@,
        }
    }
}

impl Matches {
    /// Builds the matches of a request by hand.
    pub fn new(captures: Vec<(String, String)>, path_tail: String, query: String) -> (r: Matches)
        ensures
            r@.captures == captures_view(captures@),
            r@.tail == path_tail@,
            r@.query == query@,
    {
        Matches { captures, path_tail, query }
    }

    /// The text that the capture `name` took.
    pub fn get(&self, name: &str) -> (r: Option<&str>)
        ensures
            match r {
                Some(t) => lookup(self@.captures, name@) == Some(t@),
                None => lookup(self@.captures, name@) is None,
            },
    {
        let wanted = chars_of(name);
        let ghost caps = self@.captures;
        let mut i: usize = 0;
        assert(caps.skip(0) =~= caps);
        while i < self.captures.len()
            invariant
                i <= self.captures@.len(),
                caps == self@.captures,
                caps.len() == self.captures@.len(),
                wanted@ == name@,
                lookup(caps, name@) == lookup(caps.skip(i as int), name@),
            decreases self.captures@.len() - i,
        {
            let key = chars_of(self.captures[i].0.as_str());
            assert(caps[i as int] == (self.captures@[i as int].0@, self.captures@[i as int].1@));
            assert(caps.skip(i as int)[0] == caps[i as int]);
            if same_chars(key.as_slice(), wanted.as_slice()) {
                return Some(self.captures[i].1.as_str());
            }
            assert(caps.skip(i as int).drop_first() =~= caps.skip(i + 1));
            i += 1;
        }
        None
    }

    /// The part of the request path after the match.
    pub fn path_tail(&self) -> (r: &str)
        ensures
            r@ == self@.tail,
    {
        self.path_tail.as_str()
    }

    /// The request's query string.
    pub fn query(&self) -> (r: &str)
        ensures
            r@ == self@.query,
    {
        self.query.as_str()
    }
}

/// Whether no two capture pieces share a name.
fn distinct_names(ps: &Vec<PathPiece>) -> (r: bool)
    ensures
        r == names_distinct(pieces_view(ps@)),
{
    let ghost pv = pieces_view(ps@);
    let mut j: usize = 0;
    while j < ps.len()
        invariant
            j <= ps@.len(),
            pv == pieces_view(ps@),
            forall|a: int, b: int|
                0 <= a < b < j && is_capture(#[trigger] pv[a]) && is_capture(#[trigger] pv[b])
                    ==> piece_name(pv[a]) != piece_name(pv[b]),
        decreases ps@.len() - j,
    {
        if let PathPiece::Capture { name: name_j, .. } = &ps[j] {
            let mut i: usize = 0;
            while i < j
                invariant
                    i <= j < ps@.len(),
                    pv == pieces_view(ps@),
                    pv[j as int] == ps@[j as int]@,
                    is_capture(pv[j as int]),
                    piece_name(pv[j as int]) == name_j@,
                    forall|a: int, b: int|
                        0 <= a < b < j && is_capture(#[trigger] pv[a]) && is_capture(
                            #[trigger] pv[b],
                        ) ==> piece_name(pv[a]) != piece_name(pv[b]),
                    forall|a: int|
                        0 <= a < i && is_capture(#[trigger] pv[a]) ==> piece_name(pv[a])
                            != piece_name(pv[j as int]),
                decreases j - i,
            {
                assert(pv[i as int] == ps@[i as int]@);
                if let PathPiece::Capture { name: name_i, .. } = &ps[i] {
                    if same_chars(name_i.as_slice(), name_j.as_slice()) {
                        assert(is_capture(pv[i as int]) && is_capture(pv[j as int]));
                        return false;
                    }
                }
                i += 1;
            }
        }
        assert(pv[j as int] == ps@[j as int]@);
        j += 1;
    }
    true
}

impl SrcLocation {
    #[verifier::type_invariant]
    spec fn well_formed(self) -> bool {
        &&& pieces_view(self.pieces@) == pieces_of(self.path@)
        &&& self.has_patterns == has_capture(pieces_of(self.path@))
    }

    /// Parses a source location.
    pub fn parse(input: &str) -> (r: Result<SrcLocation, Error>)
        ensures
            match r {
                Ok(s) => src_parse(input@) == Ok::<SrcView, Error>(s@),
                Err(e) => src_parse(input@) == Err::<SrcView, Error>(e),
            },
    {
        reveal(src_parse);
        let v = chars_of(input);
        let exact = v.len() > 0 && v[0] == '=';
        let start: usize = if exact {
            1
        } else {
            0
        };
        let body = vstd::slice::slice_subrange(v.as_slice(), start, v.len());
        assert(exact ==> body@ =~= input@.skip(1));
        assert(!exact ==> body@ =~= input@);
        let u = match SplitUrl::parse_chars(body) {
            Ok(u) => u,
            Err(e) => {
                return Err(e);
            },
        };
        let protocol = match u.protocol {
            Some(p) => p,
            None => Protocol::Http,
        };
        let path_chars = chars_of(u.path.as_str());
        if protocol == Protocol::Https {
            return Err(Error::SourceProtocol);
        }
        if protocol == Protocol::Tcp && u.port.is_none() {
            return Err(Error::TcpSourceWithoutPort);
        }
        if protocol == Protocol::Tcp && !(path_chars.len() == 1 && path_chars[0] == '/') {
            assert(path_chars@ != seq!['/']) by {
                if path_chars@ == seq!['/'] {
                    assert(path_chars@[0] == '/');
                }
            }
            return Err(Error::TcpSourceWithPath);
        }
        assert(protocol == Protocol::Tcp ==> path_chars@ =~= seq!['/']);
        let pieces = parse_path(path_chars.as_slice());
        if !distinct_names(&pieces) {
            return Err(Error::DuplicateCapture);
        }
        let mut has_patterns = false;
        let mut i: usize = 0;
        while i < pieces.len()
            invariant
                i <= pieces@.len(),
                has_patterns == exists|j: int| 0 <= j < i && is_capture(#[trigger] pieces_view(pieces@)[j]),
            decreases pieces@.len() - i,
        {
            assert(pieces_view(pieces@)[i as int] == pieces@[i as int]@);
            if let PathPiece::Capture { .. } = &pieces[i] {
                has_patterns = true;
            }
            i += 1;
        }
        let port = match u.port {
            Some(p) => p,
            None => 80,
        };
        Ok(SrcLocation { host: u.host, port, protocol, path: u.path, pieces, exact, has_patterns })
    }

    /// Matches a request, given its path and its query string, against this
    /// location.
    pub fn match_uri(&self, path: &str, query: &str) -> (r: Option<Matches>)
        ensures
            match r {
                Some(m) => match_request(self@, path@, query@) == Some(m@),
                None => match_request(self@, path@, query@) is None,
            },
    {
        proof {
            use_type_invariant(self);
        }
        let p = chars_of(path);
        let ghost ps = pieces_of(self.path@);
        match match_pieces(self.pieces.as_slice(), 0, p.as_slice(), 0, self.exact) {
            None => None,
            Some((spans, end)) => {
                let ghost sv = spans_view(spans@);
                let mut captures: Vec<(String, String)> = Vec::new();
                let mut i: usize = 0;
                while i < spans.len()
                    invariant
                        i <= spans@.len(),
                        captures@.len() == i,
                        sv == spans_view(spans@),
                        ps == pieces_view(self.pieces@),
                        spans_valid(ps, p@, sv),
                        captures_view(captures@) == captures_of(
                            ps,
                            p@,
                            sv,
                        ).take(i as int),
                    decreases spans@.len() - i,
                {
                    let (k, a, b) = spans[i];
                    assert(sv[i as int] == (k as int, a as int, b as int));
                    assert(ps[k as int] == self.pieces@[k as int]@);
                    assert(is_capture(ps[k as int]));
                    let name = match &self.pieces[k] {
                        PathPiece::Capture { name, .. } => string_of(name.as_slice()),
                        PathPiece::Literal(_) => String::new(),
                    };
                    assert(name@ == piece_name(ps[k as int]));
                    let value = string_of_range(p.as_slice(), a, b);
                    assert(captures_of(ps, p@, sv)[i as int] == (name@, value@));
                    let ghost old_c = captures@;
                    captures.push((name, value));
                    assert forall|j: int| 0 <= j < i implies #[trigger] captures_view(captures@)[j]
                        == captures_of(ps, p@, sv)[j] by {
                        assert(captures@[j] == old_c[j]);
                        assert(captures_view(old_c)[j] == captures_of(ps, p@, sv).take(i as int)[j]);
                    }
                    assert(captures_view(captures@) =~= captures_of(
                        ps,
                        p@,
                        sv,
                    ).take(i + 1));
                    i += 1;
                }
                assert(captures_of(ps, p@, sv).take(spans@.len() as int) =~= captures_of(ps, p@, sv));
                let tail = string_of_range(p.as_slice(), end, p.len());
                let q = string_of_range(&chars_of(query), 0, query.unicode_len());
                assert(p@.subrange(end as int, p@.len() as int) =~= p@.skip(end as int));
                assert(query@.subrange(0, query@.len() as int) =~= query@);
                Some(Matches { captures, path_tail: tail, query: q })
            },
        }
    }

    /// The host to listen on.
    pub fn host(&self) -> (r: &str)
        ensures
            r@ == self@.host,
    {
        self.host.as_str()
    }

    /// The port to listen on.
    pub fn port(&self) -> (r: u16)
        ensures
            r == self@.port,
    {
        self.port
    }

    /// The protocol to listen for.
    pub fn protocol(&self) -> (r: Protocol)
        ensures
            r == self@.protocol,
    {
        self.protocol
    }

    /// The path as it was written.
    pub fn path(&self) -> (r: &str)
        ensures
            r@ == self@.path,
    {
        self.path.as_str()
    }

    /// Whether only whole-path matches are taken.
    pub fn is_exact(&self) -> (r: bool)
        ensures
            r == self@.exact,
    {
        self.exact
    }

    /// Whether the path holds a capture.
    pub fn has_patterns(&self) -> (r: bool)
        ensures
            r == self@.has_patterns(),
    {
        proof {
            use_type_invariant(self);
        }
        self.has_patterns
    }
}

} // verus!
