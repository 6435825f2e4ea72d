//! Destination locations: where a matched request is sent, and how the
//! captures and tail of the match are put into it.

use vstd::prelude::*;
use crate::error::Error;
use crate::pattern::token_at;
use crate::src_location::{lookup, Matches, MatchesView, SrcLocation, SrcView};
use crate::text::{
    lemma_split_on_append, lemma_split_on_parts, lemma_split_on_plain,
    all_digits, chars_of, digits_only, find, find_chars, occurs_at, split_chars, split_on,
    string_of, string_of_range, trim_chars, trimmed,
};
use crate::utils::{scheme_separator, split_url, Protocol, SplitUrl};

verus! {

/// A destination location. This is what a request can be rerouted to.
#[derive(Debug, Clone, PartialEq, Eq)]
pub struct DestLocation(pub DestLocationInner);

/// The kinds of destination.
#[derive(Debug, Clone, PartialEq, Eq)]
pub enum DestLocationInner {
    /// `scheme://host[:port]`, and a path and query that may hold `(name)`
    /// placeholders.
    Url { host_bits: String, path: String, query: String },
    /// A TCP socket, by host and port.
    Socket { host: String, port: u16 },
    /// A fixed HTTP status code.
    HttpStatusCode { code: u16 },
    /// A file path that may hold `(name)` placeholders.
    FilePath(String),
}

/// A destination location as plain values.
pub enum DestView {
    Url { host_bits: Seq<char>, path: Seq<char>, query: Seq<char> },
    Socket { host: Seq<char>, port: u16 },
    StatusCode(u16),
    FilePath(Seq<char>),
}

impl View for DestLocation {
    type V = DestView;

    open spec fn view(&self) -> DestView {
        match &self.0 {
            DestLocationInner::Url { host_bits, path, query } => DestView::Url {
                host_bits: host_bits@,
                path: path@,
                query: query@,
            },
            DestLocationInner::Socket { host, port } => DestView::Socket { host: host@, port: *port },
            DestLocationInner::HttpStatusCode { code } => DestView::StatusCode(*code),
            DestLocationInner::FilePath(p) => DestView::FilePath(p@),
        }
    }
}

/// Where a request is to go, as worked out from a route and a match.
#[derive(Debug, Clone, PartialEq, Eq)]
pub enum ResolvedLocation {
    /// Forward the request to this URL.
    Url(String),
    /// Stream the connection to this socket.
    Socket { host: String, port: u16 },
    /// Reply with this status code.
    HttpStatusCode(u16),
    /// Serve this file.
    FilePath(String),
}

/// A resolved location as plain values.
pub enum ResolvedView {
    Url(Seq<char>),
    Socket { host: Seq<char>, port: u16 },
    StatusCode(u16),
    FilePath(Seq<char>),
}

impl View for ResolvedLocation {
    type V = ResolvedView;

    open spec fn view(&self) -> ResolvedView {
        match self {
            ResolvedLocation::Url(u) => ResolvedView::Url(u@),
            ResolvedLocation::Socket { host, port } => ResolvedView::Socket { host: host@, port: *port },
            ResolvedLocation::HttpStatusCode(c) => ResolvedView::StatusCode(*c),
            ResolvedLocation::FilePath(p) => ResolvedView::FilePath(p@),
        }
    }
}

pub open spec fn nothing_word() -> Seq<char> {
    seq!['n', 'o', 't', 'h', 'i', 'n', 'g']
}

pub open spec fn statuscode_prefix() -> Seq<char> {
    seq!['s', 't', 'a', 't', 'u', 's', 'c', 'o', 'd', 'e', ':', '/', '/']
}

/// The digits of a status-code destination: `nothing` stands for `404`,
/// and `statuscode://DIGITS` for its digits.
pub open spec fn statuscode_text(s: Seq<char>) -> Option<Seq<char>> {
    if s == nothing_word() {
        Some(seq!['4', '0', '4'])
    } else if statuscode_prefix().is_prefix_of(s) {
        Some(s.skip(13))
    } else {
        None
    }
}

/// The HTTP status that `d` writes: three digits, from 100 to 599.
pub open spec fn status_code(d: Seq<char>) -> Option<u16> {
    if d.len() == 3 && all_digits(d) && 100 <= crate::text::digits_value(d) <= 599 {
        Some(crate::text::digits_value(d) as u16)
    } else {
        None
    }
}

/// The decimal digits of `n`.
pub open spec fn decimal(n: nat) -> Seq<char>
    decreases n,
{
    if n < 10 {
        seq![digit_char(n)]
    } else {
        decimal(n / 10).push(digit_char(n % 10))
    }
}

pub open spec fn digit_char(d: nat) -> char {
    ((48 + d) as u8) as char
}

/// The name of a protocol, as it is written in a URL.
pub open spec fn protocol_text(p: Protocol) -> Seq<char> {
    match p {
        Protocol::Http => seq!['h', 't', 't', 'p'],
        Protocol::Https => seq!['h', 't', 't', 'p', 's'],
        Protocol::Tcp => seq!['t', 'c', 'p'],
    }
}

/// `scheme://host`, with `:port` where a port was given.
pub open spec fn host_bits_of(p: Protocol, host: Seq<char>, port: Option<u16>) -> Seq<char> {
    let port_text = match port {
        Some(n) => seq![':'] + decimal(n as nat),
        None => Seq::empty(),
    };
    protocol_text(p) + scheme_separator() + host + port_text
}

/// What parsing `s` as an HTTP(S) URL destination gives.
#[verifier::opaque]
pub open spec fn url_dest(s: Seq<char>) -> Result<DestView, Error> {
    match split_url(s) {
        Err(e) => Err(e),
        Ok(u) => {
            let p = match u.protocol {
                Some(p) => p,
                None => Protocol::Http,
            };
            if p == Protocol::Tcp {
                Err(Error::ProtocolMismatch)
            } else {
                Ok(DestView::Url { host_bits: host_bits_of(p, u.host, u.port), path: u.path, query: u.query })
            }
        },
    }
}

/// Whether `t` names a file: it starts with `.` or `/`.
pub open spec fn is_file_text(t: Seq<char>) -> bool {
    t.len() > 0 && (t[0] == '.' || t[0] == '/')
}

/// What parsing `s` as a destination of the source `src` gives, after
/// trimming white space. For a `tcp` source it must be a socket, whose port
/// defaults to the source's; a file path or `nothing` is refused. For an
/// `http` source, text that starts with `.` or `/` is a file path, and the
/// rest is a status code or an HTTP(S) URL.
#[verifier::opaque]
pub open spec fn dest_parse(s: Seq<char>, src: SrcView) -> Result<DestView, Error> {
    let t = trimmed(s);
    if src.protocol == Protocol::Tcp {
        if is_file_text(t) || t == nothing_word() {
            Err(Error::ProtocolMismatch)
        } else {
            match split_url(t) {
                Err(e) => Err(e),
                Ok(u) => {
                    if u.protocol is Some && u.protocol != Some(Protocol::Tcp) {
                        Err(Error::ProtocolMismatch)
                    } else if u.path != seq!['/'] {
                        Err(Error::TcpDestWithPath)
                    } else if u.query.len() > 0 {
                        Err(Error::TcpDestWithQuery)
                    } else {
                        Ok(
                            DestView::Socket {
                                host: u.host,
                                port: match u.port {
                                    Some(p) => p,
                                    None => src.port,
                                },
                            },
                        )
                    }
                },
            }
        }
    } else if is_file_text(t) {
        Ok(DestView::FilePath(t))
    } else if src.protocol == Protocol::Https {
        Err(Error::SourceProtocol)
    } else {
        match statuscode_text(t) {
            Some(d) => match status_code(d) {
                Some(c) => Ok(DestView::StatusCode(c)),
                None => Err(Error::InvalidStatusCode),
            },
            None => url_dest(t),
        }
    }
}

/// Matches `statuscode://DIGITS` or `nothing`, giving the digits.
pub fn parse_statuscode_str(s: &str) -> (r: Option<&str>)
    ensures
        match r {
            Some(d) => statuscode_text(s@) == Some(d@),
            None => statuscode_text(s@) is None,
        },
{
    let v = chars_of(s);
    let nothing = vec!['n', 'o', 't', 'h', 'i', 'n', 'g'];
    assert(nothing@ =~= nothing_word());
    if crate::text::same_chars(v.as_slice(), nothing.as_slice()) {
        let code = "404";
        proof {
            reveal_strlit("404");
        }
        assert(code@ =~= seq!['4', '0', '4']);
        return Some(code);
    }
    let prefix = vec!['s', 't', 'a', 't', 'u', 's', 'c', 'o', 'd', 'e', ':', '/', '/'];
    assert(prefix@ =~= statuscode_prefix());
    if v.len() >= 13 && occurs_at(v.as_slice(), prefix.as_slice(), 0) {
        assert(v@.subrange(0, 13) == prefix@);
        Some(s.substring_char(13, v.len()))
    } else {
        assert(!statuscode_prefix().is_prefix_of(s@)) by {
            if statuscode_prefix().is_prefix_of(s@) {
                assert(v@.subrange(0, 13) =~= prefix@);
            }
        }
        None
    }
}

/// Reads an HTTP status code: three digits, from 100 to 599.
fn parse_status_code(d: &str) -> (r: Option<u16>)
    ensures
        r == status_code(d@),
{
    let v = chars_of(d);
    if v.len() != 3 || !digits_only(v.as_slice()) {
        return None;
    }
    assert(v@.subrange(0, 3) =~= v@);
    let n = match crate::text::parse_port(v.as_slice(), 0, 3) {
        Some(n) => n,
        None => {
            return None;
        },
    };
    if 100 <= n && n <= 599 {
        Some(n)
    } else {
        None
    }
}

/// Appends the decimal digits of `n`.
fn push_decimal(out: &mut String, n: u16)
    ensures
        final(out)@ == old(out)@ + decimal(n as nat),
    decreases n,
{
    if n >= 10 {
        push_decimal(out, n / 10);
    }
    let d = (n % 10) as u8;
    out.push((48u8 + d) as char);
    assert(final(out)@ =~= old(out)@ + decimal(n as nat));
}

/// Appends the name of a protocol.
fn push_protocol(out: &mut String, p: Protocol)
    ensures
        final(out)@ == old(out)@ + protocol_text(p),
{
    match p {
        Protocol::Http => {
            out.push('h');
            out.push('t');
            out.push('t');
            out.push('p');
        },
        Protocol::Https => {
            out.push('h');
            out.push('t');
            out.push('t');
            out.push('p');
            out.push('s');
        },
        Protocol::Tcp => {
            out.push('t');
            out.push('c');
            out.push('p');
        },
    }
    assert(final(out)@ =~= old(out)@ + protocol_text(p));
}

/// Appends all of `s`.
fn push_str(out: &mut String, s: &str)
    ensures
        final(out)@ == old(out)@ + s@,
{
    out.append(s);
}

/// Parses an HTTP(S) URL destination; the protocol defaults to `http`.
pub fn parse_url(input: &str) -> (r: Result<DestLocation, Error>)
    ensures
        match r {
            Ok(d) => url_dest(input@) == Ok::<DestView, Error>(d@),
            Err(e) => url_dest(input@) == Err::<DestView, Error>(e),
        },
{
    reveal(url_dest);
    let u = match SplitUrl::parse(input) {
        Ok(u) => u,
        Err(e) => {
            return Err(e);
        },
    };
    let p = match u.protocol {
        Some(p) => p,
        None => Protocol::Http,
    };
    if p == Protocol::Tcp {
        return Err(Error::ProtocolMismatch);
    }
    let mut host_bits = String::new();
    push_protocol(&mut host_bits, p);
    host_bits.push(':');
    host_bits.push('/');
    host_bits.push('/');
    push_str(&mut host_bits, u.host.as_str());
    match u.port {
        Some(n) => {
            host_bits.push(':');
            push_decimal(&mut host_bits, n);
        },
        None => {},
    }
    assert(host_bits@ =~= host_bits_of(p, u.host@, u.port));
    Ok(DestLocation(DestLocationInner::Url { host_bits, path: u.path, query: u.query }))
}

impl DestLocation {
    /// Parses a destination location. The source location it belongs to
    /// decides which destinations are valid.
    pub fn parse(input: &str, src: &SrcLocation) -> (r: Result<DestLocation, Error>)
        ensures
            match r {
                Ok(d) => dest_parse(input@, src@) == Ok::<DestView, Error>(d@),
                Err(e) => dest_parse(input@, src@) == Err::<DestView, Error>(e),
            },
    {
        reveal(dest_parse);
        let raw = chars_of(input);
        let t = trim_chars(raw.as_slice());
        let is_file = t.len() > 0 && (t[0] == '.' || t[0] == '/');
        let text = string_of(t.as_slice());
        let protocol = src.protocol();
        if protocol == Protocol::Tcp {
            let nothing = vec!['n', 'o', 't', 'h', 'i', 'n', 'g'];
            assert(nothing@ =~= nothing_word());
            if is_file || crate::text::same_chars(t.as_slice(), nothing.as_slice()) {
                return Err(Error::ProtocolMismatch);
            }
            let u = match SplitUrl::parse(text.as_str()) {
                Ok(u) => u,
                Err(e) => {
                    return Err(e);
                },
            };
            if u.protocol.is_some() && u.protocol != Some(Protocol::Tcp) {
                return Err(Error::ProtocolMismatch);
            }
            let path = chars_of(u.path.as_str());
            if !(path.len() == 1 && path[0] == '/') {
                assert(path@ != seq!['/']) by {
                    if path@ == seq!['/'] {
                        assert(path@[0] == '/');
                    }
                }
                return Err(Error::TcpDestWithPath);
            }
            assert(path@ =~= seq!['/']);
            if u.query.unicode_len() > 0 {
                return Err(Error::TcpDestWithQuery);
            }
            let port = match u.port {
                Some(p) => p,
                None => src.port(),
            };
            return Ok(DestLocation(DestLocationInner::Socket { host: u.host, port }));
        }
        if is_file {
            return Ok(DestLocation(DestLocationInner::FilePath(text)));
        }
        if protocol == Protocol::Https {
            return Err(Error::SourceProtocol);
        }
        match parse_statuscode_str(text.as_str()) {
            Some(d) => match parse_status_code(d) {
                Some(code) => Ok(DestLocation(DestLocationInner::HttpStatusCode { code })),
                None => Err(Error::InvalidStatusCode),
            },
            None => parse_url(text.as_str()),
        }
    }

    /// The socket of a TCP destination: its host and port.
    pub fn socket_addr(&self) -> (r: Option<(&str, u16)>)
        ensures
            match r {
                Some((h, p)) => self@ == (DestView::Socket { host: h@, port: p }),
                None => !(self@ is Socket),
            },
    {
        match &self.0 {
            DestLocationInner::Socket { host, port } => Some((host.as_str(), *port)),
            _ => None,
        }
    }
}


/// `s` from index `i` on, with each `(name)` placeholder replaced by what
/// the capture `name` took; placeholders of unknown names stay as they are.
pub open spec fn expand_from(s: Seq<char>, captures: Seq<(Seq<char>, Seq<char>)>, i: int) -> Seq<
    char,
>
    decreases s.len() - i,
{
    if i < 0 || i >= s.len() {
        Seq::empty()
    } else {
        match token_at(s, i) {
            Some((name, false, e)) => {
                let filled = match lookup(captures, name) {
                    Some(v) => v,
                    None => s.subrange(i, e),
                };
                filled + expand_from(s, captures, e)
            },
            _ => seq![s[i]] + expand_from(s, captures, i + 1),
        }
    }
}

/// `s` with its placeholders filled in from `captures`.
pub open spec fn expand(s: Seq<char>, captures: Seq<(Seq<char>, Seq<char>)>) -> Seq<char> {
    expand_from(s, captures, 0)
}

/// `t` without its leading slashes.
pub open spec fn trim_slashes(t: Seq<char>) -> Seq<char>
    decreases t.len(),
{
    if t.len() > 0 && t[0] == '/' {
        trim_slashes(t.drop_first())
    } else {
        t
    }
}

/// The path `path` with the tail `tail` of a request added: after a
/// trailing `/` the tail's leading slashes are dropped; otherwise one `/`
/// separates the two unless the tail starts with one.
pub open spec fn with_tail(path: Seq<char>, tail: Seq<char>) -> Seq<char> {
    if tail.len() == 0 {
        path
    } else if path.len() > 0 && path.last() == '/' {
        path + trim_slashes(tail)
    } else if tail[0] == '/' {
        path + tail
    } else {
        path + seq!['/'] + tail
    }
}

/// The key and value of one `key=value` part of a query; without `=` the
/// value is empty.
pub open spec fn pair_of(part: Seq<char>) -> (Seq<char>, Seq<char>) {
    match find(part, seq!['=']) {
        Some(m) => (part.take(m), part.skip(m + 1)),
        None => (part, Seq::empty()),
    }
}

/// The key/value pairs of a query string, in order, skipping empty parts.
pub open spec fn query_pairs_of(q: Seq<char>) -> Seq<(Seq<char>, Seq<char>)> {
    split_on(q, '&').filter(|p: Seq<char>| p.len() > 0).map_values(|p: Seq<char>| pair_of(p))
}

/// Whether some pair has key `k`.
pub open spec fn has_key(pairs: Seq<(Seq<char>, Seq<char>)>, k: Seq<char>) -> bool {
    exists|i: int| 0 <= i < pairs.len() && (#[trigger] pairs[i]).0 == k
}

/// `acc` with `k=v` added: `&` first unless `acc` is empty, and `=v` only
/// where `v` is not empty.
pub open spec fn append_pair(acc: Seq<char>, k: Seq<char>, v: Seq<char>) -> Seq<char> {
    let lead = if acc.len() > 0 {
        acc + seq!['&']
    } else {
        acc
    };
    let value = if v.len() > 0 {
        seq!['='] + v
    } else {
        Seq::empty()
    };
    lead + k + value
}

/// `acc` with each pair of `req` added whose key is not among `template`.
pub open spec fn merge_pairs(
    acc: Seq<char>,
    template: Seq<(Seq<char>, Seq<char>)>,
    req: Seq<(Seq<char>, Seq<char>)>,
) -> Seq<char>
    decreases req.len(),
{
    if req.len() == 0 {
        acc
    } else {
        let (k, v) = req[0];
        let next = if has_key(template, k) {
            acc
        } else {
            append_pair(acc, k, v)
        };
        merge_pairs(next, template, req.drop_first())
    }
}

/// The query `template` with the pairs of `request` added whose keys the
/// template does not have: the template wins where both have a key.
pub open spec fn merged_query(template: Seq<char>, request: Seq<char>) -> Seq<char> {
    merge_pairs(template, query_pairs_of(template), query_pairs_of(request))
}

/// The stack of path components after walking `comps`: empty parts and `.`
/// do nothing, `..` drops the last component pushed (if any), and any other
/// part is pushed.
pub open spec fn walk_components(stack: Seq<Seq<char>>, comps: Seq<Seq<char>>) -> Seq<Seq<char>>
    decreases comps.len(),
{
    if comps.len() == 0 {
        stack
    } else {
        let c = comps[0];
        let next = if c.len() == 0 || c == seq!['.'] {
            stack
        } else if c == seq!['.', '.'] {
            if stack.len() > 0 {
                stack.drop_last()
            } else {
                stack
            }
        } else {
            stack.push(c)
        };
        walk_components(next, comps.drop_first())
    }
}

/// `p` with the component `c` added, with a `/` between them unless `p` is
/// empty or already ends in one.
pub open spec fn push_component(p: Seq<char>, c: Seq<char>) -> Seq<char> {
    if p.len() == 0 || p.last() == '/' {
        p + c
    } else {
        p + seq!['/'] + c
    }
}

/// `base` with the components of `stack` added in order.
pub open spec fn join_components(base: Seq<char>, stack: Seq<Seq<char>>) -> Seq<char>
    decreases stack.len(),
{
    if stack.len() == 0 {
        base
    } else {
        push_component(join_components(base, stack.drop_last()), stack.last())
    }
}

/// The file that `base` and the tail `tail` of a request lead to.
pub open spec fn file_target(base: Seq<char>, tail: Seq<char>) -> Seq<char> {
    join_components(base, walk_components(Seq::empty(), split_on(tail, '/')))
}

/// Where the destination `d` sends a request that matched with `m`.
pub open spec fn resolve_spec(d: DestView, m: MatchesView) -> ResolvedView {
    match d {
        DestView::Url { host_bits, path, query } => {
            let p = with_tail(expand(path, m.captures), m.tail);
            let q = merged_query(expand(query, m.captures), m.query);
            let suffix = if q.len() > 0 {
                seq!['?'] + q
            } else {
                Seq::empty()
            };
            ResolvedView::Url(host_bits + p + suffix)
        },
        DestView::Socket { host, port } => ResolvedView::Socket { host, port },
        DestView::StatusCode(c) => ResolvedView::StatusCode(c),
        DestView::FilePath(t) => ResolvedView::FilePath(file_target(expand(t, m.captures), m.tail)),
    }
}

/// Fills in the `(name)` placeholders of `s` from `matches`.
pub fn expand_str_with_matches(matches: &Matches, s: &str) -> (r: String)
    ensures
        r@ == expand(s@, matches@.captures),
{
    let v = chars_of(s);
    let ghost caps = matches@.captures;
    let mut out = String::new();
    let mut i: usize = 0;
    while i < v.len()
        invariant
            i <= v@.len(),
            v@ == s@,
            caps == matches@.captures,
            out@ + expand_from(v@, caps, i as int) == expand(v@, caps),
        decreases v@.len() - i,
    {
        let ghost old_out = out@;
        let tok = crate::pattern::token_at_index(v.as_slice(), i);
        match tok {
            Some((ne, false, e)) => {
                let name = string_of_range(v.as_slice(), i + 1, ne);
                match matches.get(name.as_str()) {
                    Some(value) => push_str(&mut out, value),
                    None => {
                        let raw = string_of_range(v.as_slice(), i, e);
                        push_str(&mut out, raw.as_str());
                    },
                }
                assert(out@ + expand_from(v@, caps, e as int) =~= old_out + expand_from(
                    v@,
                    caps,
                    i as int,
                ));
                i = e;
            },
            _ => {
                out.push(v[i]);
                assert(out@ + expand_from(v@, caps, i + 1) =~= old_out + expand_from(
                    v@,
                    caps,
                    i as int,
                ));
                i += 1;
            },
        }
    }
    assert(out@ =~= out@ + expand_from(v@, caps, i as int));
    out
}

/// Adds the tail of a request to a destination path.
pub fn append_tail(path: &str, tail: &str) -> (r: String)
    ensures
        r@ == with_tail(path@, tail@),
{
    let p = chars_of(path);
    let t = chars_of(tail);
    let mut out = string_of(p.as_slice());
    if t.len() == 0 {
        return out;
    }
    if p.len() > 0 && p[p.len() - 1] == '/' {
        let mut i: usize = 0;
        assert(t@.skip(0) =~= t@);
        while i < t.len() && t[i] == '/'
            invariant
                i <= t@.len(),
                trim_slashes(t@) == trim_slashes(t@.skip(i as int)),
            decreases t@.len() - i,
        {
            assert(t@.skip(i as int).drop_first() =~= t@.skip(i + 1));
            i += 1;
        }
        let rest = string_of_range(t.as_slice(), i, t.len());
        assert(t@.subrange(i as int, t@.len() as int) =~= t@.skip(i as int));
        push_str(&mut out, rest.as_str());
    } else {
        if t[0] != '/' {
            out.push('/');
        }
        push_str(&mut out, tail);
    }
    out
}

/// Splits one part of a query into its key and value.
fn pair_of_part(part: &[char]) -> (r: (String, String))
    ensures
        (r.0@, r.1@) == pair_of(part@),
{
    let n = part.len();
    let eq = vec!['='];
    assert(eq@ =~= seq!['=']);
    match find_chars(part, eq.as_slice()) {
        Some(m) => {
            let k = string_of_range(part, 0, m);
            let v = string_of_range(part, m + 1, n);
            assert(part@.subrange(0, m as int) =~= part@.take(m as int));
            assert(part@.subrange(m + 1, part@.len() as int) =~= part@.skip(m + 1));
            (k, v)
        },
        None => (string_of(part), String::new()),
    }
}

/// The views of key/value pairs.
pub open spec fn pairs_view(v: Seq<(String, String)>) -> Seq<(Seq<char>, Seq<char>)> {
    v.map_values(|p: (String, String)| (p.0@, p.1@))
}

/// Given a query string, returns its key/value pairs.
pub fn query_pairs(query: &str) -> (r: Vec<(String, String)>)
    ensures
        pairs_view(r@) == query_pairs_of(query@),
{
    let q = chars_of(query);
    let parts = split_chars(q.as_slice(), '&');
    let ghost pv = parts@.map_values(|p: Vec<char>| p@);
    let ghost nonempty = |p: Seq<char>| p.len() > 0;
    let mut r: Vec<(String, String)> = Vec::new();
    let mut i: usize = 0;
    while i < parts.len()
        invariant
            i <= parts@.len(),
            pv == parts@.map_values(|p: Vec<char>| p@),
            pv == split_on(query@, '&'),
            nonempty == (|p: Seq<char>| p.len() > 0),
            pairs_view(r@) == pv.take(i as int).filter(nonempty).map_values(
                |p: Seq<char>| pair_of(p),
            ),
        decreases parts@.len() - i,
    {
        let ghost old_r = r@;
        assert(pv.take(i + 1) =~= pv.take(i as int).push(pv[i as int]));
        proof {
            pv.take(i as int).lemma_filter_push(pv[i as int], nonempty);
        }
        assert(pv[i as int] == parts@[i as int]@);
        if parts[i].len() > 0 {
            let pair = pair_of_part(parts[i].as_slice());
            r.push(pair);
            assert(nonempty(pv[i as int]));
            let ghost f = pv.take(i as int).filter(nonempty);
            assert(pv.take(i + 1).filter(nonempty) == f.push(pv[i as int]));
            let ghost fm = f.map_values(|p: Seq<char>| pair_of(p));
            assert(pairs_view(old_r) == fm);
            assert forall|j: int| 0 <= j < fm.len() implies #[trigger] pairs_view(r@)[j] == fm[j] by {
                assert(r@[j] == old_r[j]);
            }
            let ghost g = f.push(pv[i as int]).map_values(|p: Seq<char>| pair_of(p));
            assert(g.len() == fm.len() + 1);
            assert(pairs_view(r@).len() == fm.len() + 1);
            assert(g[fm.len() as int] == pair_of(pv[i as int]));
            assert(pairs_view(r@)[fm.len() as int] == pair_of(pv[i as int]));
            assert forall|j: int| 0 <= j < fm.len() implies g[j] == fm[j] by {
                assert(f.push(pv[i as int])[j] == f[j]);
            }
            assert(pairs_view(r@) =~= g);
        } else {
            assert(pv.take(i + 1).filter(nonempty) == pv.take(i as int).filter(nonempty));
        }
        i += 1;
    }
    assert(pv.take(parts@.len() as int) =~= pv);
    r
}

/// Whether some pair of `pairs` has key `k`.
fn contains_key(pairs: &Vec<(String, String)>, k: &str) -> (r: bool)
    ensures
        r == has_key(pairs_view(pairs@), k@),
{
    let mut i: usize = 0;
    while i < pairs.len()
        invariant
            i <= pairs@.len(),
            forall|j: int| 0 <= j < i ==> (#[trigger] pairs_view(pairs@)[j]).0 != k@,
        decreases pairs@.len() - i,
    {
        let a = chars_of(pairs[i].0.as_str());
        let b = chars_of(k);
        assert(pairs_view(pairs@)[i as int] == (pairs@[i as int].0@, pairs@[i as int].1@));
        if crate::text::same_chars(a.as_slice(), b.as_slice()) {
            return true;
        }
        i += 1;
    }
    false
}

/// Adds to the query `template` each pair of the query `request` whose key
/// the template does not have.
pub fn merge_query(template: &str, request: &str) -> (r: String)
    ensures
        r@ == merged_query(template@, request@),
{
    let tp = query_pairs(template);
    let rp = query_pairs(request);
    let ghost tv = pairs_view(tp@);
    let ghost rv = pairs_view(rp@);
    let mut out = string_of(chars_of(template).as_slice());
    let mut i: usize = 0;
    assert(rv.skip(0) =~= rv);
    while i < rp.len()
        invariant
            i <= rp@.len(),
            tv == pairs_view(tp@),
            rv == pairs_view(rp@),
            tv == query_pairs_of(template@),
            rv == query_pairs_of(request@),
            merged_query(template@, request@) == merge_pairs(out@, tv, rv.skip(i as int)),
        decreases rp@.len() - i,
    {
        let k = rp[i].0.as_str();
        let v = rp[i].1.as_str();
        assert(rv.skip(i as int)[0] == (k@, v@));
        assert(rv.skip(i as int).drop_first() =~= rv.skip(i + 1));
        if !contains_key(&tp, k) {
            let ghost before = out@;
            if out.unicode_len() > 0 {
                out.push('&');
            }
            push_str(&mut out, k);
            if v.unicode_len() > 0 {
                out.push('=');
                push_str(&mut out, v);
            }
            assert(out@ =~= append_pair(before, k@, v@));
        }
        i += 1;
    }
    out
}


/// The file that `base` and the tail of a request lead to: each part of the
/// tail is added below `base`, where `..` can only undo what the tail added.
pub fn resolve_file_path(base: &str, tail: &str) -> (r: String)
    ensures
        r@ == file_target(base@, tail@),
{
    let t = chars_of(tail);
    let comps = split_chars(t.as_slice(), '/');
    let ghost cv = comps@.map_values(|p: Vec<char>| p@);
    let dot = vec!['.'];
    let dotdot = vec!['.', '.'];
    assert(dot@ =~= seq!['.']);
    assert(dotdot@ =~= seq!['.', '.']);
    let mut stack: Vec<Vec<char>> = Vec::new();
    let mut i: usize = 0;
    assert(cv.skip(0) =~= cv);
    assert(stack@.map_values(|p: Vec<char>| p@) =~= Seq::<Seq<char>>::empty());
    while i < comps.len()
        invariant
            i <= comps@.len(),
            cv == comps@.map_values(|p: Vec<char>| p@),
            cv == split_on(tail@, '/'),
            dot@ == seq!['.'],
            dotdot@ == seq!['.', '.'],
            walk_components(Seq::empty(), cv) == walk_components(
                stack@.map_values(|p: Vec<char>| p@),
                cv.skip(i as int),
            ),
        decreases comps@.len() - i,
    {
        let ghost sv = stack@.map_values(|p: Vec<char>| p@);
        let c = &comps[i];
        assert(cv.skip(i as int)[0] == c@);
        assert(cv.skip(i as int).drop_first() =~= cv.skip(i + 1));
        if c.len() == 0 || crate::text::same_chars(c.as_slice(), dot.as_slice()) {
        } else if crate::text::same_chars(c.as_slice(), dotdot.as_slice()) {
            if stack.len() > 0 {
                stack.pop();
                assert(stack@.map_values(|p: Vec<char>| p@) =~= sv.drop_last());
            }
        } else {
            stack.push(c.clone());
            assert(stack@.map_values(|p: Vec<char>| p@) =~= sv.push(c@));
        }
        i += 1;
    }
    let ghost sv = stack@.map_values(|p: Vec<char>| p@);
    assert(walk_components(sv, cv.skip(i as int)) == sv);
    let mut out = chars_of(base);
    let mut j: usize = 0;
    assert(sv.take(0) =~= Seq::<Seq<char>>::empty());
    while j < stack.len()
        invariant
            j <= stack@.len(),
            sv == stack@.map_values(|p: Vec<char>| p@),
            out@ == join_components(base@, sv.take(j as int)),
        decreases stack@.len() - j,
    {
        assert(sv.take(j + 1).drop_last() =~= sv.take(j as int));
        assert(sv.take(j + 1).last() == stack@[j as int]@);
        let ghost before = out@;
        if out.len() > 0 && out[out.len() - 1] != '/' {
            out.push('/');
        }
        let part = &stack[j];
        let mut k: usize = 0;
        let ghost mid = out@;
        while k < part.len()
            invariant
                k <= part@.len(),
                out@ == mid + part@.take(k as int),
            decreases part@.len() - k,
        {
            out.push(part[k]);
            k += 1;
            assert(out@ =~= mid + part@.take(k as int));
        }
        assert(part@.take(part@.len() as int) =~= part@);
        assert(out@ =~= push_component(before, part@));
        j += 1;
    }
    assert(sv.take(stack@.len() as int) =~= sv);
    string_of(out.as_slice())
}

impl DestLocation {
    /// Where this destination sends a request that matched with `matches`.
    pub fn resolve(&self, matches: &Matches) -> (r: ResolvedLocation)
        ensures
            r@ == resolve_spec(self@, matches@),
    {
        match &self.0 {
            DestLocationInner::Url { host_bits, path, query } => {
                let path = expand_str_with_matches(matches, path.as_str());
                let path = append_tail(path.as_str(), matches.path_tail());
                let query = expand_str_with_matches(matches, query.as_str());
                let query = merge_query(query.as_str(), matches.query());
                let mut url = host_bits.clone();
                push_str(&mut url, path.as_str());
                if query.unicode_len() > 0 {
                    url.push('?');
                    push_str(&mut url, query.as_str());
                }
                assert(url@ =~= match resolve_spec(self@, matches@) {
                    ResolvedView::Url(u) => u,
                    _ => url@,
                });
                ResolvedLocation::Url(url)
            },
            DestLocationInner::FilePath(path) => {
                let base = expand_str_with_matches(matches, path.as_str());
                ResolvedLocation::FilePath(resolve_file_path(base.as_str(), matches.path_tail()))
            },
            DestLocationInner::Socket { host, port } => ResolvedLocation::Socket {
                host: host.clone(),
                port: *port,
            },
            DestLocationInner::HttpStatusCode { code } => ResolvedLocation::HttpStatusCode(*code),
        }
    }
}


/// Whether `s` holds two slashes in a row.
pub open spec fn has_double_slash(s: Seq<char>) -> bool {
    exists|i: int| 0 <= i && i + 1 < s.len() && #[trigger] s[i] == '/' && s[i + 1] == '/'
}

/// Dropping leading slashes leaves a suffix that does not start with `/`.
pub proof fn lemma_trim_slashes(t: Seq<char>)
    ensures
        trim_slashes(t).len() <= t.len(),
        trim_slashes(t) == t.skip(t.len() - trim_slashes(t).len()),
        trim_slashes(t).len() == 0 || trim_slashes(t)[0] != '/',
    decreases t.len(),
{
    if t.len() > 0 && t[0] == '/' {
        lemma_trim_slashes(t.drop_first());
        let r = trim_slashes(t);
        assert(t.drop_first().skip(t.drop_first().len() - r.len()) =~= t.skip(t.len() - r.len()));
    } else {
        assert(t.skip(0) =~= t);
    }
}

/// Adding a request's tail to a destination path that ends in `/`: with no
/// tail the path still ends in `/`, and with a tail no doubled slash
/// appears where path and tail meet, so the result has none where neither
/// had one.
pub proof fn lemma_trailing_slash(path: Seq<char>, tail: Seq<char>)
    requires
        path.len() > 0,
        path.last() == '/',
    ensures
        tail.len() == 0 ==> with_tail(path, tail) == path && with_tail(path, tail).last() == '/',
        tail.len() > 0 && !has_double_slash(path) && !has_double_slash(tail) ==> !has_double_slash(
            with_tail(path, tail),
        ),
{
    if tail.len() > 0 && !has_double_slash(path) && !has_double_slash(tail) {
        lemma_trim_slashes(tail);
        let t = trim_slashes(tail);
        let m = tail.len() - t.len();
        let r = with_tail(path, tail);
        assert(r == path + t);
        if has_double_slash(r) {
            let i = choose|i: int| 0 <= i && i + 1 < r.len() && #[trigger] r[i] == '/' && r[i + 1] == '/';
            if i + 1 < path.len() {
                assert(path[i] == '/' && path[i + 1] == '/');
            } else if i >= path.len() {
                let j = i - path.len();
                assert(t[j] == tail[m + j]);
                assert(t[j + 1] == tail[m + j + 1]);
                assert(tail[m + j] == '/' && tail[m + j + 1] == '/');
            } else {
                assert(r[i + 1] == t[0]);
            }
        }
    }
}

/// A path component that a tail can push: not empty, without `/`, and
/// neither `.` nor `..`.
pub open spec fn is_plain_component(c: Seq<char>) -> bool {
    c.len() > 0 && !c.contains('/') && c != seq!['.'] && c != seq!['.', '.']
}

/// The number of non-empty parts between slashes.
pub open spec fn component_count(s: Seq<char>) -> nat {
    split_on(s, '/').filter(|c: Seq<char>| c.len() > 0).len()
}

/// Pushing a plain component adds one component.
pub proof fn lemma_push_component(p: Seq<char>, c: Seq<char>)
    requires
        is_plain_component(c),
    ensures
        component_count(push_component(p, c)) == component_count(p) + 1,
        p.is_prefix_of(push_component(p, c)),
{
    let nonempty = |c: Seq<char>| c.len() > 0;
    lemma_split_on_plain(c, '/');
    if p.len() == 0 {
        assert(push_component(p, c) =~= c);
        assert(split_on(p, '/') =~= seq![Seq::<char>::empty()]);
        Seq::<Seq<char>>::empty().lemma_filter_push(Seq::<char>::empty(), nonempty);
        Seq::<Seq<char>>::empty().lemma_filter_push(c, nonempty);
        assert(seq![Seq::<char>::empty()] =~= Seq::<Seq<char>>::empty().push(Seq::<char>::empty()));
        assert(seq![c] =~= Seq::<Seq<char>>::empty().push(c));
    } else if p.last() == '/' {
        let q = p.drop_last();
        assert(p =~= q + seq!['/'] + Seq::<char>::empty());
        assert(push_component(p, c) =~= q + seq!['/'] + c);
        assert(!Seq::<char>::empty().contains('/'));
        lemma_split_on_append(q, '/', Seq::<char>::empty());
        lemma_split_on_append(q, '/', c);
        split_on(q, '/').lemma_filter_push(Seq::<char>::empty(), nonempty);
        split_on(q, '/').lemma_filter_push(c, nonempty);
    } else {
        assert(push_component(p, c) == p + seq!['/'] + c);
        lemma_split_on_append(p, '/', c);
        split_on(p, '/').lemma_filter_push(c, nonempty);
    }
}

/// Joining plain components below `base` keeps `base` in front and adds
/// one component each.
pub proof fn lemma_join_components(base: Seq<char>, stack: Seq<Seq<char>>)
    requires
        forall|i: int| 0 <= i < stack.len() ==> is_plain_component(#[trigger] stack[i]),
    ensures
        component_count(join_components(base, stack)) == component_count(base) + stack.len(),
        base.is_prefix_of(join_components(base, stack)),
    decreases stack.len(),
{
    if stack.len() > 0 {
        let init = stack.drop_last();
        assert forall|i: int| 0 <= i < init.len() implies is_plain_component(#[trigger] init[i]) by {
            assert(init[i] == stack[i]);
        }
        lemma_join_components(base, init);
        assert(is_plain_component(stack[stack.len() - 1]));
        lemma_push_component(join_components(base, init), stack.last());
    }
}

/// Walking parts without `/` only ever pushes plain components.
pub proof fn lemma_walk_components(stack: Seq<Seq<char>>, comps: Seq<Seq<char>>)
    requires
        forall|i: int| 0 <= i < stack.len() ==> is_plain_component(#[trigger] stack[i]),
        forall|i: int| 0 <= i < comps.len() ==> !(#[trigger] comps[i]).contains('/'),
    ensures
        forall|i: int|
            0 <= i < walk_components(stack, comps).len() ==> is_plain_component(
                #[trigger] walk_components(stack, comps)[i],
            ),
    decreases comps.len(),
{
    if comps.len() > 0 {
        let c = comps[0];
        let next = if c.len() == 0 || c == seq!['.'] {
            stack
        } else if c == seq!['.', '.'] {
            if stack.len() > 0 {
                stack.drop_last()
            } else {
                stack
            }
        } else {
            stack.push(c)
        };
        assert(!comps[0].contains('/'));
        assert forall|i: int| 0 <= i < next.len() implies is_plain_component(#[trigger] next[i]) by {
            if i < stack.len() {
                assert(next[i] == stack[i]);
            } else {
                assert(next[i] == c);
            }
        }
        assert forall|i: int| 0 <= i < comps.drop_first().len() implies !(
        #[trigger] comps.drop_first()[i]).contains('/') by {
            assert(comps.drop_first()[i] == comps[i + 1]);
        }
        lemma_walk_components(next, comps.drop_first());
        assert(walk_components(stack, comps) == walk_components(next, comps.drop_first()));
    }
}

/// A request cannot climb out of a file destination: the file it is
/// served keeps the base path in front, and has at least as many path
/// components as the base.
pub proof fn lemma_file_clamp(base: Seq<char>, tail: Seq<char>)
    ensures
        base.is_prefix_of(file_target(base, tail)),
        component_count(file_target(base, tail)) >= component_count(base),
{
    lemma_split_on_parts(tail, '/');
    lemma_walk_components(Seq::empty(), split_on(tail, '/'));
    lemma_join_components(base, walk_components(Seq::empty(), split_on(tail, '/')));
}


/// What the search for the character `c` from index `i` finds: the first
/// index at or after `i` that holds `c`.
pub proof fn lemma_find_char(s: Seq<char>, c: char, i: int)
    requires
        0 <= i <= s.len(),
    ensures
        match crate::text::find_from(s, seq![c], i) {
            Some(m) => i <= m < s.len() && s[m] == c && forall|j: int| i <= j < m ==> s[j] != c,
            None => forall|j: int| i <= j < s.len() ==> s[j] != c,
        },
    decreases s.len() - i,
{
    if i < s.len() {
        if s.subrange(i, i + 1) == seq![c] {
            assert(s.subrange(i, i + 1)[0] == s[i]);
        } else {
            assert(s[i] != c) by {
                if s[i] == c {
                    assert(s.subrange(i, i + 1) =~= seq![c]);
                }
            }
            lemma_find_char(s, c, i + 1);
        }
    }
}

/// A pair that a query part can hold and that survives being written out:
/// its key holds neither `&` nor `=`, its value no `&`, and one of the two
/// is not empty.
pub open spec fn is_writable_pair(k: Seq<char>, v: Seq<char>) -> bool {
    !k.contains('&') && !k.contains('=') && !v.contains('&') && !(k.len() == 0 && v.len() == 0)
}

/// Writing a pair out and reading the query back gives the pairs before
/// and then that pair.
pub proof fn lemma_append_pair(acc: Seq<char>, k: Seq<char>, v: Seq<char>)
    requires
        is_writable_pair(k, v),
    ensures
        query_pairs_of(append_pair(acc, k, v)) == query_pairs_of(acc).push((k, v)),
{
    let nonempty = |p: Seq<char>| p.len() > 0;
    let value = if v.len() > 0 {
        seq!['='] + v
    } else {
        Seq::<char>::empty()
    };
    let w = k + value;
    assert(!w.contains('&')) by {
        if w.contains('&') {
            let j = choose|j: int| 0 <= j < w.len() && w[j] == '&';
            if j < k.len() {
                assert(k[j] == '&');
            } else if v.len() > 0 {
                assert(j > k.len());
                assert(v[j - k.len() - 1] == '&');
            }
        }
    }
    assert(w.len() > 0);
    lemma_find_char(w, '=', 0);
    if v.len() > 0 {
        assert(w[k.len() as int] == '=');
        let m = crate::text::find_from(w, seq!['='], 0)->0;
        if m < k.len() {
            assert(k[m] == '=');
        }
        assert(m == k.len());
        assert(w.take(m) =~= k);
        assert(w.skip(m + 1) =~= v);
    } else {
        assert(w =~= k);
        assert(crate::text::find_from(w, seq!['='], 0) is None) by {
            if crate::text::find_from(w, seq!['='], 0) is Some {
                let m = crate::text::find_from(w, seq!['='], 0)->0;
                assert(k[m] == '=');
            }
        }
    }
    assert(pair_of(w) == (k, v));
    lemma_split_on_plain(w, '&');
    if acc.len() > 0 {
        assert(append_pair(acc, k, v) =~= acc + seq!['&'] + w);
        lemma_split_on_append(acc, '&', w);
        split_on(acc, '&').lemma_filter_push(w, nonempty);
        let f = split_on(acc, '&').filter(nonempty);
        assert(f.push(w).map_values(|p: Seq<char>| pair_of(p)) =~= f.map_values(|p: Seq<char>| pair_of(p)).push((k, v)));
    } else {
        assert(append_pair(acc, k, v) =~= w);
        assert(acc =~= Seq::<char>::empty());
        assert(split_on(acc, '&') =~= Seq::<Seq<char>>::empty().push(Seq::<char>::empty()));
        Seq::<Seq<char>>::empty().lemma_filter_push(Seq::<char>::empty(), nonempty);
        Seq::<Seq<char>>::empty().lemma_filter_push(w, nonempty);
        assert(seq![w] =~= Seq::<Seq<char>>::empty().push(w));
        assert(Seq::<Seq<char>>::empty().filter(nonempty) =~= Seq::<Seq<char>>::empty());
        assert(seq![w].map_values(|p: Seq<char>| pair_of(p)) =~= Seq::<(Seq<char>, Seq<char>)>::empty().push((k, v)));
        assert(Seq::<Seq<char>>::empty().map_values(|p: Seq<char>| pair_of(p)) =~= Seq::<(Seq<char>, Seq<char>)>::empty());
    }
}

/// Merging keeps the pairs already there in front, and leaves every pair
/// of `req` either among `template`'s keys or among the result's.
pub proof fn lemma_merge_pairs_keys(
    acc: Seq<char>,
    template: Seq<(Seq<char>, Seq<char>)>,
    req: Seq<(Seq<char>, Seq<char>)>,
)
    requires
        forall|i: int| 0 <= i < req.len() ==> is_writable_pair((#[trigger] req[i]).0, req[i].1),
    ensures
        query_pairs_of(acc).is_prefix_of(query_pairs_of(merge_pairs(acc, template, req))),
        forall|i: int|
            0 <= i < req.len() ==> has_key(template, (#[trigger] req[i]).0) || has_key(
                query_pairs_of(merge_pairs(acc, template, req)),
                req[i].0,
            ),
    decreases req.len(),
{
    if req.len() > 0 {
        let (k, v) = req[0];
        let next = if has_key(template, k) {
            acc
        } else {
            append_pair(acc, k, v)
        };
        let rest = req.drop_first();
        assert forall|i: int| 0 <= i < rest.len() implies is_writable_pair((#[trigger] rest[i]).0, rest[i].1) by {
            assert(rest[i] == req[i + 1]);
        }
        lemma_merge_pairs_keys(next, template, rest);
        let out = query_pairs_of(merge_pairs(acc, template, req));
        assert(merge_pairs(acc, template, req) == merge_pairs(next, template, rest));
        if !has_key(template, k) {
            lemma_append_pair(acc, k, v);
            let pn = query_pairs_of(next);
            assert(pn[pn.len() - 1].0 == k);
            assert(out[pn.len() - 1] == pn[pn.len() - 1]);
            assert(has_key(out, k));
        }
        assert forall|i: int| 0 <= i < req.len() implies has_key(template, (#[trigger] req[i]).0)
            || has_key(out, req[i].0) by {
            if i > 0 {
                assert(req[i] == rest[i - 1]);
            }
        }
    } else {
        assert(query_pairs_of(acc).is_prefix_of(query_pairs_of(acc)));
    }
}

/// Merging pairs whose keys the template all has changes nothing.
pub proof fn lemma_merge_pairs_known(
    acc: Seq<char>,
    template: Seq<(Seq<char>, Seq<char>)>,
    req: Seq<(Seq<char>, Seq<char>)>,
)
    requires
        forall|i: int| 0 <= i < req.len() ==> has_key(template, (#[trigger] req[i]).0),
    ensures
        merge_pairs(acc, template, req) == acc,
    decreases req.len(),
{
    if req.len() > 0 {
        let rest = req.drop_first();
        assert forall|i: int| 0 <= i < rest.len() implies has_key(template, (#[trigger] rest[i]).0) by {
            assert(rest[i] == req[i + 1]);
        }
        assert(has_key(template, req[0].0));
        lemma_merge_pairs_known(acc, template, rest);
    }
}

/// Every pair read from a query has a key without `&` or `=` and a value
/// without `&`.
pub proof fn lemma_query_pairs_chars(q: Seq<char>)
    ensures
        forall|i: int|
            0 <= i < query_pairs_of(q).len() ==> {
                let p = #[trigger] query_pairs_of(q)[i];
                &&& !p.0.contains('&')
                &&& !p.0.contains('=')
                &&& !p.1.contains('&')
            },
{
    let nonempty = |p: Seq<char>| p.len() > 0;
    let parts = split_on(q, '&');
    lemma_split_on_parts(q, '&');
    let f = parts.filter(nonempty);
    assert forall|i: int| 0 <= i < query_pairs_of(q).len() implies {
        let p = #[trigger] query_pairs_of(q)[i];
        &&& !p.0.contains('&')
        &&& !p.0.contains('=')
        &&& !p.1.contains('&')
    } by {
        let part = f[i];
        assert(f.contains(part));
        parts.lemma_filter_contains_rev(nonempty, part);
        let j = choose|j: int| 0 <= j < parts.len() && parts[j] == part;
        assert(!part.contains('&'));
        lemma_find_char(part, '=', 0);
        let p = pair_of(part);
        assert(query_pairs_of(q)[i] == p);
        match crate::text::find_from(part, seq!['='], 0) {
            Some(m) => {
                assert(!p.0.contains('&')) by {
                    if p.0.contains('&') {
                        let x = choose|x: int| 0 <= x < p.0.len() && p.0[x] == '&';
                        assert(part[x] == '&');
                    }
                }
                assert(!p.0.contains('=')) by {
                    if p.0.contains('=') {
                        let x = choose|x: int| 0 <= x < p.0.len() && p.0[x] == '=';
                        assert(part[x] == '=');
                    }
                }
                assert(!p.1.contains('&')) by {
                    if p.1.contains('&') {
                        let x = choose|x: int| 0 <= x < p.1.len() && p.1[x] == '&';
                        assert(part[m + 1 + x] == '&');
                    }
                }
            },
            None => {
                assert(!p.0.contains('=')) by {
                    if p.0.contains('=') {
                        let x = choose|x: int| 0 <= x < p.0.len() && p.0[x] == '=';
                        assert(part[x] == '=');
                    }
                }
                assert(!p.1.contains('&'));
            },
        }
    }
}

/// Merging a request query `q` into a template query `t` twice gives what
/// merging it once gives. This needs `q` to hold no part that is just `=`:
/// such a part reads as an empty key with an empty value, which writes out
/// as nothing and so can be added again.
pub proof fn lemma_merge_idempotent(t: Seq<char>, q: Seq<char>)
    requires
        !query_pairs_of(q).contains((Seq::<char>::empty(), Seq::<char>::empty())),
    ensures
        merged_query(merged_query(t, q), q) == merged_query(t, q),
{
    let qp = query_pairs_of(q);
    let once = merged_query(t, q);
    lemma_query_pairs_chars(q);
    assert forall|i: int| 0 <= i < qp.len() implies is_writable_pair((#[trigger] qp[i]).0, qp[i].1) by {
        if qp[i].0.len() == 0 && qp[i].1.len() == 0 {
            assert(qp[i].0 =~= Seq::<char>::empty());
            assert(qp[i].1 =~= Seq::<char>::empty());
            assert(qp.contains((Seq::<char>::empty(), Seq::<char>::empty())));
        }
    }
    lemma_merge_pairs_keys(t, query_pairs_of(t), qp);
    let op = query_pairs_of(once);
    assert forall|i: int| 0 <= i < qp.len() implies has_key(op, (#[trigger] qp[i]).0) by {
        if has_key(query_pairs_of(t), qp[i].0) {
            let j = choose|j: int| 0 <= j < query_pairs_of(t).len() && (#[trigger] query_pairs_of(t)[j]).0 == qp[i].0;
            assert(op[j] == query_pairs_of(t)[j]);
        }
    }
    lemma_merge_pairs_known(once, op, qp);
}


/// A `tcp` source only ever gets a socket as its destination.
pub proof fn lemma_tcp_dest_is_socket(s: Seq<char>, src: SrcView)
    requires
        src.protocol == Protocol::Tcp,
    ensures
        dest_parse(s, src) is Ok ==> dest_parse(s, src)->Ok_0 is Socket,
{
    reveal(dest_parse);
}

/// From index `i` on, filling in the placeholders of text that ends in `/`
/// gives text that ends in `/`: a placeholder ends in `)`, so the last `/`
/// is always copied as it is.
pub proof fn lemma_expand_from_trailing_slash(s: Seq<char>, captures: Seq<(Seq<char>, Seq<char>)>, i: int)
    requires
        0 <= i < s.len(),
        s.last() == '/',
    ensures
        expand_from(s, captures, i).len() > 0,
        expand_from(s, captures, i).last() == '/',
    decreases s.len() - i,
{
    match token_at(s, i) {
        Some((name, false, e)) => {
            assert(s[e - 1] == ')');
            assert(e < s.len());
            lemma_expand_from_trailing_slash(s, captures, e);
            let filled = match lookup(captures, name) {
                Some(v) => v,
                None => s.subrange(i, e),
            };
            let rest = expand_from(s, captures, e);
            assert(expand_from(s, captures, i) == filled + rest);
            assert((filled + rest).last() == rest.last());
        },
        _ => {
            let rest = expand_from(s, captures, i + 1);
            assert(expand_from(s, captures, i) == seq![s[i]] + rest);
            if i + 1 < s.len() {
                lemma_expand_from_trailing_slash(s, captures, i + 1);
                assert((seq![s[i]] + rest).last() == rest.last());
            } else {
                assert(rest =~= Seq::<char>::empty());
                assert((seq![s[i]] + rest) =~= seq![s[i]]);
            }
        },
    }
}

/// A destination path template that ends in `/` resolves to a path that
/// ends in `/` where the request's tail is empty; where the tail is not
/// empty no doubled slash appears where path and tail meet, so the result
/// has none where neither the filled-in template nor the tail had one.
pub proof fn lemma_template_trailing_slash(
    template: Seq<char>,
    captures: Seq<(Seq<char>, Seq<char>)>,
    tail: Seq<char>,
)
    requires
        template.len() > 0,
        template.last() == '/',
    ensures
        tail.len() == 0 ==> with_tail(expand(template, captures), tail).last() == '/',
        tail.len() > 0 && !has_double_slash(expand(template, captures)) && !has_double_slash(tail)
            ==> !has_double_slash(with_tail(expand(template, captures), tail)),
{
    lemma_expand_from_trailing_slash(template, captures, 0);
    lemma_trailing_slash(expand(template, captures), tail);
}

} // verus!
