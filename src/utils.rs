//! Splitting URL-like text into protocol, host, port, path and query.

use vstd::prelude::*;
use crate::error::Error;
use crate::text::{
    all_digits, chars_of, chars_range, digits_only, eq_ignore_case, eq_ignore_case_at, find,
    find_chars, last_index, last_index_of, parse_port, port_number, string_of, string_of_range,
};
use vstd::slice::slice_subrange;

verus! {

/// The protocol that is being used.
#[derive(Debug, Clone, Copy, PartialEq, Eq, Hash, Structural)]
pub enum Protocol {
    Http,
    Https,
    Tcp,
}

/// The text that the host parser of the `url` crate makes of `s`, or `None`
/// where it refuses `s`.
pub uninterp spec fn host_text(s: Seq<char>) -> Option<Seq<char>>;

/// Relies on `url::Host::parse` and the `Display` of the host it returns:
/// the outcome depends on the text alone.
#[verifier::external_body]
fn parse_host(s: &str) -> (r: Option<String>)
    ensures
        match r {
            Some(h) => host_text(s@) == Some(h@),
            None => host_text(s@) is None,
        },
{
    match url::Host::parse(s) {
        Ok(h) => Some(h.to_string()),
        Err(_) => None,
    }
}

pub open spec fn http_word() -> Seq<char> {
    seq!['h', 't', 't', 'p']
}

pub open spec fn https_word() -> Seq<char> {
    seq!['h', 't', 't', 'p', 's']
}

pub open spec fn tcp_word() -> Seq<char> {
    seq!['t', 'c', 'p']
}

pub open spec fn localhost() -> Seq<char> {
    seq!['l', 'o', 'c', 'a', 'l', 'h', 'o', 's', 't']
}

pub open spec fn scheme_separator() -> Seq<char> {
    seq![':', '/', '/']
}

/// The protocol that `s` names, ignoring ASCII case.
pub open spec fn protocol_named(s: Seq<char>) -> Option<Protocol> {
    if eq_ignore_case(s, http_word()) {
        Some(Protocol::Http)
    } else if eq_ignore_case(s, https_word()) {
        Some(Protocol::Https)
    } else if eq_ignore_case(s, tcp_word()) {
        Some(Protocol::Tcp)
    } else {
        None
    }
}

impl Protocol {
    /// Reads a protocol name, ignoring ASCII case.
    pub fn from_chars(v: &[char], from: usize, to: usize) -> (r: Option<Protocol>)
        requires
            from <= to <= v@.len(),
        ensures
            r == protocol_named(v@.subrange(from as int, to as int)),
    {
        let http = vec!['h', 't', 't', 'p'];
        let https = vec!['h', 't', 't', 'p', 's'];
        let tcp = vec!['t', 'c', 'p'];
        assert(http@ =~= http_word());
        assert(https@ =~= https_word());
        assert(tcp@ =~= tcp_word());
        if eq_ignore_case_at(v, from, to, http.as_slice()) {
            Some(Protocol::Http)
        } else if eq_ignore_case_at(v, from, to, https.as_slice()) {
            Some(Protocol::Https)
        } else if eq_ignore_case_at(v, from, to, tcp.as_slice()) {
            Some(Protocol::Tcp)
        } else {
            None
        }
    }

    /// Reads a protocol name, ignoring ASCII case.
    pub fn parse(s: &str) -> (r: Option<Protocol>)
        ensures
            r == protocol_named(s@),
    {
        let v = chars_of(s);
        assert(v@.subrange(0, v@.len() as int) =~= v@);
        Protocol::from_chars(v.as_slice(), 0, v.len())
    }
}


/// Take something that looks a little like a URL and find each part of it.
#[derive(Debug, Clone, PartialEq, Eq)]
pub struct SplitUrl {
    pub protocol: Option<Protocol>,
    pub host: String,
    pub port: Option<u16>,
    pub path: String,
    pub query: String,
}

/// The parts of a split URL, as character sequences.
pub struct SplitView {
    pub protocol: Option<Protocol>,
    pub host: Seq<char>,
    pub port: Option<u16>,
    pub path: Seq<char>,
    pub query: Seq<char>,
}

impl View for SplitUrl {
    type V = SplitView;

    open spec fn view(&self) -> SplitView {
        SplitView {
            protocol: self.protocol,
            host: self.host@,
            port: self.port,
            path: self.path@,
            query: self.query@,
        }
    }
}

/// Splits at the first `?`: what comes before it, and what comes after it.
pub open spec fn query_split(s: Seq<char>) -> (Seq<char>, Seq<char>) {
    match find(s, seq!['?']) {
        Some(i) => (s.take(i), s.skip(i + 1)),
        None => (s, Seq::empty()),
    }
}

/// Host and port of an authority. `host:digits` gives both (the digits
/// after the last `:`); bare digits give a port on `localhost`; anything
/// else is a host without a port.
pub open spec fn authority_parts(a: Seq<char>) -> Result<(Seq<char>, Option<u16>), Error> {
    let colon = last_index_of(a, ':');
    if colon is Some && colon->0 + 1 < a.len() && all_digits(a.skip(colon->0 + 1)) {
        match port_number(a.skip(colon->0 + 1)) {
            Some(p) => Ok((a.take(colon->0), Some(p))),
            None => Err(Error::InvalidPort),
        }
    } else {
        match port_number(a) {
            Some(p) => Ok((localhost(), Some(p))),
            None => Ok((a, None)),
        }
    }
}

/// What splitting `s` gives.
#[verifier::opaque]
pub open spec fn split_url(s: Seq<char>) -> Result<SplitView, Error> {
    let sep = find(s, scheme_separator());
    let protocol = match sep {
        Some(n) => protocol_named(s.take(n)),
        None => None,
    };
    let rest = match sep {
        Some(n) => s.skip(n + 3),
        None => s,
    };
    if sep is Some && protocol is None {
        Err(Error::UnknownProtocol)
    } else {
        let slash = find(rest, seq!['/']);
        let authority = match slash {
            Some(k) => rest.take(k),
            None => rest,
        };
        let tail = match slash {
            Some(k) => rest.skip(k),
            None => Seq::empty(),
        };
        match authority_parts(authority) {
            Err(e) => Err(e),
            Ok((h, port)) => {
                let h = if h.len() == 0 {
                    localhost()
                } else {
                    h
                };
                match host_text(h) {
                    None => Err(Error::InvalidHost),
                    Some(host) => {
                        let (p, q) = query_split(tail);
                        Ok(
                            SplitView {
                                protocol,
                                host,
                                port,
                                path: if tail.len() > 0 && tail[0] == '/' {
                                    p
                                } else {
                                    seq!['/'] + p
                                },
                                query: q,
                            },
                        )
                    },
                }
            },
        }
    }
}

/// The characters of `localhost`.
pub fn localhost_chars() -> (r: Vec<char>)
    ensures
        r@ == localhost(),
{
    let r = vec!['l', 'o', 'c', 'a', 'l', 'h', 'o', 's', 't'];
    assert(r@ =~= localhost());
    r
}

fn authority_of(a: &[char]) -> (r: Result<(Vec<char>, Option<u16>), Error>)
    ensures
        match r {
            Ok((h, p)) => authority_parts(a@) == Ok::<(Seq<char>, Option<u16>), Error>((h@, p)),
            Err(e) => authority_parts(a@) == Err::<(Seq<char>, Option<u16>), Error>(e),
        },
{
    let len = a.len();
    let colon = last_index(a, ':');
    match colon {
        Some(k) => {
            if k + 1 < len {
                let digits = slice_subrange(a, k + 1, a.len());
                assert(digits@ =~= a@.skip(k + 1));
                if digits_only(digits) {
                    let n = digits.len();
                    assert(digits@.subrange(0, n as int) =~= digits@);
                    return match parse_port(digits, 0, n) {
                        Some(p) => Ok((chars_range(a, 0, k), Some(p))),
                        None => Err(Error::InvalidPort),
                    };
                }
            }
        },
        None => {},
    }
    let n = a.len();
    assert(a@.subrange(0, n as int) =~= a@);
    match parse_port(a, 0, n) {
        Some(p) => Ok((localhost_chars(), Some(p))),
        None => Ok((chars_range(a, 0, n), None)),
    }
}

impl SplitUrl {
    /// Splits the characters `v`.
    pub fn parse_chars(v: &[char]) -> (r: Result<SplitUrl, Error>)
        ensures
            match r {
                Ok(u) => split_url(v@) == Ok::<SplitView, Error>(u@),
                Err(e) => split_url(v@) == Err::<SplitView, Error>(e),
            },
    {
        reveal(split_url);
        let sep_chars = vec![':', '/', '/'];
        assert(sep_chars@ =~= scheme_separator());
        let sep = find_chars(v, sep_chars.as_slice());
        let mut protocol: Option<Protocol> = None;
        let mut start: usize = 0;
        match sep {
            Some(n) => {
                let named = Protocol::from_chars(v, 0, n);
                assert(v@.subrange(0, n as int) =~= v@.take(n as int));
                if named.is_none() {
                    return Err(Error::UnknownProtocol);
                }
                protocol = named;
                start = n + 3;
            },
            None => {},
        }
        let rest = slice_subrange(v, start, v.len());
        assert(sep is None ==> rest@ =~= v@);
        assert(sep is Some ==> rest@ =~= v@.skip(start as int));
        let slash_chars = vec!['/'];
        assert(slash_chars@ =~= seq!['/']);
        let slash = find_chars(rest, slash_chars.as_slice());
        let split_at = match slash {
            Some(k) => k,
            None => rest.len(),
        };
        let authority = slice_subrange(rest, 0, split_at);
        let tail = slice_subrange(rest, split_at, rest.len());
        assert(slash is Some ==> authority@ =~= rest@.take(split_at as int));
        assert(slash is None ==> authority@ =~= rest@);
        assert(slash is Some ==> tail@ =~= rest@.skip(split_at as int));
        assert(slash is None ==> tail@ =~= Seq::<char>::empty());
        let (host_chars, port) = match authority_of(authority) {
            Ok(hp) => hp,
            Err(e) => {
                return Err(e);
            },
        };
        let host_chars = if host_chars.len() == 0 {
            localhost_chars()
        } else {
            host_chars
        };
        let host_string = string_of(host_chars.as_slice());
        let host = match parse_host(host_string.as_str()) {
            Some(h) => h,
            None => {
                return Err(Error::InvalidHost);
            },
        };
        let q_chars = vec!['?'];
        assert(q_chars@ =~= seq!['?']);
        let q = find_chars(tail, q_chars.as_slice());
        let path_end = match q {
            Some(i) => i,
            None => tail.len(),
        };
        let query_start = match q {
            Some(i) => i + 1,
            None => tail.len(),
        };
        assert(q is Some ==> tail@.subrange(0, path_end as int) =~= tail@.take(path_end as int));
        assert(q is None ==> tail@.subrange(0, path_end as int) =~= tail@);
        assert(q is Some ==> tail@.subrange(query_start as int, tail@.len() as int) =~= tail@.skip(
            query_start as int,
        ));
        let mut path = String::new();
        if tail.len() == 0 || tail[0] != '/' {
            path.push('/');
        }
        let mut i: usize = 0;
        let ghost prefix = path@;
        while i < path_end
            invariant
                path_end <= tail@.len(),
                path@ == prefix + tail@.subrange(0, i as int),
                i <= path_end,
            decreases path_end - i,
        {
            path.push(tail[i]);
            i += 1;
            assert(path@ =~= prefix + tail@.subrange(0, i as int));
        }
        assert(prefix.len() == 0 ==> prefix + tail@.subrange(0, path_end as int) =~= tail@.subrange(
            0,
            path_end as int,
        ));
        let query = string_of_range(tail, query_start, tail.len());
        assert(query@ == query_split(tail@).1);
        assert(query_split(tail@).0 == tail@.subrange(0, path_end as int));
        assert(protocol == (match sep {
            Some(n) => protocol_named(v@.take(n as int)),
            None => None,
        }));
        Ok(SplitUrl { protocol, host, port, path, query })
    }

    /// Splits `input` into protocol, host, port, path and query.
    pub fn parse(input: &str) -> (r: Result<SplitUrl, Error>)
        ensures
            match r {
                Ok(u) => split_url(input@) == Ok::<SplitView, Error>(u@),
                Err(e) => split_url(input@) == Err::<SplitView, Error>(e),
            },
    {
        let v = chars_of(input);
        SplitUrl::parse_chars(v.as_slice())
    }
}

/// Splits `path_and_query` at its first `?`.
pub fn split_path_and_query(path_and_query: &str) -> (r: (&str, &str))
    ensures
        (r.0@, r.1@) == query_split(path_and_query@),
{
    let v = chars_of(path_and_query);
    let len = v.len();
    let q_chars = vec!['?'];
    assert(q_chars@ =~= seq!['?']);
    match find_chars(v.as_slice(), q_chars.as_slice()) {
        Some(i) => (
            path_and_query.substring_char(0, i),
            path_and_query.substring_char(i + 1, len),
        ),
        None => (path_and_query, path_and_query.substring_char(v.len(), v.len())),
    }
}

} // verus!
