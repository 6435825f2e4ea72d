//! Routes, and reading them from command-line arguments.

use vstd::prelude::*;
use crate::dest_location::{dest_parse, nothing_word, DestLocation, DestView};
use crate::error::Error;
use crate::src_location::{src_parse, SrcLocation, SrcView};
use crate::text::{chars_of, same_chars};
use crate::utils::Protocol;

verus! {

/// A source location paired with the destination it routes to.
#[derive(Debug, PartialEq, Eq)]
pub struct Route {
    pub src: SrcLocation,
    pub dest: DestLocation,
}

/// A route as plain values.
pub struct RouteView {
    pub src: SrcView,
    pub dest: DestView,
}

impl View for Route {
    type V = RouteView;

    open spec fn view(&self) -> RouteView {
        RouteView { src: self.src@, dest: self.dest@ }
    }
}

/// The views of a sequence of routes.
pub open spec fn routes_view(rs: Seq<Route>) -> Seq<RouteView> {
    rs.map_values(|r: Route| r@)
}

impl Route {
    /// The protocol that the source listens for.
    pub fn protocol(&self) -> (r: Protocol)
        ensures
            r == self@.src.protocol,
    {
        self.src.protocol()
    }

    /// The host and port that the source listens on.
    pub fn src_socket_addr(&self) -> (r: (&str, u16))
        ensures
            r.0@ == self@.src.host,
            r.1 == self@.src.port,
    {
        (self.src.host(), self.src.port())
    }

    /// The host and port of a TCP destination; HTTP destinations have none.
    pub fn dest_socket_addr(&self) -> (r: Option<(&str, u16)>)
        ensures
            match r {
                Some((h, p)) => self@.dest == (DestView::Socket { host: h@, port: p }),
                None => !(self@.dest is Socket),
            },
    {
        self.dest.socket_addr()
    }
}


/// Why the route arguments could not be read.
#[derive(Debug, Clone, PartialEq, Eq)]
pub enum RouteError {
    /// The last route argument is `and`, with no route after it.
    DanglingAnd,
    /// Between two routes this argument stands where `and` should.
    ExpectedAnd(String),
    /// A route has fewer than three arguments.
    TooFewArgs,
    /// This argument is not a valid source location.
    InvalidSource(String, Error),
    /// This source location is not followed by `to`.
    ExpectedTo(String),
    /// This argument is not a valid destination location.
    InvalidDest(String, Error),
}

/// A route error as plain values.
pub enum RouteErrorView {
    DanglingAnd,
    ExpectedAnd(Seq<char>),
    TooFewArgs,
    InvalidSource(Seq<char>, Error),
    ExpectedTo(Seq<char>),
    InvalidDest(Seq<char>, Error),
}

impl View for RouteError {
    type V = RouteErrorView;

    open spec fn view(&self) -> RouteErrorView {
        match self {
            RouteError::DanglingAnd => RouteErrorView::DanglingAnd,
            RouteError::ExpectedAnd(a) => RouteErrorView::ExpectedAnd(a@),
            RouteError::TooFewArgs => RouteErrorView::TooFewArgs,
            RouteError::InvalidSource(a, e) => RouteErrorView::InvalidSource(a@, *e),
            RouteError::ExpectedTo(a) => RouteErrorView::ExpectedTo(a@),
            RouteError::InvalidDest(a, e) => RouteErrorView::InvalidDest(a@, *e),
        }
    }
}

pub open spec fn and_word() -> Seq<char> {
    seq!['a', 'n', 'd']
}

pub open spec fn to_word() -> Seq<char> {
    seq!['t', 'o']
}

/// The views of a sequence of strings.
pub open spec fn args_view(args: Seq<String>) -> Seq<Seq<char>> {
    args.map_values(|s: String| s@)
}

/// `prefix` followed by the routes of `r`, or the error of `r`.
pub open spec fn prepend(prefix: Seq<RouteView>, r: Result<Seq<RouteView>, RouteErrorView>) -> Result<
    Seq<RouteView>,
    RouteErrorView,
> {
    match r {
        Ok(rs) => Ok(prefix + rs),
        Err(e) => Err(e),
    }
}

/// The routes that the arguments `a` give from index `idx` on, where
/// `and_next` says that a route came before and so `and` must come next. A
/// rule is `SRC to DEST`; the bare word `nothing` may stand for a whole rule.
pub open spec fn parse_rules(a: Seq<Seq<char>>, idx: int, and_next: bool) -> Result<
    Seq<RouteView>,
    RouteErrorView,
>
    decreases a.len() - idx,
{
    if idx < 0 || idx >= a.len() {
        Ok(Seq::empty())
    } else if and_next && a[idx] != and_word() {
        Err(RouteErrorView::ExpectedAnd(a[idx]))
    } else {
        let i = if and_next {
            idx + 1
        } else {
            idx
        };
        if i >= a.len() {
            Ok(Seq::empty())
        } else if a[i] == nothing_word() && (i == a.len() - 1 || a[i + 1] == and_word()) {
            parse_rules(a, i + 1, true)
        } else if i + 2 >= a.len() {
            Err(RouteErrorView::TooFewArgs)
        } else {
            match rule_at(a, i) {
                Err(e) => Err(e),
                Ok(r) => prepend(seq![r], parse_rules(a, i + 3, true)),
            }
        }
    }
}

/// The route that the three arguments `SRC to DEST` from index `i` give.
pub open spec fn rule_at(a: Seq<Seq<char>>, i: int) -> Result<RouteView, RouteErrorView> {
    match src_parse(a[i]) {
        Err(e) => Err(RouteErrorView::InvalidSource(a[i], e)),
        Ok(s) => {
            if a[i + 1] != to_word() {
                Err(RouteErrorView::ExpectedTo(a[i]))
            } else {
                match dest_parse(a[i + 2], s) {
                    Err(e) => Err(RouteErrorView::InvalidDest(a[i + 2], e)),
                    Ok(d) => Ok(RouteView { src: s, dest: d }),
                }
            }
        },
    }
}

/// The index of the first argument that starts with `-`, from `i` on, or
/// the number of arguments where none does.
pub open spec fn options_start(a: Seq<Seq<char>>, i: int) -> int
    decreases a.len() - i,
{
    if i < 0 || i >= a.len() {
        a.len() as int
    } else if a[i].len() > 0 && a[i][0] == '-' {
        i
    } else {
        options_start(a, i + 1)
    }
}

/// What reading routes from `args` gives: the routes, and the index where
/// the options that follow them start.
pub open spec fn routes_from_args(args: Seq<Seq<char>>) -> Result<(Seq<RouteView>, int), RouteErrorView> {
    let n = options_start(args, 0);
    let a = args.take(n);
    if a.len() > 0 && a.last() == and_word() {
        Err(RouteErrorView::DanglingAnd)
    } else {
        match parse_rules(a, 0, false) {
            Ok(rs) => Ok((rs, n)),
            Err(e) => Err(e),
        }
    }
}

/// Whether `s` is the word `w`.
fn is_word(s: &String, w: &Vec<char>) -> (r: bool)
    ensures
        r == (s@ == w@),
{
    let v = chars_of(s.as_str());
    same_chars(v.as_slice(), w.as_slice())
}

/// The index of the first argument that starts with `-`, or the number of
/// arguments where none does.
fn options_index(args: &[String]) -> (r: usize)
    ensures
        r == options_start(args_view(args@), 0),
        r <= args@.len(),
{
    let ghost av = args_view(args@);
    let len = args.len();
    let mut n: usize = 0;
    while n < len
        invariant
            n <= len,
            len == args@.len(),
            av == args_view(args@),
            options_start(av, 0) == options_start(av, n as int),
        decreases len - n,
    {
        let v = chars_of(args[n].as_str());
        assert(av[n as int] == args@[n as int]@);
        if v.len() > 0 && v[0] == '-' {
            return n;
        }
        n += 1;
    }
    n
}

/// Reads the rule `SRC to DEST` from the three arguments at index `i`.
fn rule_at_index(args: &[String], i: usize, to_w: &Vec<char>) -> (r: Result<Route, RouteError>)
    requires
        i + 2 < args@.len(),
        to_w@ == to_word(),
    ensures
        match r {
            Ok(route) => rule_at(args_view(args@), i as int) == Ok::<RouteView, RouteErrorView>(route@),
            Err(e) => rule_at(args_view(args@), i as int) == Err::<RouteView, RouteErrorView>(e@),
        },
{
    let ghost av = args_view(args@);
    assert(av[i as int] == args@[i as int]@);
    assert(av[i + 1] == args@[i + 1]@);
    assert(av[i + 2] == args@[i + 2]@);
    let src = match SrcLocation::parse(args[i].as_str()) {
        Ok(s) => s,
        Err(e) => {
            return Err(RouteError::InvalidSource(args[i].clone(), e));
        },
    };
    if !is_word(&args[i + 1], to_w) {
        return Err(RouteError::ExpectedTo(args[i].clone()));
    }
    let dest = match DestLocation::parse(args[i + 2].as_str(), &src) {
        Ok(d) => d,
        Err(e) => {
            return Err(RouteError::InvalidDest(args[i + 2].clone(), e));
        },
    };
    Ok(Route { src, dest })
}

/// Reads routes from the arguments, up to the first one that starts with
/// `-`. Hands back the routes and the arguments from there on.
#[verifier::rlimit(40)]
pub fn from_args(args: &[String]) -> (r: Result<(Vec<Route>, &[String]), RouteError>)
    ensures
        match r {
            Ok((rs, rest)) => routes_from_args(args_view(args@)) == Ok::<(Seq<RouteView>, int), RouteErrorView>(
                (routes_view(rs@), args@.len() - rest@.len()),
            ) && rest@ == args@.skip(args@.len() - rest@.len()),
            Err(e) => routes_from_args(args_view(args@)) == Err::<(Seq<RouteView>, int), RouteErrorView>(e@),
        },
{
    let ghost av = args_view(args@);
    let len = args.len();
    let n = options_index(args);
    let rest = vstd::slice::slice_subrange(args, n, len);
    let ghost a = av.take(n as int);
    let and_w = vec!['a', 'n', 'd'];
    let to_w = vec!['t', 'o'];
    let nothing_w = vec!['n', 'o', 't', 'h', 'i', 'n', 'g'];
    assert(and_w@ =~= and_word());
    assert(to_w@ =~= to_word());
    assert(nothing_w@ =~= nothing_word());
    if n > 0 && is_word(&args[n - 1], &and_w) {
        assert(a.last() == av[n - 1]);
        return Err(RouteError::DanglingAnd);
    }
    assert(n > 0 ==> a.last() == av[n - 1]);
    let mut routes: Vec<Route> = Vec::new();
    let mut idx: usize = 0;
    let mut and_next = false;
    assert(routes_view(routes@) =~= Seq::<RouteView>::empty());
    assert(prepend(Seq::empty(), parse_rules(a, 0, false)) =~= parse_rules(a, 0, false)) by {
        match parse_rules(a, 0, false) {
            Ok(rs) => {
                assert(Seq::<RouteView>::empty() + rs =~= rs);
            },
            Err(_) => {},
        }
    }
    while idx < n
        invariant
            n <= len,
            len == args@.len(),
            av == args_view(args@),
            a == av.take(n as int),
            a.len() == n,
            idx <= n,
            !(a.len() > 0 && a.last() == and_word()),
            routes_from_args(av) == match parse_rules(a, 0, false) {
                Ok(rs) => Ok::<(Seq<RouteView>, int), RouteErrorView>((rs, n as int)),
                Err(e) => Err(e),
            },
            and_w@ == and_word(),
            to_w@ == to_word(),
            nothing_w@ == nothing_word(),
            parse_rules(a, 0, false) == prepend(routes_view(routes@), parse_rules(a, idx as int, and_next)),
        decreases n - idx,
    {
        let ghost before = parse_rules(a, idx as int, and_next);
        assert(a[idx as int] == args@[idx as int]@);
        if and_next && !is_word(&args[idx], &and_w) {
            let e = RouteError::ExpectedAnd(args[idx].clone());
            assert(parse_rules(a, idx as int, and_next) == Err::<Seq<RouteView>, RouteErrorView>(e@));
            return Err(e);
        }
        let i = if and_next {
            idx + 1
        } else {
            idx
        };
        if i >= n {
            assert(parse_rules(a, idx as int, and_next) == Ok::<Seq<RouteView>, RouteErrorView>(Seq::empty()));
            assert(routes_view(routes@) + Seq::<RouteView>::empty() =~= routes_view(routes@));
            idx = n;
            assert(parse_rules(a, idx as int, true) == Ok::<Seq<RouteView>, RouteErrorView>(Seq::empty()));
            and_next = true;
            continue;
        }
        assert(a[i as int] == args@[i as int]@);
        if i + 1 < n {
            assert(a[i + 1] == args@[i + 1]@);
        }
        if is_word(&args[i], &nothing_w) && (i == n - 1 || is_word(&args[i + 1], &and_w)) {
            idx = i + 1;
            and_next = true;
            continue;
        }
        if n - i <= 2 {
            assert(parse_rules(a, idx as int, and_next) == Err::<Seq<RouteView>, RouteErrorView>(
                RouteErrorView::TooFewArgs,
            ));
            return Err(RouteError::TooFewArgs);
        }
        assert(rule_at(a, i as int) == rule_at(av, i as int)) by {
            assert(a[i as int] == av[i as int]);
            assert(a[i + 1] == av[i + 1]);
            assert(a[i + 2] == av[i + 2]);
        }
        let route = match rule_at_index(args, i, &to_w) {
            Ok(route) => route,
            Err(e) => {
                assert(parse_rules(a, idx as int, and_next) == Err::<Seq<RouteView>, RouteErrorView>(e@));
                return Err(e);
            },
        };
        let ghost old_routes = routes_view(routes@);
        let ghost rv = route@;
        routes.push(route);
        assert(routes_view(routes@) =~= old_routes.push(rv));
        idx = i + 3;
        and_next = true;
        proof {
            let tail = parse_rules(a, idx as int, true);
            match tail {
                Ok(rs) => {
                    assert(old_routes + (seq![rv] + rs) =~= old_routes.push(rv) + rs);
                },
                Err(_) => {},
            }
        }
    }
    assert(parse_rules(a, idx as int, and_next) == Ok::<Seq<RouteView>, RouteErrorView>(Seq::empty()));
    assert(routes_view(routes@) + Seq::<RouteView>::empty() =~= routes_view(routes@));
    assert(rest@ =~= args@.skip(n as int));
    Ok((routes, rest))
}

} // verus!
