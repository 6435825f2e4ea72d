//! Choosing the route that a request takes.

use vstd::prelude::*;
use crate::dest_location::{resolve_spec, ResolvedLocation, ResolvedView};
use crate::routes::{routes_view, Route, RouteView};
use crate::src_location::{match_request, SrcView};

verus! {

broadcast use vstd::seq_lib::group_seq_properties;

/// The sort key of a source location; smaller keys are tried first. Exact
/// locations come first; then, within each, those without captures, longer
/// paths first; then those with captures, which all share one key.
pub open spec fn key_of(s: SrcView) -> (int, int) {
    let rank = (if s.exact {
        0int
    } else {
        2int
    }) + (if s.has_patterns() {
        1int
    } else {
        0int
    });
    (rank, if s.has_patterns() {
        0
    } else {
        -(s.path.len() as int)
    })
}

/// Whether key `a` comes no later than key `b`.
pub open spec fn key_le(a: (int, int), b: (int, int)) -> bool {
    a.0 < b.0 || (a.0 == b.0 && a.1 <= b.1)
}

/// The routes whose key is `k`, in their order.
pub open spec fn with_key(rs: Seq<RouteView>, k: (int, int)) -> Seq<RouteView> {
    rs.filter(|r: RouteView| key_of(r.src) == k)
}

/// The routes are in key order.
pub open spec fn sorted_routes(rs: Seq<RouteView>) -> bool {
    forall|i: int, j: int| 0 <= i < j < rs.len() ==> key_le(key_of(#[trigger] rs[i].src), key_of(#[trigger] rs[j].src))
}

/// The index of the first route from `i` on that matches the request.
pub open spec fn first_match_from(rs: Seq<RouteView>, path: Seq<char>, query: Seq<char>, i: int) -> Option<int>
    decreases rs.len() - i,
{
    if i < 0 || i >= rs.len() {
        None
    } else if match_request(rs[i].src, path, query) is Some {
        Some(i)
    } else {
        first_match_from(rs, path, query, i + 1)
    }
}

/// The index of the first route that matches the request.
pub open spec fn first_match(rs: Seq<RouteView>, path: Seq<char>, query: Seq<char>) -> Option<int> {
    first_match_from(rs, path, query, 0)
}

/// Where the first matching route sends the request, if any route matches.
pub open spec fn resolve_routes(rs: Seq<RouteView>, path: Seq<char>, query: Seq<char>) -> Option<ResolvedView> {
    match first_match(rs, path, query) {
        Some(i) => Some(resolve_spec(rs[i].dest, match_request(rs[i].src, path, query)->0)),
        None => None,
    }
}

/// Routes sharing one listen address, in the order in which they are tried.
#[derive(Debug, PartialEq, Eq)]
pub struct Matcher {
    routes: Vec<Route>,
}

impl View for Matcher {
    type V = Seq<RouteView>;

    closed spec fn view(&self) -> Seq<RouteView> {
        routes_view(self.routes@)
    }
}

/// Whether route `a` sorts no later than route `b`.
fn route_key_le(a: &Route, b: &Route) -> (r: bool)
    ensures
        r == key_le(key_of(a@.src), key_of(b@.src)),
{
    let ra: u8 = (if a.src.is_exact() { 0 } else { 2 }) + (if a.src.has_patterns() { 1 } else { 0 });
    let rb: u8 = (if b.src.is_exact() { 0 } else { 2 }) + (if b.src.has_patterns() { 1 } else { 0 });
    if ra != rb {
        return ra < rb;
    }
    if a.src.has_patterns() {
        return true;
    }
    let la = a.src.path().unicode_len();
    let lb = b.src.path().unicode_len();
    la >= lb
}

impl Matcher {
    /// Builds a matcher, sorting the routes by key. The sort is stable:
    /// routes with equal keys keep the order in which they were given.
    pub fn new(routes: Vec<Route>) -> (r: Matcher)
        ensures
            sorted_routes(r@),
            forall|k: (int, int)| #[trigger] with_key(r@, k) == with_key(routes_view(routes@), k),
            r@.len() == routes@.len(),
    {
        let ghost orig = routes_view(routes@);
        let mut input = routes;
        let mut out: Vec<Route> = Vec::new();
        let ghost mut taken: nat = 0;
        while input.len() > 0
            invariant
                taken + input@.len() == orig.len(),
                routes_view(input@) == orig.skip(taken as int),
                sorted_routes(routes_view(out@)),
                out@.len() == taken,
                forall|k: (int, int)| #[trigger] with_key(routes_view(out@), k) == with_key(orig.take(taken as int), k),
            decreases input@.len(),
        {
            let ghost ov = routes_view(out@);
            let x = input.remove(0);
            let ghost xv = x@;
            assert(orig.skip(taken as int)[0] == xv);
            assert(orig.take((taken + 1) as int) =~= orig.take(taken as int).push(xv));
            assert(routes_view(input@) =~= orig.skip((taken + 1) as int));
            let mut p: usize = 0;
            while p < out.len() && route_key_le(&out[p], &x)
                invariant
                    p <= out@.len(),
                    ov == routes_view(out@),
                    xv == x@,
                    forall|q: int| 0 <= q < p ==> key_le(key_of(#[trigger] ov[q].src), key_of(xv.src)),
                decreases out@.len() - p,
            {
                p += 1;
            }
            assert(forall|q: int| p <= q < ov.len() ==> !key_le(key_of(#[trigger] ov[q].src), key_of(xv.src))) by {
                assert forall|q: int| p <= q < ov.len() implies !key_le(key_of(#[trigger] ov[q].src), key_of(xv.src)) by {
                    if p < ov.len() {
                        assert(!key_le(key_of(ov[p as int].src), key_of(xv.src)));
                        if q > p {
                            assert(key_le(key_of(ov[p as int].src), key_of(ov[q].src)));
                        }
                    }
                }
            }
            out.insert(p, x);
            let ghost nv = routes_view(out@);
            assert(nv =~= ov.take(p as int) + seq![xv] + ov.skip(p as int));
            assert(sorted_routes(nv)) by {
                assert forall|i: int, j: int| 0 <= i < j < nv.len() implies key_le(key_of(#[trigger] nv[i].src), key_of(#[trigger] nv[j].src)) by {
                    if j < p {
                        assert(nv[i] == ov[i] && nv[j] == ov[j]);
                    } else if j == p {
                        assert(nv[i] == ov[i]);
                    } else if i < p {
                        assert(nv[i] == ov[i] && nv[j] == ov[j - 1]);
                    } else if i == p {
                        assert(nv[j] == ov[j - 1]);
                    } else {
                        assert(nv[i] == ov[i - 1] && nv[j] == ov[j - 1]);
                    }
                }
            }
            assert forall|k: (int, int)| #[trigger] with_key(nv, k) == with_key(orig.take((taken + 1) as int), k) by {
                let pred = |r: RouteView| key_of(r.src) == k;
                let a = ov.take(p as int);
                let b = ov.skip(p as int);
                assert(ov =~= a + b);
                Seq::filter_distributes_over_add(a, b, pred);
                Seq::filter_distributes_over_add(a + seq![xv], b, pred);
                Seq::filter_distributes_over_add(a, seq![xv], pred);
                orig.take(taken as int).lemma_filter_push(xv, pred);
                if key_of(xv.src) == k {
                    assert(b.filter(pred).len() == 0) by {
                        broadcast use vstd::seq_lib::group_filter_ensures;
                        if b.filter(pred).len() > 0 {
                            let e = b.filter(pred)[0];
                            assert(b.filter(pred).contains(e));
                            b.lemma_filter_contains_rev(pred, e);
                            b.lemma_filter_pred(pred, 0);
                            assert(b.contains(e));
                            let q = choose|q: int| 0 <= q < b.len() && b[q] == e;
                            assert(ov[p + q] == b[q]);
                            assert(!key_le(key_of(ov[p + q].src), key_of(xv.src)));
                        }
                    }
                    assert(seq![xv].filter(pred) =~= seq![xv]) by {
                        Seq::<RouteView>::empty().lemma_filter_push(xv, pred);
                        assert(Seq::<RouteView>::empty().push(xv) =~= seq![xv]);
                    }
                    assert(b.filter(pred) =~= Seq::<RouteView>::empty());
                } else {
                    assert(seq![xv].filter(pred) =~= Seq::<RouteView>::empty()) by {
                        Seq::<RouteView>::empty().lemma_filter_push(xv, pred);
                        assert(Seq::<RouteView>::empty().push(xv) =~= seq![xv]);
                    }
                }
                assert(with_key(ov, k) == with_key(orig.take(taken as int), k));
            }
            proof {
                taken = taken + 1;
            }
        }
        assert(orig.take(taken as int) =~= orig);
        Matcher { routes: out }
    }

    /// Where a request goes, given its path and query string: the first
    /// route in sorted order that matches it decides, or `None` where no
    /// route matches. The result depends on the routes and the request
    /// alone, however often it is asked for.
    pub fn resolve(&self, path: &str, query: &str) -> (r: Option<ResolvedLocation>)
        ensures
            match r {
                Some(x) => resolve_routes(self@, path@, query@) == Some(x@),
                None => resolve_routes(self@, path@, query@) is None,
            },
    {
        let ghost rs = self@;
        let mut i: usize = 0;
        while i < self.routes.len()
            invariant
                i <= self.routes@.len(),
                rs == routes_view(self.routes@),
                first_match(rs, path@, query@) == first_match_from(rs, path@, query@, i as int),
            decreases self.routes@.len() - i,
        {
            let route = &self.routes[i];
            assert(rs[i as int] == route@);
            match route.src.match_uri(path, query) {
                Some(m) => {
                    return Some(route.dest.resolve(&m));
                },
                None => {},
            }
            i += 1;
        }
        None
    }

    /// The number of routes.
    pub fn len(&self) -> (r: usize)
        ensures
            r == self@.len(),
    {
        self.routes.len()
    }
}

/// Where route `i` matches, the search from any earlier index stops at a
/// route no later than `i`.
pub proof fn lemma_first_match_no_later(rs: Seq<RouteView>, path: Seq<char>, query: Seq<char>, a: int, i: int)
    requires
        0 <= a <= i < rs.len(),
        match_request(rs[i].src, path, query) is Some,
    ensures
        first_match_from(rs, path, query, a) is Some,
        a <= first_match_from(rs, path, query, a)->0 <= i,
        match_request(rs[first_match_from(rs, path, query, a)->0].src, path, query) is Some,
    decreases i - a,
{
    if match_request(rs[a].src, path, query) is None {
        lemma_first_match_no_later(rs, path, query, a + 1, i);
    }
}

/// Exact routes win over routes that are not exact: where an exact route
/// matches a request, the route chosen comes no later than it, and before
/// every route that is not exact. This holds of the routes of every
/// matcher, which `Matcher::new` leaves sorted.
pub proof fn lemma_exact_before_prefix(
    rs: Seq<RouteView>,
    path: Seq<char>,
    query: Seq<char>,
    exact: int,
    prefix: int,
)
    requires
        sorted_routes(rs),
        0 <= exact < rs.len(),
        0 <= prefix < rs.len(),
        rs[exact].src.exact,
        !rs[prefix].src.exact,
        match_request(rs[exact].src, path, query) is Some,
    ensures
        first_match(rs, path, query) is Some,
        first_match(rs, path, query)->0 <= exact,
        first_match(rs, path, query)->0 < prefix,
{
    lemma_first_match_no_later(rs, path, query, 0, exact);
    if prefix <= exact {
        if prefix < exact {
            assert(key_le(key_of(rs[prefix].src), key_of(rs[exact].src)));
        }
    }
}

/// Routes without captures win over routes with captures that are as
/// exact: where such a literal route matches a request, the route chosen
/// comes no later than it, and before every route with captures of the same
/// exactness. This holds of the routes of every matcher, which
/// `Matcher::new` leaves sorted.
pub proof fn lemma_literal_before_pattern(
    rs: Seq<RouteView>,
    path: Seq<char>,
    query: Seq<char>,
    literal: int,
    patterned: int,
)
    requires
        sorted_routes(rs),
        0 <= literal < rs.len(),
        0 <= patterned < rs.len(),
        rs[literal].src.exact == rs[patterned].src.exact,
        !rs[literal].src.has_patterns(),
        rs[patterned].src.has_patterns(),
        match_request(rs[literal].src, path, query) is Some,
    ensures
        first_match(rs, path, query) is Some,
        first_match(rs, path, query)->0 <= literal,
        first_match(rs, path, query)->0 < patterned,
{
    lemma_first_match_no_later(rs, path, query, 0, literal);
    if patterned <= literal {
        if patterned < literal {
            assert(key_le(key_of(rs[patterned].src), key_of(rs[literal].src)));
        }
    }
}

} // verus!
