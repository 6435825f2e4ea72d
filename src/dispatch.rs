//! What to start on one listen address, given the routes that share it.

use vstd::prelude::*;
use crate::routes::{routes_view, Route, RouteView};
use crate::utils::Protocol;

verus! {

/// The listener for one address: an HTTP server for its routes, or a TCP
/// forwarder for its single route.
#[derive(Debug)]
pub enum Listener {
    Http(Vec<Route>),
    Tcp(Route),
}

/// A listener as plain values.
pub enum ListenerView {
    Http(Seq<RouteView>),
    Tcp(RouteView),
}

impl View for Listener {
    type V = ListenerView;

    open spec fn view(&self) -> ListenerView {
        match self {
            Listener::Http(rs) => ListenerView::Http(routes_view(rs@)),
            Listener::Tcp(r) => ListenerView::Tcp(r@),
        }
    }
}

/// Why routes cannot share one listen address.
#[derive(Debug, Clone, Copy, PartialEq, Eq, Structural)]
pub enum ListenError {
    /// Two or more TCP routes listen on the address.
    SeveralTcpRoutes,
    /// A TCP route and HTTP routes listen on the address.
    MixedProtocols,
}

/// The routes whose source protocol is TCP.
pub open spec fn tcp_routes(rs: Seq<RouteView>) -> Seq<RouteView> {
    rs.filter(|r: RouteView| r.src.protocol == Protocol::Tcp)
}

/// The listener that routes sharing one address call for: without TCP
/// routes, an HTTP server for all of them; otherwise the address must hold
/// exactly one route, and it is forwarded over TCP.
pub open spec fn listener_plan(rs: Seq<RouteView>) -> Result<ListenerView, ListenError> {
    let tcp = tcp_routes(rs);
    if tcp.len() == 0 {
        Ok(ListenerView::Http(rs))
    } else if tcp.len() > 1 {
        Err(ListenError::SeveralTcpRoutes)
    } else if rs.len() > 1 {
        Err(ListenError::MixedProtocols)
    } else {
        Ok(ListenerView::Tcp(rs[0]))
    }
}

/// Decides what to start on an address shared by `routes`.
pub fn plan_listener(routes: Vec<Route>) -> (r: Result<Listener, ListenError>)
    ensures
        match r {
            Ok(l) => listener_plan(routes_view(routes@)) == Ok::<ListenerView, ListenError>(l@),
            Err(e) => listener_plan(routes_view(routes@)) == Err::<ListenerView, ListenError>(e),
        },
{
    let ghost rv = routes_view(routes@);
    let mut count: usize = 0;
    let mut i: usize = 0;
    assert(rv.take(0) =~= Seq::<RouteView>::empty());
    while i < routes.len()
        invariant
            i <= routes@.len(),
            rv == routes_view(routes@),
            count <= i,
            count == rv.take(i as int).filter(|r: RouteView| r.src.protocol == Protocol::Tcp).len(),
        decreases routes@.len() - i,
    {
        proof {
            assert(rv.take(i + 1) =~= rv.take(i as int).push(rv[i as int]));
            rv.take(i as int).lemma_filter_push(rv[i as int], |r: RouteView| r.src.protocol == Protocol::Tcp);
        }
        assert(rv[i as int] == routes@[i as int]@);
        if routes[i].protocol() == Protocol::Tcp {
            count += 1;
        }
        i += 1;
    }
    assert(rv.take(routes@.len() as int) =~= rv);
    if count == 0 {
        return Ok(Listener::Http(routes));
    }
    if count > 1 {
        return Err(ListenError::SeveralTcpRoutes);
    }
    if routes.len() > 1 {
        return Err(ListenError::MixedProtocols);
    }
    let mut routes = routes;
    let route = routes.remove(0);
    Ok(Listener::Tcp(route))
}

} // verus!
