use weave::dest_location::{
    append_tail, expand_str_with_matches, merge_query, parse_statuscode_str, parse_url, query_pairs,
    resolve_file_path,
};
use weave::dispatch::{plan_listener, ListenError, Listener};
use weave::utils::split_path_and_query;
use weave::{
    from_args, DestLocation, DestLocationInner, Error, Matcher, Matches, Protocol, ResolvedLocation, Route,
    RouteError, SplitUrl, SrcLocation,
};

fn route(src: &str, dest: &str) -> Route {
    let src = SrcLocation::parse(src).unwrap();
    let dest = DestLocation::parse(dest, &src).unwrap();
    Route { src, dest }
}

fn resolve(routes: Vec<(&str, &str)>, path: &str, query: &str) -> Option<ResolvedLocation> {
    let m = Matcher::new(routes.into_iter().map(|(s, d)| route(s, d)).collect());
    m.resolve(path, query)
}

fn file(p: &str) -> Option<ResolvedLocation> {
    Some(ResolvedLocation::FilePath(p.to_owned()))
}

fn url(u: &str) -> Option<ResolvedLocation> {
    Some(ResolvedLocation::Url(u.to_owned()))
}

fn strings(v: &[&str]) -> Vec<String> {
    v.iter().map(|s| s.to_string()).collect()
}

#[test]
fn serve_file_from_root() {
    assert_eq!(resolve(vec![("8080", ".")], "/foo/bar", ""), file("./foo/bar"));
    assert_eq!(resolve(vec![("8080", ".")], "/foo/./bar/../../", ""), file("."));
}

#[test]
fn prefix_route_strips_prefix() {
    assert_eq!(resolve(vec![("8080/foo/bar", ".")], "/foo/bar/wibble", "x=1"), file("./wibble"));
    assert_eq!(resolve(vec![("8080/foo/bar", ".")], "/foo/ba", ""), None);
}

#[test]
fn exact_route_beats_prefix_route() {
    let routes = vec![("=8080/foo", "/1"), ("8080/foo", "/2")];
    assert_eq!(resolve(routes.clone(), "/foo", ""), file("/1"));
    assert_eq!(resolve(routes, "/foo/bar", ""), file("/2/bar"));
}

#[test]
fn first_patterned_route_wins() {
    let routes = vec![("8080/(foo)/bar", "9090/bar/(foo)/1"), ("8080/(foo)/(bar)", "9090/(bar)/(foo)/2")];
    assert_eq!(resolve(routes, "/hello/bar", ""), url("http://localhost:9090/bar/hello/1"));
}

#[test]
fn spanning_captures_split_at_literal() {
    let routes = vec![("=8080/(foo..)/BOOM/(bar..)", "9090/(foo)/exploding/(bar)")];
    assert_eq!(resolve(routes, "/1/2/3/BOOM/4/5", ""), url("http://localhost:9090/1/2/3/exploding/4/5"));
}

#[test]
fn template_query_wins() {
    let routes = vec![("1010/1", "9090/1?foo=bar")];
    assert_eq!(resolve(routes, "/1", "foo=wibble&lark=2"), url("http://localhost:9090/1?foo=bar&lark=2"));
}

#[test]
fn tcp_destination_takes_default_host() {
    let r = route("tcp://localhost:22", "2222");
    assert_eq!(r.protocol(), Protocol::Tcp);
    assert_eq!(r.dest_socket_addr(), Some(("localhost", 2222)));
    assert_eq!(r.src_socket_addr(), ("localhost", 22));
    let m = Matcher::new(vec![r]);
    assert_eq!(
        m.resolve("/", ""),
        Some(ResolvedLocation::Socket { host: "localhost".to_owned(), port: 2222 })
    );
    let same_port = route("tcp://localhost:22", "localhost");
    assert_eq!(same_port.dest_socket_addr(), Some(("localhost", 22)));
}

#[test]
fn tcp_source_needs_port() {
    assert_eq!(SrcLocation::parse("tcp://localhost").unwrap_err(), Error::TcpSourceWithoutPort);
}

#[test]
fn status_code_destinations() {
    assert_eq!(resolve(vec![("8080", "statuscode://418")], "/any", ""), Some(ResolvedLocation::HttpStatusCode(418)));
    assert_eq!(resolve(vec![("8080", "nothing")], "/any", ""), Some(ResolvedLocation::HttpStatusCode(404)));
}

#[test]
fn merging_a_query_twice_changes_nothing() {
    let once = merge_query("foo=bar", "foo=x&lark=2&boom");
    assert_eq!(once, "foo=bar&lark=2&boom");
    assert_eq!(merge_query(&once, "foo=x&lark=2&boom"), once);
    let from_empty = merge_query("", "a=1&a=2&b=");
    assert_eq!(from_empty, "a=1&a=2&b");
    assert_eq!(merge_query(&from_empty, "a=1&a=2&b="), from_empty);
}

#[test]
fn trailing_slash_is_kept_and_not_doubled() {
    assert_eq!(append_tail("/a/", ""), "/a/");
    assert_eq!(append_tail("/a/", "//b/c"), "/a/b/c");
    assert_eq!(append_tail("/a", "b"), "/a/b");
    assert_eq!(append_tail("/a", "/b"), "/a/b");
    assert_eq!(resolve(vec![("8080/x", "9090/y/")], "/x", ""), url("http://localhost:9090/y/"));
    assert_eq!(resolve(vec![("8080/x", "9090/y/")], "/x/z", ""), url("http://localhost:9090/y/z"));
    assert_eq!(resolve(vec![("8080/(v)", "9090/(v)/")], "/a", ""), url("http://localhost:9090/a/"));
    assert_eq!(resolve(vec![("8080/(v)", "9090/(v)/")], "/a//b", ""), url("http://localhost:9090/a/b"));
}

#[test]
fn file_paths_cannot_climb_above_base() {
    assert_eq!(resolve_file_path("./base", "../../x"), "./base/x");
    assert_eq!(resolve_file_path("/srv", "a/../../.."), "/srv");
    assert_eq!(resolve_file_path("/srv/", "a/./b"), "/srv/a/b");
    assert_eq!(resolve_file_path("", "a/b"), "a/b");
    assert_eq!(resolve_file_path("../up", ".."), "../up");
}

#[test]
fn equal_keys_keep_their_order() {
    let m = Matcher::new(vec![
        route("8080/(a)/x", "/first"),
        route("8080/(b)/y", "/second"),
        route("8080/(c)", "/third"),
    ]);
    assert_eq!(m.len(), 3);
    assert_eq!(m.resolve("/q/x", ""), file("/first"));
    assert_eq!(m.resolve("/q/y", ""), file("/second"));
    let m = Matcher::new(vec![route("8080/(c)", "/third"), route("8080/(a)/x", "/first")]);
    assert_eq!(m.resolve("/q/x", ""), file("/third/x"));
}

#[test]
fn longer_literal_paths_are_tried_first() {
    let m = Matcher::new(vec![route("8080/a", "/short"), route("8080/a/b", "/long"), route("8080/(x)", "/pat")]);
    assert_eq!(m.resolve("/a/b/c", ""), file("/long/c"));
    assert_eq!(m.resolve("/a/c", ""), file("/short/c"));
    assert_eq!(m.resolve("/z", ""), file("/pat"));
}

#[test]
fn split_url_parts() {
    let u = SplitUrl::parse("https://EXAMPLE.com:8443/a/b?x=1?y").unwrap();
    assert_eq!(u.protocol, Some(Protocol::Https));
    assert_eq!(u.host, "example.com");
    assert_eq!(u.port, Some(8443));
    assert_eq!(u.path, "/a/b");
    assert_eq!(u.query, "x=1?y");
    let bare = SplitUrl::parse("9000").unwrap();
    assert_eq!(bare.protocol, None);
    assert_eq!(bare.host, "localhost");
    assert_eq!(bare.port, Some(9000));
    assert_eq!(bare.path, "/");
    assert_eq!(bare.query, "");
    let short_ip = SplitUrl::parse("127.1:80").unwrap();
    assert_eq!(short_ip.host, "127.0.0.1");
    let tcp = SplitUrl::parse("TCP://host").unwrap();
    assert_eq!(tcp.protocol, Some(Protocol::Tcp));
    assert_eq!(tcp.port, None);
}

#[test]
fn split_errors() {
    assert_eq!(SplitUrl::parse("foo://x").unwrap_err(), Error::UnknownProtocol);
    assert_eq!(SplitUrl::parse("exa mple.com").unwrap_err(), Error::InvalidHost);
    assert_eq!(SplitUrl::parse("localhost:70000").unwrap_err(), Error::InvalidPort);
}

#[test]
fn source_errors() {
    assert_eq!(SrcLocation::parse("https://localhost").unwrap_err(), Error::SourceProtocol);
    assert_eq!(SrcLocation::parse("tcp://localhost:22/foo").unwrap_err(), Error::TcpSourceWithPath);
    assert_eq!(SrcLocation::parse("8080/(a)/(a)").unwrap_err(), Error::DuplicateCapture);
}

#[test]
fn source_fields() {
    let s = SrcLocation::parse("=0.0.0.0:8080/(v)/x").unwrap();
    assert_eq!(s.host(), "0.0.0.0");
    assert_eq!(s.port(), 8080);
    assert_eq!(s.protocol(), Protocol::Http);
    assert_eq!(s.path(), "/(v)/x");
    assert!(s.is_exact());
    assert!(s.has_patterns());
    let plain = SrcLocation::parse("localhost").unwrap();
    assert_eq!(plain.port(), 80);
    assert!(!plain.is_exact());
    assert!(!plain.has_patterns());
}

#[test]
fn destination_errors() {
    let http = SrcLocation::parse("8080").unwrap();
    let tcp = SrcLocation::parse("tcp://localhost:22").unwrap();
    assert_eq!(DestLocation::parse("statuscode://600", &http).unwrap_err(), Error::InvalidStatusCode);
    assert_eq!(DestLocation::parse("statuscode://99", &http).unwrap_err(), Error::InvalidStatusCode);
    assert_eq!(DestLocation::parse("tcp://localhost", &http).unwrap_err(), Error::ProtocolMismatch);
    assert_eq!(DestLocation::parse("http://localhost", &tcp).unwrap_err(), Error::ProtocolMismatch);
    assert_eq!(DestLocation::parse("2222/foo", &tcp).unwrap_err(), Error::TcpDestWithPath);
    assert_eq!(DestLocation::parse("2222/?x=1", &tcp).unwrap_err(), Error::TcpDestWithQuery);
    assert_eq!(DestLocation::parse("./files", &tcp).unwrap_err(), Error::ProtocolMismatch);
    assert_eq!(DestLocation::parse(" /srv", &tcp).unwrap_err(), Error::ProtocolMismatch);
    assert_eq!(DestLocation::parse("nothing", &tcp).unwrap_err(), Error::ProtocolMismatch);
    assert_eq!(
        DestLocation::parse("./files", &http).unwrap(),
        DestLocation(DestLocationInner::FilePath("./files".to_owned()))
    );
}

#[test]
fn destination_url_parts() {
    let d = parse_url("https://example.com:65535/x?y=1").unwrap();
    assert_eq!(
        d,
        DestLocation(DestLocationInner::Url {
            host_bits: "https://example.com:65535".to_owned(),
            path: "/x".to_owned(),
            query: "y=1".to_owned(),
        })
    );
    assert_eq!(d.socket_addr(), None);
    assert_eq!(parse_url("tcp://x").unwrap_err(), Error::ProtocolMismatch);
}

#[test]
fn status_code_text() {
    assert_eq!(parse_statuscode_str("nothing"), Some("404"));
    assert_eq!(parse_statuscode_str("statuscode://503"), Some("503"));
    assert_eq!(parse_statuscode_str("status://503"), None);
}

#[test]
fn query_and_path_splitting() {
    assert_eq!(split_path_and_query("/a?b?c"), ("/a", "b?c"));
    assert_eq!(split_path_and_query("/a"), ("/a", ""));
    let pairs = query_pairs("a=1&&b&=c&d=e=f");
    let expected: Vec<(String, String)> = vec![
        ("a".into(), "1".into()),
        ("b".into(), "".into()),
        ("".into(), "c".into()),
        ("d".into(), "e=f".into()),
    ];
    assert_eq!(pairs, expected);
}

#[test]
fn placeholders_are_filled_in() {
    let m = Matches::new(vec![("foo".to_owned(), "one".to_owned())], "/tail".to_owned(), "q=1".to_owned());
    assert_eq!(m.get("foo"), Some("one"));
    assert_eq!(m.get("bar"), None);
    assert_eq!(m.path_tail(), "/tail");
    assert_eq!(m.query(), "q=1");
    assert_eq!(expand_str_with_matches(&m, "/(foo)/(bar)/(foo..)/((foo))"), "/one/(bar)/(foo..)/(one)");
}

#[test]
fn source_matching_gives_captures_and_tail() {
    let s = SrcLocation::parse("8080/(a)/(b..)/end").unwrap();
    let m = s.match_uri("/x/y/z/end/more", "k=v").unwrap();
    assert_eq!(m.get("a"), Some("x"));
    assert_eq!(m.get("b"), Some("y/z"));
    assert_eq!(m.path_tail(), "/more");
    assert_eq!(m.query(), "k=v");
    assert!(s.match_uri("/x/end", "").is_none());
}

#[test]
fn route_argument_errors() {
    assert_eq!(from_args(&strings(&["8080", "to", "9090", "and"])).unwrap_err(), RouteError::DanglingAnd);
    assert_eq!(
        from_args(&strings(&["8080", "to", "9090", "or", "1", "to", "2"])).unwrap_err(),
        RouteError::ExpectedAnd("or".to_owned())
    );
    assert_eq!(from_args(&strings(&["8080", "to"])).unwrap_err(), RouteError::TooFewArgs);
    assert_eq!(
        from_args(&strings(&["https://x", "to", "9090"])).unwrap_err(),
        RouteError::InvalidSource("https://x".to_owned(), Error::SourceProtocol)
    );
    assert_eq!(
        from_args(&strings(&["8080", "into", "9090"])).unwrap_err(),
        RouteError::ExpectedTo("8080".to_owned())
    );
    assert_eq!(
        from_args(&strings(&["8080", "to", "statuscode://1"])).unwrap_err(),
        RouteError::InvalidDest("statuscode://1".to_owned(), Error::InvalidStatusCode)
    );
}

#[test]
fn options_after_routes_are_handed_back() {
    let args = strings(&["8080", "to", "9090", "-h", "x"]);
    let (routes, rest) = from_args(&args).unwrap();
    assert_eq!(routes.len(), 1);
    assert_eq!(rest, &args[3..]);
}

#[test]
fn listeners_for_shared_addresses() {
    match plan_listener(vec![route("8080/a", "9090"), route("8080/b", ".")]) {
        Ok(Listener::Http(rs)) => assert_eq!(rs.len(), 2),
        other => panic!("expected an HTTP listener, got {:?}", other),
    }
    match plan_listener(vec![route("tcp://localhost:22", "2222")]) {
        Ok(Listener::Tcp(r)) => assert_eq!(r.dest_socket_addr(), Some(("localhost", 2222))),
        other => panic!("expected a TCP listener, got {:?}", other),
    }
    assert_eq!(
        plan_listener(vec![route("tcp://localhost:22", "2222"), route("tcp://localhost:22", "2223")]).unwrap_err(),
        ListenError::SeveralTcpRoutes
    );
    assert_eq!(
        plan_listener(vec![route("tcp://localhost:22", "2222"), route("localhost:22", ".")]).unwrap_err(),
        ListenError::MixedProtocols
    );
}
