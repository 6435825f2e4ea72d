use weave::{DestLocation, DestLocationInner, SrcLocation};

fn u(u: &str) -> DestLocation {
    let src = SrcLocation::parse("http://localhost:1234").unwrap();
    DestLocation::parse(u, &src).unwrap()
}

fn code(n: u16) -> DestLocation {
    DestLocation(DestLocationInner::HttpStatusCode { code: n })
}

#[test]
fn dest_location_dest_location_can_parse_valid_inputs() {
    let urls = vec![
        ("/foo/bar", u("/foo/bar")),
        ("./foo/bar", u("./foo/bar")),
        ("../foo/bar", u("../foo/bar")),
        ("8080", u("http://localhost:8080/")),
        ("8080/foo/bar", u("http://localhost:8080/foo/bar")),
        (":8080", u("http://localhost:8080/")),
        (":8080/foo/bar", u("http://localhost:8080/foo/bar")),
        ("localhost", u("http://localhost/")),
        ("http://localhost:8080", u("http://localhost:8080/")),
        ("http://127.0.0.1/foo", u("http://127.0.0.1/foo")),
        ("http://127.0.0.1:8080/foo", u("http://127.0.0.1:8080/foo")),
        ("127.0.0.1", u("http://127.0.0.1/")),
        ("127.0.0.1:8080", u("http://127.0.0.1:8080/")),
        ("example.com", u("http://example.com/")),
        ("  \t example.com\t \t", u("http://example.com/")),
        ("statuscode://404", code(404)),
        ("statuscode://204", code(204)),
    ];

    for (actual, expected) in urls {
        let src = SrcLocation::parse("localhost").unwrap();
        let actual_loc = DestLocation::parse(actual, &src);
        assert!(actual_loc.is_ok(), "Location could not be parsed: '{}', result: {:?}", actual, actual_loc);
        assert_eq!(actual_loc.unwrap(), expected, "(input was '{}')", actual);
    }
}

#[test]
fn dest_location_dest_location_wont_parse_invalid_urls() {
    let urls = vec!["foobar://example.com", "statuscode://abc", "statuscode://100/abc"];

    for actual in urls {
        let src = SrcLocation::parse("localhost").unwrap();
        let actual_loc = DestLocation::parse(actual, &src);
        assert!(actual_loc.is_err(), "This invalid location should not have successfully parsed: {}", actual);
    }
}

#[test]
fn dest_location_relates_to_src() {
    const VALID: bool = true;
    const INVALID: bool = false;

    let routes = vec![
        (VALID, "tcp://localhost:22", "tcp://localhost:2222"),
        (VALID, "tcp://localhost:22", "localhost:2222"),
        (VALID, "tcp://localhost:22", "2222"),
        (VALID, "http://localhost:22", "2222"),
        (VALID, "tcp://localhost:22", "localhost"),
        (VALID, "http://localhost", "localhost:2222"),
        (INVALID, "https://localhost", "localhost:2222"),
        (INVALID, "tcp://localhost", "localhost:22"),
        (INVALID, "tcp://127.0.0.1:2222", "http://localhost"),
        (INVALID, "http://127.0.0.1:2222", "tcp://localhost"),
        (INVALID, "tcp://localhost/foo", "80"),
        (INVALID, "tcp://localhost", "80/foo"),
        (VALID, "http://127.0.0.1:2222", "statuscode://123"),
        (INVALID, "tcp://127.0.0.1:2222", "statuscode://123"),
        (VALID, "http://127.0.0.1:2222", "nothing"),
        (INVALID, "tcp://127.0.0.1:2222", "nothing"),
    ];

    for (is_valid, src, dest) in routes {
        let src_l = match SrcLocation::parse(src) {
            Ok(src) => src,
            Err(e) => {
                if is_valid {
                    assert!(true, "{} should be valid src but got error: {:?}", src, e);
                }
                continue;
            }
        };
        let dest_l = DestLocation::parse(dest, &src_l);
        if is_valid {
            assert!(dest_l.is_ok(), "{} => {} should be VALID but got error: {:?}", src, dest, dest_l.unwrap_err());
        } else {
            assert!(dest_l.is_err(), "{} => {} should be INVALID", src, dest);
        }
    }
}
