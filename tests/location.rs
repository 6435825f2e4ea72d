use weave::{DestLocation, DestLocationInner, SrcLocation};

fn src() -> SrcLocation {
    SrcLocation::parse("localhost").unwrap()
}

fn u(s: &str) -> DestLocation {
    DestLocation::parse(s, &src()).unwrap()
}

fn file(s: &str) -> DestLocation {
    DestLocation(DestLocationInner::FilePath(s.to_owned()))
}

fn check_valid(urls: Vec<(&str, DestLocation)>) {
    for (actual, expected) in urls {
        let actual_loc = DestLocation::parse(actual, &src());
        assert!(actual_loc.is_ok(), "Location could not be parsed: '{}', result: {:?}", actual, actual_loc);
        assert_eq!(actual_loc.unwrap(), expected, "(input was '{}')", actual);
    }
}

fn valid_cases() -> Vec<(&'static str, DestLocation)> {
    vec![
        ("/foo/bar", file("/foo/bar")),
        ("./foo/bar", file("./foo/bar")),
        ("../foo/bar", file("../foo/bar")),
        ("8080", u("http://localhost:8080/")),
        ("8080/foo/bar", u("http://localhost:8080/foo/bar")),
        (":8080", u("http://localhost:8080/")),
        (":8080/foo/bar", u("http://localhost:8080/foo/bar")),
        ("localhost", u("http://localhost/")),
        ("http://localhost:8080", u("http://localhost:8080/")),
        ("http://127.0.0.1/foo", u("http://127.0.0.1/foo")),
        ("http://127.0.0.1:8080/foo", u("http://127.0.0.1:8080/foo")),
        ("127.0.0.1", u("http://127.0.0.1/")),
        ("127.0.0.1:8080", u("http://127.0.0.1:8080/")),
        ("example.com", u("http://example.com/")),
        ("  \t example.com\t \t", u("http://example.com/")),
    ]
}

#[test]
fn location_dest_location_can_parse_valid_inputs() {
    check_valid(valid_cases());
}

#[test]
fn location_dest_location_wont_parse_invalid_urls() {
    let urls = vec!["foobar://example.com"];
    for actual in urls {
        let actual_loc = DestLocation::parse(actual, &src());
        assert!(actual_loc.is_err(), "This invalid location should not have successfully parsed: {}", actual);
    }
}

#[test]
fn mod_dest_location_can_parse_valid_inputs() {
    check_valid(valid_cases());
}

#[test]
fn mod_dest_location_wont_parse_invalid_urls() {
    let urls = vec!["foobar://example.com"];
    for actual in urls {
        let actual_loc = DestLocation::parse(actual, &src());
        assert!(actual_loc.is_err(), "This invalid location should not have successfully parsed: {}", actual);
    }
}
