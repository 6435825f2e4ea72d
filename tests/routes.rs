use weave::{from_args, DestLocation, Route, SrcLocation};

fn s(s: &str) -> String {
    s.to_owned()
}

fn route(src: &str, dest: &str) -> Route {
    let src = SrcLocation::parse(src).unwrap();
    let dest = DestLocation::parse(dest, &src).unwrap();
    Route { src, dest }
}

#[test]
fn routes_can_be_parsed() {

    let routes = vec![
        (
            vec![],
            vec![],
            0
        ),
        (
            vec![s("--other")],
            vec![],
            1
        ),
        (
            vec![s("8080"), s("to"), s("9090")],
            vec![
                route("http://localhost:8080/", "http://localhost:9090")
            ],
            0
        ),
        // We can use "nothing" alone but it is a noop
        (
            vec![s("nothing")],
            vec![],
            0
        ),
        // We can use "nothing" alone but it is a noop
        (
            vec![s("nothing"), s("-arg")],
            vec![],
            1
        ),
        // We can use "nothing" in place of an entire route to allow slightly
        // easier programmatic route providing:
        (
            vec![s("nothing"), s("and"), s("8080"), s("to"), s("9090")],
            vec![
                route("http://localhost:8080/", "http://localhost:9090")
            ],
            0
        ),
        // We can use "nothing" at the end as well:
        (
            vec![s("8080"), s("to"), s("9090"), s("and"), s("nothing")],
            vec![
                route("http://localhost:8080/", "http://localhost:9090")
            ],
            0
        ),
        // We can use "nothing" in the middle as well:
        (
            vec![
                s("8080"), s("to"), s("9090"), s("and"),
                s("nothing"), s("and"),
                s("8081"), s("to"), s("9091"), s("and"),
                s("nothing"), s("and"),
                s("nothing"), s("and"),
                s("8082"), s("to"), s("9092"),
            ],
            vec![
                route("http://localhost:8080/", "http://localhost:9090"),
                route("http://localhost:8081/", "http://localhost:9091"),
                route("http://localhost:8082/", "http://localhost:9092"),
            ],
            0
        ),
        // "nothing" can take the place of a destination (it'll return 404):
        (
            vec![
                s("8081"), s("to"), s("nothing"), s("and"),
                s("8082"), s("to"), s("statuscode://403")
            ],
            vec![
                route("http://localhost:8081/", "statuscode://404"),
                route("http://localhost:8082/", "statuscode://403"),
            ],
            0
        ),
        (
            vec![s("8080/foo/bar"), s("to"), s("9090/foo"), s("--more"), s("args")],
            vec![
                route("http://localhost:8080/foo/bar", "http://localhost:9090/foo")
            ],
            2
        ),
        (
            vec![s("8080/foo/bar"), s("to"), s("9090/foo"), s("and"),
                 s("9091"), s("to"), s("9090/lark"),
                 s("-more"), s("args")],
            vec![
                route("http://localhost:8080/foo/bar", "http://localhost:9090/foo"),
                route("http://localhost:9091/", "http://localhost:9090/lark")
            ],
            2
        ),
    ];

    for (a,b,left) in routes {
        match from_args(&a) {
            Err(e) => panic!("Could not parse {:?}: {:?}", a, e),
            Ok(r) => {
                assert_eq!(r.0, b, "Unexpected parse of {:?}: {:?}", a, r.0);
                let actual_left = r.1.len();
                assert_eq!(actual_left, left, "Wrong number of remaining for {:?}; expected {}, got {}", a, left, actual_left);
            }
        }
    }
}

#[test]
fn routes_cant_be_parsed() {
    let bad_routes = vec![
        vec![s("9090")],
        vec![s("9090"), s("to")],
        vec![s("9090"), s("to"), s("9091"), s("and")],
        vec![s("9090"), s("to"), s("9091"), s("and"), s("--option")],
    ];
    for r in bad_routes {
        let parsed = from_args(&r);
        assert!(
            parsed.is_err(),
            "Args {:?} should not successfully parse, but parsed to {:?}",
            r, parsed.map(|(a,b)| (a, b))
        );
    }
}
