use nescio::error::Error;
use nescio::server::{
    at_param, at_value, is_event_stream, is_write, no_such_route, parse_query, percent_decode,
    predicate_op, req_param, route, sse_frame, to_response, AtField, Params, PredicateOp, Route,
};

#[test]
fn percent_decoding() {
    assert_eq!(percent_decode("a+b"), "a b");
    assert_eq!(percent_decode("a%20b"), "a b");
    assert_eq!(percent_decode("%41%42c"), "ABc");
    assert_eq!(percent_decode("%c3%a4"), "ä");
    assert_eq!(percent_decode("100%"), "100%");
    assert_eq!(percent_decode("%4"), "%4");
    assert_eq!(percent_decode("%zz"), "%zz");
    // `u8::from_str_radix` takes a leading plus sign.
    assert_eq!(percent_decode("%+9x"), "\tx");
    assert_eq!(percent_decode("%ff"), "\u{fffd}");
    assert_eq!(percent_decode("plain-text_1"), "plain-text_1");
}

#[test]
fn query_strings() {
    let p = parse_query("entity=obj1&slot=price&at=2026-07-03");
    assert_eq!(p.get("entity"), Some("obj1"));
    assert_eq!(p.get("slot"), Some("price"));
    assert_eq!(p.get("at"), Some("2026-07-03"));
    assert_eq!(p.get("credible"), None);

    let q = parse_query("a=1&&b&c=x%3Dy=z&a=2&d+e=f+g");
    assert_eq!(q.get("a"), Some("2"));
    assert_eq!(q.get("b"), Some(""));
    assert_eq!(q.get("c"), Some("x=y=z"));
    assert_eq!(q.get("d e"), Some("f g"));
    assert_eq!(q.get(""), None);

    let empty = parse_query("");
    assert_eq!(empty.get(""), None);
}

#[test]
fn params_insert_replaces() {
    let mut p = Params::new();
    p.insert("k".to_string(), "1".to_string());
    p.insert("k".to_string(), "2".to_string());
    assert_eq!(p.get("k"), Some("2"));
}

#[test]
fn required_params() {
    let p = parse_query("entity=obj1");
    assert_eq!(req_param(&p, "entity").unwrap(), "obj1");
    match req_param(&p, "slot") {
        Err(Error::Invalid(m)) => assert_eq!(m, "missing param slot"),
        other => panic!("unexpected {other:?}"),
    }
}

#[test]
fn write_lock_routes() {
    assert!(is_write("POST", "/ingest"));
    assert!(is_write("POST", "/nope"));
    assert!(!is_write("POST", "/resolve"));
    assert!(!is_write("POST", "/decide"));
    assert!(!is_write("POST", "/join"));
    assert!(!is_write("GET", "/ingest"));
    assert!(is_event_stream("GET", "/watches/events"));
    assert!(!is_event_stream("POST", "/watches/events"));
}

#[test]
fn route_table() {
    assert_eq!(route("GET", "/health"), Some(Route::Health));
    assert_eq!(route("GET", "/watches"), Some(Route::Watches));
    assert_eq!(route("POST", "/watches"), Some(Route::AddWatch));
    assert_eq!(route("POST", "/join"), Some(Route::Join));
    assert_eq!(route("POST", "/schema/remove-coupling"), Some(Route::SchemaRemoveCoupling));
    assert_eq!(route("GET", "/watches/events"), None);
    assert_eq!(route("GET", "/ingest"), None);
    assert_eq!(route("PUT", "/health"), None);
    let all = [
        ("GET", "/health"), ("GET", "/status"), ("GET", "/bound"), ("GET", "/sample"),
        ("GET", "/certainly"), ("GET", "/watches"), ("GET", "/watches/check"), ("GET", "/find"),
        ("POST", "/resolve"), ("POST", "/decide"), ("POST", "/join"), ("POST", "/ingest"),
        ("POST", "/ingest-batch"), ("POST", "/sources"), ("POST", "/forget-source"),
        ("POST", "/recalibrate"), ("POST", "/priors/register"), ("POST", "/priors/use"),
        ("POST", "/schema/add-slot"), ("POST", "/schema/remove-slot"),
        ("POST", "/schema/add-value"), ("POST", "/schema/add-coupling"),
        ("POST", "/schema/remove-coupling"), ("POST", "/watches"), ("POST", "/watches/remove"),
    ];
    for (m, p) in all {
        let r = route(m, p);
        assert!(r.is_some(), "{m} {p}");
        let writes = !matches!(
            r.unwrap(),
            Route::Health | Route::Status | Route::Bound | Route::Sample | Route::Certainly
                | Route::Watches | Route::WatchesCheck | Route::Find | Route::Resolve
                | Route::Decide | Route::Join
        );
        assert_eq!(is_write(m, p), writes, "{m} {p}");
    }
}

#[test]
fn responses() {
    assert_eq!(to_response(Ok("{\"ok\":true}".to_string())), (200, "{\"ok\":true}".to_string()));
    assert_eq!(
        to_response(Err(Error::AxiomConflict("obj1.price".to_string()))),
        (409, "{\"error\":\"axiom conflict: obj1.price\"}".to_string())
    );
    assert_eq!(
        to_response(Err(Error::Invalid("missing param \"x\"".to_string()))),
        (400, "{\"error\":\"missing param \\\"x\\\"\"}".to_string())
    );
    let (status, body) = to_response(Err(no_such_route("GET", "/nope")));
    assert_eq!(status, 404);
    assert_eq!(body, "{\"error\":\"no such route: GET /nope\"}");
}

#[test]
fn unknown_route_message() {
    match no_such_route("DELETE", "/x") {
        Error::Invalid(m) => assert_eq!(m, "no such route: DELETE /x"),
        other => panic!("unexpected {other:?}"),
    }
}

#[test]
fn sse_frames() {
    assert_eq!(sse_frame("snapshot", "{}"), "event: snapshot\ndata: {}\n\n");
}

#[test]
fn at_parameter() {
    let p = parse_query("entity=x&at=2026-07-03");
    assert_eq!(at_param(&p, 5).unwrap(), 20_637 * 86_400);
    let p = parse_query("at=86400");
    assert_eq!(at_param(&p, 5).unwrap(), 86_400);
    let p = parse_query("entity=x");
    assert_eq!(at_param(&p, 5).unwrap(), 5);
    let p = parse_query("at=someday");
    match at_param(&p, 5) {
        Err(Error::Invalid(m)) => assert_eq!(
            m,
            "cannot parse time \"someday\"; use YYYY-MM-DD, YYYY-MM-DDTHH:MM[:SS], or unix seconds"
        ),
        other => panic!("unexpected {other:?}"),
    }
}

#[test]
fn at_field_of_a_body() {
    assert_eq!(at_value(AtField::Absent, 9).unwrap(), 9);
    assert_eq!(at_value(AtField::Number(Some(-3)), 9).unwrap(), -3);
    assert_eq!(at_value(AtField::Text("2026-07-03".to_string()), 9).unwrap(), 20_637 * 86_400);
    for bad in [AtField::Number(None), AtField::Other] {
        match at_value(bad, 9) {
            Err(Error::Invalid(m)) => assert_eq!(m, "'at' must be an integer or date string"),
            other => panic!("unexpected {other:?}"),
        }
    }
    assert!(at_value(AtField::Text("soon".to_string()), 9).is_err());
}

#[test]
fn predicate_operators() {
    assert_eq!(predicate_op("gt").unwrap(), PredicateOp::Gt);
    assert_eq!(predicate_op("lt").unwrap(), PredicateOp::Lt);
    assert_eq!(predicate_op("between").unwrap(), PredicateOp::Between);
    assert_eq!(predicate_op("is").unwrap(), PredicateOp::Is);
    assert_eq!(predicate_op("is_not").unwrap(), PredicateOp::IsNot);
    match predicate_op("ge") {
        Err(Error::Invalid(m)) => assert_eq!(m, "unknown predicate op \"ge\""),
        other => panic!("unexpected {other:?}"),
    }
}

#[test]
fn error_bodies_escape_as_json() {
    let (status, body) = to_response(Err(Error::Invalid("a\tb\u{1}\"\\é\n".to_string())));
    assert_eq!(status, 400);
    assert_eq!(body, "{\"error\":\"a\\tb\\u0001\\\"\\\\é\\n\"}");
}
