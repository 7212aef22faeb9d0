use rusty_express::common::{
    json_flat_stringify, json_format_content, json_stringify, LineBreakUtil, MapUpdates, QueryMap,
    TextMap, VecExtension,
};
use rusty_express::connection::{
    authorize, build_err_response, error_status, parse_request, prepare_response,
    redirect_location, should_retry_flush, ConnError, Response,
};
use rusty_express::request::{cookie_parser, deserialize, scheme_parser, split_path, Request};
use rusty_express::router::{RequestPath, Route, Router, REST};

#[test]
fn cookie_parsing_pairs_and_bare_keys() {
    let mut cookies = TextMap::new();
    cookie_parser(&mut cookies, "a=1; b=2; c");
    assert_eq!(cookies.len(), 3);
    assert_eq!(cookies.get("a"), Some(String::from("1")));
    assert_eq!(cookies.get("b"), Some(String::from("2")));
    assert_eq!(cookies.get("c"), Some(String::new()));
}

#[test]
fn cookie_parsing_keeps_first_value() {
    let mut cookies = TextMap::new();
    cookie_parser(&mut cookies, "a=1; a=2; B=x=y");
    assert_eq!(cookies.get("a"), Some(String::from("1")));
    assert_eq!(cookies.get("b"), Some(String::from("x=y")));
    cookie_parser(&mut cookies, "b=3");
    assert_eq!(cookies.get("b"), Some(String::from("x=y")));
    cookie_parser(&mut cookies, "");
    assert_eq!(cookies.len(), 2);
}

#[test]
fn query_string_collects_repeated_keys() {
    let scheme = scheme_parser("x=1&x=2&y");
    assert_eq!(scheme.len(), 2);
    assert_eq!(scheme.get("x"), Some(vec![String::from("1"), String::from("2")]));
    assert_eq!(scheme.get("y"), Some(vec![String::new()]));
}

#[test]
fn path_splitting_examples() {
    assert_eq!(
        split_path("/a/b/?x=1#frag"),
        (String::from("/a/b"), String::from("x=1"), String::from("#frag"))
    );
    assert_eq!(split_path("/"), (String::from("/"), String::new(), String::new()));
    assert_eq!(split_path("  "), (String::from("/"), String::new(), String::new()));
    assert_eq!(split_path("/a/b/"), (String::from("/a/b"), String::new(), String::new()));
    assert_eq!(split_path("/a/b#x"), (String::from("/a/b"), String::new(), String::from("#x")));
    assert_eq!(split_path("/q?k=v"), (String::from("/q"), String::from("k=v"), String::new()));
}

#[test]
fn path_splitting_looks_before_the_last_slash() {
    assert_eq!(split_path("/a?b/c"), (String::from("/a"), String::from("b/c"), String::new()));
    assert_eq!(
        split_path("/search?next=/home"),
        (String::from("/search"), String::from("next=/home"), String::new())
    );
    assert_eq!(split_path("/a#f/b"), (String::from("/a"), String::new(), String::from("#f/b")));
    assert_eq!(split_path("/a/?x=1/2#f#g"), (String::from("/a"), String::from("x=1/2#f"), String::from("#g")));
}

#[test]
fn head_and_header_are_header_only() {
    let mut route = Route::new();
    route.get(RequestPath::Explicit("/x"), 1).unwrap();
    for line in ["HEAD /x HTTP/1.1\r\n\r\n", "header /x HTTP/1.1\r\n\r\n"] {
        let (req, found) = deserialize(line, &route);
        assert_eq!(found, Some(1));
        let mut resp = Response::new();
        prepare_response(&req, &mut resp);
        assert!(resp.header_only);
    }
}

#[test]
fn trailing_slash_resolves_like_path() {
    let mut route = Route::new();
    route.get(RequestPath::Explicit("/a/b"), 3).unwrap();
    let (req, found) = deserialize("GET /a/b/ HTTP/1.1\r\n\r\n", &route);
    assert_eq!(req.uri, "/a/b");
    assert_eq!(found, Some(3));
    let (_, found) = deserialize("GET /a/b HTTP/1.1\r\n\r\n", &route);
    assert_eq!(found, Some(3));
}

#[test]
fn deserialize_full_request() {
    let mut route = Route::new();
    route.get(RequestPath::ExplicitWithParams("/api/:kind"), 8).unwrap();
    let raw = "get /api/items?x=1&x=2#top HTTP/1.1\r\nHost: example.com\r\nCookie: a=1; b=2\r\nX-Token:  abc \r\n\r\nline1\r\n\r\nline3";
    let (req, found) = deserialize(raw, &route);
    assert_eq!(found, Some(8));
    assert!(req.method.key_eq(&REST::GET));
    assert_eq!(req.uri, "/api/items");
    assert_eq!(req.fragment, "#top");
    assert_eq!(req.version, "HTTP/1.1");
    assert_eq!(req.scheme.get("x"), Some(vec![String::from("1"), String::from("2")]));
    assert_eq!(req.header("host"), Some(String::from("example.com")));
    assert_eq!(req.header("x-token"), Some(String::from("abc")));
    assert_eq!(req.header("cookie"), None);
    assert_eq!(req.cookies.get("a"), Some(String::from("1")));
    assert_eq!(req.cookies.get("b"), Some(String::from("2")));
    assert_eq!(req.body, vec![String::from("line1"), String::new(), String::from("line3")]);
    assert_eq!(req.params.get("kind"), Some(String::from("items")));
}

#[test]
fn deserialize_without_handler() {
    let route = Route::new();
    let (req, found) = deserialize("POST /nothing HTTP/1.1\r\nA: b\r\n\r\n", &route);
    assert_eq!(found, None);
    assert!(req.method.key_eq(&REST::POST));
    assert_eq!(req.header("a"), Some(String::from("b")));
    assert_eq!(req.params.len(), 0);
}

#[test]
fn headers_are_parsed_without_a_path() {
    let route = Route::new();
    let (req, found) = deserialize("GET ?x HTTP/1.1\r\nA: b\r\nCookie: k=v\r\n\r\nbody", &route);
    assert_eq!(found, None);
    assert_eq!(req.uri, "");
    assert_eq!(req.header("a"), Some(String::from("b")));
    assert_eq!(req.cookies.get("k"), Some(String::from("v")));
    assert_eq!(req.body, vec![String::from("body")]);
}

#[test]
fn no_redirect_leaves_response_alone() {
    let mut resp = Response::new();
    resp.status = 202;
    resp.keep_alive = true;
    resp.content_type = String::from("text/plain");
    resp.apply_redirect();
    assert_eq!(resp.status, 202);
    assert!(resp.keep_alive);
    assert_eq!(resp.content_type, "text/plain");
    assert_eq!(resp.headers.len(), 0);
}

#[test]
fn patch_and_other_methods_are_recognized() {
    let mut route = Route::new();
    route.patch(RequestPath::Explicit("/p"), 1).unwrap();
    route.other("purge", RequestPath::Explicit("/p"), 2).unwrap();
    assert_eq!(deserialize("PATCH /p HTTP/1.1", &route).1, Some(1));
    assert_eq!(deserialize("purge /p HTTP/1.1", &route).1, Some(2));
}

#[test]
fn empty_request_is_bad_request() {
    let route = Route::new();
    let err = parse_request(" \r\n\r\n  ", &route).err().unwrap();
    assert_eq!(err, ConnError::EmptyRequest);
    assert_eq!(error_status(err), Some(400));
    assert!(parse_request("", &route).is_err());
}

#[test]
fn unregistered_method_is_not_found_unless_header_only() {
    let mut route = Route::new();
    route.get(RequestPath::Explicit("/x"), 1).unwrap();
    let (req, found) = parse_request("HEADER /x HTTP/1.1\r\nHost: h\r\n\r\n", &route).unwrap();
    assert_eq!(found, Some(1));
    assert_eq!(req.host, "h");
    let (_, found) = parse_request("PUT /x HTTP/1.1\r\n\r\n", &route).unwrap();
    assert_eq!(found, None);
    let err = authorize(found, None).unwrap_err();
    assert_eq!(err, ConnError::ServiceUnavailable);
    assert_eq!(error_status(err), Some(404));
}

#[test]
fn authorization_and_status_mapping() {
    assert_eq!(authorize(Some(3), Some(false)), Err(ConnError::AccessDenied));
    assert_eq!(authorize(Some(3), Some(true)), Ok(3));
    assert_eq!(authorize(Some(3), None), Ok(3));
    assert_eq!(authorize(None, Some(false)), Err(ConnError::AccessDenied));
    assert_eq!(error_status(ConnError::AccessDenied), Some(401));
    assert_eq!(error_status(ConnError::ReadStreamFailure), None);
}

#[test]
fn flush_is_retried_four_times() {
    assert!(should_retry_flush(1, false));
    assert!(should_retry_flush(3, false));
    assert!(!should_retry_flush(4, false));
    assert!(!should_retry_flush(1, true));
}

#[test]
fn redirects_get_a_leading_slash() {
    assert_eq!(redirect_location("home"), Some(String::from("/home")));
    assert_eq!(redirect_location("/home"), Some(String::from("/home")));
    assert_eq!(redirect_location(""), None);
    let mut resp = Response::new();
    resp.redirect = String::from("next");
    resp.apply_redirect();
    assert_eq!(resp.status, 301);
    assert_eq!(resp.headers.get("location"), Some(String::from("/next")));
}

#[test]
fn response_modes_follow_request() {
    let route = Route::new();
    let (req, _) = deserialize("HEAD /a HTTP/1.1\r\nConnection: close\r\n\r\n", &route);
    let mut resp = Response::new();
    prepare_response(&req, &mut resp);
    assert!(!resp.keep_alive);
    assert!(resp.header_only);
    let (req, _) = deserialize("GET /a HTTP/1.1\r\nConnection: keep-alive\r\n\r\n", &route);
    let mut resp = Response::new();
    prepare_response(&req, &mut resp);
    assert!(resp.keep_alive);
    assert!(!resp.header_only);
}

#[test]
fn error_response_defaults() {
    let resp = build_err_response(404);
    assert_eq!(resp.status, 404);
    assert!(!resp.keep_alive);
    assert_eq!(resp.content_type, "text/html");
}

#[test]
fn header_keys_are_lowercased() {
    let mut headers = TextMap::new();
    assert_eq!(headers.add("Content-Type", String::from("a"), true), None);
    assert_eq!(headers.add("CONTENT-TYPE", String::from("b"), true), Some(String::from("a")));
    assert_eq!(headers.add("content-type", String::from("c"), false), None);
    assert_eq!(headers.add("", String::from("d"), true), None);
    assert_eq!(headers.len(), 1);
    assert_eq!(headers.get("content-type"), Some(String::from("b")));
}

#[test]
fn json_rendering() {
    let mut map = TextMap::new();
    assert_eq!(json_stringify(&map), "{}");
    map.insert(String::from("a"), String::from("1"));
    map.insert(String::new(), String::from("skip"));
    map.insert(String::from("b"), String::from("2"));
    assert_eq!(json_stringify(&map), "{a:1,b:2}");

    let mut q = QueryMap::new();
    q.append(String::from("x"), String::from("1"));
    q.append(String::from("y"), String::from("3"));
    q.append(String::from("x"), String::from("2"));
    assert_eq!(json_flat_stringify(&q), "{x:[1,2],y:3}");

    assert_eq!(json_format_content(&[]), "");
    assert_eq!(json_format_content(&[String::from("v")]), "v");
    assert_eq!(json_format_content(&[String::from("a"), String::from("b"), String::from("c")]), "[a,b,c]");
}

#[test]
fn flat_and_line_break() {
    let v = vec![String::from("ab"), String::new(), String::from("c")];
    assert_eq!(v.flat(), "abc");
    let mut s = String::from("x");
    s.append_line_break();
    assert_eq!(s, "x\r\n");
}

#[test]
fn fresh_request_is_empty() {
    let req = Request::new();
    assert_eq!(req.uri, "");
    assert_eq!(req.headers.len(), 0);
}
