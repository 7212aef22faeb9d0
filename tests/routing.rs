use rusty_express::common::TextMap;
use rusty_express::router::{RequestPath, Route, RouteHandler, RouteMap, Router, REST};
use rusty_express::trie::{Field, RouteError, RouteTrie};

fn param(map: &TextMap, key: &str) -> Option<String> {
    map.get(key)
}

#[test]
fn explicit_route_returns_last_binding() {
    let mut route = Route::new();
    route.get(RequestPath::Explicit("/a/b"), 1).unwrap();
    route.get(RequestPath::Explicit("/a/b"), 2).unwrap();
    route.get(RequestPath::Explicit("/a/c"), 3).unwrap();
    let (found, params) = route.seek_handler(&REST::GET, "/a/b", false);
    assert_eq!(found, Some(2));
    assert_eq!(params.len(), 0);
    assert_eq!(route.seek_handler(&REST::GET, "/a/c", false).0, Some(3));
    assert_eq!(route.seek_handler(&REST::GET, "/a/d", false).0, None);
}

#[test]
fn explicit_route_rejects_bad_paths() {
    let mut route = Route::new();
    assert_eq!(route.get(RequestPath::Explicit(""), 1), Err(RouteError::EmptyPath));
    assert_eq!(route.get(RequestPath::Explicit("a/b"), 1), Err(RouteError::NotRooted));
    assert_eq!(route.get(RequestPath::WildCard(""), 1), Err(RouteError::EmptyPath));
    assert_eq!(route.other("", RequestPath::Explicit("/a"), 1), Err(RouteError::EmptyMethod));
}

#[test]
fn validator_mismatch_falls_through_to_sibling() {
    let mut route = Route::new();
    route.get(RequestPath::ExplicitWithParams("/user/:id([0-9]+)"), 1).unwrap();
    route.get(RequestPath::ExplicitWithParams("/user/:name"), 2).unwrap();

    let (found, params) = route.seek_handler(&REST::GET, "/user/42", false);
    assert_eq!(found, Some(1));
    assert_eq!(param(&params, "id"), Some(String::from("42")));

    let (found, params) = route.seek_handler(&REST::GET, "/user/bob", false);
    assert_eq!(found, Some(2));
    assert_eq!(param(&params, "name"), Some(String::from("bob")));
    assert_eq!(param(&params, "id"), None);
}

#[test]
fn validator_mismatch_without_sibling_fails() {
    let mut route = Route::new();
    route.get(RequestPath::ExplicitWithParams("/item/:id([0-9]+)"), 1).unwrap();
    let (found, params) = route.seek_handler(&REST::GET, "/item/abc", false);
    assert_eq!(found, None);
    assert_eq!(params.len(), 0);
}

#[test]
fn backtracking_leaves_no_stale_bindings() {
    let mut route = Route::new();
    route.get(RequestPath::ExplicitWithParams("/a/:x/b"), 1).unwrap();
    route.get(RequestPath::ExplicitWithParams("/a/:y/c"), 2).unwrap();
    let (found, params) = route.seek_handler(&REST::GET, "/a/v/c", false);
    assert_eq!(found, Some(2));
    assert_eq!(params.len(), 1);
    assert_eq!(param(&params, "y"), Some(String::from("v")));
    assert_eq!(param(&params, "x"), None);
}

#[test]
fn parameter_bindings_equal_segments() {
    let mut route = Route::new();
    route.get(RequestPath::ExplicitWithParams("/shop/:cat/items/:item"), 7).unwrap();
    let (found, params) = route.seek_handler(&REST::GET, "/shop/books/items/dune", false);
    assert_eq!(found, Some(7));
    assert_eq!(params.len(), 2);
    assert_eq!(params.entry_at(0), (String::from("cat"), String::from("books")));
    assert_eq!(params.entry_at(1), (String::from("item"), String::from("dune")));
}

#[test]
fn wildcards_first_match_in_registration_order() {
    let mut route = Route::new();
    route.get(RequestPath::WildCard("^/w/.*"), 1).unwrap();
    route.get(RequestPath::WildCard("^/w/a.*"), 2).unwrap();
    route.get(RequestPath::WildCard("^/w/.*"), 3).unwrap();
    route.get(RequestPath::WildCard("("), 4).unwrap();
    assert_eq!(route.seek_handler(&REST::GET, "/w/abc", false).0, Some(1));
    assert_eq!(route.seek_handler(&REST::GET, "/v/abc", false).0, None);
}

#[test]
fn explicit_beats_parameterized() {
    let mut route = Route::new();
    route.get(RequestPath::ExplicitWithParams("/p/:x"), 2).unwrap();
    route.get(RequestPath::Explicit("/p/q"), 1).unwrap();
    route.get(RequestPath::WildCard("^/p/.*"), 3).unwrap();
    assert_eq!(route.seek_handler(&REST::GET, "/p/q", false).0, Some(1));
    let (found, params) = route.seek_handler(&REST::GET, "/p/r", false);
    assert_eq!(found, Some(2));
    assert_eq!(param(&params, "x"), Some(String::from("r")));
}

#[test]
fn parameterized_path_without_marker_is_explicit() {
    let mut route = Route::new();
    route.post(RequestPath::ExplicitWithParams("/plain/path"), 5).unwrap();
    assert_eq!(route.seek_handler(&REST::POST, "/plain/path", false).0, Some(5));
}

#[test]
fn literal_trie_route_collision() {
    let mut trie = RouteTrie::initialize();
    let route = || vec![Field::new(String::from("a"), false, None), Field::new(String::from("b"), false, None)];
    assert_eq!(trie.add(route(), 1), Ok(()));
    assert_eq!(trie.add(route(), 2), Err(RouteError::Collision));
    let mut params = Vec::new();
    assert_eq!(trie.find(&vec![String::from("a"), String::from("b")], &mut params), Some(1));
    let mut map = RouteMap::new();
    assert_eq!(map.insert(RequestPath::ExplicitWithParams("/a:\\b"), 1), Err(RouteError::MisplacedColon));
}

#[test]
fn parameter_leaf_without_handler_is_passed_over() {
    let mut route = Route::new();
    route.get(RequestPath::ExplicitWithParams("/:a/x"), 1).unwrap();
    route.get(RequestPath::ExplicitWithParams("/:b"), 2).unwrap();
    let (found, params) = route.seek_handler(&REST::GET, "/v", false);
    assert_eq!(found, Some(2));
    assert_eq!(param(&params, "b"), Some(String::from("v")));
    assert_eq!(param(&params, "a"), None);
    let (found, params) = route.seek_handler(&REST::GET, "/v/x", false);
    assert_eq!(found, Some(1));
    assert_eq!(param(&params, "a"), Some(String::from("v")));
}

#[test]
fn path_fitting_no_route_resolves_to_nothing() {
    let mut map = RouteMap::new();
    map.insert(RequestPath::ExplicitWithParams("/u/:id([0-9]+)"), 1).unwrap();
    let mut p1 = TextMap::new();
    assert_eq!(map.seek_path("/u/abc", &mut p1), None);
    assert_eq!(p1.len(), 0);
    let mut p2 = TextMap::new();
    assert_eq!(map.seek_path("/u/42", &mut p2), Some(1));
    assert_eq!(p2.get("id"), Some(String::from("42")));
    map.insert(RequestPath::ExplicitWithParams("/u/:name"), 2).unwrap();
    let mut p3 = TextMap::new();
    assert_eq!(map.seek_path("/u/abc", &mut p3), Some(2));
    assert_eq!(p3.get("name"), Some(String::from("abc")));
}

#[test]
fn header_only_falls_back_to_get() {
    let mut route = Route::new();
    route.get(RequestPath::Explicit("/x"), 1).unwrap();
    let head = REST::OTHER(String::from("HEADER"));
    assert_eq!(route.seek_handler(&head, "/x", true).0, Some(1));
    assert_eq!(route.seek_handler(&REST::PUT, "/x", false).0, None);
    assert_eq!(route.seek_handler(&REST::PUT, "/x", true).0, Some(1));
}

#[test]
fn catch_all_table_is_last_resort() {
    let mut route = Route::new();
    route.put(RequestPath::Explicit("/x"), 1).unwrap();
    route.all(RequestPath::Explicit("/y"), 9).unwrap();
    assert_eq!(route.seek_handler(&REST::PUT, "/y", false).0, Some(9));
    assert_eq!(route.seek_handler(&REST::DELETE, "/y", false).0, Some(9));
    assert_eq!(route.seek_handler(&REST::PUT, "/x", false).0, Some(1));
}

#[test]
fn other_methods_are_uppercased() {
    let mut route = Route::new();
    route.other("purge", RequestPath::Explicit("/c"), 4).unwrap();
    let purge = REST::OTHER(String::from("PURGE"));
    assert_eq!(route.seek_handler(&purge, "/c", false).0, Some(4));
    route.patch(RequestPath::Explicit("/p"), 5).unwrap();
    route.delete(RequestPath::Explicit("/d"), 6).unwrap();
    route.options(RequestPath::Explicit("/o"), 7).unwrap();
    assert_eq!(route.seek_handler(&REST::PATCH, "/p", false).0, Some(5));
    assert_eq!(route.seek_handler(&REST::DELETE, "/d", false).0, Some(6));
    assert_eq!(route.seek_handler(&REST::OPTIONS, "/o", false).0, Some(7));
}
