use grout::{
    default_error_handler, default_not_found_handler, path, split_path, PathSegment, Router,
};

fn params(v: &[&str]) -> Vec<String> {
    v.iter().map(|s| s.to_string()).collect()
}

#[test]
fn literal_route_is_found_without_params() {
    let router = Router::new()
        .register("GET", path("foo/bar"), "foobar")
        .register("GET", path("foo"), "foo");
    assert_eq!(router.find("GET", "/foo/bar"), (vec![], Some(&"foobar")));
    assert_eq!(router.find("GET", "/foo"), (vec![], Some(&"foo")));
}

#[test]
fn dynamic_segments_are_captured_in_path_order() {
    let router = Router::new().register("POST", path("foo/_/bar/_/baz"), 7u32);
    let (found, handler) = router.find("POST", "/foo/one/bar/two/baz");
    assert_eq!(found, params(&["one", "two"]));
    assert_eq!(handler, Some(&7));
}

#[test]
fn captures_follow_position_not_registration_order() {
    let router = Router::new()
        .register("GET", path("_/x/_"), 1u32)
        .register("GET", path("_"), 2u32);
    assert_eq!(router.find("GET", "/a/x/b"), (params(&["a", "b"]), Some(&1)));
    assert_eq!(router.find("GET", "/a"), (params(&["a"]), Some(&2)));
}

#[test]
fn registering_twice_keeps_the_last_handler() {
    let router = Router::new()
        .register("GET", path("foo/_"), "first")
        .register("GET", path("foo/_"), "second");
    assert_eq!(router.find("GET", "/foo/x"), (params(&["x"]), Some(&"second")));
}

#[test]
fn static_segment_takes_precedence_over_dynamic() {
    let router = Router::new()
        .register("GET", path("foo/bar"), "static")
        .register("GET", path("foo/_"), "dynamic");
    assert_eq!(router.find("GET", "foo/bar"), (vec![], Some(&"static")));
    assert_eq!(router.find("GET", "foo/baz"), (params(&["baz"]), Some(&"dynamic")));
}

#[test]
fn lookup_does_not_backtrack() {
    let router = Router::new()
        .register("GET", path("a/b"), "ab")
        .register("GET", path("a/_/c"), "a_c");
    let (found, handler) = router.find("GET", "a/b/c");
    assert_eq!(handler, None);
    assert!(found.is_empty());
    assert_eq!(router.find("GET", "a/x/c"), (params(&["x"]), Some(&"a_c")));
}

#[test]
fn extra_slashes_are_ignored() {
    let router = Router::new().register("GET", path("foo/bar"), 3u8);
    let expected = (vec![], Some(&3u8));
    assert_eq!(router.find("GET", "/foo/bar/"), expected);
    assert_eq!(router.find("GET", "foo/bar"), expected);
    assert_eq!(router.find("GET", "foo//bar"), expected);
    assert_eq!(router.find("GET", "//foo///bar//"), expected);
}

#[test]
fn unknown_prefix_matches_nothing() {
    let router = Router::new()
        .register("GET", path("_"), 1u8)
        .register("GET", path(""), 2u8);
    assert_eq!(router.find("POST", "/anything"), (vec![], None));
    assert_eq!(router.find("POST", "/"), (vec![], None));
    assert_eq!(router.find("get", "/x"), (vec![], None));
    let empty: Router<u8> = Router::default();
    assert_eq!(empty.find("GET", "/"), (vec![], None));
}

#[test]
fn default_not_found_is_404_with_empty_body() {
    let reply = default_not_found_handler();
    assert_eq!(reply.status, 404);
    assert_eq!(reply.body, "");
}

#[test]
fn default_error_is_500_with_description() {
    let reply = default_error_handler("database unavailable".to_string());
    assert_eq!(reply.status, 500);
    assert_eq!(reply.body, "database unavailable");
}

#[test]
fn empty_path_routes_to_the_root() {
    let router = Router::new().register("GET", path(""), "root");
    assert_eq!(router.find("GET", ""), (vec![], Some(&"root")));
    assert_eq!(router.find("GET", "/"), (vec![], Some(&"root")));
    assert_eq!(router.find("GET", "///"), (vec![], Some(&"root")));
    assert_eq!(router.find("GET", "/x"), (vec![], None));
}

#[test]
fn intermediate_node_without_handler_is_no_match() {
    let router = Router::new().register("GET", path("a/b/c"), 1u8);
    assert_eq!(router.find("GET", "/a/b"), (vec![], None));
    let (_, node) = router.find_node("GET", "/a/b");
    let node = node.expect("the node for a/b exists");
    assert!(node.route.is_none());
    assert_eq!(node.children.len(), 1);
    let (_, leaf) = router.find_node("GET", "/a/b/c");
    assert_eq!(leaf.and_then(|n| n.route), Some(1));
}

#[test]
fn params_captured_before_a_dead_end_are_returned() {
    let router = Router::new().register("GET", path("_/x"), 1u8);
    assert_eq!(router.find("GET", "/a/y"), (params(&["a"]), None));
    assert_eq!(router.find("GET", "/a/x/z"), (params(&["a"]), None));
    let (found, node) = router.find_node("GET", "/a/y/z");
    assert_eq!(found, params(&["a"]));
    assert!(node.is_none());
}

#[test]
fn dynamic_segment_does_not_match_an_empty_component() {
    let router = Router::new().register("GET", path("a/_"), 1u8);
    assert_eq!(router.find("GET", "/a/"), (vec![], None));
    assert_eq!(router.find("GET", "/a//"), (vec![], None));
}

#[test]
fn prefixes_are_independent() {
    let router = Router::new()
        .register("GET", path("foo/_"), "get")
        .register("POST", path("foo/_"), "post");
    assert_eq!(router.find("GET", "/foo/1"), (params(&["1"]), Some(&"get")));
    assert_eq!(router.find("POST", "/foo/2"), (params(&["2"]), Some(&"post")));
}

#[test]
fn path_syntax_builds_segments() {
    assert_eq!(
        path("foo/_/bar"),
        vec![
            PathSegment::Static("foo".to_string()),
            PathSegment::Dynamic,
            PathSegment::Static("bar".to_string()),
        ]
    );
    assert_eq!(path(""), vec![]);
    assert_eq!(path("/_x/__/"), vec![
        PathSegment::Static("_x".to_string()),
        PathSegment::Static("__".to_string()),
    ]);
    assert_eq!(path("_"), vec![PathSegment::Dynamic]);
}

#[test]
fn split_drops_empty_components() {
    assert_eq!(split_path("/a//b/"), params(&["a", "b"]));
    assert_eq!(split_path("a/b"), params(&["a", "b"]));
    assert_eq!(split_path(""), params(&[]));
    assert_eq!(split_path("///"), params(&[]));
    assert_eq!(split_path("héllo/wörld"), params(&["héllo", "wörld"]));
}

#[test]
fn segment_equality() {
    assert_eq!(PathSegment::Dynamic, PathSegment::Dynamic);
    assert_eq!(
        PathSegment::Static("a".to_string()),
        PathSegment::Static("a".to_string())
    );
    assert_ne!(
        PathSegment::Static("a".to_string()),
        PathSegment::Static("b".to_string())
    );
    assert_ne!(PathSegment::Dynamic, PathSegment::Static("_".to_string()));
    let seg = PathSegment::Static("x".to_string());
    assert_eq!(seg.clone(), seg);
}

#[test]
fn unicode_segments_match_exactly() {
    let router = Router::new().register("GET", path("café/_"), 1u8);
    assert_eq!(router.find("GET", "/café/naïve"), (params(&["naïve"]), Some(&1)));
    assert_eq!(router.find("GET", "/cafe/x"), (vec![], None));
}
