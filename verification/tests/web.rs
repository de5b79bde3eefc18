use rustlab::http::decode;
use rustlab::http::parse_path_and_query;
use rustlab::http::Method;
use rustlab::http::Response;
use rustlab::http::Route;
use rustlab::http::Router;

#[test]
fn test_method_parsing() {
    assert_eq!(Method::from_str("GET"), Some(Method::GET));
    assert_eq!(Method::from_str("POST"), Some(Method::POST));
    assert_eq!(Method::from_str("INVALID"), None);
}

#[test]
fn test_route_matching() {
    let route = Route { method: Method::GET, pattern: "/hello/:name".to_string() };

    let params = route.matches(&Method::GET, "/hello/world");
    assert!(params.is_some());
    assert_eq!(params.unwrap().get("name"), Some(&"world".to_string()));

    assert!(route.matches(&Method::POST, "/hello/world").is_none());
    assert!(route.matches(&Method::GET, "/goodbye/world").is_none());
}

#[test]
fn test_response_creation() {
    let resp = Response::ok("Hello");
    assert_eq!(resp.status, 200);
    assert_eq!(resp.body, "Hello");

    let resp = Response::not_found();
    assert_eq!(resp.status, 404);
}

#[test]
fn test_path_query_parsing() {
    let (path, query) = parse_path_and_query("/test?foo=bar&baz=qux");
    assert_eq!(path, "/test");
    assert_eq!(query.get("foo"), Some(&"bar".to_string()));
    assert_eq!(query.get("baz"), Some(&"qux".to_string()));
}

#[test]
fn decode_unescapes_spaces() {
    assert_eq!(decode("a+b%20c").unwrap(), "a b c");
    assert_eq!(decode("plain").unwrap(), "plain");
    assert_eq!(decode("").unwrap(), "");
}

#[test]
fn router_finds_first_matching_route() {
    let mut router = Router::new();
    router.get("/");
    router.get("/hello/:name");
    router.post("/data");

    let hit = router.find_route(&Method::GET, "/hello/rust");
    assert!(hit.is_some());
    let (idx, params) = hit.unwrap();
    assert_eq!(idx, 1);
    assert_eq!(params.get("name"), Some(&"rust".to_string()));

    assert!(router.find_route(&Method::GET, "/data").is_none());
    let posted = router.find_route(&Method::POST, "/data");
    assert_eq!(posted.unwrap().0, 2);
}

#[test]
fn response_builders_fill_headers() {
    let resp = Response::json("{}").header("X-Trace", "1");
    assert_eq!(resp.status, 200);
    assert_eq!(resp.headers.get("Content-Type"), Some(&"application/json".to_string()));
    assert_eq!(resp.headers.get("X-Trace"), Some(&"1".to_string()));

    let err = Response::internal_error("boom");
    assert_eq!(err.status, 500);
    assert_eq!(err.body, "500 Internal Server Error: boom");
}
