use crud_api::ApiInputSerde;
use crud_api::DataSerde;
use crud_api::Endpoint;
use crud_api::EndpointStore;
use crud_api::VecStringWrapper;
use crud_api::insert_endpoint;
use crud_api::store::reverse_segments;
use crud_api::store::split_route;

fn endpoint(route: &str, cli_route: &str, method: &str) -> Endpoint {
    let mut ep = Endpoint::default();
    ep.route = route.to_string();
    ep.cli_route = cli_route.to_string();
    ep.method = method.to_string();
    ep
}

fn segments_of(cli_route: &str) -> Vec<String> {
    reverse_segments(split_route(cli_route))
}

#[test]
fn test_insert_simple_endpoint() {
    let ep = endpoint("/", "/", "GET");
    let segments = segments_of("/");
    let map = Vec::new();
    let result = insert_endpoint(map, ep, segments);
    assert_eq!(result.len(), 0);
}

#[test]
fn test_insert_one_endpoint_at_one_level_endpoint() {
    let ep = endpoint("/post", "/post", "GET");
    let segments = segments_of("/post");
    let map = Vec::new();
    let result = insert_endpoint(map, ep, segments);
    assert_eq!(result.len(), 1);
    assert_eq!(result[0].0, "post");
    assert_eq!(result[0].1.endpoint.len(), 1);
    assert_eq!(result[0].1.endpoint[0].route, "/post");
    assert_eq!(result[0].1.endpoint[0].method, "GET");
    assert_eq!(result[0].1.endpoint[0].result_ok_status, "OK");
    assert_eq!(result[0].1.endpoint[0].cli_route, "/post");
    assert_eq!(result[0].1.route.len(), 0);
}

#[test]
fn test_insert_two_endpoints_at_one_level() {
    let ep = endpoint("/post", "/post", "GET");
    let map = insert_endpoint(Vec::new(), ep, segments_of("/post"));
    let ep = endpoint("/post", "/post", "POST");
    let result = insert_endpoint(map, ep, segments_of("/post"));
    assert_eq!(result.len(), 1);
    assert_eq!(result[0].0, "post");
    assert_eq!(result[0].1.endpoint.len(), 2);
    assert_eq!(result[0].1.endpoint[0].method, "GET");
    assert_eq!(result[0].1.endpoint[1].method, "POST");
    assert_eq!(result[0].1.route.len(), 0);
}

#[test]
fn test_insert_three_endpoints_at_two_levels() {
    let map = Vec::new();
    let map = insert_endpoint(map, endpoint("/post", "/post", "GET"), segments_of("/post"));
    let map = insert_endpoint(map, endpoint("/post", "/post", "POST"), segments_of("/post"));
    let map = insert_endpoint(
        map,
        endpoint("/post/user", "/post/user", "GET"),
        segments_of("/post/user"),
    );
    assert_eq!(map.len(), 1);
    assert_eq!(map[0].0, "post");
    assert_eq!(map[0].1.endpoint.len(), 2);
    assert_eq!(map[0].1.endpoint[0].method, "GET");
    assert_eq!(map[0].1.endpoint[1].method, "POST");
    assert_eq!(map[0].1.route.len(), 1);
    assert_eq!(map[0].1.route[0].0, "user");
    assert_eq!(map[0].1.route[0].1.endpoint.len(), 1);
    assert_eq!(map[0].1.route[0].1.endpoint[0].route, "/post/user");
    assert_eq!(map[0].1.route[0].1.route.len(), 0);
}

#[test]
fn test_insert_one_endpoints_at_three_levels() {
    let map = insert_endpoint(
        Vec::new(),
        endpoint("/post", "/post/comments/replies", "GET"),
        segments_of("/post/comments/replies"),
    );
    assert_eq!(map.len(), 1);
    assert_eq!(map[0].0, "post");
    assert_eq!(map[0].1.endpoint.len(), 0);
    assert_eq!(map[0].1.route.len(), 1);
    assert_eq!(map[0].1.route[0].0, "comments");
    assert_eq!(map[0].1.route[0].1.endpoint.len(), 0);
    assert_eq!(map[0].1.route[0].1.route.len(), 1);
    assert_eq!(map[0].1.route[0].1.route[0].0, "replies");
    assert_eq!(map[0].1.route[0].1.route[0].1.endpoint.len(), 1);
    assert_eq!(map[0].1.route[0].1.route[0].1.endpoint[0].route, "/post");
    assert_eq!(map[0].1.route[0].1.route[0].1.route.len(), 0);
}

#[test]
fn test_endpoint_default() {
    let ep = Endpoint::default();
    assert_eq!(ep.route, "".to_string());
    assert_eq!(ep.method, "GET".to_string());
}

#[test]
fn test_endpoint_result_struct() {
    let mut ep = Endpoint::default();
    ep.result_struct = "Endpoint".to_string();
    assert_eq!(ep.route, "".to_string());
    assert_eq!(ep.method, "GET".to_string());
    assert_eq!(ep.result_struct, "Endpoint".to_string());
}

#[test]
fn split_route_leading_slash() {
    let parts = split_route("/post/{id}");
    assert_eq!(parts, vec!["".to_string(), "post".to_string(), "{id}".to_string()]);
}

#[test]
fn split_route_empty() {
    assert_eq!(split_route(""), vec!["".to_string()]);
}

#[test]
fn insertion_order_does_not_change_structure() {
    let mut a = EndpointStore::new();
    a.store_endpoint(endpoint("/posts", "/post", "GET"));
    a.store_endpoint(endpoint("/users", "/user", "GET"));
    let mut b = EndpointStore::new();
    b.store_endpoint(endpoint("/users", "/user", "GET"));
    b.store_endpoint(endpoint("/posts", "/post", "GET"));
    let ma = a.endpoints();
    let mb = b.endpoints();
    assert_eq!(ma.len(), 2);
    assert_eq!(mb.len(), 2);
    for (key, node) in ma.iter() {
        let other = mb.iter().find(|(k, _)| k == key).expect("key in both tries");
        assert_eq!(other.1.endpoint.len(), node.endpoint.len());
        assert_eq!(other.1.endpoint[0].route, node.endpoint[0].route);
    }
}

#[test]
fn trailing_slash_attaches_at_last_segment() {
    let map = insert_endpoint(
        Vec::new(),
        endpoint("/posts", "/post/", "GET"),
        segments_of("/post/"),
    );
    assert_eq!(map.len(), 1);
    assert_eq!(map[0].0, "post");
    assert_eq!(map[0].1.endpoint.len(), 1);
    assert_eq!(map[0].1.endpoint[0].route, "/posts");
    assert_eq!(map[0].1.route.len(), 0);
}

#[test]
fn trailing_slash_equals_plain_route() {
    let mut a = EndpointStore::new();
    a.store_endpoint(endpoint("/posts", "/post/", "GET"));
    let mut b = EndpointStore::new();
    b.store_endpoint(endpoint("/posts", "/post", "GET"));
    assert_eq!(a.endpoints().len(), b.endpoints().len());
    assert_eq!(a.endpoints()[0].0, b.endpoints()[0].0);
    assert_eq!(
        a.endpoints()[0].1.endpoint.len(),
        b.endpoints()[0].1.endpoint.len()
    );
}

#[test]
fn comma_list_splits_with_first_characters() {
    let w = VecStringWrapper::from_string("alias,b,");
    assert_eq!(w.v, vec!["alias".to_string(), "b".to_string(), "".to_string()]);
    assert_eq!(w.c, vec!['a', 'b', '\u{0}']);
}

#[test]
fn bare_slash_endpoint_attaches_to_root() {
    let mut store = EndpointStore::new();
    store.store_endpoint(endpoint("/", "/", "GET"));
    assert_eq!(store.endpoints().len(), 0);
    assert_eq!(store.root.len(), 1);
    assert_eq!(store.root[0].route, "/");
}

#[test]
fn store_keeps_input_declarations() {
    let mut store = EndpointStore::new();
    let field = ApiInputSerde {
        ident: "PostCreate".to_string(),
        data: DataSerde::Struct(Vec::new()),
        no_input_file: false,
        heading: None,
        prefix: None,
        config: Vec::new(),
    };
    store.store_input("PostCreate".to_string(), field);
    let inputs = store.input_map();
    assert_eq!(inputs.len(), 1);
    assert_eq!(inputs[0].0, "PostCreate");
    assert_eq!(inputs[0].1.ident, "PostCreate");
}
