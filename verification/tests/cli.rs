use crud_api::CmdItem;
use crud_api::DispatchOutcome;
use crud_api::Endpoint;
use crud_api::EndpointStore;
use crud_api::Invocation;
use crud_api::VecStringWrapper;
use crud_api::argmatches;
use crud_api::is_var;
use crud_api::output_format_values;
use crud_api::strip_var;
use crud_api::subcommands;

fn endpoint(route: &str, cli_route: &str, method: &str) -> Endpoint {
    let mut ep = Endpoint::default();
    ep.route = route.to_string();
    ep.cli_route = cli_route.to_string();
    ep.method = method.to_string();
    ep
}

fn formats(names: &[&str]) -> VecStringWrapper {
    VecStringWrapper {
        v: names.iter().map(|s| s.to_string()).collect(),
        c: names.iter().map(|s| s.chars().next().unwrap()).collect(),
    }
}

#[test]
fn test_is_var() {
    assert_eq!(is_var("var"), false);
    assert_eq!(is_var("{var}"), true);
}

#[test]
fn test_strip_var() {
    assert_eq!(strip_var("var"), None);
    assert_eq!(strip_var("{var}"), Some("var"));
}

#[test]
fn output_flag_sits_at_streaming_node() {
    let mut store = EndpointStore::new();
    let mut ep = endpoint("/export/{id}", "/export/{id}", "GET");
    ep.result_is_stream = true;
    store.store_endpoint(ep);
    let items = subcommands(store.endpoints());
    assert_eq!(items.len(), 1);
    match &items[0] {
        CmdItem::Sub(c) => {
            assert_eq!(c.name, "export");
            assert!(!c.output_file);
            assert_eq!(c.items.len(), 1);
            match &c.items[0] {
                CmdItem::Var(v) => {
                    assert_eq!(v.name, "id");
                    assert!(v.output_file);
                },
                CmdItem::Sub(_) => panic!("expected a variable capture"),
            }
        },
        CmdItem::Var(_) => panic!("expected a subcommand"),
    }
}

#[test]
fn output_flag_once_per_branch() {
    let mut store = EndpointStore::new();
    let mut top = endpoint("/export", "/export", "GET");
    top.result_is_stream = true;
    store.store_endpoint(top);
    let mut deep = endpoint("/export/{id}", "/export/{id}", "GET");
    deep.result_is_stream = true;
    store.store_endpoint(deep);
    let items = subcommands(store.endpoints());
    match &items[0] {
        CmdItem::Sub(c) => {
            assert!(c.output_file);
            match &c.items[0] {
                CmdItem::Var(v) => assert!(!v.output_file),
                CmdItem::Sub(_) => panic!("expected a variable capture"),
            }
        },
        CmdItem::Var(_) => panic!("expected a subcommand"),
    }
}

#[test]
fn format_values_sorted_dedup_union() {
    let mut a = endpoint("/a", "/a", "GET");
    a.cli_output_formats = Some(formats(&["yaml", "json"]));
    let mut b = endpoint("/a", "/a", "POST");
    b.cli_output_formats = Some(formats(&["json", "csv"]));
    let eps = vec![a, b];
    let values = output_format_values(&eps).expect("format flag owed");
    assert_eq!(values, vec!["csv".to_string(), "json".to_string(), "yaml".to_string()]);
}

#[test]
fn format_values_exclude_stream_and_no_output() {
    let mut a = endpoint("/a", "/a", "GET");
    a.cli_output_formats = Some(formats(&["json"]));
    let mut b = endpoint("/a", "/a", "POST");
    b.cli_output_formats = Some(formats(&["toml"]));
    b.result_is_stream = true;
    let mut c = endpoint("/a", "/a", "PUT");
    c.cli_output_formats = Some(formats(&["csv"]));
    c.cli_no_output = true;
    let values = output_format_values(&vec![a, b, c]).expect("format flag owed");
    assert_eq!(values, vec!["json".to_string()]);
}

#[test]
fn format_values_stream_opts_back_in_when_forced() {
    let mut a = endpoint("/a", "/a", "GET");
    a.cli_output_formats = Some(formats(&["json"]));
    let mut b = endpoint("/a", "/a", "POST");
    b.cli_output_formats = Some(formats(&["toml"]));
    b.result_is_stream = true;
    b.cli_force_output_format = true;
    let values = output_format_values(&vec![a, b]).expect("format flag owed");
    assert_eq!(values, vec!["json".to_string(), "toml".to_string()]);
}

#[test]
fn format_flag_absent_for_stream_only_node() {
    let mut a = endpoint("/a", "/a", "GET");
    a.result_is_stream = true;
    assert!(output_format_values(&vec![a]).is_none());
}

fn invocation(subcommand: Option<(String, Box<Invocation>)>, vars: &[(&str, &str)]) -> Invocation {
    Invocation {
        subcommand,
        vars: vars.iter().map(|(k, v)| (k.to_string(), v.to_string())).collect(),
        output_file: None,
        output_format: None,
    }
}

#[test]
fn dispatch_post_with_id_selects_variable_endpoint() {
    let mut store = EndpointStore::new();
    store.store_endpoint(endpoint("/posts/{id}", "/post/{id}", "GET"));
    let mut list = endpoint("/posts", "/post", "GET");
    list.result_multiple = true;
    store.store_endpoint(list);
    let leaf = invocation(None, &[("id", "42")]);
    let inv = invocation(Some(("post".to_string(), Box::new(leaf))), &[]);
    match argmatches(store.endpoints(), &inv) {
        DispatchOutcome::Run { path, captured, .. } => {
            assert_eq!(path, vec![0usize, 0usize]);
            assert_eq!(captured, vec![("id".to_string(), "42".to_string())]);
            let map = store.endpoints();
            let node = &map[path[0]].1.route[path[1]].1;
            assert_eq!(node.endpoint.len(), 1);
            assert_eq!(node.endpoint[0].route, "/posts/{id}");
            let url = crud_api::http::build_url(
                "http://example.com",
                node.endpoint[0].route.as_str(),
                &captured,
            )
            .expect("all variables captured");
            assert_eq!(url, "http://example.com/posts/42");
        },
        _ => panic!("expected a dispatch"),
    }
}

#[test]
fn dispatch_post_without_id_selects_collection_endpoint() {
    let mut store = EndpointStore::new();
    store.store_endpoint(endpoint("/posts/{id}", "/post/{id}", "GET"));
    let mut list = endpoint("/posts", "/post", "GET");
    list.result_multiple = true;
    store.store_endpoint(list);
    let leaf = invocation(None, &[]);
    let inv = invocation(Some(("post".to_string(), Box::new(leaf))), &[]);
    match argmatches(store.endpoints(), &inv) {
        DispatchOutcome::Run { path, captured, .. } => {
            assert_eq!(path, vec![0usize]);
            assert_eq!(captured.len(), 0);
            let map = store.endpoints();
            let node = &map[path[0]].1;
            assert_eq!(node.endpoint.len(), 1);
            assert!(node.endpoint[0].result_multiple);
        },
        _ => panic!("expected a dispatch"),
    }
}

#[test]
fn dispatch_unknown_subcommand_prints_help() {
    let mut store = EndpointStore::new();
    store.store_endpoint(endpoint("/posts", "/post", "GET"));
    let leaf = invocation(None, &[]);
    let inv = invocation(Some(("user".to_string(), Box::new(leaf))), &[]);
    assert!(matches!(argmatches(store.endpoints(), &inv), DispatchOutcome::Help));
}

#[test]
fn dispatch_missing_variable_is_reported() {
    let mut store = EndpointStore::new();
    store.store_endpoint(endpoint("/posts/{id}/sub", "/post/{id}/sub", "GET"));
    let leaf = invocation(None, &[]);
    let sub = invocation(Some(("sub".to_string(), Box::new(leaf))), &[]);
    let inv = invocation(Some(("post".to_string(), Box::new(sub))), &[]);
    match argmatches(store.endpoints(), &inv) {
        DispatchOutcome::Missing { name } => assert_eq!(name, "id"),
        _ => panic!("expected a missing-argument report"),
    }
}

#[test]
fn dispatch_subcommand_across_variable_captures_value() {
    let mut store = EndpointStore::new();
    store.store_endpoint(endpoint("/posts/{id}", "/post/{id}/replace", "PUT"));
    let leaf = invocation(None, &[]);
    let replace = invocation(Some(("replace".to_string(), Box::new(leaf))), &[("id", "7")]);
    let inv = invocation(Some(("post".to_string(), Box::new(replace))), &[]);
    match argmatches(store.endpoints(), &inv) {
        DispatchOutcome::Run { path, captured, .. } => {
            assert_eq!(path.len(), 3);
            assert_eq!(captured, vec![("id".to_string(), "7".to_string())]);
        },
        _ => panic!("expected a dispatch"),
    }
}
