use crud_api::HTTPApi;
use crud_api::Outcome;
use crud_api::http::AuthInfo;
use crud_api::http::collect_chunks;
use crud_api::http::format_route;
use crud_api::http::parse_url;
use crud_api::http::port_value;
use crud_api::http::resolve_port;

fn api(ok_status: u16, ko_status: Vec<(u16, String)>, auth: Option<AuthInfo>) -> HTTPApi {
    HTTPApi::new(
        "http://example.com/posts".to_string(),
        "GET".to_string(),
        ok_status,
        ko_status,
        auth,
        Vec::new(),
    )
}

#[test]
fn classify_ok_status_is_success() {
    let api = api(200, Vec::new(), None);
    match api.classify_response(200, "{\"id\":1}".to_string()) {
        Outcome::Success { body } => assert_eq!(body, "{\"id\":1}"),
        Outcome::Failure { .. } => panic!("expected success"),
    }
}

#[test]
fn classify_unknown_status_gets_generic_message() {
    let api = api(200, Vec::new(), None);
    match api.classify_response(404, "missing".to_string()) {
        Outcome::Failure { status, message, help, body } => {
            assert_eq!(status, 404);
            assert_eq!(message, "Unexpected HTTP Status Code");
            assert_eq!(help, None);
            assert_eq!(body, "missing");
        },
        Outcome::Success { .. } => panic!("expected failure"),
    }
}

#[test]
fn classify_registered_status_gets_custom_message() {
    let api = api(200, vec![(404, "no such post".to_string())], None);
    match api.classify_response(404, "".to_string()) {
        Outcome::Failure { message, .. } => assert_eq!(message, "no such post"),
        Outcome::Success { .. } => panic!("expected failure"),
    }
}

#[test]
fn classify_empty_registered_message_falls_back_to_generic() {
    let api = api(200, vec![(404, String::new())], None);
    match api.classify_response(404, String::new()) {
        Outcome::Failure { message, .. } => assert_eq!(message, "Unexpected HTTP Status Code"),
        Outcome::Success { .. } => panic!("expected failure"),
    }
}

#[test]
fn classify_unauthorized_without_auth_gets_default_hint() {
    let api = api(200, Vec::new(), None);
    match api.classify_response(401, String::new()) {
        Outcome::Failure { help, .. } => {
            assert_eq!(help, Some("Check your authentification".to_string()));
        },
        Outcome::Success { .. } => panic!("expected failure"),
    }
}

#[test]
fn classify_unauthorized_includes_auth_hint() {
    let auth = AuthInfo {
        header_key: "Authorization".to_string(),
        header_value: "Bearer t".to_string(),
        help: "Use or check the `--auth-token` argument.".to_string(),
    };
    let api = api(200, Vec::new(), Some(auth));
    match api.classify_response(401, "".to_string()) {
        Outcome::Failure { status, help, .. } => {
            assert_eq!(status, 401);
            assert_eq!(help, Some("Use or check the `--auth-token` argument.".to_string()));
        },
        Outcome::Success { .. } => panic!("expected failure"),
    }
}

#[test]
fn build_request_assembles_headers_in_order() {
    let auth = AuthInfo {
        header_key: "Authorization".to_string(),
        header_value: "Bearer t".to_string(),
        help: String::new(),
    };
    let mut api = api(200, Vec::new(), Some(auth));
    api.headers.push(crud_api::http::Header {
        key: "x-extra".to_string(),
        value: "yes".to_string(),
    });
    let req = api.build_request(
        Some("{\"a\":1}".to_string()),
        Some("q=1".to_string()),
        "example.com",
    );
    assert_eq!(req.method, "GET");
    assert_eq!(req.uri, "http://example.com/posts?q=1");
    assert_eq!(
        req.headers,
        vec![
            ("Authorization".to_string(), "Bearer t".to_string()),
            ("x-extra".to_string(), "yes".to_string()),
            ("content-type".to_string(), "application/json; charset=UTF-8".to_string()),
            ("host".to_string(), "example.com".to_string()),
        ]
    );
    assert_eq!(req.body, "{\"a\":1}");
}

#[test]
fn build_request_empty_auth_key_adds_no_header() {
    let auth = AuthInfo {
        header_key: String::new(),
        header_value: String::new(),
        help: String::new(),
    };
    let api = api(200, Vec::new(), Some(auth));
    let req = api.build_request(None, None, "example.com");
    assert_eq!(req.headers.len(), 2);
    assert_eq!(req.body, "");
    assert_eq!(req.uri, "http://example.com/posts");
}

#[test]
fn parse_url_full_form() {
    let u = parse_url("https://example.com:8443/a/b").expect("well-formed URL");
    assert_eq!(u.scheme, Some("https".to_string()));
    assert_eq!(u.host, "example.com");
    assert_eq!(u.port, Some("8443".to_string()));
    assert_eq!(u.path, "/a/b");
}

#[test]
fn parse_url_bare_host() {
    let u = parse_url("example.com").expect("well-formed URL");
    assert_eq!(u.scheme, None);
    assert_eq!(u.host, "example.com");
    assert_eq!(u.port, None);
    assert_eq!(u.path, "");
}

#[test]
fn parse_url_empty_host_is_refused() {
    assert!(parse_url("https:///nope").is_err());
}

#[test]
fn port_defaults_follow_scheme() {
    assert_eq!(resolve_port(&Some("https".to_string()), &None), Ok(443));
    assert_eq!(resolve_port(&Some("http".to_string()), &None), Ok(80));
    assert_eq!(resolve_port(&None, &None), Ok(80));
    assert_eq!(resolve_port(&None, &Some("8080".to_string())), Ok(8080));
}

#[test]
fn port_value_bounds() {
    assert_eq!(port_value("65535"), Some(65535));
    assert_eq!(port_value("65536"), None);
    assert_eq!(port_value(""), None);
    assert_eq!(port_value("80a"), None);
}

#[test]
fn format_route_substitutes_variables() {
    let vars = vec![("id".to_string(), "42".to_string())];
    assert_eq!(format_route("/posts/{id}", &vars), Ok("/posts/42".to_string()));
}

#[test]
fn format_route_reports_unbound_variable() {
    let vars = Vec::new();
    assert_eq!(format_route("/posts/{id}", &vars), Err("id".to_string()));
}

#[test]
fn format_route_keeps_literal_text() {
    let vars = vec![("id".to_string(), "42".to_string()), ("arg".to_string(), "x".to_string())];
    assert_eq!(
        format_route("/root/{id}/sub/{arg}", &vars),
        Ok("/root/42/sub/x".to_string())
    );
    assert_eq!(format_route("", &vars), Ok(String::new()));
}

#[test]
fn port_value_zero_and_leading_zeros() {
    assert_eq!(port_value("0"), Some(0));
    assert_eq!(port_value("0080"), Some(80));
}

#[test]
fn streamed_chunks_are_written_in_order() {
    let chunks = vec![vec![1u8, 2, 3], vec![], vec![4u8, 5]];
    let body = collect_chunks(&chunks);
    assert_eq!(body, vec![1u8, 2, 3, 4, 5]);
    assert_eq!(body.len(), 3 + 0 + 2);
}
