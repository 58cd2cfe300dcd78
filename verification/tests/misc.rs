use crud_api::ApiError;
use crud_api::ApiInputConfig;
use crud_api::arg_config;
use crud_api::status_code_of;
use crud_api::Color;
use crud_api::EmptyResponse;
use crud_api::OutputFormat;
use crud_api::TableConfig;
use crud_api::UploadBase64;
use crud_api::bool_check_formatter;
use crud_api::byte_formatter;
use crud_api::coloring;
use crud_api::get_num_cols_to_print;
use crud_api::identity_formatter;
use crud_api::label_coloring;

#[test]
fn lib_it_works() {
    let result = 2 + 2;
    assert_eq!(result, 4);
}

#[test]
fn auth_it_works() {
    let result = 2 + 2;
    assert_eq!(result, 4);
}

#[test]
fn no_auth_it_works() {
    let result = 2 + 2;
    assert_eq!(result, 4);
}

#[test]
fn coloring_none() {
    assert_eq!(
        coloring("string".to_string(), &None),
        "\u{1b}[1m\u{1b}[97mstring\u{1b}[39m\u{1b}[0m".to_string()
    );
}

#[test]
fn coloring_some_red() {
    assert_eq!(
        coloring("string".to_string(), &Some(Color::Red)),
        "\u{1b}[1m\u{1b}[31mstring\u{1b}[39m\u{1b}[0m".to_string()
    );
}

#[test]
fn label_coloring_plain_when_uncolored() {
    assert_eq!(label_coloring("name", false, &Some(Color::Green)), "name");
    assert_eq!(label_coloring("name", true, &None), "name");
    assert_eq!(
        label_coloring("name", true, &Some(Color::Green)),
        "\u{1b}[32mname\u{1b}[39m"
    );
}

#[test]
fn output_format_names() {
    assert_eq!(OutputFormat::from_str("json"), Ok(OutputFormat::Json));
    assert_eq!(OutputFormat::from_str("toml"), Ok(OutputFormat::Toml));
    assert_eq!(OutputFormat::from_str("yaml"), Ok(OutputFormat::Yaml));
    assert_eq!(OutputFormat::from_str("csv"), Ok(OutputFormat::Csv));
    assert_eq!(OutputFormat::from_str("tsv"), Ok(OutputFormat::Tsv));
    assert_eq!(
        OutputFormat::from_str("xml"),
        Err("Invalid variant: xml".to_string())
    );
}

#[test]
fn bearer_auth_header() {
    let mut auth = crud_api::auth_bearer::Auth::new();
    auth.set_token("secret");
    let (key, value) = auth.auth_header();
    assert_eq!(key, "Authorization");
    assert_eq!(value, "Bearer secret");
    assert_eq!(
        auth.error_help_message(),
        "Use or check the `\u{1b}[33m--auth-token\u{1b}[39m` argument."
    );
}

#[test]
fn no_auth_header_is_empty() {
    let auth = crud_api::auth_no_auth::Auth::new();
    assert_eq!(auth.auth_header(), (String::new(), String::new()));
    assert_eq!(auth.error_help_message(), "");
}

#[test]
fn from_http_status_classifies() {
    match ApiError::from_http_status(404, None) {
        ApiError::HTTPStatusError { status } => assert_eq!(status, 404),
        _ => panic!("expected a plain status error"),
    }
    match ApiError::from_http_status(401, Some("check the token".to_string())) {
        ApiError::HTTPUnauthorizedError { status, help } => {
            assert_eq!(status, 401);
            assert_eq!(help, "check the token");
        },
        _ => panic!("expected an unauthorized error"),
    }
    match ApiError::from_http_status(401, None) {
        ApiError::HTTPUnauthorizedError { help, .. } => {
            assert_eq!(help, "Check your authentification");
        },
        _ => panic!("expected an unauthorized error"),
    }
}

#[test]
fn upload_encodes_base64() {
    let upload = UploadBase64::from_str("data.bin");
    assert_eq!(upload.file, "data.bin");
    let encoded = upload.serialize_contents(&b"hello".to_vec());
    assert_eq!(encoded, "aGVsbG8=");
    assert_eq!(upload.serialize_contents(&Vec::new()), "");
}

#[test]
fn identity_formatter_keeps_value() {
    assert_eq!(identity_formatter("14"), ("14".to_string(), false));
}

#[test]
fn bool_check_formatter_marks() {
    assert_eq!(bool_check_formatter("true", false), ("\u{2714}".to_string(), false));
    assert_eq!(bool_check_formatter("false", false), ("\u{2718}".to_string(), false));
    assert_eq!(
        bool_check_formatter("true", true),
        ("\u{1b}[32m\u{2714}\u{1b}[39m".to_string(), true)
    );
}

#[test]
fn byte_formatter_uses_human_units() {
    assert_eq!(byte_formatter("1048576"), Ok(("1.0 MiB".to_string(), false)));
    assert_eq!(
        byte_formatter("many"),
        Err("Can't parse bytes: many".to_string())
    );
}

#[test]
fn table_column_fit() {
    let header = vec!["aaaa".to_string(), "bbbb".to_string(), "cccc".to_string()];
    let vp = vec![header];
    // gutter 6 + 4 + 4 = 14 fits in 15; the third column would need 18.
    assert_eq!(get_num_cols_to_print(3, vp.clone(), (15, 24)), 2);
    assert_eq!(get_num_cols_to_print(3, vp.clone(), (80, 24)), 3);
    assert_eq!(get_num_cols_to_print(3, vp, (5, 24)), 0);
}

#[test]
fn arg_config_merges_local_over_global() {
    let base = arg_config("output_file", &Vec::new());
    assert_eq!(base.arg_name, Some("output_file".to_string()));
    assert_eq!(base.long, Some("output".to_string()));
    assert_eq!(base.short, Some('o'));
    assert_eq!(base.heading, Some("Options".to_string()));
    let local = ApiInputConfig {
        arg_name: Some("output_file".to_string()),
        ty: None,
        long: Some("dest".to_string()),
        short: None,
        no_short: None,
        heading: None,
        help: None,
        long_help: None,
        possible_values: None,
        required: Some(true),
        num_args: None,
    };
    let merged = arg_config("output_file", &vec![local]);
    assert_eq!(merged.long, Some("dest".to_string()));
    assert_eq!(merged.short, Some('o'));
    assert_eq!(merged.required, Some(true));
    assert_eq!(merged.help, Some("Output file. (default: stdout)".to_string()));
}

#[test]
fn status_names_map_to_codes() {
    assert_eq!(status_code_of("OK"), 200);
    assert_eq!(status_code_of("CREATED"), 201);
    assert_eq!(status_code_of("NO_CONTENT"), 204);
    assert_eq!(status_code_of("UNAUTHORIZED"), 401);
    assert_eq!(status_code_of("NOT_FOUND"), 404);
    assert_eq!(status_code_of("418"), 418);
    assert_eq!(status_code_of("TEAPOT"), 200);
}

#[test]
fn table_config_defaults() {
    let config = TableConfig::new(false, (80, 24));
    assert_eq!(config.sigfig, 3);
    assert_eq!(config.lower_column_width, 2);
    assert_eq!(config.upper_column_width, 50);
    assert_eq!(config.row_display_option, 25);
    assert!(config.extend_option);
}

#[test]
fn empty_response_renders_nothing() {
    let r = EmptyResponse {};
    assert_eq!(r.to_table_header().len(), 0);
    assert_eq!(r.to_table(), Ok(Vec::new()));
    assert_eq!(r.to_output(), Ok(String::new()));
    assert_eq!(
        EmptyResponse::try_from(crud_api::DummyTryFrom {}),
        Err(String::new())
    );
}
