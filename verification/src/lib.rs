//! A declarative HTTP-endpoint CLI framework: endpoint specifications are
//! folded into a prefix tree over CLI path segments, a command tree is
//! generated from that trie, and invocations are dispatched back through the
//! same trie to build and classify HTTP requests.

pub mod auth_bearer;
pub mod auth_no_auth;
pub mod cli_gen;
pub mod config;
pub mod dispatch;
pub mod endpoint;
pub mod error;
pub mod formats;
pub mod formatters;
pub mod http;
pub mod pretty;
pub mod response;
pub mod segment;
pub mod store;
pub mod strings;
pub mod table;
pub mod upload;

pub use cli_gen::subcommand_rec;
pub use cli_gen::subcommands;
pub use cli_gen::CmdItem;
pub use cli_gen::CommandDecl;
pub use cli_gen::FormatDecl;
pub use cli_gen::VarDecl;
pub use config::arg_config;
pub use dispatch::argmatches;
pub use dispatch::argmatches_rec;
pub use dispatch::DispatchOutcome;
pub use dispatch::Invocation;
pub use endpoint::insert_endpoint;
pub use endpoint::ApiInputConfig;
pub use endpoint::Emap;
pub use endpoint::Endpoint;
pub use endpoint::EndpointStatus;
pub use endpoint::EpNode;
pub use endpoint::Header;
pub use endpoint::VecStringWrapper;
pub use error::ApiError;
pub use formats::output_format_values;
pub use formats::OutputFormat;
pub use formatters::bool_check_formatter;
pub use formatters::byte_formatter;
pub use formatters::identity_formatter;
pub use http::HTTPApi;
pub use http::status_code_of;
pub use http::Outcome;
pub use pretty::coloring;
pub use pretty::label_coloring;
pub use pretty::Color;
pub use pretty::FieldPrefix;
pub use response::DummyTryFrom;
pub use response::EmptyResponse;
pub use segment::is_var;
pub use segment::strip_var;
pub use store::ApiInputFieldSerde;
pub use store::ApiInputSerde;
pub use store::ApiInputVariantSerde;
pub use store::DataSerde;
pub use store::EndpointStore;
pub use table::get_num_cols_to_print;
pub use table::TableConfig;
pub use upload::UploadBase64;
