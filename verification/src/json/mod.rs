//! A reader for a JSON-like data language, with its value model, renderers,
//! analyzer and path queries.
//!
//! `parser::parse_json` turns a text into a `value::JsonValue` or says why
//! and where it cannot. `JsonValue::render_compact` and
//! `JsonValue::render_pretty` write a value back, `analyze::analyze_json`
//! describes every node of it, and `query::query_json_path` follows a path
//! such as `users[0].email` into it. The module `grammar` says what a text
//! means, and `round_trip` proves that what is written reads back as the
//! same value.

pub mod analyze;
pub mod grammar;
pub mod number;
pub mod parser;
pub mod query;
pub mod render;
pub mod round_trip;
pub mod value;

pub use analyze::analyze_json;
pub use grammar::ErrorKind;
pub use number::JsonNumber;
pub use parser::{parse_json, JsonParser, ParseError};
pub use query::query_json_path;
pub use render::pretty_print_json;
pub use value::{JsonObject, JsonValue};
