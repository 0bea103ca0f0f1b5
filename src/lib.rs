//! A small key-value server core: a codec for a length-prefixed, nullable,
//! nested wire format, the command resolution and execution pipeline, and the
//! in-memory store the commands act on.
pub mod value;
pub mod wire;
pub mod parser;
pub mod serializer;
pub mod codec_laws;
pub mod store;
pub mod command;
pub mod server;

pub use command::{execute_command, get_command, CommandError, Commands};
pub use parser::{
    bulk_array_parser, bulk_string_parser, parse_dispatcher, read_integer, read_line,
    simple_parser, ParseResult,
};
pub use serializer::serializer;
pub use server::{error_to_resp, handle_request, process, ServerError};
pub use store::{Store, StoreError};
pub use value::{ParseError, ParseValue, RespValue};
