pub mod command;
pub mod http;
pub mod kv;
pub mod parser;
pub mod server;
pub mod session;

pub use command::Command;
pub use http::{_parse_get_query_params, parse_set_query_params, GetParams, SetParams};
pub use kv::{MemKV, KV};
pub use server::{CommandResponse, GetResult};
pub use session::{Admission, AlwaysAdmit, Connection, ReadEvent, Step};
pub use parser::{
    command_parse, get_command_parser, parse_next, set_command_parser, ParseCommandError,
    ParseGetCommandError, ParseSetCommandError,
};
