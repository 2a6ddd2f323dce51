//! SMTP message grammar, `DATA` escaping and the decisions of the kannader
//! mail server, with their contracts.

pub mod text;
pub mod lex;
pub mod misc;
pub mod reply;
pub mod reply_wire;
pub mod data;
pub mod ip;
pub mod command;
pub mod host_local;
pub mod command_wire;
pub mod param_wire;
pub mod addr_wire;
pub mod mail_wire;
pub mod sendable;
pub mod queue;
pub mod client;
pub mod server;
pub mod session;
