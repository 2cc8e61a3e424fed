//! Incremental decoder for the control channel of an FTP-style command
//! protocol, with the byte-class grammar it is built on.
pub mod command;
pub mod parser;
pub mod grammar;
pub mod lexer;
pub mod server;
