//! Request handling of an HTTP proxy: role based access rules, routing of
//! incoming requests, and the text formats the proxy reads and writes.
pub mod codec;
pub mod fields;
pub mod models;
pub mod parser;
pub mod pass_through;
pub mod text;
pub mod web_proxy;
pub mod web_server;
