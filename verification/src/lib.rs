//! Routing and supervision rules of a multi-site HTTP server.

pub mod cgi;
pub mod dates;
pub mod environment;
pub mod error;
pub mod fastcgi;
pub mod files;
pub mod headers;
pub mod launch;
pub mod manifest;
pub mod namespace;
pub mod number;
pub mod path;
pub mod process;
pub mod reply;
pub mod request;
pub mod resolver;
pub mod service;
pub mod stdio;
pub mod supervisor;
pub mod text;
