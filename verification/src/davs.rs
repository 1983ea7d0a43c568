//! The WebDAV side of the server: the service model, the encrypted streamer,
//! and the request-handling rules.

pub mod encrypted_streamer;
pub mod model;
pub mod webdav_server;
