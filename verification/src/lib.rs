//! A multi-tenant edge server library: host-dispatch routing with role-based
//! authorization, a header-preserving reverse proxy, a WebDAV backend, and a
//! chunked authenticated-encryption streamer with random access by plaintext
//! offset.

pub mod apps;
pub mod codec;
pub mod configuration;
pub mod davs;
pub mod http;
pub mod middlewares;
pub mod users;
pub mod utils;

pub use davs::encrypted_streamer::ChunkedPosition;
pub use davs::encrypted_streamer::decrypted_size;
pub use davs::encrypted_streamer::encrypted_offset;
