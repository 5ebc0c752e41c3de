//! A credential-bridging library: it completes an OAuth2 authorization-code
//! exchange, holds the resulting token bundle in memory under a short random
//! handle, links the handle to an external identity by moving the bundle into
//! a durable key-value store, and serves a secret-gated read of the stored
//! record.

pub mod exchange;
pub mod form;
pub mod handle;
pub mod json;
pub mod link;
pub mod lookup;
pub mod num;
pub mod store;
pub mod text;
pub mod token;
