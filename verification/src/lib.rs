//! Node registry and request dispatch for a gateway that relays one read-only
//! query to a fleet of backend nodes.
//!
//! A decoded configuration document declares the backends. [`config`] turns
//! it into a validated configuration: every backend gets its authentication
//! and its endpoint and is entered into the [`registry`] under two keys, the
//! decimal form of its identifier and its name. [`dispatch`] resolves the key
//! of a request to a backend and maps the outcome of the backend call to an
//! HTTP response. [`laws`] states what holds of every decoding.
//!
//! Reading files, parsing the document's text and the listen address, and the
//! backend call itself are left to the host of the library.
pub mod text;
pub mod order;
pub mod error;
pub mod node;
pub mod registry;
pub mod config;
pub mod dispatch;
pub mod laws;
