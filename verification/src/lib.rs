//! The decision core of the sturnus LLM routing sidecar.
//!
//! Everything the proxy decides from plain values lives here: configuration
//! checks, alias resolution, weighted routing, body rewriting, admission and
//! the replies sent to clients. Sockets, clocks, floating point and the
//! process environment belong to the binary around this crate.

pub mod body;
pub mod budget;
pub mod config;
pub mod double;
pub mod header;
pub mod json;
pub mod labels;
pub mod layout;
pub mod logging;
pub mod metrics;
pub mod model_map;
pub mod proxy;
pub mod router;
pub mod server;
pub mod text;
pub mod trace;
pub mod tracker;
