//! Core of a CONNECT proxy that slices the first TLS handshake record into
//! segments and tags some of them with a short time-to-live.

pub mod counter;
pub mod engine;
pub mod http_head;
pub mod session;
pub mod sni;
pub mod splitter;
