//! A credential-gated handshake acceptor that hands every connection it cannot
//! authenticate over to an innocuous fallback service.

pub mod acceptor;
pub mod credential;
pub mod fallback;
pub mod header;
