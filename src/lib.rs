//! An iterative DNS resolver: a wire-format codec for DNS messages and the
//! decision logic that walks from the root servers down a delegation chain.

pub mod client;
