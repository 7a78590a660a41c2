//! Client-side core of a persistent-streaming messaging extension: the header
//! block codec and the lifecycle of a pull-style consumer handle.

pub mod codec;
pub mod headers;
pub mod laws;
pub mod pull_subscription;
pub mod roundtrip;
pub mod text;
