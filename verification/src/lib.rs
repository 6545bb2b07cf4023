//! A two-stage private information retrieval (PIR) library built on the
//! SimplePIR scheme: learning-with-errors ciphertexts over the ring of
//! integers modulo 2^64, a record codec that packs byte strings into square
//! matrices, server-side databases, and the client pipeline that composes an
//! embedding lookup with a record lookup.
pub mod client;
pub mod codec;
pub mod error;
pub mod laws;
pub mod matrix;
pub mod noise;
pub mod params;
pub mod pir;
pub mod ring;
pub mod rng;
pub mod server;
pub mod wire;
