//! Verified core of a multi-party proving service: the parties' network, the
//! king-assisted degree reduction and the extended witness.

pub mod bls12_377;
pub mod bn254;
pub mod connect;
pub mod connection;
pub mod deg_red;
pub mod dpp;
pub mod error;
pub mod ext_wit;
pub mod field;
pub mod framing;
pub mod mux;
pub mod pack;
pub mod peer;
pub mod quotient;
pub mod sharing;
pub mod stream_id;
pub mod testnet;
