//! Client SDK types: configuration and the SAAP transcript records that a
//! client exchanges with a state node.

pub mod config;
pub mod types;
