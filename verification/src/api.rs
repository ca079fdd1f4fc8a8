//! What clients send and see.
pub mod dto;
