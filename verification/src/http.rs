//! Drivers that translate one external capability into the structured
//! value command/response protocol.
pub mod client;
