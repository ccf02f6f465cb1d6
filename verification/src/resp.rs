//! The RESP wire format: frame types, their mathematical model, and the
//! verified encoder and decoder.

pub mod decode;
pub mod encode;
pub mod frame;
pub mod laws;
pub mod model;
