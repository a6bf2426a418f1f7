//! Semantic highlighting tokens: the fixed kind legend and the encoder that
//! turns an abstract syntax tree into the delta-encoded wire stream.

pub mod collector;
pub mod definitions;
