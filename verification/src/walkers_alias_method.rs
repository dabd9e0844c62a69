//! Weighted random sampling by Walker's alias method.
//!
//! The builder turns a vector of non-negative integer weights into an
//! alias table; the table then draws an index in proportion to its weight
//! in constant time per draw.

pub mod builder;
pub mod table;
