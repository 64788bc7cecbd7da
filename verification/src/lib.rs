//! A geometric proof-of-work chain: exact decimal geometry, recursive
//! triangle subdivision with digit addresses, mining over the leaves,
//! hash-sealed blocks and chain validation.

pub mod dec;
pub mod point;
pub mod triangle;
pub mod subdivision;
pub mod mining;
pub mod chaos;
pub mod block;
pub mod blockchain;
pub mod consensus;
pub mod hierarchy;
pub mod network;
pub mod dsl;
