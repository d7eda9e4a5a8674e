//! Turns the connected blocks of a ledger into two flat tables, one row per
//! transaction input and one per output, each row holding the block's
//! timestamp, a label for the owning addresses, and the value.
pub mod chain;
pub mod emit;
pub mod label;
pub mod progress;
