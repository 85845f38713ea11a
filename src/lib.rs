//! Receipts fetched from a remote source, cached, and summarised per
//! calendar month with exact totals.

pub mod aggregate;
pub mod fetch;
pub mod month;
pub mod receipt;

pub use fetch::{ReceiptDetails, ReceiptsBySender};
