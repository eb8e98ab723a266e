//! Exact amounts, GnuCash import, and report computation for a
//! keyboard-first double-entry bookkeeping application.

pub mod text;
pub mod money;
pub mod order;
pub mod book;
pub mod report;
pub mod account_report;
pub mod import;
pub mod prices;
pub mod ledger;
pub mod typst;
pub mod balance;
