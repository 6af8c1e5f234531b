//! An in-memory plain-text accounting ledger: documents merged from nested
//! files, currency normalization with exact decimal rounding, staleness
//! tracking, and monthly / cashflow / balance / split reports.
pub mod convert;
pub mod dates;
pub mod doc;
pub mod errors;
pub mod model;
pub mod parse;
pub mod qty;
pub mod report;
pub mod resolve;
