//! A personal finance ledger: recurring income and expense entries, kept as
//! named snapshots in a JSON-encoded store, with a monthly extrapolated
//! report (signed total, category breakdown, account coverage).

pub mod codec;
pub mod errors;
pub mod ledger;
pub mod money;
pub mod report;
pub mod store;
pub mod strings;
