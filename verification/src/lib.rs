//! A catalog item store for electrical-supply price records: durable
//! record keeping with conflict-resolving upserts, staleness queries,
//! locale-aware money formatting, in-memory search filtering, and bulk
//! CSV transfer with row-level failure tolerance. Prices are held as
//! integer cents; dates as plain year, month and day values.

pub mod csvfmt;
pub mod dates;
pub mod money;
pub mod store;
pub mod textutil;
