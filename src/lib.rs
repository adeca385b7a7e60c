//! Query-string parsing into grouped, percent-decoded key/value stores.
//!
//! Two key conventions are offered: [`duplicate`], where a repeated key
//! collects several values, and [`brackets`], where `key[sub]` suffixes
//! describe nested maps.
pub mod brackets;
pub mod decode;
pub mod duplicate;
pub mod span;
pub mod store;
