//! Decodes raw capture frames of an exchange market-data feed, routes them to
//! per-instrument channels, extracts fixed-offset timestamp and price fields,
//! and aggregates midpoint prices into a timestamp-sorted series.

pub mod bytes;
pub mod decode;
pub mod extract;
pub mod mid;
pub mod price;
pub mod route;
pub mod series;
