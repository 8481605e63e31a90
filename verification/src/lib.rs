//! A time-series ingestion and query engine for ocean-buoy sensor readings.
//!
//! Raw field tuples are validated into `SensorReading` records, stored in a
//! time-partitioned container keyed by source identifier, and served back as
//! chronologically ordered series.

pub mod codec;
pub mod facade;
pub mod numeric;
pub mod pipeline;
pub mod store;
pub mod timefmt;
