pub mod metrics;
pub mod shuffle;
