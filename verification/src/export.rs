//! Exporters: trace records as text for other tools.

pub mod bytrace;
pub mod order;
