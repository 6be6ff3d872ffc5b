//! Filling of empty fields in streams of records, with values remembered
//! per group of rows, and the single-pass coalescing of columns.

pub mod coalesce;
pub mod filler;
pub mod laws;
pub mod memory;
pub mod record;
pub mod selection;
