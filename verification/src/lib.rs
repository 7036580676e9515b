//! Product space calculations on country-by-product export matrices: the
//! bookkeeping that the numeric work rests on. This crate holds the logic
//! that decides *where* a value lives and *which* data takes part in a
//! calculation: name indexes for countries and products, the selection of
//! yearly matrices for aggregated results, the parsing of OEC export rows,
//! and the error values of lookups.

pub mod error;
pub use error::Error;

pub mod index;
pub use index::{country_product_cell, country_row, position, NameIndex};

pub mod rows;

pub mod layout;

pub mod product_space;
pub use product_space::{ProductSpace, YearSelection};

pub mod stats;
pub use stats::variance_divisor;

pub mod table;
