//! A columnar dataframe core: typed null-aware values, row-label indexes
//! with their alignment algebra, columns, joins and group aggregation.
pub mod align;
pub mod artifacts;
pub mod column;
pub mod float_bits;
pub mod frame;
pub mod groupby;
pub mod groups;
pub mod index;
pub mod join;
pub mod label;
pub mod merge;
pub mod runtime;
pub mod types;
