//! Gene-set enrichment query engine: bitset indexes over a background gene
//! universe, exact Fisher significance testing in exact rational arithmetic,
//! Benjamini-Hochberg correction, consensus aggregation, and a result cache.

pub mod bh;
pub mod bignum;
pub mod bits;
pub mod cache;
pub mod catalog;
pub mod columns;
pub mod consensus;
pub mod engine;
pub mod fisher;
pub mod gmt;
pub mod pairedq;
pub mod pairs;
pub mod pipeline;
pub mod ratio;
pub mod registry;
pub mod rows;
pub mod text;
