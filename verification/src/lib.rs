//! Ingestion of genetics cross-experiment tables into typed, shaped values.
//!
//! The crate holds the experiment schema with its cell translators
//! ([`Control`]), the delimited-table reader that builds a two-dimensional
//! [`Dataset`], the raw keyed table [`Geno`], and the chromosome-grouping
//! marker map [`MapData`]. The readers work on text that is already in
//! memory. Every function is verified, and none of them panics.

pub mod dataset;
pub mod dict;
pub mod geno;
pub mod map_data;
pub mod matrix;
pub mod records;
pub mod schema;
pub mod text;

pub use dataset::Dataset;
pub use dict::Dict;
pub use geno::Geno;
pub use map_data::Chromosome;
pub use map_data::MapData;
pub use map_data::Marker;
pub use matrix::Matrix;
pub use records::TableError;
pub use schema::Control;
pub use schema::CrossInfo;
pub use schema::File;
pub use schema::Files;
pub use schema::Sex;
