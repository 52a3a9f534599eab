//! Document trees of tagged elements: parsing from a structural event stream, path
//! queries, incremental building, merging and serialisation; and exact fractions
//! for time positions.
pub mod frac;
pub mod tree;
pub mod query;
pub mod builder;
pub mod reader;
pub mod score;
pub mod samples;
pub mod debug;
pub mod score_xml_io;
