//! Lookup tables that map the offset of every opening bracket of a JSON
//! document to the offset of its closing bracket, together with the scanner
//! that finds the brackets and the perfect-hash construction that stores them.

pub mod artifact;
pub mod backend;
pub mod error;
pub mod format;
pub mod lut_naive;
pub mod lut_phf;
pub mod lut_phf_double;
pub mod pairs;
pub mod query;
pub mod query_parser;
pub mod string_pattern;
pub mod structural;
