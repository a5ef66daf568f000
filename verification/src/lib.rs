//! Generation of ordinary Java sources from `.jpp` files: Java text with
//! property and mapper extension islands.
pub mod text;
pub mod nullsafe;
pub mod paths;
pub mod diagnostics;
pub mod model;
pub mod scan;
pub mod parser;
pub mod generator;
pub mod cli;
pub mod laws;
