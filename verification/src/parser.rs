//! Reading what players write.

pub mod ab_parser;

pub use self::ab_parser::ABParser;
