//! Extraction and normalization pipeline for actuator control tables.
//!
//! The library turns the two register-map tables of a device documentation
//! page into one validated, typed record set, and aggregates many devices'
//! record sets into generated lookup source text: markup is merged into
//! a grid (`merge`), the grid is normalized into records (`normalize`),
//! and devices are aggregated and emitted (`codegen`).

pub mod actuator;
pub mod analysis;
pub mod codegen;
pub mod errors;
pub mod merge;
pub mod normalize;
pub mod records;
pub mod text;
