//! Error taxonomy of the extraction pipeline. Structural and schema errors
//! are fatal for the enclosing device; the caller decides whether to skip
//! the device or abort the whole run.

use vstd::prelude::*;

verus! {

/// Failure of the table merger.
#[derive(Clone, Debug, PartialEq, Eq, Structural)]
pub enum MergeError {
    /// The document holds no table at the requested zero-based index.
    TableNotFound { index: usize },
    /// The two tables' header vectors differ, so they cannot describe the
    /// same schema.
    HeaderMismatch,
}

/// A column whose value every record must carry.
#[derive(Clone, Copy, Debug, PartialEq, Eq, Structural)]
pub enum MandatoryColumn {
    Address,
    Size,
    Access,
}

/// Failure of the record normalizer. Every variant is fatal for the
/// enclosing device.
#[derive(Clone, Debug)]
pub enum NormalizeError {
    /// A mandatory cell is absent, or does not parse as the required
    /// unsigned integer.
    MissingMandatoryField { row: usize, column: MandatoryColumn },
    /// An access cell holds none of the recognized tokens.
    UnknownAccessToken { row: usize, token: String },
    /// A range token matches both the integer and the symbolic shape.
    /// The two shapes are disjoint (`lemma_token_shapes_disjoint`), so this
    /// variant cannot arise; it names the condition all the same.
    AmbiguousRangeToken { token: String },
    /// A range token matches neither the integer nor the symbolic shape,
    /// or denotes an integer outside the representable range.
    UnrecognizedRangeToken { token: String },
}

/// Failure of the aggregator and code generator.
#[derive(Clone, Debug)]
pub enum GenError {
    /// A device's raw identifier holds no alphabetic character, so no model
    /// name can be derived from it.
    NoAlphabeticModelName { raw_name: String },
}

/// Failure of the whole per-device pipeline.
#[derive(Clone, Debug)]
pub enum DeviceError {
    /// The device identifier does not hold the expected path segments.
    MalformedUrl,
    Merge(MergeError),
    Normalize(NormalizeError),
}

} // verus!
