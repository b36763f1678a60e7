//! Error types shared by the inspection, conversion and export boundaries.
use vstd::prelude::*;

verus! {

/// The standard I/O error, carried through unchanged from the operating system.
#[verifier::external_type_specification]
#[verifier::external_body]
pub struct ExIoError(std::io::Error);

/// The standard owned path, carried through unchanged as the caller supplied it.
#[verifier::external_type_specification]
#[verifier::external_body]
pub struct ExPathBuf(std::path::PathBuf);

/// Errors raised while inspecting a PSD document.
#[derive(Debug)]
pub enum InspectionError {
    /// The input could not be read from disk.
    InputIo(std::io::Error),
    /// The PSD parser rejected the input.
    PsdRead(String),
    /// The PSD was readable but could not be represented safely in the model.
    Normalization(String),
}

/// Errors raised before or during a conversion transaction.
#[derive(Debug)]
pub enum ConversionError {
    /// The input path is not a regular file.
    InputMissing(std::path::PathBuf),
    /// The output exists and overwrite was not authorized.
    OutputExists(std::path::PathBuf),
    /// Reading and normalizing the input failed before writing started.
    InputInspection(String),
    /// Mapping the normalized document to Aseprite failed.
    Writer(String),
    /// The encoded file failed post-write structural validation.
    OutputValidation(String),
    /// An output transaction could not complete.
    OutputIo(std::io::Error),
}

/// Errors raised while exporting Aseprite snapshots to PSD or PSB.
#[derive(Debug)]
pub enum ExportError {
    /// An input snapshot is absent or is not a regular file.
    InputMissing(std::path::PathBuf),
    /// The output exists and overwrite was not authorized.
    OutputExists(std::path::PathBuf),
    /// An input extension or output extension is unsupported.
    InvalidPath(String),
    /// Reading or normalizing an Aseprite snapshot failed.
    AsepriteRead(String),
    /// Building the PSD document failed.
    Writer(String),
    /// The encoded PSD failed read-back validation.
    OutputValidation(String),
    /// An output transaction could not complete.
    OutputIo(std::io::Error),
}

} // verus!
