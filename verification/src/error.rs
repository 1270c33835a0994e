//! Errors of catalog operations.

use vstd::prelude::*;

verus! {

/// Why a catalog operation failed.
#[derive(Debug)]
pub enum CatalogError {
    ModuleNotFound(String),
    ModuleAlreadyExists(String),
    CircularDependency(String),
    DependencyNotFound(String),
    VersionConflict { module: String, required: String, available: String },
    PlatformIncompatible { details: String },
    InstallFailed(String),
    UninstallFailed(String),
    NoSatisfyingVersion(String, String),
    ParseError(String),
}

} // verus!
