//! Data model of the package manager: the package manifest and the registry
//! record. Reading manifests from disk and talking to a registry live with
//! the surrounding application.

use vstd::prelude::*;
use std::collections::HashMap;

verus! {

/// What a package declares about itself.
#[derive(Debug, Clone)]
pub struct PackageInfo {
    pub name: String,
    pub version: String,
    pub authors: Vec<String>,
    pub description: Option<String>,
}

/// A package manifest: the package's own description plus its dependency
/// requirements, keyed by dependency name.
#[derive(Debug, Clone)]
pub struct Manifest {
    pub package: PackageInfo,
    pub dependencies: HashMap<String, String>,
}

/// One published package version as the registry records it.
#[derive(Debug, Clone)]
pub struct RegistryPackage {
    pub name: String,
    pub version: String,
    pub authors: Vec<String>,
    pub description: Option<String>,
    pub dependencies: HashMap<String, String>,
}

} // verus!
