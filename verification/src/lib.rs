//! Module catalog: discovery, registration, dependency resolution, semantic
//! version selection and platform compatibility for plugin ecosystems.

pub mod text;
pub mod order;
pub mod version;
pub mod platform;
pub mod error;
pub mod module;
pub mod sort;

pub use platform::Platform;
pub use error::CatalogError;
pub use version::{Version, VersionRequirement};
pub use module::TechModule;
pub mod catalog;
pub mod graph;
pub mod resolver;
pub mod selection;
pub mod compat;
pub mod installer;
pub mod laws;

pub use catalog::Catalog;
pub use compat::{CompatibilityReport, CompatibilityChecker};
pub use resolver::{DependencyResolver, DependencyTree};
pub use selection::VersionResolver;
pub use catalog::RepoInfo;
pub use installer::ModuleInstaller;
