//! The ways a resolution can fail.

use vstd::prelude::*;

verus! {

/// Why a specifier did not resolve.
#[derive(Debug, Clone, Copy, PartialEq, Eq, Structural)]
pub enum ResolveError {
    /// The specifier is empty, or its scope has no package name after it.
    InvalidSpecifier,
    /// No candidate exists.
    NotFound,
    /// The package has an exports map and it does not list the subpath.
    PackagePathNotExported,
    /// A package descriptor that had to be read is malformed.
    InvalidPackageConfig,
    /// An alias rewrite led back to something already rewritten.
    CircularAlias,
    /// The start directory is not an absolute path of an existing directory.
    InvalidStartDirectory,
    /// The filesystem refused a lookup for another reason than absence.
    FilesystemError,
}

} // verus!
