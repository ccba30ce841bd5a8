//! The failure kinds of the pipeline. All of them are fatal: the remaining
//! pipeline steps are skipped and the error is surfaced with enough context
//! (the failing requirement or package identity) to render a message.
//! Unrecognized manifest keys are not an error kind: they are non-fatal and
//! travel on `Package::unused_keys`.

use vstd::prelude::*;
use crate::model::PackageId;

verus! {

#[derive(Debug, PartialEq, Eq)]
pub enum CompileError {
    /// The "paths" override configuration entry was a scalar instead of a
    /// list.
    ConfigType,
    /// No consistent dependency assignment exists: the requirement with this
    /// package name could not be satisfied.
    Resolution { name: String },
    /// A resolved package could not be obtained from any source; carries the
    /// identity that could not be materialized, to be reported under the
    /// context "unable to obtain packages from source".
    PackageFetch { missing: PackageId },
    /// The resolved graph contains a dependency cycle; a correct resolution
    /// never produces one, so this indicates a resolver contract violation.
    CyclicDependency,
    /// Compilation of this specific package failed.
    Compilation { package: PackageId },
}

} // verus!
