//! The failure conditions a probe can end in. One terminal error is returned
//! to the caller; there is no partial success.
use vstd::prelude::*;

verus! {

/// Why a probe failed.
#[derive(Debug, Clone, PartialEq, Eq)]
pub enum Error {
    /// Aborted because a disable switch was set in the environment.
    ///
    /// Carries the name of the responsible switch.
    DisabledByEnv(String),
    /// Aborted because a required environment setting was not present.
    ///
    /// Carries the name of the missing setting.
    RequiredEnvMissing(String),
    /// On Windows, only the MSVC ABI is supported.
    NotMSVC,
    /// No usable install tree could be located or validated.
    VcpkgNotFound(String),
    /// A required package or library file is not present.
    LibNotFound(String),
    /// The install tree's files did not have the expected shape.
    VcpkgInstallation(String),
}

impl Error {
    /// A short fixed description of the error's kind.
    pub fn description(&self) -> (r: &'static str)
        ensures
            match self {
                Error::DisabledByEnv(_) => r@ == "vcpkg-rs requested to be aborted"@,
                Error::RequiredEnvMissing(_) => r@ == "a required env setting is missing"@,
                Error::NotMSVC => r@
                    == "vcpkg-rs only can only find libraries for MSVC ABI builds"@,
                Error::VcpkgNotFound(_) => r@ == "could not find Vcpkg tree"@,
                Error::LibNotFound(_) => r@ == "could not find library in Vcpkg tree"@,
                Error::VcpkgInstallation(_) => r@
                    == "could not look up details of packages in vcpkg tree"@,
            },
    {
        match self {
            Error::DisabledByEnv(_) => "vcpkg-rs requested to be aborted",
            Error::RequiredEnvMissing(_) => "a required env setting is missing",
            Error::NotMSVC => "vcpkg-rs only can only find libraries for MSVC ABI builds",
            Error::VcpkgNotFound(_) => "could not find Vcpkg tree",
            Error::LibNotFound(_) => "could not find library in Vcpkg tree",
            Error::VcpkgInstallation(_) => "could not look up details of packages in vcpkg tree",
        }
    }
}

} // verus!
