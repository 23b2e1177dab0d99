//! The errors that cxpkg reports.
use vstd::prelude::*;
use vstd::string::StringExecFns;

verus! {

/// What can go wrong while resolving and dispatching package operations.
/// Failures of the operating system, the network and JSON handling are
/// carried as their messages.
#[derive(Debug, Clone, PartialEq)]
pub enum CxpkgError {
    PackageNotFound(String),
    BackendError { backend: String, message: String },
    DependencyConflict(String),
    DependencyCycle(String),
    VersionConflict { package: String, constraint: String, found: String },
    NoBackend(String),
    Config(String),
    Io(String),
    Network(String),
    Json(String),
    PermissionDenied,
}

pub enum CxpkgErrorModel {
    PackageNotFound(Seq<char>),
    BackendError { backend: Seq<char>, message: Seq<char> },
    DependencyConflict(Seq<char>),
    DependencyCycle(Seq<char>),
    VersionConflict { package: Seq<char>, constraint: Seq<char>, found: Seq<char> },
    NoBackend(Seq<char>),
    Config(Seq<char>),
    Io(Seq<char>),
    Network(Seq<char>),
    Json(Seq<char>),
    PermissionDenied,
}

impl View for CxpkgError {
    type V = CxpkgErrorModel;

    open spec fn view(&self) -> CxpkgErrorModel {
        match self {
            CxpkgError::PackageNotFound(s) => CxpkgErrorModel::PackageNotFound(s@),
            CxpkgError::BackendError { backend, message } => CxpkgErrorModel::BackendError {
                backend: backend@,
                message: message@,
            },
            CxpkgError::DependencyConflict(s) => CxpkgErrorModel::DependencyConflict(s@),
            CxpkgError::DependencyCycle(s) => CxpkgErrorModel::DependencyCycle(s@),
            CxpkgError::VersionConflict { package, constraint, found } =>
                CxpkgErrorModel::VersionConflict {
                package: package@,
                constraint: constraint@,
                found: found@,
            },
            CxpkgError::NoBackend(s) => CxpkgErrorModel::NoBackend(s@),
            CxpkgError::Config(s) => CxpkgErrorModel::Config(s@),
            CxpkgError::Io(s) => CxpkgErrorModel::Io(s@),
            CxpkgError::Network(s) => CxpkgErrorModel::Network(s@),
            CxpkgError::Json(s) => CxpkgErrorModel::Json(s@),
            CxpkgError::PermissionDenied => CxpkgErrorModel::PermissionDenied,
        }
    }
}

/// How an error is shown to the user.
pub open spec fn error_text(e: CxpkgErrorModel) -> Seq<char> {
    match e {
        CxpkgErrorModel::PackageNotFound(s) => "package not found: "@ + s,
        CxpkgErrorModel::BackendError { backend, message } => "backend error ("@ + backend
            + "): "@ + message,
        CxpkgErrorModel::DependencyConflict(s) => "dependency conflict: "@ + s,
        CxpkgErrorModel::DependencyCycle(s) => "dependency cycle detected involving: "@ + s,
        CxpkgErrorModel::VersionConflict { package, constraint, found } =>
            "version constraint not satisfied: "@ + package + " requires "@ + constraint
            + ", found "@ + found,
        CxpkgErrorModel::NoBackend(s) => "no backend available for package: "@ + s,
        CxpkgErrorModel::Config(s) => "config error: "@ + s,
        CxpkgErrorModel::Io(s) => "io error: "@ + s,
        CxpkgErrorModel::Network(s) => "network error: "@ + s,
        CxpkgErrorModel::Json(s) => "json error: "@ + s,
        CxpkgErrorModel::PermissionDenied => "permission denied: operation requires root"@,
    }
}

impl CxpkgError {
    /// The message shown for this error.
    pub fn to_string(&self) -> (s: String)
        ensures
            s@ == error_text(self@),
    {
        match self {
            CxpkgError::PackageNotFound(n) => "package not found: ".to_owned().concat(n.as_str()),
            CxpkgError::BackendError { backend, message } => "backend error (".to_owned().concat(
                backend.as_str(),
            ).concat("): ").concat(message.as_str()),
            CxpkgError::DependencyConflict(m) => "dependency conflict: ".to_owned().concat(
                m.as_str(),
            ),
            CxpkgError::DependencyCycle(m) => "dependency cycle detected involving: ".to_owned().concat(
                m.as_str(),
            ),
            CxpkgError::VersionConflict { package, constraint, found } =>
                "version constraint not satisfied: ".to_owned().concat(package.as_str()).concat(
                " requires ",
            ).concat(constraint.as_str()).concat(", found ").concat(found.as_str()),
            CxpkgError::NoBackend(n) => "no backend available for package: ".to_owned().concat(
                n.as_str(),
            ),
            CxpkgError::Config(m) => "config error: ".to_owned().concat(m.as_str()),
            CxpkgError::Io(m) => "io error: ".to_owned().concat(m.as_str()),
            CxpkgError::Network(m) => "network error: ".to_owned().concat(m.as_str()),
            CxpkgError::Json(m) => "json error: ".to_owned().concat(m.as_str()),
            CxpkgError::PermissionDenied => "permission denied: operation requires root".to_owned(),
        }
    }
}

} // verus!
