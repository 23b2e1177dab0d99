use cxpkg::error::CxpkgError;
use cxpkg::package::{semver_compare, BackendKind, Dependency, Package, PackageQuery, PackageState,
    VersionOp, VersionReq};
use std::cmp::Ordering;

#[test]
fn new_package_has_defaults() {
    let p = Package::new("curl", "8.0", BackendKind::Dnf);
    assert_eq!(p.name, "curl");
    assert_eq!(p.version, "8.0");
    assert_eq!(p.arch, "amd64");
    assert_eq!(p.description, "");
    assert_eq!(p.size, 0);
    assert_eq!(p.installed_size, 0);
    assert!(p.dependencies.is_empty());
    assert_eq!(p.backend, BackendKind::Dnf);
    assert_eq!(p.state, PackageState::Available);
    assert_eq!(p.section, None);
    assert_eq!(p.to_string(), "curl/8.0 [dnf]");
}

#[test]
fn kinds_and_states_display() {
    assert_eq!(BackendKind::Apt.to_string(), "apt");
    assert_eq!(BackendKind::Flatpak.to_string(), "flatpak");
    assert_eq!(BackendKind::default(), BackendKind::Apt);
    assert_eq!(VersionOp::Ge.to_string(), ">=");
    assert_eq!(VersionOp::Lt.to_string(), "<");
    assert_eq!(PackageState::Broken.to_string(), "broken");
    let up = PackageState::Upgradable { current: "1.0".to_string(), available: "1.1".to_string() };
    assert_eq!(up.to_string(), "upgradable (1.0 -> 1.1)");
    assert_eq!(PackageState::default(), PackageState::Available);
    assert!(PackageState::Installed.is_installed());
    assert!(!up.is_installed());
}

#[test]
fn versions_compare_number_by_number() {
    assert_eq!(semver_compare("1.2.10", "1.2.9"), Some(Ordering::Greater));
    assert_eq!(semver_compare("1.2", "1.2.0"), Some(Ordering::Equal));
    assert_eq!(semver_compare("1.x.3", "1.3"), Some(Ordering::Equal));
    assert_eq!(semver_compare("0.9", "1"), Some(Ordering::Less));
    assert_eq!(semver_compare("", "0.0"), Some(Ordering::Equal));
    assert_eq!(semver_compare("2.0-rc1", "2.1"), Some(Ordering::Less));
}

#[test]
fn requirements_check_each_operator() {
    assert!(VersionReq::new(VersionOp::Eq, "1.0").satisfies("1.0.0"));
    assert!(!VersionReq::new(VersionOp::Eq, "1.0").satisfies("1.1"));
    assert!(VersionReq::new(VersionOp::Ge, "1.0").satisfies("1.0"));
    assert!(VersionReq::new(VersionOp::Ge, "1.0").satisfies("2"));
    assert!(!VersionReq::new(VersionOp::Gt, "1.0").satisfies("1.0"));
    assert!(VersionReq::new(VersionOp::Le, "1.0").satisfies("0.9"));
    assert!(VersionReq::new(VersionOp::Lt, "1.0").satisfies("0.99"));
    assert!(!VersionReq::new(VersionOp::Lt, "1.0").satisfies("1.0"));
}

#[test]
fn version_order_is_reflexive_and_antisymmetric() {
    for v in ["1.2.3", "0", "", "10.0.1", "a.b"] {
        assert_eq!(semver_compare(v, v), Some(Ordering::Equal));
        assert!(VersionReq::new(VersionOp::Eq, v).satisfies(v));
        assert!(VersionReq::new(VersionOp::Ge, v).satisfies(v));
        assert!(!VersionReq::new(VersionOp::Gt, v).satisfies(v));
    }
    let pairs = [("1.2", "1.10"), ("3", "2.9.9"), ("1.0", "1")];
    for (a, b) in pairs {
        assert_eq!(semver_compare(a, b).map(|o| o.reverse()), semver_compare(b, a));
    }
}

#[test]
fn dependencies_and_queries() {
    let d = Dependency::required("libc");
    assert_eq!(d.name, "libc");
    assert!(!d.optional);
    assert!(d.version_req.is_none());
    let d = Dependency::with_version("zlib", VersionReq::new(VersionOp::Ge, "1.2"));
    assert_eq!(d.version_req.unwrap().version, "1.2");
    let q = PackageQuery::new("vim").with_backend(BackendKind::Apt).with_version(VersionReq::new(VersionOp::Eq, "9"));
    assert_eq!(q.name, "vim");
    assert_eq!(q.backend, Some(BackendKind::Apt));
    assert_eq!(q.version_req.unwrap().op, VersionOp::Eq);
}

#[test]
fn required_dependency_names_skip_optional() {
    let mut p = Package::new("app", "1", BackendKind::Apt);
    p.dependencies.push(Dependency::required("a"));
    p.dependencies.push(Dependency { name: "b".to_string(), version_req: None, optional: true });
    p.dependencies.push(Dependency::required("c"));
    assert_eq!(p.required_dependency_names(), vec!["a".to_string(), "c".to_string()]);
}

#[test]
fn errors_display_their_messages() {
    assert_eq!(CxpkgError::PackageNotFound("x".into()).to_string(), "package not found: x");
    assert_eq!(
        CxpkgError::BackendError { backend: "apt".into(), message: "boom".into() }.to_string(),
        "backend error (apt): boom"
    );
    assert_eq!(CxpkgError::DependencyConflict("a".into()).to_string(), "dependency conflict: a");
    assert_eq!(CxpkgError::DependencyCycle("a, b".into()).to_string(), "dependency cycle detected involving: a, b");
    assert_eq!(
        CxpkgError::VersionConflict { package: "p".into(), constraint: ">=2".into(), found: "1".into() }.to_string(),
        "version constraint not satisfied: p requires >=2, found 1"
    );
    assert_eq!(CxpkgError::NoBackend("p".into()).to_string(), "no backend available for package: p");
    assert_eq!(CxpkgError::Config("bad".into()).to_string(), "config error: bad");
    assert_eq!(CxpkgError::Io("disk".into()).to_string(), "io error: disk");
    assert_eq!(CxpkgError::Network("down".into()).to_string(), "network error: down");
    assert_eq!(CxpkgError::Json("eof".into()).to_string(), "json error: eof");
    assert_eq!(CxpkgError::PermissionDenied.to_string(), "permission denied: operation requires root");
}
