use cxpkg::backend::{Backend, BackendRegistry};
use cxpkg::error::CxpkgError;
use cxpkg::package::{BackendKind, Dependency, Package, PackageQuery, PackageState};
use cxpkg::resolver::{add_removal, add_upgrade, join_names, removal_plan, topological_sort, upgrade_plan,
    InstallResolution, ResolutionPlan, Resolver};

struct Fake {
    name: String,
    known: Vec<Package>,
    fail: bool,
}

impl Backend for Fake {
    fn name(&self) -> &str {
        &self.name
    }
    fn is_available(&self) -> bool {
        true
    }
    fn search(&self, _query: &str) -> Result<Vec<Package>, CxpkgError> {
        Ok(Vec::new())
    }
    fn info(&self, query: &PackageQuery) -> Result<Option<Package>, CxpkgError> {
        if self.fail {
            return Err(CxpkgError::BackendError { backend: self.name.clone(), message: "down".into() });
        }
        Ok(self.known.iter().find(|p| p.name == query.name).cloned())
    }
    fn list_installed(&self) -> Result<Vec<Package>, CxpkgError> {
        Ok(Vec::new())
    }
    fn list_upgradable(&self) -> Result<Vec<Package>, CxpkgError> {
        Ok(Vec::new())
    }
    fn install(&self, _packages: &[&str]) -> Result<(), CxpkgError> {
        Ok(())
    }
    fn remove(&self, _packages: &[&str]) -> Result<(), CxpkgError> {
        Ok(())
    }
    fn update_index(&self) -> Result<(), CxpkgError> {
        Ok(())
    }
    fn upgrade_all(&self) -> Result<(), CxpkgError> {
        Ok(())
    }
}

fn pkg(name: &str, deps: &[&str]) -> Package {
    let mut p = Package::new(name, "1.0", BackendKind::Apt);
    for d in deps {
        p.dependencies.push(Dependency::required(d));
    }
    p
}

fn names(ps: &[Package]) -> Vec<String> {
    ps.iter().map(|p| p.name.clone()).collect()
}

#[test]
fn topological_sort_puts_dependencies_first() {
    let sorted = topological_sort(vec![pkg("app", &["lib", "extern"]), pkg("lib", &["core"]), pkg("core", &[])]).unwrap();
    assert_eq!(names(&sorted), vec!["core", "lib", "app"]);
}

#[test]
fn topological_sort_keeps_independent_packages() {
    let sorted = topological_sort(vec![pkg("a", &[]), pkg("b", &[])]).unwrap();
    assert_eq!(sorted.len(), 2);
    assert!(names(&sorted).contains(&"a".to_string()));
    assert!(names(&sorted).contains(&"b".to_string()));
    assert!(topological_sort(Vec::new()).unwrap().is_empty());
}

#[test]
fn topological_sort_reports_cycles() {
    let err = topological_sort(vec![pkg("a", &["b"]), pkg("b", &["a"]), pkg("c", &[])]).unwrap_err();
    assert_eq!(err, CxpkgError::DependencyCycle("a, b, c".into()));
    let err = topological_sort(vec![pkg("self", &["self"])]).unwrap_err();
    assert_eq!(err, CxpkgError::DependencyCycle("self".into()));
    let err = topological_sort(vec![pkg("twin", &[]), pkg("twin", &[])]).unwrap_err();
    assert_eq!(err, CxpkgError::DependencyCycle("twin, twin".into()));
}

#[test]
fn optional_dependencies_do_not_order() {
    let mut a = pkg("a", &[]);
    a.dependencies.push(Dependency { name: "b".into(), version_req: None, optional: true });
    let b = pkg("b", &["a"]);
    let sorted = topological_sort(vec![a, b]).unwrap();
    assert_eq!(names(&sorted), vec!["a", "b"]);
}

#[test]
fn conflicts_are_found() {
    let reg: BackendRegistry<Fake> = BackendRegistry::new();
    let resolver = Resolver::new(&reg);
    let mut plan = ResolutionPlan::default();
    let mut a = pkg("a", &[]);
    a.conflicts.push("zz".into());
    a.conflicts.push("b".into());
    plan.to_install = vec![a, pkg("b", &[])];
    assert_eq!(resolver.check_conflicts(&plan), Err(CxpkgError::DependencyConflict("a conflicts with b".into())));
    plan.to_install.pop();
    assert_eq!(resolver.check_conflicts(&plan), Ok(()));
}

#[test]
fn plan_counts_and_sizes() {
    let mut plan = ResolutionPlan::default();
    assert!(plan.is_empty());
    assert_eq!(plan.package_count(), 0);
    let mut a = pkg("a", &[]);
    a.size = 100;
    let mut b = pkg("b", &[]);
    b.size = 23;
    plan.to_install.push(a);
    plan.to_upgrade.push(b);
    plan.to_remove.push(pkg("c", &[]));
    assert!(!plan.is_empty());
    assert_eq!(plan.package_count(), 2);
    assert!(plan.download_size_in_range());
    assert_eq!(plan.total_download_size(), 123);
    let mut huge = pkg("h", &[]);
    huge.size = u64::MAX;
    plan.to_upgrade.push(huge);
    assert!(!plan.download_size_in_range());
}

#[test]
fn removal_and_upgrade_steps() {
    let mut plan = ResolutionPlan::default();
    assert!(add_removal(&mut plan, "a", Ok(Some(pkg("a", &[])))).is_ok());
    assert_eq!(add_removal(&mut plan, "gone", Ok(None)), Err(CxpkgError::PackageNotFound("gone".into())));
    assert_eq!(names(&plan.to_remove), vec!["a"]);
    assert!(add_upgrade(&mut plan, Ok(None)).is_ok());
    assert!(add_upgrade(&mut plan, Ok(Some(pkg("u", &[])))).is_ok());
    assert_eq!(add_upgrade(&mut plan, Err(CxpkgError::PermissionDenied)), Err(CxpkgError::PermissionDenied));
    assert_eq!(names(&plan.to_upgrade), vec!["u"]);
}

#[test]
fn install_resolution_follows_dependencies_once() {
    let mut res = InstallResolution::new(&["app", "app"]);
    let first = res.next_name().unwrap();
    assert_eq!(first, "app");
    res.record(first, Ok(Some(pkg("app", &["lib", "tool"])))).unwrap();
    let second = res.next_name().unwrap();
    assert_eq!(second, "lib");
    let mut lib = pkg("lib", &["app"]);
    lib.state = PackageState::Installed;
    res.record(second, Ok(Some(lib))).unwrap();
    let third = res.next_name().unwrap();
    assert_eq!(third, "tool");
    res.record(third, Ok(Some(pkg("tool", &["lib"])))).unwrap();
    assert_eq!(res.next_name(), None);
    let plan = res.finish().unwrap();
    assert_eq!(names(&plan.to_install), vec!["tool", "app"]);
    assert_eq!(plan.already_satisfied, vec!["lib".to_string()]);
}

#[test]
fn install_resolution_reports_missing_packages() {
    let mut res = InstallResolution::new(&["ghost"]);
    let n = res.next_name().unwrap();
    assert_eq!(res.record(n, Ok(None)), Err(CxpkgError::PackageNotFound("ghost".into())));
    let mut res = InstallResolution::new(&[]);
    assert_eq!(res.next_name(), None);
    assert!(res.finish().unwrap().is_empty());
}

#[test]
fn install_resolution_orders_for_install() {
    let mut res = InstallResolution::new(&["app"]);
    let n = res.next_name().unwrap();
    res.record(n, Ok(Some(pkg("app", &["lib"])))).unwrap();
    let n = res.next_name().unwrap();
    res.record(n, Ok(Some(pkg("lib", &[])))).unwrap();
    assert_eq!(res.next_name(), None);
    let plan = res.finish().unwrap();
    assert_eq!(names(&plan.to_install), vec!["lib", "app"]);
}

#[test]
fn resolve_remove_and_upgrade_ask_the_registry() {
    let mut reg = BackendRegistry::new();
    reg.register(Fake { name: "apt".into(), known: vec![pkg("vim", &[])], fail: false });
    let resolver = Resolver::new(&reg);
    let plan = resolver.resolve_remove(&["vim"]).unwrap();
    assert_eq!(names(&plan.to_remove), vec!["vim"]);
    assert!(matches!(resolver.resolve_remove(&["vim", "nano"]), Err(CxpkgError::PackageNotFound(n)) if n == "nano"));
    let plan = resolver.resolve_upgrade(&["nano", "vim"]).unwrap();
    assert_eq!(names(&plan.to_upgrade), vec!["vim"]);
    assert!(resolver.resolve_remove(&[]).unwrap().is_empty());
}

#[test]
fn join_names_separates_with_commas() {
    assert_eq!(join_names(&vec![pkg("a", &[]), pkg("b", &[]), pkg("c", &[])]), "a, b, c");
    assert_eq!(join_names(&Vec::new()), "");
}

#[test]
fn resolve_install_follows_the_registry() {
    let mut reg = BackendRegistry::new();
    let mut installed = pkg("libc", &[]);
    installed.state = PackageState::Installed;
    reg.register(Fake {
        name: "apt".into(),
        known: vec![pkg("app", &["lib", "libc"]), pkg("lib", &["libc"]), installed, pkg("loop", &["loop2"]), pkg("loop2", &["loop"])],
        fail: false,
    });
    let resolver = Resolver::new(&reg);
    let plan = resolver.resolve_install(&["app"]).unwrap();
    assert_eq!(names(&plan.to_install), vec!["lib", "app"]);
    assert_eq!(plan.already_satisfied, vec!["libc".to_string()]);
    assert!(plan.to_remove.is_empty() && plan.to_upgrade.is_empty());
    let plan = resolver.resolve_install(&["libc"]).unwrap();
    assert!(plan.is_empty());
    assert_eq!(plan.already_satisfied, vec!["libc".to_string()]);
    assert_eq!(resolver.resolve_install(&["app", "ghost"]).unwrap_err(), CxpkgError::PackageNotFound("ghost".into()));
    assert_eq!(resolver.resolve_install(&["loop"]).unwrap_err(), CxpkgError::DependencyCycle("loop, loop2".into()));
    assert!(resolver.resolve_install(&[]).unwrap().is_empty());
}

#[test]
fn resolve_install_treats_failed_lookups_as_missing() {
    let mut reg = BackendRegistry::new();
    reg.register(Fake { name: "apt".into(), known: vec![], fail: true });
    let resolver = Resolver::new(&reg);
    assert_eq!(resolver.resolve_install(&["app"]).unwrap_err(), CxpkgError::PackageNotFound("app".into()));
}

#[test]
fn no_backends_means_not_found() {
    let reg: BackendRegistry<Fake> = BackendRegistry::new();
    let resolver = Resolver::new(&reg);
    assert_eq!(resolver.resolve_install(&["foo"]).unwrap_err(), CxpkgError::PackageNotFound("foo".into()));
    assert_eq!(resolver.resolve_remove(&["foo", "bar"]).unwrap_err(), CxpkgError::PackageNotFound("foo".into()));
    assert!(resolver.resolve_upgrade(&["foo"]).unwrap().is_empty());
}

#[test]
fn resolve_install_keeps_installed_apart() {
    let mut reg = BackendRegistry::new();
    let mut tool = pkg("tool", &[]);
    tool.state = PackageState::Installed;
    reg.register(Fake { name: "apt".into(), known: vec![pkg("app", &["tool", "lib"]), pkg("lib", &[]), tool], fail: false });
    let resolver = Resolver::new(&reg);
    let plan = resolver.resolve_install(&["app", "tool", "app"]).unwrap();
    assert_eq!(names(&plan.to_install), vec!["lib", "app"]);
    assert_eq!(plan.already_satisfied, vec!["tool".to_string()]);
    assert!(plan.to_install.iter().all(|p| p.state != PackageState::Installed));
}

#[test]
fn removal_plan_follows_the_answers() {
    let plan = removal_plan(&["a", "b"], vec![Ok(Some(pkg("a", &[]))), Ok(Some(pkg("b", &[])))]).unwrap();
    assert_eq!(names(&plan.to_remove), vec!["a", "b"]);
    let err = removal_plan(&["a", "b", "c"], vec![Ok(Some(pkg("a", &[]))), Ok(None)]).unwrap_err();
    assert_eq!(err, CxpkgError::PackageNotFound("b".into()));
    let err = removal_plan(&["a"], vec![Err(CxpkgError::PermissionDenied)]).unwrap_err();
    assert_eq!(err, CxpkgError::PermissionDenied);
}

#[test]
fn upgrade_plan_skips_missing_names() {
    let plan = upgrade_plan(vec![Ok(None), Ok(Some(pkg("b", &[]))), Ok(Some(pkg("c", &[])))]).unwrap();
    assert_eq!(names(&plan.to_upgrade), vec!["b", "c"]);
    let err = upgrade_plan(vec![Ok(Some(pkg("a", &[]))), Err(CxpkgError::PermissionDenied), Ok(None)]).unwrap_err();
    assert_eq!(err, CxpkgError::PermissionDenied);
    assert!(upgrade_plan(Vec::new()).unwrap().is_empty());
}
