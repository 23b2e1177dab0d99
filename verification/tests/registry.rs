use cxpkg::backend::{concat_listings, first_found, merge_search_results, Backend, BackendRegistry};
use cxpkg::error::CxpkgError;
use cxpkg::package::{BackendKind, Package, PackageQuery};

struct Stub {
    name: &'static str,
    available: bool,
    kind: BackendKind,
    found: Vec<&'static str>,
    results: Result<Vec<&'static str>, ()>,
}

fn make(names: &[&'static str], kind: BackendKind) -> Vec<Package> {
    names.iter().map(|n| Package::new(n, "1", kind)).collect()
}

impl Backend for Stub {
    fn name(&self) -> &str {
        self.name
    }
    fn is_available(&self) -> bool {
        self.available
    }
    fn search(&self, _query: &str) -> Result<Vec<Package>, CxpkgError> {
        match &self.results {
            Ok(v) => Ok(make(v, self.kind)),
            Err(()) => Err(CxpkgError::BackendError { backend: self.name.into(), message: "failed".into() }),
        }
    }
    fn info(&self, query: &PackageQuery) -> Result<Option<Package>, CxpkgError> {
        if self.found.contains(&query.name.as_str()) {
            Ok(Some(Package::new(&query.name, self.name, self.kind)))
        } else {
            Ok(None)
        }
    }
    fn list_installed(&self) -> Result<Vec<Package>, CxpkgError> {
        Ok(make(&["installed-by-stub"], self.kind))
    }
    fn list_upgradable(&self) -> Result<Vec<Package>, CxpkgError> {
        match &self.results {
            Ok(v) => Ok(make(v, self.kind)),
            Err(()) => Err(CxpkgError::PermissionDenied),
        }
    }
    fn install(&self, _packages: &[&str]) -> Result<(), CxpkgError> {
        Ok(())
    }
    fn remove(&self, _packages: &[&str]) -> Result<(), CxpkgError> {
        Ok(())
    }
    fn update_index(&self) -> Result<(), CxpkgError> {
        Ok(())
    }
    fn upgrade_all(&self) -> Result<(), CxpkgError> {
        Ok(())
    }
}

fn stub(name: &'static str, kind: BackendKind, found: Vec<&'static str>, results: Result<Vec<&'static str>, ()>) -> Stub {
    Stub { name, available: true, kind, found, results }
}

#[test]
fn register_skips_unavailable_backends() {
    let mut reg = BackendRegistry::new();
    reg.register(stub("apt", BackendKind::Apt, vec![], Ok(vec![])));
    reg.register(Stub { name: "dnf", available: false, kind: BackendKind::Dnf, found: vec![], results: Ok(vec![]) });
    reg.register(stub("flatpak", BackendKind::Flatpak, vec![], Ok(vec![])));
    let all: Vec<&str> = reg.all().iter().map(|b| b.name()).collect();
    assert_eq!(all, vec!["apt", "flatpak"]);
    assert!(reg.get("dnf").is_none());
    assert_eq!(reg.get("flatpak").unwrap().name(), "flatpak");
    let empty: BackendRegistry<Stub> = BackendRegistry::default();
    assert!(empty.all().is_empty());
}

#[test]
fn get_returns_first_registered_of_a_name() {
    let mut reg = BackendRegistry::new();
    reg.register(stub("apt", BackendKind::Apt, vec!["one"], Ok(vec![])));
    reg.register(stub("apt", BackendKind::Apt, vec!["two"], Ok(vec![])));
    let b = reg.get("apt").unwrap();
    assert!(b.found.contains(&"one"));
}

#[test]
fn search_all_sorts_and_drops_repeats() {
    let mut reg = BackendRegistry::new();
    reg.register(stub("apt", BackendKind::Apt, vec![], Ok(vec!["vim", "emacs", "vim"])));
    reg.register(stub("dnf", BackendKind::Dnf, vec![], Err(())));
    reg.register(stub("flatpak", BackendKind::Flatpak, vec![], Ok(vec!["vim", "Zed"])));
    let r = reg.search_all("x").unwrap();
    let shown: Vec<(String, BackendKind)> = r.iter().map(|p| (p.name.clone(), p.backend)).collect();
    assert_eq!(
        shown,
        vec![
            ("Zed".to_string(), BackendKind::Flatpak),
            ("emacs".to_string(), BackendKind::Apt),
            ("vim".to_string(), BackendKind::Apt),
            ("vim".to_string(), BackendKind::Flatpak),
        ]
    );
}

#[test]
fn merge_keeps_every_listing_once() {
    let results = vec![
        Ok(make(&["b", "a"], BackendKind::Apt)),
        Err(CxpkgError::PermissionDenied),
        Ok(make(&["a", "c", "a"], BackendKind::Dnf)),
    ];
    let merged = merge_search_results(results);
    let shown: Vec<(String, BackendKind)> = merged.iter().map(|p| (p.name.clone(), p.backend)).collect();
    assert_eq!(
        shown,
        vec![
            ("a".to_string(), BackendKind::Apt),
            ("a".to_string(), BackendKind::Dnf),
            ("b".to_string(), BackendKind::Apt),
            ("c".to_string(), BackendKind::Dnf),
        ]
    );
    assert!(merge_search_results(Vec::new()).is_empty());
}

#[test]
fn merge_drops_only_adjacent_repeats() {
    let results = vec![Ok(make(&["x"], BackendKind::Apt)), Ok(make(&["x"], BackendKind::Dnf)), Ok(make(&["x"], BackendKind::Apt))];
    let merged = merge_search_results(results);
    let shown: Vec<BackendKind> = merged.iter().map(|p| p.backend).collect();
    assert_eq!(shown, vec![BackendKind::Apt, BackendKind::Dnf, BackendKind::Apt]);
}

#[test]
fn concat_listings_skips_failures() {
    let results = vec![Ok(make(&["b"], BackendKind::Apt)), Err(CxpkgError::PermissionDenied), Ok(make(&["a"], BackendKind::Dnf))];
    let all: Vec<String> = concat_listings(results).iter().map(|p| p.name.clone()).collect();
    assert_eq!(all, vec!["b", "a"]);
}

#[test]
fn find_package_asks_in_order() {
    let mut reg = BackendRegistry::new();
    reg.register(stub("apt", BackendKind::Apt, vec!["vim"], Ok(vec![])));
    reg.register(stub("flatpak", BackendKind::Flatpak, vec!["vim", "gimp"], Ok(vec![])));
    let p = reg.find_package(&PackageQuery::new("vim")).unwrap().unwrap();
    assert_eq!(p.backend, BackendKind::Apt);
    let p = reg.find_package(&PackageQuery::new("gimp")).unwrap().unwrap();
    assert_eq!(p.backend, BackendKind::Flatpak);
    assert!(reg.find_package(&PackageQuery::new("none")).unwrap().is_none());
    let bound = PackageQuery::new("vim").with_backend(BackendKind::Flatpak);
    assert_eq!(reg.find_package(&bound).unwrap().unwrap().backend, BackendKind::Flatpak);
    let unbound = PackageQuery::new("gimp").with_backend(BackendKind::Dnf);
    assert_eq!(reg.find_package(&unbound).unwrap().unwrap().backend, BackendKind::Flatpak);
    let empty: BackendRegistry<Stub> = BackendRegistry::new();
    assert_eq!(empty.find_package(&PackageQuery::new("vim")), Ok(None));
}

#[test]
fn list_packages_filters_by_backend() {
    let mut reg = BackendRegistry::new();
    reg.register(stub("apt", BackendKind::Apt, vec![], Ok(vec!["a1"])));
    reg.register(stub("dnf", BackendKind::Dnf, vec![], Err(())));
    reg.register(stub("flatpak", BackendKind::Flatpak, vec![], Ok(vec!["f1", "f2"])));
    let up: Vec<String> = reg.list_packages(true, None).iter().map(|p| p.name.clone()).collect();
    assert_eq!(up, vec!["a1", "f1", "f2"]);
    let only: Vec<String> = reg.list_packages(true, Some("flatpak")).iter().map(|p| p.name.clone()).collect();
    assert_eq!(only, vec!["f1", "f2"]);
    assert!(reg.list_packages(false, Some("zypper")).is_empty());
    assert_eq!(reg.list_packages(false, Some("apt")).len(), 1);
}

#[test]
fn add_backend_follows_availability() {
    let mut reg = BackendRegistry::new();
    reg.add_backend(stub("apt", BackendKind::Apt, vec![], Ok(vec![])), "apt".to_string(), false);
    assert!(reg.all().is_empty());
    reg.add_backend(stub("apt", BackendKind::Apt, vec![], Ok(vec![])), "renamed".to_string(), true);
    assert!(reg.get("apt").is_none());
    assert_eq!(reg.get("renamed").unwrap().name(), "apt");
}

#[test]
fn first_found_takes_the_first_package() {
    let answers = vec![
        Err(CxpkgError::PermissionDenied),
        Ok(None),
        Ok(Some(Package::new("vim", "1", BackendKind::Dnf))),
        Ok(Some(Package::new("vim", "2", BackendKind::Flatpak))),
    ];
    let p = first_found(answers).unwrap();
    assert_eq!(p.backend, BackendKind::Dnf);
    assert!(first_found(vec![Ok(None), Err(CxpkgError::PermissionDenied)]).is_none());
    assert!(first_found(Vec::new()).is_none());
}

#[test]
fn selected_follows_the_filter() {
    let mut reg = BackendRegistry::new();
    reg.register(stub("apt", BackendKind::Apt, vec![], Ok(vec![])));
    reg.register(stub("flatpak", BackendKind::Flatpak, vec![], Ok(vec![])));
    reg.register(stub("apt", BackendKind::Apt, vec![], Ok(vec![])));
    assert_eq!(reg.selected(None), vec![0, 1, 2]);
    assert_eq!(reg.selected(Some("apt")), vec![0, 2]);
    assert!(reg.selected(Some("dnf")).is_empty());
}

#[test]
fn index_of_finds_the_first_registration() {
    let mut reg = BackendRegistry::new();
    reg.register(stub("apt", BackendKind::Apt, vec![], Ok(vec![])));
    reg.register(stub("flatpak", BackendKind::Flatpak, vec![], Ok(vec![])));
    reg.register(stub("flatpak", BackendKind::Flatpak, vec![], Ok(vec![])));
    assert_eq!(reg.index_of("flatpak"), Some(1));
    assert_eq!(reg.index_of("dnf"), None);
}

#[test]
fn search_with_no_backends_is_empty() {
    let reg: BackendRegistry<Stub> = BackendRegistry::new();
    assert!(reg.search_all("vim").unwrap().is_empty());
}

#[test]
fn dispatch_sends_groups_to_registered_backends() {
    let mut reg = BackendRegistry::new();
    reg.register(stub("flatpak", BackendKind::Flatpak, vec![], Ok(vec![])));
    reg.register(stub("apt", BackendKind::Apt, vec![], Ok(vec![])));
    let ps = vec![
        Package::new("vim", "1", BackendKind::Apt),
        Package::new("htop", "1", BackendKind::Dnf),
        Package::new("gimp", "1", BackendKind::Flatpak),
        Package::new("git", "1", BackendKind::Apt),
    ];
    let targets = cxpkg::cli::dispatch_targets(&reg, &ps);
    assert_eq!(
        targets,
        vec![
            (1, "apt".to_string(), vec!["vim".to_string(), "git".to_string()]),
            (0, "flatpak".to_string(), vec!["gimp".to_string()]),
        ]
    );
}
