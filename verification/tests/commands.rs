use cxpkg::cli::{check_upgrade_request, confirmation, dependency_line, group_by_backend, is_yes,
    plan_step, require_packages, set_message, short_description, sweep_step, PlanStep, SweepStep};
use cxpkg::config::{backends_to_register, config_path, force_backend, BackendConfig, Config};
use cxpkg::error::CxpkgError;
use cxpkg::package::{BackendKind, Dependency, Package};

#[test]
fn default_config_matches_documented_file() {
    let c = Config::default();
    assert!(c.backends.apt_enabled);
    assert!(!c.backends.dnf_enabled);
    assert!(c.backends.flatpak_enabled);
    assert_eq!(c.backends.priority, vec!["apt", "flatpak", "dnf"]);
    assert!(!c.resolver.allow_downgrades);
    assert!(!c.resolver.auto_remove_orphans);
    assert_eq!(c.cache.dir, "/var/cache/cxpkg");
    assert_eq!(c.cache.max_age_days, 7);
    assert_eq!(config_path(), "/etc/cxpkg/config.toml");
}

#[test]
fn registration_follows_priority_and_switches() {
    let c = Config::default();
    assert_eq!(backends_to_register(&c.backends), vec![BackendKind::Apt, BackendKind::Flatpak]);
    let all = BackendConfig {
        apt_enabled: true,
        dnf_enabled: true,
        flatpak_enabled: false,
        priority: vec!["dnf".into(), "zypper".into(), "flatpak".into(), "apt".into(), "dnf".into()],
    };
    assert_eq!(backends_to_register(&all), vec![BackendKind::Dnf, BackendKind::Apt, BackendKind::Dnf]);
}

#[test]
fn requests_need_packages() {
    assert_eq!(require_packages(&vec![]), Err(CxpkgError::Config("no packages specified".into())));
    assert_eq!(require_packages(&vec!["vim".into()]), Ok(()));
    assert_eq!(check_upgrade_request(&vec![], false), Err(CxpkgError::Config("specify packages or use --all".into())));
    assert_eq!(check_upgrade_request(&vec![], true), Ok(()));
    assert_eq!(check_upgrade_request(&vec!["vim".into()], false), Ok(()));
}

#[test]
fn plan_is_grouped_by_backend_in_first_seen_order() {
    let ps = vec![
        Package::new("gimp", "1", BackendKind::Flatpak),
        Package::new("vim", "1", BackendKind::Apt),
        Package::new("inkscape", "1", BackendKind::Flatpak),
        Package::new("git", "1", BackendKind::Apt),
    ];
    let groups = group_by_backend(&ps);
    assert_eq!(
        groups,
        vec![
            ("flatpak".to_string(), vec!["gimp".to_string(), "inkscape".to_string()]),
            ("apt".to_string(), vec!["vim".to_string(), "git".to_string()]),
        ]
    );
    assert!(group_by_backend(&Vec::new()).is_empty());
}

#[test]
fn confirmation_accepts_only_y() {
    assert!(is_yes("y\n"));
    assert!(is_yes("  Y  "));
    assert!(!is_yes("yes"));
    assert!(!is_yes(""));
    assert_eq!(confirmation("y"), Ok(()));
    assert_eq!(confirmation("n\n"), Err(CxpkgError::Config("aborted by user".into())));
}

#[test]
fn long_descriptions_are_cut() {
    let short = "a".repeat(70);
    assert_eq!(short_description(&short), short);
    let long = "b".repeat(71);
    assert_eq!(short_description(&long), format!("{}...", "b".repeat(67)));
    let accented = format!("{}é{}", "c".repeat(65), "d".repeat(10));
    assert_eq!(short_description(&accented), format!("{}é...", "c".repeat(65)));
}

#[test]
fn dependency_line_lists_required_names() {
    let mut p = Package::new("app", "1", BackendKind::Apt);
    assert_eq!(dependency_line(&p), None);
    p.dependencies.push(Dependency { name: "opt".into(), version_req: None, optional: true });
    assert_eq!(dependency_line(&p), Some(String::new()));
    p.dependencies.push(Dependency::required("libc"));
    p.dependencies.push(Dependency::required("zlib"));
    assert_eq!(dependency_line(&p), Some("libc, zlib".to_string()));
}

#[test]
fn config_set_message() {
    assert_eq!(set_message("cache.max_age_days", "3"), "Set cache.max_age_days = 3 (edit /etc/cxpkg/config.toml to persist)");
}

#[test]
fn forced_backend_narrows_registration() {
    let kinds = vec![BackendKind::Apt, BackendKind::Flatpak, BackendKind::Apt];
    assert_eq!(force_backend(&kinds, None), kinds);
    assert_eq!(force_backend(&kinds, Some("apt")), vec![BackendKind::Apt, BackendKind::Apt]);
    assert_eq!(force_backend(&kinds, Some("flatpak")), vec![BackendKind::Flatpak]);
    assert!(force_backend(&kinds, Some("zypper")).is_empty());
}

#[test]
fn plan_steps_in_order() {
    assert_eq!(plan_step(true, true, false), PlanStep::NothingToDo);
    assert_eq!(plan_step(false, true, false), PlanStep::DryRun);
    assert_eq!(plan_step(false, false, false), PlanStep::AskThenApply);
    assert_eq!(plan_step(false, false, true), PlanStep::Apply);
}

#[test]
fn sweep_runs_every_backend() {
    assert_eq!(sweep_step(0, 2), SweepStep::Run(0));
    assert_eq!(sweep_step(1, 2), SweepStep::Run(1));
    assert_eq!(sweep_step(2, 2), SweepStep::Done);
    assert_eq!(sweep_step(0, 0), SweepStep::Done);
}
