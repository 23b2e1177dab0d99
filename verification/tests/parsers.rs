use cxpkg::backend::{AptBackend, DnfBackend, FlatpakBackend};
use cxpkg::backend::dnf::{dnf_size_in_range, parse_dnf_size};
use cxpkg::package::{BackendKind, Package, PackageState};

const APT_SHOW: &str = "Package: curl\nVersion: 7.88.1-10\nInstalled-Size: 500\nSection: web\nArchitecture: amd64\nHomepage: https://curl.se\nDescription: command line tool for transferring data\n\nPackage: libcurl4\nVersion:  7.88.1 \nArchitecture: arm64\n";

#[test]
fn apt_show_output_gives_one_package_per_paragraph() {
    let apt = AptBackend::new();
    assert!(apt.dpkg_sizes_in_range(APT_SHOW));
    let pkgs = apt.parse_dpkg_output(APT_SHOW);
    assert_eq!(pkgs.len(), 2);
    assert_eq!(pkgs[0].name, "curl");
    assert_eq!(pkgs[0].version, "7.88.1-10");
    assert_eq!(pkgs[0].installed_size, 500 * 1024);
    assert_eq!(pkgs[0].section, Some("web".to_string()));
    assert_eq!(pkgs[0].homepage, Some("https://curl.se".to_string()));
    assert_eq!(pkgs[0].description, "command line tool for transferring data");
    assert_eq!(pkgs[0].arch, "amd64");
    assert_eq!(pkgs[0].backend, BackendKind::Apt);
    assert_eq!(pkgs[1].name, "libcurl4");
    assert_eq!(pkgs[1].version, "7.88.1");
    assert_eq!(pkgs[1].arch, "arm64");
    assert_eq!(pkgs[1].installed_size, 0);
    assert_eq!(pkgs[1].state, PackageState::Available);
}

#[test]
fn apt_show_fields_before_any_package_are_ignored() {
    let apt = AptBackend::new();
    let pkgs = apt.parse_dpkg_output("Version: 1.0\nDescription: stray\n");
    assert!(pkgs.is_empty());
    let pkgs = apt.parse_dpkg_output("Package: a\nInstalled-Size: lots\n");
    assert_eq!(pkgs.len(), 1);
    assert_eq!(pkgs[0].installed_size, 0);
}

#[test]
fn apt_show_size_that_overflows_is_detected() {
    let apt = AptBackend::new();
    assert!(!apt.dpkg_sizes_in_range("Package: big\nInstalled-Size: 18446744073709551615\n"));
    assert!(apt.dpkg_sizes_in_range("Installed-Size: 18446744073709551615\n"));
    assert!(apt.dpkg_sizes_in_range("Package: ok\nInstalled-Size: 18014398509481983\n"));
    assert!(!apt.dpkg_sizes_in_range("Package: no\nInstalled-Size: 18014398509481984\n"));
}

#[test]
fn apt_search_lines_split_at_dash() {
    let apt = AptBackend::new();
    let pkgs = apt.parse_search_output("vim - Vi IMproved\nnot a result\n vim-tiny  -  small vim \n");
    assert_eq!(pkgs.len(), 2);
    assert_eq!(pkgs[0].name, "vim");
    assert_eq!(pkgs[0].description, "Vi IMproved");
    assert_eq!(pkgs[0].version, "");
    assert_eq!(pkgs[1].name, "vim-tiny");
    assert_eq!(pkgs[1].description, "small vim");
}

#[test]
fn apt_installed_listing_reads_tab_fields() {
    let apt = AptBackend::new();
    let pkgs = apt.parse_installed_output("bash\t5.2\tamd64\tGNU shell\tmore\nlonely\nzsh\t5.9\n");
    assert_eq!(pkgs.len(), 2);
    assert_eq!(pkgs[0].name, "bash");
    assert_eq!(pkgs[0].version, "5.2");
    assert_eq!(pkgs[0].arch, "amd64");
    assert_eq!(pkgs[0].description, "GNU shell\tmore");
    assert_eq!(pkgs[0].state, PackageState::Installed);
    assert_eq!(pkgs[1].name, "zsh");
    assert_eq!(pkgs[1].arch, "amd64");
    assert_eq!(pkgs[1].description, "");
}

#[test]
fn apt_upgradable_skips_header() {
    let apt = AptBackend::new();
    let out = "Listing...\nfirefox/stable 120.0 amd64 [upgradable from: 119.0]\nodd line\ngit/stable\n";
    let pkgs = apt.parse_upgradable_output(out);
    assert_eq!(pkgs.len(), 2);
    assert_eq!(pkgs[0].name, "firefox");
    assert_eq!(pkgs[0].version, "120.0");
    assert_eq!(pkgs[1].name, "git");
    assert_eq!(pkgs[1].version, "");
}

#[test]
fn apt_info_marks_installed_from_status() {
    let apt = AptBackend::new();
    let pkgs = vec![Package::new("curl", "1", BackendKind::Apt), Package::new("other", "2", BackendKind::Apt)];
    let p = apt.select_info(pkgs.clone(), Some("install ok installed")).unwrap();
    assert_eq!(p.name, "curl");
    assert_eq!(p.state, PackageState::Installed);
    let p = apt.select_info(pkgs.clone(), Some("deinstall ok config-files")).unwrap();
    assert_eq!(p.state, PackageState::Available);
    let p = apt.select_info(pkgs, None).unwrap();
    assert_eq!(p.state, PackageState::Available);
    assert!(apt.select_info(Vec::new(), Some("install ok installed")).is_none());
}

#[test]
fn dnf_sizes_with_units() {
    assert_eq!(parse_dnf_size("12 k"), 12 * 1024);
    assert_eq!(parse_dnf_size("1,024 KB"), 1024 * 1024);
    assert_eq!(parse_dnf_size("3 M"), 3 * 1024 * 1024);
    assert_eq!(parse_dnf_size("2 GB"), 2 * 1024 * 1024 * 1024);
    assert_eq!(parse_dnf_size("77"), 77);
    assert_eq!(parse_dnf_size("5 bytes"), 5);
    assert_eq!(parse_dnf_size("1.5 M"), 0);
    assert_eq!(parse_dnf_size("  "), 0);
    assert!(dnf_size_in_range("17179869183 G"));
    assert!(!dnf_size_in_range("17179869184 G"));
}

#[test]
fn dnf_info_reads_fields() {
    let dnf = DnfBackend::new();
    let out = "Name         : htop\nVersion      : 3.2.2\nRelease      : 1.fc39\nArchitecture : x86_64\nSize         : 412 k\nSummary      : Interactive process viewer\n";
    assert!(dnf.info_sizes_in_range(out));
    let p = dnf.parse_info_output(out).unwrap();
    assert_eq!(p.name, "htop");
    assert_eq!(p.version, "3.2.2");
    assert_eq!(p.arch, "x86_64");
    assert_eq!(p.size, 412 * 1024);
    assert_eq!(p.description, "Interactive process viewer");
    assert_eq!(p.backend, BackendKind::Dnf);
    assert!(dnf.parse_info_output("Version      : 1\n").is_none());
    assert!(!dnf.info_sizes_in_range("Size         : 99999999999999 G\n"));
}

#[test]
fn dnf_search_and_upgrades() {
    let dnf = DnfBackend::new();
    let pkgs = dnf.parse_search_output("htop.x86_64 : Interactive viewer\n==== Name Matched ====\n");
    assert_eq!(pkgs.len(), 1);
    assert_eq!(pkgs[0].name, "htop");
    assert_eq!(pkgs[0].description, "Interactive viewer");
    let pkgs = dnf.parse_upgradable_output("Available Upgrades\nkernel.x86_64   6.6.1-200.fc39   updates\nlonely\n");
    assert_eq!(pkgs.len(), 1);
    assert_eq!(pkgs[0].name, "kernel");
    assert_eq!(pkgs[0].version, "6.6.1-200.fc39");
    let pkgs = dnf.parse_installed_output("bash\t5.2-1.fc39\tx86_64\tThe shell\n");
    assert_eq!(pkgs[0].backend, BackendKind::Dnf);
    assert_eq!(pkgs[0].state, PackageState::Installed);
}

#[test]
fn flatpak_search_reads_columns() {
    let fp = FlatpakBackend::new();
    let out = "Application\tVersion\tDescription\norg.gimp.GIMP\t2.10\t Image editor \n\nonly.id\n";
    let pkgs = fp.parse_search_output(out);
    assert_eq!(pkgs.len(), 3);
    assert_eq!(pkgs[0].name, "org.gimp.GIMP");
    assert_eq!(pkgs[0].version, "2.10");
    assert_eq!(pkgs[0].description, "Image editor");
    assert_eq!(pkgs[1].name, "");
    assert_eq!(pkgs[2].name, "only.id");
    assert_eq!(pkgs[2].version, "");
}

#[test]
fn flatpak_info_defaults_to_query_name() {
    let fp = FlatpakBackend::new();
    let p = fp.parse_info_output("gimp", "     Version: 2.10.36\n Description: GNU Image Manipulation\n");
    assert_eq!(p.name, "gimp");
    assert_eq!(p.version, "2.10.36");
    assert_eq!(p.description, "GNU Image Manipulation");
    assert_eq!(p.state, PackageState::Installed);
    let p = fp.parse_info_output("gimp", "          ID: org.gimp.GIMP\n");
    assert_eq!(p.name, "org.gimp.GIMP");
}

#[test]
fn flatpak_listings_skip_empty_ids() {
    let fp = FlatpakBackend::new();
    let pkgs = fp.parse_installed_output("org.a.App\t1.0\tA app\n\tno id\n");
    assert_eq!(pkgs.len(), 1);
    assert_eq!(pkgs[0].state, PackageState::Installed);
    assert_eq!(pkgs[0].description, "A app");
    let pkgs = fp.parse_upgradable_output("org.a.App\t2.0\n\n");
    assert_eq!(pkgs.len(), 1);
    assert_eq!(pkgs[0].version, "2.0");
}
