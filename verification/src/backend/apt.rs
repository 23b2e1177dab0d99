//! The APT backend's output parsers: `apt-cache show`, `apt-cache search`,
//! `dpkg-query` and `apt list --upgradable`.
use vstd::prelude::*;
use crate::package::{BackendKind, Package, PackageModel, PackageState, PackageStateModel,
    fresh_package, packages_view};
use crate::text::{chars_of, contains, contains_chars, parse_u64, parse_u64_chars, split_lines,
    split_once, split_once_chars, splitn, splitn_chars, strip_prefix, strip_prefix_chars, string_of,
    before_char, before_char_chars, trim, trim_chars};
use crate::backend::lines::{collect_lines, drop_lines, opt_package, output_lines,
    installed_line, parse_installed_listing};

verus! {

/// Parses what `apt-cache`, `dpkg-query` and `apt` print.
pub struct AptBackend;

// ---------------------------------------------------------------------
// `apt-cache show`: paragraphs of `Field: value` lines
// ---------------------------------------------------------------------

/// The packages completed so far and the one being read.
pub type DpkgState = (Seq<PackageModel>, Option<PackageModel>);

pub open spec fn or_zero(o: Option<u64>) -> nat {
    match o {
        Some(n) => n as nat,
        None => 0,
    }
}

/// The installed size in bytes that an `Installed-Size` value (KiB) gives.
pub open spec fn installed_bytes(v: Seq<char>) -> nat {
    or_zero(parse_u64(trim(v))) * 1024
}

/// Sets `f` on the package being read, if any.
pub open spec fn on_current(cur: Option<PackageModel>, f: spec_fn(PackageModel) -> PackageModel) -> Option<PackageModel> {
    match cur {
        Some(p) => Some(f(p)),
        None => None,
    }
}

/// What one line of `apt-cache show` output does to the state: a
/// `Package:` line completes the package being read and starts a new one;
/// `Version:`, `Description:`, `Installed-Size:`, `Section:`, `Homepage:`
/// and `Architecture:` lines set that field of the package being read;
/// other lines change nothing. Values are trimmed.
pub open spec fn dpkg_step(st: DpkgState, line: Seq<char>) -> DpkgState {
    let done = st.0;
    let cur = st.1;
    match strip_prefix(line, "Package: "@) {
        Some(v) => (
            match cur {
                Some(p) => done.push(p),
                None => done,
            },
            Some(fresh_package(trim(v), seq![], BackendKind::Apt)),
        ),
        None => match strip_prefix(line, "Version: "@) {
            Some(v) => (done, on_current(cur, |p: PackageModel| PackageModel { version: trim(v), ..p })),
            None => match strip_prefix(line, "Description: "@) {
                Some(v) => (done, on_current(cur, |p: PackageModel| PackageModel { description: trim(v), ..p })),
                None => match strip_prefix(line, "Installed-Size: "@) {
                    Some(v) => (done, on_current(cur, |p: PackageModel| PackageModel { installed_size: installed_bytes(v) as u64, ..p })),
                    None => match strip_prefix(line, "Section: "@) {
                        Some(v) => (done, on_current(cur, |p: PackageModel| PackageModel { section: Some(trim(v)), ..p })),
                        None => match strip_prefix(line, "Homepage: "@) {
                            Some(v) => (done, on_current(cur, |p: PackageModel| PackageModel { homepage: Some(trim(v)), ..p })),
                            None => match strip_prefix(line, "Architecture: "@) {
                                Some(v) => (done, on_current(cur, |p: PackageModel| PackageModel { arch: trim(v), ..p })),
                                None => st,
                            },
                        },
                    },
                },
            },
        },
    }
}

/// The state after reading `lines`.
pub open spec fn dpkg_fold(lines: Seq<Seq<char>>) -> DpkgState
    decreases lines.len(),
{
    if lines.len() == 0 {
        (seq![], None)
    } else {
        dpkg_step(dpkg_fold(lines.drop_last()), lines.last())
    }
}

/// Reading `line` in state `st` sets an installed size too large for a
/// `u64` (the multiplication by 1024 overflows).
pub open spec fn dpkg_step_overflows(st: DpkgState, line: Seq<char>) -> bool {
    &&& st.1 is Some
    &&& strip_prefix(line, "Package: "@) is None
    &&& strip_prefix(line, "Version: "@) is None
    &&& strip_prefix(line, "Description: "@) is None
    &&& match strip_prefix(line, "Installed-Size: "@) {
        Some(v) => installed_bytes(v) > u64::MAX,
        None => false,
    }
}

/// No line of `lines` sets an installed size too large for a `u64`.
pub open spec fn dpkg_sizes_fit(lines: Seq<Seq<char>>) -> bool {
    forall|k: int| 0 <= k < lines.len() ==> !dpkg_step_overflows(dpkg_fold(#[trigger] lines.take(k)), lines[k])
}

/// The packages that `apt-cache show` output describes, in order.
pub open spec fn dpkg_packages(output: Seq<char>) -> Seq<PackageModel> {
    let st = dpkg_fold(split_lines(output));
    match st.1 {
        Some(p) => st.0.push(p),
        None => st.0,
    }
}

// ---------------------------------------------------------------------
// One package per line
// ---------------------------------------------------------------------

/// A line of `apt-cache search --names-only`: `name - description`.
pub open spec fn apt_search_line(l: Seq<char>) -> Option<PackageModel> {
    match split_once(l, " - "@) {
        Some((name, desc)) => Some(PackageModel {
            description: trim(desc),
            ..fresh_package(trim(name), seq![], BackendKind::Apt)
        }),
        None => None,
    }
}

/// A line of `apt list --upgradable`: `name/repo version arch [...]`.
pub open spec fn apt_upgradable_line(l: Seq<char>) -> Option<PackageModel> {
    let parts = splitn(l, 2, '/');
    if parts.len() == 2 {
        let rest = splitn(parts[1], 2, ' ');
        let version = if rest.len() > 1 {
            before_char(rest[1], ' ')
        } else {
            seq![]
        };
        Some(fresh_package(trim(parts[0]), version, BackendKind::Apt))
    } else {
        None
    }
}

/// `dpkg-query` status output that marks a package as installed.
pub open spec fn status_says_installed(status: Option<Seq<char>>) -> bool {
    match status {
        Some(s) => contains(s, "install ok installed"@),
        None => false,
    }
}

/// Applies one line of `apt-cache show` output: pushes the package that a
/// `Package:` line completes onto `done` and returns the package being read.
fn dpkg_read_line(done: &mut Vec<Package>, cur: Option<Package>, line: &Vec<char>) -> (r: Option<Package>)
    requires
        !dpkg_step_overflows((packages_view(old(done)@), opt_package(cur)), line@),
    ensures
        (packages_view(final(done)@), opt_package(r)) == dpkg_step((packages_view(old(done)@), opt_package(cur)), line@),
{
    let ghost st = (packages_view(done@), opt_package(cur));
    if let Some(v) = strip_prefix_chars(line, &chars_of("Package: ")) {
        let name = string_of(&trim_chars(&v));
        proof { reveal_strlit(""); }
        let fresh = Package::new(name.as_str(), "", BackendKind::Apt);
        match cur {
            Some(p) => {
                done.push(p);
                assert(packages_view(done@) =~= st.0.push(p@));
            },
            None => {},
        }
        return Some(fresh);
    }
    let mut p = match cur {
        Some(p) => p,
        None => {
            return None;
        },
    };
    if let Some(v) = strip_prefix_chars(line, &chars_of("Version: ")) {
        p.version = string_of(&trim_chars(&v));
    } else if let Some(v) = strip_prefix_chars(line, &chars_of("Description: ")) {
        p.description = string_of(&trim_chars(&v));
    } else if let Some(v) = strip_prefix_chars(line, &chars_of("Installed-Size: ")) {
        let kib = match parse_u64_chars(&trim_chars(&v)) {
            Some(n) => n,
            None => 0,
        };
        assert(kib * 1024 <= u64::MAX);
        p.installed_size = kib * 1024;
    } else if let Some(v) = strip_prefix_chars(line, &chars_of("Section: ")) {
        p.section = Some(string_of(&trim_chars(&v)));
    } else if let Some(v) = strip_prefix_chars(line, &chars_of("Homepage: ")) {
        p.homepage = Some(string_of(&trim_chars(&v)));
    } else if let Some(v) = strip_prefix_chars(line, &chars_of("Architecture: ")) {
        p.arch = string_of(&trim_chars(&v));
    }
    Some(p)
}

impl AptBackend {
    pub fn new() -> (b: AptBackend) {
        AptBackend
    }

    /// The packages that `apt-cache show` output describes, in order.
    pub fn parse_dpkg_output(&self, output: &str) -> (r: Vec<Package>)
        requires
            dpkg_sizes_fit(split_lines(output@)),
        ensures
            packages_view(r@) == dpkg_packages(output@),
    {
        let lines = output_lines(output, 0);
        let ghost ls = split_lines(output@);
        assert(drop_lines(ls, 0) =~= ls);
        let mut packages: Vec<Package> = Vec::new();
        let mut current: Option<Package> = None;
        let mut i: usize = 0;
        while i < lines.len()
            invariant
                i <= lines@.len(),
                lines@.len() == ls.len(),
                forall|k: int| 0 <= k < lines@.len() ==> (#[trigger] lines@[k])@ == ls[k],
                dpkg_sizes_fit(ls),
                (packages_view(packages@), opt_package(current)) == dpkg_fold(ls.take(i as int)),
            decreases lines.len() - i,
        {
            assert(ls.take(i + 1).drop_last() =~= ls.take(i as int));
            assert(ls.take(i + 1).last() == lines@[i as int]@);
            assert(!dpkg_step_overflows(dpkg_fold(ls.take(i as int)), ls[i as int]));
            current = dpkg_read_line(&mut packages, current, &lines[i]);
            i = i + 1;
        }
        assert(ls.take(ls.len() as int) =~= ls);
        match current {
            Some(p) => {
                packages.push(p);
                assert(packages_view(packages@) =~= packages_view(packages@.drop_last()).push(p@));
            },
            None => {},
        }
        packages
    }

    /// Whether no `Installed-Size` line of `apt-cache show` output gives
    /// a size in bytes too large for a `u64`, so that
    /// `parse_dpkg_output` may read it.
    pub fn dpkg_sizes_in_range(&self, output: &str) -> (b: bool)
        ensures
            b == dpkg_sizes_fit(split_lines(output@)),
    {
        let lines = output_lines(output, 0);
        let ghost ls = split_lines(output@);
        assert(drop_lines(ls, 0) =~= ls);
        let p_package = chars_of("Package: ");
        let p_version = chars_of("Version: ");
        let p_description = chars_of("Description: ");
        let p_size = chars_of("Installed-Size: ");
        let mut reading = false;
        let mut i: usize = 0;
        while i < lines.len()
            invariant
                i <= lines@.len(),
                lines@.len() == ls.len(),
                forall|k: int| 0 <= k < lines@.len() ==> (#[trigger] lines@[k])@ == ls[k],
                ls == split_lines(output@),
                reading == dpkg_fold(ls.take(i as int)).1 is Some,
                forall|k: int| 0 <= k < i ==> !dpkg_step_overflows(dpkg_fold(#[trigger] ls.take(k)), ls[k]),
                p_package@ == "Package: "@,
                p_version@ == "Version: "@,
                p_description@ == "Description: "@,
                p_size@ == "Installed-Size: "@,
            decreases lines.len() - i,
        {
            let line = &lines[i];
            assert(ls.take(i + 1).drop_last() =~= ls.take(i as int));
            assert(ls.take(i + 1).last() == line@);
            assert(ls[i as int] == line@);
            if let Some(_) = strip_prefix_chars(line, &p_package) {
                reading = true;
            } else if let Some(_) = strip_prefix_chars(line, &p_version) {
            } else if let Some(_) = strip_prefix_chars(line, &p_description) {
            } else if let Some(v) = strip_prefix_chars(line, &p_size) {
                if reading {
                    let kib = match parse_u64_chars(&trim_chars(&v)) {
                        Some(n) => n,
                        None => 0,
                    };
                    if kib > u64::MAX / 1024 {
                        assert(dpkg_step_overflows(dpkg_fold(ls.take(i as int)), ls[i as int]));
                        assert(!dpkg_sizes_fit(ls));
                        return false;
                    }
                }
            }
            assert(!dpkg_step_overflows(dpkg_fold(ls.take(i as int)), ls[i as int]));
            i = i + 1;
        }
        true
    }

    /// The packages that `apt-cache search --names-only` output lists:
    /// one per `name - description` line, both parts trimmed.
    pub fn parse_search_output(&self, output: &str) -> (r: Vec<Package>)
        ensures
            packages_view(r@) == collect_lines(split_lines(output@), |l: Seq<char>| apt_search_line(l)),
    {
        let lines = output_lines(output, 0);
        let ghost ls = split_lines(output@);
        let ghost f = |l: Seq<char>| apt_search_line(l);
        assert(drop_lines(ls, 0) =~= ls);
        let sep = chars_of(" - ");
        let mut out: Vec<Package> = Vec::new();
        let mut i: usize = 0;
        while i < lines.len()
            invariant
                i <= lines@.len(),
                lines@.len() == ls.len(),
                forall|k: int| 0 <= k < lines@.len() ==> (#[trigger] lines@[k])@ == ls[k],
                packages_view(out@) == collect_lines(ls.take(i as int), f),
                f == (|l: Seq<char>| apt_search_line(l)),
                sep@ == " - "@,
            decreases lines.len() - i,
        {
            assert(ls.take(i + 1).drop_last() =~= ls.take(i as int));
            assert(ls.take(i + 1).last() == lines@[i as int]@);
            let ghost prev = collect_lines(ls.take(i as int), f);
            assert(f(lines@[i as int]@) == apt_search_line(lines@[i as int]@));
            match split_once_chars(&lines[i], &sep) {
                Some((name, desc)) => {
                    let n = string_of(&trim_chars(&name));
                    proof { reveal_strlit(""); }
                    let mut p = Package::new(n.as_str(), "", BackendKind::Apt);
                    p.description = string_of(&trim_chars(&desc));
                    assert(apt_search_line(lines@[i as int]@) == Some(p@));
                    out.push(p);
                    assert(packages_view(out@) =~= prev.push(p@));
                    assert(collect_lines(ls.take(i + 1), f) == prev.push(p@));
                },
                None => {
                    assert(collect_lines(ls.take(i + 1), f) == prev);
                },
            }
            i = i + 1;
        }
        assert(ls.take(ls.len() as int) =~= ls);
        out
    }

    /// The packages that `dpkg-query -W` lists: name, version,
    /// architecture and description separated by tabs, all installed.
    pub fn parse_installed_output(&self, output: &str) -> (r: Vec<Package>)
        ensures
            packages_view(r@) == collect_lines(split_lines(output@), |l: Seq<char>| installed_line(l, BackendKind::Apt)),
    {
        parse_installed_listing(output, BackendKind::Apt)
    }

    /// The packages that `apt list --upgradable` lists after its header
    /// line, by name and new version.
    pub fn parse_upgradable_output(&self, output: &str) -> (r: Vec<Package>)
        ensures
            packages_view(r@) == collect_lines(drop_lines(split_lines(output@), 1), |l: Seq<char>| apt_upgradable_line(l)),
    {
        let lines = output_lines(output, 1);
        let ghost ls = drop_lines(split_lines(output@), 1);
        let ghost f = |l: Seq<char>| apt_upgradable_line(l);
        let mut out: Vec<Package> = Vec::new();
        let mut i: usize = 0;
        while i < lines.len()
            invariant
                i <= lines@.len(),
                lines@.len() == ls.len(),
                forall|k: int| 0 <= k < lines@.len() ==> (#[trigger] lines@[k])@ == ls[k],
                packages_view(out@) == collect_lines(ls.take(i as int), f),
                f == (|l: Seq<char>| apt_upgradable_line(l)),
            decreases lines.len() - i,
        {
            assert(ls.take(i + 1).drop_last() =~= ls.take(i as int));
            assert(ls.take(i + 1).last() == lines@[i as int]@);
            let ghost prev = collect_lines(ls.take(i as int), f);
            assert(f(lines@[i as int]@) == apt_upgradable_line(lines@[i as int]@));
            let parts = splitn_chars(&lines[i], 2, '/');
            if parts.len() == 2 {
                let name = string_of(&trim_chars(&parts[0]));
                let rest = splitn_chars(&parts[1], 2, ' ');
                let version = if rest.len() > 1 {
                    string_of(&before_char_chars(&rest[1], ' '))
                } else {
                    String::new()
                };
                let p = Package::new(name.as_str(), version.as_str(), BackendKind::Apt);
                out.push(p);
                assert(packages_view(out@) =~= prev.push(p@));
                assert(collect_lines(ls.take(i + 1), f) == prev.push(p@));
            } else {
                assert(collect_lines(ls.take(i + 1), f) == prev);
            }
            i = i + 1;
        }
        assert(ls.take(ls.len() as int) =~= ls);
        out
    }

    /// What `apt-cache show` and `dpkg-query` tell of a package: the first
    /// package of the `show` output, marked installed when the status
    /// output holds `install ok installed`; `None` when there is none.
    pub fn select_info(&self, packages: Vec<Package>, status: Option<&str>) -> (r: Option<Package>)
        ensures
            match r {
                Some(p) => packages@.len() > 0 && p@ == (if status_says_installed(
                    match status { Some(s) => Some(s@), None => None },
                ) {
                    PackageModel { state: PackageStateModel::Installed, ..packages@[0]@ }
                } else {
                    packages@[0]@
                }),
                None => packages@.len() == 0,
            },
    {
        if packages.len() == 0 {
            return None;
        }
        let mut packages = packages;
        let mut first = packages.remove(0);
        let installed = match status {
            Some(s) => {
                let v = chars_of(s);
                let marker = chars_of("install ok installed");
                contains_chars(&v, &marker)
            },
            None => false,
        };
        if installed {
            first.state = PackageState::Installed;
        }
        Some(first)
    }
}

} // verus!
