//! The Flatpak backend's output parsers: `flatpak search`, `flatpak info`,
//! `flatpak list` and `flatpak remote-ls --updates`.
use vstd::prelude::*;
use crate::package::{BackendKind, Package, PackageModel, PackageState, PackageStateModel,
    fresh_package, packages_view};
use crate::text::{chars_of, split_lines, splitn, splitn_chars, strip_prefix, strip_prefix_chars,
    string_of, trim, trim_chars};
use crate::backend::lines::{collect_lines, drop_lines, output_lines, piece, piece_of};

verus! {

/// Parses what `flatpak` prints.
pub struct FlatpakBackend;

/// A line of `flatpak search` after the header: application, version and
/// description separated by tabs, each trimmed, the last two optional.
/// Every line makes a package.
pub open spec fn flatpak_search_line(l: Seq<char>) -> Option<PackageModel> {
    let parts = splitn(l, 3, '\t');
    Some(PackageModel {
        description: trim(piece(parts, 2)),
        ..fresh_package(trim(parts[0]), trim(piece(parts, 1)), BackendKind::Flatpak)
    })
}

/// A line of `flatpak list`: like a search line, but lines whose
/// application field is empty make no package, and the package is
/// installed.
pub open spec fn flatpak_installed_line(l: Seq<char>) -> Option<PackageModel> {
    let parts = splitn(l, 3, '\t');
    if parts[0].len() > 0 {
        Some(PackageModel {
            description: trim(piece(parts, 2)),
            state: PackageStateModel::Installed,
            ..fresh_package(trim(parts[0]), trim(piece(parts, 1)), BackendKind::Flatpak)
        })
    } else {
        None
    }
}

/// A line of `flatpak remote-ls --updates`: application and version
/// separated by a tab; lines whose application field is empty make no
/// package.
pub open spec fn flatpak_update_line(l: Seq<char>) -> Option<PackageModel> {
    let parts = splitn(l, 2, '\t');
    if parts[0].len() > 0 {
        Some(fresh_package(trim(parts[0]), trim(piece(parts, 1)), BackendKind::Flatpak))
    } else {
        None
    }
}

/// ID, version and description read from `flatpak info` output so far.
pub type FlatpakFields = (Seq<char>, Seq<char>, Seq<char>);

/// What one line of `flatpak info` output does: an `ID`, `Version` or
/// `Description` line sets that field to its trimmed value.
pub open spec fn flatpak_info_step(st: FlatpakFields, line: Seq<char>) -> FlatpakFields {
    match strip_prefix(line, "          ID: "@) {
        Some(v) => (trim(v), st.1, st.2),
        None => match strip_prefix(line, "     Version: "@) {
            Some(v) => (st.0, trim(v), st.2),
            None => match strip_prefix(line, " Description: "@) {
                Some(v) => (st.0, st.1, trim(v)),
                None => st,
            },
        },
    }
}

pub open spec fn flatpak_info_fold(start: FlatpakFields, lines: Seq<Seq<char>>) -> FlatpakFields
    decreases lines.len(),
{
    if lines.len() == 0 {
        start
    } else {
        flatpak_info_step(flatpak_info_fold(start, lines.drop_last()), lines.last())
    }
}

/// The installed application that `flatpak info` output describes; its
/// name is the queried name unless an `ID` line gives another.
pub open spec fn flatpak_info(query_name: Seq<char>, output: Seq<char>) -> PackageModel {
    let (name, version, description) = flatpak_info_fold((query_name, seq![], seq![]), split_lines(output));
    PackageModel {
        description: description,
        state: PackageStateModel::Installed,
        ..fresh_package(name, version, BackendKind::Flatpak)
    }
}

/// The package that a line split into `parts` describes.
fn package_of_parts(parts: &Vec<Vec<char>>) -> (p: Package)
    requires
        parts@.len() >= 1,
    ensures
        p@ == (PackageModel {
            description: trim(if parts@.len() > 2 { parts@[2]@ } else { seq![] }),
            ..fresh_package(
                trim(parts@[0]@),
                trim(if parts@.len() > 1 { parts@[1]@ } else { seq![] }),
                BackendKind::Flatpak,
            )
        }),
{
    let name = string_of(&trim_chars(&parts[0]));
    let version = string_of(&trim_chars(&piece_of(parts, 1)));
    let mut p = Package::new(name.as_str(), version.as_str(), BackendKind::Flatpak);
    p.description = string_of(&trim_chars(&piece_of(parts, 2)));
    p
}

impl FlatpakBackend {
    pub fn new() -> (b: FlatpakBackend) {
        FlatpakBackend
    }

    /// The applications that `flatpak search` output lists after its
    /// header line.
    pub fn parse_search_output(&self, output: &str) -> (r: Vec<Package>)
        ensures
            packages_view(r@) == collect_lines(drop_lines(split_lines(output@), 1), |l: Seq<char>| flatpak_search_line(l)),
    {
        let lines = output_lines(output, 1);
        let ghost ls = drop_lines(split_lines(output@), 1);
        let ghost f = |l: Seq<char>| flatpak_search_line(l);
        let mut out: Vec<Package> = Vec::new();
        let mut i: usize = 0;
        while i < lines.len()
            invariant
                i <= lines@.len(),
                lines@.len() == ls.len(),
                forall|k: int| 0 <= k < lines@.len() ==> (#[trigger] lines@[k])@ == ls[k],
                packages_view(out@) == collect_lines(ls.take(i as int), f),
                f == (|l: Seq<char>| flatpak_search_line(l)),
            decreases lines.len() - i,
        {
            assert(ls.take(i + 1).drop_last() =~= ls.take(i as int));
            assert(ls.take(i + 1).last() == lines@[i as int]@);
            let ghost prev = collect_lines(ls.take(i as int), f);
            assert(f(lines@[i as int]@) == flatpak_search_line(lines@[i as int]@));
            let parts = splitn_chars(&lines[i], 3, '\t');
            let p = package_of_parts(&parts);
            assert(flatpak_search_line(lines@[i as int]@) == Some(p@));
            out.push(p);
            assert(packages_view(out@) =~= prev.push(p@));
            assert(collect_lines(ls.take(i + 1), f) == prev.push(p@));
            i = i + 1;
        }
        assert(ls.take(ls.len() as int) =~= ls);
        out
    }

    /// The installed application that `flatpak info` output describes,
    /// for a query by `query_name`.
    pub fn parse_info_output(&self, query_name: &str, output: &str) -> (r: Package)
        ensures
            r@ == flatpak_info(query_name@, output@),
    {
        let lines = output_lines(output, 0);
        let ghost ls = split_lines(output@);
        let ghost start: FlatpakFields = (query_name@, seq![], seq![]);
        assert(drop_lines(ls, 0) =~= ls);
        let mut name: Vec<char> = chars_of(query_name);
        let mut version: Vec<char> = Vec::new();
        let mut description: Vec<char> = Vec::new();
        let p_id = chars_of("          ID: ");
        let p_version = chars_of("     Version: ");
        let p_description = chars_of(" Description: ");
        let mut i: usize = 0;
        while i < lines.len()
            invariant
                i <= lines@.len(),
                lines@.len() == ls.len(),
                forall|k: int| 0 <= k < lines@.len() ==> (#[trigger] lines@[k])@ == ls[k],
                (name@, version@, description@) == flatpak_info_fold(start, ls.take(i as int)),
                p_id@ == "          ID: "@,
                p_version@ == "     Version: "@,
                p_description@ == " Description: "@,
            decreases lines.len() - i,
        {
            let line = &lines[i];
            assert(ls.take(i + 1).drop_last() =~= ls.take(i as int));
            assert(ls.take(i + 1).last() == line@);
            if let Some(v) = strip_prefix_chars(line, &p_id) {
                name = trim_chars(&v);
            } else if let Some(v) = strip_prefix_chars(line, &p_version) {
                version = trim_chars(&v);
            } else if let Some(v) = strip_prefix_chars(line, &p_description) {
                description = trim_chars(&v);
            }
            i = i + 1;
        }
        assert(ls.take(ls.len() as int) =~= ls);
        let n = string_of(&name);
        let ver = string_of(&version);
        let mut p = Package::new(n.as_str(), ver.as_str(), BackendKind::Flatpak);
        p.description = string_of(&description);
        p.state = PackageState::Installed;
        p
    }

    /// The installed applications that `flatpak list` output lists.
    pub fn parse_installed_output(&self, output: &str) -> (r: Vec<Package>)
        ensures
            packages_view(r@) == collect_lines(split_lines(output@), |l: Seq<char>| flatpak_installed_line(l)),
    {
        let lines = output_lines(output, 0);
        let ghost ls = split_lines(output@);
        let ghost f = |l: Seq<char>| flatpak_installed_line(l);
        assert(drop_lines(ls, 0) =~= ls);
        let mut out: Vec<Package> = Vec::new();
        let mut i: usize = 0;
        while i < lines.len()
            invariant
                i <= lines@.len(),
                lines@.len() == ls.len(),
                forall|k: int| 0 <= k < lines@.len() ==> (#[trigger] lines@[k])@ == ls[k],
                packages_view(out@) == collect_lines(ls.take(i as int), f),
                f == (|l: Seq<char>| flatpak_installed_line(l)),
            decreases lines.len() - i,
        {
            assert(ls.take(i + 1).drop_last() =~= ls.take(i as int));
            assert(ls.take(i + 1).last() == lines@[i as int]@);
            let ghost prev = collect_lines(ls.take(i as int), f);
            assert(f(lines@[i as int]@) == flatpak_installed_line(lines@[i as int]@));
            let parts = splitn_chars(&lines[i], 3, '\t');
            if parts[0].len() > 0 {
                let mut p = package_of_parts(&parts);
                p.state = PackageState::Installed;
                assert(flatpak_installed_line(lines@[i as int]@) == Some(p@));
                out.push(p);
                assert(packages_view(out@) =~= prev.push(p@));
                assert(collect_lines(ls.take(i + 1), f) == prev.push(p@));
            } else {
                assert(collect_lines(ls.take(i + 1), f) == prev);
            }
            i = i + 1;
        }
        assert(ls.take(ls.len() as int) =~= ls);
        out
    }

    /// The applications that `flatpak remote-ls --updates` lists, by name
    /// and new version.
    pub fn parse_upgradable_output(&self, output: &str) -> (r: Vec<Package>)
        ensures
            packages_view(r@) == collect_lines(split_lines(output@), |l: Seq<char>| flatpak_update_line(l)),
    {
        let lines = output_lines(output, 0);
        let ghost ls = split_lines(output@);
        let ghost f = |l: Seq<char>| flatpak_update_line(l);
        assert(drop_lines(ls, 0) =~= ls);
        let mut out: Vec<Package> = Vec::new();
        let mut i: usize = 0;
        while i < lines.len()
            invariant
                i <= lines@.len(),
                lines@.len() == ls.len(),
                forall|k: int| 0 <= k < lines@.len() ==> (#[trigger] lines@[k])@ == ls[k],
                packages_view(out@) == collect_lines(ls.take(i as int), f),
                f == (|l: Seq<char>| flatpak_update_line(l)),
            decreases lines.len() - i,
        {
            assert(ls.take(i + 1).drop_last() =~= ls.take(i as int));
            assert(ls.take(i + 1).last() == lines@[i as int]@);
            let ghost prev = collect_lines(ls.take(i as int), f);
            assert(f(lines@[i as int]@) == flatpak_update_line(lines@[i as int]@));
            let parts = splitn_chars(&lines[i], 2, '\t');
            if parts[0].len() > 0 {
                let name = string_of(&trim_chars(&parts[0]));
                let version = string_of(&trim_chars(&piece_of(&parts, 1)));
                let p = Package::new(name.as_str(), version.as_str(), BackendKind::Flatpak);
                assert(flatpak_update_line(lines@[i as int]@) == Some(p@));
                out.push(p);
                assert(packages_view(out@) =~= prev.push(p@));
                assert(collect_lines(ls.take(i + 1), f) == prev.push(p@));
            } else {
                assert(collect_lines(ls.take(i + 1), f) == prev);
            }
            i = i + 1;
        }
        assert(ls.take(ls.len() as int) =~= ls);
        out
    }
}

} // verus!
