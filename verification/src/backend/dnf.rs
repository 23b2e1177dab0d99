//! The DNF backend's output parsers: `dnf info`, `dnf search`, `rpm -qa`
//! and `dnf list --upgrades`.
use vstd::prelude::*;
use crate::package::{BackendKind, Package, PackageModel, fresh_package, packages_view};
use crate::text::{chars_of, parse_u64, parse_u64_chars, same_chars, split_lines, split_once,
    split_once_chars, strip_prefix, strip_prefix_chars, string_of, before_char, before_char_chars,
    trim, trim_chars, without_char, without_char_chars, words, words_of};
use crate::backend::lines::{collect_lines, drop_lines, output_lines, installed_line,
    parse_installed_listing};
use crate::backend::apt::or_zero;

verus! {

/// Parses what `dnf` and `rpm` print.
pub struct DnfBackend;

// ---------------------------------------------------------------------
// Sizes such as `1.5 M` or `12 k`
// ---------------------------------------------------------------------

/// The number and the unit of a size: split at the first space; with no
/// space the whole text is the number and the unit is empty.
pub open spec fn size_parts(s: Seq<char>) -> (Seq<char>, Seq<char>) {
    match split_once(s, " "@) {
        Some(parts) => parts,
        None => (s, seq![]),
    }
}

/// What a size unit multiplies by: `k`, `K`, `kB`, `KB` 1024; `M`, `MB`
/// 1024²; `G`, `GB` 1024³; anything else 1.
pub open spec fn unit_factor(unit: Seq<char>) -> nat {
    if unit == "k"@ || unit == "K"@ || unit == "kB"@ || unit == "KB"@ {
        1024
    } else if unit == "M"@ || unit == "MB"@ {
        1024 * 1024
    } else if unit == "G"@ || unit == "GB"@ {
        1024 * 1024 * 1024
    } else {
        1
    }
}

/// The number of bytes that a `dnf` size denotes: the number, with its
/// commas removed, read as a `u64` (0 when it is not one), times the
/// factor of the trimmed unit.
pub open spec fn dnf_size(s: Seq<char>) -> nat {
    let (num, unit) = size_parts(s);
    or_zero(parse_u64(without_char(num, ','))) * unit_factor(trim(unit))
}

/// The number and the unit factor of a `dnf` size.
fn size_terms(s: &str) -> (r: (u64, u64))
    ensures
        r.0 == or_zero(parse_u64(without_char(size_parts(s@).0, ','))),
        r.1 == unit_factor(trim(size_parts(s@).1)),
        r.1 > 0,
        dnf_size(s@) == r.0 * r.1,
{
    let v = chars_of(s);
    let (num, unit) = match split_once_chars(&v, &chars_of(" ")) {
        Some((a, b)) => (a, b),
        None => (v.clone(), Vec::new()),
    };
    assert((num@, unit@) == size_parts(s@));
    let base: u64 = match parse_u64_chars(&without_char_chars(&num, ',')) {
        Some(n) => n,
        None => 0,
    };
    let u = trim_chars(&unit);
    let factor: u64 = if same_chars(&u, &chars_of("k")) || same_chars(&u, &chars_of("K"))
        || same_chars(&u, &chars_of("kB")) || same_chars(&u, &chars_of("KB")) {
        1024
    } else if same_chars(&u, &chars_of("M")) || same_chars(&u, &chars_of("MB")) {
        1024 * 1024
    } else if same_chars(&u, &chars_of("G")) || same_chars(&u, &chars_of("GB")) {
        1024 * 1024 * 1024
    } else {
        1
    };
    (base, factor)
}

/// The number of bytes that a `dnf` size such as `12 k` denotes.
pub fn parse_dnf_size(s: &str) -> (r: u64)
    requires
        dnf_size(s@) <= u64::MAX,
    ensures
        r == dnf_size(s@),
{
    let (base, factor) = size_terms(s);
    base * factor
}

/// Whether the size `s` denotes fits in a `u64`, so that
/// `parse_dnf_size` may read it.
pub fn dnf_size_in_range(s: &str) -> (b: bool)
    ensures
        b == (dnf_size(s@) <= u64::MAX),
{
    let (base, factor) = size_terms(s);
    let b = base <= u64::MAX / factor;
    assert(b == (base * factor <= u64::MAX)) by (nonlinear_arith)
        requires
            factor > 0,
            b == (base <= u64::MAX / factor),
    ;
    b
}

// ---------------------------------------------------------------------
// `dnf info`: `Field        : value` lines
// ---------------------------------------------------------------------

/// Name, version, architecture, summary and size read so far.
pub type InfoFields = (Seq<char>, Seq<char>, Seq<char>, Seq<char>, nat);

/// What one line of `dnf info` output does: a `Name`, `Version`,
/// `Architecture`, `Summary` or `Size` line sets that field to its
/// trimmed value (the size read by `dnf_size`); other lines change nothing.
/// A later line for a field overrides an earlier one.
pub open spec fn info_step(st: InfoFields, line: Seq<char>) -> InfoFields {
    match strip_prefix(line, "Name         : "@) {
        Some(v) => (trim(v), st.1, st.2, st.3, st.4),
        None => match strip_prefix(line, "Version      : "@) {
            Some(v) => (st.0, trim(v), st.2, st.3, st.4),
            None => match strip_prefix(line, "Architecture : "@) {
                Some(v) => (st.0, st.1, trim(v), st.3, st.4),
                None => match strip_prefix(line, "Summary      : "@) {
                    Some(v) => (st.0, st.1, st.2, trim(v), st.4),
                    None => match strip_prefix(line, "Size         : "@) {
                        Some(v) => (st.0, st.1, st.2, st.3, dnf_size(trim(v))),
                        None => st,
                    },
                },
            },
        },
    }
}

pub open spec fn info_fold(lines: Seq<Seq<char>>) -> InfoFields
    decreases lines.len(),
{
    if lines.len() == 0 {
        (seq![], seq![], seq![], seq![], 0)
    } else {
        info_step(info_fold(lines.drop_last()), lines.last())
    }
}

/// Every `Size` line of `lines` gives a size that fits in a `u64`.
pub open spec fn info_sizes_fit(lines: Seq<Seq<char>>) -> bool {
    forall|k: int| 0 <= k < lines.len() ==> match strip_prefix(#[trigger] lines[k], "Size         : "@) {
        Some(v) => dnf_size(trim(v)) <= u64::MAX,
        None => true,
    }
}

/// The package that `dnf info` output describes: `None` when no `Name`
/// line gives a non-empty name.
pub open spec fn dnf_info(output: Seq<char>) -> Option<PackageModel> {
    let (name, version, arch, summary, size) = info_fold(split_lines(output));
    if name.len() == 0 {
        None
    } else {
        Some(PackageModel {
            arch: arch,
            description: summary,
            size: size as u64,
            ..fresh_package(name, version, BackendKind::Dnf)
        })
    }
}

// ---------------------------------------------------------------------
// One package per line
// ---------------------------------------------------------------------

/// A line of `dnf search`: `name.arch : summary`. The name is what comes
/// before the first dot, trimmed.
pub open spec fn dnf_search_line(l: Seq<char>) -> Option<PackageModel> {
    match split_once(l, " : "@) {
        Some((name_arch, desc)) => Some(PackageModel {
            description: trim(desc),
            ..fresh_package(trim(before_char(name_arch, '.')), seq![], BackendKind::Dnf)
        }),
        None => None,
    }
}

/// A line of `dnf list --upgrades`: `name.arch version repo`, split at
/// whitespace; lines with fewer than two words make no package.
pub open spec fn dnf_upgradable_line(l: Seq<char>) -> Option<PackageModel> {
    let w = words(l);
    if w.len() >= 2 {
        Some(fresh_package(before_char(w[0], '.'), w[1], BackendKind::Dnf))
    } else {
        None
    }
}

impl DnfBackend {
    pub fn new() -> (b: DnfBackend) {
        DnfBackend
    }

    /// The package that `dnf info` output describes, if it names one.
    pub fn parse_info_output(&self, output: &str) -> (r: Option<Package>)
        requires
            info_sizes_fit(split_lines(output@)),
        ensures
            match r {
                Some(p) => dnf_info(output@) == Some(p@),
                None => dnf_info(output@) is None,
            },
    {
        let lines = output_lines(output, 0);
        let ghost ls = split_lines(output@);
        assert(drop_lines(ls, 0) =~= ls);
        let mut name: Vec<char> = Vec::new();
        let mut version: Vec<char> = Vec::new();
        let mut arch: Vec<char> = Vec::new();
        let mut summary: Vec<char> = Vec::new();
        let mut size: u64 = 0;
        let p_name = chars_of("Name         : ");
        let p_version = chars_of("Version      : ");
        let p_arch = chars_of("Architecture : ");
        let p_summary = chars_of("Summary      : ");
        let p_size = chars_of("Size         : ");
        let mut i: usize = 0;
        while i < lines.len()
            invariant
                i <= lines@.len(),
                lines@.len() == ls.len(),
                forall|k: int| 0 <= k < lines@.len() ==> (#[trigger] lines@[k])@ == ls[k],
                info_sizes_fit(ls),
                (name@, version@, arch@, summary@, size as nat) == info_fold(ls.take(i as int)),
                p_name@ == "Name         : "@,
                p_version@ == "Version      : "@,
                p_arch@ == "Architecture : "@,
                p_summary@ == "Summary      : "@,
                p_size@ == "Size         : "@,
            decreases lines.len() - i,
        {
            let line = &lines[i];
            assert(ls.take(i + 1).drop_last() =~= ls.take(i as int));
            assert(ls.take(i + 1).last() == line@);
            if let Some(v) = strip_prefix_chars(line, &p_name) {
                name = trim_chars(&v);
            } else if let Some(v) = strip_prefix_chars(line, &p_version) {
                version = trim_chars(&v);
            } else if let Some(v) = strip_prefix_chars(line, &p_arch) {
                arch = trim_chars(&v);
            } else if let Some(v) = strip_prefix_chars(line, &p_summary) {
                summary = trim_chars(&v);
            } else if let Some(v) = strip_prefix_chars(line, &p_size) {
                assert(ls[i as int] == line@);
                let t = string_of(&trim_chars(&v));
                size = parse_dnf_size(t.as_str());
            }
            i = i + 1;
        }
        assert(ls.take(ls.len() as int) =~= ls);
        if name.len() == 0 {
            return None;
        }
        let n = string_of(&name);
        let ver = string_of(&version);
        let mut p = Package::new(n.as_str(), ver.as_str(), BackendKind::Dnf);
        p.arch = string_of(&arch);
        p.description = string_of(&summary);
        p.size = size;
        Some(p)
    }

    /// Whether every `Size` line of `dnf info` output gives a size that
    /// fits in a `u64`, so that `parse_info_output` may read it.
    pub fn info_sizes_in_range(&self, output: &str) -> (b: bool)
        ensures
            b == info_sizes_fit(split_lines(output@)),
    {
        let lines = output_lines(output, 0);
        let ghost ls = split_lines(output@);
        assert(drop_lines(ls, 0) =~= ls);
        let p_size = chars_of("Size         : ");
        let mut i: usize = 0;
        while i < lines.len()
            invariant
                i <= lines@.len(),
                lines@.len() == ls.len(),
                ls == split_lines(output@),
                forall|k: int| 0 <= k < lines@.len() ==> (#[trigger] lines@[k])@ == ls[k],
                forall|k: int| 0 <= k < i ==> match strip_prefix(#[trigger] ls[k], "Size         : "@) {
                    Some(v) => dnf_size(trim(v)) <= u64::MAX,
                    None => true,
                },
                p_size@ == "Size         : "@,
            decreases lines.len() - i,
        {
            let line = &lines[i];
            assert(ls[i as int] == line@);
            if let Some(v) = strip_prefix_chars(line, &p_size) {
                let t = string_of(&trim_chars(&v));
                if !dnf_size_in_range(t.as_str()) {
                    assert(!info_sizes_fit(ls));
                    return false;
                }
            }
            i = i + 1;
        }
        true
    }

    /// The packages that `dnf search` output lists, one per
    /// `name.arch : summary` line.
    pub fn parse_search_output(&self, output: &str) -> (r: Vec<Package>)
        ensures
            packages_view(r@) == collect_lines(split_lines(output@), |l: Seq<char>| dnf_search_line(l)),
    {
        let lines = output_lines(output, 0);
        let ghost ls = split_lines(output@);
        let ghost f = |l: Seq<char>| dnf_search_line(l);
        assert(drop_lines(ls, 0) =~= ls);
        let sep = chars_of(" : ");
        let mut out: Vec<Package> = Vec::new();
        let mut i: usize = 0;
        while i < lines.len()
            invariant
                i <= lines@.len(),
                lines@.len() == ls.len(),
                forall|k: int| 0 <= k < lines@.len() ==> (#[trigger] lines@[k])@ == ls[k],
                packages_view(out@) == collect_lines(ls.take(i as int), f),
                f == (|l: Seq<char>| dnf_search_line(l)),
                sep@ == " : "@,
            decreases lines.len() - i,
        {
            assert(ls.take(i + 1).drop_last() =~= ls.take(i as int));
            assert(ls.take(i + 1).last() == lines@[i as int]@);
            let ghost prev = collect_lines(ls.take(i as int), f);
            assert(f(lines@[i as int]@) == dnf_search_line(lines@[i as int]@));
            match split_once_chars(&lines[i], &sep) {
                Some((name_arch, desc)) => {
                    let n = string_of(&trim_chars(&before_char_chars(&name_arch, '.')));
                    proof { reveal_strlit(""); }
                    let mut p = Package::new(n.as_str(), "", BackendKind::Dnf);
                    p.description = string_of(&trim_chars(&desc));
                    assert(dnf_search_line(lines@[i as int]@) == Some(p@));
                    out.push(p);
                    assert(packages_view(out@) =~= prev.push(p@));
                    assert(collect_lines(ls.take(i + 1), f) == prev.push(p@));
                },
                None => {
                    assert(collect_lines(ls.take(i + 1), f) == prev);
                },
            }
            i = i + 1;
        }
        assert(ls.take(ls.len() as int) =~= ls);
        out
    }

    /// The packages that `rpm -qa` lists: name, version, architecture and
    /// summary separated by tabs, all installed.
    pub fn parse_installed_output(&self, output: &str) -> (r: Vec<Package>)
        ensures
            packages_view(r@) == collect_lines(split_lines(output@), |l: Seq<char>| installed_line(l, BackendKind::Dnf)),
    {
        parse_installed_listing(output, BackendKind::Dnf)
    }

    /// The packages that `dnf list --upgrades` lists after its header
    /// line, by name and new version.
    pub fn parse_upgradable_output(&self, output: &str) -> (r: Vec<Package>)
        ensures
            packages_view(r@) == collect_lines(drop_lines(split_lines(output@), 1), |l: Seq<char>| dnf_upgradable_line(l)),
    {
        let lines = output_lines(output, 1);
        let ghost ls = drop_lines(split_lines(output@), 1);
        let ghost f = |l: Seq<char>| dnf_upgradable_line(l);
        let mut out: Vec<Package> = Vec::new();
        let mut i: usize = 0;
        while i < lines.len()
            invariant
                i <= lines@.len(),
                lines@.len() == ls.len(),
                forall|k: int| 0 <= k < lines@.len() ==> (#[trigger] lines@[k])@ == ls[k],
                packages_view(out@) == collect_lines(ls.take(i as int), f),
                f == (|l: Seq<char>| dnf_upgradable_line(l)),
            decreases lines.len() - i,
        {
            assert(ls.take(i + 1).drop_last() =~= ls.take(i as int));
            assert(ls.take(i + 1).last() == lines@[i as int]@);
            let ghost prev = collect_lines(ls.take(i as int), f);
            assert(f(lines@[i as int]@) == dnf_upgradable_line(lines@[i as int]@));
            let w = words_of(&lines[i]);
            if w.len() >= 2 {
                let name = string_of(&before_char_chars(&w[0], '.'));
                let version = string_of(&w[1]);
                let p = Package::new(name.as_str(), version.as_str(), BackendKind::Dnf);
                out.push(p);
                assert(packages_view(out@) =~= prev.push(p@));
                assert(collect_lines(ls.take(i + 1), f) == prev.push(p@));
            } else {
                assert(collect_lines(ls.take(i + 1), f) == prev);
            }
            i = i + 1;
        }
        assert(ls.take(ls.len() as int) =~= ls);
        out
    }
}

} // verus!
