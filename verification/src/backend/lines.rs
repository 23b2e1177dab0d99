//! Helpers shared by the output parsers: the lines of an output, the
//! packages that a per-line rule makes of them, and the tab-separated
//! listing of installed packages that `dpkg-query` and `rpm` print.
use vstd::prelude::*;
use crate::package::{BackendKind, Package, PackageModel, PackageStateModel, PackageState,
    fresh_package, packages_view};
use crate::text::{chars_of, lines_of, split_lines, splitn, splitn_chars, string_of};

verus! {

pub open spec fn opt_package(o: Option<Package>) -> Option<PackageModel> {
    match o {
        Some(p) => Some(p@),
        None => None,
    }
}

/// The packages that `f` makes of `lines`, in order; lines for which it
/// makes none are skipped.
pub open spec fn collect_lines(lines: Seq<Seq<char>>, f: spec_fn(Seq<char>) -> Option<PackageModel>) -> Seq<PackageModel>
    decreases lines.len(),
{
    if lines.len() == 0 {
        seq![]
    } else {
        let r = collect_lines(lines.drop_last(), f);
        match f(lines.last()) {
            Some(p) => r.push(p),
            None => r,
        }
    }
}

/// `lines` without its first `n` (`Iterator::skip`).
pub open spec fn drop_lines(lines: Seq<Seq<char>>, n: nat) -> Seq<Seq<char>> {
    if n <= lines.len() {
        lines.skip(n as int)
    } else {
        seq![]
    }
}

/// Piece `i` of `parts`, or the empty string past the end.
pub open spec fn piece(parts: Seq<Seq<char>>, i: int) -> Seq<char> {
    if 0 <= i < parts.len() {
        parts[i]
    } else {
        seq![]
    }
}

/// Piece `i` of `parts`, or an empty vector past the end.
pub fn piece_of(parts: &Vec<Vec<char>>, i: usize) -> (r: Vec<char>)
    ensures
        i < parts@.len() ==> r@ == parts@[i as int]@,
        i >= parts@.len() ==> r@ == Seq::<char>::empty(),
{
    if i < parts.len() {
        let r = crate::text::slice(&parts[i], 0, parts[i].len());
        assert(r@ =~= parts@[i as int]@);
        r
    } else {
        Vec::new()
    }
}

/// The lines of `output` after the first `skip`, as character vectors.
pub fn output_lines(output: &str, skip: usize) -> (r: Vec<Vec<char>>)
    ensures
        r@.len() == drop_lines(split_lines(output@), skip as nat).len(),
        forall|k: int| 0 <= k < r@.len() ==> (#[trigger] r@[k])@ == drop_lines(split_lines(output@), skip as nat)[k],
{
    let v = chars_of(output);
    let all = lines_of(&v);
    let mut r: Vec<Vec<char>> = Vec::new();
    let mut i: usize = skip;
    let ghost want = drop_lines(split_lines(output@), skip as nat);
    while i < all.len()
        invariant
            skip <= i,
            i <= all@.len() || i == skip,
            i <= all@.len() ==> r@.len() == i - skip,
            i > all@.len() ==> r@.len() == 0,
            all@.len() == split_lines(v@).len(),
            v@ == output@,
            forall|k: int| 0 <= k < all@.len() ==> (#[trigger] all@[k])@ == split_lines(v@)[k],
            want == drop_lines(split_lines(output@), skip as nat),
            forall|k: int| 0 <= k < r@.len() ==> (#[trigger] r@[k])@ == want[k],
        decreases all.len() - i,
    {
        let line = crate::text::slice(&all[i], 0, all[i].len());
        assert(line@ =~= all@[i as int]@);
        assert(want[i - skip] == split_lines(v@)[i as int]);
        r.push(line);
        i = i + 1;
    }
    if skip > all.len() {
        assert(want =~= Seq::<Seq<char>>::empty());
    } else {
        assert(want.len() == all@.len() - skip);
    }
    r
}

/// A line of the installed listing: name, version, architecture and
/// description separated by tabs, the last two optional. Lines with
/// fewer than two fields make no package.
pub open spec fn installed_line(l: Seq<char>, kind: BackendKind) -> Option<PackageModel> {
    let parts = splitn(l, 4, '\t');
    if parts.len() >= 2 {
        let p = fresh_package(parts[0], parts[1], kind);
        let p = if parts.len() >= 3 {
            PackageModel { arch: parts[2], ..p }
        } else {
            p
        };
        let p = if parts.len() >= 4 {
            PackageModel { description: parts[3], ..p }
        } else {
            p
        };
        Some(PackageModel { state: PackageStateModel::Installed, ..p })
    } else {
        None
    }
}

/// The package that a line of the installed listing describes.
pub fn installed_line_package(l: &Vec<char>, kind: BackendKind) -> (r: Option<Package>)
    ensures
        opt_package(r) == installed_line(l@, kind),
{
    let parts = splitn_chars(l, 4, '\t');
    if parts.len() >= 2 {
        let name = string_of(&parts[0]);
        let version = string_of(&parts[1]);
        let mut p = Package::new(name.as_str(), version.as_str(), kind);
        if parts.len() >= 3 {
            p.arch = string_of(&parts[2]);
        }
        if parts.len() >= 4 {
            p.description = string_of(&parts[3]);
        }
        p.state = PackageState::Installed;
        Some(p)
    } else {
        None
    }
}

/// The installed packages that a tab-separated listing names, in order.
pub fn parse_installed_listing(output: &str, kind: BackendKind) -> (r: Vec<Package>)
    ensures
        packages_view(r@) == collect_lines(split_lines(output@), |l: Seq<char>| installed_line(l, kind)),
{
    let lines = output_lines(output, 0);
    let ghost ls = split_lines(output@);
    let ghost f = |l: Seq<char>| installed_line(l, kind);
    assert(drop_lines(ls, 0) =~= ls);
    let mut out: Vec<Package> = Vec::new();
    let mut i: usize = 0;
    while i < lines.len()
        invariant
            i <= lines@.len(),
            lines@.len() == ls.len(),
            forall|k: int| 0 <= k < lines@.len() ==> (#[trigger] lines@[k])@ == ls[k],
            packages_view(out@) == collect_lines(ls.take(i as int), f),
            f == (|l: Seq<char>| installed_line(l, kind)),
        decreases lines.len() - i,
    {
        assert(ls.take(i + 1).drop_last() =~= ls.take(i as int));
        assert(ls.take(i + 1).last() == lines@[i as int]@);
        let ghost prev = collect_lines(ls.take(i as int), f);
        let r = installed_line_package(&lines[i], kind);
        assert(f(lines@[i as int]@) == installed_line(lines@[i as int]@, kind));
        match r {
            Some(p) => {
                out.push(p);
                assert(packages_view(out@) =~= packages_view(out@.drop_last()).push(p@));
                assert(collect_lines(ls.take(i + 1), f) == prev.push(p@));
            },
            None => {
                assert(collect_lines(ls.take(i + 1), f) == prev);
            },
        }
        i = i + 1;
    }
    assert(ls.take(ls.len() as int) =~= ls);
    out
}

} // verus!
