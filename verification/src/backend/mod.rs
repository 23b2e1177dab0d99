//! Package system backends: the `Backend` trait that each one implements,
//! the registry of available backends, and the merging of search results.
use vstd::prelude::*;
use vstd::utf8::encode_utf8;
use crate::error::CxpkgError;
use crate::package::{backend_name, Package, PackageModel, PackageQuery, packages_view};
use crate::backend::lines::opt_package;

pub mod lines;
pub mod apt;
pub mod dnf;
pub mod flatpak;

pub use apt::AptBackend;
pub use dnf::DnfBackend;
pub use flatpak::FlatpakBackend;

verus! {

/// A package system that cxpkg can drive. Implementations talk to the
/// system's own tools; what they answer is taken as it comes.
pub trait Backend: Send + Sync {
    fn name(&self) -> &str;

    fn is_available(&self) -> bool;

    fn search(&self, query: &str) -> Result<Vec<Package>, CxpkgError>;

    fn info(&self, query: &PackageQuery) -> Result<Option<Package>, CxpkgError>;

    fn list_installed(&self) -> Result<Vec<Package>, CxpkgError>;

    fn list_upgradable(&self) -> Result<Vec<Package>, CxpkgError>;

    fn install(&self, packages: &[&str]) -> Result<(), CxpkgError>;

    fn remove(&self, packages: &[&str]) -> Result<(), CxpkgError>;

    fn update_index(&self) -> Result<(), CxpkgError>;

    fn upgrade_all(&self) -> Result<(), CxpkgError>;
}

// ---------------------------------------------------------------------
// Ordering packages by name
// ---------------------------------------------------------------------

/// -1, 0 or 1 as byte string `a` sorts before, with or after `b`.
pub open spec fn bytes_order(a: Seq<u8>, b: Seq<u8>) -> int
    decreases a.len(),
{
    if a.len() == 0 {
        if b.len() == 0 {
            0
        } else {
            -1
        }
    } else if b.len() == 0 {
        1
    } else if a[0] < b[0] {
        -1
    } else if a[0] > b[0] {
        1
    } else {
        bytes_order(a.drop_first(), b.drop_first())
    }
}

/// Name `a` sorts no later than name `b`: the order of `String`, which
/// compares the UTF-8 bytes.
pub open spec fn name_le(a: Seq<char>, b: Seq<char>) -> bool {
    bytes_order(encode_utf8(a), encode_utf8(b)) <= 0
}

/// Comparing `a` with `b` gives the opposite of comparing `b` with `a`.
pub proof fn lemma_bytes_order_antisymmetric(a: Seq<u8>, b: Seq<u8>)
    ensures
        bytes_order(a, b) == -bytes_order(b, a),
        -1 <= bytes_order(a, b) <= 1,
    decreases a.len(),
{
    if a.len() > 0 && b.len() > 0 && a[0] == b[0] {
        lemma_bytes_order_antisymmetric(a.drop_first(), b.drop_first());
    }
}

/// Byte strings are ordered transitively.
pub proof fn lemma_bytes_order_transitive(a: Seq<u8>, b: Seq<u8>, c: Seq<u8>)
    requires
        bytes_order(a, b) <= 0,
        bytes_order(b, c) <= 0,
    ensures
        bytes_order(a, c) <= 0,
    decreases a.len(),
{
    if a.len() > 0 && b.len() > 0 && c.len() > 0 && a[0] == b[0] && b[0] == c[0] {
        lemma_bytes_order_transitive(a.drop_first(), b.drop_first(), c.drop_first());
    }
}

/// Names are totally preordered by `name_le`.
pub proof fn lemma_name_order(a: Seq<char>, b: Seq<char>, c: Seq<char>)
    ensures
        name_le(a, b) || name_le(b, a),
        name_le(a, b) && name_le(b, c) ==> name_le(a, c),
{
    lemma_bytes_order_antisymmetric(encode_utf8(a), encode_utf8(b));
    if name_le(a, b) && name_le(b, c) {
        lemma_bytes_order_transitive(encode_utf8(a), encode_utf8(b), encode_utf8(c));
    }
}

/// Compares two byte strings: -1, 0 or 1.
pub fn compare_bytes(a: &[u8], b: &[u8]) -> (c: i8)
    ensures
        c as int == bytes_order(a@, b@),
{
    let mut i: usize = 0;
    assert(a@.skip(0) =~= a@);
    assert(b@.skip(0) =~= b@);
    while i < a.len() && i < b.len() && a[i] == b[i]
        invariant
            i <= a@.len(),
            i <= b@.len(),
            bytes_order(a@, b@) == bytes_order(a@.skip(i as int), b@.skip(i as int)),
        decreases a.len() - i,
    {
        assert(a@.skip(i as int).drop_first() =~= a@.skip(i + 1));
        assert(b@.skip(i as int).drop_first() =~= b@.skip(i + 1));
        i = i + 1;
    }
    if i == a.len() {
        if i == b.len() {
            0
        } else {
            -1
        }
    } else if i == b.len() {
        1
    } else if a[i] < b[i] {
        -1
    } else {
        1
    }
}

/// Whether name `a` sorts no later than name `b`.
pub fn names_in_order(a: &String, b: &String) -> (r: bool)
    ensures
        r == name_le(a@, b@),
{
    compare_bytes(a.as_str().as_bytes(), b.as_str().as_bytes()) <= 0
}

/// Packages sorted by name, ties in any order.
pub open spec fn sorted_by_name(s: Seq<PackageModel>) -> bool {
    forall|i: int, j: int| 0 <= i < j < s.len() ==> name_le(#[trigger] s[i].name, #[trigger] s[j].name)
}

/// `x` put into the sorted `s` after every package whose name sorts no
/// later than its own.
pub open spec fn insert_by_name(s: Seq<PackageModel>, x: PackageModel) -> Seq<PackageModel>
    decreases s.len(),
{
    if s.len() == 0 {
        seq![x]
    } else if name_le(s.last().name, x.name) {
        s.push(x)
    } else {
        insert_by_name(s.drop_last(), x).push(s.last())
    }
}

/// `s` stably sorted by name: packages of equal name keep their order.
pub open spec fn sort_by_name(s: Seq<PackageModel>) -> Seq<PackageModel>
    decreases s.len(),
{
    if s.len() == 0 {
        seq![]
    } else {
        insert_by_name(sort_by_name(s.drop_last()), s.last())
    }
}

/// `p` splits the sorted `t` into the names that sort no later than
/// `x` and those that sort after it.
pub open spec fn is_boundary(t: Seq<PackageModel>, x: PackageModel, p: int) -> bool {
    &&& 0 <= p <= t.len()
    &&& forall|i: int| 0 <= i < p ==> name_le(#[trigger] t[i].name, x.name)
    &&& forall|i: int| p <= i < t.len() ==> !name_le(#[trigger] t[i].name, x.name)
}

/// Inserting at the boundary between the names that sort no later than
/// `x` and those that sort after it is `insert_by_name`, and keeps the
/// order.
pub proof fn lemma_insert_at(s: Seq<PackageModel>, x: PackageModel, p: int)
    requires
        sorted_by_name(s),
        is_boundary(s, x, p),
    ensures
        insert_by_name(s, x) == s.insert(p, x),
        sorted_by_name(s.insert(p, x)),
    decreases s.len(),
{
    let t = s.insert(p, x);
    if s.len() == 0 {
        assert(t =~= seq![x]);
    } else if p == s.len() {
        assert(name_le(s.last().name, x.name));
        assert(t =~= s.push(x));
    } else {
        assert(!name_le(s[s.len() - 1].name, x.name));
        let d = s.drop_last();
        assert(sorted_by_name(d)) by {
            assert forall|i: int, j: int| 0 <= i < j < d.len() implies name_le(#[trigger] d[i].name, #[trigger] d[j].name) by {
                assert(d[i] == s[i] && d[j] == s[j]);
            }
        }
        assert forall|i: int| 0 <= i < p implies name_le(#[trigger] d[i].name, x.name) by {
            assert(d[i] == s[i]);
        }
        assert forall|i: int| p <= i < d.len() implies !name_le(#[trigger] d[i].name, x.name) by {
            assert(d[i] == s[i]);
        }
        lemma_insert_at(d, x, p);
        assert(d.insert(p, x).push(s.last()) =~= t);
    }
    assert forall|i: int, j: int| 0 <= i < j < t.len() implies name_le(#[trigger] t[i].name, #[trigger] t[j].name) by {
        if j < p {
            assert(t[i] == s[i] && t[j] == s[j]);
        } else if j == p {
            assert(t[i] == s[i]);
        } else if i == p {
            assert(t[j] == s[j - 1]);
            lemma_name_order(s[j - 1].name, x.name, x.name);
        } else if i < p {
            assert(t[i] == s[i] && t[j] == s[j - 1]);
        } else {
            assert(t[i] == s[i - 1] && t[j] == s[j - 1]);
        }
    }
}

/// `sort_by_name` sorts.
pub proof fn lemma_sort_by_name_sorted(s: Seq<PackageModel>)
    ensures
        sorted_by_name(sort_by_name(s)),
        sort_by_name(s).len() == s.len(),
    decreases s.len(),
{
    if s.len() > 0 {
        lemma_sort_by_name_sorted(s.drop_last());
        let t = sort_by_name(s.drop_last());
        let x = s.last();
        lemma_boundary_exists(t, x);
        let p = choose|p: int| is_boundary(t, x, p);
        lemma_insert_at(t, x, p);
    }
}

/// A sorted sequence splits into the names that sort no later than `x`
/// followed by those that sort after it.
pub proof fn lemma_boundary_exists(t: Seq<PackageModel>, x: PackageModel)
    requires
        sorted_by_name(t),
    ensures
        exists|p: int| is_boundary(t, x, p),
    decreases t.len(),
{
    if t.len() == 0 {
        assert(is_boundary(t, x, 0));
    } else if name_le(t.last().name, x.name) {
        let p = t.len() as int;
        assert forall|i: int| 0 <= i < p implies name_le(#[trigger] t[i].name, x.name) by {
            if i < p - 1 {
                lemma_name_order(t[i].name, t[p - 1].name, x.name);
            }
        }
        assert(is_boundary(t, x, p));
    } else {
        let d = t.drop_last();
        assert(sorted_by_name(d)) by {
            assert forall|i: int, j: int| 0 <= i < j < d.len() implies name_le(#[trigger] d[i].name, #[trigger] d[j].name) by {
                assert(d[i] == t[i] && d[j] == t[j]);
            }
        }
        lemma_boundary_exists(d, x);
        let p = choose|p: int| is_boundary(d, x, p);
        assert forall|i: int| 0 <= i < p implies name_le(#[trigger] t[i].name, x.name) by {
            assert(d[i] == t[i]);
        }
        assert forall|i: int| p <= i < t.len() implies !name_le(#[trigger] t[i].name, x.name) by {
            if i < t.len() - 1 {
                assert(d[i] == t[i]);
            }
        }
        assert(is_boundary(t, x, p));
    }
}

// ---------------------------------------------------------------------
// Merging search results
// ---------------------------------------------------------------------

/// The same package as listed by the same backend.
pub open spec fn same_listing(a: PackageModel, b: PackageModel) -> bool {
    a.name == b.name && a.backend == b.backend
}

/// `s` with every package that repeats the listing right before it
/// dropped (`Vec::dedup_by` on name and backend).
pub open spec fn dedup_listings(s: Seq<PackageModel>) -> Seq<PackageModel>
    decreases s.len(),
{
    if s.len() == 0 {
        s
    } else {
        let r = dedup_listings(s.drop_last());
        if r.len() > 0 && same_listing(r.last(), s.last()) {
            r
        } else {
            r.push(s.last())
        }
    }
}

/// The packages of the successful answers, in order.
pub open spec fn successful_results(results: Seq<Result<Vec<Package>, CxpkgError>>) -> Seq<PackageModel>
    decreases results.len(),
{
    if results.len() == 0 {
        seq![]
    } else {
        let r = successful_results(results.drop_last());
        match results.last() {
            Ok(v) => r + packages_view(v@),
            Err(_) => r,
        }
    }
}

/// What a search across backends shows, given each backend's answer:
/// the packages of the successful answers sorted by name, repeats of a
/// listing dropped.
pub open spec fn merged_results(results: Seq<Result<Vec<Package>, CxpkgError>>) -> Seq<PackageModel> {
    dedup_listings(sort_by_name(successful_results(results)))
}

/// No package repeats the listing right before it.
pub open spec fn no_repeated_listing(s: Seq<PackageModel>) -> bool {
    forall|i: int| 0 < i < s.len() ==> !same_listing(#[trigger] s[i - 1], s[i])
}

/// Every package that `dedup_listings` keeps comes from its input, none
/// repeats the listing before it, and sorted input stays sorted.
pub proof fn lemma_dedup_listings(s: Seq<PackageModel>)
    ensures
        no_repeated_listing(dedup_listings(s)),
        forall|i: int|
            0 <= i < dedup_listings(s).len() ==> exists|k: int|
                0 <= k < s.len() && #[trigger] dedup_listings(s)[i] == s[k],
        sorted_by_name(s) ==> sorted_by_name(dedup_listings(s)),
    decreases s.len(),
{
    if s.len() > 0 {
        let d0 = s.drop_last();
        lemma_dedup_listings(d0);
        let r = dedup_listings(d0);
        let d = dedup_listings(s);
        assert forall|i: int| 0 <= i < d.len() implies exists|k: int| 0 <= k < s.len() && #[trigger] d[i] == s[k] by {
            if i < r.len() {
                let k = choose|k: int| 0 <= k < d0.len() && #[trigger] r[i] == d0[k];
                assert(d[i] == s[k]);
            } else {
                assert(d[i] == s[s.len() - 1]);
            }
        }
        if sorted_by_name(s) {
            assert(sorted_by_name(d0)) by {
                assert forall|i: int, j: int| 0 <= i < j < d0.len() implies name_le(#[trigger] d0[i].name, #[trigger] d0[j].name) by {
                    assert(d0[i] == s[i] && d0[j] == s[j]);
                }
            }
            assert forall|i: int, j: int| 0 <= i < j < d.len() implies name_le(#[trigger] d[i].name, #[trigger] d[j].name) by {
                if j < r.len() {
                    assert(d[i] == r[i] && d[j] == r[j]);
                } else {
                    let k = choose|k: int| 0 <= k < d0.len() && #[trigger] r[i] == d0[k];
                    assert(d[i] == s[k]);
                    assert(d[j] == s[s.len() - 1]);
                }
            }
        }
        assert forall|i: int| 0 < i < d.len() implies !same_listing(#[trigger] d[i - 1], d[i]) by {
            if i < r.len() {
                assert(d[i - 1] == r[i - 1] && d[i] == r[i]);
            }
        }
    }
}

proof fn lemma_insert_by_name_contains(s: Seq<PackageModel>, x: PackageModel, y: PackageModel)
    ensures
        insert_by_name(s, x).contains(y) <==> (s.contains(y) || y == x),
    decreases s.len(),
{
    if s.len() == 0 {
        assert(insert_by_name(s, x) =~= seq![x]);
        assert(seq![x][0] == x);
    } else if name_le(s.last().name, x.name) {
        let t = s.push(x);
        assert(t[s.len() as int] == x);
        if s.contains(y) {
            let k = choose|k: int| 0 <= k < s.len() && s[k] == y;
            assert(t[k] == y);
        }
        if t.contains(y) {
            let k = choose|k: int| 0 <= k < t.len() && t[k] == y;
            if k < s.len() {
                assert(s[k] == y);
            }
        }
    } else {
        let d = s.drop_last();
        lemma_insert_by_name_contains(d, x, y);
        let u = insert_by_name(d, x);
        let t = u.push(s.last());
        assert(t[u.len() as int] == s.last());
        if s.contains(y) {
            let k = choose|k: int| 0 <= k < s.len() && s[k] == y;
            if k < d.len() {
                assert(d[k] == y);
                let m = choose|m: int| 0 <= m < u.len() && u[m] == y;
                assert(t[m] == y);
            } else {
                assert(t[u.len() as int] == y);
            }
        }
        if y == x {
            let m = choose|m: int| 0 <= m < u.len() && u[m] == y;
            assert(t[m] == y);
        }
        if t.contains(y) {
            let k = choose|k: int| 0 <= k < t.len() && t[k] == y;
            if k < u.len() {
                assert(u[k] == y);
                if d.contains(y) {
                    let m = choose|m: int| 0 <= m < d.len() && d[m] == y;
                    assert(s[m] == y);
                }
            } else {
                assert(s[s.len() - 1] == y);
            }
        }
    }
}

/// `sort_by_name` keeps exactly the packages it is given.
proof fn lemma_sort_by_name_contains(s: Seq<PackageModel>, y: PackageModel)
    ensures
        sort_by_name(s).contains(y) <==> s.contains(y),
    decreases s.len(),
{
    if s.len() > 0 {
        let d = s.drop_last();
        lemma_sort_by_name_contains(d, y);
        lemma_insert_by_name_contains(sort_by_name(d), s.last(), y);
        if s.contains(y) {
            let k = choose|k: int| 0 <= k < s.len() && s[k] == y;
            if k < d.len() {
                assert(d[k] == y);
            }
        }
        if d.contains(y) {
            let k = choose|k: int| 0 <= k < d.len() && d[k] == y;
            assert(s[k] == y);
        }
    }
}

/// Every package that `dedup_listings` is given has its listing in the
/// result.
proof fn lemma_dedup_keeps_listings(s: Seq<PackageModel>, k: int)
    requires
        0 <= k < s.len(),
    ensures
        exists|j: int| 0 <= j < dedup_listings(s).len() && same_listing(s[k], #[trigger] dedup_listings(s)[j]),
    decreases s.len(),
{
    let d = s.drop_last();
    let r = dedup_listings(d);
    let t = dedup_listings(s);
    if k < s.len() - 1 {
        lemma_dedup_keeps_listings(d, k);
        assert(d[k] == s[k]);
        let j = choose|j: int| 0 <= j < r.len() && same_listing(d[k], #[trigger] r[j]);
        assert(t[j] == r[j]);
    } else if r.len() > 0 && same_listing(r.last(), s.last()) {
        assert(t[r.len() - 1] == r.last());
    } else {
        assert(t[r.len() as int] == s.last());
    }
}

/// A search across backends loses no listing: every package of a
/// successful answer shows in the result under its name and backend.
pub proof fn law_search_keeps_listings(results: Seq<Result<Vec<Package>, CxpkgError>>, p: PackageModel)
    requires
        successful_results(results).contains(p),
    ensures
        exists|j: int| 0 <= j < merged_results(results).len() && same_listing(p, #[trigger] merged_results(results)[j]),
{
    let all = successful_results(results);
    let sorted = sort_by_name(all);
    lemma_sort_by_name_contains(all, p);
    let k = choose|k: int| 0 <= k < sorted.len() && sorted[k] == p;
    lemma_dedup_keeps_listings(sorted, k);
    let d = dedup_listings(sorted);
    assert(merged_results(results) == d);
    let j = choose|j: int| 0 <= j < d.len() && same_listing(sorted[k], #[trigger] d[j]);
    assert(same_listing(p, merged_results(results)[j]));
}

/// The packages of `sorted` in order, repeats of a listing dropped.
fn dedup_sorted(sorted: Vec<Box<Package>>) -> (r: Vec<Package>)
    ensures
        packages_view(r@) == dedup_listings(sorted@.map_values(|b: Box<Package>| b@)),
{
    let ghost sv = sorted@.map_values(|b: Box<Package>| b@);
    let mut out: Vec<Package> = Vec::new();
    for b in it: sorted
        invariant
            it.seq() == sorted@,
            sv == sorted@.map_values(|b: Box<Package>| b@),
            packages_view(out@) == dedup_listings(sv.take(it.index() as int)),
    {
        let ghost k = it.index() as int;
        assert(sv.take(k + 1).drop_last() =~= sv.take(k));
        assert(sv.take(k + 1).last() == b@);
        let n = out.len();
        let repeat = n > 0 && out[n - 1].name == b.name && out[n - 1].backend == b.backend;
        if !repeat {
            out.push(*b);
            assert(packages_view(out@) =~= packages_view(out@.drop_last()).push(b@));
        }
    }
    assert(sv.take(sorted@.len() as int) =~= sv);
    out
}

/// Sorts `all` stably by name and drops repeated listings.
fn sort_and_dedup(all: Vec<Package>) -> (r: Vec<Package>)
    ensures
        packages_view(r@) == dedup_listings(sort_by_name(packages_view(all@))),
{
    let ghost av = packages_view(all@);
    let mut sorted: Vec<Box<Package>> = Vec::new();
    for p in it: all
        invariant
            it.seq() == all@,
            av == packages_view(all@),
            sorted@.map_values(|b: Box<Package>| b@) == sort_by_name(av.take(it.index() as int)),
            sorted_by_name(sorted@.map_values(|b: Box<Package>| b@)),
    {
        let ghost k = it.index() as int;
        let ghost s = sorted@.map_values(|b: Box<Package>| b@);
        assert(av.take(k + 1).drop_last() =~= av.take(k));
        assert(av.take(k + 1).last() == p@);
        let mut lo: usize = 0;
        let mut hi: usize = sorted.len();
        while lo < hi
            invariant
                s == sorted@.map_values(|b: Box<Package>| b@),
                sorted_by_name(s),
                0 <= lo <= hi <= s.len(),
                forall|i: int| 0 <= i < lo ==> name_le(#[trigger] s[i].name, p@.name),
                forall|i: int| hi <= i < s.len() ==> !name_le(#[trigger] s[i].name, p@.name),
            decreases hi - lo,
        {
            let mid = lo + (hi - lo) / 2;
            if names_in_order(&sorted[mid].name, &p.name) {
                assert forall|i: int| 0 <= i < mid + 1 implies name_le(#[trigger] s[i].name, p@.name) by {
                    if i < mid {
                        lemma_name_order(s[i].name, s[mid as int].name, p@.name);
                    }
                }
                lo = mid + 1;
            } else {
                assert forall|i: int| mid <= i < s.len() implies !name_le(#[trigger] s[i].name, p@.name) by {
                    if i > mid {
                        lemma_name_order(s[mid as int].name, s[i].name, p@.name);
                    }
                }
                hi = mid;
            }
        }
        proof {
            lemma_insert_at(s, p@, lo as int);
        }
        sorted.insert(lo, Box::new(p));
        assert(sorted@.map_values(|b: Box<Package>| b@) =~= s.insert(lo as int, p@));
    }
    assert(av.take(all@.len() as int) =~= av);
    dedup_sorted(sorted)
}

/// The packages of the successful answers, in order; failed answers are
/// skipped.
pub fn concat_listings(results: Vec<Result<Vec<Package>, CxpkgError>>) -> (r: Vec<Package>)
    ensures
        packages_view(r@) == successful_results(results@),
{
    let ghost rv = results@;
    let mut all: Vec<Package> = Vec::new();
    for res in it: results
        invariant
            it.seq() == rv,
            packages_view(all@) == successful_results(rv.take(it.index() as int)),
    {
        let ghost k = it.index() as int;
        assert(rv.take(k + 1).drop_last() =~= rv.take(k));
        assert(rv.take(k + 1).last() == res);
        match res {
            Ok(v) => {
                let ghost vv = v@;
                let mut v = v;
                let ghost before = all@;
                all.append(&mut v);
                assert(packages_view(all@) =~= packages_view(before) + packages_view(vv));
            },
            Err(_) => {},
        }
    }
    assert(rv.take(rv.len() as int) =~= rv);
    all
}

/// The result of a search across backends, given each backend's answer:
/// the packages of the successful answers, sorted by name (packages of
/// equal name keep their order), a package dropped when it repeats the
/// name and backend of the one before it. Failed answers are skipped.
pub fn merge_search_results(results: Vec<Result<Vec<Package>, CxpkgError>>) -> (r: Vec<Package>)
    ensures
        packages_view(r@) == merged_results(results@),
        sorted_by_name(packages_view(r@)),
        no_repeated_listing(packages_view(r@)),
{
    let ghost rv = results@;
    let all = concat_listings(results);
    let r = sort_and_dedup(all);
    proof {
        lemma_sort_by_name_sorted(successful_results(rv));
        lemma_dedup_listings(sort_by_name(successful_results(rv)));
    }
    r
}

/// `answer` is what `backend` can answer when asked for its upgradable
/// packages (`upgradable`) or its installed ones.
pub open spec fn listing_answer<B: Backend>(backend: &B, upgradable: bool, answer: Result<Vec<Package>, CxpkgError>) -> bool {
    if upgradable {
        call_ensures(B::list_upgradable, (backend,), answer)
    } else {
        call_ensures(B::list_installed, (backend,), answer)
    }
}

/// The filter of a listing as the characters it holds.
pub open spec fn filter_view(filter: Option<&str>) -> Option<Seq<char>> {
    match filter {
        Some(f) => Some(f@),
        None => None,
    }
}

/// The indices among the first `n` of `names` that `filter` selects, in
/// order: those holding the filter's name, or all of them without one.
pub open spec fn selected_indices(names: Seq<Seq<char>>, filter: Option<Seq<char>>, n: int) -> Seq<int>
    decreases n,
{
    if n <= 0 {
        seq![]
    } else {
        let r = selected_indices(names, filter, n - 1);
        match filter {
            Some(f) => if names[n - 1] == f {
                r.push(n - 1)
            } else {
                r
            },
            None => r.push(n - 1),
        }
    }
}

/// A filter that names no backend selects none, and so does an empty
/// registry.
proof fn lemma_selected_none(names: Seq<Seq<char>>, filter: Option<Seq<char>>, n: int)
    requires
        n <= names.len(),
    ensures
        (match filter {
            Some(f) => forall|i: int| 0 <= i < names.len() ==> names[i] != f,
            None => n <= 0,
        }) ==> selected_indices(names, filter, n).len() == 0,
    decreases n,
{
    if n > 0 {
        lemma_selected_none(names, filter, n - 1);
    }
}

// ---------------------------------------------------------------------
// The registry
// ---------------------------------------------------------------------

/// The backends in use, in the order they were registered, each with the
/// name it reported when registered.
pub struct BackendRegistry<B> {
    entries: Vec<(String, B)>,
}

impl<B> BackendRegistry<B> {
    /// The names of the registered backends, in order.
    pub closed spec fn names(&self) -> Seq<Seq<char>> {
        self.entries@.map_values(|e: (String, B)| e.0@)
    }

    /// The registered backends, in order.
    pub closed spec fn backends(&self) -> Seq<B> {
        self.entries@.map_values(|e: (String, B)| e.1)
    }
}

/// The first index at which `names` holds `n`, if any.
pub open spec fn first_named(names: Seq<Seq<char>>, n: Seq<char>, i: int) -> bool {
    0 <= i < names.len() && names[i] == n && forall|j: int| 0 <= j < i ==> names[j] != n
}

/// The first index at which `names` holds `n`, when it holds it.
pub open spec fn first_index_of(names: Seq<Seq<char>>, n: Seq<char>) -> int {
    choose|i: int| first_named(names, n, i)
}

/// A name that `names` holds has a first index.
pub proof fn lemma_first_named_exists(names: Seq<Seq<char>>, n: Seq<char>, i: int)
    requires
        0 <= i < names.len(),
        names[i] == n,
    ensures
        exists|m: int| first_named(names, n, m),
    decreases i,
{
    if exists|j: int| 0 <= j < i && names[j] == n {
        let j = choose|j: int| 0 <= j < i && names[j] == n;
        lemma_first_named_exists(names, n, j);
    } else {
        assert(first_named(names, n, i));
    }
}

/// There is one first index of a name.
pub proof fn lemma_first_named_unique(names: Seq<Seq<char>>, n: Seq<char>, i: int)
    requires
        first_named(names, n, i),
    ensures
        first_index_of(names, n) == i,
{
    let j = first_index_of(names, n);
    assert(first_named(names, n, j));
    if j < i {
        assert(names[j] != n);
    } else if i < j {
        assert(names[i] != n);
    }
}

impl<B: Backend> BackendRegistry<B> {
    /// An empty registry.
    pub fn new() -> (r: BackendRegistry<B>)
        ensures
            r.names() == Seq::<Seq<char>>::empty(),
            r.backends() == Seq::<B>::empty(),
    {
        let r = BackendRegistry { entries: Vec::new() };
        assert(r.names() =~= Seq::<Seq<char>>::empty());
        assert(r.backends() =~= Seq::<B>::empty());
        r
    }

    /// Adds `backend`, under the name it reports, when it says it is
    /// available on this system; otherwise leaves the registry as it is.
    pub fn register(&mut self, backend: B)
        ensures
            final(self).backends() == old(self).backends() && final(self).names() == old(self).names()
                || final(self).backends() == old(self).backends().push(backend) && exists|n: Seq<char>|
                final(self).names() == old(self).names().push(n),
    {
        let available = backend.is_available();
        let name = backend.name().to_owned();
        self.add_backend(backend, name, available);
    }

    /// Adds `backend` under `name` when it is `available`; otherwise
    /// leaves the registry as it is.
    pub fn add_backend(&mut self, backend: B, name: String, available: bool)
        ensures
            available ==> final(self).names() == old(self).names().push(name@) && final(self).backends()
                == old(self).backends().push(backend),
            !available ==> final(self).names() == old(self).names() && final(self).backends()
                == old(self).backends(),
    {
        if available {
            let ghost n = name@;
            self.entries.push((name, backend));
            assert(self.names() =~= old(self).names().push(n));
            assert(self.backends() =~= old(self).backends().push(backend));
        }
    }

    /// The first registered backend named `name`.
    pub fn get(&self, name: &str) -> (r: Option<&B>)
        ensures
            match r {
                Some(b) => exists|i: int| first_named(self.names(), name@, i) && *b == self.backends()[i],
                None => forall|i: int| 0 <= i < self.names().len() ==> self.names()[i] != name@,
            },
    {
        let target = name.to_owned();
        let mut i: usize = 0;
        while i < self.entries.len()
            invariant
                i <= self.entries@.len(),
                target@ == name@,
                forall|j: int| 0 <= j < i ==> self.names()[j] != name@,
            decreases self.entries.len() - i,
        {
            assert(self.names()[i as int] == self.entries@[i as int].0@);
            if self.entries[i].0 == target {
                assert(first_named(self.names(), name@, i as int));
                assert(self.backends()[i as int] == self.entries@[i as int].1);
                return Some(&self.entries[i].1);
            }
            i = i + 1;
        }
        None
    }

    /// The index of the first registered backend named `name`.
    pub fn index_of(&self, name: &str) -> (r: Option<usize>)
        ensures
            match r {
                Some(i) => first_named(self.names(), name@, i as int),
                None => !self.names().contains(name@),
            },
    {
        let target = name.to_owned();
        let mut i: usize = 0;
        while i < self.entries.len()
            invariant
                i <= self.entries@.len(),
                self.names().len() == self.entries@.len(),
                target@ == name@,
                forall|j: int| 0 <= j < i ==> self.names()[j] != name@,
            decreases self.entries.len() - i,
        {
            assert(self.names()[i as int] == self.entries@[i as int].0@);
            if self.entries[i].0 == target {
                return Some(i);
            }
            i = i + 1;
        }
        None
    }

    /// The registered backends, in order.
    pub fn all(&self) -> (r: Vec<&B>)
        ensures
            r@.len() == self.backends().len(),
            forall|i: int| 0 <= i < r@.len() ==> *r@[i] == self.backends()[i],
    {
        let mut r: Vec<&B> = Vec::new();
        let mut i: usize = 0;
        while i < self.entries.len()
            invariant
                i <= self.entries@.len(),
                r@.len() == i,
                forall|j: int| 0 <= j < i ==> *r@[j] == self.backends()[j],
            decreases self.entries.len() - i,
        {
            r.push(&self.entries[i].1);
            i = i + 1;
        }
        r
    }

    /// Searches every registered backend, skipping those that fail, and
    /// merges the answers with `merge_search_results`: sorted by name,
    /// repeated listings dropped.
    pub fn search_all(&self, query: &str) -> (r: Result<Vec<Package>, CxpkgError>)
        ensures
            r matches Ok(v) && sorted_by_name(packages_view(v@)) && no_repeated_listing(
                packages_view(v@),
            ),
            self.names().len() == 0 ==> (r matches Ok(v) && v@.len() == 0),
            r matches Ok(v) && exists|answers: Seq<Result<Vec<Package>, CxpkgError>>|
                answers.len() == self.backends().len() && (forall|j: int|
                    #![trigger answers[j]]
                    0 <= j < answers.len() ==> call_ensures(B::search, (&self.backends()[j], query), answers[j]))
                    && packages_view(v@) == #[trigger] merged_results(answers),
    {
        let mut results: Vec<Result<Vec<Package>, CxpkgError>> = Vec::new();
        let mut i: usize = 0;
        while i < self.entries.len()
            invariant
                i <= self.entries@.len(),
                results@.len() == i,
                self.names().len() == self.entries@.len(),
                self.backends().len() == self.entries@.len(),
                forall|j: int|
                    #![trigger results@[j]]
                    0 <= j < i ==> call_ensures(B::search, (&self.backends()[j], query), results@[j]),
            decreases self.entries.len() - i,
        {
            assert(self.backends()[i as int] == self.entries@[i as int].1);
            let answer = self.entries[i].1.search(query);
            let ghost before = results@;
            results.push(answer);
            proof {
                assert forall|j: int| #![trigger results@[j]] 0 <= j <= i implies call_ensures(
                    B::search,
                    (&self.backends()[j], query),
                    results@[j],
                ) by {
                    if j < i {
                        assert(results@[j] == before[j]);
                    }
                }
            }
            i = i + 1;
        }
        let ghost rv = results@;
        proof {
            if rv.len() == 0 {
                assert(successful_results(rv) =~= Seq::<PackageModel>::empty());
                assert(sort_by_name(Seq::<PackageModel>::empty()) =~= Seq::<PackageModel>::empty());
                assert(dedup_listings(Seq::<PackageModel>::empty()) =~= Seq::<PackageModel>::empty());
            }
        }
        let v = merge_search_results(results);
        assert(packages_view(v@).len() == v@.len());
        assert(packages_view(v@) == merged_results(rv));
        Ok(v)
    }

    /// The indices of the registered backends named `filter`, in order;
    /// all of them when there is no filter.
    pub fn selected(&self, filter: Option<&str>) -> (r: Vec<usize>)
        ensures
            r@.map_values(|i: usize| i as int) == selected_indices(
                self.names(),
                filter_view(filter),
                self.names().len() as int,
            ),
            forall|k: int| 0 <= k < r@.len() ==> r@[k] < self.names().len(),
    {
        let mut r: Vec<usize> = Vec::new();
        let mut i: usize = 0;
        while i < self.entries.len()
            invariant
                i <= self.entries@.len(),
                self.names().len() == self.entries@.len(),
                r@.map_values(|i: usize| i as int) == selected_indices(self.names(), filter_view(filter), i as int),
                forall|k: int| 0 <= k < r@.len() ==> r@[k] < i,
            decreases self.entries.len() - i,
        {
            assert(self.names()[i as int] == self.entries@[i as int].0@);
            let wanted = match filter {
                Some(f) => self.entries[i].0 == f.to_owned(),
                None => true,
            };
            let ghost before = r@;
            if wanted {
                r.push(i);
                assert(r@.map_values(|i: usize| i as int) =~= before.map_values(|i: usize| i as int).push(i as int));
            }
            i = i + 1;
        }
        r
    }

    /// What `list` shows: the installed packages, or with `upgradable` the
    /// upgradable ones, of the backends that `selected` picks for `filter`,
    /// in order. Backends that fail are skipped.
    pub fn list_packages(&self, upgradable: bool, filter: Option<&str>) -> (r: Vec<Package>)
        ensures
            exists|answers: Seq<Result<Vec<Package>, CxpkgError>>|
                answers.len() == selected_indices(
                    self.names(),
                    filter_view(filter),
                    self.names().len() as int,
                ).len() && (forall|j: int|
                    #![trigger answers[j]]
                    0 <= j < answers.len() ==> listing_answer(
                        &self.backends()[selected_indices(
                            self.names(),
                            filter_view(filter),
                            self.names().len() as int,
                        )[j]],
                        upgradable,
                        answers[j],
                    )) && packages_view(r@) == #[trigger] successful_results(answers),
            (match filter {
                Some(f) => forall|i: int| 0 <= i < self.names().len() ==> self.names()[i] != f@,
                None => self.names().len() == 0,
            }) ==> r@.len() == 0,
    {
        let chosen = self.selected(filter);
        proof {
            lemma_selected_none(self.names(), filter_view(filter), self.names().len() as int);
            assert(chosen@.map_values(|i: usize| i as int).len() == chosen@.len());
        }
        let ghost sel = selected_indices(self.names(), filter_view(filter), self.names().len() as int);
        let mut results: Vec<Result<Vec<Package>, CxpkgError>> = Vec::new();
        let mut k: usize = 0;
        while k < chosen.len()
            invariant
                k <= chosen@.len(),
                results@.len() == k,
                forall|j: int| 0 <= j < chosen@.len() ==> chosen@[j] < self.entries@.len(),
                self.names().len() == self.entries@.len(),
                self.backends().len() == self.entries@.len(),
                chosen@.map_values(|i: usize| i as int) == sel,
                forall|j: int|
                    #![trigger results@[j]]
                    0 <= j < k ==> listing_answer(&self.backends()[sel[j]], upgradable, results@[j]),
            decreases chosen.len() - k,
        {
            let i = chosen[k];
            assert(sel[k as int] == i as int);
            assert(self.backends()[i as int] == self.entries@[i as int].1);
            let answer = if upgradable {
                self.entries[i].1.list_upgradable()
            } else {
                self.entries[i].1.list_installed()
            };
            assert(listing_answer(&self.backends()[sel[k as int]], upgradable, answer));
            let ghost before = results@;
            results.push(answer);
            proof {
                assert forall|j: int| #![trigger results@[j]] 0 <= j <= k implies listing_answer(
                    &self.backends()[sel[j]],
                    upgradable,
                    results@[j],
                ) by {
                    if j < k {
                        assert(results@[j] == before[j]);
                    }
                }
            }
            k = k + 1;
        }
        let ghost rv = results@;
        proof {
            if rv.len() == 0 {
                assert(successful_results(rv) =~= Seq::<PackageModel>::empty());
            }
        }
        let r = concat_listings(results);
        assert(packages_view(r@) == successful_results(rv));
        r
    }

    /// Looks a package up. A query bound to a backend that is registered
    /// gets that backend's answer as it is. Otherwise the backends are
    /// asked in order until one has the package, and `first_found` picks
    /// it from their answers: the first backend that can satisfy the
    /// request wins, failures count as not found, and `Ok(None)` comes
    /// when none has it.
    pub fn find_package(&self, query: &PackageQuery) -> (r: Result<Option<Package>, CxpkgError>)
        ensures
            (match query@.backend {
                Some(k) => forall|i: int| 0 <= i < self.names().len() ==> self.names()[i] != backend_name(k),
                None => true,
            }) ==> (r is Ok && exists|answers: Seq<Result<Option<Package>, CxpkgError>>|
                answers.len() <= self.backends().len() && (forall|j: int|
                    #![trigger answers[j]]
                    0 <= j < answers.len() ==> call_ensures(B::info, (&self.backends()[j], query), answers[j]))
                    && (answers.len() < self.backends().len() ==> #[trigger] first_found_spec(answers)
                    is Some) && (r matches Ok(o) && opt_package(o) == first_found_spec(answers))),
            (match query@.backend {
                Some(k) => (exists|i: int| first_named(self.names(), backend_name(k), i)) ==> exists|i: int|
                    #[trigger] first_named(self.names(), backend_name(k), i) && call_ensures(
                        B::info,
                        (&self.backends()[i], query),
                        r,
                    ),
                None => true,
            }),
            self.names().len() == 0 ==> r matches Ok(None),
    {
        match &query.backend {
            Some(kind) => {
                let name = kind.to_string();
                match self.get(name.as_str()) {
                    Some(backend) => {
                        return backend.info(query);
                    },
                    None => {},
                }
            },
            None => {},
        }
        let mut answers: Vec<Result<Option<Package>, CxpkgError>> = Vec::new();
        let mut i: usize = 0;
        while i < self.entries.len()
            invariant
                i <= self.entries@.len(),
                answers@.len() == i,
                self.backends().len() == self.entries@.len(),
                self.names().len() == self.entries@.len(),
                first_found_spec(answers@) is None,
                forall|j: int|
                    #![trigger answers@[j]]
                    0 <= j < i ==> call_ensures(B::info, (&self.backends()[j], query), answers@[j]),
                match query@.backend {
                    Some(k) => forall|j: int| 0 <= j < self.names().len() ==> self.names()[j] != backend_name(k),
                    None => true,
                },
            decreases self.entries.len() - i,
        {
            assert(self.backends()[i as int] == self.entries@[i as int].1);
            let answer = self.entries[i].1.info(query);
            let hit = match &answer {
                Ok(Some(_)) => true,
                _ => false,
            };
            assert(call_ensures(B::info, (&self.backends()[i as int], query), answer));
            let ghost before = answers@;
            answers.push(answer);
            proof {
                lemma_first_found_push(before, answer);
                assert(answers@[i as int] == answer);
            }
            proof {
                assert forall|j: int| #![trigger answers@[j]] 0 <= j <= i implies call_ensures(B::info, (&self.backends()[j], query), answers@[j]) by {
                    if j < i {
                        assert(answers@[j] == before[j]);
                    }
                }
                match query@.backend {
                    Some(k) => {
                        assert(forall|j: int| 0 <= j < self.names().len() ==> self.names()[j] != backend_name(k));
                    },
                    None => {},
                }
            }
            if hit {
                let ghost all = answers@;
                let found = first_found(answers);
                assert(opt_package(found) == first_found_spec(all));
                assert(all.len() <= self.backends().len() && (forall|j: int|
                    #![trigger all[j]]
                    0 <= j < all.len() ==> call_ensures(B::info, (&self.backends()[j], query), all[j]))
                    && (all.len() < self.backends().len() ==> first_found_spec(all) is Some));
                proof {
                    match query@.backend {
                        Some(k) => {
                            assert forall|j: int| !first_named(self.names(), backend_name(k), j) by {
                                if 0 <= j < self.names().len() {
                                    assert(self.names()[j] != backend_name(k));
                                }
                            }
                        },
                        None => {},
                    }
                }
                return Ok(found);
            }
            i = i + 1;
        }
        let ghost all = answers@;
        let found = first_found(answers);
        assert(opt_package(found) == first_found_spec(all));
        assert(all.len() <= self.backends().len() && (forall|j: int|
            #![trigger all[j]]
            0 <= j < all.len() ==> call_ensures(B::info, (&self.backends()[j], query), all[j]))
            && (all.len() < self.backends().len() ==> first_found_spec(all) is Some));
        proof {
            match query@.backend {
                Some(k) => {
                    assert forall|j: int| !first_named(self.names(), backend_name(k), j) by {
                        if 0 <= j < self.names().len() {
                            assert(self.names()[j] != backend_name(k));
                        }
                    }
                },
                None => {},
            }
        }
        Ok(found)
    }
}

/// A package that `first_found_spec` picks is, as a model, one of the
/// answers.
proof fn lemma_first_found_in(answers: Seq<Result<Option<Package>, CxpkgError>>)
    requires
        first_found_spec(answers) is Some,
    ensures
        exists|j: int|
            0 <= j < answers.len() && (#[trigger] answers[j] matches Ok(Some(a)) && Some(a@)
                == first_found_spec(answers)),
    decreases answers.len(),
{
    match answers[0] {
        Ok(Some(a)) => {
            assert(answers[0] matches Ok(Some(a)) && Some(a@) == first_found_spec(answers));
        },
        _ => {
            lemma_first_found_in(answers.drop_first());
            let j = choose|j: int|
                0 <= j < answers.drop_first().len() && (#[trigger] answers.drop_first()[j] matches Ok(
                    Some(a),
                ) && Some(a@) == first_found_spec(answers.drop_first()));
            assert(answers[j + 1] == answers.drop_first()[j]);
        },
    }
}

/// A package that a lookup finds is one that a registered backend can
/// answer to that very query: the lookup hands on what a backend said.
pub proof fn law_found_package_was_answered<B: Backend>(
    reg: &BackendRegistry<B>,
    query: &PackageQuery,
    p: Package,
)
    requires
        call_ensures(BackendRegistry::<B>::find_package, (reg, query), Ok::<Option<Package>, CxpkgError>(Some(p))),
    ensures
        exists|j: int, a: Package|
            0 <= j < reg.backends().len() && a@ == p@ && #[trigger] call_ensures(
                B::info,
                (&reg.backends()[j], query),
                Ok::<Option<Package>, CxpkgError>(Some(a)),
            ),
{
    let bound_registered = match query@.backend {
        Some(k) => exists|i: int| first_named(reg.names(), backend_name(k), i),
        None => false,
    };
    if bound_registered {
        let k = query@.backend->Some_0;
        let i = choose|i: int|
            #[trigger] first_named(reg.names(), backend_name(k), i) && call_ensures(
                B::info,
                (&reg.backends()[i], query),
                Ok::<Option<Package>, CxpkgError>(Some(p)),
            );
        assert(call_ensures(B::info, (&reg.backends()[i], query), Ok::<Option<Package>, CxpkgError>(Some(p))));
    } else {
        match query@.backend {
            Some(k) => {
                assert forall|i: int| 0 <= i < reg.names().len() implies reg.names()[i] != backend_name(k) by {
                    if reg.names()[i] == backend_name(k) {
                        lemma_first_named_exists(reg.names(), backend_name(k), i);
                    }
                }
            },
            None => {},
        }
        let answers = choose|answers: Seq<Result<Option<Package>, CxpkgError>>|
            answers.len() <= reg.backends().len() && (forall|j: int|
                #![trigger answers[j]]
                0 <= j < answers.len() ==> call_ensures(B::info, (&reg.backends()[j], query), answers[j]))
                && (answers.len() < reg.backends().len() ==> #[trigger] first_found_spec(answers) is Some)
                && first_found_spec(answers) == Some(p@);
        lemma_first_found_in(answers);
        let j = choose|j: int|
            0 <= j < answers.len() && (#[trigger] answers[j] matches Ok(Some(a)) && Some(a@)
                == first_found_spec(answers));
        assert(call_ensures(B::info, (&reg.backends()[j], query), answers[j]));
        match answers[j] {
            Ok(Some(a)) => {
                assert(a@ == p@);
                assert(call_ensures(B::info, (&reg.backends()[j], query), Ok::<Option<Package>, CxpkgError>(Some(a))));
            },
            _ => {},
        }
    }
}

/// A search shows what the backends answer to the caller's query: for
/// some answers that the registered backends, in order, can give to
/// `search(query)`, every package shown is one of their packages, every
/// package they list shows under its name and backend, and the result is
/// sorted by name without repeated listings.
pub proof fn law_search_shows_answers<B: Backend>(
    reg: &BackendRegistry<B>,
    query: &str,
    r: Result<Vec<Package>, CxpkgError>,
)
    requires
        call_ensures(BackendRegistry::<B>::search_all, (reg, query), r),
    ensures
        r matches Ok(v) && exists|answers: Seq<Result<Vec<Package>, CxpkgError>>|
            answers.len() == reg.backends().len() && (forall|j: int|
                #![trigger answers[j]]
                0 <= j < answers.len() ==> call_ensures(B::search, (&reg.backends()[j], query), answers[j]))
                && (forall|i: int|
                0 <= i < v@.len() ==> #[trigger] successful_results(answers).contains(v@[i]@)) && (forall|
                p: PackageModel,
            |
                #[trigger] successful_results(answers).contains(p) ==> exists|i: int|
                    0 <= i < v@.len() && same_listing(p, #[trigger] v@[i]@)) && sorted_by_name(
                packages_view(v@),
            ) && no_repeated_listing(packages_view(v@)),
{
    let v = r->Ok_0;
    let answers = choose|answers: Seq<Result<Vec<Package>, CxpkgError>>|
        answers.len() == reg.backends().len() && (forall|j: int|
            #![trigger answers[j]]
            0 <= j < answers.len() ==> call_ensures(B::search, (&reg.backends()[j], query), answers[j]))
            && packages_view(v@) == #[trigger] merged_results(answers);
    let all = successful_results(answers);
    lemma_dedup_listings(sort_by_name(all));
    assert forall|i: int| 0 <= i < v@.len() implies #[trigger] all.contains(v@[i]@) by {
        assert(packages_view(v@)[i] == v@[i]@);
        let d = dedup_listings(sort_by_name(all));
        let k = choose|k: int| 0 <= k < sort_by_name(all).len() && #[trigger] d[i] == sort_by_name(all)[k];
        lemma_sort_by_name_contains(all, v@[i]@);
        assert(sort_by_name(all)[k] == v@[i]@);
    }
    assert forall|p: PackageModel| #[trigger] all.contains(p) implies exists|i: int|
        0 <= i < v@.len() && same_listing(p, #[trigger] v@[i]@) by {
        law_search_keeps_listings(answers, p);
        let i = choose|i: int| 0 <= i < merged_results(answers).len() && same_listing(p, #[trigger] merged_results(answers)[i]);
        assert(packages_view(v@)[i] == v@[i]@);
    }
}

/// A listing shows, in order, what the backends that `selected` picks
/// answer when asked for their installed (or upgradable) packages;
/// backends that fail add nothing.
pub proof fn law_listing_is_selected_answers<B: Backend>(
    reg: &BackendRegistry<B>,
    upgradable: bool,
    filter: Option<&str>,
    r: Vec<Package>,
)
    requires
        call_ensures(BackendRegistry::<B>::list_packages, (reg, upgradable, filter), r),
    ensures
        exists|answers: Seq<Result<Vec<Package>, CxpkgError>>|
            answers.len() == selected_indices(reg.names(), filter_view(filter), reg.names().len() as int).len()
                && (forall|j: int|
                #![trigger answers[j]]
                0 <= j < answers.len() ==> listing_answer(
                    &reg.backends()[selected_indices(reg.names(), filter_view(filter), reg.names().len() as int)[j]],
                    upgradable,
                    answers[j],
                )) && packages_view(r@) == #[trigger] successful_results(answers),
{
}

/// The package of the first answer that found one.
pub open spec fn first_found_spec(answers: Seq<Result<Option<Package>, CxpkgError>>) -> Option<PackageModel>
    decreases answers.len(),
{
    if answers.len() == 0 {
        None
    } else {
        match answers[0] {
            Ok(Some(p)) => Some(p@),
            _ => first_found_spec(answers.drop_first()),
        }
    }
}

/// An answer added at the end decides only when none before it found the
/// package.
proof fn lemma_first_found_push(s: Seq<Result<Option<Package>, CxpkgError>>, a: Result<Option<Package>, CxpkgError>)
    ensures
        first_found_spec(s) is Some ==> first_found_spec(s.push(a)) == first_found_spec(s),
        first_found_spec(s) is None ==> first_found_spec(s.push(a)) == (match a {
            Ok(Some(p)) => Some(p@),
            _ => None,
        }),
    decreases s.len(),
{
    if s.len() > 0 {
        assert(s.push(a)[0] == s[0]);
        assert(s.push(a).drop_first() =~= s.drop_first().push(a));
        lemma_first_found_push(s.drop_first(), a);
    } else {
        assert(s.push(a)[0] == a);
        assert(s.push(a).drop_first() =~= Seq::<Result<Option<Package>, CxpkgError>>::empty());
        assert(first_found_spec(s.push(a).drop_first()) is None);
    }
}

/// The package of the first answer that found one: failed answers and
/// answers without the package are passed over.
pub fn first_found(answers: Vec<Result<Option<Package>, CxpkgError>>) -> (r: Option<Package>)
    ensures
        opt_package(r) == first_found_spec(answers@),
{
    let ghost all = answers@;
    assert(all.skip(0) =~= all);
    for a in it: answers
        invariant
            it.seq() == all,
            first_found_spec(all) == first_found_spec(all.skip(it.index() as int)),
    {
        let ghost k = it.index() as int;
        assert(all.skip(k)[0] == a);
        assert(all.skip(k).drop_first() =~= all.skip(k + 1));
        match a {
            Ok(Some(p)) => {
                return Some(p);
            },
            _ => {},
        }
    }
    assert(all.skip(all.len() as int) =~= Seq::<Result<Option<Package>, CxpkgError>>::empty());
    None
}

impl<B: Backend> Default for BackendRegistry<B> {
    fn default() -> (r: BackendRegistry<B>)
        ensures
            r.names() == Seq::<Seq<char>>::empty(),
    {
        BackendRegistry::new()
    }
}

} // verus!
