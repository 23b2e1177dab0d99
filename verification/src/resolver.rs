//! Dependency resolution: resolution plans, install ordering with
//! dependencies first, and conflict detection.
use vstd::prelude::*;
use vstd::string::StringExecFns;
use vstd::multiset::Multiset;
use crate::error::{CxpkgError, CxpkgErrorModel};
use crate::backend::{Backend, BackendRegistry, law_found_package_was_answered};
use crate::package::{DependencyModel, Package, PackageModel, PackageQuery, PackageQueryModel, packages_view,
    strings_view};
use std::collections::VecDeque;

verus! {

// ---------------------------------------------------------------------
// Dependency order
// ---------------------------------------------------------------------

/// `p` requires (not optionally) a package named like `q`.
pub open spec fn depends_on(p: PackageModel, q: PackageModel) -> bool {
    exists|k: int|
        #![trigger p.dependencies[k]]
        0 <= k < p.dependencies.len() && !p.dependencies[k].optional && p.dependencies[k].name
            == q.name
}

/// No two packages of `ps` share a name.
pub open spec fn distinct_names(ps: Seq<PackageModel>) -> bool {
    forall|i: int, j: int| 0 <= i < j < ps.len() ==> ps[i].name != ps[j].name
}

/// Every package of `order` comes after the packages of `order` it requires.
pub open spec fn dependencies_first(order: Seq<PackageModel>) -> bool {
    forall|i: int, j: int|
        0 <= i < order.len() && 0 <= j < order.len() && #[trigger] depends_on(order[j], order[i])
            ==> i < j
}

/// `order` holds the packages of `ps`, each as often, dependencies first.
pub open spec fn is_install_order(order: Seq<PackageModel>, ps: Seq<PackageModel>) -> bool {
    order.to_multiset() == ps.to_multiset() && dependencies_first(order)
}

/// The packages of `ps` can be installed one after another, each after
/// the packages of `ps` that it requires.
pub open spec fn has_install_order(ps: Seq<PackageModel>) -> bool {
    exists|order: Seq<PackageModel>| is_install_order(order, ps)
}

/// The names of `ps`, in order.
pub open spec fn names_of(ps: Seq<PackageModel>) -> Seq<Seq<char>> {
    ps.map_values(|p: PackageModel| p.name)
}

/// The pieces of `s` with `sep` between each two.
pub open spec fn join(s: Seq<Seq<char>>, sep: Seq<char>) -> Seq<char>
    decreases s.len(),
{
    if s.len() == 0 {
        seq![]
    } else if s.len() == 1 {
        s[0]
    } else {
        join(s.drop_last(), sep) + sep + s.last()
    }
}

/// Joins the names of `packages` with `, `.
pub fn join_names(packages: &Vec<Package>) -> (s: String)
    ensures
        s@ == join(names_of(packages_view(packages@)), ", "@),
{
    let ghost names = names_of(packages_view(packages@));
    let mut s = String::new();
    let mut i: usize = 0;
    while i < packages.len()
        invariant
            i <= packages@.len(),
            names == names_of(packages_view(packages@)),
            names.len() == packages@.len(),
            s@ == join(names.take(i as int), ", "@),
        decreases packages.len() - i,
    {
        assert(names.take(i + 1).drop_last() =~= names.take(i as int));
        assert(names[i as int] == packages@[i as int].name@);
        if i > 0 {
            s.append(", ");
        } else {
            assert(names.take(1) =~= seq![names[0]]);
        }
        s.append(packages[i].name.as_str());
        i = i + 1;
    }
    assert(names.take(i as int) =~= names);
    s
}

/// Joins `parts` with `sep` between each two.
pub fn join_strings(parts: &Vec<String>, sep: &str) -> (s: String)
    ensures
        s@ == join(strings_view(parts@), sep@),
{
    let ghost pieces = strings_view(parts@);
    let mut s = String::new();
    let mut i: usize = 0;
    while i < parts.len()
        invariant
            i <= parts@.len(),
            pieces == strings_view(parts@),
            pieces.len() == parts@.len(),
            s@ == join(pieces.take(i as int), sep@),
        decreases parts.len() - i,
    {
        assert(pieces.take(i + 1).drop_last() =~= pieces.take(i as int));
        assert(pieces[i as int] == parts@[i as int]@);
        if i > 0 {
            s.append(sep);
        } else {
            assert(pieces.take(1) =~= seq![pieces[0]]);
        }
        s.append(parts[i].as_str());
        i = i + 1;
    }
    assert(pieces.take(i as int) =~= pieces);
    s
}

/// Whether some required dependency of `p` names a package of `others`.
fn depends_on_any(p: &Package, others: &Vec<Package>) -> (b: bool)
    ensures
        b == blocked_by(p@, packages_view(others@)),
{
    reveal(blocked_by);
    let mut k: usize = 0;
    while k < p.dependencies.len()
        invariant
            k <= p.dependencies@.len(),
            forall|kk: int, j: int|
                0 <= kk < k && 0 <= j < others@.len() && !p.dependencies@[kk].optional ==> #[trigger] p.dependencies@[kk].name@
                    != #[trigger] others@[j].name@,
        decreases p.dependencies.len() - k,
    {
        if !p.dependencies[k].optional {
            let mut j: usize = 0;
            while j < others.len()
                invariant
                    k < p.dependencies@.len(),
                    !p.dependencies@[k as int].optional,
                    j <= others@.len(),
                    forall|jj: int| 0 <= jj < j ==> p.dependencies@[k as int].name@ != #[trigger] others@[jj].name@,
                decreases others.len() - j,
            {
                if p.dependencies[k].name == others[j].name {
                    assert(p@.dependencies[k as int] == p.dependencies@[k as int]@);
                    assert(depends_on(p@, others@[j as int]@));
                    assert(packages_view(others@)[j as int] == others@[j as int]@);
                    assert(depends_on(p@, packages_view(others@)[j as int]));
                    proof {
                        reveal(blocked_by);
                    }
                    return true;
                }
                j = j + 1;
            }
        }
        k = k + 1;
    }
    assert forall|j: int| 0 <= j < others@.len() implies !depends_on(p@, #[trigger] packages_view(others@)[j]) by {
        assert(packages_view(others@)[j] == others@[j]@);
        assert forall|kk: int| 0 <= kk < p@.dependencies.len() && !p@.dependencies[kk].optional implies p@.dependencies[kk].name != others@[j]@.name by {
            assert(p@.dependencies[kk] == p.dependencies@[kk]@);
            assert(p.dependencies@[kk].name@ != others@[j].name@);
        }
    }
    false
}

/// Whether the names of `packages` are pairwise different.
fn names_are_distinct(packages: &Vec<Package>) -> (b: bool)
    ensures
        b == distinct_names(packages_view(packages@)),
{
    let mut i: usize = 0;
    while i < packages.len()
        invariant
            i <= packages@.len(),
            forall|a: int, b: int| 0 <= a < i && a < b < packages@.len() ==> #[trigger] packages@[a].name@
                != #[trigger] packages@[b].name@,
        decreases packages.len() - i,
    {
        let mut j: usize = i + 1;
        while j < packages.len()
            invariant
                i < j <= packages@.len(),
                forall|a: int, b: int| 0 <= a < i && a < b < packages@.len() ==> #[trigger] packages@[a].name@
                    != #[trigger] packages@[b].name@,
                forall|b: int| i < b < j ==> packages@[i as int].name@ != #[trigger] packages@[b].name@,
            decreases packages.len() - j,
        {
            if packages[i].name == packages[j].name {
                assert(packages_view(packages@)[i as int].name == packages_view(packages@)[j as int].name);
                return false;
            }
            j = j + 1;
        }
        i = i + 1;
    }
    assert forall|a: int, b: int| 0 <= a < b < packages@.len() implies packages_view(packages@)[a].name != packages_view(packages@)[b].name by {
        assert(packages@[a].name@ != packages@[b].name@);
    }
    true
}

/// `p` requires some package of `rest`.
#[verifier::opaque]
pub open spec fn blocked_by(p: PackageModel, rest: Seq<PackageModel>) -> bool {
    exists|j: int| 0 <= j < rest.len() && #[trigger] depends_on(p, rest[j])
}

/// Every package of `rest` requires another package of `rest`.
#[verifier::opaque]
pub open spec fn all_blocked(rest: Seq<PackageModel>) -> bool {
    forall|i: int| 0 <= i < rest.len() ==> #[trigger] blocked_by(rest[i], rest)
}

/// When every package of `rest` requires another package of `rest`, no
/// install order of `ps` exists, for `rest` nonempty and inside `ps`.
proof fn lemma_stuck_means_no_order(ps: Seq<PackageModel>, rest: Seq<PackageModel>)
    requires
        rest.len() > 0,
        forall|x: PackageModel| rest.contains(x) ==> ps.contains(x),
        all_blocked(rest),
    ensures
        !has_install_order(ps),
{
    broadcast use vstd::seq_lib::group_to_multiset_ensures;

    if has_install_order(ps) {
        let order = choose|order: Seq<PackageModel>| is_install_order(order, ps);
        assert(ps.contains(rest[0]));
        assert(ps.to_multiset().count(rest[0]) > 0);
        assert(order.to_multiset().count(rest[0]) > 0);
        assert(order.contains(rest[0]));
        let p = choose|p: int| 0 <= p < order.len() && order[p] == rest[0];
        lemma_descent(ps, rest, order, p);
    }
}

proof fn lemma_descent(ps: Seq<PackageModel>, rest: Seq<PackageModel>, order: Seq<PackageModel>, p: int)
    requires
        forall|x: PackageModel| rest.contains(x) ==> ps.contains(x),
        all_blocked(rest),
        order.to_multiset() == ps.to_multiset(),
        0 <= p < order.len(),
        rest.contains(order[p]),
    ensures
        !dependencies_first(order),
    decreases p,
{
    broadcast use vstd::seq_lib::group_to_multiset_ensures;

    if dependencies_first(order) {
        reveal(all_blocked);
        reveal(blocked_by);
        let i = choose|i: int| 0 <= i < rest.len() && rest[i] == order[p];
        assert(blocked_by(rest[i], rest));
        let j = choose|j: int| 0 <= j < rest.len() && #[trigger] depends_on(rest[i], rest[j]);
        let q = rest[j];
        assert(rest.contains(q));
        assert(ps.contains(q));
        assert(ps.to_multiset().count(q) > 0);
        assert(order.to_multiset().count(q) > 0);
        assert(order.contains(q));
        let qi = choose|qi: int| 0 <= qi < order.len() && order[qi] == q;
        assert(depends_on(order[p], order[qi]));
        assert(qi < p);
        lemma_descent(ps, rest, order, qi);
    }
}

/// Index of the first package of `rest` that requires no package of
/// `rest`, or `rest.len()` when every one does.
fn first_ready(rest: &Vec<Package>) -> (i: usize)
    ensures
        i <= rest@.len(),
        i < rest@.len() ==> !blocked_by(rest@[i as int]@, packages_view(rest@)),
        i == rest@.len() ==> all_blocked(packages_view(rest@)),
{
    let ghost v = packages_view(rest@);
    let mut i: usize = 0;
    while i < rest.len()
        invariant
            i <= rest@.len(),
            v == packages_view(rest@),
            forall|k: int| 0 <= k < i ==> #[trigger] blocked_by(v[k], v),
        decreases rest.len() - i,
    {
        if !depends_on_any(&rest[i], rest) {
            return i;
        }
        assert(v[i as int] == rest@[i as int]@);
        i = i + 1;
    }
    proof {
        reveal(all_blocked);
    }
    i
}

/// Orders `packages` so that each comes after the packages of the list it
/// requires. Fails with `DependencyCycle`, naming all the packages, when
/// two share a name or no such order exists.
pub fn topological_sort(packages: Vec<Package>) -> (r: Result<Vec<Package>, CxpkgError>)
    ensures
        match r {
            Ok(sorted) => distinct_names(packages_view(packages@)) && distinct_names(
                packages_view(sorted@),
            ) && is_install_order(packages_view(sorted@), packages_view(packages@)),
            Err(e) => e@ == CxpkgErrorModel::DependencyCycle(
                join(names_of(packages_view(packages@)), ", "@),
            ) && !(distinct_names(packages_view(packages@)) && has_install_order(
                packages_view(packages@),
            )),
        },
{
    let ghost input = packages_view(packages@);
    let message = join_names(&packages);
    if !names_are_distinct(&packages) {
        return Err(CxpkgError::DependencyCycle(message));
    }
    let mut remaining = packages;
    let mut sorted: Vec<Package> = Vec::new();
    proof {
        broadcast use vstd::seq_lib::group_to_multiset_ensures;
        broadcast use vstd::multiset::lemma_multiset_empty_len;
        assert(packages_view(sorted@) =~= Seq::<PackageModel>::empty());
        assert(packages_view(sorted@).to_multiset().len() == 0);
        assert(packages_view(sorted@).to_multiset() =~= Multiset::<PackageModel>::empty());
        assert(packages_view(sorted@).to_multiset().add(packages_view(remaining@).to_multiset())
            =~= input.to_multiset());
        assert(packages_view(sorted@) + packages_view(remaining@) =~= input);
    }
    while remaining.len() > 0
        invariant
            input == packages_view(packages@),
            message@ == join(names_of(input), ", "@),
            distinct_names(input),
            distinct_names(packages_view(sorted@) + packages_view(remaining@)),
            packages_view(sorted@).to_multiset().add(packages_view(remaining@).to_multiset())
                == input.to_multiset(),
            dependencies_first(packages_view(sorted@)),
            forall|i: int, j: int|
                0 <= i < sorted@.len() && 0 <= j < remaining@.len() ==> !#[trigger] depends_on(
                    sorted@[i]@,
                    #[trigger] remaining@[j]@,
                ),
        decreases remaining.len(),
    {
        let i = first_ready(&remaining);
        if i == remaining.len() {
            proof {
                let rest = packages_view(remaining@);
                broadcast use vstd::seq_lib::group_to_multiset_ensures;
                assert forall|x: PackageModel| rest.contains(x) implies input.contains(x) by {
                    assert(rest.to_multiset().count(x) > 0);
                    assert(input.to_multiset().count(x) > 0);
                }
                lemma_stuck_means_no_order(input, rest);
            }
            return Err(CxpkgError::DependencyCycle(message));
        }
        let ghost old_sorted = packages_view(sorted@);
        let ghost old_rem = packages_view(remaining@);
        let ghost old_sorted_exec = sorted@;
        let ghost old_rem_exec = remaining@;
        let p = remaining.remove(i);
        assert(packages_view(remaining@) =~= old_rem.remove(i as int));
        sorted.push(p);
        assert(packages_view(sorted@) =~= old_sorted.push(p@));
        proof {
            broadcast use vstd::seq_lib::group_to_multiset_ensures;
            reveal(blocked_by);
            assert(old_rem[i as int] == p@);
            assert(old_rem.to_multiset().remove(p@) =~= packages_view(remaining@).to_multiset());
            assert(packages_view(sorted@).to_multiset() =~= old_sorted.to_multiset().insert(p@));
            assert(old_rem.to_multiset().count(p@) > 0);
            assert(packages_view(sorted@).to_multiset().add(packages_view(remaining@).to_multiset())
                =~= old_sorted.to_multiset().add(old_rem.to_multiset()));
            let ns = packages_view(sorted@);
            let before = old_sorted + old_rem;
            let after = ns + packages_view(remaining@);
            let sl = old_sorted.len() as int;
            assert forall|a: int, b: int| 0 <= a < b < after.len() implies after[a].name != after[b].name by {
                let fa = if a < sl { a } else if a == sl { sl + i } else if a - sl - 1 < i { a - 1 } else { a };
                let fb = if b < sl { b } else if b == sl { sl + i } else if b - sl - 1 < i { b - 1 } else { b };
                assert(after[a] == before[fa]);
                assert(after[b] == before[fb]);
                assert(fa != fb);
                if fa < fb {
                    assert(before[fa].name != before[fb].name);
                } else {
                    assert(before[fb].name != before[fa].name);
                }
            }
            assert forall|a: int, b: int|
                0 <= a < ns.len() && 0 <= b < ns.len() && #[trigger] depends_on(ns[b], ns[a]) implies a < b by {
                if b == ns.len() - 1 {
                    if a == ns.len() - 1 {
                        assert(depends_on(old_rem_exec[i as int]@, old_rem_exec[i as int]@));
                    }
                } else if a == ns.len() - 1 {
                    assert(depends_on(old_sorted_exec[b]@, old_rem_exec[i as int]@));
                } else {
                    assert(ns[a] == old_sorted[a] && ns[b] == old_sorted[b]);
                }
            }
            assert forall|a: int, b: int|
                0 <= a < sorted@.len() && 0 <= b < remaining@.len() implies !#[trigger] depends_on(
                    sorted@[a]@,
                    #[trigger] remaining@[b]@,
                ) by {
                let ob = if b < i { b } else { b + 1 };
                assert(remaining@[b] == old_rem_exec[ob]);
                assert(old_rem[ob] == old_rem_exec[ob]@);
                if a < old_sorted_exec.len() {
                    assert(sorted@[a] == old_sorted_exec[a]);
                    assert(!depends_on(old_sorted_exec[a]@, old_rem_exec[ob]@));
                } else {
                    assert(sorted@[a] == old_rem_exec[i as int]);
                    assert(!depends_on(p@, old_rem[ob]));
                }
            }
        }
    }
    proof {
        broadcast use vstd::seq_lib::group_to_multiset_ensures;
        assert(packages_view(remaining@) =~= Seq::<PackageModel>::empty());
        assert(packages_view(remaining@).to_multiset() =~= Multiset::<PackageModel>::empty());
        assert(packages_view(sorted@).to_multiset() =~= input.to_multiset());
        assert(packages_view(sorted@) + packages_view(remaining@) =~= packages_view(sorted@));
    }
    Ok(sorted)
}

// ---------------------------------------------------------------------
// Resolution plans
// ---------------------------------------------------------------------

/// What an operation will do: packages to install (dependencies first),
/// remove and upgrade, and requested names that are already installed.
#[derive(Debug)]
pub struct ResolutionPlan {
    pub to_install: Vec<Package>,
    pub to_remove: Vec<Package>,
    pub to_upgrade: Vec<Package>,
    pub already_satisfied: Vec<String>,
}

pub struct PlanModel {
    pub to_install: Seq<PackageModel>,
    pub to_remove: Seq<PackageModel>,
    pub to_upgrade: Seq<PackageModel>,
    pub already_satisfied: Seq<Seq<char>>,
}

impl View for ResolutionPlan {
    type V = PlanModel;

    open spec fn view(&self) -> PlanModel {
        PlanModel {
            to_install: packages_view(self.to_install@),
            to_remove: packages_view(self.to_remove@),
            to_upgrade: packages_view(self.to_upgrade@),
            already_satisfied: strings_view(self.already_satisfied@),
        }
    }
}

/// The plan that does nothing.
pub open spec fn empty_plan() -> PlanModel {
    PlanModel {
        to_install: seq![],
        to_remove: seq![],
        to_upgrade: seq![],
        already_satisfied: seq![],
    }
}

/// The sum of the download sizes of `ps`.
pub open spec fn total_size(ps: Seq<PackageModel>) -> nat
    decreases ps.len(),
{
    if ps.len() == 0 {
        0
    } else {
        total_size(ps.drop_last()) + ps.last().size as nat
    }
}

proof fn lemma_total_size_prefix(ps: Seq<PackageModel>, k: int)
    requires
        0 <= k <= ps.len(),
    ensures
        total_size(ps.take(k)) <= total_size(ps),
    decreases ps.len(),
{
    if k < ps.len() {
        lemma_total_size_prefix(ps.drop_last(), k);
        assert(ps.drop_last().take(k) =~= ps.take(k));
    } else {
        assert(ps.take(k) =~= ps);
    }
}

impl Default for ResolutionPlan {
    fn default() -> (p: ResolutionPlan)
        ensures
            p@ == empty_plan(),
    {
        let p = ResolutionPlan {
            to_install: Vec::new(),
            to_remove: Vec::new(),
            to_upgrade: Vec::new(),
            already_satisfied: Vec::new(),
        };
        assert(p@.to_install =~= Seq::<PackageModel>::empty());
        assert(p@.to_remove =~= Seq::<PackageModel>::empty());
        assert(p@.to_upgrade =~= Seq::<PackageModel>::empty());
        assert(p@.already_satisfied =~= Seq::<Seq<char>>::empty());
        p
    }
}

impl ResolutionPlan {
    /// Whether the plan installs, removes and upgrades nothing.
    pub fn is_empty(&self) -> (b: bool)
        ensures
            b == (self@.to_install.len() == 0 && self@.to_remove.len() == 0
                && self@.to_upgrade.len() == 0),
    {
        self.to_install.len() == 0 && self.to_remove.len() == 0 && self.to_upgrade.len() == 0
    }

    /// The number of packages to install or upgrade.
    pub fn package_count(&self) -> (n: usize)
        requires
            self@.to_install.len() + self@.to_upgrade.len() <= usize::MAX,
        ensures
            n == self@.to_install.len() + self@.to_upgrade.len(),
    {
        self.to_install.len() + self.to_upgrade.len()
    }

    /// The total download size of the packages to install and upgrade.
    pub fn total_download_size(&self) -> (n: u64)
        requires
            total_size(self@.to_install + self@.to_upgrade) <= u64::MAX,
        ensures
            n == total_size(self@.to_install + self@.to_upgrade),
    {
        let ghost all = self@.to_install + self@.to_upgrade;
        let mut n: u64 = 0;
        let mut i: usize = 0;
        while i < self.to_install.len()
            invariant
                all == self@.to_install + self@.to_upgrade,
                total_size(all) <= u64::MAX,
                i <= self@.to_install.len(),
                n == total_size(all.take(i as int)),
            decreases self.to_install.len() - i,
        {
            assert(all.take(i + 1).drop_last() =~= all.take(i as int));
            assert(all[i as int] == self.to_install@[i as int]@);
            proof {
                lemma_total_size_prefix(all, i + 1);
            }
            n = n + self.to_install[i].size;
            i = i + 1;
        }
        let mut j: usize = 0;
        while j < self.to_upgrade.len()
            invariant
                all == self@.to_install + self@.to_upgrade,
                total_size(all) <= u64::MAX,
                j <= self@.to_upgrade.len(),
                n == total_size(all.take(self@.to_install.len() + j)),
            decreases self.to_upgrade.len() - j,
        {
            let ghost k = self@.to_install.len() + j;
            assert(all.take(k + 1).drop_last() =~= all.take(k));
            assert(all[k] == self.to_upgrade@[j as int]@);
            proof {
                lemma_total_size_prefix(all, k + 1);
            }
            n = n + self.to_upgrade[j].size;
            j = j + 1;
        }
        assert(all.take(all.len() as int) =~= all);
        n
    }

    /// Whether the total download size fits in a `u64`, so that
    /// `total_download_size` may add it up.
    pub fn download_size_in_range(&self) -> (b: bool)
        ensures
            b == (total_size(self@.to_install + self@.to_upgrade) <= u64::MAX),
    {
        let ghost all = self@.to_install + self@.to_upgrade;
        let mut n: u64 = 0;
        let mut i: usize = 0;
        while i < self.to_install.len()
            invariant
                all == self@.to_install + self@.to_upgrade,
                i <= self@.to_install.len(),
                n == total_size(all.take(i as int)),
            decreases self.to_install.len() - i,
        {
            assert(all.take(i + 1).drop_last() =~= all.take(i as int));
            assert(all[i as int] == self.to_install@[i as int]@);
            let size = self.to_install[i].size;
            if n > u64::MAX - size {
                proof {
                    lemma_total_size_prefix(all, i + 1);
                }
                return false;
            }
            n = n + size;
            i = i + 1;
        }
        let mut j: usize = 0;
        while j < self.to_upgrade.len()
            invariant
                all == self@.to_install + self@.to_upgrade,
                j <= self@.to_upgrade.len(),
                n == total_size(all.take(self@.to_install.len() + j)),
            decreases self.to_upgrade.len() - j,
        {
            let ghost k = self@.to_install.len() + j;
            assert(all.take(k + 1).drop_last() =~= all.take(k));
            assert(all[k] == self.to_upgrade@[j as int]@);
            let size = self.to_upgrade[j].size;
            if n > u64::MAX - size {
                proof {
                    lemma_total_size_prefix(all, k + 1);
                }
                return false;
            }
            n = n + size;
            j = j + 1;
        }
        assert(all.take(all.len() as int) =~= all);
        true
    }
}

// ---------------------------------------------------------------------
// Conflicts
// ---------------------------------------------------------------------

/// Conflict `c` of package `i` of `ps` names a package of `ps`.
pub open spec fn clash_at(ps: Seq<PackageModel>, i: int, c: int) -> bool {
    &&& 0 <= i < ps.len()
    &&& 0 <= c < ps[i].conflicts.len()
    &&& exists|j: int| 0 <= j < ps.len() && #[trigger] ps[j].name == ps[i].conflicts[c]
}

/// The message for conflict `c` of package `i`.
pub open spec fn clash_message(ps: Seq<PackageModel>, i: int, c: int) -> Seq<char> {
    ps[i].name + " conflicts with "@ + ps[i].conflicts[c]
}

/// Whether some package of `ps` is named `n`.
fn has_package_named(ps: &Vec<Package>, n: &String) -> (b: bool)
    ensures
        b == exists|j: int| 0 <= j < ps@.len() && #[trigger] packages_view(ps@)[j].name == n@,
{
    let mut j: usize = 0;
    while j < ps.len()
        invariant
            j <= ps@.len(),
            forall|k: int| 0 <= k < j ==> packages_view(ps@)[k].name != n@,
        decreases ps.len() - j,
    {
        assert(packages_view(ps@)[j as int] == ps@[j as int]@);
        if ps[j].name == *n {
            assert(packages_view(ps@)[j as int].name == n@);
            return true;
        }
        j = j + 1;
    }
    false
}

// ---------------------------------------------------------------------
// The resolver
// ---------------------------------------------------------------------

/// Works out plans against the backends of a registry.
pub struct Resolver<'a, B> {
    registry: &'a BackendRegistry<B>,
}

impl<'a, B: Backend> Resolver<'a, B> {
    pub fn new(registry: &'a BackendRegistry<B>) -> (r: Resolver<'a, B>)
        ensures
            r.registry() == registry,
    {
        Resolver { registry }
    }

    pub closed spec fn registry(&self) -> &'a BackendRegistry<B> {
        self.registry
    }

    /// Fails with `DependencyConflict` when a package to install declares
    /// a conflict with a package to install (itself included), naming the
    /// first such package and conflict.
    pub fn check_conflicts(&self, plan: &ResolutionPlan) -> (r: Result<(), CxpkgError>)
        ensures
            match r {
                Ok(()) => forall|i: int, c: int| !clash_at(plan@.to_install, i, c),
                Err(e) => exists|i: int, c: int|
                    #![trigger clash_at(plan@.to_install, i, c)]
                    clash_at(plan@.to_install, i, c) && (forall|i2: int, c2: int|
                        (i2 < i || (i2 == i && c2 < c)) ==> !clash_at(plan@.to_install, i2, c2))
                        && e@ == CxpkgErrorModel::DependencyConflict(
                        clash_message(plan@.to_install, i, c),
                    ),
            },
    {
        let ps = &plan.to_install;
        let ghost pv = plan@.to_install;
        let mut i: usize = 0;
        while i < ps.len()
            invariant
                pv == packages_view(ps@),
                pv == plan@.to_install,
                i <= ps@.len(),
                forall|i2: int, c2: int| i2 < i ==> !clash_at(pv, i2, c2),
            decreases ps.len() - i,
        {
            let mut c: usize = 0;
            while c < ps[i].conflicts.len()
                invariant
                    pv == packages_view(ps@),
                    pv == plan@.to_install,
                    i < ps@.len(),
                    c <= ps@[i as int].conflicts@.len(),
                    forall|i2: int, c2: int| (i2 < i || (i2 == i && c2 < c)) ==> !clash_at(pv, i2, c2),
                decreases ps[i as int].conflicts@.len() - c,
            {
                assert(pv[i as int].conflicts[c as int] == ps@[i as int].conflicts@[c as int]@);
                if has_package_named(ps, &ps[i].conflicts[c]) {
                    let mut m = ps[i].name.clone();
                    m.append(" conflicts with ");
                    m.append(ps[i].conflicts[c].as_str());
                    assert(clash_at(pv, i as int, c as int));
                    assert(m@ == clash_message(pv, i as int, c as int));
                    let e = CxpkgError::DependencyConflict(m);
                    assert(e@ == CxpkgErrorModel::DependencyConflict(clash_message(pv, i as int, c as int)));
                    assert(exists|i1: int, c1: int|
                        #![trigger clash_at(plan@.to_install, i1, c1)]
                        clash_at(plan@.to_install, i1, c1) && (forall|i2: int, c2: int|
                            (i2 < i1 || (i2 == i1 && c2 < c1)) ==> !clash_at(plan@.to_install, i2, c2))
                            && e@ == CxpkgErrorModel::DependencyConflict(
                            clash_message(plan@.to_install, i1, c1),
                        ));
                    return Err(e);
                }
                assert forall|c2: int| c2 <= c implies !clash_at(pv, i as int, c2) by {
                    if c2 == c {
                        assert(pv[i as int].conflicts[c2] == ps@[i as int].conflicts@[c as int]@);
                    }
                }
                c = c + 1;
            }
            assert forall|i2: int, c2: int| i2 < i + 1 implies !clash_at(pv, i2, c2) by {
                if i2 == i && 0 <= c2 < pv[i as int].conflicts.len() {
                    assert(pv[i as int].conflicts.len() == ps@[i as int].conflicts@.len());
                }
            }
            i = i + 1;
        }
        Ok(())
    }
}

/// Adds the package found for `name` to the removals; a package that no
/// backend has is an error, and so is a failed lookup.
pub fn add_removal(
    plan: &mut ResolutionPlan,
    name: &str,
    found: Result<Option<Package>, CxpkgError>,
) -> (r: Result<(), CxpkgError>)
    ensures
        match found {
            Ok(Some(p)) => r is Ok && final(plan)@ == (PlanModel {
                to_remove: old(plan)@.to_remove.push(p@),
                ..old(plan)@
            }),
            Ok(None) => r matches Err(e) && e@ == CxpkgErrorModel::PackageNotFound(name@)
                && final(plan)@ == old(plan)@,
            Err(e) => r == Err::<(), CxpkgError>(e) && final(plan)@ == old(plan)@,
        },
{
    match found {
        Ok(Some(p)) => {
            plan.to_remove.push(p);
            assert(final(plan)@.to_remove =~= old(plan)@.to_remove.push(p@));
            Ok(())
        },
        Ok(None) => Err(CxpkgError::PackageNotFound(name.to_owned())),
        Err(e) => Err(e),
    }
}

/// Adds the package found for `name` to the upgrades; a package that no
/// backend has is skipped, a failed lookup is an error.
pub fn add_upgrade(plan: &mut ResolutionPlan, found: Result<Option<Package>, CxpkgError>) -> (r:
    Result<(), CxpkgError>)
    ensures
        match found {
            Ok(Some(p)) => r is Ok && final(plan)@ == (PlanModel {
                to_upgrade: old(plan)@.to_upgrade.push(p@),
                ..old(plan)@
            }),
            Ok(None) => r is Ok && final(plan)@ == old(plan)@,
            Err(e) => r == Err::<(), CxpkgError>(e) && final(plan)@ == old(plan)@,
        },
{
    match found {
        Ok(Some(p)) => {
            plan.to_upgrade.push(p);
            assert(final(plan)@.to_upgrade =~= old(plan)@.to_upgrade.push(p@));
            Ok(())
        },
        Ok(None) => Ok(()),
        Err(e) => Err(e),
    }
}

/// The names that `names` hold.
pub open spec fn str_names(names: Seq<&str>) -> Seq<Seq<char>> {
    names.map_values(|n: &str| n@)
}

/// What an install plan owes its request: `looked` are the names that
/// were looked up, each once and every requested name among them, and
/// each lookup gave either one package to install or one name already
/// satisfied.
pub open spec fn accounts_for(plan: PlanModel, requested: Seq<Seq<char>>, looked: Seq<Seq<char>>) -> bool {
    &&& looked.no_duplicates()
    &&& forall|i: int| 0 <= i < requested.len() ==> looked.contains(#[trigger] requested[i])
    &&& forall|j: int|
        0 <= j < plan.already_satisfied.len() ==> looked.contains(#[trigger] plan.already_satisfied[j])
    &&& looked.len() == plan.to_install.len() + plan.already_satisfied.len()
    &&& plan.already_satisfied.no_duplicates()
    &&& deps_covered(plan.to_install, looked, seq![])
    &&& forall|i: int| 0 <= i < plan.to_install.len() ==> !(#[trigger] plan.to_install[i].state is Installed)
    &&& forall|j: int| 0 <= j < looked.len() ==> requested_or_required(#[trigger] looked[j], requested, plan.to_install)
}

/// `y` was requested or is a required dependency of a package of `ps`.
pub open spec fn requested_or_required(y: Seq<char>, requested: Seq<Seq<char>>, ps: Seq<PackageModel>) -> bool {
    requested.contains(y) || exists|i: int, k: int|
        #![trigger ps[i].dependencies[k]]
        0 <= i < ps.len() && 0 <= k < ps[i].dependencies.len() && !ps[i].dependencies[k].optional
            && ps[i].dependencies[k].name == y
}

/// Keeping every package of `ps` keeps what its dependencies account for.
proof fn lemma_required_kept(y: Seq<char>, requested: Seq<Seq<char>>, ps: Seq<PackageModel>, qs: Seq<PackageModel>)
    requires
        requested_or_required(y, requested, ps),
        forall|i: int| 0 <= i < ps.len() ==> qs.contains(#[trigger] ps[i]),
    ensures
        requested_or_required(y, requested, qs),
{
    if !requested.contains(y) {
        let (i, k) = choose|i: int, k: int|
            #![trigger ps[i].dependencies[k]]
            0 <= i < ps.len() && 0 <= k < ps[i].dependencies.len() && !ps[i].dependencies[k].optional
                && ps[i].dependencies[k].name == y;
        assert(qs.contains(ps[i]));
        let j = choose|j: int| 0 <= j < qs.len() && qs[j] == ps[i];
        assert(qs[j].dependencies[k] == ps[i].dependencies[k]);
    }
}

/// Each new requirement is a required dependency.
proof fn lemma_new_requirements_from(deps: Seq<DependencyModel>, v: Seq<Seq<char>>, m: int)
    requires
        0 <= m < new_requirements(deps, v).len(),
    ensures
        exists|k: int| 0 <= k < deps.len() && !deps[k].optional && #[trigger] deps[k].name == new_requirements(deps, v)[m],
    decreases deps.len(),
{
    let r = new_requirements(deps.drop_last(), v);
    if m < r.len() {
        lemma_new_requirements_from(deps.drop_last(), v, m);
        let k = choose|k: int| 0 <= k < deps.drop_last().len() && !deps.drop_last()[k].optional
            && #[trigger] deps.drop_last()[k].name == r[m];
        assert(deps[k] == deps.drop_last()[k]);
        assert(new_requirements(deps, v)[m] == r[m]);
    } else {
        assert(deps[deps.len() - 1].name == new_requirements(deps, v)[m]);
    }
}

/// Every required dependency of a package of `ps` is named in `looked`
/// or in `queued`.
pub open spec fn deps_covered(ps: Seq<PackageModel>, looked: Seq<Seq<char>>, queued: Seq<Seq<char>>) -> bool {
    forall|i: int, k: int|
        #![trigger ps[i].dependencies[k]]
        0 <= i < ps.len() && 0 <= k < ps[i].dependencies.len() && !ps[i].dependencies[k].optional
            ==> looked.contains(ps[i].dependencies[k].name) || queued.contains(ps[i].dependencies[k].name)
}

/// A name named in the looked-up or queued names stays so when the next
/// name is taken from the queue.
proof fn lemma_next_keeps_cover(p0: Seq<Seq<char>>, v0: Seq<Seq<char>>, y: Seq<char>)
    requires
        v0.contains(y) || p0.contains(y),
    ensures
        ({
            let k = first_unvisited(p0, v0);
            if k < p0.len() {
                v0.push(p0[k as int]).contains(y) || p0.skip(k + 1int).contains(y)
            } else {
                v0.contains(y)
            }
        }),
{
    lemma_first_unvisited(p0, v0);
    let k = first_unvisited(p0, v0);
    if v0.contains(y) {
        let m = choose|m: int| 0 <= m < v0.len() && v0[m] == y;
        assert(v0.push(p0[k as int])[m] == y);
    } else {
        let m = choose|m: int| 0 <= m < p0.len() && p0[m] == y;
        if m < k {
            assert(v0.contains(p0[m]));
        } else if m == k {
            assert(v0.push(p0[k as int])[v0.len() as int] == y);
        } else {
            assert(p0.skip(k + 1int)[m - k - 1] == y);
        }
    }
}

/// A required dependency was looked up already or is among the new
/// requirements.
proof fn lemma_new_requirements(deps: Seq<DependencyModel>, v: Seq<Seq<char>>, k: int)
    requires
        0 <= k < deps.len(),
        !deps[k].optional,
    ensures
        v.contains(deps[k].name) || new_requirements(deps, v).contains(deps[k].name),
    decreases deps.len(),
{
    let r = new_requirements(deps.drop_last(), v);
    if k < deps.len() - 1 {
        assert(deps.drop_last()[k] == deps[k]);
        lemma_new_requirements(deps.drop_last(), v, k);
        if r.contains(deps[k].name) {
            let m = choose|m: int| 0 <= m < r.len() && r[m] == deps[k].name;
            assert(new_requirements(deps, v)[m] == r[m]);
        }
    } else if !v.contains(deps[k].name) {
        assert(new_requirements(deps, v)[r.len() as int] == deps[k].name);
    }
}

/// The names in front of the first one not looked up yet were looked up.
proof fn lemma_first_unvisited(q: Seq<Seq<char>>, v: Seq<Seq<char>>)
    ensures
        first_unvisited(q, v) <= q.len(),
        forall|j: int| 0 <= j < first_unvisited(q, v) ==> v.contains(#[trigger] q[j]),
    decreases q.len(),
{
    if q.len() > 0 && v.contains(q[0]) {
        lemma_first_unvisited(q.drop_first(), v);
        assert forall|j: int| 0 <= j < first_unvisited(q, v) implies v.contains(#[trigger] q[j]) by {
            if j > 0 {
                assert(q[j] == q.drop_first()[j - 1]);
            }
        }
    }
}

/// `answer` is what `reg.find_package` can give for a plain query by
/// `name` (bound to no backend and no version).
pub open spec fn looked_up<B: Backend>(
    reg: &BackendRegistry<B>,
    name: Seq<char>,
    answer: Result<Option<Package>, CxpkgError>,
) -> bool {
    exists|q: PackageQuery|
        q@ == (PackageQueryModel { name, version_req: None, backend: None }) && #[trigger] call_ensures(
            BackendRegistry::<B>::find_package,
            (reg, &q),
            answer,
        )
}

/// `p` is, as a model, a package that a plain lookup of some name found.
pub open spec fn found_by_lookup<B: Backend>(reg: &BackendRegistry<B>, p: PackageModel) -> bool {
    exists|n: Seq<char>, a: Package| a@ == p && #[trigger] looked_up(reg, n, Ok(Some(a)))
}

/// The packages to remove that the answers to the lookups of `names`
/// give, in order, or the error of the first answer that found nothing
/// (`PackageNotFound` of that name) or failed.
pub open spec fn removal_outcome(names: Seq<Seq<char>>, answers: Seq<Result<Option<Package>, CxpkgError>>) -> Result<
    Seq<PackageModel>,
    CxpkgErrorModel,
>
    decreases answers.len(),
{
    if answers.len() == 0 {
        Ok(seq![])
    } else {
        match removal_outcome(names, answers.drop_last()) {
            Err(e) => Err(e),
            Ok(ps) => match answers.last() {
                Ok(Some(p)) => Ok(ps.push(p@)),
                Ok(None) => Err(CxpkgErrorModel::PackageNotFound(names[answers.len() - 1])),
                Err(e) => Err(e@),
            },
        }
    }
}

/// The removal plan that the answers to the lookups of `names`, in
/// order, give: each package found is removed; the first answer that
/// found nothing or failed ends it with its error.
pub fn removal_plan(names: &[&str], answers: Vec<Result<Option<Package>, CxpkgError>>) -> (r: Result<
    ResolutionPlan,
    CxpkgError,
>)
    requires
        answers@.len() <= names@.len(),
    ensures
        match r {
            Ok(plan) => removal_outcome(str_names(names@), answers@) == Ok::<Seq<PackageModel>, CxpkgErrorModel>(
                plan@.to_remove,
            ) && plan@.to_install.len() == 0 && plan@.to_upgrade.len() == 0
                && plan@.already_satisfied.len() == 0,
            Err(e) => removal_outcome(str_names(names@), answers@) == Err::<Seq<PackageModel>, CxpkgErrorModel>(
                e@,
            ),
        },
{
    let ghost all = answers@;
    let ghost ns = str_names(names@);
    let mut plan = ResolutionPlan::default();
    let mut i: usize = 0;
    assert(all.skip(0) =~= all);
    for a in it: answers
        invariant
            it.seq() == all,
            all.len() <= names@.len(),
            ns == str_names(names@),
            i == it.index(),
            removal_outcome(ns, all.take(i as int)) == Ok::<Seq<PackageModel>, CxpkgErrorModel>(
                plan@.to_remove,
            ),
            plan@.to_install.len() == 0,
            plan@.to_upgrade.len() == 0,
            plan@.already_satisfied.len() == 0,
    {
        assert(all.take(i + 1).drop_last() =~= all.take(i as int));
        assert(all.take(i + 1).last() == a);
        assert(ns[i as int] == names@[i as int]@);
        let ghost ga = a;
        match add_removal(&mut plan, names[i], a) {
            Ok(()) => {},
            Err(e) => {
                proof {
                    lemma_removal_outcome_stays_err(ns, all, i as int + 1);
                }
                return Err(e);
            },
        }
        i = i + 1;
    }
    assert(all.take(all.len() as int) =~= all);
    Ok(plan)
}

/// Once the answers give an error, later answers keep it.
proof fn lemma_removal_outcome_stays_err(
    names: Seq<Seq<char>>,
    answers: Seq<Result<Option<Package>, CxpkgError>>,
    n: int,
)
    requires
        0 <= n <= answers.len(),
        removal_outcome(names, answers.take(n)) is Err,
    ensures
        removal_outcome(names, answers) == removal_outcome(names, answers.take(n)),
    decreases answers.len() - n,
{
    if n < answers.len() {
        assert(answers.take(n + 1).drop_last() =~= answers.take(n));
        lemma_removal_outcome_stays_err(names, answers, n + 1);
    } else {
        assert(answers.take(n) =~= answers);
    }
}

/// The packages to upgrade that the answers give, in order, answers that
/// found nothing skipped, or the error of the first answer that failed.
pub open spec fn upgrade_outcome(answers: Seq<Result<Option<Package>, CxpkgError>>) -> Result<
    Seq<PackageModel>,
    CxpkgErrorModel,
>
    decreases answers.len(),
{
    if answers.len() == 0 {
        Ok(seq![])
    } else {
        match upgrade_outcome(answers.drop_last()) {
            Err(e) => Err(e),
            Ok(ps) => match answers.last() {
                Ok(Some(p)) => Ok(ps.push(p@)),
                Ok(None) => Ok(ps),
                Err(e) => Err(e@),
            },
        }
    }
}

/// The upgrade plan that the answers to the lookups, in order, give: each
/// package found is upgraded, names found nowhere are skipped, and the
/// first failed lookup ends it with its error.
pub fn upgrade_plan(answers: Vec<Result<Option<Package>, CxpkgError>>) -> (r: Result<ResolutionPlan, CxpkgError>)
    ensures
        match r {
            Ok(plan) => upgrade_outcome(answers@) == Ok::<Seq<PackageModel>, CxpkgErrorModel>(plan@.to_upgrade)
                && plan@.to_install.len() == 0 && plan@.to_remove.len() == 0
                && plan@.already_satisfied.len() == 0,
            Err(e) => upgrade_outcome(answers@) == Err::<Seq<PackageModel>, CxpkgErrorModel>(e@),
        },
{
    let ghost all = answers@;
    proof {
        lemma_vec_len_bound(&answers);
    }
    let mut plan = ResolutionPlan::default();
    let mut i: usize = 0;
    for a in it: answers
        invariant
            it.seq() == all,
            all.len() <= usize::MAX,
            i == it.index(),
            upgrade_outcome(all.take(i as int)) == Ok::<Seq<PackageModel>, CxpkgErrorModel>(plan@.to_upgrade),
            plan@.to_install.len() == 0,
            plan@.to_remove.len() == 0,
            plan@.already_satisfied.len() == 0,
    {
        assert(all.take(i + 1).drop_last() =~= all.take(i as int));
        assert(all.take(i + 1).last() == a);
        match add_upgrade(&mut plan, a) {
            Ok(()) => {},
            Err(e) => {
                proof {
                    lemma_upgrade_outcome_stays_err(all, i as int + 1);
                }
                return Err(e);
            },
        }
        i = i + 1;
    }
    assert(all.take(all.len() as int) =~= all);
    Ok(plan)
}

/// Once the answers give an error, later answers keep it.
proof fn lemma_upgrade_outcome_stays_err(answers: Seq<Result<Option<Package>, CxpkgError>>, n: int)
    requires
        0 <= n <= answers.len(),
        upgrade_outcome(answers.take(n)) is Err,
    ensures
        upgrade_outcome(answers) == upgrade_outcome(answers.take(n)),
    decreases answers.len() - n,
{
    if n < answers.len() {
        assert(answers.take(n + 1).drop_last() =~= answers.take(n));
        lemma_upgrade_outcome_stays_err(answers, n + 1);
    } else {
        assert(answers.take(n) =~= answers);
    }
}

impl<'a, B: Backend> Resolver<'a, B> {
    /// Works out what installing `names` takes. Each requested name, and
    /// each required dependency of a package to install, is looked up
    /// once, in the order met; a failed lookup stops with its error and a
    /// name that no backend has with `PackageNotFound`. Packages found
    /// installed already are listed as satisfied and their dependencies
    /// are not followed; the others are to be installed, ordered by
    /// `topological_sort` so that dependencies come first.
    pub fn resolve_install(&self, names: &[&str]) -> (r: Result<ResolutionPlan, CxpkgError>)
        ensures
            r matches Ok(plan) ==> dependencies_first(plan@.to_install) && distinct_names(
                plan@.to_install,
            ) && plan@.to_remove.len() == 0 && plan@.to_upgrade.len() == 0,
            r matches Ok(plan) ==> exists|looked: Seq<Seq<char>>|
                #[trigger] accounts_for(plan@, str_names(names@), looked),
            r matches Err(e) ==> (e@ is PackageNotFound || e@ is DependencyCycle),
            r matches Err(e) ==> (e@ is DependencyCycle ==> exists|found: Seq<PackageModel>|
                !(distinct_names(found) && has_install_order(found)) && e@
                    == CxpkgErrorModel::DependencyCycle(join(#[trigger] names_of(found), ", "@))),
            names@.len() == 0 ==> (r matches Ok(plan) && plan@ == empty_plan()),
            names@.len() > 0 && self.registry().names().len() == 0 ==> (r matches Err(e) && e@
                == CxpkgErrorModel::PackageNotFound(names@[0]@)),
            r matches Ok(plan) ==> forall|j: int|
                0 <= j < plan@.to_install.len() ==> found_by_lookup(self.registry(), #[trigger] plan@.to_install[j]),
    {
        let ghost requested = str_names(names@);
        let mut work = InstallResolution::new(names);
        loop
            invariant
                requested == str_names(names@),
                work.plan().to_remove.len() == 0,
                work.plan().to_upgrade.len() == 0,
                work.visited().len() <= usize::MAX,
                names@.len() == 0 ==> work.pending().len() == 0 && work.plan() == empty_plan(),
                work.visited().len() == 0 ==> work.pending() == requested,
                names@.len() > 0 && self.registry().names().len() == 0 ==> work.visited().len() == 0,
                work.visited().no_duplicates(),
                forall|i: int|
                    0 <= i < requested.len() ==> work.visited().contains(#[trigger] requested[i])
                        || work.pending().contains(requested[i]),
                forall|j: int|
                    0 <= j < work.plan().already_satisfied.len() ==> work.visited().contains(
                        #[trigger] work.plan().already_satisfied[j],
                    ),
                work.plan().already_satisfied.no_duplicates(),
                deps_covered(work.plan().to_install, work.visited(), work.pending()),
                forall|j: int|
                    0 <= j < work.plan().to_install.len() ==> found_by_lookup(
                        self.registry(),
                        #[trigger] work.plan().to_install[j],
                    ),
                forall|i: int|
                    0 <= i < work.plan().to_install.len() ==> !(
                    #[trigger] work.plan().to_install[i].state is Installed),
                work.visited().len() == work.plan().to_install.len()
                    + work.plan().already_satisfied.len(),
                forall|j: int|
                    0 <= j < work.visited().len() ==> requested_or_required(
                        #[trigger] work.visited()[j],
                        requested,
                        work.plan().to_install,
                    ),
                forall|j: int|
                    0 <= j < work.pending().len() ==> requested_or_required(
                        #[trigger] work.pending()[j],
                        requested,
                        work.plan().to_install,
                    ),
            ensures
                forall|j: int|
                    0 <= j < work.visited().len() ==> requested_or_required(
                        #[trigger] work.visited()[j],
                        requested,
                        work.plan().to_install,
                    ),
                forall|i: int| 0 <= i < requested.len() ==> work.visited().contains(#[trigger] requested[i]),
                deps_covered(work.plan().to_install, work.visited(), seq![]),
                names@.len() > 0 && self.registry().names().len() == 0 ==> work.visited().len() == 0,
            decreases usize::MAX - work.visited().len(),
        {
            let ghost p0 = work.pending();
            let ghost v0 = work.visited();
            let ghost pl0 = work.plan();
            let ghost k = first_unvisited(p0, v0);
            proof {
                lemma_first_unvisited(p0, v0);
                if names@.len() > 0 && self.registry().names().len() == 0 {
                    assert(!v0.contains(p0[0]));
                    assert(k == 0);
                    assert(p0[0] == names@[0]@);
                }
            }
            match work.next_name() {
                None => {
                    proof {
                        assert forall|i: int| 0 <= i < requested.len() implies work.visited().contains(
                            #[trigger] requested[i],
                        ) || work.pending().contains(requested[i]) by {
                            lemma_next_keeps_cover(p0, v0, requested[i]);
                        }
                        assert forall|i: int| 0 <= i < requested.len() implies work.visited().contains(
                            #[trigger] requested[i],
                        ) by {
                            lemma_next_keeps_cover(p0, v0, requested[i]);
                        }
                        let ps = pl0.to_install;
                        assert forall|i: int, d: int|
                            #![trigger ps[i].dependencies[d]]
                            0 <= i < ps.len() && 0 <= d < ps[i].dependencies.len()
                                && !ps[i].dependencies[d].optional implies v0.contains(
                                ps[i].dependencies[d].name,
                            ) || Seq::<Seq<char>>::empty().contains(ps[i].dependencies[d].name) by {
                            lemma_next_keeps_cover(p0, v0, ps[i].dependencies[d].name);
                        }
                        assert forall|i: int, d: int|
                            #![trigger ps[i].dependencies[d]]
                            0 <= i < ps.len() && 0 <= d < ps[i].dependencies.len()
                                && !ps[i].dependencies[d].optional implies v0.contains(
                                ps[i].dependencies[d].name,
                            ) || work.pending().contains(ps[i].dependencies[d].name) by {
                            lemma_next_keeps_cover(p0, v0, ps[i].dependencies[d].name);
                        }
                    }
                    break;
                },
                Some(name) => {
                    let ghost x = p0[k as int];
                    let ghost v1 = work.visited();
                    let ghost p1 = work.pending();
                    proof {
                        assert(v1 == v0.push(x));
                        assert(v1[v0.len() as int] == x);
                        assert forall|a: int, b: int|
                            0 <= a < v1.len() && 0 <= b < v1.len() && a != b implies v1[a] != v1[b] by {
                            if a < v0.len() && b < v0.len() {
                                assert(v0[a] != v0[b]);
                            } else if a < v0.len() {
                                assert(v0.contains(v0[a]));
                            } else {
                                assert(v0.contains(v0[b]));
                            }
                        }
                        assert forall|i: int| 0 <= i < requested.len() implies v1.contains(
                            #[trigger] requested[i],
                        ) || p1.contains(requested[i]) by {
                            lemma_next_keeps_cover(p0, v0, requested[i]);
                        }
                        let ps = pl0.to_install;
                        assert forall|i: int, d: int|
                            #![trigger ps[i].dependencies[d]]
                            0 <= i < ps.len() && 0 <= d < ps[i].dependencies.len()
                                && !ps[i].dependencies[d].optional implies v1.contains(
                                ps[i].dependencies[d].name,
                            ) || p1.contains(ps[i].dependencies[d].name) by {
                            lemma_next_keeps_cover(p0, v0, ps[i].dependencies[d].name);
                        }
                        assert forall|j: int|
                            0 <= j < pl0.already_satisfied.len() implies v1.contains(
                                #[trigger] pl0.already_satisfied[j],
                            ) by {
                            let m = choose|m: int| 0 <= m < v0.len() && v0[m] == pl0.already_satisfied[j];
                            assert(v1[m] == v0[m]);
                        }
                        assert forall|j: int| 0 <= j < v1.len() implies requested_or_required(
                            #[trigger] v1[j],
                            requested,
                            pl0.to_install,
                        ) by {
                            if j < v0.len() {
                                assert(v1[j] == v0[j]);
                            } else {
                                assert(v1[j] == p0[k as int]);
                            }
                        }
                        assert forall|j: int| 0 <= j < p1.len() implies requested_or_required(
                            #[trigger] p1[j],
                            requested,
                            pl0.to_install,
                        ) by {
                            assert(p1[j] == p0[j + k + 1]);
                        }
                        assert(!pl0.already_satisfied.contains(x)) by {
                            if pl0.already_satisfied.contains(x) {
                                let j = choose|j: int|
                                    0 <= j < pl0.already_satisfied.len() && pl0.already_satisfied[j] == x;
                                assert(v0.contains(pl0.already_satisfied[j]));
                            }
                        }
                    }
                    let ghost nm = name@;
                    let query = PackageQuery::new(name.as_str());
                    let found = self.registry.find_package(&query);
                    let ghost fv = found;
                    assert(looked_up(self.registry(), nm, fv));
                    match work.record(name, found) {
                        Ok(()) => {
                            proof {
                                let p2 = work.pending();
                                let pl2 = work.plan();
                                assert forall|j: int| 0 <= j < pl2.to_install.len() implies found_by_lookup(
                                    self.registry(),
                                    #[trigger] pl2.to_install[j],
                                ) by {
                                    if j < pl0.to_install.len() {
                                        assert(pl2.to_install[j] == pl0.to_install[j]);
                                    } else {
                                        match fv {
                                            Ok(Some(pk)) => {
                                                assert(pl2.to_install[j] == pk@);
                                                assert(looked_up(self.registry(), nm, Ok(Some(pk))));
                                            },
                                            _ => {},
                                        }
                                    }
                                }
                                assert forall|i: int| 0 <= i < pl0.to_install.len() implies pl2.to_install.contains(
                                    #[trigger] pl0.to_install[i],
                                ) by {
                                    assert(pl2.to_install[i] == pl0.to_install[i]);
                                }
                                assert forall|j: int| 0 <= j < work.visited().len() implies requested_or_required(
                                    #[trigger] work.visited()[j],
                                    requested,
                                    pl2.to_install,
                                ) by {
                                    lemma_required_kept(v1[j], requested, pl0.to_install, pl2.to_install);
                                }
                                assert forall|j: int| 0 <= j < p2.len() implies requested_or_required(
                                    #[trigger] p2[j],
                                    requested,
                                    pl2.to_install,
                                ) by {
                                    if j < p1.len() {
                                        assert(p2[j] == p1[j]);
                                        lemma_required_kept(p1[j], requested, pl0.to_install, pl2.to_install);
                                    } else {
                                        match fv {
                                            Ok(Some(pk)) => {
                                                let nr = new_requirements(pk@.dependencies, v1);
                                                assert(p2 == p1 + nr);
                                                assert(p2[j] == nr[j - p1.len()]);
                                                lemma_new_requirements_from(pk@.dependencies, v1, j - p1.len());
                                                let kk = choose|kk: int| 0 <= kk < pk@.dependencies.len()
                                                    && !pk@.dependencies[kk].optional
                                                    && #[trigger] pk@.dependencies[kk].name == nr[j - p1.len()];
                                                let last = pl0.to_install.len() as int;
                                                assert(pl2.to_install[last] == pk@);
                                                assert(pl2.to_install[last].dependencies[kk] == pk@.dependencies[kk]);
                                            },
                                            _ => {},
                                        }
                                    }
                                }
                                assert(p1 =~= p2.take(p1.len() as int));
                                assert forall|y: Seq<char>| p1.contains(y) implies p2.contains(y) by {
                                    let m = choose|m: int| 0 <= m < p1.len() && p1[m] == y;
                                    assert(p2[m] == p1[m]);
                                }
                                assert forall|i: int| 0 <= i < requested.len() implies work.visited().contains(
                                    #[trigger] requested[i],
                                ) || p2.contains(requested[i]) by {
                                    if p1.contains(requested[i]) {
                                        assert(p2.contains(requested[i]));
                                    }
                                }
                                assert forall|j: int|
                                    0 <= j < pl2.already_satisfied.len() implies work.visited().contains(
                                        #[trigger] pl2.already_satisfied[j],
                                    ) by {
                                    if j < pl0.already_satisfied.len() {
                                        assert(pl2.already_satisfied[j] == pl0.already_satisfied[j]);
                                    } else {
                                        assert(pl2.already_satisfied[j] == x);
                                    }
                                }
                                assert forall|a: int, b: int|
                                    0 <= a < pl2.already_satisfied.len() && 0 <= b < pl2.already_satisfied.len()
                                        && a != b implies pl2.already_satisfied[a] != pl2.already_satisfied[b] by {
                                    let q = pl0.already_satisfied;
                                    if a < q.len() && b < q.len() {
                                        assert(q[a] != q[b]);
                                    } else if a < q.len() {
                                        assert(pl2.already_satisfied[b] == x);
                                        assert(q.contains(q[a]));
                                    } else if b < q.len() {
                                        assert(pl2.already_satisfied[a] == x);
                                        assert(q.contains(q[b]));
                                    }
                                }
                                let ps = pl2.to_install;
                                assert forall|i: int, d: int|
                                    #![trigger ps[i].dependencies[d]]
                                    0 <= i < ps.len() && 0 <= d < ps[i].dependencies.len()
                                        && !ps[i].dependencies[d].optional implies v1.contains(
                                        ps[i].dependencies[d].name,
                                    ) || p2.contains(ps[i].dependencies[d].name) by {
                                    if i < pl0.to_install.len() {
                                        assert(ps[i] == pl0.to_install[i]);
                                        assert(pl0.to_install[i].dependencies[d] == ps[i].dependencies[d]);
                                    } else {
                                        lemma_new_requirements(ps[i].dependencies, v1, d);
                                        let nr = new_requirements(ps[i].dependencies, v1);
                                        if nr.contains(ps[i].dependencies[d].name) {
                                            let m = choose|m: int| 0 <= m < nr.len() && nr[m] == ps[i].dependencies[d].name;
                                            assert(p2[p1.len() + m] == nr[m]);
                                        }
                                    }
                                }
                                assert forall|i: int| 0 <= i < ps.len() implies !(#[trigger] ps[i].state is Installed) by {
                                    if i < pl0.to_install.len() {
                                        assert(ps[i] == pl0.to_install[i]);
                                    }
                                }
                            }
                        },
                        Err(e) => {
                            return Err(e);
                        },
                    }
                },
            }
        }
        if names.len() == 0 {
            assert(work.plan().to_install =~= Seq::<PackageModel>::empty());
            assert(is_install_order(Seq::<PackageModel>::empty(), Seq::<PackageModel>::empty()));
        } else {
            assert(work.visited().contains(requested[0]));
        }
        let ghost looked = work.visited();
        let ghost state = work.plan();
        let r = work.finish();
        proof {
            broadcast use vstd::seq_lib::group_to_multiset_ensures;
            match &r {
                Ok(plan) => {
                    let ps = plan@.to_install;
                    let qs = state.to_install;
                    assert(ps.len() == qs.len()) by {
                        assert(ps.to_multiset().len() == qs.to_multiset().len());
                    }
                    assert forall|i: int| 0 <= i < ps.len() implies qs.contains(ps[i]) by {
                        assert(ps.to_multiset().count(ps[i]) > 0);
                        assert(qs.to_multiset().count(ps[i]) > 0);
                    }
                    assert forall|i: int| 0 <= i < ps.len() implies found_by_lookup(self.registry(), #[trigger] ps[i]) by {
                        assert(qs.contains(ps[i]));
                        let j = choose|j: int| 0 <= j < qs.len() && qs[j] == ps[i];
                        assert(found_by_lookup(self.registry(), qs[j]));
                    }
                    assert forall|i: int, d: int|
                        #![trigger ps[i].dependencies[d]]
                        0 <= i < ps.len() && 0 <= d < ps[i].dependencies.len()
                            && !ps[i].dependencies[d].optional implies looked.contains(
                            ps[i].dependencies[d].name,
                        ) || Seq::<Seq<char>>::empty().contains(ps[i].dependencies[d].name) by {
                        assert(qs.contains(ps[i]));
                        let j = choose|j: int| 0 <= j < qs.len() && qs[j] == ps[i];
                        assert(qs[j].dependencies[d] == ps[i].dependencies[d]);
                    }
                    assert forall|i: int| 0 <= i < ps.len() implies !(#[trigger] ps[i].state is Installed) by {
                        assert(qs.contains(ps[i]));
                        let j = choose|j: int| 0 <= j < qs.len() && qs[j] == ps[i];
                        assert(!(qs[j].state is Installed));
                    }
                    assert forall|i: int| 0 <= i < qs.len() implies ps.contains(#[trigger] qs[i]) by {
                        assert(qs.to_multiset().count(qs[i]) > 0);
                        assert(ps.to_multiset().count(qs[i]) > 0);
                    }
                    assert forall|j: int| 0 <= j < looked.len() implies requested_or_required(
                        #[trigger] looked[j],
                        requested,
                        ps,
                    ) by {
                        lemma_required_kept(looked[j], requested, qs, ps);
                    }
                    assert(accounts_for(plan@, requested, looked));
                    if names@.len() == 0 {
                        assert(plan@.to_install.to_multiset().len() == 0);
                        assert(plan@.to_install =~= Seq::<PackageModel>::empty());
                    }
                },
                Err(e) => {
                    assert(names_of(state.to_install) == names_of(state.to_install));
                },
            }
        }
        r
    }

    /// Looks up each name for removal, in order, and hands the answers to
    /// `removal_plan`; the lookups stop at the first name that no backend
    /// has, which ends in `PackageNotFound`. Lookups of queries bound to
    /// no backend do not fail.
    pub fn resolve_remove(&self, names: &[&str]) -> (r: Result<ResolutionPlan, CxpkgError>)
        ensures
            exists|answers: Seq<Result<Option<Package>, CxpkgError>>|
                answers.len() <= names@.len() && (forall|k: int| 0 <= k < answers.len() ==> answers[k] is Ok)
                    && (forall|k: int|
                    #![trigger answers[k]]
                    0 <= k < answers.len() ==> looked_up(self.registry(), names@[k]@, answers[k]))
                    && (answers.len() < names@.len() ==> #[trigger] removal_outcome(str_names(names@), answers)
                    is Err) && match r {
                    Ok(plan) => removal_outcome(str_names(names@), answers) == Ok::<Seq<PackageModel>, CxpkgErrorModel>(
                        plan@.to_remove,
                    ),
                    Err(e) => removal_outcome(str_names(names@), answers) == Err::<Seq<PackageModel>, CxpkgErrorModel>(
                        e@,
                    ),
                },
            r matches Ok(plan) ==> plan@.to_remove.len() == names@.len() && plan@.to_install.len()
                == 0 && plan@.to_upgrade.len() == 0 && plan@.already_satisfied.len() == 0,
            r matches Err(e) ==> exists|j: int|
                0 <= j < names@.len() && e@ == CxpkgErrorModel::PackageNotFound(#[trigger] names@[j]@),
            names@.len() == 0 ==> (r matches Ok(plan) && plan@ == empty_plan()),
            names@.len() > 0 && self.registry().names().len() == 0 ==> (r matches Err(e) && e@
                == CxpkgErrorModel::PackageNotFound(names@[0]@)),
    {
        let ghost ns = str_names(names@);
        let mut answers: Vec<Result<Option<Package>, CxpkgError>> = Vec::new();
        let mut i: usize = 0;
        while i < names.len()
            invariant
                i <= names@.len(),
                ns == str_names(names@),
                answers@.len() == i,
                forall|k: int| 0 <= k < answers@.len() ==> answers@[k] is Ok,
                removal_outcome(ns, answers@) matches Ok(ps) && ps.len() == i,
                self.registry().names().len() == 0 ==> i == 0,
                forall|k: int|
                    #![trigger answers@[k]]
                    0 <= k < i ==> looked_up(self.registry(), names@[k]@, answers@[k]),
            decreases names.len() - i,
        {
            let query = PackageQuery::new(names[i]);
            let found = self.registry.find_package(&query);
            assert(looked_up(self.registry(), names@[i as int]@, found));
            let stop = match &found {
                Ok(Some(_)) => false,
                _ => true,
            };
            let ghost before = answers@;
            answers.push(found);
            proof {
                assert(answers@.drop_last() =~= before);
                assert(answers@.last() == found);
                assert(ns[i as int] == names@[i as int]@);
                assert forall|k: int| #![trigger answers@[k]] 0 <= k <= i implies looked_up(
                    self.registry(),
                    names@[k]@,
                    answers@[k],
                ) by {
                    if k < i {
                        assert(answers@[k] == before[k]);
                    }
                }
            }
            if stop {
                let ghost all = answers@;
                let r = removal_plan(names, answers);
                proof {
                    assert(removal_outcome(ns, all) == Err::<Seq<PackageModel>, CxpkgErrorModel>(
                        CxpkgErrorModel::PackageNotFound(names@[i as int]@),
                    ));
                }
                return r;
            }
            i = i + 1;
        }
        let ghost all = answers@;
        let r = removal_plan(names, answers);
        proof {
            if names@.len() == 0 {
                assert(all.len() == 0);
                match &r {
                    Ok(plan) => {
                        assert(plan@.to_remove =~= Seq::<PackageModel>::empty());
                        assert(plan@.to_upgrade =~= Seq::<PackageModel>::empty());
                        assert(plan@.to_install =~= Seq::<PackageModel>::empty());
                        assert(plan@.already_satisfied =~= Seq::<Seq<char>>::empty());
                        assert(plan@ == empty_plan());
                    },
                    Err(_) => {},
                }
            }
        }
        r
    }

    /// Looks up each name for upgrade, in order, and hands the answers to
    /// `upgrade_plan`: names that no backend has are skipped. Lookups of
    /// queries bound to no backend do not fail, so the plan always comes.
    pub fn resolve_upgrade(&self, names: &[&str]) -> (r: Result<ResolutionPlan, CxpkgError>)
        ensures
            r is Ok,
            exists|answers: Seq<Result<Option<Package>, CxpkgError>>|
                answers.len() == names@.len() && (forall|k: int| 0 <= k < answers.len() ==> answers[k] is Ok)
                    && (forall|k: int|
                    #![trigger answers[k]]
                    0 <= k < answers.len() ==> looked_up(self.registry(), names@[k]@, answers[k]))
                    && (r matches Ok(plan) && #[trigger] upgrade_outcome(answers) == Ok::<
                    Seq<PackageModel>,
                    CxpkgErrorModel,
                >(plan@.to_upgrade)),
            r matches Ok(plan) ==> plan@.to_upgrade.len() <= names@.len() && plan@.to_install.len()
                == 0 && plan@.to_remove.len() == 0 && plan@.already_satisfied.len() == 0,
            names@.len() == 0 ==> (r matches Ok(plan) && plan@ == empty_plan()),
            self.registry().names().len() == 0 ==> (r matches Ok(plan) && plan@ == empty_plan()),
    {
        let mut answers: Vec<Result<Option<Package>, CxpkgError>> = Vec::new();
        let mut i: usize = 0;
        while i < names.len()
            invariant
                i <= names@.len(),
                answers@.len() == i,
                forall|k: int| 0 <= k < answers@.len() ==> answers@[k] is Ok,
                upgrade_outcome(answers@) matches Ok(ps) && ps.len() <= i && (self.registry().names().len()
                    == 0 ==> ps.len() == 0),
                forall|k: int|
                    #![trigger answers@[k]]
                    0 <= k < i ==> looked_up(self.registry(), names@[k]@, answers@[k]),
            decreases names.len() - i,
        {
            let query = PackageQuery::new(names[i]);
            let found = self.registry.find_package(&query);
            assert(looked_up(self.registry(), names@[i as int]@, found));
            let ghost before = answers@;
            answers.push(found);
            proof {
                assert(answers@.drop_last() =~= before);
                assert(answers@.last() == found);
                assert forall|k: int| #![trigger answers@[k]] 0 <= k <= i implies looked_up(
                    self.registry(),
                    names@[k]@,
                    answers@[k],
                ) by {
                    if k < i {
                        assert(answers@[k] == before[k]);
                    }
                }
            }
            i = i + 1;
        }
        let ghost all = answers@;
        let r = upgrade_plan(answers);
        proof {
            match &r {
                Ok(plan) => {
                    if names@.len() == 0 || self.registry().names().len() == 0 {
                        assert(plan@.to_remove =~= Seq::<PackageModel>::empty());
                        assert(plan@.to_upgrade =~= Seq::<PackageModel>::empty());
                        assert(plan@.to_install =~= Seq::<PackageModel>::empty());
                        assert(plan@.already_satisfied =~= Seq::<Seq<char>>::empty());
                        assert(plan@ == empty_plan());
                    }
                },
                Err(_) => {},
            }
        }
        r
    }
}

// ---------------------------------------------------------------------
// Install resolution
// ---------------------------------------------------------------------

/// How many names at the front of `q` were looked up already.
pub open spec fn first_unvisited(q: Seq<Seq<char>>, visited: Seq<Seq<char>>) -> nat
    decreases q.len(),
{
    if q.len() == 0 {
        0
    } else if visited.contains(q[0]) {
        1 + first_unvisited(q.drop_first(), visited)
    } else {
        0
    }
}

/// The required dependencies of `deps` not looked up yet, in order.
pub open spec fn new_requirements(deps: Seq<DependencyModel>, visited: Seq<Seq<char>>) -> Seq<
    Seq<char>,
>
    decreases deps.len(),
{
    if deps.len() == 0 {
        seq![]
    } else {
        let r = new_requirements(deps.drop_last(), visited);
        let d = deps.last();
        if !d.optional && !visited.contains(d.name) {
            r.push(d.name)
        } else {
            r
        }
    }
}

/// No vector holds more items than a `usize` can count.
proof fn lemma_vec_len_bound<T>(v: &Vec<T>)
    ensures
        v@.len() <= usize::MAX,
{
    broadcast use vstd::std_specs::vec::axiom_spec_len;

    assert(vstd::std_specs::vec::spec_vec_len(v) == v@.len());
}

/// The work of an install resolution: names to look up in turn (the
/// requested ones, then required dependencies as they are found), the
/// names looked up so far, and the plan being built. One step takes a
/// name with `next_name`, looks it up and hands the answer to `record`;
/// `finish` orders the plan when no name is left
/// (`Resolver::resolve_install` runs these steps against a registry).
pub struct InstallResolution {
    queue: VecDeque<String>,
    visited: Vec<String>,
    plan: ResolutionPlan,
}

impl InstallResolution {
    pub closed spec fn pending(&self) -> Seq<Seq<char>> {
        strings_view(self.queue@)
    }

    pub closed spec fn visited(&self) -> Seq<Seq<char>> {
        strings_view(self.visited@)
    }

    pub closed spec fn plan(&self) -> PlanModel {
        self.plan@
    }

    /// A resolution of the requested `names`.
    pub fn new(names: &[&str]) -> (r: InstallResolution)
        ensures
            r.pending() == names@.map_values(|n: &str| n@),
            r.visited() == Seq::<Seq<char>>::empty(),
            r.plan() == empty_plan(),
    {
        let mut queue: VecDeque<String> = VecDeque::new();
        let mut i: usize = 0;
        while i < names.len()
            invariant
                i <= names@.len(),
                strings_view(queue@) == names@.map_values(|n: &str| n@).take(i as int),
            decreases names.len() - i,
        {
            let ghost before = queue@;
            let n = names[i].to_owned();
            assert(n@ == names@[i as int]@);
            queue.push_back(n);
            assert(queue@ == before.push(n));
            assert(strings_view(queue@) =~= strings_view(before).push(n@));
            assert(names@.map_values(|n: &str| n@).take(i + 1) =~= names@.map_values(|n: &str| n@).take(i as int).push(names@[i as int]@));
            i = i + 1;
        }
        assert(names@.map_values(|n: &str| n@).take(names@.len() as int) =~= names@.map_values(
            |n: &str| n@,
        ));
        let r = InstallResolution { queue, visited: Vec::new(), plan: ResolutionPlan::default() };
        assert(r.visited() =~= Seq::<Seq<char>>::empty());
        r
    }

    /// Whether `name` was looked up already.
    fn was_visited(&self, name: &String) -> (b: bool)
        ensures
            b == self.visited().contains(name@),
    {
        let mut i: usize = 0;
        while i < self.visited.len()
            invariant
                i <= self.visited@.len(),
                forall|j: int| 0 <= j < i ==> self.visited()[j] != name@,
            decreases self.visited.len() - i,
        {
            assert(self.visited()[i as int] == self.visited@[i as int]@);
            if self.visited[i] == *name {
                assert(self.visited()[i as int] == name@);
                return true;
            }
            i = i + 1;
        }
        false
    }

    /// The next name to look up: names looked up before are dropped from
    /// the front of the queue, the first new one is taken and marked as
    /// looked up. `None` when the queue runs out.
    pub fn next_name(&mut self) -> (r: Option<String>)
        ensures
            ({
                let k = first_unvisited(old(self).pending(), old(self).visited());
                &&& final(self).plan() == old(self).plan()
                &&& if k < old(self).pending().len() {
                    &&& r matches Some(n) && n@ == old(self).pending()[k as int]
                    &&& !old(self).visited().contains(old(self).pending()[k as int])
                    &&& final(self).pending() == old(self).pending().skip(k + 1int)
                    &&& final(self).visited() == old(self).visited().push(old(self).pending()[k as int])
                } else {
                    &&& r is None
                    &&& final(self).pending() == Seq::<Seq<char>>::empty()
                    &&& final(self).visited() == old(self).visited()
                }
            }),
            final(self).visited().len() <= usize::MAX,
    {
        let ghost q0 = old(self).pending();
        let ghost v0 = old(self).visited();
        loop
            invariant
                self.visited() == v0,
                self.plan() == old(self).plan(),
                q0 == old(self).pending(),
                v0 == old(self).visited(),
                self.pending().len() <= q0.len(),
                first_unvisited(q0, v0) == (q0.len() - self.pending().len()) + first_unvisited(
                    self.pending(),
                    v0,
                ),
                self.pending() == q0.skip(q0.len() - self.pending().len()),
            decreases self.pending().len(),
        {
            let ghost before = self.pending();
            let ghost raw = self.queue@;
            let ghost d = q0.len() - before.len();
            match self.queue.pop_front() {
                None => {
                    assert(before.len() == 0);
                    assert(first_unvisited(before, v0) == 0);
                    assert(self.pending() =~= Seq::<Seq<char>>::empty());
                    proof {
                        lemma_vec_len_bound(&self.visited);
                    }
                    return None;
                },
                Some(name) => {
                    assert(raw.len() > 0);
                    assert(before[0] == name@);
                    assert(self.queue@ == raw.subrange(1, raw.len() as int));
                    assert(self.pending() =~= before.drop_first());
                    assert(q0.skip(d + 1) =~= before.drop_first());
                    assert(q0[d] == before[0]);
                    if !self.was_visited(&name) {
                        assert(first_unvisited(before, v0) == 0);
                        let c = name.clone();
                        self.visited.push(c);
                        assert(self.visited() =~= v0.push(name@));
                        proof {
                            lemma_vec_len_bound(&self.visited);
                        }
                        return Some(name);
                    } else {
                        assert(first_unvisited(before, v0) == 1 + first_unvisited(before.drop_first(), v0));
                    }
                }
            }
        }
    }

    /// Takes in the answer to the lookup of `name`. A failed lookup is
    /// returned as it is, and a package that no backend has is
    /// `PackageNotFound`. A package found that is installed already adds
    /// `name` to the satisfied names; any other is added to the packages
    /// to install, and its required dependencies not looked up yet are
    /// queued.
    pub fn record(&mut self, name: String, found: Result<Option<Package>, CxpkgError>) -> (r: Result<
        (),
        CxpkgError,
    >)
        ensures
            match found {
                Ok(Some(p)) => {
                    &&& r is Ok
                    &&& final(self).visited() == old(self).visited()
                    &&& if p@.state is Installed {
                        &&& final(self).pending() == old(self).pending()
                        &&& final(self).plan() == (PlanModel {
                            already_satisfied: old(self).plan().already_satisfied.push(name@),
                            ..old(self).plan()
                        })
                    } else {
                        &&& final(self).pending() == old(self).pending() + new_requirements(
                            p@.dependencies,
                            old(self).visited(),
                        )
                        &&& final(self).plan() == (PlanModel {
                            to_install: old(self).plan().to_install.push(p@),
                            ..old(self).plan()
                        })
                    }
                },
                Ok(None) => r matches Err(e) && e@ == CxpkgErrorModel::PackageNotFound(name@),
                Err(e) => r == Err::<(), CxpkgError>(e),
            },
    {
        match found {
            Err(e) => Err(e),
            Ok(None) => Err(CxpkgError::PackageNotFound(name)),
            Ok(Some(pkg)) => {
                if pkg.state.is_installed() {
                    self.plan.already_satisfied.push(name);
                    assert(self.plan().already_satisfied =~= old(self).plan().already_satisfied.push(name@));
                } else {
                    let ghost deps = pkg@.dependencies;
                    let mut i: usize = 0;
                    while i < pkg.dependencies.len()
                        invariant
                            deps == pkg@.dependencies,
                            i <= deps.len(),
                            self.visited() == old(self).visited(),
                            self.plan() == old(self).plan(),
                            self.pending() == old(self).pending() + new_requirements(
                                deps.take(i as int),
                                old(self).visited(),
                            ),
                        decreases pkg.dependencies.len() - i,
                    {
                        assert(deps.take(i + 1).drop_last() =~= deps.take(i as int));
                        assert(deps[i as int] == pkg.dependencies@[i as int]@);
                        let ghost before = self.queue@;
                        let ghost reqs = new_requirements(deps.take(i as int), old(self).visited());
                        if !pkg.dependencies[i].optional {
                            if !self.was_visited(&pkg.dependencies[i].name) {
                                let n = pkg.dependencies[i].name.clone();
                                assert(n@ == deps[i as int].name);
                                self.queue.push_back(n);
                                assert(new_requirements(deps.take(i + 1), old(self).visited()) == reqs.push(n@));
                                assert(strings_view(self.queue@) =~= strings_view(before).push(n@));
                                assert(self.pending() =~= old(self).pending() + new_requirements(
                                    deps.take(i + 1),
                                    old(self).visited(),
                                ));
                            } else {
                                assert(new_requirements(deps.take(i + 1), old(self).visited()) == reqs);
                            }
                        } else {
                            assert(new_requirements(deps.take(i + 1), old(self).visited()) == reqs);
                        }
                        i = i + 1;
                    }
                    assert(deps.take(deps.len() as int) =~= deps);
                    self.plan.to_install.push(pkg);
                    assert(self.plan().to_install =~= old(self).plan().to_install.push(pkg@));
                }
                Ok(())
            },
        }
    }

    /// Orders the packages to install with `topological_sort` and hands
    /// over the plan.
    pub fn finish(self) -> (r: Result<ResolutionPlan, CxpkgError>)
        ensures
            match r {
                Ok(plan) => {
                    &&& distinct_names(self.plan().to_install)
                    &&& distinct_names(plan@.to_install)
                    &&& is_install_order(plan@.to_install, self.plan().to_install)
                    &&& plan@.to_remove == self.plan().to_remove
                    &&& plan@.to_upgrade == self.plan().to_upgrade
                    &&& plan@.already_satisfied == self.plan().already_satisfied
                },
                Err(e) => {
                    &&& e@ == CxpkgErrorModel::DependencyCycle(
                        join(names_of(self.plan().to_install), ", "@),
                    )
                    &&& !(distinct_names(self.plan().to_install) && has_install_order(
                        self.plan().to_install,
                    ))
                },
            },
    {
        let mut plan = self.plan;
        let mut to_install: Vec<Package> = Vec::new();
        std::mem::swap(&mut to_install, &mut plan.to_install);
        match topological_sort(to_install) {
            Ok(sorted) => {
                plan.to_install = sorted;
                Ok(plan)
            },
            Err(e) => Err(e),
        }
    }
}

/// An upgrade plans exactly the packages that the lookups of the names
/// found, in the order of the names, names found nowhere skipped: for one
/// answer per name that a plain lookup of that name can give.
pub proof fn law_upgrade_plans_found_packages<'a, B: Backend>(
    resolver: &Resolver<'a, B>,
    names: &[&str],
    r: Result<ResolutionPlan, CxpkgError>,
)
    requires
        call_ensures(Resolver::<'a, B>::resolve_upgrade, (resolver, names), r),
    ensures
        r matches Ok(plan) && exists|answers: Seq<Result<Option<Package>, CxpkgError>>|
            answers.len() == names@.len() && (forall|k: int|
                #![trigger answers[k]]
                0 <= k < answers.len() ==> looked_up(resolver.registry(), names@[k]@, answers[k]) && answers[k] is Ok)
                && plan@.to_upgrade == found_packages(answers),
{
    let plan = r->Ok_0;
    let answers = choose|answers: Seq<Result<Option<Package>, CxpkgError>>|
        answers.len() == names@.len() && (forall|k: int| 0 <= k < answers.len() ==> answers[k] is Ok)
            && (forall|k: int|
            #![trigger answers[k]]
            0 <= k < answers.len() ==> looked_up(resolver.registry(), names@[k]@, answers[k]))
            && (r matches Ok(plan) && #[trigger] upgrade_outcome(answers) == Ok::<
            Seq<PackageModel>,
            CxpkgErrorModel,
        >(plan@.to_upgrade));
    lemma_upgrade_outcome_found(answers);
}

/// The packages, in order, of the answers that found one.
pub open spec fn found_packages(answers: Seq<Result<Option<Package>, CxpkgError>>) -> Seq<PackageModel>
    decreases answers.len(),
{
    if answers.len() == 0 {
        seq![]
    } else {
        match answers.last() {
            Ok(Some(p)) => found_packages(answers.drop_last()).push(p@),
            _ => found_packages(answers.drop_last()),
        }
    }
}

proof fn lemma_upgrade_outcome_found(answers: Seq<Result<Option<Package>, CxpkgError>>)
    requires
        forall|k: int| 0 <= k < answers.len() ==> answers[k] is Ok,
    ensures
        upgrade_outcome(answers) == Ok::<Seq<PackageModel>, CxpkgErrorModel>(found_packages(answers)),
    decreases answers.len(),
{
    if answers.len() > 0 {
        lemma_upgrade_outcome_found(answers.drop_last());
        assert(answers[answers.len() - 1] is Ok);
    }
}

/// Every package that an install plans was answered by a registered
/// backend to a plain query for a name that the resolution looked up: the
/// plan holds the packages as the backends gave them.
pub proof fn law_install_plans_answered_packages<'a, B: Backend>(
    resolver: &Resolver<'a, B>,
    names: &[&str],
    r: Result<ResolutionPlan, CxpkgError>,
    i: int,
)
    requires
        call_ensures(Resolver::<'a, B>::resolve_install, (resolver, names), r),
        r matches Ok(plan) && 0 <= i < plan@.to_install.len(),
    ensures
        r matches Ok(plan) && exists|q: PackageQuery, j: int, a: Package|
            q@.version_req is None && q@.backend is None && 0 <= j < resolver.registry().backends().len() && a@
                == plan@.to_install[i] && #[trigger] call_ensures(
                B::info,
                (&resolver.registry().backends()[j], &q),
                Ok::<Option<Package>, CxpkgError>(Some(a)),
            ),
{
    let plan = r->Ok_0;
    let reg = resolver.registry();
    assert(found_by_lookup(reg, plan@.to_install[i]));
    let (n, a) = choose|n: Seq<char>, a: Package| a@ == plan@.to_install[i] && #[trigger] looked_up(reg, n, Ok(Some(a)));
    let q = choose|q: PackageQuery|
        q@ == (PackageQueryModel { name: n, version_req: None, backend: None }) && #[trigger] call_ensures(
            BackendRegistry::<B>::find_package,
            (reg, &q),
            Ok::<Option<Package>, CxpkgError>(Some(a)),
        );
    law_found_package_was_answered(reg, &q, a);
    let (j, b) = choose|j: int, b: Package|
        0 <= j < reg.backends().len() && b@ == a@ && #[trigger] call_ensures(
            B::info,
            (&reg.backends()[j], &q),
            Ok::<Option<Package>, CxpkgError>(Some(b)),
        );
    assert(call_ensures(B::info, (&reg.backends()[j], &q), Ok::<Option<Package>, CxpkgError>(Some(b))));
}

} // verus!
