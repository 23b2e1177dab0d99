//! The commands that cxpkg understands, and the decisions each command
//! makes before and between the calls into the backends: which requests
//! are complete, how a plan is split among backends, what a confirmation
//! answer means, and how results are shown.
use vstd::prelude::*;
use vstd::string::StringExecFns;
use vstd::utf8::{decode_utf8, encode_utf8, is_char_boundary};
use crate::error::{CxpkgError, CxpkgErrorModel};
use crate::backend::{Backend, BackendRegistry, first_index_of, lemma_first_named_unique};
use crate::package::{backend_name, Package, PackageModel, packages_view, required_names,
    strings_view};
use crate::resolver::{join, join_strings};
use crate::text::{chars_of, trim, trim_chars};

verus! {

/// A command line: global switches and the command to run.
#[derive(Debug, Clone)]
pub struct Cli {
    pub verbose: bool,
    pub backend: Option<String>,
    pub command: Commands,
}

/// What cxpkg is asked to do.
#[derive(Debug, Clone)]
pub enum Commands {
    Install { packages: Vec<String>, dry_run: bool, yes: bool },
    Remove { packages: Vec<String>, yes: bool },
    Search { query: String, extended: bool },
    Info { package: String },
    Update,
    Upgrade { packages: Vec<String>, all: bool, yes: bool },
    List { upgradable: bool, backend: Option<String> },
    Config { action: ConfigAction },
}

/// What `cxpkg config` is asked to do.
#[derive(Debug, Clone)]
pub enum ConfigAction {
    Show,
    SetKey { key: String, value: String },
    Reset,
}

// ---------------------------------------------------------------------
// Requests
// ---------------------------------------------------------------------

/// `install` and `remove` need at least one package name.
pub fn require_packages(packages: &Vec<String>) -> (r: Result<(), CxpkgError>)
    ensures
        packages@.len() > 0 <==> r is Ok,
        r matches Err(e) ==> e@ == CxpkgErrorModel::Config("no packages specified"@),
{
    if packages.len() == 0 {
        return Err(CxpkgError::Config("no packages specified".to_owned()));
    }
    Ok(())
}

/// `upgrade` needs package names or `--all`.
pub fn check_upgrade_request(packages: &Vec<String>, all: bool) -> (r: Result<(), CxpkgError>)
    ensures
        (all || packages@.len() > 0) <==> r is Ok,
        r matches Err(e) ==> e@ == CxpkgErrorModel::Config("specify packages or use --all"@),
{
    if !all && packages.len() == 0 {
        return Err(CxpkgError::Config("specify packages or use --all".to_owned()));
    }
    Ok(())
}

// ---------------------------------------------------------------------
// Going from a plan to its execution
// ---------------------------------------------------------------------

/// What a command does once its plan is shown.
#[derive(Debug, Clone, Copy, PartialEq, Eq, Structural)]
pub enum PlanStep {
    /// The plan holds nothing to do: report that and stop.
    NothingToDo,
    /// A dry run: report that nothing was changed and stop.
    DryRun,
    /// Ask for confirmation, then carry the plan out.
    AskThenApply,
    /// Carry the plan out.
    Apply,
}

/// The step after a plan: nothing to do stops first, then a dry run, and
/// without `--yes` the user is asked before anything changes.
pub fn plan_step(nothing_to_do: bool, dry_run: bool, yes: bool) -> (s: PlanStep)
    ensures
        s == (if nothing_to_do {
            PlanStep::NothingToDo
        } else if dry_run {
            PlanStep::DryRun
        } else if !yes {
            PlanStep::AskThenApply
        } else {
            PlanStep::Apply
        }),
{
    if nothing_to_do {
        PlanStep::NothingToDo
    } else if dry_run {
        PlanStep::DryRun
    } else if !yes {
        PlanStep::AskThenApply
    } else {
        PlanStep::Apply
    }
}

/// What a sweep over every backend (`update`, `upgrade --all`) does next.
#[derive(Debug, Clone, Copy, PartialEq, Eq, Structural)]
pub enum SweepStep {
    /// Run the backend at this index.
    Run(usize),
    /// Every backend has run.
    Done,
}

/// The step after `done` of `count` backends have run. A backend's
/// failure is reported and does not stop the sweep: the next backend
/// runs whatever the last one answered.
pub fn sweep_step(done: usize, count: usize) -> (s: SweepStep)
    requires
        done <= count,
    ensures
        done < count ==> s == SweepStep::Run(done),
        done == count ==> s == SweepStep::Done,
{
    if done < count {
        SweepStep::Run(done)
    } else {
        SweepStep::Done
    }
}

// ---------------------------------------------------------------------
// Splitting a plan among backends
// ---------------------------------------------------------------------

/// Backend names, each with the package names that go to it.
pub type Groups = Seq<(Seq<char>, Seq<Seq<char>>)>;

/// Some group has backend name `key`.
pub open spec fn has_key(gs: Groups, key: Seq<char>) -> bool {
    exists|i: int| 0 <= i < gs.len() && gs[i].0 == key
}

/// A group with backend name `key`, when there is one.
pub open spec fn key_index(gs: Groups, key: Seq<char>) -> int {
    choose|i: int| 0 <= i < gs.len() && gs[i].0 == key
}

/// `name` added to the group of `key`: appended to that group's names
/// when there is one, else in a new group at the end.
pub open spec fn add_to_group(gs: Groups, key: Seq<char>, name: Seq<char>) -> Groups {
    if has_key(gs, key) {
        let i = key_index(gs, key);
        gs.update(i, (key, gs[i].1.push(name)))
    } else {
        gs.push((key, seq![name]))
    }
}

/// The names of `ps` grouped by backend name: groups in the order in which
/// their backend first appears, names in the order of `ps`.
pub open spec fn groups_of(ps: Seq<PackageModel>) -> Groups
    decreases ps.len(),
{
    if ps.len() == 0 {
        seq![]
    } else {
        add_to_group(groups_of(ps.drop_last()), backend_name(ps.last().backend), ps.last().name)
    }
}

/// No two groups share a backend name.
pub open spec fn distinct_keys(gs: Groups) -> bool {
    forall|i: int, j: int| 0 <= i < j < gs.len() ==> gs[i].0 != gs[j].0
}

/// Groups of backend and package names as the strings they hold.
pub open spec fn groups_view(v: Seq<(String, Vec<String>)>) -> Groups {
    v.map_values(|g: (String, Vec<String>)| (g.0@, strings_view(g.1@)))
}

/// The index of the group of `key`, if there is one.
fn find_group(groups: &Vec<(String, Vec<String>)>, key: &String) -> (r: Option<usize>)
    ensures
        match r {
            Some(j) => j < groups@.len() && groups_view(groups@)[j as int].0 == key@,
            None => forall|k: int| 0 <= k < groups@.len() ==> groups_view(groups@)[k].0 != key@,
        },
{
    let mut j: usize = 0;
    while j < groups.len()
        invariant
            j <= groups@.len(),
            forall|k: int| 0 <= k < j ==> groups_view(groups@)[k].0 != key@,
        decreases groups.len() - j,
    {
        assert(groups_view(groups@)[j as int].0 == groups@[j as int].0@);
        if groups[j].0 == *key {
            return Some(j);
        }
        j = j + 1;
    }
    None
}

/// The names of the packages of a plan, grouped by the backend that
/// handles them.
pub fn group_by_backend(packages: &Vec<Package>) -> (r: Vec<(String, Vec<String>)>)
    ensures
        groups_view(r@) == groups_of(packages_view(packages@)),
        distinct_keys(groups_of(packages_view(packages@))),
{
    let ghost ps = packages_view(packages@);
    let mut groups: Vec<(String, Vec<String>)> = Vec::new();
    let mut i: usize = 0;
    while i < packages.len()
        invariant
            i <= packages@.len(),
            ps == packages_view(packages@),
            groups_view(groups@) == groups_of(ps.take(i as int)),
            distinct_keys(groups_of(ps.take(i as int))),
        decreases packages.len() - i,
    {
        let ghost gs = groups_of(ps.take(i as int));
        assert(ps.take(i + 1).drop_last() =~= ps.take(i as int));
        assert(ps.take(i + 1).last() == packages@[i as int]@);
        let key = packages[i].backend.to_string();
        let name = packages[i].name.clone();
        let found = find_group(&groups, &key);
        if let Some(j) = found {
            assert(gs[j as int].0 == key@);
            assert forall|k: int| 0 <= k < gs.len() && gs[k].0 == key@ implies k == j by {
                if k < j {
                    assert(gs[k].0 != gs[j as int].0);
                } else if k > j {
                    assert(gs[j as int].0 != gs[k].0);
                }
            }
            let ghost before = groups@;
            groups[j].1.push(name);
            assert(groups@.len() == before.len());
            assert(groups@[j as int].0 == before[j as int].0);
            assert(groups@[j as int].1@ == before[j as int].1@.push(name));
            assert(forall|k: int| 0 <= k < before.len() && k != j ==> groups@[k] == before[k]);
            assert(strings_view(groups@[j as int].1@) =~= strings_view(before[j as int].1@).push(name@));
            assert(groups_view(groups@) =~= gs.update(j as int, (key@, gs[j as int].1.push(name@))));
        } else {
            let mut names: Vec<String> = Vec::new();
            names.push(name);
            groups.push((key, names));
            assert(strings_view(names@) =~= seq![name@]);
            assert(groups_view(groups@) =~= gs.push((key@, seq![name@])));
        }
        i = i + 1;
    }
    assert(ps.take(packages@.len() as int) =~= ps);
    groups
}

/// Adding a name keeps every group's key where it was and every name it
/// held, and puts the name in the group of its key.
proof fn lemma_add_to_group(gs: Groups, key: Seq<char>, name: Seq<char>)
    ensures
        gs.len() <= add_to_group(gs, key, name).len(),
        forall|g: int| 0 <= g < gs.len() ==> #[trigger] add_to_group(gs, key, name)[g].0 == gs[g].0,
        forall|g: int, n: Seq<char>| 0 <= g < gs.len() && gs[g].1.contains(n) ==> #[trigger] add_to_group(gs, key, name)[g].1.contains(n),
        exists|g: int| 0 <= g < add_to_group(gs, key, name).len() && #[trigger] add_to_group(gs, key, name)[g].0 == key
            && add_to_group(gs, key, name)[g].1.contains(name),
{
    let r = add_to_group(gs, key, name);
    if has_key(gs, key) {
        let j = key_index(gs, key);
        assert(r[j].1 == gs[j].1.push(name));
        assert(r[j].1[gs[j].1.len() as int] == name);
        assert(r[j].1.contains(name));
        assert(r[j].0 == key);
        assert forall|g: int, n: Seq<char>| 0 <= g < gs.len() && gs[g].1.contains(n) implies #[trigger] r[g].1.contains(n) by {
            if g == j {
                let k = choose|k: int| 0 <= k < gs[g].1.len() && gs[g].1[k] == n;
                assert(r[g].1[k] == n);
            }
        }
    } else {
        assert(r[gs.len() as int].1 == seq![name]);
        assert(r[gs.len() as int].1[0] == name);
        assert(r[gs.len() as int].1.contains(name));
        assert(r[gs.len() as int].0 == key);
        assert forall|g: int, n: Seq<char>| 0 <= g < gs.len() && gs[g].1.contains(n) implies #[trigger] r[g].1.contains(n) by {
            assert(r[g] == gs[g]);
        }
    }
}

/// No package of a plan is lost when the plan is split among backends:
/// each package's name is in the group of its backend.
pub proof fn law_every_package_grouped(ps: Seq<PackageModel>, i: int)
    requires
        0 <= i < ps.len(),
    ensures
        exists|g: int| 0 <= g < groups_of(ps).len() && #[trigger] groups_of(ps)[g].0 == backend_name(ps[i].backend)
            && groups_of(ps)[g].1.contains(ps[i].name),
    decreases ps.len(),
{
    let prev = groups_of(ps.drop_last());
    lemma_add_to_group(prev, backend_name(ps.last().backend), ps.last().name);
    assert(groups_of(ps) == add_to_group(prev, backend_name(ps.last().backend), ps.last().name));
    if i < ps.len() - 1 {
        law_every_package_grouped(ps.drop_last(), i);
        assert(ps.drop_last()[i] == ps[i]);
        let g = choose|g: int| 0 <= g < prev.len() && #[trigger] prev[g].0 == backend_name(ps[i].backend)
            && prev[g].1.contains(ps[i].name);
        assert(groups_of(ps)[g].0 == backend_name(ps[i].backend));
        assert(groups_of(ps)[g].1.contains(ps[i].name));
    } else {
        assert(ps.last() == ps[i]);
        let g = choose|g: int| 0 <= g < groups_of(ps).len() && #[trigger] groups_of(ps)[g].0 == backend_name(ps[i].backend)
            && groups_of(ps)[g].1.contains(ps[i].name);
        assert(groups_of(ps)[g].0 == backend_name(ps[i].backend));
    }
}

/// Where the groups `gs` of a plan go: for each group whose backend name
/// is registered, in order, the index of the first backend registered
/// under it, the name, and the group's package names. Groups of a
/// backend that is not registered are left out.
pub open spec fn dispatch_targets_spec(names: Seq<Seq<char>>, gs: Groups) -> Seq<(int, Seq<char>, Seq<Seq<char>>)>
    decreases gs.len(),
{
    if gs.len() == 0 {
        seq![]
    } else {
        let r = dispatch_targets_spec(names, gs.drop_last());
        let g = gs.last();
        if names.contains(g.0) {
            r.push((first_index_of(names, g.0), g.0, g.1))
        } else {
            r
        }
    }
}

/// Targets as the numbers and strings they hold.
pub open spec fn targets_view(v: Seq<(usize, String, Vec<String>)>) -> Seq<(int, Seq<char>, Seq<Seq<char>>)> {
    v.map_values(|t: (usize, String, Vec<String>)| (t.0 as int, t.1@, strings_view(t.2@)))
}

/// The backends that carry a plan out, each with the names of its
/// packages: the plan's packages grouped by backend, and each group sent
/// to the first backend registered under its name, if any.
pub fn dispatch_targets<B: Backend>(registry: &BackendRegistry<B>, packages: &Vec<Package>) -> (r: Vec<
    (usize, String, Vec<String>),
>)
    ensures
        targets_view(r@) == dispatch_targets_spec(registry.names(), groups_of(packages_view(packages@))),
        forall|k: int| 0 <= k < r@.len() ==> r@[k].0 < registry.names().len(),
{
    let groups = group_by_backend(packages);
    let ghost gs = groups_view(groups@);
    let ghost names = registry.names();
    let mut r: Vec<(usize, String, Vec<String>)> = Vec::new();
    assert(gs.take(0) =~= Seq::<(Seq<char>, Seq<Seq<char>>)>::empty());
    for g in it: groups
        invariant
            gs == it.seq().map_values(|g: (String, Vec<String>)| (g.0@, strings_view(g.1@))),
            names == registry.names(),
            targets_view(r@) == dispatch_targets_spec(names, gs.take(it.index() as int)),
            forall|k: int| 0 <= k < r@.len() ==> r@[k].0 < names.len(),
    {
        let ghost k = it.index() as int;
        assert(gs.take(k + 1).drop_last() =~= gs.take(k));
        assert(gs.take(k + 1).last() == gs[k]);
        let (key, pkgs) = g;
        assert(gs[k] == (key@, strings_view(pkgs@)));
        match registry.index_of(key.as_str()) {
            Some(i) => {
                proof {
                    lemma_first_named_unique(names, key@, i as int);
                    assert(names.contains(key@)) by {
                        assert(names[i as int] == key@);
                    }
                }
                let ghost before = r@;
                r.push((i, key, pkgs));
                assert(targets_view(r@) =~= targets_view(before).push((i as int, key@, strings_view(pkgs@))));
            },
            None => {},
        }
    }
    assert(gs.take(gs.len() as int) =~= gs);
    r
}

// ---------------------------------------------------------------------
// Answers and display
// ---------------------------------------------------------------------

/// A confirmation answer that agrees: `y` or `Y`, surrounding whitespace
/// ignored.
pub open spec fn is_yes_answer(answer: Seq<char>) -> bool {
    trim(answer) == "y"@ || trim(answer) == "Y"@
}

/// Whether `answer` agrees to go on.
pub fn is_yes(answer: &str) -> (b: bool)
    ensures
        b == is_yes_answer(answer@),
{
    let t = trim_chars(&chars_of(answer));
    proof {
        reveal_strlit("y");
        reveal_strlit("Y");
        if t@.len() == 1 {
            if t@[0] == 'y' {
                assert(t@ =~= "y"@);
            }
            if t@[0] == 'Y' {
                assert(t@ =~= "Y"@);
            }
        }
        if t@ == "y"@ {
            assert(t@.len() == 1 && t@[0] == 'y');
        }
        if t@ == "Y"@ {
            assert(t@.len() == 1 && t@[0] == 'Y');
        }
    }
    t.len() == 1 && (t[0] == 'y' || t[0] == 'Y')
}

/// Goes on when `answer` agrees; anything else aborts.
pub fn confirmation(answer: &str) -> (r: Result<(), CxpkgError>)
    ensures
        is_yes_answer(answer@) <==> r is Ok,
        r matches Err(e) ==> e@ == CxpkgErrorModel::Config("aborted by user"@),
{
    if is_yes(answer) {
        Ok(())
    } else {
        Err(CxpkgError::Config("aborted by user".to_owned()))
    }
}

/// A description as a search result shows it: one longer than 70 bytes
/// is cut to its first 67 bytes, followed by `...`.
pub fn short_description(desc: &str) -> (r: String)
    requires
        encode_utf8(desc@).len() <= usize::MAX,
        encode_utf8(desc@).len() > 70 ==> is_char_boundary(encode_utf8(desc@), 67),
    ensures
        encode_utf8(desc@).len() <= 70 ==> r@ == desc@,
        encode_utf8(desc@).len() > 70 ==> r@ == decode_utf8(encode_utf8(desc@).take(67)) + "..."@,
{
    if desc.len() > 70 {
        let (head, _) = desc.split_at(67);
        proof {
            vstd::utf8::encode_utf8_decode_utf8(head@);
            assert(encode_utf8(head@) =~= encode_utf8(desc@).take(67));
            assert(decode_utf8(encode_utf8(desc@).take(67)) == head@);
        }
        let r = head.to_owned().concat("...");
        assert(r@ == head@ + "..."@);
        r
    } else {
        desc.to_owned()
    }
}

/// What `info` shows for a package's dependencies: nothing when it has
/// none, else the names of the required ones joined by `, `.
pub fn dependency_line(pkg: &Package) -> (r: Option<String>)
    ensures
        pkg@.dependencies.len() == 0 ==> r is None,
        pkg@.dependencies.len() > 0 ==> (r matches Some(s) && s@ == join(
            required_names(pkg@.dependencies),
            ", "@,
        )),
{
    if pkg.dependencies.len() == 0 {
        return None;
    }
    let names = pkg.required_dependency_names();
    Some(join_strings(&names, ", "))
}

/// What `config set` answers.
pub fn set_message(key: &str, value: &str) -> (s: String)
    ensures
        s@ == "Set "@ + key@ + " = "@ + value@ + " (edit /etc/cxpkg/config.toml to persist)"@,
{
    "Set ".to_owned().concat(key).concat(" = ").concat(value).concat(
        " (edit /etc/cxpkg/config.toml to persist)",
    )
}

} // verus!
