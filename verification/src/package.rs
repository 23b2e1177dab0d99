//! Package metadata: packages, dependencies, version requirements,
//! package states and backend kinds, with their mathematical models.
use vstd::prelude::*;
use vstd::string::StringExecFns;
use std::cmp::Ordering;
use crate::text::{chars_of, parse_u64, parse_u64_chars, split, split_chars};

verus! {

// ---------------------------------------------------------------------
// Backend kinds
// ---------------------------------------------------------------------

/// The package systems that cxpkg drives.
#[derive(Debug, Clone, Copy, PartialEq, Eq, Structural)]
pub enum BackendKind {
    Apt,
    Dnf,
    Flatpak,
}

/// The name under which a backend kind is shown and registered.
pub open spec fn backend_name(k: BackendKind) -> Seq<char> {
    match k {
        BackendKind::Apt => "apt"@,
        BackendKind::Dnf => "dnf"@,
        BackendKind::Flatpak => "flatpak"@,
    }
}

impl Default for BackendKind {
    fn default() -> (k: BackendKind)
        ensures
            k == BackendKind::Apt,
    {
        BackendKind::Apt
    }
}

impl BackendKind {
    /// The backend's name: `apt`, `dnf` or `flatpak`.
    pub fn to_string(&self) -> (s: String)
        ensures
            s@ == backend_name(*self),
    {
        match self {
            BackendKind::Apt => "apt".to_owned(),
            BackendKind::Dnf => "dnf".to_owned(),
            BackendKind::Flatpak => "flatpak".to_owned(),
        }
    }
}

// ---------------------------------------------------------------------
// Version requirements
// ---------------------------------------------------------------------

/// A comparison operator of a version requirement.
#[derive(Debug, Clone, Copy, PartialEq, Eq, Structural)]
pub enum VersionOp {
    Eq,
    Ge,
    Gt,
    Le,
    Lt,
}

pub open spec fn version_op_symbol(op: VersionOp) -> Seq<char> {
    match op {
        VersionOp::Eq => "="@,
        VersionOp::Ge => ">="@,
        VersionOp::Gt => ">"@,
        VersionOp::Le => "<="@,
        VersionOp::Lt => "<"@,
    }
}

impl VersionOp {
    /// The operator's symbol: `=`, `>=`, `>`, `<=` or `<`.
    pub fn to_string(&self) -> (s: String)
        ensures
            s@ == version_op_symbol(*self),
    {
        match self {
            VersionOp::Eq => "=".to_owned(),
            VersionOp::Ge => ">=".to_owned(),
            VersionOp::Gt => ">".to_owned(),
            VersionOp::Le => "<=".to_owned(),
            VersionOp::Lt => "<".to_owned(),
        }
    }
}

/// A constraint on the version of a package.
#[derive(Debug, Clone, PartialEq)]
pub struct VersionReq {
    pub op: VersionOp,
    pub version: String,
}

pub struct VersionReqModel {
    pub op: VersionOp,
    pub version: Seq<char>,
}

impl View for VersionReq {
    type V = VersionReqModel;

    open spec fn view(&self) -> VersionReqModel {
        VersionReqModel { op: self.op, version: self.version@ }
    }
}

/// The numbers of a dotted version: its `.`-separated parts that parse
/// as `u64`, in order; the other parts are left out.
pub open spec fn parsed_parts(parts: Seq<Seq<char>>) -> Seq<u64>
    decreases parts.len(),
{
    if parts.len() == 0 {
        seq![]
    } else {
        let r = parsed_parts(parts.drop_last());
        match parse_u64(parts.last()) {
            Some(n) => r.push(n),
            None => r,
        }
    }
}

pub open spec fn version_numbers(s: Seq<char>) -> Seq<u64> {
    parsed_parts(split(s, '.'))
}

/// The `i`th number of a version, 0 past its end.
pub open spec fn part_at(v: Seq<u64>, i: int) -> u64 {
    if 0 <= i < v.len() {
        v[i]
    } else {
        0
    }
}

/// -1, 0 or 1 as `a` is below, equal to or above `b`, comparing the
/// numbers from index `i` on, missing numbers counting as 0.
pub open spec fn compare_numbers_from(a: Seq<u64>, b: Seq<u64>, i: nat) -> int
    decreases a.len() + b.len() - i,
{
    if i >= a.len() && i >= b.len() {
        0
    } else if part_at(a, i as int) < part_at(b, i as int) {
        -1
    } else if part_at(a, i as int) > part_at(b, i as int) {
        1
    } else {
        compare_numbers_from(a, b, i + 1)
    }
}

/// -1, 0 or 1 as version `a` is below, equal to or above version `b`.
pub open spec fn version_order(a: Seq<char>, b: Seq<char>) -> int {
    compare_numbers_from(version_numbers(a), version_numbers(b), 0)
}

/// Whether a version comparing to the required one as `c` (-1, 0, 1)
/// meets the operator `op`.
pub open spec fn op_accepts(op: VersionOp, c: int) -> bool {
    match op {
        VersionOp::Eq => c == 0,
        VersionOp::Ge => c >= 0,
        VersionOp::Gt => c > 0,
        VersionOp::Le => c <= 0,
        VersionOp::Lt => c < 0,
    }
}

proof fn lemma_compare_from_antisymmetric(a: Seq<u64>, b: Seq<u64>, i: nat)
    ensures
        compare_numbers_from(a, b, i) == -compare_numbers_from(b, a, i),
    decreases a.len() + b.len() - i,
{
    if !(i >= a.len() && i >= b.len()) && part_at(a, i as int) == part_at(b, i as int) {
        lemma_compare_from_antisymmetric(a, b, i + 1);
    }
}

proof fn lemma_compare_from_reflexive(a: Seq<u64>, i: nat)
    ensures
        compare_numbers_from(a, a, i) == 0,
    decreases a.len() + a.len() - i,
{
    if i < a.len() {
        lemma_compare_from_reflexive(a, i + 1);
    }
}

proof fn lemma_compare_from_transitive(a: Seq<u64>, b: Seq<u64>, c: Seq<u64>, i: nat)
    requires
        compare_numbers_from(a, b, i) <= 0,
        compare_numbers_from(b, c, i) <= 0,
    ensures
        compare_numbers_from(a, c, i) <= 0,
    decreases a.len() + b.len() + c.len() - i,
{
    if i >= a.len() && i >= b.len() && i >= c.len() {
    } else if part_at(a, i as int) == part_at(b, i as int) && part_at(b, i as int) == part_at(c, i as int) {
        lemma_compare_from_transitive(a, b, c, i + 1);
    }
}

/// Every part of a version that reads as a number counts, however many
/// parts there are: appending a `.`-separated part that reads as `n`
/// appends `n` to the version's numbers, and appending one that does not
/// read as a number leaves them as they were.
pub proof fn law_version_numbers_append(v: Seq<char>, part: Seq<char>)
    requires
        forall|j: int| 0 <= j < part.len() ==> part[j] != '.',
    ensures
        version_numbers(v + seq!['.'] + part) == match parse_u64(part) {
            Some(n) => version_numbers(v).push(n),
            None => version_numbers(v),
        },
{
    crate::text::lemma_split_append(v, '.', part);
    let ps = split(v, '.').push(part);
    assert(ps.drop_last() =~= split(v, '.'));
    assert(ps.last() == part);
}

proof fn lemma_compare_pushed(w: Seq<u64>, a: u64, b: u64, i: nat)
    requires
        i <= w.len(),
    ensures
        compare_numbers_from(w.push(a), w.push(b), i) == (if a < b {
            -1int
        } else if a > b {
            1int
        } else {
            0int
        }),
    decreases w.len() + 1 - i,
{
    if i < w.len() {
        assert(part_at(w.push(a), i as int) == part_at(w.push(b), i as int));
        lemma_compare_pushed(w, a, b, i + 1);
    } else {
        assert(part_at(w.push(a), i as int) == a);
        assert(part_at(w.push(b), i as int) == b);
        if a == b {
            assert(compare_numbers_from(w.push(a), w.push(b), i + 1) == 0);
        }
    }
}

/// Two versions that agree up to their last part are ordered by the
/// numbers of that part, whichever its position: `1.2.3.5` is above
/// `1.2.3.4`.
pub proof fn law_last_part_decides(v: Seq<char>, a: Seq<char>, b: Seq<char>, na: u64, nb: u64)
    requires
        forall|j: int| 0 <= j < a.len() ==> a[j] != '.',
        forall|j: int| 0 <= j < b.len() ==> b[j] != '.',
        parse_u64(a) == Some(na),
        parse_u64(b) == Some(nb),
    ensures
        version_order(v + seq!['.'] + a, v + seq!['.'] + b) == (if na < nb {
            -1int
        } else if na > nb {
            1int
        } else {
            0int
        }),
{
    law_version_numbers_append(v, a);
    law_version_numbers_append(v, b);
    lemma_compare_pushed(version_numbers(v), na, nb, 0);
}

/// A version compares equal to itself, so it meets `=`, `>=` and `<=`
/// requirements on itself and no `>` or `<` one.
pub proof fn law_version_order_reflexive(v: Seq<char>)
    ensures
        version_order(v, v) == 0,
        forall|op: VersionOp| #[trigger] op_accepts(op, version_order(v, v)) <==> (op == VersionOp::Eq
            || op == VersionOp::Ge || op == VersionOp::Le),
{
    lemma_compare_from_reflexive(version_numbers(v), 0);
}

/// Comparing `a` with `b` gives the opposite of comparing `b` with `a`.
pub proof fn law_version_order_antisymmetric(a: Seq<char>, b: Seq<char>)
    ensures
        version_order(a, b) == -version_order(b, a),
{
    lemma_compare_from_antisymmetric(version_numbers(a), version_numbers(b), 0);
}

/// A version no higher than one no higher than a third is no higher than
/// the third.
pub proof fn law_version_order_transitive(a: Seq<char>, b: Seq<char>, c: Seq<char>)
    requires
        version_order(a, b) <= 0,
        version_order(b, c) <= 0,
    ensures
        version_order(a, c) <= 0,
{
    lemma_compare_from_transitive(version_numbers(a), version_numbers(b), version_numbers(c), 0);
}

/// The numbers of a dotted version string.
pub fn version_numbers_of(s: &str) -> (r: Vec<u64>)
    ensures
        r@ == version_numbers(s@),
{
    let v = chars_of(s);
    let parts = split_chars(&v, '.');
    let mut r: Vec<u64> = Vec::new();
    let mut i: usize = 0;
    while i < parts.len()
        invariant
            i <= parts@.len(),
            parts@.len() == split(v@, '.').len(),
            forall|k: int| 0 <= k < parts@.len() ==> (#[trigger] parts@[k])@ == split(v@, '.')[k],
            r@ == parsed_parts(split(v@, '.').take(i as int)),
        decreases parts.len() - i,
    {
        assert(split(v@, '.').take(i + 1).drop_last() =~= split(v@, '.').take(i as int));
        assert(split(v@, '.').take(i + 1).last() == parts@[i as int]@);
        match parse_u64_chars(&parts[i]) {
            Some(n) => r.push(n),
            None => {},
        }
        i = i + 1;
    }
    assert(split(v@, '.').take(parts.len() as int) =~= split(v@, '.'));
    r
}

/// Compares two number sequences as versions: -1, 0 or 1.
pub fn compare_version_numbers(a: &Vec<u64>, b: &Vec<u64>) -> (c: i8)
    ensures
        c as int == compare_numbers_from(a@, b@, 0),
{
    let n = if a.len() > b.len() {
        a.len()
    } else {
        b.len()
    };
    let mut i: usize = 0;
    while i < n
        invariant
            n == if a.len() > b.len() { a.len() } else { b.len() },
            i <= n,
            compare_numbers_from(a@, b@, 0) == compare_numbers_from(a@, b@, i as nat),
        decreases n - i,
    {
        let ai = if i < a.len() {
            a[i]
        } else {
            0
        };
        let bi = if i < b.len() {
            b[i]
        } else {
            0
        };
        if ai < bi {
            return -1;
        } else if ai > bi {
            return 1;
        }
        i = i + 1;
    }
    0
}

/// The `Ordering` that a -1, 0 or 1 comparison stands for.
pub open spec fn ordering_of(c: int) -> Ordering {
    if c < 0 {
        Ordering::Less
    } else if c == 0 {
        Ordering::Equal
    } else {
        Ordering::Greater
    }
}

/// Compares two dotted versions number by number; parts that are not
/// numbers are skipped and missing numbers count as 0.
pub fn semver_compare(a: &str, b: &str) -> (r: Option<Ordering>)
    ensures
        r == Some(ordering_of(version_order(a@, b@))),
{
    let av = version_numbers_of(a);
    let bv = version_numbers_of(b);
    let c = compare_version_numbers(&av, &bv);
    if c < 0 {
        Some(Ordering::Less)
    } else if c == 0 {
        Some(Ordering::Equal)
    } else {
        Some(Ordering::Greater)
    }
}

impl VersionReq {
    pub fn new(op: VersionOp, version: &str) -> (r: VersionReq)
        ensures
            r@ == (VersionReqModel { op, version: version@ }),
    {
        VersionReq { op, version: version.to_owned() }
    }

    /// Whether version `candidate` meets this requirement.
    pub fn satisfies(&self, candidate: &str) -> (b: bool)
        ensures
            b == op_accepts(self.op, version_order(candidate@, self.version@)),
    {
        match semver_compare(candidate, self.version.as_str()) {
            Some(ord) => match self.op {
                VersionOp::Eq => match ord {
                    Ordering::Equal => true,
                    _ => false,
                },
                VersionOp::Ge => match ord {
                    Ordering::Less => false,
                    _ => true,
                },
                VersionOp::Gt => match ord {
                    Ordering::Greater => true,
                    _ => false,
                },
                VersionOp::Le => match ord {
                    Ordering::Greater => false,
                    _ => true,
                },
                VersionOp::Lt => match ord {
                    Ordering::Less => true,
                    _ => false,
                },
            },
            None => false,
        }
    }
}

// ---------------------------------------------------------------------
// Strings in models
// ---------------------------------------------------------------------

pub open spec fn opt_string(o: Option<String>) -> Option<Seq<char>> {
    match o {
        Some(s) => Some(s@),
        None => None,
    }
}

pub open spec fn strings_view(v: Seq<String>) -> Seq<Seq<char>> {
    v.map_values(|s: String| s@)
}

// ---------------------------------------------------------------------
// Package states
// ---------------------------------------------------------------------

/// Where a package stands on this system.
#[derive(Debug, Clone, PartialEq)]
pub enum PackageState {
    Available,
    Installed,
    Upgradable { current: String, available: String },
    Broken,
}

pub enum PackageStateModel {
    Available,
    Installed,
    Upgradable { current: Seq<char>, available: Seq<char> },
    Broken,
}

impl View for PackageState {
    type V = PackageStateModel;

    open spec fn view(&self) -> PackageStateModel {
        match self {
            PackageState::Available => PackageStateModel::Available,
            PackageState::Installed => PackageStateModel::Installed,
            PackageState::Upgradable { current, available } => PackageStateModel::Upgradable {
                current: current@,
                available: available@,
            },
            PackageState::Broken => PackageStateModel::Broken,
        }
    }
}

impl Default for PackageState {
    fn default() -> (s: PackageState)
        ensures
            s@ == PackageStateModel::Available,
    {
        PackageState::Available
    }
}

/// How a package state is shown.
pub open spec fn state_text(s: PackageStateModel) -> Seq<char> {
    match s {
        PackageStateModel::Available => "available"@,
        PackageStateModel::Installed => "installed"@,
        PackageStateModel::Upgradable { current, available } => "upgradable ("@ + current + " -> "@
            + available + ")"@,
        PackageStateModel::Broken => "broken"@,
    }
}

impl PackageState {
    /// The state as shown to the user, e.g. `upgradable (1.0 -> 1.1)`.
    pub fn to_string(&self) -> (s: String)
        ensures
            s@ == state_text(self@),
    {
        match self {
            PackageState::Available => "available".to_owned(),
            PackageState::Installed => "installed".to_owned(),
            PackageState::Upgradable { current, available } => {
                let mut s = "upgradable (".to_owned();
                s.append(current.as_str());
                s.append(" -> ");
                s.append(available.as_str());
                s.append(")");
                s
            },
            PackageState::Broken => "broken".to_owned(),
        }
    }

    /// Whether this is the `Installed` state.
    pub fn is_installed(&self) -> (b: bool)
        ensures
            b == (self@ is Installed),
    {
        match self {
            PackageState::Installed => true,
            _ => false,
        }
    }
}

// ---------------------------------------------------------------------
// Dependencies
// ---------------------------------------------------------------------

/// A dependency of a package on another, by name.
#[derive(Debug, Clone, PartialEq)]
pub struct Dependency {
    pub name: String,
    pub version_req: Option<VersionReq>,
    pub optional: bool,
}

pub struct DependencyModel {
    pub name: Seq<char>,
    pub version_req: Option<VersionReqModel>,
    pub optional: bool,
}

pub open spec fn opt_req(o: Option<VersionReq>) -> Option<VersionReqModel> {
    match o {
        Some(r) => Some(r@),
        None => None,
    }
}

impl View for Dependency {
    type V = DependencyModel;

    open spec fn view(&self) -> DependencyModel {
        DependencyModel {
            name: self.name@,
            version_req: opt_req(self.version_req),
            optional: self.optional,
        }
    }
}

impl Dependency {
    /// A required dependency on `name`, any version.
    pub fn required(name: &str) -> (d: Dependency)
        ensures
            d@ == (DependencyModel { name: name@, version_req: None, optional: false }),
    {
        Dependency { name: name.to_owned(), version_req: None, optional: false }
    }

    /// A required dependency on `name` at versions that meet `req`.
    pub fn with_version(name: &str, req: VersionReq) -> (d: Dependency)
        ensures
            d@ == (DependencyModel { name: name@, version_req: Some(req@), optional: false }),
    {
        Dependency { name: name.to_owned(), version_req: Some(req), optional: false }
    }
}

// ---------------------------------------------------------------------
// Packages
// ---------------------------------------------------------------------

/// A package as a backend describes it.
#[derive(Debug, Clone, PartialEq)]
pub struct Package {
    pub name: String,
    pub version: String,
    pub arch: String,
    pub description: String,
    pub size: u64,
    pub installed_size: u64,
    pub dependencies: Vec<Dependency>,
    pub provides: Vec<String>,
    pub conflicts: Vec<String>,
    pub backend: BackendKind,
    pub state: PackageState,
    pub section: Option<String>,
    pub homepage: Option<String>,
    pub maintainer: Option<String>,
}

#[verifier::ext_equal]
pub struct PackageModel {
    pub name: Seq<char>,
    pub version: Seq<char>,
    pub arch: Seq<char>,
    pub description: Seq<char>,
    pub size: u64,
    pub installed_size: u64,
    pub dependencies: Seq<DependencyModel>,
    pub provides: Seq<Seq<char>>,
    pub conflicts: Seq<Seq<char>>,
    pub backend: BackendKind,
    pub state: PackageStateModel,
    pub section: Option<Seq<char>>,
    pub homepage: Option<Seq<char>>,
    pub maintainer: Option<Seq<char>>,
}

impl View for Package {
    type V = PackageModel;

    open spec fn view(&self) -> PackageModel {
        PackageModel {
            name: self.name@,
            version: self.version@,
            arch: self.arch@,
            description: self.description@,
            size: self.size,
            installed_size: self.installed_size,
            dependencies: self.dependencies@.map_values(|d: Dependency| d@),
            provides: strings_view(self.provides@),
            conflicts: strings_view(self.conflicts@),
            backend: self.backend,
            state: self.state@,
            section: opt_string(self.section),
            homepage: opt_string(self.homepage),
            maintainer: opt_string(self.maintainer),
        }
    }
}

/// The packages' models, in order.
pub open spec fn packages_view(v: Seq<Package>) -> Seq<PackageModel> {
    v.map_values(|p: Package| p@)
}

/// A package just named by a backend: architecture `amd64`, available,
/// everything else empty.
pub open spec fn fresh_package(name: Seq<char>, version: Seq<char>, backend: BackendKind) -> PackageModel {
    PackageModel {
        name,
        version,
        arch: "amd64"@,
        description: seq![],
        size: 0,
        installed_size: 0,
        dependencies: seq![],
        provides: seq![],
        conflicts: seq![],
        backend,
        state: PackageStateModel::Available,
        section: None,
        homepage: None,
        maintainer: None,
    }
}

/// How a package is shown: `name/version [backend]`.
pub open spec fn package_text(p: PackageModel) -> Seq<char> {
    p.name + "/"@ + p.version + " ["@ + backend_name(p.backend) + "]"@
}

/// The names of a package's required (not optional) dependencies, in order.
pub open spec fn required_names(deps: Seq<DependencyModel>) -> Seq<Seq<char>>
    decreases deps.len(),
{
    if deps.len() == 0 {
        seq![]
    } else if deps.last().optional {
        required_names(deps.drop_last())
    } else {
        required_names(deps.drop_last()).push(deps.last().name)
    }
}

impl Package {
    pub fn new(name: &str, version: &str, backend: BackendKind) -> (p: Package)
        ensures
            p@ == fresh_package(name@, version@, backend),
    {
        let p = Package {
            name: name.to_owned(),
            version: version.to_owned(),
            arch: "amd64".to_owned(),
            description: String::new(),
            size: 0,
            installed_size: 0,
            dependencies: Vec::new(),
            provides: Vec::new(),
            conflicts: Vec::new(),
            backend,
            state: PackageState::Available,
            section: None,
            homepage: None,
            maintainer: None,
        };
        assert(p@ =~= fresh_package(name@, version@, backend));
        p
    }

    /// The package as shown: `name/version [backend]`.
    pub fn to_string(&self) -> (s: String)
        ensures
            s@ == package_text(self@),
    {
        let mut s = self.name.clone();
        s.append("/");
        s.append(self.version.as_str());
        s.append(" [");
        let b = self.backend.to_string();
        s.append(b.as_str());
        s.append("]");
        s
    }

    /// The names of the package's required dependencies, in order.
    pub fn required_dependency_names(&self) -> (r: Vec<String>)
        ensures
            strings_view(r@) == required_names(self@.dependencies),
    {
        let mut r: Vec<String> = Vec::new();
        let mut i: usize = 0;
        while i < self.dependencies.len()
            invariant
                i <= self.dependencies@.len(),
                strings_view(r@) == required_names(
                    self.dependencies@.map_values(|d: Dependency| d@).take(i as int),
                ),
            decreases self.dependencies.len() - i,
        {
            let ghost deps = self.dependencies@.map_values(|d: Dependency| d@);
            assert(deps.take(i + 1).drop_last() =~= deps.take(i as int));
            if !self.dependencies[i].optional {
                let n = self.dependencies[i].name.clone();
                r.push(n);
                assert(strings_view(r@) =~= strings_view(r@.drop_last()).push(n@));
            }
            i = i + 1;
        }
        assert(self.dependencies@.map_values(|d: Dependency| d@).take(i as int)
            =~= self.dependencies@.map_values(|d: Dependency| d@));
        r
    }
}

// ---------------------------------------------------------------------
// Queries
// ---------------------------------------------------------------------

/// A request for a package by name, optionally bound to a version
/// requirement and to one backend.
#[derive(Debug, Clone)]
pub struct PackageQuery {
    pub name: String,
    pub version_req: Option<VersionReq>,
    pub backend: Option<BackendKind>,
}

pub struct PackageQueryModel {
    pub name: Seq<char>,
    pub version_req: Option<VersionReqModel>,
    pub backend: Option<BackendKind>,
}

impl View for PackageQuery {
    type V = PackageQueryModel;

    open spec fn view(&self) -> PackageQueryModel {
        PackageQueryModel {
            name: self.name@,
            version_req: opt_req(self.version_req),
            backend: self.backend,
        }
    }
}

impl PackageQuery {
    pub fn new(name: &str) -> (q: PackageQuery)
        ensures
            q@ == (PackageQueryModel { name: name@, version_req: None, backend: None }),
    {
        PackageQuery { name: name.to_owned(), version_req: None, backend: None }
    }

    /// The same query bound to `backend`.
    pub fn with_backend(self, backend: BackendKind) -> (q: PackageQuery)
        ensures
            q@ == (PackageQueryModel { backend: Some(backend), ..self@ }),
    {
        let mut q = self;
        q.backend = Some(backend);
        q
    }

    /// The same query bound to versions that meet `req`.
    pub fn with_version(self, req: VersionReq) -> (q: PackageQuery)
        ensures
            q@ == (PackageQueryModel { version_req: Some(req@), ..self@ }),
    {
        let mut q = self;
        q.version_req = Some(req);
        q
    }
}

} // verus!
