//! cxpkg's configuration: which backends are enabled and in what order
//! they are asked, resolver switches and the cache location. Reading and
//! writing the TOML file is left to the program around the library.
use vstd::prelude::*;
use crate::package::{BackendKind, backend_name, strings_view};

verus! {

/// The whole configuration.
#[derive(Debug, Clone)]
pub struct Config {
    pub backends: BackendConfig,
    pub resolver: ResolverConfig,
    pub cache: CacheConfig,
}

/// Which backends are enabled, and the order in which they are registered.
#[derive(Debug, Clone)]
pub struct BackendConfig {
    pub apt_enabled: bool,
    pub dnf_enabled: bool,
    pub flatpak_enabled: bool,
    pub priority: Vec<String>,
}

/// Resolver switches.
#[derive(Debug, Clone)]
pub struct ResolverConfig {
    pub allow_downgrades: bool,
    pub auto_remove_orphans: bool,
}

/// Where downloaded metadata is cached, and for how long.
#[derive(Debug, Clone)]
pub struct CacheConfig {
    pub dir: String,
    pub max_age_days: u32,
}

pub struct BackendConfigModel {
    pub apt_enabled: bool,
    pub dnf_enabled: bool,
    pub flatpak_enabled: bool,
    pub priority: Seq<Seq<char>>,
}

impl View for BackendConfig {
    type V = BackendConfigModel;

    open spec fn view(&self) -> BackendConfigModel {
        BackendConfigModel {
            apt_enabled: self.apt_enabled,
            dnf_enabled: self.dnf_enabled,
            flatpak_enabled: self.flatpak_enabled,
            priority: strings_view(self.priority@),
        }
    }
}

/// The backend that a priority entry registers, if the entry names an
/// enabled backend.
pub open spec fn entry_backend(cfg: BackendConfigModel, name: Seq<char>) -> Option<BackendKind> {
    if name == "apt"@ && cfg.apt_enabled {
        Some(BackendKind::Apt)
    } else if name == "dnf"@ && cfg.dnf_enabled {
        Some(BackendKind::Dnf)
    } else if name == "flatpak"@ && cfg.flatpak_enabled {
        Some(BackendKind::Flatpak)
    } else {
        None
    }
}

/// The backends to register for the first `n` priority entries, in order:
/// one for each entry that names an enabled backend (an entry named twice
/// registers twice); unknown names and disabled backends are skipped.
pub open spec fn kinds_to_register(cfg: BackendConfigModel, n: int) -> Seq<BackendKind>
    decreases n,
{
    if n <= 0 {
        seq![]
    } else {
        let r = kinds_to_register(cfg, n - 1);
        match entry_backend(cfg, cfg.priority[n - 1]) {
            Some(k) => r.push(k),
            None => r,
        }
    }
}

/// The default cache directory.
pub open spec fn default_cache_dir() -> Seq<char> {
    "/var/cache/cxpkg"@
}

impl Default for Config {
    /// APT and Flatpak enabled, DNF disabled; priority `apt`, `flatpak`,
    /// `dnf`; no downgrades, no orphan removal; cache in
    /// `/var/cache/cxpkg`, kept 7 days.
    fn default() -> (c: Config)
        ensures
            c.backends.apt_enabled,
            !c.backends.dnf_enabled,
            c.backends.flatpak_enabled,
            c.backends@.priority == seq!["apt"@, "flatpak"@, "dnf"@],
            !c.resolver.allow_downgrades,
            !c.resolver.auto_remove_orphans,
            c.cache.dir@ == default_cache_dir(),
            c.cache.max_age_days == 7,
    {
        let priority = vec!["apt".to_owned(), "flatpak".to_owned(), "dnf".to_owned()];
        let c = Config {
            backends: BackendConfig {
                apt_enabled: true,
                dnf_enabled: false,
                flatpak_enabled: true,
                priority,
            },
            resolver: ResolverConfig { allow_downgrades: false, auto_remove_orphans: false },
            cache: CacheConfig { dir: "/var/cache/cxpkg".to_owned(), max_age_days: 7 },
        };
        assert(c.backends@.priority =~= seq!["apt"@, "flatpak"@, "dnf"@]);
        c
    }
}

/// Where the configuration file lives.
pub fn config_path() -> (p: String)
    ensures
        p@ == "/etc/cxpkg/config.toml"@,
{
    "/etc/cxpkg/config.toml".to_owned()
}

/// The backends to register, in the configured priority order.
pub fn backends_to_register(cfg: &BackendConfig) -> (r: Vec<BackendKind>)
    ensures
        r@ == kinds_to_register(cfg@, cfg@.priority.len() as int),
{
    let apt = "apt".to_owned();
    let dnf = "dnf".to_owned();
    let flatpak = "flatpak".to_owned();
    let mut r: Vec<BackendKind> = Vec::new();
    let mut i: usize = 0;
    while i < cfg.priority.len()
        invariant
            i <= cfg.priority@.len(),
            r@ == kinds_to_register(cfg@, i as int),
            apt@ == "apt"@,
            dnf@ == "dnf"@,
            flatpak@ == "flatpak"@,
        decreases cfg.priority.len() - i,
    {
        let name = &cfg.priority[i];
        assert(cfg@.priority[i as int] == name@);
        let kind = if *name == apt && cfg.apt_enabled {
            Some(BackendKind::Apt)
        } else if *name == dnf && cfg.dnf_enabled {
            Some(BackendKind::Dnf)
        } else if *name == flatpak && cfg.flatpak_enabled {
            Some(BackendKind::Flatpak)
        } else {
            None
        };
        assert(kind == entry_backend(cfg@, name@));
        match kind {
            Some(k) => r.push(k),
            None => {},
        }
        i = i + 1;
    }
    r
}

/// The backends of `kinds` that a forced backend name leaves: those it
/// names, in order; all of them when none is forced.
pub open spec fn forced_kinds(kinds: Seq<BackendKind>, forced: Option<Seq<char>>) -> Seq<BackendKind>
    decreases kinds.len(),
{
    if kinds.len() == 0 {
        seq![]
    } else {
        let r = forced_kinds(kinds.drop_last(), forced);
        match forced {
            Some(f) => if backend_name(kinds.last()) == f {
                r.push(kinds.last())
            } else {
                r
            },
            None => r.push(kinds.last()),
        }
    }
}

/// Applies `--backend`: with a forced backend name only the backends of
/// that name are kept, in order.
pub fn force_backend(kinds: &Vec<BackendKind>, forced: Option<&str>) -> (r: Vec<BackendKind>)
    ensures
        r@ == forced_kinds(kinds@, match forced {
            Some(f) => Some(f@),
            None => None,
        }),
{
    let ghost fv = match forced {
        Some(f) => Some(f@),
        None => None,
    };
    let mut r: Vec<BackendKind> = Vec::new();
    let mut i: usize = 0;
    while i < kinds.len()
        invariant
            i <= kinds@.len(),
            fv == (match forced {
                Some(f) => Some(f@),
                None => None,
            }),
            r@ == forced_kinds(kinds@.take(i as int), fv),
        decreases kinds.len() - i,
    {
        assert(kinds@.take(i + 1).drop_last() =~= kinds@.take(i as int));
        assert(kinds@.take(i + 1).last() == kinds@[i as int]);
        let keep = match forced {
            Some(f) => kinds[i].to_string() == f.to_owned(),
            None => true,
        };
        if keep {
            r.push(kinds[i]);
        }
        i = i + 1;
    }
    assert(kinds@.take(kinds@.len() as int) =~= kinds@);
    r
}

} // verus!
