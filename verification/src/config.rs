//! Runtime configuration, from the values of the environment and the configuration file.
use vstd::prelude::*;
use crate::decimal::{int_value, parse_i64, parse_u64, unsigned_value};
use crate::project::{joined_path, recorded_path};
use crate::sink::SinkKind;
use crate::text::{owned, owned_list, same, views};

verus! {

/// The default rotation threshold of a ledger, in bytes.
pub const DEFAULT_ROTATE_BYTES: u64 = 10_485_760;

/// The default retention in days.
pub const DEFAULT_RETENTION_DAYS: i64 = 90;

/// The largest retention in days, so that its seconds never overflow.
pub const MAX_RETENTION_DAYS: i64 = 100_000;

/// Where the list of plugins came from.
#[derive(Debug, Clone, Copy, PartialEq, Eq, Structural)]
pub enum PluginSource {
    Environment,
    ConfigFile,
}

/// The environment variables that configure the collector, as they are set.
pub struct EnvValues {
    pub sink: Option<String>,
    pub state_dir: Option<String>,
    /// The plugin list, split at the separator of the platform.
    pub plugins: Option<Vec<String>>,
    pub rotate_bytes: Option<String>,
    pub retention_days: Option<String>,
    pub disabled: Option<String>,
    pub strict: Option<String>,
    pub testing: Option<String>,
}

/// The configuration of a command.
#[derive(Debug)]
pub struct Config {
    pub sink: SinkKind,
    /// The root of the state that does not depend on the sink.
    pub state_dir: String,
    /// Where the ledgers are written.
    pub ledger_dir: String,
    /// Plugin schema files, in order.
    pub plugins: Vec<String>,
    pub plugin_source: PluginSource,
    pub rotate_bytes: u64,
    pub retention_days: i64,
    pub disabled: bool,
    pub strict: bool,
}

/// A flag is on where its variable is `1`.
pub open spec fn flag(v: Option<String>) -> bool {
    v matches Some(s) && s@ == "1"@
}

/// The state directory: the one that is set, unless that is empty; below it `_test` in tests.
pub open spec fn state_dir_of(set: Option<String>, default: Seq<char>, testing: bool) -> Seq<char> {
    let base = match set {
        Some(d) => if d@.len() == 0 {
            default
        } else {
            d@
        },
        None => default,
    };
    if testing {
        joined_path(base, "_test"@)
    } else {
        base
    }
}

/// The rotation threshold: a positive number, or else the default.
pub open spec fn rotate_of(set: Option<String>) -> u64 {
    match set {
        Some(s) => match unsigned_value(s@) {
            Some(n) => if 0 < n <= u64::MAX {
                n as u64
            } else {
                DEFAULT_ROTATE_BYTES
            },
            None => DEFAULT_ROTATE_BYTES,
        },
        None => DEFAULT_ROTATE_BYTES,
    }
}

/// The retention in days: a number within bounds, or else the default.
pub open spec fn retention_of(set: Option<String>) -> i64 {
    match set {
        Some(s) => match int_value(s@) {
            Some(n) => if 1 <= n <= MAX_RETENTION_DAYS {
                n as i64
            } else {
                DEFAULT_RETENTION_DAYS
            },
            None => DEFAULT_RETENTION_DAYS,
        },
        None => DEFAULT_RETENTION_DAYS,
    }
}

/// The backend: a known name, or else the default.
pub open spec fn sink_of(set: Option<String>) -> SinkKind {
    match set {
        Some(s) => match SinkKind::named(s@) {
            Some(k) => k,
            None => SinkKind::Jsonl,
        },
        None => SinkKind::Jsonl,
    }
}

/// The entries of a list that are not empty.
pub open spec fn nonempty(v: Seq<Seq<char>>) -> Seq<Seq<char>> {
    v.filter(|s: Seq<char>| s.len() > 0)
}

fn env_flag(v: &Option<String>) -> (r: bool)
    ensures
        r == flag(*v),
{
    match v {
        Some(s) => same(s, "1"),
        None => false,
    }
}

fn resolve_state_dir(set: &Option<String>, default: &str, testing: bool) -> (r: String)
    ensures
        r@ == state_dir_of(*set, default@, testing),
{
    let base = match set {
        Some(d) => if d.as_str().is_empty() {
            owned(default)
        } else {
            owned(d)
        },
        None => owned(default),
    };
    if testing {
        recorded_path(&base, "_test")
    } else {
        base
    }
}

fn keep_nonempty(v: &Vec<String>) -> (r: Vec<String>)
    ensures
        views(r@) == nonempty(views(v@)),
{
    let ghost all = views(v@);
    let ghost p = |s: Seq<char>| s.len() > 0;
    let mut out: Vec<String> = Vec::new();
    let mut i: usize = 0;
    proof {
        crate::seqs::lemma_filter_none(all, p);
        assert(views(out@) =~= Seq::<Seq<char>>::empty());
    }
    while i < v.len()
        invariant
            0 <= i <= v.len(),
            all == views(v@),
            p == (|s: Seq<char>| s.len() > 0),
            views(out@) == all.take(i as int).filter(p),
        decreases v.len() - i,
    {
        proof {
            crate::seqs::lemma_filter_take(all, i as int, p);
            assert(all[i as int] == v@[i as int]@);
        }
        if !v[i].as_str().is_empty() {
            let ghost held = out@;
            out.push(owned(&v[i]));
            assert(views(out@) =~= views(held).push(all[i as int]));
        }
        i = i + 1;
    }
    assert(all.take(v.len() as int) =~= all);
    out
}

impl Config {
    /// Take the configuration from the environment's values. `default_state_dir` is the platform's
    /// state directory, `file_plugins` the plugins of the configuration file, which count where
    /// the environment lists none.
    pub fn load(env: &EnvValues, default_state_dir: &str, file_plugins: &Vec<String>) -> (r: Config)
        ensures
            r.sink == sink_of(env.sink),
            r.state_dir@ == state_dir_of(env.state_dir, default_state_dir@, flag(env.testing)),
            r.ledger_dir@ == joined_path(r.state_dir@, "ledger"@),
            match env.plugins {
                Some(list) => views(r.plugins@) == nonempty(views(list@)) && r.plugin_source
                    == PluginSource::Environment,
                None => views(r.plugins@) == views(file_plugins@) && r.plugin_source
                    == PluginSource::ConfigFile,
            },
            r.rotate_bytes == rotate_of(env.rotate_bytes),
            r.retention_days == retention_of(env.retention_days),
            1 <= r.retention_days <= MAX_RETENTION_DAYS,
            r.disabled == flag(env.disabled),
            r.strict == flag(env.strict),
    {
        let state_dir = resolve_state_dir(&env.state_dir, default_state_dir, env_flag(&env.testing));
        let ledger_dir = recorded_path(&state_dir, "ledger");
        let sink = match &env.sink {
            Some(s) => match SinkKind::parse(s) {
                Some(k) => k,
                None => SinkKind::Jsonl,
            },
            None => SinkKind::Jsonl,
        };
        let (plugins, plugin_source) = match &env.plugins {
            Some(list) => (keep_nonempty(list), PluginSource::Environment),
            None => (owned_list(file_plugins), PluginSource::ConfigFile),
        };
        let rotate_bytes: u64 = match &env.rotate_bytes {
            Some(s) => match parse_u64(s) {
                Some(n) => if n > 0 {
                    n
                } else {
                    DEFAULT_ROTATE_BYTES
                },
                None => DEFAULT_ROTATE_BYTES,
            },
            None => DEFAULT_ROTATE_BYTES,
        };
        let retention_days: i64 = match &env.retention_days {
            Some(s) => match parse_i64(s) {
                Some(n) => if 1 <= n && n <= MAX_RETENTION_DAYS {
                    n
                } else {
                    DEFAULT_RETENTION_DAYS
                },
                None => DEFAULT_RETENTION_DAYS,
            },
            None => DEFAULT_RETENTION_DAYS,
        };
        Config {
            sink,
            state_dir,
            ledger_dir,
            plugins,
            plugin_source,
            rotate_bytes,
            retention_days,
            disabled: env_flag(&env.disabled),
            strict: env_flag(&env.strict),
        }
    }

    /// The oldest second that is kept, counted back from `now`.
    pub fn retain_since(&self, now: i64) -> (r: i64)
        requires
            0 <= self.retention_days <= MAX_RETENTION_DAYS,
            now >= i64::MIN + MAX_RETENTION_DAYS * 86_400,
        ensures
            r == now - self.retention_days * 86_400,
    {
        now - self.retention_days * 86_400
    }
}

} // verus!
