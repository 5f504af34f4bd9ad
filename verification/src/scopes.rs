//! The settings files of the scopes the agent reads, and what they add up to.
use vstd::prelude::*;
use crate::claude_settings::{
    async_entry, command_is_our_hook, entry_is_async, entry_is_our_hook, group_entries, names,
    our_entry, HOOK_BIN,
};
use crate::json::{
    find_member, items, key_order, lists_keys, members, opt_tree, sorted_keys, tree_get,
    tree_get_str, tree_items, tree_str, Json, Tree,
};
use crate::project::{joined_path, recorded_path};
use crate::text::{
    cat3, list_contains, opt_str_view, opt_view, owned, owned_opt, same, strip_prefix, trim,
    trimmed, views, without_prefix,
};

verus! {

broadcast use vstd::map::group_map_axioms;

/// Where the settings files lie: the home directory, the root of the working tree, the directory
/// that the agent keeps its settings in under either, and the organisation's own file.
pub struct Places {
    pub home: Option<String>,
    pub base: String,
    pub agent_dir: Option<String>,
    pub managed: Option<String>,
}

/// A settings file under a directory.
pub open spec fn file_under(dir: Seq<char>, agent_dir: Option<Seq<char>>, file: Seq<char>) -> Option<
    Seq<char>,
> {
    match agent_dir {
        Some(a) => Some(joined_path(joined_path(dir, a), file)),
        None => None,
    }
}

/// The file behind a scope: the user's is global, the project's and the local one are anchored at
/// the root of the working tree, and the managed one is the organisation's.
pub open spec fn place_of(name: Seq<char>, p: Places) -> Option<Seq<char>> {
    if name == "user"@ {
        match opt_view(p.home) {
            Some(home) => file_under(home, opt_view(p.agent_dir), "settings.json"@),
            None => None,
        }
    } else if name == "project"@ {
        file_under(p.base@, opt_view(p.agent_dir), "settings.json"@)
    } else if name == "local"@ {
        file_under(p.base@, opt_view(p.agent_dir), "settings.local.json"@)
    } else if name == "managed"@ {
        opt_view(p.managed)
    } else {
        None
    }
}

fn settings_under(dir: &str, agent_dir: &Option<String>, file: &str) -> (r: Option<String>)
    ensures
        opt_view(r) == file_under(dir@, opt_view(*agent_dir), file@),
{
    match agent_dir {
        Some(a) => Some(recorded_path(&recorded_path(dir, a), file)),
        None => None,
    }
}

/// The path of the file behind a scope, where it can be told.
pub fn scope_path(name: &str, p: &Places) -> (r: Option<String>)
    ensures
        opt_view(r) == place_of(name@, *p),
{
    if same(name, "user") {
        match &p.home {
            Some(home) => settings_under(home, &p.agent_dir, "settings.json"),
            None => None,
        }
    } else if same(name, "project") {
        settings_under(&p.base, &p.agent_dir, "settings.json")
    } else if same(name, "local") {
        settings_under(&p.base, &p.agent_dir, "settings.local.json")
    } else if same(name, "managed") {
        owned_opt(&p.managed)
    } else {
        None
    }
}

/// The load state of a settings file. A broken file is never mistaken for an absent one.
pub enum Load {
    Absent,
    Unreadable(String),
    Malformed(String),
    Found(Json),
}

impl Load {
    /// The tree of a file that was found.
    pub open spec fn tree(self) -> Option<Tree> {
        match self {
            Load::Found(v) => Some(v.view()),
            _ => None,
        }
    }

    /// The parsed value, where there is one.
    pub fn value(&self) -> (r: Option<&Json>)
        ensures
            opt_tree(r) == self.tree(),
    {
        match self {
            Load::Found(v) => Some(v),
            _ => None,
        }
    }

    /// The state in words.
    pub open spec fn label_text(self) -> Seq<char> {
        match self {
            Load::Absent => "absent"@,
            Load::Unreadable(e) => "unreadable ("@ + e@ + ")"@,
            Load::Malformed(e) => "malformed ("@ + e@ + ")"@,
            Load::Found(_) => "found"@,
        }
    }

    /// Describe the load state.
    pub fn label(&self) -> (r: String)
        ensures
            r@ == self.label_text(),
    {
        match self {
            Load::Absent => owned("absent"),
            Load::Unreadable(e) => cat3("unreadable (", e, ")"),
            Load::Malformed(e) => cat3("malformed (", e, ")"),
            Load::Found(_) => owned("found"),
        }
    }
}

/// Decide the load state of a file from its text.
pub fn load_text(text: &str) -> (r: Load)
    ensures
        match crate::json::parsed(text@) {
            Ok(t) => r.tree() == Some(t),
            Err(e) => r matches Load::Malformed(m) && m@ == e,
        },
{
    match crate::json::parse(text) {
        Ok(v) => Load::Found(v),
        Err(e) => Load::Malformed(e),
    }
}

/// One scope's settings file.
pub struct ScopeFile {
    pub name: &'static str,
    pub path: String,
    pub load: Load,
}

/// What a scope contributes: its name and its tree.
pub struct ScopeModel {
    pub name: Seq<char>,
    pub tree: Option<Tree>,
}

impl ScopeFile {
    pub open spec fn model(self) -> ScopeModel {
        ScopeModel { name: self.name@, tree: self.load.tree() }
    }
}

/// The models of a list of scopes.
pub open spec fn models(files: Seq<ScopeFile>) -> Seq<ScopeModel> {
    Seq::new(files.len(), |i: int| files[i].model())
}

/// A member of a scope's tree.
pub open spec fn scope_get(f: ScopeModel, key: Seq<char>) -> Option<Tree> {
    match f.tree {
        Some(t) => tree_get(t, key),
        None => None,
    }
}

fn scope_member<'a>(f: &'a ScopeFile, key: &str) -> (r: Option<&'a Json>)
    ensures
        opt_tree(r) == scope_get(f.model(), key@),
{
    match f.load.value() {
        Some(v) => v.get(key),
        None => None,
    }
}

// ---------------------------------------------------------------------------------------------
// The effective environment
// ---------------------------------------------------------------------------------------------

/// The string that a scope's `env` block gives `key`.
pub open spec fn scope_env(f: ScopeModel, key: Seq<char>) -> Option<Seq<char>> {
    match scope_get(f, "env"@) {
        Some(env) => tree_get_str(env, key),
        None => None,
    }
}

/// The value of `key` and the scope that sets it: the last scope that gives it a string wins.
pub open spec fn effective(files: Seq<ScopeModel>, key: Seq<char>) -> Option<(Seq<char>, Seq<char>)>
    decreases files.len(),
{
    if files.len() == 0 {
        None
    } else {
        match scope_env(files.last(), key) {
            Some(v) => Some((v, files.last().name)),
            None => effective(files.drop_last(), key),
        }
    }
}

/// The merged environment of a list of scopes.
pub struct Env {
    files: Vec<EnvLine>,
}

struct EnvLine {
    key: String,
    value: String,
    scope: &'static str,
}

spec fn line_lookup(lines: Seq<EnvLine>, key: Seq<char>) -> Option<(Seq<char>, Seq<char>)>
    decreases lines.len(),
{
    if lines.len() == 0 {
        None
    } else if lines.last().key@ == key {
        Some((lines.last().value@, lines.last().scope@))
    } else {
        line_lookup(lines.drop_last(), key)
    }
}

impl Env {
    /// The value of `key` and the scope that set it.
    pub closed spec fn lookup(&self, key: Seq<char>) -> Option<(Seq<char>, Seq<char>)> {
        line_lookup(self.files@, key)
    }

    /// Look a variable up: its value and the scope that set it.
    pub fn get(&self, key: &str) -> (r: Option<(&str, &'static str)>)
        ensures
            match r {
                Some(p) => self.lookup(key@) == Some((p.0@, p.1@)),
                None => self.lookup(key@) is None,
            },
    {
        let mut i: usize = self.files.len();
        assert(self.files@.take(i as int) =~= self.files@);
        while i > 0
            invariant
                0 <= i <= self.files.len(),
                line_lookup(self.files@, key@) == line_lookup(self.files@.take(i as int), key@),
            decreases i,
        {
            assert(self.files@.take(i as int).drop_last() =~= self.files@.take(i - 1));
            if same(&self.files[i - 1].key, key) {
                return Some((self.files[i - 1].value.as_str(), self.files[i - 1].scope));
            }
            i = i - 1;
        }
        None
    }

    /// The value of `key`.
    pub fn value(&self, key: &str) -> (r: Option<&str>)
        ensures
            opt_str_view(r) == match self.lookup(key@) {
                Some(p) => Some(p.0),
                None => None,
            },
    {
        match self.get(key) {
            Some((v, _)) => Some(v),
            None => None,
        }
    }
}

/// Merge each scope's `env` block in the order of the scopes; a later scope overrides.
pub fn effective_env(files: &Vec<ScopeFile>) -> (env: Env)
    ensures
        forall|key: Seq<char>| #[trigger] env.lookup(key) == effective(models(files@), key),
{
    let mut lines: Vec<EnvLine> = Vec::new();
    let mut i: usize = 0;
    while i < files.len()
        invariant
            0 <= i <= files.len(),
            forall|key: Seq<char>| #[trigger]
                line_lookup(lines@, key) == effective(models(files@).take(i as int), key),
        decreases files.len() - i,
    {
        let ghost base = lines@;
        proof {
            assert(models(files@).take(i + 1).drop_last() =~= models(files@).take(i as int));
            assert(models(files@).take(i + 1).last() == files@[i as int].model());
        }
        if let Some(Json::Object(obj)) = scope_member(&files[i], "env") {
            let keys = sorted_keys(obj);
            let mut j: usize = 0;
            proof {
                assert(scope_get(files@[i as int].model(), "env"@) == Some(
                    Tree::Obj(members(obj@)),
                ));
            }
            while j < keys.len()
                invariant
                    0 <= j <= keys.len(),
                    lists_keys(views(keys@), members(obj@)),
                    forall|key: Seq<char>| #[trigger]
                        line_lookup(lines@, key) == if views(keys@).take(j as int).contains(key)
                            && tree_str(members(obj@)[key]) is Some {
                            Some((tree_str(members(obj@)[key])->0, files@[i as int].name@))
                        } else {
                            line_lookup(base, key)
                        },
                    i < files.len(),
                decreases keys.len() - j,
            {
                let at = find_member(obj, &keys[j]);
                let ghost held = lines@;
                proof {
                    assert(views(keys@)[j as int] == keys@[j as int]@);
                    assert(views(keys@).contains(keys@[j as int]@));
                    assert(views(keys@).take(j + 1) =~= views(keys@).take(j as int).push(
                        keys@[j as int]@,
                    ));
                }
                if let Some(s) = obj[at].1.as_str() {
                    lines.push(
                        EnvLine { key: owned(&keys[j]), value: owned(s), scope: files[i].name },
                    );
                    assert(lines@.drop_last() =~= held);
                }
                proof {
                    assert forall|key: Seq<char>| #[trigger]
                        line_lookup(lines@, key) == if views(keys@).take(j + 1).contains(key)
                            && tree_str(members(obj@)[key]) is Some {
                            Some((tree_str(members(obj@)[key])->0, files@[i as int].name@))
                        } else {
                            line_lookup(base, key)
                        } by {
                        lemma_push_contains(
                            views(keys@).take(j as int),
                            keys@[j as int]@,
                            key,
                        );
                        assert(line_lookup(held, key) == if views(keys@).take(j as int).contains(
                            key,
                        ) && tree_str(members(obj@)[key]) is Some {
                            Some((tree_str(members(obj@)[key])->0, files@[i as int].name@))
                        } else {
                            line_lookup(base, key)
                        });
                    }
                }
                j = j + 1;
            }
            proof {
                assert(views(keys@).take(keys.len() as int) =~= views(keys@));
                assert forall|key: Seq<char>| #[trigger]
                    line_lookup(lines@, key) == effective(models(files@).take(i + 1), key) by {
                    assert(views(keys@).contains(key) <==> members(obj@).contains_key(key));
                    assert(line_lookup(base, key) == effective(
                        models(files@).take(i as int),
                        key,
                    ));
                }
            }
        } else {
            proof {
                assert forall|key: Seq<char>| #[trigger]
                    line_lookup(lines@, key) == effective(models(files@).take(i + 1), key) by {
                    assert(scope_env(files@[i as int].model(), key) is None);
                    assert(line_lookup(base, key) == effective(
                        models(files@).take(i as int),
                        key,
                    ));
                }
            }
        }
        i = i + 1;
    }
    assert(models(files@).take(files.len() as int) =~= models(files@));
    Env { files: lines }
}

/// Which elements a list holds once one is pushed.
pub proof fn lemma_push_contains(s: Seq<Seq<char>>, x: Seq<char>, y: Seq<char>)
    ensures
        s.push(x).contains(y) <==> s.contains(y) || x == y,
{
    let n = s.push(x);
    if s.contains(y) {
        let k = choose|k: int| 0 <= k < s.len() && s[k] == y;
        assert(n[k] == y);
    }
    if x == y {
        assert(n[s.len() as int] == y);
    }
}

// ---------------------------------------------------------------------------------------------
// How events are wired
// ---------------------------------------------------------------------------------------------

/// Managed policy blocks every hook that is not managed: the first managed scope says so.
pub open spec fn managed_only(files: Seq<ScopeModel>) -> bool
    decreases files.len(),
{
    if files.len() == 0 {
        false
    } else if files[0].name == "managed"@ {
        scope_get(files[0], "allowManagedHooksOnly"@) == Some(Tree::Bool(true))
    } else {
        managed_only(files.skip(1))
    }
}

/// Whether only managed hooks run.
pub fn managed_hooks_only(files: &Vec<ScopeFile>) -> (r: bool)
    ensures
        r == managed_only(models(files@)),
{
    let mut i: usize = 0;
    assert(models(files@).skip(0) =~= models(files@));
    while i < files.len()
        invariant
            0 <= i <= files.len(),
            managed_only(models(files@)) == managed_only(models(files@).skip(i as int)),
        decreases files.len() - i,
    {
        assert(models(files@).skip(i as int).skip(1) =~= models(files@).skip(i + 1));
        if same(files[i].name, "managed") {
            return match scope_member(&files[i], "allowManagedHooksOnly") {
                Some(Json::Bool(b)) => *b,
                _ => false,
            };
        }
        i = i + 1;
    }
    false
}

/// A scope whose hooks the agent runs.
pub open spec fn honored(files: Seq<ScopeModel>, i: int) -> bool {
    !managed_only(files) || files[i].name == "managed"@
}

/// The matcher groups a scope configures for an event.
pub open spec fn event_groups(f: ScopeModel, event: Seq<char>) -> Seq<Tree> {
    match scope_get(f, "hooks"@) {
        Some(hooks) => match tree_get(hooks, event) {
            Some(groups) => tree_items(groups),
            None => Seq::empty(),
        },
        None => Seq::empty(),
    }
}

/// Entry `j` of group `g` of an event in scope `i` is an honored entry of ours.
pub open spec fn ours_at(files: Seq<ScopeModel>, event: Seq<char>, i: int, g: int, j: int) -> bool {
    &&& 0 <= i < files.len()
    &&& honored(files, i)
    &&& 0 <= g < event_groups(files[i], event).len()
    &&& 0 <= j < group_entries(event_groups(files[i], event)[g]).len()
    &&& our_entry(group_entries(event_groups(files[i], event)[g])[j])
}

/// The same entry makes the session wait.
pub open spec fn blocks_at(files: Seq<ScopeModel>, event: Seq<char>, i: int, g: int, j: int) -> bool {
    ours_at(files, event, i, g, j) && !async_entry(
        group_entries(event_groups(files[i], event)[g])[j],
    )
}

/// How one lifecycle event is wired, across the scopes the agent honors.
#[derive(Debug, Clone, Copy, PartialEq, Eq, Structural)]
pub enum Wiring {
    /// No entry of ours: the event is not captured.
    Missing,
    /// Ours, but at least one entry makes the session wait.
    Blocking,
    /// Every entry of ours runs without the session waiting for it.
    Concurrent,
}

/// How an event is wired.
pub open spec fn wiring_of(files: Seq<ScopeModel>, event: Seq<char>) -> Wiring {
    if exists|i: int, g: int, j: int| blocks_at(files, event, i, g, j) {
        Wiring::Blocking
    } else if exists|i: int, g: int, j: int| ours_at(files, event, i, g, j) {
        Wiring::Concurrent
    } else {
        Wiring::Missing
    }
}

/// Whether a group holds an entry of ours, and whether one of them makes the session wait.
fn group_wiring(group: &Json) -> (r: (bool, bool))
    ensures
        r.0 == exists|j: int|
            0 <= j < group_entries(group.view()).len() && our_entry(
                #[trigger] group_entries(group.view())[j],
            ),
        r.1 == exists|j: int|
            0 <= j < group_entries(group.view()).len() && our_entry(
                #[trigger] group_entries(group.view())[j],
            ) && !async_entry(group_entries(group.view())[j]),
{
    let mut wired: bool = false;
    let mut blocking: bool = false;
    if let Some(Json::Array(entries)) = group.get("hooks") {
        let ghost all = group_entries(group.view());
        let mut j: usize = 0;
        while j < entries.len()
            invariant
                0 <= j <= entries.len(),
                all == items(entries@),
                wired == exists|k: int| 0 <= k < j && our_entry(#[trigger] all[k]),
                blocking == exists|k: int|
                    0 <= k < j && our_entry(#[trigger] all[k]) && !async_entry(all[k]),
            decreases entries.len() - j,
        {
            assert(all[j as int] == entries@[j as int].view());
            if entry_is_our_hook(&entries[j]) {
                wired = true;
                if !entry_is_async(&entries[j]) {
                    blocking = true;
                }
            }
            j = j + 1;
        }
    }
    (wired, blocking)
}

/// A scope holds an entry of ours for an event.
pub open spec fn scope_ours(f: ScopeModel, event: Seq<char>, waits: bool) -> bool {
    exists|g: int, j: int| scope_ours_at(f, event, waits, g, j)
}

pub open spec fn scope_ours_at(f: ScopeModel, event: Seq<char>, waits: bool, g: int, j: int) -> bool {
    &&& 0 <= g < event_groups(f, event).len()
    &&& 0 <= j < group_entries(event_groups(f, event)[g]).len()
    &&& our_entry(group_entries(event_groups(f, event)[g])[j])
    &&& waits ==> !async_entry(group_entries(event_groups(f, event)[g])[j])
}

fn scope_wiring(f: &ScopeFile, event: &str) -> (r: (bool, bool))
    ensures
        r.0 == scope_ours(f.model(), event@, false),
        r.1 == scope_ours(f.model(), event@, true),
{
    let mut wired: bool = false;
    let mut blocking: bool = false;
    let ghost m = f.model();
    if let Some(hooks) = scope_member(f, "hooks") {
        if let Some(Json::Array(groups)) = hooks.get(event) {
            let mut i: usize = 0;
            while i < groups.len()
                invariant
                    0 <= i <= groups.len(),
                    event_groups(m, event@) == items(groups@),
                    wired == exists|g: int, j: int| g < i && scope_ours_at(m, event@, false, g, j),
                    blocking == exists|g: int, j: int|
                        g < i && scope_ours_at(m, event@, true, g, j),
                decreases groups.len() - i,
            {
                let (w, b) = group_wiring(&groups[i]);
                proof {
                    let group = event_groups(m, event@)[i as int];
                    assert(group == groups@[i as int].view());
                    if w {
                        let j = choose|j: int|
                            0 <= j < group_entries(group).len() && our_entry(
                                #[trigger] group_entries(group)[j],
                            );
                        assert(scope_ours_at(m, event@, false, i as int, j));
                    }
                    if b {
                        let j = choose|j: int|
                            0 <= j < group_entries(group).len() && our_entry(
                                #[trigger] group_entries(group)[j],
                            ) && !async_entry(group_entries(group)[j]);
                        assert(scope_ours_at(m, event@, true, i as int, j));
                    }
                }
                wired = wired || w;
                blocking = blocking || b;
                i = i + 1;
            }
        }
    }
    (wired, blocking)
}

fn wiring_for(files: &Vec<ScopeFile>, only_managed: bool, event: &str) -> (r: Wiring)
    requires
        only_managed == managed_only(models(files@)),
    ensures
        r == wiring_of(models(files@), event@),
{
    let ghost ms = models(files@);
    let mut wired: bool = false;
    let mut blocking: bool = false;
    let mut i: usize = 0;
    while i < files.len()
        invariant
            0 <= i <= files.len(),
            ms == models(files@),
            only_managed == managed_only(ms),
            wired == exists|n: int, g: int, j: int| n < i && ours_at(ms, event@, n, g, j),
            blocking == exists|n: int, g: int, j: int| n < i && blocks_at(ms, event@, n, g, j),
        decreases files.len() - i,
    {
        if !only_managed || same(files[i].name, "managed") {
            let (w, b) = scope_wiring(&files[i], event);
            proof {
                assert(ms[i as int] == files@[i as int].model());
                if w {
                    let (g, j) = choose|g: int, j: int|
                        scope_ours_at(ms[i as int], event@, false, g, j);
                    assert(ours_at(ms, event@, i as int, g, j));
                } else {
                    assert forall|g: int, j: int| !ours_at(ms, event@, i as int, g, j) by {
                        assert(!scope_ours_at(ms[i as int], event@, false, g, j));
                    }
                }
                if b {
                    let (g, j) = choose|g: int, j: int|
                        scope_ours_at(ms[i as int], event@, true, g, j);
                    assert(blocks_at(ms, event@, i as int, g, j));
                } else {
                    assert forall|g: int, j: int| !blocks_at(ms, event@, i as int, g, j) by {
                        assert(!scope_ours_at(ms[i as int], event@, true, g, j));
                    }
                }
            }
            wired = wired || w;
            blocking = blocking || b;
        } else {
            assert forall|g: int, j: int| !ours_at(ms, event@, i as int, g, j) by {
                assert(!honored(ms, i as int));
            }
        }
        i = i + 1;
    }
    proof {
        if blocking {
            let (n, g, j) = choose|n: int, g: int, j: int|
                n < i && blocks_at(ms, event@, n, g, j);
            assert(ours_at(ms, event@, n, g, j));
        }
    }
    if blocking {
        Wiring::Blocking
    } else if wired {
        Wiring::Concurrent
    } else {
        Wiring::Missing
    }
}

/// How each of `events` is wired, counting only the scopes whose hooks the agent honors. An
/// event is blocking as soon as one honored entry of ours makes the session wait.
pub fn event_wiring(files: &Vec<ScopeFile>, events: &[&'static str]) -> (r: Vec<
    (&'static str, Wiring),
>)
    ensures
        r@.len() == events@.len(),
        forall|i: int|
            0 <= i < events@.len() ==> (#[trigger] r@[i]).0@ == events@[i]@ && r@[i].1 == wiring_of(
                models(files@),
                events@[i]@,
            ),
{
    let only_managed = managed_hooks_only(files);
    let mut out: Vec<(&'static str, Wiring)> = Vec::new();
    let mut i: usize = 0;
    while i < events.len()
        invariant
            0 <= i <= events.len(),
            only_managed == managed_only(models(files@)),
            out@.len() == i,
            forall|k: int|
                0 <= k < i ==> (#[trigger] out@[k]).0@ == events@[k]@ && out@[k].1 == wiring_of(
                    models(files@),
                    events@[k]@,
                ),
        decreases events.len() - i,
    {
        out.push((events[i], wiring_for(files, only_managed, events[i])));
        i = i + 1;
    }
    out
}

/// The captured events of a wiring list, up to a position.
pub open spec fn captured(wiring: Seq<(&'static str, Wiring)>) -> Seq<Seq<char>>
    decreases wiring.len(),
{
    if wiring.len() == 0 {
        Seq::empty()
    } else if wiring.last().1 != Wiring::Missing {
        captured(wiring.drop_last()).push(wiring.last().0@)
    } else {
        captured(wiring.drop_last())
    }
}

/// The events that are captured at all, whatever that costs.
pub fn covered(wiring: &[(&'static str, Wiring)]) -> (r: Vec<&'static str>)
    ensures
        names(r@) == captured(wiring@),
{
    let mut out: Vec<&'static str> = Vec::new();
    let mut i: usize = 0;
    assert(names(out@) =~= captured(wiring@.take(0)));
    while i < wiring.len()
        invariant
            0 <= i <= wiring.len(),
            names(out@) == captured(wiring@.take(i as int)),
        decreases wiring.len() - i,
    {
        let ghost held = out@;
        assert(wiring@.take(i + 1).drop_last() =~= wiring@.take(i as int));
        if wiring[i].1 != Wiring::Missing {
            out.push(wiring[i].0);
            assert(names(out@) =~= names(held).push(wiring@[i as int].0@));
        }
        i = i + 1;
    }
    assert(wiring@.take(wiring.len() as int) =~= wiring@);
    out
}

/// A scope's `hooks` object wires our hook for some event.
pub open spec fn scope_wires(f: ScopeModel) -> bool {
    scope_get(f, "hooks"@) matches Some(Tree::Obj(hooks)) && exists|ev: Seq<char>|
        #[trigger] hooks.contains_key(ev) && scope_ours(f, ev, false)
}

fn scope_wires_hook(f: &ScopeFile) -> (r: bool)
    ensures
        r == scope_wires(f.model()),
{
    if let Some(Json::Object(hooks)) = scope_member(f, "hooks") {
        let keys = sorted_keys(hooks);
        let mut i: usize = 0;
        while i < keys.len()
            invariant
                0 <= i <= keys.len(),
                scope_get(f.model(), "hooks"@) == Some(Tree::Obj(members(hooks@))),
                lists_keys(views(keys@), members(hooks@)),
                forall|k: int|
                    0 <= k < i ==> !scope_ours(f.model(), #[trigger] views(keys@)[k], false),
            decreases keys.len() - i,
        {
            let (w, _) = scope_wiring(f, &keys[i]);
            assert(views(keys@)[i as int] == keys@[i as int]@);
            if w {
                assert(views(keys@).contains(keys@[i as int]@));
                assert(members(hooks@).contains_key(keys@[i as int]@));
                return true;
            }
            i = i + 1;
        }
        assert forall|ev: Seq<char>| #[trigger]
            members(hooks@).contains_key(ev) implies !scope_ours(f.model(), ev, false) by {
            assert(views(keys@).contains(ev));
            let k = choose|k: int| 0 <= k < views(keys@).len() && views(keys@)[k] == ev;
            assert(!scope_ours(f.model(), views(keys@)[k], false));
        }
    }
    false
}

/// Only managed hooks run, and another scope wires ours.
pub open spec fn hook_blocked(files: Seq<ScopeModel>) -> bool {
    managed_only(files) && exists|i: int|
        0 <= i < files.len() && (#[trigger] files[i]).name != "managed"@ && scope_wires(files[i])
}

/// Whether a scope that managed policy blocks wires our hook.
pub fn hook_wired_but_blocked(files: &Vec<ScopeFile>) -> (r: bool)
    ensures
        r == hook_blocked(models(files@)),
{
    if !managed_hooks_only(files) {
        return false;
    }
    let mut i: usize = 0;
    while i < files.len()
        invariant
            0 <= i <= files.len(),
            managed_only(models(files@)),
            forall|k: int|
                0 <= k < i ==> (#[trigger] models(files@)[k]).name == "managed"@ || !scope_wires(
                    models(files@)[k],
                ),
        decreases files.len() - i,
    {
        assert(models(files@)[i as int] == files@[i as int].model());
        if !same(files[i].name, "managed") && scope_wires_hook(&files[i]) {
            return true;
        }
        i = i + 1;
    }
    false
}

// ---------------------------------------------------------------------------------------------
// The commands our hook is wired with
// ---------------------------------------------------------------------------------------------

/// Our commands among a list of entries, in order.
pub open spec fn entry_commands(entries: Seq<Tree>) -> Seq<Seq<char>>
    decreases entries.len(),
{
    if entries.len() == 0 {
        Seq::empty()
    } else {
        let rest = entry_commands(entries.drop_last());
        if our_entry(entries.last()) {
            rest.push(tree_get_str(entries.last(), "command"@)->0)
        } else {
            rest
        }
    }
}

/// Our commands in a list of groups, in order.
pub open spec fn group_commands(groups: Seq<Tree>) -> Seq<Seq<char>>
    decreases groups.len(),
{
    if groups.len() == 0 {
        Seq::empty()
    } else {
        group_commands(groups.drop_last()) + entry_commands(group_entries(groups.last()))
    }
}

/// Our commands under the given events of a `hooks` object, in order.
pub open spec fn event_commands(hooks: Map<Seq<char>, Tree>, events: Seq<Seq<char>>) -> Seq<
    Seq<char>,
>
    decreases events.len(),
{
    if events.len() == 0 {
        Seq::empty()
    } else {
        event_commands(hooks, events.drop_last()) + group_commands(tree_items(hooks[events.last()]))
    }
}

/// Our commands in one scope: event by event in key order.
pub open spec fn scope_commands(f: ScopeModel) -> Seq<Seq<char>> {
    match scope_get(f, "hooks"@) {
        Some(Tree::Obj(hooks)) => event_commands(hooks, key_order(hooks)),
        _ => Seq::empty(),
    }
}

/// Our commands in the first `n` scopes, where the agent honors them.
pub open spec fn honored_commands(files: Seq<ScopeModel>, n: int) -> Seq<Seq<char>>
    decreases n,
{
    if n <= 0 {
        Seq::empty()
    } else if honored(files, n - 1) {
        honored_commands(files, n - 1) + scope_commands(files[n - 1])
    } else {
        honored_commands(files, n - 1)
    }
}

/// A list with every later repetition left out.
pub open spec fn distinct(s: Seq<Seq<char>>) -> Seq<Seq<char>>
    decreases s.len(),
{
    if s.len() == 0 {
        Seq::empty()
    } else {
        let rest = distinct(s.drop_last());
        if rest.contains(s.last()) {
            rest
        } else {
            rest.push(s.last())
        }
    }
}

proof fn lemma_views_add(a: Seq<String>, b: Seq<String>)
    ensures
        views(a + b) == views(a) + views(b),
{
    assert(views(a + b) =~= views(a) + views(b));
}

proof fn lemma_views_push(a: Seq<String>, s: String)
    ensures
        views(a.push(s)) == views(a).push(s@),
{
    assert(views(a.push(s)) =~= views(a).push(s@));
}

fn commands_in_entries(entries: &Vec<Json>) -> (r: Vec<String>)
    ensures
        views(r@) == entry_commands(items(entries@)),
{
    let mut out: Vec<String> = Vec::new();
    let mut i: usize = 0;
    assert(views(out@) =~= entry_commands(items(entries@).take(0)));
    while i < entries.len()
        invariant
            0 <= i <= entries.len(),
            views(out@) == entry_commands(items(entries@).take(i as int)),
        decreases entries.len() - i,
    {
        proof {
            assert(items(entries@).take(i + 1).drop_last() =~= items(entries@).take(i as int));
            assert(items(entries@).take(i + 1).last() == entries@[i as int].view());
        }
        if let Some(c) = entries[i].get_str("command") {
            if command_is_our_hook(c) {
                let ghost held = out@;
                let command = owned(c);
                out.push(command);
                proof {
                    lemma_views_push(held, command);
                }
            }
        }
        i = i + 1;
    }
    assert(items(entries@).take(entries.len() as int) =~= items(entries@));
    out
}

fn commands_in_groups(groups: &Vec<Json>) -> (r: Vec<String>)
    ensures
        views(r@) == group_commands(items(groups@)),
{
    let mut out: Vec<String> = Vec::new();
    let mut i: usize = 0;
    assert(views(out@) =~= group_commands(items(groups@).take(0)));
    while i < groups.len()
        invariant
            0 <= i <= groups.len(),
            views(out@) == group_commands(items(groups@).take(i as int)),
        decreases groups.len() - i,
    {
        proof {
            assert(items(groups@).take(i + 1).drop_last() =~= items(groups@).take(i as int));
            assert(items(groups@).take(i + 1).last() == groups@[i as int].view());
        }
        let mut more: Vec<String> = match groups[i].get("hooks") {
            Some(Json::Array(entries)) => commands_in_entries(entries),
            _ => Vec::new(),
        };
        proof {
            assert(views(more@) =~= entry_commands(group_entries(groups@[i as int].view())));
            lemma_views_add(out@, more@);
        }
        out.append(&mut more);
        i = i + 1;
    }
    assert(items(groups@).take(groups.len() as int) =~= items(groups@));
    out
}

fn commands_in_scope(f: &ScopeFile) -> (r: Vec<String>)
    ensures
        views(r@) == scope_commands(f.model()),
{
    let mut out: Vec<String> = Vec::new();
    if let Some(Json::Object(hooks)) = scope_member(f, "hooks") {
        let keys = sorted_keys(hooks);
        let ghost m = members(hooks@);
        let mut i: usize = 0;
        assert(views(out@) =~= event_commands(m, views(keys@).take(0)));
        while i < keys.len()
            invariant
                0 <= i <= keys.len(),
                m == members(hooks@),
                lists_keys(views(keys@), m),
                views(out@) == event_commands(m, views(keys@).take(i as int)),
            decreases keys.len() - i,
        {
            proof {
                assert(views(keys@).take(i + 1).drop_last() =~= views(keys@).take(i as int));
                assert(views(keys@)[i as int] == keys@[i as int]@);
                assert(views(keys@).contains(keys@[i as int]@));
            }
            let at = find_member(hooks, &keys[i]);
            let mut more: Vec<String> = match &hooks[at].1 {
                Json::Array(groups) => commands_in_groups(groups),
                _ => Vec::new(),
            };
            proof {
                assert(views(more@) =~= group_commands(tree_items(m[keys@[i as int]@])));
                lemma_views_add(out@, more@);
            }
            out.append(&mut more);
            i = i + 1;
        }
        assert(views(keys@).take(keys.len() as int) =~= views(keys@));
    }
    assert(views(out@) =~= scope_commands(f.model()));
    out
}

/// The list without later repetitions.
fn without_repeats(list: &Vec<String>) -> (r: Vec<String>)
    ensures
        views(r@) == distinct(views(list@)),
{
    let mut out: Vec<String> = Vec::new();
    let mut i: usize = 0;
    assert(views(out@) =~= distinct(views(list@).take(0)));
    while i < list.len()
        invariant
            0 <= i <= list.len(),
            views(out@) == distinct(views(list@).take(i as int)),
        decreases list.len() - i,
    {
        proof {
            assert(views(list@).take(i + 1).drop_last() =~= views(list@).take(i as int));
            assert(views(list@).take(i + 1).last() == list@[i as int]@);
        }
        if !list_contains(&out, &list[i]) {
            let ghost held = out@;
            let s = owned(&list[i]);
            out.push(s);
            proof {
                lemma_views_push(held, s);
            }
        }
        i = i + 1;
    }
    assert(views(list@).take(list.len() as int) =~= views(list@));
    out
}

/// The distinct commands our hook is wired with across the honored scopes, in the order in which
/// they are found.
pub fn wired_hook_commands(files: &Vec<ScopeFile>) -> (r: Vec<String>)
    ensures
        views(r@) == distinct(honored_commands(models(files@), files@.len() as int)),
{
    let only_managed = managed_hooks_only(files);
    let ghost ms = models(files@);
    let mut all: Vec<String> = Vec::new();
    let mut i: usize = 0;
    assert(views(all@) =~= honored_commands(ms, 0));
    while i < files.len()
        invariant
            0 <= i <= files.len(),
            ms == models(files@),
            only_managed == managed_only(ms),
            views(all@) == honored_commands(ms, i as int),
        decreases files.len() - i,
    {
        assert(ms[i as int] == files@[i as int].model());
        if !only_managed || same(files[i].name, "managed") {
            let mut more = commands_in_scope(&files[i]);
            proof {
                lemma_views_add(all@, more@);
            }
            all.append(&mut more);
        }
        i = i + 1;
    }
    without_repeats(&all)
}

// ---------------------------------------------------------------------------------------------
// Which build a wired hook is
// ---------------------------------------------------------------------------------------------

/// What a wired hook answers when asked which build it is.
#[derive(Debug)]
pub enum HookBuild {
    Version(String),
    /// It ran cleanly and named no version.
    Unreported,
    /// It gave no usable answer, for the reason given.
    Unverified(String),
}

/// How much of a hook's answer is read, in bytes.
pub const HOOK_ANSWER_BYTES: u64 = 256;

/// The version a clean answer names: what follows the binary's name, without the space around it.
pub open spec fn answered_version(answer: Seq<char>) -> Option<Seq<char>> {
    match without_prefix(trimmed(answer), HOOK_BIN@) {
        Some(rest) => if trimmed(rest).len() > 0 {
            Some(trimmed(rest))
        } else {
            None
        },
        None => None,
    }
}

/// What a hook's answer to `--version` says of its build: an answer that is too long or that ended
/// in a failure says nothing.
pub open spec fn judged(
    r: HookBuild,
    answer: Seq<char>,
    bytes: u64,
    failure: Option<String>,
) -> bool {
    if bytes > HOOK_ANSWER_BYTES {
        r matches HookBuild::Unverified(why) && why@ == "answered with more than 256 bytes"@
    } else if let Some(status) = failure {
        r matches HookBuild::Unverified(why) && why@ == status@
    } else {
        match answered_version(answer) {
            Some(v) => r matches HookBuild::Version(got) && got@ == v,
            None => r is Unreported,
        }
    }
}

/// Judge a hook's answer to `--version`: its standard output, how many bytes that is, and the
/// failure it exited with, if any. Size is judged first: a hook that writes more than is read
/// ends on the closed pipe.
pub fn hook_build(answer: &str, bytes: u64, failure: Option<String>) -> (r: HookBuild)
    ensures
        judged(r, answer@, bytes, failure),
{
    if bytes > HOOK_ANSWER_BYTES {
        return HookBuild::Unverified(owned("answered with more than 256 bytes"));
    }
    if let Some(status) = failure {
        return HookBuild::Unverified(status);
    }
    match strip_prefix(&trim(answer), HOOK_BIN) {
        Some(rest) => {
            let version = trim(&rest);
            if version.as_str().is_empty() {
                HookBuild::Unreported
            } else {
                HookBuild::Version(version)
            }
        },
        None => HookBuild::Unreported,
    }
}

/// How long a hook may take to name its build, in nanoseconds: five seconds.
pub const HOOK_DEADLINE_NANOS: u64 = 5_000_000_000;

/// How long to wait between two looks at a running hook, in milliseconds.
pub const HOOK_POLL_MILLIS: u64 = 10;

/// What came of the last step towards a hook's answer.
#[derive(Debug)]
pub enum HookEvent {
    /// It could not be started, or not be looked at, for the reason given.
    Failed(String),
    /// It runs still.
    Running,
    /// It has ended.
    Exited,
    /// It was killed.
    Killed,
    /// It has ended, and its output did not arrive in time.
    Silent,
    /// It has ended, and its output is here: the text, how many bytes that is, and the failure it
    /// ended in, if any.
    Answered(String, u64, Option<String>),
}

/// What to do next towards a hook's answer.
#[derive(Debug)]
pub enum HookAction {
    /// Wait a little and look again.
    Wait,
    /// The deadline has passed: kill it.
    Kill,
    /// Take its output, for which this many nanoseconds are left.
    Collect(u64),
    /// The question is settled.
    Settle(HookBuild),
}

/// The step that follows an event, `waited` nanoseconds after the hook was started. A running hook
/// is waited for until the deadline and killed then; its output is taken under the same deadline.
pub fn hook_step(event: HookEvent, waited: u64) -> (r: HookAction)
    ensures
        match event {
            HookEvent::Failed(e) => r matches HookAction::Settle(HookBuild::Unverified(why)) && why@
                == e@,
            HookEvent::Running => if waited < HOOK_DEADLINE_NANOS {
                r is Wait
            } else {
                r is Kill
            },
            HookEvent::Exited => r matches HookAction::Collect(left) && left == (if waited
                < HOOK_DEADLINE_NANOS {
                HOOK_DEADLINE_NANOS - waited
            } else {
                0
            }),
            HookEvent::Killed | HookEvent::Silent => r matches HookAction::Settle(
                HookBuild::Unverified(why),
            ) && why@ == "no answer within 5s"@,
            HookEvent::Answered(text, bytes, failure) => r matches HookAction::Settle(b) && judged(
                b,
                text@,
                bytes,
                failure,
            ),
        },
{
    match event {
        HookEvent::Failed(e) => HookAction::Settle(HookBuild::Unverified(e)),
        HookEvent::Running => {
            if waited < HOOK_DEADLINE_NANOS {
                HookAction::Wait
            } else {
                HookAction::Kill
            }
        },
        HookEvent::Exited => {
            if waited < HOOK_DEADLINE_NANOS {
                HookAction::Collect(HOOK_DEADLINE_NANOS - waited)
            } else {
                HookAction::Collect(0)
            }
        },
        HookEvent::Killed => HookAction::Settle(
            HookBuild::Unverified(owned("no answer within 5s")),
        ),
        HookEvent::Silent => HookAction::Settle(
            HookBuild::Unverified(owned("no answer within 5s")),
        ),
        HookEvent::Answered(text, bytes, failure) => HookAction::Settle(
            hook_build(&text, bytes, failure),
        ),
    }
}

/// A scope overrides every scope in front of it: the last one that sets a key decides, and the
/// answer names it.
pub proof fn law_a_later_scope_overrides(files: Seq<ScopeModel>, key: Seq<char>, i: int)
    requires
        0 <= i < files.len(),
        scope_env(files[i], key) is Some,
        forall|j: int| i < j < files.len() ==> scope_env(#[trigger] files[j], key) is None,
    ensures
        effective(files, key) == Some((scope_env(files[i], key)->0, files[i].name)),
    decreases files.len(),
{
    if i < files.len() - 1 {
        assert(scope_env(files[files.len() - 1], key) is None);
        law_a_later_scope_overrides(files.drop_last(), key, i);
    }
}

} // verus!
