//! The wiring of the agent's `settings.json`: the telemetry `env` block and the lifecycle hooks.
//!
//! Diagnosis and merging share the same structural test for "our hook", so they can never
//! disagree about what is wired.
use vstd::prelude::*;
use crate::json::{
    compact, compact_text, dup, dup_members, find_member, items, members, opt_tree, remove_member,
    set_member, tree_get, tree_get_str, tree_items, tree_str, Json, Tree,
};
use crate::seqs::{lemma_filter_none, lemma_filter_take};
use crate::text::{
    after_last, before_first, cut_after_last, cut_before, last_halves, owned, rsplit_once, same,
    same_ignoring_case, same_letters, starts_with, strip_prefix, without_prefix,
};

verus! {

broadcast use vstd::map::group_map_axioms;

/// The hook binary spawned on every lifecycle event; also what identifies our hook inside a
/// settings file, whatever absolute path it is wired with.
pub const HOOK_BIN: &'static str = "hatel-hook";

/// The lifecycle events this collector can wire.
pub const EVENTS: [&'static str; 10] = [
    "SessionStart",
    "SessionEnd",
    "UserPromptExpansion",
    "PostToolUse",
    "PostToolUseFailure",
    "UserPromptSubmit",
    "SubagentStop",
    "InstructionsLoaded",
    "PreCompact",
    "PostCompact",
];

/// The receiver's default bind address, the endpoint that is wired.
pub const DEFAULT_ENDPOINT: &'static str = "http://127.0.0.1:4318";

/// The telemetry `env` block: key, value, and whether a different value stops telemetry
/// altogether.
pub const TELEMETRY_ENV: [(&'static str, &'static str, bool); 5] = [
    ("CLAUDE_CODE_ENABLE_TELEMETRY", "1", true),
    ("OTEL_METRICS_EXPORTER", "otlp", true),
    ("OTEL_LOGS_EXPORTER", "otlp", true),
    ("OTEL_EXPORTER_OTLP_PROTOCOL", "http/json", false),
    ("OTEL_EXPORTER_OTLP_ENDPOINT", DEFAULT_ENDPOINT, false),
];

/// The names of the lifecycle events, in order.
pub open spec fn vocabulary() -> Seq<Seq<char>> {
    names(EVENTS@)
}

/// The characters of a list of static names.
pub open spec fn names(v: Seq<&'static str>) -> Seq<Seq<char>> {
    Seq::new(v.len(), |i: int| v[i]@)
}

// ---------------------------------------------------------------------------------------------
// Endpoints
// ---------------------------------------------------------------------------------------------

/// The host part of an endpoint: what stands behind an `http://` scheme and in front of the path
/// and the port, a bracketed address without its brackets.
pub open spec fn endpoint_host(endpoint: Seq<char>) -> Seq<char> {
    let rest = match without_prefix(endpoint, "http://"@) {
        Some(r) => r,
        None => endpoint,
    };
    let authority = before_first(rest, '/');
    match without_prefix(authority, "["@) {
        Some(inner) => before_first(inner, ']'),
        None => match last_halves(authority, ':') {
            Some(p) => p.0,
            None => authority,
        },
    }
}

/// An endpoint names the local receiver: plain `http` on a loopback host.
pub open spec fn local_receiver(endpoint: Seq<char>) -> bool {
    let host = endpoint_host(endpoint);
    !"https://"@.is_prefix_of(endpoint) && (host == "127.0.0.1"@ || host == "localhost"@ || host
        == "::1"@)
}

/// Whether an OTLP endpoint points at a loopback receiver. The receiver speaks plain HTTP, so an
/// `https` endpoint is never it.
pub fn is_local_receiver(endpoint: &str) -> (r: bool)
    ensures
        r == local_receiver(endpoint@),
{
    if starts_with(endpoint, "https://") {
        return false;
    }
    let rest = match strip_prefix(endpoint, "http://") {
        Some(rest) => rest,
        None => owned(endpoint),
    };
    let authority = cut_before(&rest, '/');
    let host = match strip_prefix(&authority, "[") {
        Some(inner) => cut_before(&inner, ']'),
        None => match rsplit_once(&authority, ':') {
            Some((host, _)) => host,
            None => authority,
        },
    };
    same(&host, "127.0.0.1") || same(&host, "localhost") || same(&host, "::1")
}

// ---------------------------------------------------------------------------------------------
// Recognising our hook
// ---------------------------------------------------------------------------------------------

/// A command runs our hook when its last path component is the hook binary, with an optional
/// `.exe` in any case.
pub open spec fn our_command(command: Seq<char>) -> bool {
    let base = after_last(command, '/', '\\');
    match last_halves(base, '.') {
        Some(p) => if same_letters(p.1, "exe"@) {
            p.0 == HOOK_BIN@
        } else {
            base == HOOK_BIN@
        },
        None => base == HOOK_BIN@,
    }
}

/// Whether a hook `command` runs our hook binary: matched on the last path component, never on a
/// substring.
pub fn command_is_our_hook(command: &str) -> (r: bool)
    ensures
        r == our_command(command@),
{
    let base = cut_after_last(command, '/', '\\');
    match rsplit_once(&base, '.') {
        Some((stem, ext)) => if same_ignoring_case(&ext, "exe") {
            same(&stem, HOOK_BIN)
        } else {
            same(&base, HOOK_BIN)
        },
        None => same(&base, HOOK_BIN),
    }
}

/// An entry runs our hook.
pub open spec fn our_entry(e: Tree) -> bool {
    match tree_get_str(e, "command"@) {
        Some(c) => our_command(c),
        None => false,
    }
}

/// An entry runs without the session waiting for it.
pub open spec fn async_entry(e: Tree) -> bool {
    tree_get(e, "async"@) == Some(Tree::Bool(true))
}

/// An entry is exactly the wiring written for `command`.
pub open spec fn current_entry(e: Tree, command: Seq<char>) -> bool {
    tree_get_str(e, "command"@) == Some(command) && async_entry(e)
}

/// The entries of a matcher group.
pub open spec fn group_entries(g: Tree) -> Seq<Tree> {
    match tree_get(g, "hooks"@) {
        Some(t) => tree_items(t),
        None => Seq::empty(),
    }
}

/// A group holds the wiring written for `command`.
pub open spec fn current_group(g: Tree, command: Seq<char>) -> bool {
    exists|j: int|
        0 <= j < group_entries(g).len() && current_entry(#[trigger] group_entries(g)[j], command)
}

/// A group whose list of hooks is there and empty.
pub open spec fn inert_group(g: Tree) -> bool {
    tree_get(g, "hooks"@) == Some(Tree::Arr(Seq::empty()))
}

/// Whether an entry runs our hook.
pub fn entry_is_our_hook(entry: &Json) -> (r: bool)
    ensures
        r == our_entry(entry.view()),
{
    match entry.get_str("command") {
        Some(c) => command_is_our_hook(c),
        None => false,
    }
}

/// Whether an entry runs without the session waiting for it.
pub fn entry_is_async(entry: &Json) -> (r: bool)
    ensures
        r == async_entry(entry.view()),
{
    match entry.get("async") {
        Some(Json::Bool(b)) => *b,
        _ => false,
    }
}

fn entry_is_current(entry: &Json, command: &str) -> (r: bool)
    ensures
        r == current_entry(entry.view(), command@),
{
    match entry.get_str("command") {
        Some(c) => same(c, command) && entry_is_async(entry),
        None => false,
    }
}

/// The entries of a matcher group, where it has a list of them.
fn entries_of(group: &Json) -> (r: Option<&Vec<Json>>)
    ensures
        match r {
            Some(v) => tree_get(group.view(), "hooks"@) == Some(Tree::Arr(items(v@)))
                && group_entries(group.view()) == items(v@),
            None => group_entries(group.view()).len() == 0 && !(tree_get(group.view(), "hooks"@)
                matches Some(Tree::Arr(_))),
        },
{
    match group.get("hooks") {
        Some(Json::Array(v)) => Some(v),
        _ => None,
    }
}

/// Whether a group holds the current wiring.
pub fn group_is_current(group: &Json, command: &str) -> (r: bool)
    ensures
        r == current_group(group.view(), command@),
{
    match entries_of(group) {
        Some(v) => {
            let mut j: usize = 0;
            while j < v.len()
                invariant
                    0 <= j <= v.len(),
                    group_entries(group.view()) == items(v@),
                    forall|k: int|
                        0 <= k < j ==> !current_entry(
                            #[trigger] group_entries(group.view())[k],
                            command@,
                        ),
                decreases v.len() - j,
            {
                if entry_is_current(&v[j], command) {
                    assert(current_entry(group_entries(group.view())[j as int], command@));
                    return true;
                }
                j = j + 1;
            }
            false
        },
        None => false,
    }
}

fn group_hooks_is_empty(group: &Json) -> (r: bool)
    ensures
        r == inert_group(group.view()),
{
    match entries_of(group) {
        Some(v) => {
            if v.len() == 0 {
                assert(items(v@) =~= Seq::empty());
                true
            } else {
                assert(items(v@).len() > 0);
                false
            }
        },
        None => false,
    }
}

// ---------------------------------------------------------------------------------------------
// Stripping and pruning
// ---------------------------------------------------------------------------------------------

/// An entry of ours that is not to be kept.
pub open spec fn dropped_entry(e: Tree, keep: Option<Seq<char>>) -> bool {
    our_entry(e) && !(keep matches Some(c) && current_entry(e, c))
}

/// A group without the entries of ours that are not to be kept.
pub open spec fn stripped_group(g: Tree, keep: Option<Seq<char>>) -> Tree {
    match g {
        Tree::Obj(m) => match tree_get(g, "hooks"@) {
            Some(Tree::Arr(v)) => Tree::Obj(
                m.insert("hooks"@, Tree::Arr(v.filter(|e: Tree| !dropped_entry(e, keep)))),
            ),
            _ => g,
        },
        _ => g,
    }
}

/// Every group of an event without the entries of ours that are not to be kept.
pub open spec fn stripped(groups: Seq<Tree>, keep: Option<Seq<char>>) -> Seq<Tree> {
    Seq::new(groups.len(), |i: int| stripped_group(groups[i], keep))
}

/// Some group loses an entry.
pub open spec fn strips(groups: Seq<Tree>, keep: Option<Seq<char>>) -> bool {
    exists|i: int, j: int|
        0 <= i < groups.len() && 0 <= j < group_entries(groups[i]).len() && dropped_entry(
            #[trigger] group_entries(groups[i])[j],
            keep,
        )
}

/// The groups that still run something.
pub open spec fn pruned(groups: Seq<Tree>) -> Seq<Tree> {
    groups.filter(|g: Tree| !inert_group(g))
}

/// Strip one group; also tells whether an entry went.
fn strip_group(group: &Json, keep: Option<&str>) -> (r: (Json, bool))
    ensures
        r.0.view() == stripped_group(group.view(), crate::text::opt_str_view(keep)),
        r.1 == exists|j: int|
            0 <= j < group_entries(group.view()).len() && dropped_entry(
                #[trigger] group_entries(group.view())[j],
                crate::text::opt_str_view(keep),
            ),
{
    let ghost k = crate::text::opt_str_view(keep);
    let ghost p = |e: Tree| !dropped_entry(e, k);
    match group {
        Json::Object(m) => match entries_of(group) {
            Some(v) => {
                let mut kept: Vec<Json> = Vec::new();
                let mut removed: bool = false;
                let mut j: usize = 0;
                proof {
                    lemma_filter_none(items(v@), p);
                    assert(items(kept@) =~= Seq::<Tree>::empty());
                }
                while j < v.len()
                    invariant
                        0 <= j <= v.len(),
                        k == crate::text::opt_str_view(keep),
                        p == (|e: Tree| !dropped_entry(e, k)),
                        items(kept@) == items(v@).take(j as int).filter(p),
                        removed == exists|i: int|
                            0 <= i < j && dropped_entry(#[trigger] items(v@)[i], k),
                    decreases v.len() - j,
                {
                    let ours = entry_is_our_hook(&v[j]);
                    let stays = match keep {
                        Some(c) => entry_is_current(&v[j], c),
                        None => false,
                    };
                    proof {
                        lemma_filter_take(items(v@), j as int, p);
                        assert(items(v@)[j as int] == v@[j as int].view());
                    }
                    if ours && !stays {
                        assert(dropped_entry(items(v@)[j as int], k));
                        removed = true;
                    } else {
                        let ghost held = kept@;
                        kept.push(dup(&v[j]));
                        assert(items(kept@) =~= items(held).push(items(v@)[j as int]));
                    }
                    j = j + 1;
                }
                assert(items(v@).take(v.len() as int) =~= items(v@));
                let mut out = dup_members(m);
                set_member(&mut out, "hooks", Json::Array(kept));
                (Json::Object(out), removed)
            },
            None => (dup(group), false),
        },
        _ => (dup(group), false),
    }
}

/// Remove our hook entries from every group of one event, entry by entry, so that a user's
/// command in the same group survives. `keep` spares the entry that is already the wiring for
/// that command. Also tells whether anything was removed.
fn strip_our_entries(groups: &Vec<Json>, keep: Option<&str>) -> (r: (Vec<Json>, bool))
    ensures
        items(r.0@) == stripped(items(groups@), crate::text::opt_str_view(keep)),
        r.1 == strips(items(groups@), crate::text::opt_str_view(keep)),
{
    let ghost k = crate::text::opt_str_view(keep);
    let mut out: Vec<Json> = Vec::new();
    let mut removed: bool = false;
    let mut i: usize = 0;
    while i < groups.len()
        invariant
            0 <= i <= groups.len(),
            k == crate::text::opt_str_view(keep),
            out.len() == i,
            forall|n: int|
                0 <= n < i ==> (#[trigger] out@[n]).view() == stripped_group(
                    groups@[n].view(),
                    k,
                ),
            removed == exists|n: int, j: int|
                0 <= n < i && 0 <= j < group_entries(items(groups@)[n]).len() && dropped_entry(
                    #[trigger] group_entries(items(groups@)[n])[j],
                    k,
                ),
        decreases groups.len() - i,
    {
        let (group, gone) = strip_group(&groups[i], keep);
        assert(items(groups@)[i as int] == groups@[i as int].view());
        if gone {
            removed = true;
        }
        out.push(group);
        i = i + 1;
    }
    assert(items(out@) =~= stripped(items(groups@), k));
    (out, removed)
}

/// Drop the groups that run nothing any more.
fn prune_groups(groups: &Vec<Json>) -> (r: Vec<Json>)
    ensures
        items(r@) == pruned(items(groups@)),
{
    let ghost p = |g: Tree| !inert_group(g);
    let mut out: Vec<Json> = Vec::new();
    let mut i: usize = 0;
    proof {
        lemma_filter_none(items(groups@), p);
        assert(items(out@) =~= Seq::<Tree>::empty());
    }
    while i < groups.len()
        invariant
            0 <= i <= groups.len(),
            p == (|g: Tree| !inert_group(g)),
            items(out@) == items(groups@).take(i as int).filter(p),
        decreases groups.len() - i,
    {
        proof {
            lemma_filter_take(items(groups@), i as int, p);
            assert(items(groups@)[i as int] == groups@[i as int].view());
        }
        if !group_hooks_is_empty(&groups[i]) {
            let ghost held = out@;
            out.push(dup(&groups[i]));
            assert(items(out@) =~= items(held).push(items(groups@)[i as int]));
        }
        i = i + 1;
    }
    assert(items(groups@).take(groups.len() as int) =~= items(groups@));
    out
}

// ---------------------------------------------------------------------------------------------
// What wiring makes of a settings tree
// ---------------------------------------------------------------------------------------------

/// The matcher group that is written for `command`.
pub open spec fn hook_group_tree(command: Seq<char>) -> Tree {
    Tree::Obj(
        map![
            "hooks"@ => Tree::Arr(seq![Tree::Obj(map![
                "type"@ => Tree::Str("command"@),
                "command"@ => Tree::Str(command),
                "async"@ => Tree::Bool(true),
            ])]),
        ],
    )
}

/// The value of a member, where there is one.
pub open spec fn slot(m: Map<Seq<char>, Tree>, key: Seq<char>) -> Option<Tree> {
    if m.contains_key(key) {
        Some(m[key])
    } else {
        None
    }
}

/// Two objects that agree on every member are equal.
pub proof fn lemma_same_slots(a: Map<Seq<char>, Tree>, b: Map<Seq<char>, Tree>)
    requires
        forall|k: Seq<char>| #[trigger] slot(a, k) == slot(b, k),
    ensures
        a == b,
{
    assert forall|k: Seq<char>| #[trigger] a.dom().contains(k) == b.dom().contains(k) by {
        assert(slot(a, k) == slot(b, k));
    }
    assert forall|k: Seq<char>| #[trigger] a.dom().contains(k) implies a[k] == b[k] by {
        assert(slot(a, k) == slot(b, k));
    }
    assert(a.dom() =~= b.dom());
    assert(a =~= b);
}

/// The groups of a wired event before our own group is ensured: stale entries of ours are gone,
/// and so is every group that runs nothing.
pub open spec fn cleaned(groups: Seq<Tree>, command: Seq<char>) -> Seq<Tree> {
    pruned(stripped(groups, Some(command)))
}

/// Some group holds the current wiring.
pub open spec fn any_current(groups: Seq<Tree>, command: Seq<char>) -> bool {
    exists|i: int| 0 <= i < groups.len() && current_group(#[trigger] groups[i], command)
}

/// The groups of a wired event: our group is appended only where none is current.
pub open spec fn ensured(groups: Seq<Tree>, command: Seq<char>) -> Seq<Tree> {
    let c = cleaned(groups, command);
    if any_current(c, command) {
        c
    } else {
        c.push(hook_group_tree(command))
    }
}

/// What wiring makes of one event's value. An active event is ensured, unless its value is not a
/// list. An inactive event loses our entries, and its key where nothing else is left; one that
/// holds nothing of ours stays as it is.
pub open spec fn wired_event(value: Option<Tree>, command: Seq<char>, active: bool) -> Option<Tree> {
    if active {
        match value {
            None => Some(Tree::Arr(seq![hook_group_tree(command)])),
            Some(Tree::Arr(groups)) => Some(Tree::Arr(ensured(groups, command))),
            other => other,
        }
    } else {
        match value {
            Some(Tree::Arr(groups)) => if strips(groups, None) {
                let left = pruned(stripped(groups, None));
                if left.len() == 0 {
                    None
                } else {
                    Some(Tree::Arr(left))
                }
            } else {
                value
            },
            other => other,
        }
    }
}

/// The value of `key` in the wired `hooks` object: only keys of the vocabulary are touched.
pub open spec fn wired_slot(
    hooks: Map<Seq<char>, Tree>,
    key: Seq<char>,
    command: Seq<char>,
    active: Seq<Seq<char>>,
) -> Option<Tree> {
    if vocabulary().contains(key) {
        wired_event(slot(hooks, key), command, active.contains(key))
    } else {
        slot(hooks, key)
    }
}

/// The wired `hooks` object.
pub open spec fn wired_hooks(
    hooks: Map<Seq<char>, Tree>,
    command: Seq<char>,
    active: Seq<Seq<char>>,
) -> Map<Seq<char>, Tree> {
    Map::new(
        |k: Seq<char>| wired_slot(hooks, k, command, active) is Some,
        |k: Seq<char>| wired_slot(hooks, k, command, active)->0,
    )
}

/// The telemetry block: key, value, required.
pub open spec fn telemetry() -> Seq<(Seq<char>, Seq<char>, bool)> {
    Seq::new(
        TELEMETRY_ENV@.len(),
        |i: int| (TELEMETRY_ENV@[i].0@, TELEMETRY_ENV@[i].1@, TELEMETRY_ENV@[i].2),
    )
}

/// `key` is one of the telemetry keys.
pub open spec fn telemetry_index(key: Seq<char>, i: int) -> bool {
    0 <= i < telemetry().len() && telemetry()[i].0 == key
}

/// The value the telemetry block gives `key`.
pub open spec fn telemetry_default(key: Seq<char>) -> Option<Tree> {
    if exists|i: int| telemetry_index(key, i) {
        Some(Tree::Str(telemetry()[choose|i: int| telemetry_index(key, i)].1))
    } else {
        None
    }
}

/// The wired `env` object: what is there stays, what is missing of the telemetry block is added.
pub open spec fn wired_env(env: Map<Seq<char>, Tree>) -> Map<Seq<char>, Tree> {
    Map::new(
        |k: Seq<char>| env.contains_key(k) || telemetry_default(k) is Some,
        |k: Seq<char>|
            if env.contains_key(k) {
                env[k]
            } else {
                telemetry_default(k)->0
            },
    )
}

/// The object found under a member, an empty one where it is missing.
pub open spec fn object_at(m: Map<Seq<char>, Tree>, key: Seq<char>) -> Option<Map<Seq<char>, Tree>> {
    match slot(m, key) {
        None => Some(Map::empty()),
        Some(Tree::Obj(o)) => Some(o),
        _ => None,
    }
}

/// What wiring makes of a settings tree. A tree, an `env` or a `hooks` that is not an object
/// stays as it is.
pub open spec fn wired(t: Tree, command: Seq<char>, active: Seq<Seq<char>>) -> Tree {
    match t {
        Tree::Obj(m) => {
            let with_env = match object_at(m, "env"@) {
                Some(env) => m.insert("env"@, Tree::Obj(wired_env(env))),
                None => m,
            };
            Tree::Obj(
                match object_at(m, "hooks"@) {
                    Some(hooks) => with_env.insert(
                        "hooks"@,
                        Tree::Obj(wired_hooks(hooks, command, active)),
                    ),
                    None => with_env,
                },
            )
        },
        _ => t,
    }
}

// ---------------------------------------------------------------------------------------------
// What wiring reports
// ---------------------------------------------------------------------------------------------

/// What `wire` changed, or refused to touch. `env_conflicts` is advisory, `env_blocked` means
/// that telemetry cannot flow, and a malformed file was left alone where it is broken.
pub struct WireReport {
    pub env_added: Vec<&'static str>,
    pub env_conflicts: Vec<(&'static str, String)>,
    pub env_blocked: Vec<(&'static str, String)>,
    pub env_not_object: bool,
    pub events_added: Vec<&'static str>,
    pub events_present: Vec<&'static str>,
    pub events_cleared: Vec<&'static str>,
    pub events_conflicts: Vec<&'static str>,
    pub hooks_not_object: bool,
}

impl WireReport {
    /// A report of nothing.
    fn empty() -> (r: WireReport)
        ensures
            r.env_added@.len() == 0,
            r.env_conflicts@.len() == 0,
            r.env_blocked@.len() == 0,
            !r.env_not_object,
            r.events_added@.len() == 0,
            r.events_present@.len() == 0,
            r.events_cleared@.len() == 0,
            r.events_conflicts@.len() == 0,
            !r.hooks_not_object,
    {
        WireReport {
            env_added: Vec::new(),
            env_conflicts: Vec::new(),
            env_blocked: Vec::new(),
            env_not_object: false,
            events_added: Vec::new(),
            events_present: Vec::new(),
            events_cleared: Vec::new(),
            events_conflicts: Vec::new(),
            hooks_not_object: false,
        }
    }

    /// Something was added or cleared.
    pub open spec fn has_changes(&self) -> bool {
        self.env_added@.len() > 0 || self.events_added@.len() > 0 || self.events_cleared@.len() > 0
    }

    /// The file is broken where it had to be merged into.
    pub open spec fn is_malformed(&self) -> bool {
        self.env_not_object || self.hooks_not_object || self.events_conflicts@.len() > 0
    }

    /// Whether the merge changed anything that must be persisted.
    pub fn changed(&self) -> (r: bool)
        ensures
            r == self.has_changes(),
    {
        self.env_added.len() > 0 || self.events_added.len() > 0 || self.events_cleared.len() > 0
    }

    /// Whether the file is structurally broken where it had to be merged into, so that the caller
    /// should refuse rather than persist a half-wired file.
    pub fn malformed(&self) -> (r: bool)
        ensures
            r == self.is_malformed(),
    {
        self.env_not_object || self.hooks_not_object || self.events_conflicts.len() > 0
    }
}

/// The key and the printed value of a list of report lines.
pub open spec fn lines_view(v: Seq<(&'static str, String)>) -> Seq<(Seq<char>, Seq<char>)> {
    Seq::new(v.len(), |i: int| (v[i].0@, v[i].1@))
}

/// A telemetry key that the file sets to another value.
pub open spec fn env_differs(
    env: Map<Seq<char>, Tree>,
    line: (Seq<char>, Seq<char>, bool),
) -> bool {
    env.contains_key(line.0) && env[line.0] != Tree::Str(line.1)
}

/// The report lines of the telemetry keys that differ and whose `required` flag is `required`.
pub open spec fn differing(env: Map<Seq<char>, Tree>, required: bool) -> Seq<(Seq<char>, Seq<char>)> {
    differing_upto(env, required, telemetry().len() as int)
}

pub open spec fn differing_upto(
    env: Map<Seq<char>, Tree>,
    required: bool,
    n: int,
) -> Seq<(Seq<char>, Seq<char>)>
    decreases n,
{
    if n <= 0 {
        Seq::empty()
    } else {
        let line = telemetry()[n - 1];
        let rest = differing_upto(env, required, n - 1);
        if env_differs(env, line) && line.2 == required {
            rest.push((line.0, compact_text(env[line.0])))
        } else {
            rest
        }
    }
}

/// The string an `env` object gives `key`.
pub open spec fn env_str(env: Map<Seq<char>, Tree>, key: Seq<char>) -> Option<Seq<char>> {
    tree_get_str(Tree::Obj(env), key)
}

/// The endpoint of one signal: its own, or else the general one.
pub open spec fn signal_endpoint(env: Map<Seq<char>, Tree>, key: Seq<char>) -> Option<Seq<char>> {
    match env_str(env, key) {
        Some(e) => Some(e),
        None => env_str(env, "OTEL_EXPORTER_OTLP_ENDPOINT"@),
    }
}

/// Either signal goes to the local receiver.
pub open spec fn reaches_local(env: Map<Seq<char>, Tree>) -> bool {
    (signal_endpoint(env, "OTEL_EXPORTER_OTLP_METRICS_ENDPOINT"@) matches Some(e)
        && local_receiver(e)) || (signal_endpoint(env, "OTEL_EXPORTER_OTLP_LOGS_ENDPOINT"@) matches Some(
        e,
    ) && local_receiver(e))
}

/// The position of the protocol line, or the length.
pub open spec fn protocol_line(lines: Seq<(Seq<char>, Seq<char>)>) -> int
    decreases lines.len(),
{
    if lines.len() == 0 || lines[0].0 == "OTEL_EXPORTER_OTLP_PROTOCOL"@ {
        0
    } else {
        1 + protocol_line(lines.skip(1))
    }
}

/// The conflicts and the blocking lines: a protocol that differs is blocking where a signal goes
/// to the local receiver, which understands nothing else.
pub open spec fn graded(
    env: Map<Seq<char>, Tree>,
) -> (Seq<(Seq<char>, Seq<char>)>, Seq<(Seq<char>, Seq<char>)>) {
    let conflicts = differing(env, false);
    let blocked = differing(env, true);
    let at = protocol_line(conflicts);
    if reaches_local(wired_env(env)) && at < conflicts.len() {
        (conflicts.remove(at), blocked.push(conflicts[at]))
    } else {
        (conflicts, blocked)
    }
}

/// What happens to one event.
pub enum EventFate {
    Untouched,
    Added,
    Present,
    Cleared,
    Conflict,
}

/// The fate of an event with a given value.
pub open spec fn event_fate(value: Option<Tree>, command: Seq<char>, active: bool) -> EventFate {
    match value {
        None => if active {
            EventFate::Added
        } else {
            EventFate::Untouched
        },
        Some(Tree::Arr(groups)) => if active {
            if any_current(cleaned(groups, command), command) && !strips(groups, Some(command)) {
                EventFate::Present
            } else {
                EventFate::Added
            }
        } else if strips(groups, None) {
            EventFate::Cleared
        } else {
            EventFate::Untouched
        },
        Some(_) => if active {
            EventFate::Conflict
        } else {
            EventFate::Untouched
        },
    }
}

/// The events of the vocabulary with a given fate, in order.
pub open spec fn events_with(
    hooks: Map<Seq<char>, Tree>,
    command: Seq<char>,
    active: Seq<Seq<char>>,
    fate: EventFate,
) -> Seq<Seq<char>> {
    vocabulary().filter(
        |ev: Seq<char>| event_fate(slot(hooks, ev), command, active.contains(ev)) == fate,
    )
}

/// What the report says of the `env` part.
pub open spec fn env_reported(rep: WireReport, env: Option<Map<Seq<char>, Tree>>) -> bool {
    match env {
        Some(env) => {
            &&& !rep.env_not_object
            &&& names(rep.env_added@) == telemetry_missing(env)
            &&& lines_view(rep.env_conflicts@) == graded(env).0
            &&& lines_view(rep.env_blocked@) == graded(env).1
        },
        None => {
            &&& rep.env_not_object
            &&& rep.env_added@.len() == 0
            &&& rep.env_conflicts@.len() == 0
            &&& rep.env_blocked@.len() == 0
        },
    }
}

/// The telemetry keys that the file does not set, in order.
pub open spec fn telemetry_missing(env: Map<Seq<char>, Tree>) -> Seq<Seq<char>> {
    telemetry_keys().filter(|k: Seq<char>| !env.contains_key(k))
}

pub open spec fn telemetry_keys() -> Seq<Seq<char>> {
    Seq::new(TELEMETRY_ENV@.len(), |i: int| TELEMETRY_ENV@[i].0@)
}

/// What the report says of the `hooks` part.
pub open spec fn hooks_reported(
    rep: WireReport,
    hooks: Option<Map<Seq<char>, Tree>>,
    command: Seq<char>,
    active: Seq<Seq<char>>,
) -> bool {
    match hooks {
        Some(hooks) => {
            &&& !rep.hooks_not_object
            &&& names(rep.events_added@) == events_with(hooks, command, active, EventFate::Added)
            &&& names(rep.events_present@) == events_with(hooks, command, active, EventFate::Present)
            &&& names(rep.events_cleared@) == events_with(hooks, command, active, EventFate::Cleared)
            &&& names(rep.events_conflicts@) == events_with(
                hooks,
                command,
                active,
                EventFate::Conflict,
            )
        },
        None => {
            &&& rep.hooks_not_object
            &&& rep.events_added@.len() == 0
            &&& rep.events_present@.len() == 0
            &&& rep.events_cleared@.len() == 0
            &&& rep.events_conflicts@.len() == 0
        },
    }
}

/// What wiring a settings tree reports.
pub open spec fn wire_reported(
    rep: WireReport,
    t: Tree,
    command: Seq<char>,
    active: Seq<Seq<char>>,
) -> bool {
    match t {
        Tree::Obj(m) => env_reported(rep, object_at(m, "env"@)) && hooks_reported(
            rep,
            object_at(m, "hooks"@),
            command,
            active,
        ),
        _ => env_reported(rep, None) && hooks_reported(rep, None, command, active),
    }
}

// ---------------------------------------------------------------------------------------------
// Wiring
// ---------------------------------------------------------------------------------------------

proof fn lemma_events_distinct()
    ensures
        forall|i: int, j: int|
            0 <= i < j < EVENTS@.len() ==> #[trigger] EVENTS@[i]@ != #[trigger] EVENTS@[j]@,
{
    reveal_strlit("SessionStart");
    reveal_strlit("SessionEnd");
    reveal_strlit("UserPromptExpansion");
    reveal_strlit("PostToolUse");
    reveal_strlit("PostToolUseFailure");
    reveal_strlit("UserPromptSubmit");
    reveal_strlit("SubagentStop");
    reveal_strlit("InstructionsLoaded");
    reveal_strlit("PreCompact");
    reveal_strlit("PostCompact");
    assert(EVENTS@[0]@.len() == 12 && EVENTS@[1]@.len() == 10 && EVENTS@[2]@.len() == 19);
    assert(EVENTS@[3]@.len() == 11 && EVENTS@[4]@.len() == 18 && EVENTS@[5]@.len() == 16);
    assert(EVENTS@[6]@.len() == 12 && EVENTS@[7]@.len() == 18 && EVENTS@[8]@.len() == 10);
    assert(EVENTS@[9]@.len() == 11);
    assert(EVENTS@[0]@[1] != EVENTS@[6]@[1]);
    assert(EVENTS@[1]@[0] != EVENTS@[8]@[0]);
    assert(EVENTS@[3]@[4] != EVENTS@[9]@[4]);
    assert(EVENTS@[4]@[0] != EVENTS@[7]@[0]);
}

proof fn lemma_telemetry_distinct()
    ensures
        forall|i: int, j: int|
            0 <= i < j < telemetry().len() ==> #[trigger] telemetry()[i].0 != #[trigger] telemetry()[j].0,
        "env"@ != "hooks"@,
{
    reveal_strlit("CLAUDE_CODE_ENABLE_TELEMETRY");
    reveal_strlit("OTEL_METRICS_EXPORTER");
    reveal_strlit("OTEL_LOGS_EXPORTER");
    reveal_strlit("OTEL_EXPORTER_OTLP_PROTOCOL");
    reveal_strlit("OTEL_EXPORTER_OTLP_ENDPOINT");
    reveal_strlit("env");
    reveal_strlit("hooks");
    assert("env"@.len() != "hooks"@.len());
    assert(telemetry()[0].0.len() == 28);
    assert(telemetry()[1].0.len() == 21);
    assert(telemetry()[2].0.len() == 18);
    assert(telemetry()[3].0.len() == 27);
    assert(telemetry()[4].0.len() == 27);
    assert(telemetry()[3].0[19] != telemetry()[4].0[19]);
}

pub proof fn lemma_telemetry_default(i: int)
    requires
        0 <= i < telemetry().len(),
    ensures
        telemetry_default(telemetry()[i].0) == Some(Tree::Str(telemetry()[i].1)),
{
    lemma_telemetry_distinct();
    let key = telemetry()[i].0;
    assert(telemetry_index(key, i));
    let k = choose|k: int| telemetry_index(key, k);
    assert(telemetry_index(key, k));
    assert(k == i);
}

/// The matcher group that wires `command`: asynchronous, so that a session never waits for it.
pub fn hook_group(command: &str) -> (r: Json)
    ensures
        r.view() == hook_group_tree(command@),
{
    let mut entry: Vec<(String, Json)> = Vec::new();
    set_member(&mut entry, "type", Json::text("command"));
    set_member(&mut entry, "command", Json::text(command));
    set_member(&mut entry, "async", Json::Bool(true));
    let ghost entry_tree = Tree::Obj(members(entry@));
    let mut list: Vec<Json> = Vec::new();
    list.push(Json::Object(entry));
    assert(items(list@) =~= seq![entry_tree]);
    let mut group: Vec<(String, Json)> = Vec::new();
    set_member(&mut group, "hooks", Json::Array(list));
    Json::Object(group)
}

fn any_group_current(groups: &Vec<Json>, command: &str) -> (r: bool)
    ensures
        r == any_current(items(groups@), command@),
{
    let mut i: usize = 0;
    while i < groups.len()
        invariant
            0 <= i <= groups.len(),
            forall|k: int|
                0 <= k < i ==> !current_group(#[trigger] items(groups@)[k], command@),
        decreases groups.len() - i,
    {
        if group_is_current(&groups[i], command) {
            assert(current_group(items(groups@)[i as int], command@));
            return true;
        }
        assert(items(groups@)[i as int] == groups@[i as int].view());
        i = i + 1;
    }
    false
}

/// Wire one event that should be active: the new groups and whether anything changed.
fn ensure_groups(groups: &Vec<Json>, command: &str) -> (r: (Vec<Json>, bool))
    ensures
        items(r.0@) == ensured(items(groups@), command@),
        r.1 == !(any_current(cleaned(items(groups@), command@), command@) && !strips(
            items(groups@),
            Some(command@),
        )),
{
    let (kept, removed) = strip_our_entries(groups, Some(command));
    let mut left = prune_groups(&kept);
    if any_group_current(&left, command) {
        (left, removed)
    } else {
        let ghost held = left@;
        left.push(hook_group(command));
        assert(items(left@) =~= items(held).push(hook_group_tree(command@)));
        (left, true)
    }
}

/// One event's fate and its new value; `None` means that the key goes.
fn wire_event(value: Option<&Json>, command: &str, active: bool) -> (r: (EventFate, Option<Json>))
    ensures
        r.0 == event_fate(opt_tree(value), command@, active),
        match r.1 {
            Some(j) => Some(j.view()),
            None => None::<Tree>,
        } == wired_event(opt_tree(value), command@, active),
{
    match value {
        None => if active {
            let mut list: Vec<Json> = Vec::new();
            list.push(hook_group(command));
            assert(items(list@) =~= seq![hook_group_tree(command@)]);
            (EventFate::Added, Some(Json::Array(list)))
        } else {
            (EventFate::Untouched, None)
        },
        Some(Json::Array(groups)) => if active {
            let (left, changed) = ensure_groups(groups, command);
            if changed {
                (EventFate::Added, Some(Json::Array(left)))
            } else {
                (EventFate::Present, Some(Json::Array(left)))
            }
        } else {
            let (kept, removed) = strip_our_entries(groups, None);
            if removed {
                let left = prune_groups(&kept);
                if left.len() == 0 {
                    (EventFate::Cleared, None)
                } else {
                    assert(items(left@).len() == left.len());
                    (EventFate::Cleared, Some(Json::Array(left)))
                }
            } else {
                (EventFate::Untouched, Some(dup(value.unwrap())))
            }
        },
        Some(other) => if active {
            (EventFate::Conflict, Some(dup(other)))
        } else {
            (EventFate::Untouched, Some(dup(other)))
        },
    }
}

fn contains_name(list: &[&'static str], name: &str) -> (r: bool)
    ensures
        r == names(list@).contains(name@),
{
    let mut i: usize = 0;
    while i < list.len()
        invariant
            0 <= i <= list.len(),
            forall|k: int| 0 <= k < i ==> #[trigger] names(list@)[k] != name@,
        decreases list.len() - i,
    {
        if same(list[i], name) {
            assert(names(list@)[i as int] == name@);
            return true;
        }
        i = i + 1;
    }
    false
}

/// The events before position `n` whose fate is `fate`.
spec fn fated_upto(
    hooks: Map<Seq<char>, Tree>,
    command: Seq<char>,
    active: Seq<Seq<char>>,
    fate: EventFate,
    n: int,
) -> Seq<Seq<char>> {
    vocabulary().take(n).filter(
        |ev: Seq<char>| event_fate(slot(hooks, ev), command, active.contains(ev)) == fate,
    )
}

proof fn lemma_fated_step(
    hooks: Map<Seq<char>, Tree>,
    command: Seq<char>,
    active: Seq<Seq<char>>,
    fate: EventFate,
    n: int,
)
    requires
        0 <= n < vocabulary().len(),
    ensures
        fated_upto(hooks, command, active, fate, n + 1) == if event_fate(
            slot(hooks, vocabulary()[n]),
            command,
            active.contains(vocabulary()[n]),
        ) == fate {
            fated_upto(hooks, command, active, fate, n).push(vocabulary()[n])
        } else {
            fated_upto(hooks, command, active, fate, n)
        },
{
    lemma_filter_take(
        vocabulary(),
        n,
        |ev: Seq<char>| event_fate(slot(hooks, ev), command, active.contains(ev)) == fate,
    );
}

proof fn lemma_fated_ends(
    hooks: Map<Seq<char>, Tree>,
    command: Seq<char>,
    active: Seq<Seq<char>>,
    fate: EventFate,
)
    ensures
        fated_upto(hooks, command, active, fate, 0) == Seq::<Seq<char>>::empty(),
        fated_upto(hooks, command, active, fate, vocabulary().len() as int) == events_with(
            hooks,
            command,
            active,
            fate,
        ),
{
    lemma_filter_none(
        vocabulary(),
        |ev: Seq<char>| event_fate(slot(hooks, ev), command, active.contains(ev)) == fate,
    );
    assert(vocabulary().take(vocabulary().len() as int) =~= vocabulary());
}

proof fn lemma_names_push(v: Seq<&'static str>, s: &'static str)
    ensures
        names(v.push(s)) == names(v).push(s@),
{
    assert(names(v.push(s)) =~= names(v).push(s@));
}

/// The value of `key` once the first `n` events of the vocabulary are wired.
spec fn slot_upto(
    hooks: Map<Seq<char>, Tree>,
    key: Seq<char>,
    command: Seq<char>,
    active: Seq<Seq<char>>,
    n: int,
) -> Option<Tree> {
    if vocabulary().take(n).contains(key) {
        wired_event(slot(hooks, key), command, active.contains(key))
    } else {
        slot(hooks, key)
    }
}

/// Wire the `hooks` object and note the fate of each event.
fn wire_hooks(
    hooks: &mut Vec<(String, Json)>,
    command: &str,
    events: &[&'static str],
    rep: &mut WireReport,
)
    requires
        old(rep).events_added@.len() == 0,
        old(rep).events_present@.len() == 0,
        old(rep).events_cleared@.len() == 0,
        old(rep).events_conflicts@.len() == 0,
        !old(rep).hooks_not_object,
    ensures
        members(final(hooks)@) == wired_hooks(members(old(hooks)@), command@, names(events@)),
        hooks_reported(*final(rep), Some(members(old(hooks)@)), command@, names(events@)),
        final(rep).env_added == old(rep).env_added,
        final(rep).env_conflicts == old(rep).env_conflicts,
        final(rep).env_blocked == old(rep).env_blocked,
        final(rep).env_not_object == old(rep).env_not_object,
{
    let ghost start = members(hooks@);
    let ghost active = names(events@);
    proof {
        lemma_fated_ends(start, command@, active, EventFate::Added);
        lemma_fated_ends(start, command@, active, EventFate::Present);
        lemma_fated_ends(start, command@, active, EventFate::Cleared);
        lemma_fated_ends(start, command@, active, EventFate::Conflict);
        assert(names(rep.events_added@) =~= Seq::<Seq<char>>::empty());
        assert(names(rep.events_present@) =~= Seq::<Seq<char>>::empty());
        assert(names(rep.events_cleared@) =~= Seq::<Seq<char>>::empty());
        assert(names(rep.events_conflicts@) =~= Seq::<Seq<char>>::empty());
        assert forall|k: Seq<char>| #[trigger]
            slot(members(hooks@), k) == slot_upto(start, k, command@, active, 0) by {
            assert(vocabulary().take(0) =~= Seq::<Seq<char>>::empty());
        }
    }
    let mut i: usize = 0;
    while i < EVENTS.len()
        invariant
            0 <= i <= EVENTS@.len(),
            active == names(events@),
            forall|k: Seq<char>| #[trigger]
                slot(members(hooks@), k) == slot_upto(start, k, command@, active, i as int),
            names(rep.events_added@) == fated_upto(start, command@, active, EventFate::Added, i as int),
            names(rep.events_present@) == fated_upto(start, command@, active, EventFate::Present, i as int),
            names(rep.events_cleared@) == fated_upto(start, command@, active, EventFate::Cleared, i as int),
            names(rep.events_conflicts@) == fated_upto(start, command@, active, EventFate::Conflict, i as int),
            !rep.hooks_not_object,
            rep.env_added == old(rep).env_added,
            rep.env_conflicts == old(rep).env_conflicts,
            rep.env_blocked == old(rep).env_blocked,
            rep.env_not_object == old(rep).env_not_object,
        decreases EVENTS@.len() - i,
    {
        let ev: &'static str = EVENTS[i];
        let is_active = contains_name(events, ev);
        let at = find_member(hooks, ev);
        let ghost held = members(hooks@);
        proof {
            lemma_fated_step(start, command@, active, EventFate::Added, i as int);
            lemma_fated_step(start, command@, active, EventFate::Present, i as int);
            lemma_fated_step(start, command@, active, EventFate::Cleared, i as int);
            lemma_fated_step(start, command@, active, EventFate::Conflict, i as int);
            lemma_names_push(rep.events_added@, ev);
            lemma_names_push(rep.events_present@, ev);
            lemma_names_push(rep.events_cleared@, ev);
            lemma_names_push(rep.events_conflicts@, ev);
            assert(vocabulary()[i as int] == ev@);
            lemma_vocabulary_step(i as int);
            assert(slot(held, ev@) == slot_upto(start, ev@, command@, active, i as int));
        }
        let outcome = if at < hooks.len() {
            wire_event(Some(&hooks[at].1), command, is_active)
        } else {
            wire_event(None, command, is_active)
        };
        let (fate, value) = outcome;
        let ghost want = wired_event(slot(start, ev@), command@, active.contains(ev@));
        match value {
            Some(j) => {
                set_member(hooks, ev, j);
            },
            None => {
                remove_member(hooks, ev);
            },
        }
        proof {
            assert forall|k: Seq<char>| #[trigger]
                slot(members(hooks@), k) == slot_upto(start, k, command@, active, i + 1) by {
                assert(slot(held, k) == slot_upto(start, k, command@, active, i as int));
                if k == ev@ {
                    assert(slot(members(hooks@), k) == want);
                } else {
                    assert(slot(members(hooks@), k) == slot(held, k));
                }
            }
        }
        match fate {
            EventFate::Added => rep.events_added.push(ev),
            EventFate::Present => rep.events_present.push(ev),
            EventFate::Cleared => rep.events_cleared.push(ev),
            EventFate::Conflict => rep.events_conflicts.push(ev),
            EventFate::Untouched => {},
        }
        i = i + 1;
    }
    proof {
        let want = wired_hooks(start, command@, active);
        assert(vocabulary().take(vocabulary().len() as int) =~= vocabulary());
        assert forall|k: Seq<char>| #[trigger] slot(members(hooks@), k) == slot(want, k) by {
            assert(slot(members(hooks@), k) == wired_slot(start, k, command@, active));
        }
        lemma_same_slots(members(hooks@), want);
    }
}

/// What the `env` object holds for `key` once the first `n` telemetry lines are merged.
spec fn env_slot_upto(env: Map<Seq<char>, Tree>, key: Seq<char>, n: int) -> Option<Tree> {
    if env.contains_key(key) {
        Some(env[key])
    } else if exists|i: int| telemetry_index(key, i) && i < n {
        telemetry_default(key)
    } else {
        None
    }
}

proof fn lemma_lines_push(v: Seq<(&'static str, String)>, e: (&'static str, String))
    ensures
        lines_view(v.push(e)) == lines_view(v).push((e.0@, e.1@)),
{
    assert(lines_view(v.push(e)) =~= lines_view(v).push((e.0@, e.1@)));
}

/// Merge the telemetry block into the `env` object and note what was added or differs.
fn merge_env(env: &mut Vec<(String, Json)>, rep: &mut WireReport)
    requires
        old(rep).env_added@.len() == 0,
        old(rep).env_conflicts@.len() == 0,
        old(rep).env_blocked@.len() == 0,
    ensures
        members(final(env)@) == wired_env(members(old(env)@)),
        names(final(rep).env_added@) == telemetry_missing(members(old(env)@)),
        lines_view(final(rep).env_conflicts@) == differing(members(old(env)@), false),
        lines_view(final(rep).env_blocked@) == differing(members(old(env)@), true),
        final(rep).env_not_object == old(rep).env_not_object,
        final(rep).hooks_not_object == old(rep).hooks_not_object,
        final(rep).events_added == old(rep).events_added,
        final(rep).events_present == old(rep).events_present,
        final(rep).events_cleared == old(rep).events_cleared,
        final(rep).events_conflicts == old(rep).events_conflicts,
{
    let ghost start = members(env@);
    let ghost absent = |k: Seq<char>| !start.contains_key(k);
    proof {
        lemma_filter_none(telemetry_keys(), absent);
        assert(names(rep.env_added@) =~= Seq::<Seq<char>>::empty());
        assert(lines_view(rep.env_conflicts@) =~= Seq::empty());
        assert(lines_view(rep.env_blocked@) =~= Seq::empty());
        assert forall|k: Seq<char>| #[trigger]
            slot(members(env@), k) == env_slot_upto(start, k, 0) by {}
    }
    let mut i: usize = 0;
    while i < TELEMETRY_ENV.len()
        invariant
            0 <= i <= TELEMETRY_ENV@.len(),
            absent == (|k: Seq<char>| !start.contains_key(k)),
            forall|k: Seq<char>| #[trigger]
                slot(members(env@), k) == env_slot_upto(start, k, i as int),
            names(rep.env_added@) == telemetry_keys().take(i as int).filter(absent),
            lines_view(rep.env_conflicts@) == differing_upto(start, false, i as int),
            lines_view(rep.env_blocked@) == differing_upto(start, true, i as int),
            rep.env_not_object == old(rep).env_not_object,
            rep.hooks_not_object == old(rep).hooks_not_object,
            rep.events_added == old(rep).events_added,
            rep.events_present == old(rep).events_present,
            rep.events_cleared == old(rep).events_cleared,
            rep.events_conflicts == old(rep).events_conflicts,
        decreases TELEMETRY_ENV@.len() - i,
    {
        let (key, value, required) = TELEMETRY_ENV[i];
        let at = find_member(env, key);
        let ghost held = members(env@);
        proof {
            lemma_telemetry_distinct();
            lemma_telemetry_default(i as int);
            lemma_filter_take(telemetry_keys(), i as int, absent);
            lemma_names_push(rep.env_added@, key);
            assert(telemetry()[i as int] == (key@, value@, required));
            assert(telemetry_index(key@, i as int));
            assert(forall|n: int| telemetry_index(key@, n) ==> n == i);
            assert(slot(held, key@) == env_slot_upto(start, key@, i as int));
            assert(slot(held, key@) == slot(start, key@));
        }
        if at < env.len() {
            let existing = &env[at].1;
            let equal = match existing {
                Json::Str(s) => same(s, value),
                _ => false,
            };
            assert(equal == (start[key@] == Tree::Str(value@)));
            if !equal {
                let line = (key, compact(existing));
                proof {
                    lemma_lines_push(rep.env_blocked@, line);
                    lemma_lines_push(rep.env_conflicts@, line);
                }
                if required {
                    rep.env_blocked.push(line);
                } else {
                    rep.env_conflicts.push(line);
                }
            }
        } else {
            set_member(env, key, Json::text(value));
            rep.env_added.push(key);
        }
        proof {
            assert forall|k: Seq<char>| #[trigger]
                slot(members(env@), k) == env_slot_upto(start, k, i + 1) by {
                assert(slot(held, k) == env_slot_upto(start, k, i as int));
                if k != key@ {
                    assert(slot(members(env@), k) == slot(held, k));
                    assert(forall|n: int| telemetry_index(k, n) ==> n != i);
                }
            }
        }
        i = i + 1;
    }
    proof {
        assert(telemetry_keys().take(telemetry_keys().len() as int) =~= telemetry_keys());
        let want = wired_env(start);
        assert forall|k: Seq<char>| #[trigger] slot(members(env@), k) == slot(want, k) by {
            assert(slot(members(env@), k) == env_slot_upto(start, k, telemetry().len() as int));
        }
        lemma_same_slots(members(env@), want);
    }
}

/// Whether an `env` object sends either signal to the local receiver.
fn env_reaches_local(env: &Vec<(String, Json)>) -> (r: bool)
    ensures
        r == reaches_local(members(env@)),
{
    let general = find_member(env, "OTEL_EXPORTER_OTLP_ENDPOINT");
    let metrics = find_member(env, "OTEL_EXPORTER_OTLP_METRICS_ENDPOINT");
    let logs = find_member(env, "OTEL_EXPORTER_OTLP_LOGS_ENDPOINT");
    endpoint_is_local(env, metrics, general) || endpoint_is_local(env, logs, general)
}

/// The string of the member at a position, where there is one.
spec fn string_slot(env: Seq<(String, Json)>, at: int) -> Option<Seq<char>> {
    if at < env.len() {
        tree_str(env[at].1.view())
    } else {
        None
    }
}

fn string_at(env: &Vec<(String, Json)>, at: usize) -> (r: Option<&str>)
    requires
        at <= env.len(),
    ensures
        crate::text::opt_str_view(r) == string_slot(env@, at as int),
{
    if at < env.len() {
        env[at].1.as_str()
    } else {
        None
    }
}

fn endpoint_is_local(env: &Vec<(String, Json)>, own: usize, general: usize) -> (r: bool)
    requires
        own <= env.len(),
        general <= env.len(),
    ensures
        r == match string_slot(env@, own as int) {
            Some(e) => local_receiver(e),
            None => match string_slot(env@, general as int) {
                Some(e) => local_receiver(e),
                None => false,
            },
        },
{
    match string_at(env, own) {
        Some(e) => is_local_receiver(e),
        None => match string_at(env, general) {
            Some(e) => is_local_receiver(e),
            None => false,
        },
    }
}

proof fn lemma_protocol_line(lines: Seq<(Seq<char>, Seq<char>)>, i: int)
    requires
        0 <= i <= lines.len(),
        forall|k: int| 0 <= k < i ==> (#[trigger] lines[k]).0 != "OTEL_EXPORTER_OTLP_PROTOCOL"@,
        i < lines.len() ==> lines[i].0 == "OTEL_EXPORTER_OTLP_PROTOCOL"@,
    ensures
        protocol_line(lines) == i,
    decreases lines.len(),
{
    if i > 0 {
        assert(lines[0].0 != "OTEL_EXPORTER_OTLP_PROTOCOL"@);
        assert forall|k: int| 0 <= k < i - 1 implies (#[trigger] lines.skip(1)[k]).0
            != "OTEL_EXPORTER_OTLP_PROTOCOL"@ by {
            assert(lines.skip(1)[k] == lines[k + 1]);
        }
        lemma_protocol_line(lines.skip(1), i - 1);
    }
}

/// Move a differing protocol from the advisory lines to the blocking ones.
fn promote_protocol(rep: &mut WireReport)
    ensures
        ({
            let conflicts = lines_view(old(rep).env_conflicts@);
            let at = protocol_line(conflicts);
            if at < conflicts.len() {
                lines_view(final(rep).env_conflicts@) == conflicts.remove(at) && lines_view(
                    final(rep).env_blocked@,
                ) == lines_view(old(rep).env_blocked@).push(conflicts[at])
            } else {
                lines_view(final(rep).env_conflicts@) == conflicts && lines_view(
                    final(rep).env_blocked@,
                ) == lines_view(old(rep).env_blocked@)
            }
        }),
        final(rep).env_added == old(rep).env_added,
        final(rep).env_not_object == old(rep).env_not_object,
        final(rep).hooks_not_object == old(rep).hooks_not_object,
        final(rep).events_added == old(rep).events_added,
        final(rep).events_present == old(rep).events_present,
        final(rep).events_cleared == old(rep).events_cleared,
        final(rep).events_conflicts == old(rep).events_conflicts,
{
    let ghost lines = lines_view(rep.env_conflicts@);
    let mut i: usize = 0;
    while i < rep.env_conflicts.len() && !same(rep.env_conflicts[i].0, "OTEL_EXPORTER_OTLP_PROTOCOL")
        invariant
            *rep == *old(rep),
            lines == lines_view(rep.env_conflicts@),
            0 <= i <= rep.env_conflicts@.len(),
            forall|k: int| 0 <= k < i ==> (#[trigger] lines[k]).0 != "OTEL_EXPORTER_OTLP_PROTOCOL"@,
        decreases rep.env_conflicts@.len() - i,
    {
        i = i + 1;
    }
    proof {
        lemma_protocol_line(lines, i as int);
    }
    if i < rep.env_conflicts.len() {
        let ghost blocked = rep.env_blocked@;
        let line = rep.env_conflicts.remove(i);
        assert(lines_view(rep.env_conflicts@) =~= lines.remove(i as int));
        proof {
            lemma_lines_push(blocked, line);
        }
        rep.env_blocked.push(line);
    }
}

/// Wire the members of a settings object.
fn wire_members(
    obj: &mut Vec<(String, Json)>,
    command: &str,
    events: &[&'static str],
) -> (rep: WireReport)
    ensures
        Tree::Obj(members(final(obj)@)) == wired(
            Tree::Obj(members(old(obj)@)),
            command@,
            names(events@),
        ),
        wire_reported(rep, Tree::Obj(members(old(obj)@)), command@, names(events@)),
{
    let mut rep = WireReport::empty();
    let ghost start = members(obj@);
    proof {
        lemma_telemetry_distinct();
    }
    let at = find_member(obj, "env");
    let found = if at < obj.len() {
        match &obj[at].1 {
            Json::Object(env) => Some(dup_members(env)),
            _ => None,
        }
    } else {
        Some(Vec::new())
    };
    match found {
        Some(env) => {
            let mut env = env;
            let ghost before = members(env@);
            assert(object_at(start, "env"@) == Some(before));
            merge_env(&mut env, &mut rep);
            if env_reaches_local(&env) {
                promote_protocol(&mut rep);
            }
            assert(env_reported(rep, Some(before)));
            set_member(obj, "env", Json::Object(env));
        },
        None => {
            rep.env_not_object = true;
        },
    }
    let ghost middle = members(obj@);
    assert(slot(middle, "hooks"@) == slot(start, "hooks"@));
    let at = find_member(obj, "hooks");
    let found = if at < obj.len() {
        match &obj[at].1 {
            Json::Object(hooks) => Some(dup_members(hooks)),
            _ => None,
        }
    } else {
        Some(Vec::new())
    };
    match found {
        Some(hooks) => {
            let mut hooks = hooks;
            assert(object_at(start, "hooks"@) == Some(members(hooks@)));
            wire_hooks(&mut hooks, command, events, &mut rep);
            set_member(obj, "hooks", Json::Object(hooks));
        },
        None => {
            rep.hooks_not_object = true;
        },
    }
    rep
}

/// Merge the telemetry `env` and the lifecycle hooks into a settings value. An `env` key is only
/// added when it is missing; a value that differs is reported, never overwritten. Each active
/// event gets our hook appended where it is not already there, and an inactive one loses it, so a
/// user's own hooks survive and a second run changes nothing.
pub fn wire(settings: &mut Json, hook_cmd: &str, events: &[&'static str]) -> (rep: WireReport)
    ensures
        final(settings).view() == wired(old(settings).view(), hook_cmd@, names(events@)),
        wire_reported(rep, old(settings).view(), hook_cmd@, names(events@)),
{
    match settings {
        Json::Object(obj) => wire_members(obj, hook_cmd, events),
        _ => {
            let mut rep = WireReport::empty();
            rep.env_not_object = true;
            rep.hooks_not_object = true;
            rep
        },
    }
}

// ---------------------------------------------------------------------------------------------
// Unwiring
// ---------------------------------------------------------------------------------------------

/// What unwiring makes of one event's value: our entries go, then the groups that run nothing,
/// then an event that has no group left. A value that is not a list stays as it is.
pub open spec fn unwired_event(value: Option<Tree>) -> Option<Tree> {
    match value {
        Some(Tree::Arr(groups)) => {
            let left = pruned(stripped(groups, None));
            if left.len() == 0 {
                None
            } else {
                Some(Tree::Arr(left))
            }
        },
        other => other,
    }
}

/// The value of `key` in the unwired `hooks` object.
pub open spec fn unwired_slot(hooks: Map<Seq<char>, Tree>, key: Seq<char>) -> Option<Tree> {
    if vocabulary().contains(key) {
        unwired_event(slot(hooks, key))
    } else {
        slot(hooks, key)
    }
}

/// The unwired `hooks` object.
pub open spec fn unwired_hooks(hooks: Map<Seq<char>, Tree>) -> Map<Seq<char>, Tree> {
    Map::new(
        |k: Seq<char>| unwired_slot(hooks, k) is Some,
        |k: Seq<char>| unwired_slot(hooks, k)->0,
    )
}

/// What unwiring makes of a settings tree: only `hooks` is touched, and it goes where it is left
/// empty.
pub open spec fn unwired(t: Tree) -> Tree {
    match t {
        Tree::Obj(m) => match slot(m, "hooks"@) {
            Some(Tree::Obj(hooks)) => if unwired_hooks(hooks) == Map::<Seq<char>, Tree>::empty() {
                Tree::Obj(m.remove("hooks"@))
            } else {
                Tree::Obj(m.insert("hooks"@, Tree::Obj(unwired_hooks(hooks))))
            },
            _ => t,
        },
        _ => t,
    }
}

/// An event's value holds an entry of ours.
pub open spec fn holds_ours(value: Option<Tree>) -> bool {
    value matches Some(Tree::Arr(groups)) && strips(groups, None)
}

/// The events that unwiring clears, in order.
pub open spec fn cleared_events(t: Tree) -> Seq<Seq<char>> {
    match tree_get(t, "hooks"@) {
        Some(Tree::Obj(hooks)) => vocabulary().filter(
            |ev: Seq<char>| holds_ours(slot(hooks, ev)),
        ),
        _ => Seq::empty(),
    }
}

/// What `unwire` removed.
pub struct UnwireReport {
    pub events_cleared: Vec<&'static str>,
}

impl UnwireReport {
    /// Whether anything was removed.
    pub fn changed(&self) -> (r: bool)
        ensures
            r == (self.events_cleared@.len() > 0),
    {
        self.events_cleared.len() > 0
    }
}

spec fn unwired_slot_upto(hooks: Map<Seq<char>, Tree>, key: Seq<char>, n: int) -> Option<Tree> {
    if vocabulary().take(n).contains(key) {
        unwired_event(slot(hooks, key))
    } else {
        slot(hooks, key)
    }
}

/// Position `i` of the vocabulary is new, and taking it in adds exactly that event.
proof fn lemma_vocabulary_step(i: int)
    requires
        0 <= i < vocabulary().len(),
    ensures
        !vocabulary().take(i).contains(vocabulary()[i]),
        forall|k: Seq<char>|
            #[trigger] vocabulary().take(i + 1).contains(k) <==> (k == vocabulary()[i]
                || vocabulary().take(i).contains(k)),
{
    lemma_events_distinct();
    let ev = vocabulary()[i];
    if vocabulary().take(i).contains(ev) {
        let k = choose|k: int| 0 <= k < i && vocabulary().take(i)[k] == ev;
        assert(EVENTS@[k]@ != EVENTS@[i]@);
    }
    assert forall|k: Seq<char>|
        #[trigger] vocabulary().take(i + 1).contains(k) <==> (k == ev || vocabulary().take(
            i,
        ).contains(k)) by {
        assert(vocabulary().take(i + 1) =~= vocabulary().take(i).push(ev));
        if vocabulary().take(i).contains(k) {
            let n = choose|n: int| 0 <= n < i && vocabulary().take(i)[n] == k;
            assert(vocabulary().take(i + 1)[n] == k);
        }
        if k == ev {
            assert(vocabulary().take(i + 1)[i] == k);
        }
    }
}

/// Unwire the `hooks` object.
fn unwire_hooks(hooks: &mut Vec<(String, Json)>) -> (rep: UnwireReport)
    ensures
        members(final(hooks)@) == unwired_hooks(members(old(hooks)@)),
        names(rep.events_cleared@) == vocabulary().filter(
            |ev: Seq<char>| holds_ours(slot(members(old(hooks)@), ev)),
        ),
{
    let mut cleared: Vec<&'static str> = Vec::new();
    let ghost start = members(hooks@);
    let ghost p = |ev: Seq<char>| holds_ours(slot(start, ev));
    proof {
        lemma_filter_none(vocabulary(), p);
        assert(names(cleared@) =~= Seq::<Seq<char>>::empty());
        assert forall|k: Seq<char>| #[trigger]
            slot(members(hooks@), k) == unwired_slot_upto(start, k, 0) by {
            assert(vocabulary().take(0) =~= Seq::<Seq<char>>::empty());
        }
    }
    let mut i: usize = 0;
    while i < EVENTS.len()
        invariant
            0 <= i <= EVENTS@.len(),
            p == (|ev: Seq<char>| holds_ours(slot(start, ev))),
            forall|k: Seq<char>| #[trigger]
                slot(members(hooks@), k) == unwired_slot_upto(start, k, i as int),
            names(cleared@) == vocabulary().take(i as int).filter(p),
        decreases EVENTS@.len() - i,
    {
        let ev: &'static str = EVENTS[i];
        let at = find_member(hooks, ev);
        let ghost held = members(hooks@);
        proof {
            lemma_vocabulary_step(i as int);
            lemma_filter_take(vocabulary(), i as int, p);
            lemma_names_push(cleared@, ev);
            assert(vocabulary()[i as int] == ev@);
            assert(slot(held, ev@) == unwired_slot_upto(start, ev@, i as int));
        }
        if at < hooks.len() {
            if let Json::Array(groups) = &hooks[at].1 {
                let (kept, removed) = strip_our_entries(groups, None);
                let left = prune_groups(&kept);
                assert(items(left@).len() == left.len());
                if removed {
                    cleared.push(ev);
                }
                if left.len() == 0 {
                    remove_member(hooks, ev);
                } else {
                    set_member(hooks, ev, Json::Array(left));
                }
            }
        }
        proof {
            assert forall|k: Seq<char>| #[trigger]
                slot(members(hooks@), k) == unwired_slot_upto(start, k, i + 1) by {
                assert(slot(held, k) == unwired_slot_upto(start, k, i as int));
                if k != ev@ {
                    assert(slot(members(hooks@), k) == slot(held, k));
                }
            }
        }
        i = i + 1;
    }
    proof {
        let want = unwired_hooks(start);
        assert(vocabulary().take(vocabulary().len() as int) =~= vocabulary());
        assert forall|k: Seq<char>| #[trigger] slot(members(hooks@), k) == slot(want, k) by {
            assert(slot(members(hooks@), k) == unwired_slot(start, k));
        }
        lemma_same_slots(members(hooks@), want);
    }
    UnwireReport { events_cleared: cleared }
}

/// Remove this collector's hook from every event, and whatever that leaves empty. A user's own
/// hooks survive, and the `env` block is not touched.
pub fn unwire(settings: &mut Json) -> (rep: UnwireReport)
    ensures
        final(settings).view() == unwired(old(settings).view()),
        names(rep.events_cleared@) == cleared_events(old(settings).view()),
{
    if let Json::Object(obj) = settings {
        let at = find_member(obj, "hooks");
        if at < obj.len() {
            let found = match &obj[at].1 {
                Json::Object(hooks) => Some(dup_members(hooks)),
                _ => None,
            };
            if let Some(hooks) = found {
                let mut hooks = hooks;
                let rep = unwire_hooks(&mut hooks);
                proof {
                    crate::json::lemma_members_empty(hooks@);
                }
                if hooks.len() == 0 {
                    remove_member(obj, "hooks");
                } else {
                    set_member(obj, "hooks", Json::Object(hooks));
                }
                return rep;
            }
        }
    }
    let cleared: Vec<&'static str> = Vec::new();
    assert(names(cleared@) =~= Seq::<Seq<char>>::empty());
    UnwireReport { events_cleared: cleared }
}

} // verus!
