//! What one lifecycle event leads to: which records it makes, and what has to be looked up for
//! them first.
//!
//! The caller reads the event, resolves the project and the git branch, and writes the records;
//! the decisions are taken here.
use vstd::prelude::*;
use crate::error::{Error, ErrorModel};
use crate::json::{
    members, parse, parsed, set_member, tree_get, tree_get_str, Json, Tree,
};
use crate::model::{
    enveloped, envelope_agrees, envelope_at, make_envelope, Envelope, EnvelopeModel, Payload,
};
use crate::registry::{
    base_name, basename, bindings_of, find_kind, map_models, mapped, ref_models, BindingModel,
    HookBinding, MapModel, Registry, RegistryModel,
};
use crate::text::{
    cat2, list_contains, opt_str_view, opt_view, owned, same, strip_prefix, without_prefix,
};

verus! {

broadcast use vstd::map::group_map_axioms;

/// The string member of an event, empty where it has none.
pub open spec fn text_of(event: Tree, key: Seq<char>) -> Seq<char> {
    match tree_get_str(event, key) {
        Some(s) => s,
        None => Seq::empty(),
    }
}

/// The string member `key` of an event, empty where it has none.
pub fn string_field(event: &Json, key: &str) -> (r: String)
    ensures
        r@ == text_of(event.view(), key@),
{
    match event.get_str(key) {
        Some(s) => owned(s),
        None => {
            let s = String::new();
            assert(s@ =~= Seq::<char>::empty());
            s
        },
    }
}

/// The event of a text. One that cannot be read is no event: a hook never fails on its input.
pub fn event_of(text: &str) -> (r: Json)
    ensures
        r.view() == (match parsed(text@) {
            Ok(t) => t,
            Err(_) => Tree::Null,
        }),
{
    match parse(text) {
        Ok(t) => t,
        Err(_) => Json::Null,
    }
}

/// Whether an event names itself; one that does not leads to nothing.
pub fn is_named(event: &Json) -> (r: bool)
    ensures
        r == (text_of(event.view(), "hook_event_name"@).len() > 0),
{
    !string_field(event, "hook_event_name").as_str().is_empty()
}

/// Some field map of a binding reads `key`.
pub open spec fn binding_reads(b: BindingModel, key: Seq<char>) -> bool {
    exists|i: int|
        0 <= i < b.map.len() && ((#[trigger] b.map[i]).1.from matches Some(keys) && keys.contains(
            key,
        ))
}

/// The bindings that an event fires; one without a name fires none.
pub open spec fn fired(event: Tree, reg: RegistryModel) -> Seq<BindingModel> {
    let name = text_of(event, "hook_event_name"@);
    if name.len() == 0 {
        Seq::empty()
    } else {
        bindings_of(reg.bindings, name)
    }
}

/// Some binding that the event fires reads `key`.
pub open spec fn event_reads(event: Tree, reg: RegistryModel, key: Seq<char>) -> bool {
    exists|i: int|
        0 <= i < fired(event, reg).len() && binding_reads(#[trigger] fired(event, reg)[i], key)
}

/// The git branch has to be looked up: a binding of the event reads it, and the event is an object
/// that does not carry it already.
pub open spec fn wants_branch(event: Tree, reg: RegistryModel) -> bool {
    event_reads(event, reg, "git_branch"@) && event is Obj && tree_get(event, "git_branch"@) is None
}

fn fired_bindings<'a>(event: &Json, reg: &'a Registry) -> (r: Vec<&'a HookBinding>)
    ensures
        ref_models(r@) == fired(event.view(), reg.model()),
{
    let name = string_field(event, "hook_event_name");
    if name.as_str().is_empty() {
        let none: Vec<&HookBinding> = Vec::new();
        assert(ref_models(none@) =~= Seq::<BindingModel>::empty());
        none
    } else {
        reg.bindings_for(&name)
    }
}

fn reads(binding: &HookBinding, key: &str) -> (r: bool)
    ensures
        r == binding_reads(binding.model(), key@),
{
    let ghost maps = map_models(binding.map@);
    let mut i: usize = 0;
    while i < binding.map.len()
        invariant
            0 <= i <= binding.map.len(),
            maps == map_models(binding.map@),
            forall|k: int|
                0 <= k < i ==> !((#[trigger] maps[k]).1.from matches Some(keys) && keys.contains(
                    key@,
                )),
        decreases binding.map.len() - i,
    {
        assert(maps[i as int] == (binding.map@[i as int].0@, binding.map@[i as int].1.model()));
        if binding.map[i].1.references(key) {
            assert(binding.model().map[i as int] == maps[i as int]);
            return true;
        }
        i = i + 1;
    }
    false
}

/// Whether the git branch has to be looked up for an event.
pub fn needs_branch(event: &Json, reg: &Registry) -> (r: bool)
    ensures
        r == wants_branch(event.view(), reg.model()),
{
    let bindings = fired_bindings(event, reg);
    let ghost all = fired(event.view(), reg.model());
    let mut found: bool = false;
    let mut i: usize = 0;
    while i < bindings.len()
        invariant
            0 <= i <= bindings.len(),
            ref_models(bindings@) == all,
            found == exists|k: int| 0 <= k < i && binding_reads(#[trigger] all[k], "git_branch"@),
        decreases bindings.len() - i,
    {
        assert(all[i as int] == bindings@[i as int].model());
        if reads(bindings[i], "git_branch") {
            found = true;
        }
        i = i + 1;
    }
    assert(bindings.len() == all.len());
    match event {
        Json::Object(_) => found && event.get("git_branch").is_none(),
        _ => false,
    }
}

/// An event with its git branch.
pub open spec fn with_branch(event: Tree, branch: Seq<char>) -> Tree {
    match event {
        Tree::Obj(m) => Tree::Obj(m.insert("git_branch"@, Tree::Str(branch))),
        _ => event,
    }
}

/// Put the git branch into an event.
pub fn inject_branch(event: &mut Json, branch: &str)
    ensures
        final(event).view() == with_branch(old(event).view(), branch@),
{
    if let Json::Object(m) = event {
        set_member(m, "git_branch", Json::text(branch));
    }
}

/// The skill that a call of the skill tool names. Another tool's input is not looked into, and a
/// name that is not one text is none.
pub open spec fn skill_of(event: Tree) -> Option<Seq<char>> {
    if tree_get_str(event, "tool_name"@) == Some("Skill"@) {
        match tree_get(event, "tool_input"@) {
            Some(input) => tree_get_str(input, "skill"@),
            None => None,
        }
    } else {
        None
    }
}

/// A path as it stands in its repository: relative to the root where it lies under it, and only the
/// final component where it does not, so that no place outside is told.
pub open spec fn repo_path(path: Seq<char>, root: Option<Seq<char>>) -> Seq<char> {
    match root {
        Some(r) => match without_prefix(path, r + "/"@) {
            Some(rest) => if rest.len() > 0 {
                rest
            } else {
                base_name(path)
            },
            None => base_name(path),
        },
        None => base_name(path),
    }
}

/// The path that a member of an event names, as it stands in the repository.
pub open spec fn repo_member(event: Tree, key: Seq<char>, root: Option<Seq<char>>) -> Option<
    Seq<char>,
> {
    match tree_get_str(event, key) {
        Some(path) => Some(repo_path(path, root)),
        None => None,
    }
}

/// An event with one member more, where there is a value for it and the event has no such member.
pub open spec fn with_new(event: Tree, key: Seq<char>, value: Option<Seq<char>>) -> Tree {
    match (event, value) {
        (Tree::Obj(m), Some(v)) => if m.contains_key(key) {
            event
        } else {
            Tree::Obj(m.insert(key, Tree::Str(v)))
        },
        _ => event,
    }
}

/// An event with what can be told from it: the skill it invoked, and its paths as they stand in the
/// repository.
pub open spec fn derived(event: Tree, root: Option<Seq<char>>) -> Tree {
    with_new(
        with_new(
            with_new(
                with_new(event, "invoked_skill"@, skill_of(event)),
                "repo_file_path"@,
                repo_member(event, "file_path"@, root),
            ),
            "repo_trigger_file_path"@,
            repo_member(event, "trigger_file_path"@, root),
        ),
        "repo_parent_file_path"@,
        repo_member(event, "parent_file_path"@, root),
    )
}

fn invoked_skill(event: &Json) -> (r: Option<String>)
    ensures
        opt_view(r) == skill_of(event.view()),
{
    let skilled = match event.get_str("tool_name") {
        Some(tool) => same(tool, "Skill"),
        None => false,
    };
    if !skilled {
        return None;
    }
    match event.get("tool_input") {
        Some(input) => match input.get_str("skill") {
            Some(skill) => Some(owned(skill)),
            None => None,
        },
        None => None,
    }
}

fn path_in_repo(event: &Json, key: &str, root: Option<&str>) -> (r: Option<String>)
    ensures
        opt_view(r) == repo_member(event.view(), key@, opt_str_view(root)),
{
    let path = match event.get_str(key) {
        Some(path) => path,
        None => {
            return None;
        },
    };
    if let Some(r) = root {
        if let Some(rest) = strip_prefix(path, &cat2(r, "/")) {
            if !rest.as_str().is_empty() {
                return Some(rest);
            }
        }
    }
    Some(basename(path))
}

fn add_new(event: &mut Json, key: &str, value: Option<String>)
    ensures
        final(event).view() == with_new(old(event).view(), key@, opt_view(value)),
{
    if event.get(key).is_some() {
        return;
    }
    if let Json::Object(m) = event {
        if let Some(v) = value {
            set_member(m, key, Json::Str(v));
        }
    }
}

/// Put into an event what can be told from it and from the root of the working tree it happened in.
pub fn inject_derived(event: &mut Json, root: Option<&str>)
    ensures
        final(event).view() == derived(old(event).view(), opt_str_view(root)),
{
    let skill = invoked_skill(event);
    let file = path_in_repo(event, "file_path", root);
    let trigger = path_in_repo(event, "trigger_file_path", root);
    let parent = path_in_repo(event, "parent_file_path", root);
    add_new(event, "invoked_skill", skill);
    add_new(event, "repo_file_path", file);
    add_new(event, "repo_trigger_file_path", trigger);
    add_new(event, "repo_parent_file_path", parent);
}

/// A path under the root of a repository is stored relative to it.
pub proof fn law_a_repository_path_is_relative(root: Seq<char>, rest: Seq<char>)
    requires
        rest.len() > 0,
    ensures
        repo_path(root + "/"@ + rest, Some(root)) == rest,
{
    let path = root + "/"@ + rest;
    let front = root + "/"@;
    assert(path.subrange(0, front.len() as int) =~= front);
    assert(path.skip(front.len() as int) =~= rest);
}

/// What an event says itself is never replaced by what is told from it.
pub proof fn law_an_event_keeps_its_members(
    m: Map<Seq<char>, Tree>,
    root: Option<Seq<char>>,
    key: Seq<char>,
)
    requires
        m.contains_key(key),
    ensures
        derived(Tree::Obj(m), root) matches Tree::Obj(n) && n.contains_key(key) && n[key] == m[key],
{
}

/// The session that an event starts: only a session start establishes one, and only with an id.
pub open spec fn started(event: Tree) -> Option<Seq<char>> {
    let id = text_of(event, "session_id"@);
    if text_of(event, "hook_event_name"@) == "SessionStart"@ && id.len() > 0 {
        Some(id)
    } else {
        None
    }
}

/// The id of the session that an event starts, to be recorded in the session index.
pub fn started_session(event: &Json) -> (r: Option<String>)
    ensures
        crate::text::opt_view(r) == started(event.view()),
{
    let name = string_field(event, "hook_event_name");
    let id = string_field(event, "session_id");
    if same(&name, "SessionStart") && !id.as_str().is_empty() {
        Some(id)
    } else {
        None
    }
}

/// The members that the field maps take from an event.
pub open spec fn mapped_members(map: Seq<(Seq<char>, MapModel)>, event: Tree) -> Map<Seq<char>, Tree>
    decreases map.len(),
{
    if map.len() == 0 {
        Map::empty()
    } else {
        let rest = mapped_members(map.drop_last(), event);
        match mapped(map.last().1, event) {
            Some(v) => rest.insert(map.last().0, v),
            None => rest,
        }
    }
}

/// A Kind that records the project.
pub open spec fn records_project(reg: RegistryModel, kind: Seq<char>) -> bool {
    find_kind(reg.kinds, kind) matches Some(k) && k.fields.contains("project"@)
}

/// The payload that a binding makes of an event: the mapped fields, and the project's label where
/// the Kind declares it.
pub open spec fn bound_payload(
    b: BindingModel,
    event: Tree,
    reg: RegistryModel,
    label: Seq<char>,
) -> Map<Seq<char>, Tree> {
    let fields = mapped_members(b.map, event);
    if records_project(reg, b.kind) {
        fields.insert("project"@, Tree::Str(label))
    } else {
        fields
    }
}

fn payload_for(binding: &HookBinding, event: &Json, reg: &Registry, label: &str) -> (r: Payload)
    ensures
        members(r@) == bound_payload(binding.model(), event.view(), reg.model(), label@),
{
    let ghost maps = map_models(binding.map@);
    let mut payload: Payload = Vec::new();
    let mut i: usize = 0;
    assert(maps.take(0) =~= Seq::<(Seq<char>, MapModel)>::empty());
    while i < binding.map.len()
        invariant
            0 <= i <= binding.map.len(),
            maps == map_models(binding.map@),
            members(payload@) == mapped_members(maps.take(i as int), event.view()),
        decreases binding.map.len() - i,
    {
        proof {
            assert(maps.take(i + 1).drop_last() =~= maps.take(i as int));
            assert(maps.take(i + 1).last() == (
                binding.map@[i as int].0@,
                binding.map@[i as int].1.model(),
            ));
        }
        if let Some(value) = binding.map[i].1.apply(event) {
            set_member(&mut payload, &binding.map[i].0, value);
        }
        i = i + 1;
    }
    assert(maps.take(binding.map.len() as int) =~= maps);
    if let Some(spec) = reg.kind(&binding.kind) {
        if list_contains(&spec.fields, "project") {
            set_member(&mut payload, "project", Json::text(label));
        }
    }
    payload
}

/// The record that a binding makes of an event at a given time, or why it is refused.
pub open spec fn bound_record(
    b: BindingModel,
    event: Tree,
    reg: RegistryModel,
    label: Seq<char>,
    strict: bool,
    ts: Seq<char>,
) -> Result<EnvelopeModel, ErrorModel> {
    enveloped(b.kind, bound_payload(b, event, reg, label), reg, strict, ts)
}

/// The record that a binding makes of an event, stamped with the given time.
pub fn record_at(
    binding: &HookBinding,
    event: &Json,
    reg: &Registry,
    label: &str,
    strict: bool,
    ts: String,
) -> (r: Result<Envelope, Error>)
    ensures
        envelope_agrees(
            r,
            bound_record(binding.model(), event.view(), reg.model(), label@, strict, ts@),
        ),
{
    let payload = payload_for(binding, event, reg, label);
    envelope_at(&binding.kind, payload, reg, strict, ts)
}

/// An outcome is the record of a binding, stamped with some time.
pub open spec fn stamped(
    r: Result<Envelope, Error>,
    b: BindingModel,
    event: Tree,
    reg: RegistryModel,
    label: Seq<char>,
    strict: bool,
) -> bool {
    exists|ts: Seq<char>| #[trigger]
        envelope_agrees(r, bound_record(b, event, reg, label, strict, ts))
}

/// The records that an event makes: one for each of its bindings, in order, each stamped with the
/// time at which it is made. `label` is the project's label, empty where there is no project.
pub fn process_event(event: &Json, reg: &Registry, label: &str, strict: bool) -> (r: Vec<
    Result<Envelope, Error>,
>)
    ensures
        ({
            let bindings = fired(event.view(), reg.model());
            &&& r@.len() == bindings.len()
            &&& forall|i: int|
                0 <= i < bindings.len() ==> stamped(
                    #[trigger] r@[i],
                    bindings[i],
                    event.view(),
                    reg.model(),
                    label@,
                    strict,
                )
        }),
{
    let bindings = fired_bindings(event, reg);
    let ghost all = fired(event.view(), reg.model());
    let mut out: Vec<Result<Envelope, Error>> = Vec::new();
    let mut i: usize = 0;
    while i < bindings.len()
        invariant
            0 <= i <= bindings.len(),
            ref_models(bindings@) == all,
            out@.len() == i,
            forall|k: int|
                0 <= k < i ==> stamped(
                    #[trigger] out@[k],
                    all[k],
                    event.view(),
                    reg.model(),
                    label@,
                    strict,
                ),
        decreases bindings.len() - i,
    {
        assert(all[i as int] == bindings@[i as int].model());
        let payload = payload_for(bindings[i], event, reg, label);
        let ghost fields = members(payload@);
        let made = make_envelope(&bindings[i].kind, payload, reg, strict);
        proof {
            let kind = bindings@[i as int].kind@;
            let ts = choose|ts: Seq<char>| #[trigger]
                envelope_agrees(made, enveloped(kind, fields, reg.model(), strict, ts));
            assert(envelope_agrees(
                made,
                bound_record(all[i as int], event.view(), reg.model(), label@, strict, ts),
            ));
        }
        out.push(made);
        i = i + 1;
    }
    out
}

} // verus!
