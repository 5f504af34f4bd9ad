//! Which lifecycle events a registry needs, and the settings block that wires them.
use vstd::prelude::*;
use crate::claude_settings::{
    hook_group, hook_group_tree, names, telemetry, vocabulary, EVENTS, TELEMETRY_ENV,
};
use crate::json::{compact, compact_text, Json, Tree};
use crate::registry::{binding_events, bindings_of, ref_models, Registry, RegistryModel};
use crate::seqs::{lemma_filter_none, lemma_filter_take};
use crate::sorted::sorted_set;
use crate::text::{cat4, cat5, join, joined, owned, same, views};

verus! {

/// An event that has to be wired: the session start, which the session index needs, or one that a
/// binding consumes.
pub open spec fn needed(reg: RegistryModel, event: Seq<char>) -> bool {
    event == "SessionStart"@ || bindings_of(reg.bindings, event).len() > 0
}

/// The events to wire for a registry, in the order of the vocabulary.
pub fn active_events(registry: &Registry) -> (r: Vec<&'static str>)
    ensures
        names(r@) == vocabulary().filter(|ev: Seq<char>| needed(registry.model(), ev)),
{
    let ghost p = |ev: Seq<char>| needed(registry.model(), ev);
    let mut out: Vec<&'static str> = Vec::new();
    let mut i: usize = 0;
    proof {
        lemma_filter_none(vocabulary(), p);
        assert(names(out@) =~= Seq::<Seq<char>>::empty());
    }
    while i < EVENTS.len()
        invariant
            0 <= i <= EVENTS@.len(),
            p == (|ev: Seq<char>| needed(registry.model(), ev)),
            names(out@) == vocabulary().take(i as int).filter(p),
        decreases EVENTS@.len() - i,
    {
        let ev: &'static str = EVENTS[i];
        proof {
            lemma_filter_take(vocabulary(), i as int, p);
            assert(vocabulary()[i as int] == ev@);
        }
        let found = registry.bindings_for(ev);
        assert(ref_models(found@).len() == found.len());
        if same(ev, "SessionStart") || found.len() > 0 {
            let ghost held = out@;
            out.push(ev);
            assert(names(out@) =~= names(held).push(ev@));
        }
        i = i + 1;
    }
    assert(vocabulary().take(vocabulary().len() as int) =~= vocabulary());
    out
}

/// The events that some binding names and that cannot be wired, ascending, each once.
pub open spec fn unwireable_events(reg: RegistryModel) -> Seq<Seq<char>> {
    sorted_set(binding_events(reg.bindings)).filter(|ev: Seq<char>| !vocabulary().contains(ev))
}

fn in_vocabulary(event: &str) -> (r: bool)
    ensures
        r == vocabulary().contains(event@),
{
    let mut i: usize = 0;
    while i < EVENTS.len()
        invariant
            0 <= i <= EVENTS@.len(),
            forall|k: int| 0 <= k < i ==> #[trigger] vocabulary()[k] != event@,
        decreases EVENTS@.len() - i,
    {
        assert(vocabulary()[i as int] == EVENTS@[i as int]@);
        if same(EVENTS[i], event) {
            return true;
        }
        i = i + 1;
    }
    false
}

/// The events that a binding names and that the hook can never be wired to, so that the binding
/// would silently collect nothing.
pub fn unwireable_bindings(registry: &Registry) -> (r: Vec<String>)
    ensures
        views(r@) == unwireable_events(registry.model()),
{
    let bound = registry.bound_events();
    let ghost p = |ev: Seq<char>| !vocabulary().contains(ev);
    let mut out: Vec<String> = Vec::new();
    let mut i: usize = 0;
    proof {
        lemma_filter_none(views(bound@), p);
        assert(views(out@) =~= Seq::<Seq<char>>::empty());
    }
    while i < bound.len()
        invariant
            0 <= i <= bound.len(),
            p == (|ev: Seq<char>| !vocabulary().contains(ev)),
            views(out@) == views(bound@).take(i as int).filter(p),
        decreases bound.len() - i,
    {
        proof {
            lemma_filter_take(views(bound@), i as int, p);
            assert(views(bound@)[i as int] == bound@[i as int]@);
        }
        if !in_vocabulary(&bound[i]) {
            let ghost held = out@;
            out.push(owned(&bound[i]));
            assert(views(out@) =~= views(held).push(bound@[i as int]@));
        }
        i = i + 1;
    }
    assert(views(bound@).take(bound.len() as int) =~= views(bound@));
    out
}

/// A string as a JSON literal.
pub open spec fn quoted(s: Seq<char>) -> Seq<char> {
    compact_text(Tree::Str(s))
}

fn quote(s: &str) -> (r: String)
    ensures
        r@ == quoted(s@),
{
    compact(&Json::text(s))
}

/// The lines of the `env` block.
pub open spec fn env_lines() -> Seq<Seq<char>> {
    Seq::new(
        telemetry().len(),
        |i: int| "    "@ + quoted(telemetry()[i].0) + ": "@ + quoted(telemetry()[i].1),
    )
}

/// The lines of the `hooks` block.
pub open spec fn hook_lines(command: Seq<char>, events: Seq<Seq<char>>) -> Seq<Seq<char>> {
    Seq::new(
        events.len(),
        |i: int|
            "    "@ + quoted(events[i]) + ": ["@ + compact_text(hook_group_tree(command)) + "]"@,
    )
}

/// The settings block that wires `command` to `events`.
pub open spec fn snippet(command: Seq<char>, events: Seq<Seq<char>>) -> Seq<char> {
    "{\n  \"env\": {\n"@ + joined(env_lines(), ",\n"@) + "\n  },\n  \"hooks\": {\n"@ + joined(
        hook_lines(command, events),
        ",\n"@,
    ) + "\n  }\n}\n"@
}

/// Render the paste-ready settings block: the `env` and `hooks` that wiring merges.
pub fn render_snippet(hook_cmd: &str, events: &[&'static str]) -> (r: String)
    ensures
        r@ == snippet(hook_cmd@, names(events@)),
{
    let mut env: Vec<String> = Vec::new();
    let mut i: usize = 0;
    while i < TELEMETRY_ENV.len()
        invariant
            0 <= i <= TELEMETRY_ENV@.len(),
            env.len() == i,
            forall|k: int| 0 <= k < i ==> (#[trigger] env@[k])@ == env_lines()[k],
        decreases TELEMETRY_ENV@.len() - i,
    {
        let (key, value, _) = TELEMETRY_ENV[i];
        env.push(cat4("    ", &quote(key), ": ", &quote(value)));
        i = i + 1;
    }
    assert(views(env@) =~= env_lines());
    let group = compact(&hook_group(hook_cmd));
    let mut hooks: Vec<String> = Vec::new();
    let mut j: usize = 0;
    while j < events.len()
        invariant
            0 <= j <= events.len(),
            hooks.len() == j,
            group@ == compact_text(hook_group_tree(hook_cmd@)),
            forall|k: int|
                0 <= k < j ==> (#[trigger] hooks@[k])@ == hook_lines(hook_cmd@, names(events@))[k],
        decreases events.len() - j,
    {
        hooks.push(cat5("    ", &quote(events[j]), ": [", &group, "]"));
        j = j + 1;
    }
    assert(views(hooks@) =~= hook_lines(hook_cmd@, names(events@)));
    cat5(
        "{\n  \"env\": {\n",
        &join(&env, ",\n"),
        "\n  },\n  \"hooks\": {\n",
        &join(&hooks, ",\n"),
        "\n  }\n}\n",
    )
}

} // verus!
