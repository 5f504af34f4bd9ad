//! What holds of wiring and unwiring a settings file, whatever the file holds.
use vstd::prelude::*;
use crate::claude_settings::{
    any_current, async_entry, cleaned, current_entry, current_group, dropped_entry, ensured,
    event_fate, group_entries, holds_ours, hook_group_tree, inert_group, lemma_same_slots,
    lemma_telemetry_default, object_at, our_command, our_entry, pruned, slot, stripped,
    stripped_group, strips, telemetry, telemetry_default, telemetry_keys, telemetry_missing,
    unwired, unwired_event, unwired_hooks, unwired_slot, vocabulary, wire_reported, wired,
    wired_env, wired_event, wired_hooks, wired_slot, EventFate, WireReport,
};
use crate::json::{tree_get, tree_get_str, Tree};
use crate::seqs::{lemma_filter_all, lemma_filter_none, lemma_filter_passes, lemma_filter_take};

verus! {

broadcast use vstd::map::group_map_axioms;

proof fn lemma_hook_group(command: Seq<char>)
    ensures
        group_entries(hook_group_tree(command)).len() == 1,
        current_entry(group_entries(hook_group_tree(command))[0], command),
        current_group(hook_group_tree(command), command),
        our_command(command) ==> our_entry(group_entries(hook_group_tree(command))[0]),
        !inert_group(hook_group_tree(command)),
{
    reveal_strlit("type");
    reveal_strlit("command");
    reveal_strlit("async");
    let g = hook_group_tree(command);
    assert("type"@.len() != "command"@.len());
    assert("type"@.len() != "async"@.len());
    assert("command"@.len() != "async"@.len());
    assert(tree_get(g, "hooks"@) is Some);
    let e = group_entries(g)[0];
    assert(tree_get_str(e, "command"@) == Some(command));
    assert(async_entry(e));
    assert(current_entry(group_entries(g)[0], command));
}

/// A group in which no entry is to go.
spec fn settled(g: Tree, keep: Option<Seq<char>>) -> bool {
    forall|j: int|
        0 <= j < group_entries(g).len() ==> !dropped_entry(#[trigger] group_entries(g)[j], keep)
}

proof fn lemma_stripped_settled(g: Tree, keep: Option<Seq<char>>)
    ensures
        settled(stripped_group(g, keep), keep),
        settled(g, keep) ==> stripped_group(g, keep) == g,
        group_entries(stripped_group(g, keep)) == group_entries(g).filter(
            |e: Tree| !dropped_entry(e, keep),
        ),
{
    let p = |e: Tree| !dropped_entry(e, keep);
    let s = stripped_group(g, keep);
    let v = group_entries(g);
    lemma_filter_passes(v, p);
    lemma_filter_none(v, p);
    if g is Obj && tree_get(g, "hooks"@) matches Some(Tree::Arr(_)) {
        assert(group_entries(s) == v.filter(p));
        assert forall|j: int| 0 <= j < group_entries(s).len() implies !dropped_entry(
            #[trigger] group_entries(s)[j],
            keep,
        ) by {
            assert(p(v.filter(p)[j]));
        }
        if settled(g, keep) {
            assert forall|i: int| 0 <= i < v.len() implies p(#[trigger] v[i]) by {
                assert(!dropped_entry(group_entries(g)[i], keep));
            }
            lemma_filter_all(v, p);
            let m = g->Obj_0;
            assert(m.insert("hooks"@, Tree::Arr(v)) =~= m);
        }
    } else {
        assert(v =~= Seq::<Tree>::empty());
    }
}

proof fn lemma_settled_groups(groups: Seq<Tree>, keep: Option<Seq<char>>)
    requires
        forall|i: int| 0 <= i < groups.len() ==> settled(#[trigger] groups[i], keep),
    ensures
        stripped(groups, keep) == groups,
        !strips(groups, keep),
{
    assert forall|i: int| 0 <= i < groups.len() implies stripped(groups, keep)[i] == groups[i] by {
        lemma_stripped_settled(groups[i], keep);
    }
    assert(stripped(groups, keep) =~= groups);
    if strips(groups, keep) {
        let (i, j) = choose|i: int, j: int|
            0 <= i < groups.len() && 0 <= j < group_entries(groups[i]).len() && dropped_entry(
                #[trigger] group_entries(groups[i])[j],
                keep,
            );
        assert(settled(groups[i], keep));
    }
}

proof fn lemma_pruned_stripped(groups: Seq<Tree>, keep: Option<Seq<char>>)
    ensures
        forall|i: int|
            0 <= i < pruned(stripped(groups, keep)).len() ==> settled(
                #[trigger] pruned(stripped(groups, keep))[i],
                keep,
            ) && !inert_group(pruned(stripped(groups, keep))[i]),
{
    let s = stripped(groups, keep);
    let q = |g: Tree| !inert_group(g);
    lemma_filter_passes(s, q);
    assert forall|i: int| 0 <= i < pruned(s).len() implies settled(#[trigger] pruned(s)[i], keep)
        && !inert_group(pruned(s)[i]) by {
        assert(q(s.filter(q)[i]));
        assert(s.contains(s.filter(q)[i]));
        let k = choose|k: int| 0 <= k < s.len() && s[k] == s.filter(q)[i];
        lemma_stripped_settled(groups[k], keep);
    }
}

proof fn lemma_ensured_twice(groups: Seq<Tree>, command: Seq<char>)
    ensures
        ensured(ensured(groups, command), command) == ensured(groups, command),
        any_current(cleaned(ensured(groups, command), command), command),
        !strips(ensured(groups, command), Some(command)),
        forall|i: int|
            0 <= i < ensured(groups, command).len() ==> settled(
                #[trigger] ensured(groups, command)[i],
                Some(command),
            ),
{
    let keep = Some(command);
    let c = cleaned(groups, command);
    let e = ensured(groups, command);
    let q = |g: Tree| !inert_group(g);
    lemma_pruned_stripped(groups, keep);
    lemma_hook_group(command);
    assert forall|i: int| 0 <= i < e.len() implies settled(#[trigger] e[i], keep) && q(e[i]) by {
        if i < c.len() {
            assert(e[i] == c[i]);
        } else {
            assert(e[i] == hook_group_tree(command));
        }
    }
    lemma_settled_groups(e, keep);
    lemma_filter_all(e, q);
    assert(cleaned(e, command) == e);
    if any_current(c, command) {
        assert(e == c);
    } else {
        assert(current_group(e[e.len() - 1], command));
    }
}

proof fn lemma_wired_event_twice(value: Option<Tree>, command: Seq<char>, active: bool)
    ensures
        wired_event(wired_event(value, command, active), command, active) == wired_event(
            value,
            command,
            active,
        ),
        event_fate(wired_event(value, command, active), command, active) != EventFate::Added,
        event_fate(wired_event(value, command, active), command, active) != EventFate::Cleared,
{
    if active {
        match value {
            None => {
                lemma_ensured_twice(Seq::<Tree>::empty(), command);
                let e = Seq::<Tree>::empty();
                let q = |g: Tree| !inert_group(g);
                assert(stripped(e, Some(command)) =~= e);
                lemma_filter_none(e, q);
                assert(ensured(e, command) =~= seq![hook_group_tree(command)]);
            },
            Some(Tree::Arr(groups)) => {
                lemma_ensured_twice(groups, command);
            },
            _ => {},
        }
    } else if let Some(Tree::Arr(groups)) = value {
        lemma_pruned_stripped(groups, None);
        lemma_settled_groups(pruned(stripped(groups, None)), None);
    }
}

proof fn lemma_wired_slot(
    hooks: Map<Seq<char>, Tree>,
    key: Seq<char>,
    command: Seq<char>,
    active: Seq<Seq<char>>,
)
    ensures
        slot(wired_hooks(hooks, command, active), key) == wired_slot(hooks, key, command, active),
{
}

proof fn lemma_wired_hooks_twice(
    hooks: Map<Seq<char>, Tree>,
    command: Seq<char>,
    active: Seq<Seq<char>>,
)
    ensures
        wired_hooks(wired_hooks(hooks, command, active), command, active) == wired_hooks(
            hooks,
            command,
            active,
        ),
{
    let once = wired_hooks(hooks, command, active);
    let twice = wired_hooks(once, command, active);
    assert forall|k: Seq<char>| #[trigger] slot(twice, k) == slot(once, k) by {
        lemma_wired_slot(hooks, k, command, active);
        lemma_wired_slot(once, k, command, active);
        lemma_wired_event_twice(slot(hooks, k), command, active.contains(k));
    }
    lemma_same_slots(twice, once);
}

proof fn lemma_wired_env_twice(env: Map<Seq<char>, Tree>)
    ensures
        wired_env(wired_env(env)) == wired_env(env),
        telemetry_missing(wired_env(env)) == Seq::<Seq<char>>::empty(),
{
    assert(wired_env(wired_env(env)) =~= wired_env(env));
    let p = |k: Seq<char>| !wired_env(env).contains_key(k);
    let keys = telemetry_keys();
    assert forall|i: int| 0 <= i < keys.len() implies !p(#[trigger] keys[i]) by {
        assert(crate::claude_settings::telemetry_index(keys[i], i));
        assert(telemetry_default(keys[i]) is Some);
    }
    lemma_filter_nothing(keys, p);
}

proof fn lemma_filter_nothing<A>(s: Seq<A>, p: spec_fn(A) -> bool)
    requires
        forall|i: int| 0 <= i < s.len() ==> !p(#[trigger] s[i]),
    ensures
        s.filter(p) == Seq::<A>::empty(),
{
    lemma_filter_passes(s, p);
    if s.filter(p).len() > 0 {
        let x = s.filter(p)[0];
        assert(p(x) && s.contains(x));
        let k = choose|k: int| 0 <= k < s.len() && s[k] == x;
        assert(!p(s[k]));
    }
    assert(s.filter(p) =~= Seq::<A>::empty());
}

proof fn lemma_keys_differ()
    ensures
        "env"@ != "hooks"@,
{
    reveal_strlit("env");
    reveal_strlit("hooks");
    assert("env"@.len() != "hooks"@.len());
}

/// Wiring is idempotent: wiring a file that is already wired for the same command and events
/// leaves it exactly as it is.
pub proof fn law_wire_is_idempotent(t: Tree, command: Seq<char>, active: Seq<Seq<char>>)
    ensures
        wired(wired(t, command, active), command, active) == wired(t, command, active),
{
    lemma_keys_differ();
    if let Tree::Obj(m) = t {
        let once = wired(t, command, active);
        let m1 = once->Obj_0;
        if let Some(env) = object_at(m, "env"@) {
            lemma_wired_env_twice(env);
            assert(slot(m1, "env"@) == Some(Tree::Obj(wired_env(env))));
        } else {
            assert(slot(m1, "env"@) == slot(m, "env"@));
        }
        if let Some(hooks) = object_at(m, "hooks"@) {
            lemma_wired_hooks_twice(hooks, command, active);
            assert(slot(m1, "hooks"@) == Some(Tree::Obj(wired_hooks(hooks, command, active))));
        } else {
            assert(slot(m1, "hooks"@) == slot(m, "hooks"@));
        }
        let m2 = wired(once, command, active)->Obj_0;
        assert(m2 =~= m1);
    }
}

/// A second run of wiring reports no change.
pub proof fn law_rewiring_reports_no_change(
    t: Tree,
    command: Seq<char>,
    active: Seq<Seq<char>>,
    rep: WireReport,
)
    requires
        wire_reported(rep, wired(t, command, active), command, active),
    ensures
        !rep.has_changes(),
{
    lemma_keys_differ();
    if let Tree::Obj(m) = t {
        let m1 = wired(t, command, active)->Obj_0;
        if let Some(env) = object_at(m, "env"@) {
            lemma_wired_env_twice(env);
            assert(object_at(m1, "env"@) == Some(wired_env(env)));
            assert(crate::claude_settings::names(rep.env_added@).len() == 0);
        } else {
            assert(object_at(m1, "env"@) is None);
        }
        if let Some(hooks) = object_at(m, "hooks"@) {
            let once = wired_hooks(hooks, command, active);
            assert(object_at(m1, "hooks"@) == Some(once));
            let added = |ev: Seq<char>|
                event_fate(slot(once, ev), command, active.contains(ev)) == EventFate::Added;
            let cleared = |ev: Seq<char>|
                event_fate(slot(once, ev), command, active.contains(ev)) == EventFate::Cleared;
            assert forall|i: int| 0 <= i < vocabulary().len() implies !added(
                #[trigger] vocabulary()[i],
            ) && !cleared(vocabulary()[i]) by {
                let ev = vocabulary()[i];
                lemma_wired_slot(hooks, ev, command, active);
                lemma_wired_event_twice(slot(hooks, ev), command, active.contains(ev));
            }
            lemma_filter_nothing(vocabulary(), added);
            lemma_filter_nothing(vocabulary(), cleared);
            assert(crate::claude_settings::names(rep.events_added@).len() == 0);
            assert(crate::claude_settings::names(rep.events_cleared@).len() == 0);
        } else {
            assert(object_at(m1, "hooks"@) is None);
        }
    }
}

/// Wiring never overwrites or drops an `env` value that the file sets.
pub proof fn law_wire_keeps_the_users_env(
    t: Tree,
    command: Seq<char>,
    active: Seq<Seq<char>>,
    key: Seq<char>,
)
    requires
        tree_get(t, "env"@) matches Some(env) && tree_get(env, key) is Some,
    ensures
        tree_get(wired(t, command, active), "env"@) matches Some(env) && tree_get(env, key)
            == tree_get(tree_get(t, "env"@)->0, key),
{
    lemma_keys_differ();
}

/// A settings member other than `env` and `hooks` is not touched by wiring, and only `hooks` is
/// touched by unwiring.
pub proof fn law_other_members_are_untouched(
    t: Tree,
    command: Seq<char>,
    active: Seq<Seq<char>>,
    key: Seq<char>,
)
    requires
        key != "hooks"@,
    ensures
        key != "env"@ ==> tree_get(wired(t, command, active), key) == tree_get(t, key),
        tree_get(unwired(t), key) == tree_get(t, key),
{
}

// ---------------------------------------------------------------------------------------------
// The user's own entries
// ---------------------------------------------------------------------------------------------

/// The entries of a list of groups that are not ours, in order.
pub open spec fn foreign_entries(groups: Seq<Tree>) -> Seq<Tree>
    decreases groups.len(),
{
    if groups.len() == 0 {
        Seq::empty()
    } else {
        foreign_entries(groups.drop_last()) + group_entries(groups.last()).filter(
            |e: Tree| !our_entry(e),
        )
    }
}

/// The entries of an event that are not ours.
pub open spec fn users_entries(value: Option<Tree>) -> Seq<Tree> {
    match value {
        Some(Tree::Arr(groups)) => foreign_entries(groups),
        _ => Seq::empty(),
    }
}

proof fn lemma_filter_of_filter(v: Seq<Tree>, keep: Option<Seq<char>>)
    ensures
        v.filter(|e: Tree| !dropped_entry(e, keep)).filter(|e: Tree| !our_entry(e)) == v.filter(
            |e: Tree| !our_entry(e),
        ),
    decreases v.len(),
{
    reveal(Seq::filter);
    let p = |e: Tree| !dropped_entry(e, keep);
    let q = |e: Tree| !our_entry(e);
    if v.len() > 0 {
        lemma_filter_of_filter(v.drop_last(), keep);
        if p(v.last()) {
            let f = v.drop_last().filter(p);
            assert(f.push(v.last()).drop_last() =~= f);
        }
    }
}

proof fn lemma_foreign_stripped(groups: Seq<Tree>, keep: Option<Seq<char>>)
    ensures
        foreign_entries(stripped(groups, keep)) == foreign_entries(groups),
    decreases groups.len(),
{
    if groups.len() > 0 {
        let s = stripped(groups, keep);
        assert(s.drop_last() =~= stripped(groups.drop_last(), keep));
        lemma_foreign_stripped(groups.drop_last(), keep);
        lemma_stripped_settled(groups.last(), keep);
        lemma_filter_of_filter(group_entries(groups.last()), keep);
    } else {
        assert(stripped(groups, keep) =~= groups);
    }
}

proof fn lemma_foreign_pruned(groups: Seq<Tree>)
    ensures
        foreign_entries(pruned(groups)) == foreign_entries(groups),
    decreases groups.len(),
{
    reveal(Seq::filter);
    let q = |g: Tree| !inert_group(g);
    if groups.len() > 0 {
        lemma_foreign_pruned(groups.drop_last());
        let p = pruned(groups.drop_last());
        let g = groups.last();
        if inert_group(g) {
            assert(group_entries(g) =~= Seq::<Tree>::empty());
            lemma_filter_none(group_entries(g), |e: Tree| !our_entry(e));
            assert(foreign_entries(groups) =~= foreign_entries(groups.drop_last()));
        } else {
            assert(pruned(groups) == p.push(g));
            assert(p.push(g).drop_last() =~= p);
        }
    } else {
        assert(pruned(groups) =~= groups);
    }
}

proof fn lemma_foreign_ensured(groups: Seq<Tree>, command: Seq<char>)
    requires
        our_command(command),
    ensures
        foreign_entries(ensured(groups, command)) == foreign_entries(groups),
{
    let c = cleaned(groups, command);
    lemma_foreign_stripped(groups, Some(command));
    lemma_foreign_pruned(stripped(groups, Some(command)));
    let g = hook_group_tree(command);
    lemma_hook_group(command);
    let q = |e: Tree| !our_entry(e);
    lemma_filter_nothing(group_entries(g), q);
    assert(c.push(g).drop_last() =~= c);
    assert(foreign_entries(c.push(g)) =~= foreign_entries(c));
}

/// Neither wiring nor unwiring adds, drops or reorders a hook entry that is not ours, on any
/// event.
pub proof fn law_users_hooks_survive(
    t: Tree,
    command: Seq<char>,
    active: Seq<Seq<char>>,
    hooks: Map<Seq<char>, Tree>,
    event: Seq<char>,
)
    requires
        our_command(command),
        tree_get(t, "hooks"@) == Some(Tree::Obj(hooks)),
    ensures
        tree_get(wired(t, command, active), "hooks"@) matches Some(after) && users_entries(
            tree_get(after, event),
        ) == users_entries(slot(hooks, event)),
        users_entries(
            match tree_get(unwired(t), "hooks"@) {
                Some(after) => tree_get(after, event),
                None => None,
            },
        ) == users_entries(slot(hooks, event)),
{
    lemma_keys_differ();
    let value = slot(hooks, event);
    lemma_wired_slot(hooks, event, command, active);
    let after = wired_hooks(hooks, command, active);
    assert(tree_get(wired(t, command, active), "hooks"@) == Some(Tree::Obj(after)));
    assert(tree_get(Tree::Obj(after), event) == slot(after, event));
    if let Some(Tree::Arr(groups)) = value {
        lemma_foreign_ensured(groups, command);
        lemma_foreign_stripped(groups, None);
        lemma_foreign_pruned(stripped(groups, None));
    } else if value is None {
        let e = Seq::<Tree>::empty();
        lemma_foreign_ensured(e, command);
        assert(stripped(e, Some(command)) =~= e);
        lemma_filter_none(e, |g: Tree| !inert_group(g));
        assert(ensured(e, command) =~= seq![hook_group_tree(command)]);
    }
    assert(slot(unwired_hooks(hooks), event) == unwired_slot(hooks, event));
    if unwired_hooks(hooks) == Map::<Seq<char>, Tree>::empty() {
        assert(slot(unwired_hooks(hooks), event) is None);
        assert(tree_get(unwired(t), "hooks"@) is None);
    }
}

/// After unwiring, no event of the vocabulary holds an entry of ours.
pub proof fn law_unwire_leaves_nothing_of_ours(t: Tree, hooks: Map<Seq<char>, Tree>, event: Seq<char>)
    requires
        vocabulary().contains(event),
        tree_get(unwired(t), "hooks"@) == Some(Tree::Obj(hooks)),
    ensures
        !holds_ours(slot(hooks, event)),
{
    let before = t->Obj_0["hooks"@]->Obj_0;
    assert(hooks == unwired_hooks(before));
    assert(slot(hooks, event) == unwired_event(slot(before, event)));
    if let Some(Tree::Arr(groups)) = slot(before, event) {
        lemma_pruned_stripped(groups, None);
        lemma_settled_groups(pruned(stripped(groups, None)), None);
    }
}

/// An event whose value wiring and unwiring give back unchanged: not a list, or a list of groups
/// that holds nothing of ours, no group that runs nothing, and at least one group.
pub open spec fn untouched_event(value: Option<Tree>) -> bool {
    match value {
        Some(Tree::Arr(groups)) => groups.len() > 0 && !strips(groups, None) && forall|i: int|
            0 <= i < groups.len() ==> !inert_group(#[trigger] groups[i]),
        _ => true,
    }
}

proof fn lemma_round_trip_event(value: Option<Tree>, command: Seq<char>, active: bool)
    requires
        our_command(command),
        untouched_event(value),
    ensures
        unwired_event(wired_event(value, command, active)) == value,
        unwired_event(value) == value,
{
    let q = |g: Tree| !inert_group(g);
    let g = hook_group_tree(command);
    lemma_hook_group(command);
    lemma_stripped_settled(g, None);
    assert(group_entries(stripped_group(g, None)) =~= Seq::<Tree>::empty()) by {
        lemma_filter_nothing(group_entries(g), |e: Tree| !dropped_entry(e, None));
    }
    assert(inert_group(stripped_group(g, None)));
    let groups = match value {
        Some(Tree::Arr(groups)) => groups,
        _ => Seq::<Tree>::empty(),
    };
    if value is None || value matches Some(Tree::Arr(_)) {
        assert forall|i: int| 0 <= i < groups.len() implies settled(#[trigger] groups[i], None)
            && settled(groups[i], Some(command)) by {
            assert forall|j: int| 0 <= j < group_entries(groups[i]).len() implies !dropped_entry(
                #[trigger] group_entries(groups[i])[j],
                None,
            ) by {}
            assert forall|j: int| 0 <= j < group_entries(groups[i]).len() implies !dropped_entry(
                #[trigger] group_entries(groups[i])[j],
                Some(command),
            ) by {
                assert(!dropped_entry(group_entries(groups[i])[j], None));
            }
        }
        lemma_settled_groups(groups, None);
        lemma_settled_groups(groups, Some(command));
        lemma_filter_all(groups, q);
        if any_current(groups, command) {
            let i = choose|i: int| 0 <= i < groups.len() && current_group(groups[i], command);
            let j = choose|j: int|
                0 <= j < group_entries(groups[i]).len() && current_entry(
                    group_entries(groups[i])[j],
                    command,
                );
            assert(dropped_entry(group_entries(groups[i])[j], None));
        }
        let after = groups.push(g);
        let s = stripped(after, None);
        assert(s =~= groups.push(stripped_group(g, None)));
        assert(s.take(groups.len() as int) =~= groups);
        assert(s.take(s.len() as int) =~= s);
        lemma_filter_take(s, groups.len() as int, q);
        assert(pruned(s) == groups);
        if value is None {
            assert(seq![g] =~= after);
        }
    }
}

/// Unwiring undoes what wiring did to the hooks: on a file that holds nothing of ours, no group
/// without hooks and no empty list, wiring and then unwiring gives every event back as it was.
pub proof fn law_unwire_undoes_wire(
    t: Tree,
    command: Seq<char>,
    active: Seq<Seq<char>>,
    hooks: Map<Seq<char>, Tree>,
    event: Seq<char>,
)
    requires
        our_command(command),
        t is Obj,
        object_at(t->Obj_0, "hooks"@) == Some(hooks),
        untouched_event(slot(hooks, event)),
    ensures
        match tree_get(unwired(wired(t, command, active)), "hooks"@) {
            Some(after) => tree_get(after, event),
            None => None,
        } == slot(hooks, event),
{
    lemma_keys_differ();
    lemma_round_trip_event(slot(hooks, event), command, active.contains(event));
    lemma_wired_slot(hooks, event, command, active);
    let w = wired_hooks(hooks, command, active);
    assert(slot(unwired_hooks(w), event) == unwired_slot(w, event));
    if unwired_hooks(w) == Map::<Seq<char>, Tree>::empty() {
        assert(slot(unwired_hooks(w), event) is None);
    }
}

/// Unwiring a file none of whose events unwiring would touch leaves it as it is; an empty `hooks`
/// object is the one thing that still goes.
pub proof fn law_unwire_of_an_unwired_file_changes_nothing(t: Tree)
    requires
        tree_get(t, "hooks"@) matches Some(Tree::Obj(hooks)) ==> hooks != Map::<
            Seq<char>,
            Tree,
        >::empty() && forall|ev: Seq<char>| untouched_event(#[trigger] slot(hooks, ev)),
    ensures
        unwired(t) == t,
{
    if let Tree::Obj(m) = t {
        if let Some(Tree::Obj(hooks)) = slot(m, "hooks"@) {
            let after = unwired_hooks(hooks);
            assert forall|k: Seq<char>| #[trigger] slot(after, k) == slot(hooks, k) by {
                assert(slot(after, k) == unwired_slot(hooks, k));
                assert(untouched_event(slot(hooks, k)));
                if let Some(Tree::Arr(groups)) = slot(hooks, k) {
                    assert forall|i: int| 0 <= i < groups.len() implies settled(
                        #[trigger] groups[i],
                        None,
                    ) by {
                        assert forall|j: int|
                            0 <= j < group_entries(groups[i]).len() implies !dropped_entry(
                            #[trigger] group_entries(groups[i])[j],
                            None,
                        ) by {}
                    }
                    lemma_settled_groups(groups, None);
                    lemma_filter_all(groups, |g: Tree| !inert_group(g));
                }
            }
            lemma_same_slots(after, hooks);
            assert(m.insert("hooks"@, Tree::Obj(hooks)) =~= m);
        }
    }
}

/// Wiring wires: an active event has, after it, an entry that runs the command without the session
/// waiting for it, whatever list of groups the file had for it, or none.
pub proof fn law_an_active_event_runs_the_command(
    t: Tree,
    command: Seq<char>,
    active: Seq<Seq<char>>,
    hooks: Map<Seq<char>, Tree>,
    event: Seq<char>,
)
    requires
        t is Obj,
        object_at(t->Obj_0, "hooks"@) == Some(hooks),
        vocabulary().contains(event),
        active.contains(event),
        slot(hooks, event) matches Some(v) ==> v is Arr,
    ensures
        tree_get(wired(t, command, active), "hooks"@) matches Some(Tree::Obj(after)) && slot(
            after,
            event,
        ) matches Some(Tree::Arr(groups)) && exists|i: int, j: int|
            #![trigger groups[i], group_entries(groups[i])[j]]
            0 <= i < groups.len() && 0 <= j < group_entries(groups[i]).len() && tree_get(
                group_entries(groups[i])[j],
                "command"@,
            ) == Some(Tree::Str(command)) && tree_get(group_entries(groups[i])[j], "async"@)
                == Some(Tree::Bool(true)),
{
    lemma_keys_differ();
    lemma_wired_slot(hooks, event, command, active);
    let after = wired_hooks(hooks, command, active);
    assert(tree_get(wired(t, command, active), "hooks"@) == Some(Tree::Obj(after)));
    let groups = slot(after, event)->0->Arr_0;
    lemma_hook_group(command);
    if slot(hooks, event) is None {
        assert(groups[0] == hook_group_tree(command));
        assert(current_group(groups[0], command));
    } else {
        let c = cleaned(slot(hooks, event)->0->Arr_0, command);
        if !any_current(c, command) {
            assert(groups[c.len() as int] == hook_group_tree(command));
        }
    }
    assert(any_current(groups, command));
    let i = choose|i: int| 0 <= i < groups.len() && current_group(#[trigger] groups[i], command);
    let j = choose|j: int|
        0 <= j < group_entries(groups[i]).len() && current_entry(
            #[trigger] group_entries(groups[i])[j],
            command,
        );
    assert(tree_get(group_entries(groups[i])[j], "command"@) == Some(Tree::Str(command)));
}

/// An event that is not active holds, after wiring, no entry of ours.
pub proof fn law_an_inactive_event_runs_nothing_of_ours(
    t: Tree,
    command: Seq<char>,
    active: Seq<Seq<char>>,
    hooks: Map<Seq<char>, Tree>,
    event: Seq<char>,
)
    requires
        vocabulary().contains(event),
        !active.contains(event),
        t is Obj,
        object_at(t->Obj_0, "hooks"@) == Some(hooks),
    ensures
        tree_get(wired(t, command, active), "hooks"@) matches Some(Tree::Obj(after)) && !holds_ours(
            slot(after, event),
        ),
{
    lemma_keys_differ();
    lemma_wired_slot(hooks, event, command, active);
    let after = wired_hooks(hooks, command, active);
    assert(tree_get(wired(t, command, active), "hooks"@) == Some(Tree::Obj(after)));
    if let Some(Tree::Arr(groups)) = slot(hooks, event) {
        if strips(groups, None) {
            lemma_pruned_stripped(groups, None);
            lemma_settled_groups(pruned(stripped(groups, None)), None);
        }
    }
}

/// Wiring sets every variable of the telemetry block that the file does not set, to its value.
pub proof fn law_every_variable_is_set(
    t: Tree,
    command: Seq<char>,
    active: Seq<Seq<char>>,
    env: Map<Seq<char>, Tree>,
    i: int,
)
    requires
        t is Obj,
        object_at(t->Obj_0, "env"@) == Some(env),
        0 <= i < telemetry().len(),
        !env.contains_key(telemetry()[i].0),
    ensures
        tree_get(wired(t, command, active), "env"@) matches Some(Tree::Obj(after)) && slot(
            after,
            telemetry()[i].0,
        ) == Some(Tree::Str(telemetry()[i].1)),
{
    lemma_keys_differ();
    lemma_telemetry_default(i);
    assert(tree_get(wired(t, command, active), "env"@) == Some(Tree::Obj(wired_env(env))));
}

} // verus!
