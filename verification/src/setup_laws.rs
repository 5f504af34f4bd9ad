//! What setting up finds and does: which receiver is local, which hook is ours, which scope decides,
//! and what is written, printed and refused.
use vstd::prelude::*;
use crate::claude_settings::{
    any_current, async_entry, cleaned, cleared_events, differing, differing_upto, endpoint_host,
    env_reported, event_fate, events_with, graded, group_entries, holds_ours, hooks_reported,
    lines_view, local_receiver, names, object_at, our_command, our_entry, protocol_line,
    reaches_local, signal_endpoint, slot, strips, telemetry, telemetry_keys, unwired, vocabulary,
    wire_reported, wired_env, wired_event, EventFate, WireReport, HOOK_BIN,
};
use crate::export::{header_pair, header_pairs, ExportConfig, ExportMode, FilterModel};
use crate::init::{
    base_of, broken_lines, captured, dropped_lines, dropped_pieces, file_text, front_of,
    insert_fault, listing_line, plan_after, removal, unwireable_line, unwireable_lines, FrontModel,
    InsertMode, LineModel, Scope,
};
use crate::json::{compact_text, pretty_text, tree_get, tree_items, Tree};
use crate::project::joined_path;
use crate::scopes::{
    answered_version, blocks_at, distinct, effective, entry_commands, event_commands, event_groups,
    group_commands, honored_commands, hook_blocked, judged, managed_only, ours_at, place_of,
    scope_commands, scope_env, scope_get, scope_ours, scope_ours_at, scope_wires, wiring_of, Env,
    HookBuild, Load, Places, ScopeModel, Wiring,
};
use crate::seqs::lemma_filter_holds;
use crate::text::{
    after_last, before_first, is_blank, joined, opt_view, pieces, same_letters, trimmed,
    without_prefix,
};
use crate::text_laws::{
    law_a_beginning_ends_before_the_first, law_a_prefix_is_taken_off,
    law_an_end_begins_behind_the_last, law_last_halves_stand_around_the_last,
    law_trimming_takes_the_white_space_around,
};

verus! {

broadcast use vstd::map::group_map_axioms;

// ---------------------------------------------------------------------------------------------
// Endpoints and commands
// ---------------------------------------------------------------------------------------------

proof fn lemma_before(s: Seq<char>, a: Seq<char>, c: char, b: Seq<char>)
    requires
        s == a + seq![c] + b,
        !a.contains(c),
    ensures
        before_first(s, c) == a,
{
    law_a_beginning_ends_before_the_first(s, c);
    let x = before_first(s, c);
    assert(s.subrange(0, x.len() as int) == x);
    assert(s[a.len() as int] == c);
    assert(x.len() == a.len()) by {
        if x.len() > a.len() {
            assert(x[a.len() as int] == c);
            assert(x.contains(c));
        }
        if x.len() < a.len() {
            assert(s[x.len() as int] == a[x.len() as int]);
            assert(a.contains(c));
        }
    }
    assert(s.subrange(0, x.len() as int) =~= a);
}

/// An endpoint is the local receiver's exactly where it is spoken to in plain HTTP and its host is a
/// loopback one, whatever its port and path.
pub proof fn law_a_local_receiver_is_a_loopback_host(
    host: Seq<char>,
    port: Seq<char>,
    path: Seq<char>,
)
    requires
        host.len() > 0,
        host[0] != '[',
        !host.contains('/'),
        !host.contains(':'),
        !port.contains('/'),
        !port.contains(':'),
    ensures
        local_receiver("http://"@ + (host + seq![':'] + port + seq!['/'] + path)) <==> host
            == "127.0.0.1"@ || host == "localhost"@,
        !local_receiver("https://"@ + path),
{
    reveal_strlit("http://");
    reveal_strlit("https://");
    reveal_strlit("::1");
    reveal_strlit("[");
    let authority = host + seq![':'] + port;
    let rest = host + seq![':'] + port + seq!['/'] + path;
    let whole = "http://"@ + rest;
    law_a_prefix_is_taken_off(whole, "http://"@, rest);
    assert(!authority.contains('/')) by {
        if authority.contains('/') {
            let k = authority.index_of('/');
            if k < host.len() {
                assert(host[k] == '/');
            } else if k > host.len() {
                assert(port[k - host.len() - 1] == '/');
            }
        }
    }
    lemma_before(rest, authority, '/', path);
    assert(!"["@.is_prefix_of(authority)) by {
        if "["@.is_prefix_of(authority) {
            assert(authority.subrange(0, 1)[0] == authority[0]);
            assert(authority[0] == host[0]);
        }
    }
    law_last_halves_stand_around_the_last(authority, ':', host, port);
    assert(endpoint_host(whole) == host);
    assert(!"https://"@.is_prefix_of(whole)) by {
        if "https://"@.is_prefix_of(whole) {
            assert(whole.subrange(0, 8)[4] == whole[4]);
            assert(whole[4] == ':');
        }
    }
    if host == "::1"@ {
        assert(host[0] == ':');
        assert(host.contains(host[0]));
    }
    let secure = "https://"@ + path;
    assert("https://"@.is_prefix_of(secure)) by {
        assert(secure.subrange(0, 8) =~= "https://"@);
    }
}

proof fn lemma_after(s: Seq<char>, a: Seq<char>, b: Seq<char>, x: char)
    requires
        s == a + seq![x] + b,
        x == '/' || x == '\\',
        !b.contains('/'),
        !b.contains('\\'),
    ensures
        after_last(s, '/', '\\') == b,
{
    law_an_end_begins_behind_the_last(s, '/', '\\');
    let y = after_last(s, '/', '\\');
    assert(s.subrange(s.len() - y.len(), s.len() as int) == y);
    assert(y.len() == b.len()) by {
        if y.len() > b.len() {
            let k = y.len() - b.len() - 1;
            assert(y[k] == s[s.len() - y.len() + k]);
            assert(s[a.len() as int] == x);
            assert(y.contains(x));
        }
        if y.len() < b.len() {
            let k = s.len() - y.len() - 1;
            assert(s[k] == b[k - a.len() - 1]);
            assert(b.contains(s[k]));
        }
    }
    assert(s.subrange(s.len() - y.len(), s.len() as int) =~= b);
}

/// A command runs our hook exactly where its last path component is the hook's name, or that with
/// the extension of a program in any case; a name that only contains it is another's.
pub proof fn law_a_command_is_ours_by_its_last_component(
    dir: Seq<char>,
    name: Seq<char>,
    extension: Seq<char>,
)
    requires
        !name.contains('/'),
        !name.contains('\\'),
        !name.contains('.'),
        !extension.contains('/'),
        !extension.contains('\\'),
        !extension.contains('.'),
    ensures
        our_command(dir + seq!['/'] + name) <==> name == "hatel-hook"@,
        our_command(dir + seq!['\\'] + name) <==> name == "hatel-hook"@,
        our_command(dir + seq!['/'] + (name + seq!['.'] + extension)) <==> name == "hatel-hook"@
            && same_letters(extension, "exe"@),
{
    lemma_after(dir + seq!['/'] + name, dir, name, '/');
    lemma_after(dir + seq!['\\'] + name, dir, name, '\\');
    let file = name + seq!['.'] + extension;
    assert(!file.contains('/') && !file.contains('\\')) by {
        if file.contains('/') {
            let k = file.index_of('/');
            if k < name.len() {
                assert(name[k] == '/');
            } else if k > name.len() {
                assert(extension[k - name.len() - 1] == '/');
            }
        }
        if file.contains('\\') {
            let k = file.index_of('\\');
            if k < name.len() {
                assert(name[k] == '\\');
            } else if k > name.len() {
                assert(extension[k - name.len() - 1] == '\\');
            }
        }
    }
    lemma_after(dir + seq!['/'] + file, dir, file, '/');
    law_last_halves_stand_around_the_last(name, '.', name, name);
    law_last_halves_stand_around_the_last(file, '.', name, extension);
    reveal_strlit("hatel-hook");
    if file == "hatel-hook"@ {
        assert(file[name.len() as int] == '.');
        assert("hatel-hook"@.len() == 10);
        assert(forall|i: int| 0 <= i < 10 ==> "hatel-hook"@[i] != '.');
    }
}

// ---------------------------------------------------------------------------------------------
// What a merge reports
// ---------------------------------------------------------------------------------------------

proof fn lemma_differing(env: Map<Seq<char>, Tree>, required: bool, n: int)
    requires
        0 <= n <= telemetry().len(),
    ensures
        forall|key: Seq<char>, text: Seq<char>| #[trigger]
            differing_upto(env, required, n).contains((key, text)) <==> exists|i: int|
                0 <= i < n && (#[trigger] telemetry()[i]).0 == key && telemetry()[i].2 == required
                    && env.contains_key(key) && env[key] != Tree::Str(telemetry()[i].1) && text
                    == compact_text(env[key]),
    decreases n,
{
    if n > 0 {
        lemma_differing(env, required, n - 1);
        let rest = differing_upto(env, required, n - 1);
        let all = differing_upto(env, required, n);
        let line = telemetry()[n - 1];
        assert forall|key: Seq<char>, text: Seq<char>| #[trigger] all.contains((key, text)) <==> exists|
            i: int,
        |
            0 <= i < n && (#[trigger] telemetry()[i]).0 == key && telemetry()[i].2 == required
                && env.contains_key(key) && env[key] != Tree::Str(telemetry()[i].1) && text
                == compact_text(env[key]) by {
            if all.contains((key, text)) {
                let k = all.index_of((key, text));
                if k < rest.len() {
                    assert(rest[k] == (key, text));
                    assert(rest.contains((key, text)));
                    let i = choose|i: int|
                        0 <= i < n - 1 && (#[trigger] telemetry()[i]).0 == key && telemetry()[i].2
                            == required && env.contains_key(key) && env[key] != Tree::Str(
                            telemetry()[i].1,
                        ) && text == compact_text(env[key]);
                    assert(telemetry()[i].0 == key);
                } else {
                    assert(telemetry()[n - 1].0 == key);
                }
            }
            if exists|i: int|
                0 <= i < n && (#[trigger] telemetry()[i]).0 == key && telemetry()[i].2 == required
                    && env.contains_key(key) && env[key] != Tree::Str(telemetry()[i].1) && text
                    == compact_text(env[key]) {
                let i = choose|i: int|
                    0 <= i < n && (#[trigger] telemetry()[i]).0 == key && telemetry()[i].2
                        == required && env.contains_key(key) && env[key] != Tree::Str(
                        telemetry()[i].1,
                    ) && text == compact_text(env[key]);
                if i < n - 1 {
                    assert(telemetry()[i].0 == key);
                    assert(rest.contains((key, text)));
                    assert(all[rest.index_of((key, text))] == (key, text));
                } else {
                    assert(all[all.len() - 1] == (key, text));
                }
            }
        }
    }
}

/// A variable is reported to differ exactly where the file sets it to another value than the
/// telemetry block; it is told with the value that it is set to, and apart by whether telemetry
/// needs it.
pub proof fn law_a_variable_that_differs_is_reported(
    env: Map<Seq<char>, Tree>,
    required: bool,
    key: Seq<char>,
    text: Seq<char>,
)
    ensures
        differing(env, required).contains((key, text)) <==> exists|i: int|
            0 <= i < telemetry().len() && (#[trigger] telemetry()[i]).0 == key && telemetry()[i].2
                == required && env.contains_key(key) && env[key] != Tree::Str(telemetry()[i].1)
                && text == compact_text(env[key]),
{
    lemma_differing(env, required, telemetry().len() as int);
}

proof fn lemma_protocol(lines: Seq<(Seq<char>, Seq<char>)>)
    ensures
        0 <= protocol_line(lines) <= lines.len(),
        protocol_line(lines) < lines.len() ==> lines[protocol_line(lines)].0
            == "OTEL_EXPORTER_OTLP_PROTOCOL"@,
        protocol_line(lines) == lines.len() ==> forall|i: int|
            0 <= i < lines.len() ==> (#[trigger] lines[i]).0 != "OTEL_EXPORTER_OTLP_PROTOCOL"@,
    decreases lines.len(),
{
    if lines.len() > 0 && lines[0].0 != "OTEL_EXPORTER_OTLP_PROTOCOL"@ {
        let rest = lines.skip(1);
        lemma_protocol(rest);
        if protocol_line(lines) < lines.len() {
            assert(rest[protocol_line(rest)] == lines[protocol_line(lines)]);
        } else {
            assert forall|i: int| 0 <= i < lines.len() implies (#[trigger] lines[i]).0
                != "OTEL_EXPORTER_OTLP_PROTOCOL"@ by {
                if i > 0 {
                    assert(rest[i - 1] == lines[i]);
                }
            }
        }
    }
}

/// No line is lost in grading: together the advisory and the blocking lines are those that differ.
/// The protocol's line is moved among the blocking ones exactly where a signal goes to the local
/// receiver.
pub proof fn law_grading_moves_the_protocol_only(env: Map<Seq<char>, Tree>)
    ensures
        graded(env).0.to_multiset().add(graded(env).1.to_multiset()) == differing(
            env,
            false,
        ).to_multiset().add(differing(env, true).to_multiset()),
        !reaches_local(wired_env(env)) ==> graded(env) == (differing(env, false), differing(env, true)),
        reaches_local(wired_env(env)) ==> graded(env).1.len() >= differing(env, true).len() && forall|
            i: int,
        |
            differing(env, true).len() <= i < graded(env).1.len() ==> (#[trigger] graded(env).1[i]).0
                == "OTEL_EXPORTER_OTLP_PROTOCOL"@,
        reaches_local(wired_env(env)) && (forall|i: int|
            0 <= i < differing(env, false).len() ==> (#[trigger] differing(env, false)[i]).0
                != "OTEL_EXPORTER_OTLP_PROTOCOL"@) ==> graded(env).1 == differing(env, true),
        reaches_local(wired_env(env)) && (exists|i: int|
            0 <= i < differing(env, false).len() && (#[trigger] differing(env, false)[i]).0
                == "OTEL_EXPORTER_OTLP_PROTOCOL"@) ==> graded(env).1.len() == differing(
            env,
            true,
        ).len() + 1,
{
    let conflicts = differing(env, false);
    let blocked = differing(env, true);
    lemma_protocol(conflicts);
    let at = protocol_line(conflicts);
    if reaches_local(wired_env(env)) && at < conflicts.len() {
        vstd::seq_lib::to_multiset_remove(conflicts, at);
        vstd::seq_lib::to_multiset_build(blocked, conflicts[at]);
        vstd::seq_lib::to_multiset_contains(conflicts, conflicts[at]);
        assert(conflicts.contains(conflicts[at]));
        let a = conflicts.to_multiset();
        let b = blocked.to_multiset();
        assert(a.remove(conflicts[at]).add(b.insert(conflicts[at])) =~= a.add(b));
    }
}

/// A signal goes to its own endpoint, where one is set for it, and else to the general one.
pub proof fn law_a_signal_has_its_own_endpoint(
    env: Map<Seq<char>, Tree>,
    key: Seq<char>,
    endpoint: Seq<char>,
)
    ensures
        slot(env, key) == Some(Tree::Str(endpoint)) ==> signal_endpoint(env, key) == Some(endpoint),
        !env.contains_key(key) ==> (signal_endpoint(env, key) == Some(endpoint) <==> slot(
            env,
            "OTEL_EXPORTER_OTLP_ENDPOINT"@,
        ) == Some(Tree::Str(endpoint))),
        reaches_local(env) <==> (signal_endpoint(
            env,
            "OTEL_EXPORTER_OTLP_METRICS_ENDPOINT"@,
        ) is Some && local_receiver(
            signal_endpoint(env, "OTEL_EXPORTER_OTLP_METRICS_ENDPOINT"@)->0,
        )) || (signal_endpoint(env, "OTEL_EXPORTER_OTLP_LOGS_ENDPOINT"@) is Some && local_receiver(
            signal_endpoint(env, "OTEL_EXPORTER_OTLP_LOGS_ENDPOINT"@)->0,
        )),
{
}

/// Every event of the vocabulary is reported under its fate, and under no other; one that is not
/// touched, or cannot be, keeps its value.
pub proof fn law_an_event_has_one_fate(
    hooks: Map<Seq<char>, Tree>,
    command: Seq<char>,
    active: Seq<Seq<char>>,
    fate: EventFate,
    event: Seq<char>,
)
    ensures
        events_with(hooks, command, active, fate).contains(event) <==> vocabulary().contains(event)
            && event_fate(slot(hooks, event), command, active.contains(event)) == fate,
        ({
            let value = slot(hooks, event);
            let on = active.contains(event);
            let f = event_fate(value, command, on);
            &&& f == EventFate::Untouched || f == EventFate::Conflict ==> wired_event(
                value,
                command,
                on,
            ) == value
            &&& f == EventFate::Conflict <==> on && (value matches Some(v) && !(v is Arr))
            &&& f == EventFate::Cleared <==> !on && holds_ours(value)
            &&& f == EventFate::Untouched <==> !on && !holds_ours(value)
            &&& on && value is None ==> f == EventFate::Added
            &&& f == EventFate::Present <==> on && (value matches Some(Tree::Arr(groups))
                && any_current(cleaned(groups, command), command) && !strips(
                groups,
                Some(command),
            ))
        }),
{
    let p = |ev: Seq<char>| event_fate(slot(hooks, ev), command, active.contains(ev)) == fate;
    lemma_filter_holds(vocabulary(), p, event);
}

/// A merge reports every variable of the telemetry block: one that the file does not set as added,
/// and one that it sets otherwise with its value, as blocking where telemetry needs it; one that is
/// set as it should be is reported nowhere.
pub proof fn law_a_report_accounts_for_every_variable(
    rep: WireReport,
    env: Map<Seq<char>, Tree>,
    i: int,
)
    requires
        env_reported(rep, Some(env)),
        0 <= i < telemetry().len(),
    ensures
        ({
            let key = telemetry()[i].0;
            let told = (key, compact_text(env[key]));
            let differs = env.contains_key(key) && env[key] != Tree::Str(telemetry()[i].1);
            &&& names(rep.env_added@).contains(key) <==> !env.contains_key(key)
            &&& differs && telemetry()[i].2 ==> lines_view(rep.env_blocked@).contains(told)
            &&& differs && !telemetry()[i].2 ==> lines_view(rep.env_conflicts@).contains(told)
                || lines_view(rep.env_blocked@).contains(told)
        }),
{
    let key = telemetry()[i].0;
    let told = (key, compact_text(env[key]));
    let p = |k: Seq<char>| !env.contains_key(k);
    assert(telemetry_keys()[i] == key);
    assert(telemetry_keys().contains(key));
    lemma_filter_holds(telemetry_keys(), p, key);
    if env.contains_key(key) && env[key] != Tree::Str(telemetry()[i].1) {
        let required = telemetry()[i].2;
        law_a_variable_that_differs_is_reported(env, required, key, told.1);
        assert(differing(env, required).contains(told));
        let conflicts = differing(env, false);
        let blocked = differing(env, true);
        let at = protocol_line(conflicts);
        lemma_protocol(conflicts);
        if reaches_local(wired_env(env)) && at < conflicts.len() {
            if required {
                let k = blocked.index_of(told);
                assert(graded(env).1[k] == told);
            } else {
                let k = conflicts.index_of(told);
                if k == at {
                    assert(graded(env).1[blocked.len() as int] == told);
                } else if k < at {
                    assert(graded(env).0[k] == told);
                } else {
                    assert(graded(env).0[k - 1] == told);
                }
            }
        }
    }
}

/// A merge reports every event of the vocabulary in the list of its fate, and nothing else there.
pub proof fn law_a_report_accounts_for_every_event(
    rep: WireReport,
    hooks: Map<Seq<char>, Tree>,
    command: Seq<char>,
    active: Seq<Seq<char>>,
    event: Seq<char>,
)
    requires
        hooks_reported(rep, Some(hooks), command, active),
    ensures
        ({
            let fate = event_fate(slot(hooks, event), command, active.contains(event));
            let known = vocabulary().contains(event);
            &&& names(rep.events_added@).contains(event) <==> known && fate == EventFate::Added
            &&& names(rep.events_present@).contains(event) <==> known && fate == EventFate::Present
            &&& names(rep.events_cleared@).contains(event) <==> known && fate == EventFate::Cleared
            &&& names(rep.events_conflicts@).contains(event) <==> known && fate
                == EventFate::Conflict
        }),
{
    law_an_event_has_one_fate(hooks, command, active, EventFate::Added, event);
    law_an_event_has_one_fate(hooks, command, active, EventFate::Present, event);
    law_an_event_has_one_fate(hooks, command, active, EventFate::Cleared, event);
    law_an_event_has_one_fate(hooks, command, active, EventFate::Conflict, event);
}

/// A part that is no object is reported as such, and nothing of it as done.
pub proof fn law_a_part_that_is_no_object_is_left(
    rep: WireReport,
    t: Tree,
    command: Seq<char>,
    active: Seq<Seq<char>>,
)
    requires
        wire_reported(rep, t, command, active),
    ensures
        rep.env_not_object <==> !(t matches Tree::Obj(m) && object_at(m, "env"@) is Some),
        rep.hooks_not_object <==> !(t matches Tree::Obj(m) && object_at(m, "hooks"@) is Some),
        rep.env_not_object ==> rep.env_added@.len() == 0,
        rep.hooks_not_object ==> rep.events_added@.len() == 0 && rep.events_cleared@.len() == 0,
{
}

/// Unwiring names exactly the events of the vocabulary that hold an entry of ours.
pub proof fn law_unwiring_names_what_it_clears(
    m: Map<Seq<char>, Tree>,
    hooks: Map<Seq<char>, Tree>,
    event: Seq<char>,
)
    requires
        slot(m, "hooks"@) == Some(Tree::Obj(hooks)),
    ensures
        cleared_events(Tree::Obj(m)).contains(event) <==> vocabulary().contains(event)
            && holds_ours(slot(hooks, event)),
{
    let p = |ev: Seq<char>| holds_ours(slot(hooks, ev));
    lemma_filter_holds(vocabulary(), p, event);
    assert(tree_get(Tree::Obj(m), "hooks"@) == Some(Tree::Obj(hooks)));
}

// ---------------------------------------------------------------------------------------------
// Scopes
// ---------------------------------------------------------------------------------------------

/// The user's settings lie under the home directory, the project's and the local ones under the
/// working tree, and the managed ones where the organisation keeps them.
pub proof fn law_a_scope_has_its_place(p: Places, home: Seq<char>, agent: Seq<char>)
    requires
        opt_view(p.home) == Some(home),
        opt_view(p.agent_dir) == Some(agent),
    ensures
        place_of("user"@, p) == Some(joined_path(joined_path(home, agent), "settings.json"@)),
        place_of("project"@, p) == Some(joined_path(joined_path(p.base@, agent), "settings.json"@)),
        place_of("local"@, p) == Some(
            joined_path(joined_path(p.base@, agent), "settings.local.json"@),
        ),
        place_of("managed"@, p) == opt_view(p.managed),
{
    reveal_strlit("user");
    reveal_strlit("project");
    reveal_strlit("local");
    reveal_strlit("managed");
    assert("user"@.len() == 4 && "project"@.len() == 7 && "local"@.len() == 5 && "managed"@.len()
        == 7);
    assert("project"@[0] != "managed"@[0]);
}

/// A variable that no scope sets has no value, and one that has a value has it from a scope that sets
/// it.
pub proof fn law_a_value_comes_from_a_scope(files: Seq<ScopeModel>, key: Seq<char>)
    ensures
        match effective(files, key) {
            Some(p) => exists|i: int|
                0 <= i < files.len() && scope_env(#[trigger] files[i], key) == Some(p.0)
                    && files[i].name == p.1 && forall|j: int|
                    i < j < files.len() ==> scope_env(#[trigger] files[j], key) is None,
            None => forall|j: int|
                0 <= j < files.len() ==> scope_env(#[trigger] files[j], key) is None,
        },
    decreases files.len(),
{
    if files.len() > 0 {
        let n = files.len() - 1;
        assert(files[n] == files.last());
        if scope_env(files.last(), key) is None {
            let init = files.drop_last();
            law_a_value_comes_from_a_scope(init, key);
            assert forall|j: int| 0 <= j < n implies #[trigger] files[j] == init[j] by {}
            if let Some(p) = effective(init, key) {
                let i = choose|i: int|
                    0 <= i < init.len() && scope_env(#[trigger] init[i], key) == Some(p.0)
                        && init[i].name == p.1 && forall|j: int|
                        i < j < init.len() ==> scope_env(#[trigger] init[j], key) is None;
                assert(files[i] == init[i]);
                assert forall|j: int| i < j < files.len() implies scope_env(
                    #[trigger] files[j],
                    key,
                ) is None by {
                    if j < n {
                        assert(files[j] == init[j]);
                    }
                }
            }
        }
    }
}

/// Only managed hooks run exactly where the first managed scope says so.
pub proof fn law_the_managed_scope_says_whose_hooks_run(files: Seq<ScopeModel>)
    ensures
        managed_only(files) <==> exists|i: int|
            0 <= i < files.len() && (#[trigger] files[i]).name == "managed"@ && scope_get(
                files[i],
                "allowManagedHooksOnly"@,
            ) == Some(Tree::Bool(true)) && forall|j: int|
                0 <= j < i ==> (#[trigger] files[j]).name != "managed"@,
    decreases files.len(),
{
    if files.len() > 0 {
        if files[0].name == "managed"@ {
            if managed_only(files) {
                assert(files[0].name == "managed"@);
            }
        } else {
            let rest = files.skip(1);
            law_the_managed_scope_says_whose_hooks_run(rest);
            if managed_only(rest) {
                let i = choose|i: int|
                    0 <= i < rest.len() && (#[trigger] rest[i]).name == "managed"@ && scope_get(
                        rest[i],
                        "allowManagedHooksOnly"@,
                    ) == Some(Tree::Bool(true)) && forall|j: int|
                        0 <= j < i ==> (#[trigger] rest[j]).name != "managed"@;
                assert(files[i + 1] == rest[i]);
                assert forall|j: int| 0 <= j < i + 1 implies (#[trigger] files[j]).name
                    != "managed"@ by {
                    if j > 0 {
                        assert(rest[j - 1] == files[j]);
                    }
                }
            }
            if exists|i: int|
                0 <= i < files.len() && (#[trigger] files[i]).name == "managed"@ && scope_get(
                    files[i],
                    "allowManagedHooksOnly"@,
                ) == Some(Tree::Bool(true)) && forall|j: int|
                    0 <= j < i ==> (#[trigger] files[j]).name != "managed"@ {
                let i = choose|i: int|
                    0 <= i < files.len() && (#[trigger] files[i]).name == "managed"@ && scope_get(
                        files[i],
                        "allowManagedHooksOnly"@,
                    ) == Some(Tree::Bool(true)) && forall|j: int|
                        0 <= j < i ==> (#[trigger] files[j]).name != "managed"@;
                assert(rest[i - 1] == files[i]);
                assert forall|j: int| 0 <= j < i - 1 implies (#[trigger] rest[j]).name
                    != "managed"@ by {
                    assert(rest[j] == files[j + 1]);
                }
            }
        }
    }
}

/// An event is not captured exactly where no honored scope has an entry of ours for it; it keeps the
/// session waiting as soon as one of these entries does.
pub proof fn law_an_event_is_captured_where_an_entry_is_honored(
    files: Seq<ScopeModel>,
    event: Seq<char>,
    i: int,
    g: int,
    j: int,
)
    ensures
        wiring_of(files, event) == Wiring::Missing ==> !ours_at(files, event, i, g, j),
        wiring_of(files, event) == Wiring::Concurrent && ours_at(files, event, i, g, j)
            ==> async_entry(
            group_entries(event_groups(files[i], event)[g])[j],
        ),
        wiring_of(files, event) != Wiring::Missing ==> exists|a: int, b: int, c: int|
            ours_at(files, event, a, b, c),
        wiring_of(files, event) == Wiring::Blocking ==> exists|a: int, b: int, c: int|
            blocks_at(files, event, a, b, c),
{
    if wiring_of(files, event) == Wiring::Blocking {
        let (a, b, c) = choose|a: int, b: int, c: int|
            blocks_at(files, event, a, b, c);
        assert(ours_at(files, event, a, b, c));
    }
    if ours_at(files, event, i, g, j) && wiring_of(files, event) == Wiring::Concurrent {
        assert(!blocks_at(files, event, i, g, j));
    }
}

/// Our hook is blocked exactly where only managed hooks run and a scope that is not managed has an
/// entry of ours for some event; such an entry is never among the honored ones.
pub proof fn law_a_blocked_hook_is_not_honored(
    files: Seq<ScopeModel>,
    hooks: Map<Seq<char>, Tree>,
    event: Seq<char>,
    i: int,
    g: int,
    j: int,
)
    requires
        0 <= i < files.len(),
        files[i].name != "managed"@,
        scope_get(files[i], "hooks"@) == Some(Tree::Obj(hooks)),
        hooks.contains_key(event),
        0 <= g < event_groups(files[i], event).len(),
        0 <= j < group_entries(event_groups(files[i], event)[g]).len(),
        our_entry(group_entries(event_groups(files[i], event)[g])[j]),
    ensures
        hook_blocked(files) <==> managed_only(files),
        ours_at(files, event, i, g, j) <==> !hook_blocked(files),
{
    assert(scope_ours_at(files[i], event, false, g, j));
    assert(scope_ours(files[i], event, false));
    assert(hooks.contains_key(event) && scope_ours(files[i], event, false));
    assert(scope_wires(files[i]));
}

/// Where every scope is managed, nothing of ours is blocked.
pub proof fn law_managed_hooks_are_not_blocked(files: Seq<ScopeModel>)
    requires
        forall|i: int| 0 <= i < files.len() ==> (#[trigger] files[i]).name == "managed"@,
    ensures
        !hook_blocked(files),
{
}

/// The captured events of two lists are those of the first and then those of the second; an event is
/// captured unless it is missing.
pub proof fn law_captured_events_add_up(
    a: Seq<(&'static str, Wiring)>,
    b: Seq<(&'static str, Wiring)>,
    one: (&'static str, Wiring),
)
    ensures
        crate::scopes::captured(a + b) == crate::scopes::captured(a) + crate::scopes::captured(b),
        crate::scopes::captured(seq![one]) == if one.1 == Wiring::Missing {
            Seq::empty()
        } else {
            seq![one.0@]
        },
    decreases b.len(),
{
    let s = seq![one];
    assert(s.drop_last() =~= Seq::<(&'static str, Wiring)>::empty());
    assert(crate::scopes::captured(s.drop_last()) =~= Seq::<Seq<char>>::empty());
    assert(s.last() == one);
    if b.len() == 0 {
        assert(a + b =~= a);
        assert(crate::scopes::captured(a) + crate::scopes::captured(b) =~= crate::scopes::captured(
            a,
        ));
    } else {
        law_captured_events_add_up(a, b.drop_last(), one);
        assert((a + b).drop_last() =~= a + b.drop_last());
        assert((a + b).last() == b.last());
        assert(crate::scopes::captured(a + b) =~= crate::scopes::captured(a)
            + crate::scopes::captured(b));
    }
}

/// Our commands among two lists of entries are those of the first and then those of the second; an
/// entry gives its command where that is ours.
pub proof fn law_entry_commands_add_up(a: Seq<Tree>, b: Seq<Tree>, one: Tree, command: Seq<char>)
    ensures
        entry_commands(a + b) == entry_commands(a) + entry_commands(b),
        tree_get(one, "command"@) == Some(Tree::Str(command)) ==> entry_commands(seq![one])
            == if our_command(command) {
            seq![command]
        } else {
            Seq::empty()
        },
    decreases b.len(),
{
    let s = seq![one];
    assert(s.drop_last() =~= Seq::<Tree>::empty());
    assert(entry_commands(s.drop_last()) =~= Seq::<Seq<char>>::empty());
    assert(s.last() == one);
    assert(Seq::<Seq<char>>::empty().push(command) =~= seq![command]);
    if b.len() == 0 {
        assert(a + b =~= a);
        assert(entry_commands(a) + entry_commands(b) =~= entry_commands(a));
    } else {
        law_entry_commands_add_up(a, b.drop_last(), one, command);
        assert((a + b).drop_last() =~= a + b.drop_last());
        assert((a + b).last() == b.last());
        assert(entry_commands(a + b) =~= entry_commands(a) + entry_commands(b));
    }
}

/// Our commands in groups, and under events, are those of each in turn.
pub proof fn law_group_commands_add_up(
    a: Seq<Tree>,
    b: Seq<Tree>,
    one: Tree,
    hooks: Map<Seq<char>, Tree>,
    x: Seq<Seq<char>>,
    y: Seq<Seq<char>>,
    event: Seq<char>,
)
    ensures
        group_commands(a + b) == group_commands(a) + group_commands(b),
        group_commands(seq![one]) == entry_commands(group_entries(one)),
        event_commands(hooks, x + y) == event_commands(hooks, x) + event_commands(hooks, y),
        event_commands(hooks, seq![event]) == group_commands(tree_items(hooks[event])),
    decreases b.len() + y.len(),
{
    let s = seq![one];
    assert(s.drop_last() =~= Seq::<Tree>::empty());
    assert(group_commands(s.drop_last()) =~= Seq::<Seq<char>>::empty());
    assert(s.last() == one);
    assert(group_commands(s) =~= entry_commands(group_entries(one)));
    let e = seq![event];
    assert(e.drop_last() =~= Seq::<Seq<char>>::empty());
    assert(event_commands(hooks, e.drop_last()) =~= Seq::<Seq<char>>::empty());
    assert(e.last() == event);
    assert(event_commands(hooks, e) =~= group_commands(tree_items(hooks[event])));
    if b.len() == 0 {
        assert(a + b =~= a);
        assert(group_commands(a) + group_commands(b) =~= group_commands(a));
    } else {
        law_group_commands_add_up(a, b.drop_last(), one, hooks, x, y, event);
        assert((a + b).drop_last() =~= a + b.drop_last());
        assert((a + b).last() == b.last());
        assert(group_commands(a + b) =~= group_commands(a) + group_commands(b));
    }
    if y.len() == 0 {
        assert(x + y =~= x);
        assert(event_commands(hooks, x) + event_commands(hooks, y) =~= event_commands(hooks, x));
    } else {
        law_group_commands_add_up(a, b, one, hooks, x, y.drop_last(), event);
        assert((x + y).drop_last() =~= x + y.drop_last());
        assert((x + y).last() == y.last());
        assert(event_commands(hooks, x + y) =~= event_commands(hooks, x) + event_commands(
            hooks,
            y,
        ));
    }
}

/// The commands that run are those of every honored scope in turn: of all, or of the managed ones
/// where only these are honored.
pub proof fn law_honored_commands_are_those_of_honored_scopes(files: Seq<ScopeModel>, n: int)
    requires
        0 < n <= files.len(),
    ensures
        !managed_only(files) || files[n - 1].name == "managed"@ ==> honored_commands(files, n)
            == honored_commands(files, n - 1) + scope_commands(files[n - 1]),
        managed_only(files) && files[n - 1].name != "managed"@ ==> honored_commands(files, n)
            == honored_commands(files, n - 1),
        honored_commands(files, 0) == Seq::<Seq<char>>::empty(),
{
}

/// A list without repetitions has every element of the list, none twice, and in the order in which
/// they first come.
pub proof fn law_repetitions_are_left_out(s: Seq<Seq<char>>, x: Seq<char>)
    ensures
        distinct(s).contains(x) <==> s.contains(x),
        distinct(s).no_duplicates(),
        distinct(s.push(x)) == if s.contains(x) {
            distinct(s)
        } else {
            distinct(s).push(x)
        },
    decreases s.len(),
{
    lemma_distinct(s);
    assert(s.push(x).drop_last() =~= s);
    assert(s.push(x).last() == x);
}

proof fn lemma_distinct(s: Seq<Seq<char>>)
    ensures
        forall|x: Seq<char>| #[trigger] distinct(s).contains(x) <==> s.contains(x),
        distinct(s).no_duplicates(),
    decreases s.len(),
{
    if s.len() > 0 {
        let init = s.drop_last();
        lemma_distinct(init);
        let rest = distinct(init);
        let all = distinct(s);
        let last = s.last();
        assert(s[s.len() - 1] == last);
        assert forall|x: Seq<char>| #[trigger] all.contains(x) <==> s.contains(x) by {
            assert(rest.contains(x) <==> init.contains(x));
            if init.contains(x) {
                assert(s[init.index_of(x)] == x);
            }
            if s.contains(x) {
                let k = s.index_of(x);
                if k < init.len() {
                    assert(init[k] == x);
                }
            }
            if rest.contains(x) {
                assert(all[rest.index_of(x)] == x);
            }
            if !rest.contains(last) {
                assert(all[rest.len() as int] == last);
            }
            if all.contains(x) {
                let k = all.index_of(x);
                if k < rest.len() {
                    assert(rest[k] == x);
                }
            }
        }
        assert forall|i: int, j: int| 0 <= i < all.len() && 0 <= j < all.len() && i
            != j implies all[i] != all[j] by {
            if i < rest.len() && j < rest.len() {
                assert(all[i] == rest[i] && all[j] == rest[j]);
            } else if i < rest.len() {
                assert(rest.contains(rest[i]));
            } else {
                assert(rest.contains(rest[j]));
            }
        }
    }
}

/// A hook's version is what follows its name in its answer.
pub proof fn law_a_version_follows_the_name(answer: Seq<char>, rest: Seq<char>)
    requires
        trimmed(answer) == "hatel-hook"@ + rest,
    ensures
        answered_version(answer) == if trimmed(rest).len() > 0 {
            Some(trimmed(rest))
        } else {
            None
        },
{
    law_a_prefix_is_taken_off(trimmed(answer), "hatel-hook"@, rest);
}

/// A hook's version is taken only of a short answer that came without a failure; a failure, or an
/// answer that is too long, leaves it unverified.
pub proof fn law_a_version_is_taken_of_a_clean_answer(
    r: HookBuild,
    answer: Seq<char>,
    bytes: u64,
    failure: Option<String>,
)
    requires
        judged(r, answer, bytes, failure),
    ensures
        r is Unverified <==> bytes > 256 || failure is Some,
        r matches HookBuild::Version(v) ==> trimmed(v@) == v@ && v@.len() > 0 && exists|
            rest: Seq<char>,
        |
            trimmed(answer) == "hatel-hook"@ + rest && #[trigger] trimmed(rest) == v@,
        r is Unreported ==> answered_version(answer) is None,
{
    if r is Version {
        let rest = without_prefix(trimmed(answer), HOOK_BIN@)->0;
        law_a_prefix_is_taken_off(trimmed(answer), HOOK_BIN@, rest);
        assert(trimmed(rest) == r->Version_0@);
        law_trimming_takes_the_white_space_around(rest);
    }
}

// ---------------------------------------------------------------------------------------------
// Plans
// ---------------------------------------------------------------------------------------------

/// A merge starts from nothing where there is no file, and from the file where it is an object; any
/// other file is refused.
pub proof fn law_a_merge_starts_from_an_object(
    load: Load,
    command: Seq<char>,
    path: Seq<char>,
    t: Tree,
)
    ensures
        base_of(load, command, path) == Ok::<Tree, Seq<char>>(t) <==> (load is Absent && t
            == Tree::Obj(Map::empty())) || (load.tree() == Some(t) && t is Obj),
{
}

/// Nothing is written of a file that cannot be merged into, and otherwise exactly where the merge
/// changed something: the merged settings. The exit code is one where the file is broken or
/// telemetry is blocked, and zero else.
pub proof fn law_a_plan_writes_what_was_merged(
    rep: WireReport,
    settings: Tree,
    path: Seq<char>,
    scope: Scope,
    command: Seq<char>,
    missing: bool,
    unwireable: Seq<Seq<char>>,
)
    ensures
        ({
            let plan = plan_after(rep, settings, path, scope, command, missing, unwireable);
            let broken = rep.env_not_object || rep.hooks_not_object || rep.events_conflicts@.len()
                > 0;
            let changed = rep.env_added@.len() > 0 || rep.events_added@.len() > 0
                || rep.events_cleared@.len() > 0;
            &&& plan.write == if !broken && changed {
                Some(pretty_text(settings) + "\n"@)
            } else {
                None
            }
            &&& plan.code == if broken || rep.env_blocked@.len() > 0 {
                1i32
            } else {
                0i32
            }
            &&& broken ==> plan.done.len() == 0
        }),
{
}

/// Every variable that is set otherwise is told, in order, and those that block telemetry behind;
/// and what is wrong with a broken file is said, one line for each thing.
pub proof fn law_a_plan_tells_every_difference(
    rep: WireReport,
    settings: Tree,
    path: Seq<char>,
    scope: Scope,
    command: Seq<char>,
    missing: bool,
    unwireable: Seq<Seq<char>>,
    i: int,
)
    ensures
        ({
            let plan = plan_after(rep, settings, path, scope, command, missing, unwireable);
            let a = rep.env_conflicts@.len() as int;
            let b = rep.env_blocked@.len() as int;
            &&& plan.said.len() >= a + b
            &&& 0 <= i < a ==> plan.said[i] == LineModel::Warned(
                "  ⚠ "@ + rep.env_conflicts@[i].0@ + " already set to "@ + rep.env_conflicts@[i].1@
                    + " — left as-is (re-point the receiver or edit by hand)"@,
            )
            &&& a <= i < a + b ==> plan.said[i] == LineModel::Warned(
                "  ✗ "@ + rep.env_blocked@[i - a].0@ + "="@ + rep.env_blocked@[i - a].1@
                    + " keeps native telemetry off — left as-is; set it to the collector value to capture cost/tokens"@,
            )
            &&& !rep.is_malformed() ==> plan.said.len() == a + b + if missing {
                1int
            } else {
                0int
            }
            &&& rep.is_malformed() ==> plan.said.len() == a + b + (if rep.env_not_object {
                1int
            } else {
                0int
            }) + (if rep.hooks_not_object {
                1int
            } else {
                0int
            }) + rep.events_conflicts@.len()
        }),
{
}

/// What was done is told: what was added to the variables and to the hooks, what was taken from the
/// hooks, each only where there is any; every binding that never fires; and how to verify it.
pub proof fn law_a_plan_tells_what_was_done(
    rep: WireReport,
    settings: Tree,
    path: Seq<char>,
    scope: Scope,
    command: Seq<char>,
    missing: bool,
    unwireable: Seq<Seq<char>>,
)
    requires
        !rep.is_malformed(),
    ensures
        ({
            let done = plan_after(
                rep,
                settings,
                path,
                scope,
                command,
                missing,
                unwireable,
            ).done;
            &&& done.last() == LineModel::Said("verify with `hatel doctor`"@)
            &&& rep.has_changes() ==> done[0] == LineModel::Said(
                "wired "@ + path + " ("@ + scope.name() + " scope)"@,
            )
            &&& !rep.has_changes() ==> done[0] == LineModel::Said("already wired: "@ + path)
            &&& rep.has_changes() ==> done.len() == 2 + unwireable.len() + (if rep.env_added@.len()
                > 0 {
                1int
            } else {
                0int
            }) + (if rep.events_added@.len() > 0 {
                1int
            } else {
                0int
            }) + (if rep.events_cleared@.len() > 0 {
                1int
            } else {
                0int
            })
            &&& rep.env_added@.len() > 0 ==> done[1] == LineModel::Said(
                "  env:   +"@ + joined(names(rep.env_added@), ", "@),
            )
            &&& forall|i: int|
                0 <= i < unwireable.len() ==> #[trigger] done[done.len() - 1 - unwireable.len() + i]
                    == unwireable_line(unwireable[i])
        }),
{
    let done = plan_after(rep, settings, path, scope, command, missing, unwireable).done;
    let lines = unwireable_lines(unwireable);
    let n = done.len() - 1 - unwireable.len();
    assert forall|i: int| 0 <= i < unwireable.len() implies #[trigger] done[done.len() - 1
        - unwireable.len() + i] == unwireable_line(unwireable[i]) by {
        assert(done[n + i] == lines[i]);
    }
}

/// The events that were wired and those that were cleared are told where there are any, each list in
/// its own line.
pub proof fn law_a_plan_lists_the_events(
    rep: WireReport,
    settings: Tree,
    path: Seq<char>,
    scope: Scope,
    command: Seq<char>,
    missing: bool,
    unwireable: Seq<Seq<char>>,
)
    requires
        !rep.is_malformed(),
    ensures
        ({
            let done = plan_after(
                rep,
                settings,
                path,
                scope,
                command,
                missing,
                unwireable,
            ).done;
            &&& rep.events_added@.len() > 0 ==> done.contains(
                LineModel::Said("  hooks: +"@ + joined(names(rep.events_added@), ", "@)),
            )
            &&& rep.events_cleared@.len() > 0 ==> done.contains(
                LineModel::Said("  hooks: -"@ + joined(names(rep.events_cleared@), ", "@)),
            )
        }),
{
    let done = plan_after(rep, settings, path, scope, command, missing, unwireable).done;
    let e = listing_line("  env:   +"@, names(rep.env_added@)).len() as int;
    let a = listing_line("  hooks: +"@, names(rep.events_added@)).len() as int;
    if rep.events_added@.len() > 0 {
        assert(done[1 + e] == LineModel::Said(
            "  hooks: +"@ + joined(names(rep.events_added@), ", "@),
        ));
    }
    if rep.events_cleared@.len() > 0 {
        assert(done[1 + e + a] == LineModel::Said(
            "  hooks: -"@ + joined(names(rep.events_cleared@), ", "@),
        ));
    }
}

/// What is broken in a file is said by its name: the variables, the hooks, and every event.
pub proof fn law_a_broken_file_is_explained(rep: WireReport, path: Seq<char>, i: int)
    ensures
        rep.env_not_object ==> broken_lines(rep, path).contains(
            LineModel::Warned("init: `env` in "@ + path + " is not an object — fix it first"@),
        ),
        rep.hooks_not_object ==> broken_lines(rep, path).contains(
            LineModel::Warned("init: `hooks` in "@ + path + " is not an object — fix it first"@),
        ),
        0 <= i < rep.events_conflicts@.len() ==> broken_lines(rep, path).contains(
            LineModel::Warned(
                "init: hooks."@ + rep.events_conflicts@[i]@ + " in "@ + path
                    + " is not an array — fix it first"@,
            ),
        ),
{
    let lines = broken_lines(rep, path);
    let a: int = if rep.env_not_object {
        1
    } else {
        0
    };
    let b: int = if rep.hooks_not_object {
        1
    } else {
        0
    };
    if rep.env_not_object {
        assert(lines[0] == LineModel::Warned(
            "init: `env` in "@ + path + " is not an object — fix it first"@,
        ));
    }
    if rep.hooks_not_object {
        assert(lines[a] == LineModel::Warned(
            "init: `hooks` in "@ + path + " is not an object — fix it first"@,
        ));
    }
    if 0 <= i < rep.events_conflicts@.len() {
        assert(lines[a + b + i] == LineModel::Warned(
            "init: hooks."@ + rep.events_conflicts@[i]@ + " in "@ + path
                + " is not an array — fix it first"@,
        ));
    }
}

/// The hooks are taken out of a file exactly where it is an object with some of ours: what is
/// written is the file without them, and the exit code is one where the file cannot be read.
pub proof fn law_a_removal_writes_the_file_without_our_hooks(
    load: Load,
    path: Seq<char>,
    scope: Scope,
)
    ensures
        ({
            let plan = removal(load, path, scope);
            &&& plan.write == match load.tree() {
                Some(t) => if t is Obj && cleared_events(t).len() > 0 {
                    Some(file_text(unwired(t)))
                } else {
                    None
                },
                None => None,
            }
            &&& plan.code == 0 <==> load is Absent || (load.tree() matches Some(t) && t is Obj)
            &&& plan.code == 0 || plan.code == 1
        }),
{
}

/// Something is inserted in front of an endpoint exactly where it is the one endpoint of both
/// signals, another's than the local receiver, and not locked by managed settings.
pub proof fn law_an_insertion_finds_one_endpoint(env: Env, endpoint: Seq<char>, scope: Seq<char>)
    ensures
        front_of(env) == FrontModel::Endpoint(endpoint, scope) <==> {
            &&& env.lookup("OTEL_EXPORTER_OTLP_METRICS_ENDPOINT"@) is None
            &&& env.lookup("OTEL_EXPORTER_OTLP_LOGS_ENDPOINT"@) is None
            &&& env.lookup("OTEL_EXPORTER_OTLP_ENDPOINT"@) == Some((endpoint, scope))
            &&& !local_receiver(endpoint)
            &&& scope != "managed"@
        },
        front_of(env) matches FrontModel::Nothing(_, code) ==> (code == 0 <==> env.lookup(
            "OTEL_EXPORTER_OTLP_METRICS_ENDPOINT"@,
        ) is None && env.lookup("OTEL_EXPORTER_OTLP_LOGS_ENDPOINT"@) is None && (env.lookup(
            "OTEL_EXPORTER_OTLP_ENDPOINT"@,
        ) matches Some(p) ==> local_receiver(p.0))),
{
}

/// The dropped pieces of two lists are those of the first and those of the second; a piece is dropped
/// where it says something and holds no pair.
pub proof fn law_dropped_pieces_add_up(a: Seq<Seq<char>>, b: Seq<Seq<char>>, one: Seq<char>)
    ensures
        dropped_pieces(a + b) == dropped_pieces(a) + dropped_pieces(b),
        dropped_pieces(seq![one]) == if is_blank(one) || header_pair(one) is Some {
            0nat
        } else {
            1nat
        },
    decreases b.len(),
{
    let s = seq![one];
    assert(s.drop_last() =~= Seq::<Seq<char>>::empty());
    assert(dropped_pieces(s.drop_last()) == 0);
    assert(s.last() == one);
    if b.len() == 0 {
        assert(a + b =~= a);
    } else {
        law_dropped_pieces_add_up(a, b.drop_last(), one);
        assert((a + b).drop_last() =~= a + b.drop_last());
        assert((a + b).last() == b.last());
    }
}

/// The captured endpoint becomes a destination for every project, in the mode asked for and with the
/// headers that it was sent with; what of these is dropped is counted, and not shown.
pub proof fn law_a_captured_endpoint_keeps_its_headers(
    endpoint: Seq<char>,
    mode: InsertMode,
    raw: Seq<char>,
)
    ensures
        ({
            let t = captured(endpoint, mode, Some(raw));
            &&& t.endpoint == endpoint
            &&& t.mode == ExportMode::Raw <==> mode == InsertMode::Raw
            &&& t.filter == FilterModel::All
            &&& t.headers == header_pairs(pieces(raw, ','))
            &&& t.timeout is None
        }),
        captured(endpoint, mode, None).headers == Map::<Seq<char>, Seq<char>>::empty(),
        dropped_lines(None).len() == 0,
        dropped_lines(Some(raw)).len() == if dropped_pieces(pieces(raw, ',')) > 0 {
            1nat
        } else {
            0nat
        },
{
}

/// An insertion is refused before anything is written exactly where the settings cannot be merged
/// into or the destinations are not valid.
pub proof fn law_an_insertion_is_refused_before_it_writes(
    load: Load,
    path: Seq<char>,
    malformed: bool,
    export: Result<ExportConfig, String>,
)
    ensures
        insert_fault(load, path, malformed, export) is None <==> base_of(
            load,
            "init --insert"@,
            path,
        ) is Ok && !malformed && export is Ok,
{
}

} // verus!
