//! What a flush and the live view keep: every outcome says how it ended, none is lost, every amount
//! goes on from where it stood, and every session has its line.
use vstd::prelude::*;
use crate::assoc::entries;
use crate::claude_settings::slot;
use crate::clock::instant;
use crate::cost::{
    cost_row_of, counts_of, last_row, merged_counts, merged_row, merged_rows, merged_snapshot,
    merged_spend, read_row, row_lines, row_members, row_shape, row_tail_shape, rows_of, sessions_of,
    snapshot_of, spend_map, spend_of, spend_shape, spends_of, CostModel, CostRow, SpendModel,
};
use crate::decimal::{int_text, int_value, law_print_then_read_signed, nat_text};
use crate::export::TargetModel;
use crate::json::{number_text, object_text, Tree};
use crate::render::filled;
use crate::serve::{
    agent_line, agent_lines, agents_text, announced, buffered, continued, cut, deferred,
    listing_text, listings_text, live_header, live_line, retention_text, right, row_of, shown,
    tool_drop_text, tool_payload_of, top_level, written, AgentRow, AttributedModel, BufferedModel,
    Focus, Listing, LiveRow, Totals,
};
use crate::session::SessionIndexCache;
use crate::shape::{fields_in_shape, in_shape, law_shaping_keeps_objects};
use crate::sorted::{ascending, lemma_sorted_set};
use crate::text::{joined, opt_view};

verus! {

broadcast use vstd::map::group_map_axioms;

// ---------------------------------------------------------------------------------------------
// Outcomes
// ---------------------------------------------------------------------------------------------

/// The payload of an outcome tells success from failure: its `ok` is the number one where the call
/// succeeded, and the number zero where it failed.
pub proof fn law_a_payload_tells_success_from_failure(t: AttributedModel)
    ensures
        slot(tool_payload_of(t), "ok"@) == Some(
            if t.tool.ok {
                Tree::Num(seq!['1'])
            } else {
                Tree::Num(seq!['0'])
            },
        ),
{
    assert(int_text(1) =~= seq!['1']);
    assert(int_text(0) =~= seq!['0']);
}

/// Two outcomes that differ in whether they succeeded have different payloads.
pub proof fn law_success_and_failure_differ(a: AttributedModel, b: AttributedModel)
    requires
        a.tool.ok != b.tool.ok,
    ensures
        tool_payload_of(a) != tool_payload_of(b),
{
    law_a_payload_tells_success_from_failure(a);
    law_a_payload_tells_success_from_failure(b);
    assert(seq!['1'][0] != seq!['0'][0]);
}

/// A payload says of an outcome which session it is of, of which project, which tool was called and
/// how long it took, and besides how it ended nothing else.
pub proof fn law_a_payload_says_five_things(t: AttributedModel, key: Seq<char>)
    ensures
        ({
            let p = tool_payload_of(t);
            &&& slot(p, "session_id"@) == Some(Tree::Str(t.tool.session))
            &&& slot(p, "project"@) == Some(Tree::Str(t.project))
            &&& slot(p, "tool_name"@) == Some(Tree::Str(t.tool.tool))
            &&& slot(p, "duration_ms"@) matches Some(Tree::Num(n)) && int_value(n) == Some(
                t.tool.duration as int,
            )
            &&& p.contains_key(key) <==> key == "session_id"@ || key == "project"@ || key
                == "tool_name"@ || key == "duration_ms"@ || key == "ok"@
        }),
{
    reveal_strlit("session_id");
    reveal_strlit("project");
    reveal_strlit("tool_name");
    reveal_strlit("duration_ms");
    reveal_strlit("ok");
    assert("session_id"@.len() == 10 && "project"@.len() == 7 && "tool_name"@.len() == 9
        && "duration_ms"@.len() == 11 && "ok"@.len() == 2);
    law_print_then_read_signed(t.tool.duration as int);
}

/// What a flush does with two lots of outcomes is what it does with the first and then with the
/// second.
pub proof fn law_a_flush_adds_up(
    index: SessionIndexCache,
    a: Seq<BufferedModel>,
    b: Seq<BufferedModel>,
    last: bool,
)
    ensures
        written(index, a + b, last, (a + b).len() as int) == written(index, a, last, a.len() as int)
            + written(index, b, last, b.len() as int),
        deferred(index, a + b, last, (a + b).len() as int) == deferred(
            index,
            a,
            last,
            a.len() as int,
        ) + deferred(index, b, last, b.len() as int),
{
    lemma_flush_within(index, a + b, a, last, a.len() as int);
    lemma_flush_adds(index, a, b, last, b.len() as int);
}

proof fn lemma_flush_within(
    index: SessionIndexCache,
    a: Seq<BufferedModel>,
    b: Seq<BufferedModel>,
    last: bool,
    n: int,
)
    requires
        0 <= n <= a.len(),
        n <= b.len(),
        forall|i: int| 0 <= i < n ==> #[trigger] a[i] == b[i],
    ensures
        written(index, a, last, n) == written(index, b, last, n),
        deferred(index, a, last, n) == deferred(index, b, last, n),
    decreases n,
{
    if n > 0 {
        lemma_flush_within(index, a, b, last, n - 1);
        assert(a[n - 1] == b[n - 1]);
    }
}

proof fn lemma_flush_adds(
    index: SessionIndexCache,
    a: Seq<BufferedModel>,
    b: Seq<BufferedModel>,
    last: bool,
    n: int,
)
    requires
        0 <= n <= b.len(),
    ensures
        written(index, a + b, last, a.len() + n) == written(index, a, last, a.len() as int)
            + written(index, b, last, n),
        deferred(index, a + b, last, a.len() + n) == deferred(index, a, last, a.len() as int)
            + deferred(index, b, last, n),
    decreases n,
{
    if n == 0 {
        lemma_flush_within(index, a + b, a, last, a.len() as int);
        assert(written(index, a, last, a.len() as int) + written(index, b, last, 0) =~= written(
            index,
            a,
            last,
            a.len() as int,
        ));
        assert(deferred(index, a, last, a.len() as int) + deferred(index, b, last, 0) =~= deferred(
            index,
            a,
            last,
            a.len() as int,
        ));
    } else {
        lemma_flush_adds(index, a, b, last, n - 1);
        assert((a + b)[a.len() + n - 1] == b[n - 1]);
        assert(written(index, a + b, last, a.len() + n) =~= written(index, a, last, a.len() as int)
            + written(index, b, last, n));
        assert(deferred(index, a + b, last, a.len() + n) =~= deferred(
            index,
            a,
            last,
            a.len() as int,
        ) + deferred(index, b, last, n));
    }
}

/// One outcome is written, as it is and with the label of its session's project, or held back one
/// flush longer. It is held back exactly where the index does not know its session, this is not the
/// last flush, and it has not been held back too often; written without a project where its session
/// has none.
pub proof fn law_one_outcome_is_written_or_held_back(
    index: SessionIndexCache,
    t: BufferedModel,
    last: bool,
)
    ensures
        ({
            let out = written(index, seq![t], last, 1);
            let held = deferred(index, seq![t], last, 1);
            if index.row(t.session) is None && !last && t.deferrals < 4 {
                &&& out.len() == 0
                &&& held.len() == 1
                &&& held[0].deferrals == t.deferrals + 1
                &&& held[0] == (BufferedModel { deferrals: held[0].deferrals, ..t })
            } else {
                &&& held.len() == 0
                &&& out.len() == 1
                &&& out[0].tool == t
                &&& index.row(t.session) matches Some(row) ==> out[0].project == row.label
                &&& index.row(t.session) is None ==> out[0].project.len() == 0
            }
        }),
{
    assert(seq![t][0] == t);
    reveal_with_fuel(written, 2);
    reveal_with_fuel(deferred, 2);
}

/// The buffer keeps what it holds, and takes of what comes the first that fit: nothing is put before
/// another, and nothing that fits is dropped.
pub proof fn law_the_buffer_takes_what_fits(buf: Seq<BufferedModel>, more: Seq<BufferedModel>)
    requires
        buf.len() <= 100_000,
    ensures
        ({
            let after = buffered(buf, more);
            &&& after.len() == if buf.len() + more.len() <= 100_000 {
                buf.len() + more.len()
            } else {
                100_000
            }
            &&& forall|i: int| 0 <= i < buf.len() ==> #[trigger] after[i] == buf[i]
            &&& forall|i: int| buf.len() <= i < after.len() ==> #[trigger] after[i] == more[i - buf.len()]
        }),
{
}

/// Dropped outcomes are logged with how many there are by now, at the first and then whenever
/// another thousand is full.
pub proof fn law_drops_are_logged_by_the_thousand(before: u64, n: u64)
    requires
        before + n <= u64::MAX,
    ensures
        tool_drop_text(before, n) is Some <==> before == 0 || before / 1_000 != (before + n) / 1_000,
        tool_drop_text(before, n) matches Some(text) ==> text
            == "hatel: tool buffer full — dropped "@ + nat_text((before + n) as nat)
            + " tool record(s) so far (persist falling behind)"@,
{
}

// ---------------------------------------------------------------------------------------------
// Totals over a restart
// ---------------------------------------------------------------------------------------------

/// Increments go on from what an earlier run left; a total carries it already.
pub proof fn law_a_total_goes_on(current: i64, base: i64)
    ensures
        continued(current, Some(base), true) - current == base,
        continued(current, Some(base), false) == current,
        continued(current, None, true) == current,
        continued(current, None, false) == current,
{
}

/// Every measure of a session's row goes on from its own, by its own rule: what the row says of one
/// does not depend on how another comes.
pub proof fn law_each_measure_goes_on_by_its_own_rule(
    index: SessionIndexCache,
    base: CostRow,
    t: Totals,
    ts: Seq<char>,
)
    ensures
        ({
            let row = row_of(index, Some(&base), t, ts);
            let first = row_of(index, None, t, ts);
            &&& row.session == t.session_id@
            &&& row.ts == ts
            &&& index.project_row(t.session_id@) matches Some(p) ==> row.project == p.label
            &&& index.project_row(t.session_id@) is None ==> row.project.len() == 0
            &&& t.tokens_delta ==> row.tokens == t.tokens + base.tokens
            &&& !t.tokens_delta ==> row.tokens == t.tokens
            &&& t.lines_delta ==> row.lines == t.lines + base.lines
            &&& !t.lines_delta ==> row.lines == t.lines
            &&& t.cost_delta ==> row.costs == seq![
                number_text(t.cost_usd),
                number_text(base.cost_usd),
            ]
            &&& !t.cost_delta ==> row.costs == seq![number_text(t.cost_usd)]
            &&& t.active_delta ==> row.actives == seq![
                number_text(t.active_time_s),
                number_text(base.active_time_s),
            ]
            &&& !t.active_delta ==> row.actives == seq![number_text(t.active_time_s)]
            &&& first.tokens == t.tokens
            &&& first.lines == t.lines
            &&& first.costs == seq![number_text(t.cost_usd)]
            &&& first.actives == seq![number_text(t.active_time_s)]
        }),
{
}

/// A breakdown of tokens goes on key by key: a key of both runs adds up where the tokens come as
/// increments, and has the current count where they come as a total; a key of one run only has that
/// run's count; and there is no other.
pub proof fn law_counts_go_on_key_by_key(
    base: Map<Seq<char>, i64>,
    current: Map<Seq<char>, i64>,
    delta: bool,
    k: Seq<char>,
)
    requires
        base.contains_key(k) && current.contains_key(k) ==> i64::MIN <= base[k] + current[k]
            <= i64::MAX,
    ensures
        ({
            let all = merged_counts(base, current, delta);
            &&& all.contains_key(k) <==> base.contains_key(k) || current.contains_key(k)
            &&& base.contains_key(k) && !current.contains_key(k) ==> all[k] == base[k]
            &&& !base.contains_key(k) && current.contains_key(k) ==> all[k] == current[k]
            &&& base.contains_key(k) && current.contains_key(k) && delta ==> all[k] == base[k]
                + current[k]
            &&& base.contains_key(k) && current.contains_key(k) && !delta ==> all[k] == current[k]
        }),
{
}

/// A breakdown of spend goes on bucket by bucket, its tokens and its costs each by their own rule.
pub proof fn law_spend_goes_on_bucket_by_bucket(
    base: Map<Seq<char>, SpendModel>,
    current: Map<Seq<char>, SpendModel>,
    tokens_delta: bool,
    cost_delta: bool,
    k: Seq<char>,
)
    requires
        base.contains_key(k) && current.contains_key(k) ==> i64::MIN <= base[k].tokens
            + current[k].tokens <= i64::MAX,
    ensures
        ({
            let all = merged_spend(base, current, tokens_delta, cost_delta);
            let both = base.contains_key(k) && current.contains_key(k);
            &&& all.contains_key(k) <==> base.contains_key(k) || current.contains_key(k)
            &&& base.contains_key(k) && !current.contains_key(k) ==> all[k].tokens == base[k].tokens
                && all[k].costs == seq![base[k].cost]
            &&& !base.contains_key(k) && current.contains_key(k) ==> all[k].tokens
                == current[k].tokens && all[k].costs == seq![current[k].cost]
            &&& both && tokens_delta ==> all[k].tokens == base[k].tokens + current[k].tokens
            &&& both && !tokens_delta ==> all[k].tokens == current[k].tokens
            &&& both && cost_delta ==> all[k].costs == seq![base[k].cost, current[k].cost]
            &&& both && !cost_delta ==> all[k].costs == seq![current[k].cost]
        }),
{
}

/// The breakdowns of a session's row are those of its base and its run, merged: each by its own,
/// tokens where tokens come as increments and costs where costs do.
pub proof fn law_breakdowns_go_on_with_their_own(
    index: SessionIndexCache,
    base: CostRow,
    t: Totals,
    ts: Seq<char>,
)
    ensures
        ({
            let row = row_of(index, Some(&base), t, ts);
            &&& row.types == merged_counts(
                entries(base.tokens_by_type@),
                entries(t.tokens_by_type@),
                t.tokens_delta,
            )
            &&& row.models == merged_spend(
                spend_map(base.by_model@),
                spend_map(t.by_model@),
                t.tokens_delta,
                t.cost_delta,
            )
            &&& row.agents == merged_spend(
                spend_map(base.by_agent@),
                spend_map(t.by_agent@),
                t.tokens_delta,
                t.cost_delta,
            )
        }),
{
}

// ---------------------------------------------------------------------------------------------
// The snapshot
// ---------------------------------------------------------------------------------------------

proof fn lemma_last_row(rows: Seq<CostModel>, session: Seq<char>)
    ensures
        match last_row(rows, session) {
            Some(r) => exists|i: int|
                0 <= i < rows.len() && #[trigger] rows[i] == r && r.session == session && forall|
                    j: int,
                |
                    i < j < rows.len() ==> (#[trigger] rows[j]).session != session,
            None => forall|j: int| 0 <= j < rows.len() ==> (#[trigger] rows[j]).session != session,
        },
    decreases rows.len(),
{
    if rows.len() > 0 {
        let init = rows.drop_last();
        assert(rows[rows.len() - 1] == rows.last());
        if rows.last().session != session {
            lemma_last_row(init, session);
            assert forall|j: int| 0 <= j < init.len() implies #[trigger] rows[j] == init[j] by {}
            match last_row(init, session) {
                Some(r) => {
                    let i = choose|i: int|
                        0 <= i < init.len() && #[trigger] init[i] == r && r.session == session
                            && forall|j: int|
                            i < j < init.len() ==> (#[trigger] init[j]).session != session;
                    assert(rows[i] == r);
                    assert forall|j: int| i < j < rows.len() implies (#[trigger] rows[j]).session
                        != session by {
                        if j < init.len() {
                            assert(init[j] == rows[j]);
                        }
                    }
                },
                None => {},
            }
        }
    }
}

/// The row of a session is the last that stands there for it.
pub proof fn law_the_last_row_counts(rows: Seq<CostModel>, i: int)
    requires
        0 <= i < rows.len(),
        forall|j: int| i < j < rows.len() ==> (#[trigger] rows[j]).session != rows[i].session,
    ensures
        last_row(rows, rows[i].session) == Some(rows[i]),
{
    let session = rows[i].session;
    lemma_last_row(rows, session);
    match last_row(rows, session) {
        Some(r) => {
            let k = choose|k: int|
                0 <= k < rows.len() && #[trigger] rows[k] == r && r.session == session && forall|
                    j: int,
                |
                    k < j < rows.len() ==> (#[trigger] rows[j]).session != session;
            assert(k == i) by {
                if k < i {
                    assert(rows[i].session != session);
                }
                if i < k {
                    assert(rows[k].session != session);
                }
            }
        },
        None => {
            assert(rows[i].session != session);
        },
    }
}

/// A merged snapshot has for a session its row of this run, where there is one, and else the one
/// that was stored; but none whose time is unknown or before the bound.
pub proof fn law_a_merge_prefers_the_current_row(
    stored: Seq<CostModel>,
    current: Seq<CostModel>,
    since: i64,
    session: Seq<char>,
    row: CostModel,
)
    ensures
        merged_row(stored, current, session, since) == Some(row) <==> {
            &&& instant(row.ts) matches Some(at) && at.0 >= since
            &&& last_row(current, session) == Some(row) || (last_row(current, session) is None
                && last_row(stored, session) == Some(row))
        },
{
}

proof fn lemma_merged_rows(
    stored: Seq<CostModel>,
    current: Seq<CostModel>,
    sessions: Seq<Seq<char>>,
    since: i64,
)
    ensures
        forall|i: int|
            0 <= i < merged_rows(stored, current, sessions, since).len() ==> sessions.contains(
                (#[trigger] merged_rows(stored, current, sessions, since)[i]).session,
            ) && merged_row(
                stored,
                current,
                merged_rows(stored, current, sessions, since)[i].session,
                since,
            ) == Some(merged_rows(stored, current, sessions, since)[i]),
        ascending(sessions) ==> forall|i: int, j: int|
            0 <= i < j < merged_rows(stored, current, sessions, since).len()
                ==> crate::order::before(
                (#[trigger] merged_rows(stored, current, sessions, since)[i]).session,
                (#[trigger] merged_rows(stored, current, sessions, since)[j]).session,
            ),
    decreases sessions.len(),
{
    if sessions.len() > 0 {
        let init = sessions.drop_last();
        lemma_merged_rows(stored, current, init, since);
        let rest = merged_rows(stored, current, init, since);
        let all = merged_rows(stored, current, sessions, since);
        let s = sessions.last();
        lemma_last_row(current, s);
        lemma_last_row(stored, s);
        assert(sessions[sessions.len() - 1] == s);
        assert forall|x: Seq<char>| #[trigger] init.contains(x) implies sessions.contains(x) by {
            assert(sessions[init.index_of(x)] == x);
        }
        assert forall|i: int| 0 <= i < all.len() implies sessions.contains(
            (#[trigger] all[i]).session,
        ) && merged_row(stored, current, all[i].session, since) == Some(all[i]) by {
            if i < rest.len() {
                assert(all[i] == rest[i]);
                assert(init.contains(rest[i].session));
            } else {
                assert(all[i].session == s);
            }
        }
        if ascending(sessions) {
            assert(ascending(init)) by {
                assert forall|i: int, j: int| 0 <= i < j < init.len() implies crate::order::before(
                    #[trigger] init[i],
                    #[trigger] init[j],
                ) by {
                    assert(init[i] == sessions[i] && init[j] == sessions[j]);
                }
            }
            assert forall|i: int, j: int| 0 <= i < j < all.len() implies crate::order::before(
                (#[trigger] all[i]).session,
                (#[trigger] all[j]).session,
            ) by {
                assert(all[i] == rest[i]);
                if j < rest.len() {
                    assert(all[j] == rest[j]);
                } else {
                    assert(init.contains(rest[i].session));
                    let k = init.index_of(rest[i].session);
                    assert(sessions[k] == rest[i].session);
                    assert(crate::order::before(sessions[k], sessions[sessions.len() - 1]));
                }
            }
        }
    }
}

/// A merged snapshot has one row for a session, in the order of the sessions, and each is the one
/// that the merge owes its session.
pub proof fn law_a_snapshot_has_one_row_for_a_session(
    stored: Seq<CostModel>,
    current: Seq<CostModel>,
    since: i64,
)
    ensures
        ({
            let all = merged_snapshot(stored, current, since);
            &&& forall|i: int, j: int|
                0 <= i < j < all.len() ==> crate::order::before(
                    (#[trigger] all[i]).session,
                    (#[trigger] all[j]).session,
                )
            &&& forall|i: int|
                0 <= i < all.len() ==> merged_row(
                    stored,
                    current,
                    (#[trigger] all[i]).session,
                    since,
                ) == Some(all[i])
        }),
{
    let names = sessions_of(stored) + sessions_of(current);
    lemma_sorted_set(names);
    lemma_merged_rows(stored, current, crate::sorted::sorted_set(names), since);
}

/// A row says what its members say, each under its own name; a required member that is missing or of
/// another kind makes it no row, and so does a breakdown that cannot be read. A breakdown that is
/// missing is empty.
pub proof fn law_a_row_says_its_members(m: Map<Seq<char>, Tree>)
    ensures
        match cost_row_of(Tree::Obj(m)) {
            Some(r) => {
                &&& slot(m, "session_id"@) == Some(Tree::Str(r.session))
                &&& slot(m, "project"@) == Some(Tree::Str(r.project))
                &&& (slot(m, "tokens"@) matches Some(Tree::Num(n)) && int_value(n) == Some(
                    r.tokens as int,
                ))
                &&& slot(m, "cost_usd"@) == Some(Tree::Num(r.cost))
                &&& slot(m, "active_time_s"@) == Some(Tree::Num(r.active))
                &&& (slot(m, "lines"@) matches Some(Tree::Num(n)) && int_value(n) == Some(
                    r.lines as int,
                ))
                &&& slot(m, "ts"@) == Some(Tree::Str(r.ts))
                &&& match slot(m, "tokens_by_type"@) {
                    None => r.types == Map::<Seq<char>, i64>::empty(),
                    Some(t) => counts_of(t) == Some(r.types),
                }
                &&& match slot(m, "by_model"@) {
                    None => r.models == Map::<Seq<char>, SpendModel>::empty(),
                    Some(t) => spends_of(t) == Some(r.models),
                }
                &&& match slot(m, "by_agent"@) {
                    None => r.agents == Map::<Seq<char>, SpendModel>::empty(),
                    Some(t) => spends_of(t) == Some(r.agents),
                }
            },
            None => {
                ||| !(slot(m, "session_id"@) matches Some(Tree::Str(_)))
                ||| !(slot(m, "project"@) matches Some(Tree::Str(_)))
                ||| !(slot(m, "tokens"@) matches Some(t) && whole(t))
                ||| !(slot(m, "cost_usd"@) matches Some(Tree::Num(_)))
                ||| !(slot(m, "active_time_s"@) matches Some(Tree::Num(_)))
                ||| !(slot(m, "lines"@) matches Some(t) && whole(t))
                ||| !(slot(m, "ts"@) matches Some(Tree::Str(_)))
                ||| (slot(m, "tokens_by_type"@) matches Some(t) && counts_of(t) is None)
                ||| (slot(m, "by_model"@) matches Some(t) && spends_of(t) is None)
                ||| (slot(m, "by_agent"@) matches Some(t) && spends_of(t) is None)
            },
        },
{
    reveal_with_fuel(fields_in_shape, 7);
    reveal_with_fuel(in_shape, 7);
    assert(fields_in_shape(m, row_tail_shape()));
    assert(fields_in_shape(m, row_shape()));
    law_shaping_keeps_objects(Tree::Obj(m), row_shape());
}

/// A value that is a whole number within the range of a count.
pub open spec fn whole(t: Tree) -> bool {
    t matches Tree::Num(n) && int_value(n) matches Some(v) && i64::MIN <= v <= i64::MAX
}

/// A breakdown has an entry for exactly the members of its object, each with the amounts that the
/// member says; one member that says none makes it unreadable.
pub proof fn law_a_breakdown_says_its_members(m: Map<Seq<char>, Tree>, key: Seq<char>)
    ensures
        counts_of(Tree::Obj(m)) matches Some(c) ==> (c.contains_key(key) <==> m.contains_key(key))
            && (m.contains_key(key) ==> (m[key] matches Tree::Num(n) && int_value(n) == Some(
            c[key] as int,
        ))),
        m.contains_key(key) && !whole(m[key]) ==> counts_of(Tree::Obj(m)) is None,
        spends_of(Tree::Obj(m)) matches Some(c) ==> (c.contains_key(key) <==> m.contains_key(key))
            && (m.contains_key(key) ==> spend_of(m[key]) == Some(c[key])),
        m.contains_key(key) && spend_of(m[key]) is None ==> spends_of(Tree::Obj(m)) is None,
{
}

/// A spend says its tokens and its cost, each under its own name.
pub proof fn law_a_spend_says_its_members(m: Map<Seq<char>, Tree>)
    ensures
        match spend_of(Tree::Obj(m)) {
            Some(s) => {
                &&& (slot(m, "tokens"@) matches Some(Tree::Num(n)) && int_value(n) == Some(
                    s.tokens as int,
                ))
                &&& slot(m, "cost_usd"@) == Some(Tree::Num(s.cost))
            },
            None => {
                ||| !(slot(m, "tokens"@) matches Some(t) && whole(t))
                ||| !(slot(m, "cost_usd"@) matches Some(Tree::Num(_)))
            },
        },
{
    reveal_with_fuel(fields_in_shape, 4);
    reveal_with_fuel(in_shape, 4);
    assert(in_shape(Tree::Obj(m), spend_shape()));
    law_shaping_keeps_objects(Tree::Obj(m), spend_shape());
}

/// The rows that lines hold: those of the first lines and then those of the others; and a line that
/// cannot be read holds none.
pub proof fn law_rows_add_up(a: Seq<Seq<char>>, b: Seq<Seq<char>>, line: Seq<char>)
    ensures
        rows_of(a + b) == rows_of(a) + rows_of(b),
        rows_of(seq![line]) == match read_row(line) {
            Some(r) => seq![r],
            None => Seq::empty(),
        },
    decreases b.len(),
{
    let one = seq![line];
    assert(one.drop_last() =~= Seq::<Seq<char>>::empty());
    assert(rows_of(one.drop_last()) =~= Seq::<CostModel>::empty());
    assert(one.last() == line);
    if b.len() == 0 {
        assert(a + b =~= a);
        assert(rows_of(a) + rows_of(b) =~= rows_of(a));
    } else {
        law_rows_add_up(a, b.drop_last(), line);
        assert((a + b).drop_last() =~= a + b.drop_last());
        assert((a + b).last() == b.last());
        assert(rows_of(a + b) =~= rows_of(a) + rows_of(b));
    }
}

/// A snapshot has a line for each of its rows; one without rows has no text.
pub proof fn law_a_snapshot_has_a_line_for_each_row(
    rows: Seq<CostModel>,
    more: Seq<CostModel>,
    row: CostModel,
)
    ensures
        row_lines(rows + more) == row_lines(rows) + row_lines(more),
        row_lines(seq![row]) == seq![object_text(row_members(row))],
        row_lines(rows).len() == rows.len(),
        snapshot_of(rows) is None <==> rows.len() == 0,
        rows.len() > 0 ==> snapshot_of(rows) == Some(joined(row_lines(rows), "\n"@) + "\n"@),
{
    assert(row_lines(rows + more) =~= row_lines(rows) + row_lines(more));
    assert(row_lines(seq![row]) =~= seq![object_text(row_members(row))]);
}

// ---------------------------------------------------------------------------------------------
// The live view
// ---------------------------------------------------------------------------------------------

/// A session is shown where all are; else where its label is the one asked for; else, where there is
/// a current project, where that is its own; and any where neither is.
pub proof fn law_a_session_is_shown_where_it_is_asked_for(
    all: bool,
    filter: Option<Seq<char>>,
    current: Option<Seq<char>>,
    key: Seq<char>,
    label: Seq<char>,
)
    ensures
        shown(true, filter, current, key, label),
        filter matches Some(f) ==> (shown(false, filter, current, key, label) <==> label == f),
        filter is None && current is Some ==> (shown(false, filter, current, key, label) <==> current
            == Some(key)),
        filter is None && current is None ==> shown(false, filter, current, key, label),
{
}

/// A text is cut to its first characters, and kept where it has no more than these.
pub proof fn law_a_cut_text_is_a_beginning(s: Seq<char>, n: int)
    requires
        n >= 0,
    ensures
        cut(s, n).is_prefix_of(s),
        cut(s, n).len() == if s.len() <= n {
            s.len() as int
        } else {
            n
        },
{
}

/// A cell on the right ends with its text, one on the left begins with it; either is as wide as its
/// column, or as its text where that is wider, and the rest of it is spaces.
pub proof fn law_a_cell_holds_its_text(s: Seq<char>, width: int)
    requires
        width >= 0,
    ensures
        s.is_suffix_of(right(s, width)),
        s.is_prefix_of(filled(s, width)),
        right(s, width).len() == if s.len() > width {
            s.len() as int
        } else {
            width
        },
        filled(s, width).len() == right(s, width).len(),
        forall|i: int| 0 <= i < width - s.len() ==> #[trigger] right(s, width)[i] == ' ',
        forall|i: int| s.len() <= i < width ==> #[trigger] filled(s, width)[i] == ' ',
{
    let r = right(s, width);
    let f = filled(s, width);
    assert(r.subrange(r.len() - s.len(), r.len() as int) =~= s);
    assert(f.subrange(0, s.len() as int) =~= s);
}

/// A cell stands in its column of a line.
pub open spec fn column(line: Seq<char>, from: int, to: int, cell: Seq<char>) -> bool {
    0 <= from <= to <= line.len() && line.subrange(from, to) == cell
}

/// Nine cells in their columns, one space between each two, and the end of the line.
pub open spec fn in_columns(
    line: Seq<char>,
    session: Seq<char>,
    project: Seq<char>,
    tokens: Seq<char>,
    cost: Seq<char>,
    active: Seq<char>,
    lines: Seq<char>,
    prompts: Seq<char>,
    skills: Seq<char>,
    decisions: Seq<char>,
) -> bool {
    &&& column(line, 0, 8, filled(session, 8))
    &&& column(line, 9, 29, filled(project, 20))
    &&& column(line, 30, 39, right(tokens, 9))
    &&& column(line, 40, 49, right(cost, 9))
    &&& column(line, 50, 58, right(active, 8))
    &&& column(line, 59, 65, right(lines, 6))
    &&& column(line, 66, 73, right(prompts, 7))
    &&& column(line, 74, 80, right(skills, 6))
    &&& column(line, 81, 90, right(decisions, 9))
    &&& line.len() == 91
    &&& line[90] == '\n'
    &&& line[8] == ' ' && line[29] == ' ' && line[39] == ' ' && line[49] == ' ' && line[58] == ' '
        && line[65] == ' ' && line[73] == ' ' && line[80] == ' '
}

/// A row of the live view has each of its cells in the column that its name heads.
#[verifier::rlimit(30)]
pub proof fn law_every_cell_stands_in_its_column(r: LiveRow)
    requires
        r.tokens@.len() <= 9,
        r.cost@.len() <= 9,
        r.active@.len() <= 8,
        r.lines@.len() <= 6,
        r.prompts@.len() <= 7,
        r.skills@.len() <= 6,
        r.decisions@.len() <= 9,
    ensures
        in_columns(
            live_line(r),
            cut(r.session@, 8),
            cut(r.project@, 20),
            r.tokens@,
            r.cost@,
            r.active@,
            r.lines@,
            r.prompts@,
            r.skills@,
            r.decisions@,
        ),
        in_columns(
            live_header(),
            "session"@,
            "project"@,
            "tokens"@,
            "cost$"@,
            "active_s"@,
            "lines"@,
            "prompts"@,
            "skills"@,
            "decisions"@,
        ),
{
    reveal_strlit(" ");
    reveal_strlit("\n");
    reveal_strlit("session");
    reveal_strlit("project");
    reveal_strlit("tokens");
    reveal_strlit("cost$");
    reveal_strlit("active_s");
    reveal_strlit("lines");
    reveal_strlit("prompts");
    reveal_strlit("skills");
    reveal_strlit("decisions");
    lemma_columns(
        cut(r.session@, 8),
        cut(r.project@, 20),
        r.tokens@,
        r.cost@,
        r.active@,
        r.lines@,
        r.prompts@,
        r.skills@,
        r.decisions@,
    );
    lemma_columns(
        "session"@,
        "project"@,
        "tokens"@,
        "cost$"@,
        "active_s"@,
        "lines"@,
        "prompts"@,
        "skills"@,
        "decisions"@,
    );
}

#[verifier::rlimit(50)]
proof fn lemma_columns(
    a: Seq<char>,
    b: Seq<char>,
    c: Seq<char>,
    d: Seq<char>,
    e: Seq<char>,
    f: Seq<char>,
    g: Seq<char>,
    h: Seq<char>,
    i: Seq<char>,
)
    requires
        a.len() <= 8,
        b.len() <= 20,
        c.len() <= 9,
        d.len() <= 9,
        e.len() <= 8,
        f.len() <= 6,
        g.len() <= 7,
        h.len() <= 6,
        i.len() <= 9,
    ensures
        in_columns(
            filled(a, 8) + " "@ + filled(b, 20) + " "@ + right(c, 9) + " "@ + right(d, 9) + " "@
                + right(e, 8) + " "@ + right(f, 6) + " "@ + right(g, 7) + " "@ + right(h, 6) + " "@
                + right(i, 9) + "\n"@,
            a,
            b,
            c,
            d,
            e,
            f,
            g,
            h,
            i,
        ),
{
    reveal_strlit(" ");
    reveal_strlit("\n");
    let p1 = filled(a, 8) + " "@;
    let p2 = p1 + filled(b, 20) + " "@;
    let p3 = p2 + right(c, 9) + " "@;
    let p4 = p3 + right(d, 9) + " "@;
    let p5 = p4 + right(e, 8) + " "@;
    let p6 = p5 + right(f, 6) + " "@;
    let p7 = p6 + right(g, 7) + " "@;
    let p8 = p7 + right(h, 6) + " "@;
    let line = p8 + right(i, 9) + "\n"@;
    assert(p1.len() == 9 && p2.len() == 30 && p3.len() == 40 && p4.len() == 50 && p5.len() == 59
        && p6.len() == 66 && p7.len() == 74 && p8.len() == 81 && line.len() == 91);
    assert(line.subrange(81, 90) =~= right(i, 9));
    assert(line.subrange(0, 81) =~= p8);
    assert(p8.subrange(74, 80) =~= right(h, 6));
    assert(p8.subrange(0, 74) =~= p7);
    assert(p7.subrange(66, 73) =~= right(g, 7));
    assert(p7.subrange(0, 66) =~= p6);
    assert(p6.subrange(59, 65) =~= right(f, 6));
    assert(p6.subrange(0, 59) =~= p5);
    assert(p5.subrange(50, 58) =~= right(e, 8));
    assert(p5.subrange(0, 50) =~= p4);
    assert(p4.subrange(40, 49) =~= right(d, 9));
    assert(p4.subrange(0, 40) =~= p3);
    assert(p3.subrange(30, 39) =~= right(c, 9));
    assert(p3.subrange(0, 30) =~= p2);
    assert(p2.subrange(9, 29) =~= filled(b, 20));
    assert(p2.subrange(0, 9) =~= p1);
    assert(p1.subrange(0, 8) =~= filled(a, 8));
    lemma_within(line, p8, 74, 80);
    lemma_within(line, p8, 0, 74);
    lemma_within(line, p7, 66, 73);
    lemma_within(line, p7, 0, 66);
    lemma_within(line, p6, 59, 65);
    lemma_within(line, p6, 0, 59);
    lemma_within(line, p5, 50, 58);
    lemma_within(line, p5, 0, 50);
    lemma_within(line, p4, 40, 49);
    lemma_within(line, p4, 0, 40);
    lemma_within(line, p3, 30, 39);
    lemma_within(line, p3, 0, 30);
    lemma_within(line, p2, 9, 29);
    lemma_within(line, p2, 0, 9);
    lemma_within(line, p1, 0, 8);
    assert(line[80] == p8[80] && p8[80] == ' ');
    assert(line[73] == p7[73] && p7[73] == ' ');
    assert(line[65] == p6[65] && p6[65] == ' ');
    assert(line[58] == p5[58] && p5[58] == ' ');
    assert(line[49] == p4[49] && p4[49] == ' ');
    assert(line[39] == p3[39] && p3[39] == ' ');
    assert(line[29] == p2[29] && p2[29] == ' ');
    assert(line[8] == p1[8] && p1[8] == ' ');
}

proof fn lemma_within(line: Seq<char>, part: Seq<char>, from: int, to: int)
    requires
        0 <= from <= to <= part.len() <= line.len(),
        line.subrange(0, part.len() as int) == part,
    ensures
        line.subrange(from, to) == part.subrange(from, to),
        forall|k: int| 0 <= k < part.len() ==> #[trigger] line[k] == part[k],
{
    assert forall|k: int| 0 <= k < part.len() implies #[trigger] line[k] == part[k] by {
        assert(line.subrange(0, part.len() as int)[k] == line[k]);
    }
    assert(line.subrange(from, to) =~= part.subrange(from, to));
}

/// The agents of a session have a line each, in their order, where one of them is a subagent, and
/// none where all of them are the session itself.
pub proof fn law_agents_are_listed_where_there_is_a_subagent(v: Seq<AgentRow>)
    ensures
        agents_text(v) == if exists|i: int|
            0 <= i < v.len() && (#[trigger] v[i]).agent@ != "main"@ && v[i].agent@
                != "(unattributed)"@ {
            agent_lines(v)
        } else {
            Seq::empty()
        },
{
    if exists|i: int|
        0 <= i < v.len() && (#[trigger] v[i]).agent@ != "main"@ && v[i].agent@
            != "(unattributed)"@ {
        let i = choose|i: int|
            0 <= i < v.len() && (#[trigger] v[i]).agent@ != "main"@ && v[i].agent@
                != "(unattributed)"@;
        assert(!top_level(v[i].agent@));
    }
}

/// The lines of two lots of agents are those of the first and then those of the second; and one
/// agent has one line, which names it and ends with what it spent.
pub proof fn law_agent_lines_add_up(a: Seq<AgentRow>, b: Seq<AgentRow>, one: AgentRow)
    ensures
        agent_lines(a + b) == agent_lines(a) + agent_lines(b),
        agent_lines(seq![one]) == "  └ "@ + filled(cut(one.agent@, 27), 27) + " "@ + right(
            one.tokens@,
            9,
        ) + " "@ + right(one.cost@, 9) + "\n"@,
    decreases b.len(),
{
    let s = seq![one];
    assert(s.drop_last() =~= Seq::<AgentRow>::empty());
    assert(agent_lines(s.drop_last()) =~= Seq::<char>::empty());
    assert(s.last() == one);
    assert(agent_lines(s) =~= agent_line(one));
    if b.len() == 0 {
        assert(a + b =~= a);
        assert(agent_lines(a) + agent_lines(b) =~= agent_lines(a));
    } else {
        law_agent_lines_add_up(a, b.drop_last(), one);
        assert((a + b).drop_last() =~= a + b.drop_last());
        assert((a + b).last() == b.last());
        assert(agent_lines(a + b) =~= agent_lines(a) + agent_lines(b));
    }
}

/// The lines of two lots of sessions are those of the first and then those of the second.
pub proof fn law_listings_add_up(
    focus: Focus,
    index: SessionIndexCache,
    a: Seq<Listing>,
    b: Seq<Listing>,
)
    ensures
        listings_text(focus, index, a + b) == listings_text(focus, index, a) + listings_text(
            focus,
            index,
            b,
        ),
    decreases b.len(),
{
    if b.len() == 0 {
        assert(a + b =~= a);
        assert(listings_text(focus, index, a) + listings_text(focus, index, b) =~= listings_text(
            focus,
            index,
            a,
        ));
    } else {
        law_listings_add_up(focus, index, a, b.drop_last());
        assert((a + b).drop_last() =~= a + b.drop_last());
        assert((a + b).last() == b.last());
        assert(listings_text(focus, index, a + b) =~= listings_text(focus, index, a)
            + listings_text(focus, index, b));
    }
}

/// One session is listed by its row and its agents where it is shown, and not at all where it is
/// not. It is shown, and named, by the project that the index has for it.
pub proof fn law_one_session_has_its_row(
    focus: Focus,
    index: SessionIndexCache,
    l: Listing,
    row: LiveRow,
)
    requires
        row.session@ == l.session_id@,
        index.project_row(l.session_id@) matches Some(p) ==> row.project@ == p.label,
        index.project_row(l.session_id@) is None ==> row.project@ == "(unknown)"@,
        row.tokens@ == l.tokens@,
        row.cost@ == l.cost@,
        row.active@ == l.active@,
        row.lines@ == l.lines@,
        row.prompts@ == l.prompts@,
        row.skills@ == l.skills@,
        row.decisions@ == l.decisions@,
    ensures
        ({
            let key = match index.project_row(l.session_id@) {
                Some(p) => p.key,
                None => Seq::empty(),
            };
            listings_text(focus, index, seq![l]) == if shown(
                focus.show_all,
                opt_view(focus.filter),
                opt_view(focus.current),
                key,
                row.project@,
            ) {
                live_line(row) + agents_text(l.agents@)
            } else {
                Seq::empty()
            }
        }),
{
    let s = seq![l];
    assert(s.drop_last() =~= Seq::<Listing>::empty());
    assert(listings_text(focus, index, s.drop_last()) =~= Seq::<char>::empty());
    assert(s.last() == l);
    assert(listings_text(focus, index, s) =~= listing_text(focus, index, l));
}

/// A sweep is logged exactly where it removed something, with how much.
pub proof fn law_a_sweep_is_logged_where_it_removed(removed: u64, unit: Seq<char>, days: i64)
    ensures
        retention_text(removed, unit, days) is None <==> removed == 0,
        retention_text(removed, unit, days) matches Some(text) ==> text
            == "hatel: retention — removed "@ + nat_text(removed as nat) + " "@ + unit
            + " older than "@ + int_text(days as int) + " days"@,
{
}

/// A destination is announced by its endpoint, its mode and its projects, and by nothing else of it:
/// two that differ in their headers only are announced alike.
pub proof fn law_an_announcement_names_no_header(a: TargetModel, b: TargetModel)
    requires
        a.endpoint == b.endpoint,
        a.mode == b.mode,
        a.filter == b.filter,
    ensures
        announced(a) == announced(b),
{
}

} // verus!
