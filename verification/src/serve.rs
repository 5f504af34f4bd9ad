//! The receiver's decisions: which tool outcomes are buffered, written or held back, what a flush
//! adds to the totals of an earlier run, and the lines of the live view.
use vstd::prelude::*;
use crate::assoc::entries;
use crate::cost::{
    copy_counts, counts_fit, merge_counts, merge_spend, merged_counts, merged_spend, number_texts,
    spend_map, sum_map, sums_fit, token_sums_fit, tokens_fit, CostRow, Counts, Spend, SpendModel,
    SpendSum, SumModel,
};
use crate::decimal::{int_text, nat_text, show, show_int};
use crate::error::Error;
use crate::export::{ExportTarget, FilterModel, TargetModel};
use crate::json::{members, number_text, set_member, Json, Tree};
use crate::model::{envelope_agrees, envelope_at, enveloped, Envelope, Payload};
use crate::registry::Registry;
use crate::render::{filled, push_filled, repeated};
use crate::session::SessionIndexCache;
use crate::sink::SinkKind;
use crate::text::{
    cat2, cat3, cat4, cat5, chars_of, joined, length, opt_view, owned, same, string_of,
};
use crate::throttle::{log_due, should_log};

verus! {

broadcast use vstd::map::group_map_axioms;

/// Tool outcomes that may be buffered between flushes.
pub const MAX_TOOL_BUFFER: usize = 100_000;

/// How often a growing count of dropped outcomes is logged.
pub const TOOL_DROP_LOG_EVERY: u64 = 1_000;

/// How many flushes an outcome is held back for its session to reach the index.
pub const MAX_TOOL_DEFERRALS: u8 = 4;

// ---------------------------------------------------------------------------------------------
// Tool outcomes
// ---------------------------------------------------------------------------------------------

/// A buffered outcome of a tool call, and how many flushes it has been held back.
#[derive(Debug)]
pub struct BufferedTool {
    pub session_id: String,
    pub tool_name: String,
    pub duration_ms: i64,
    pub ok: bool,
    pub deferrals: u8,
}

#[verifier::ext_equal]
pub struct BufferedModel {
    pub session: Seq<char>,
    pub tool: Seq<char>,
    pub duration: i64,
    pub ok: bool,
    pub deferrals: u8,
}

impl BufferedTool {
    pub open spec fn model(self) -> BufferedModel {
        BufferedModel {
            session: self.session_id@,
            tool: self.tool_name@,
            duration: self.duration_ms,
            ok: self.ok,
            deferrals: self.deferrals,
        }
    }
}

pub open spec fn buffered_models(v: Seq<BufferedTool>) -> Seq<BufferedModel> {
    Seq::new(v.len(), |i: int| v[i].model())
}

/// What fits of a list behind a buffer.
pub open spec fn room_behind(held: nat) -> nat {
    if held < MAX_TOOL_BUFFER {
        (MAX_TOOL_BUFFER - held) as nat
    } else {
        0
    }
}

/// A buffer with what fits of a list behind it.
pub open spec fn buffered(buf: Seq<BufferedModel>, more: Seq<BufferedModel>) -> Seq<BufferedModel> {
    if more.len() <= room_behind(buf.len()) {
        buf + more
    } else {
        buf + more.take(room_behind(buf.len()) as int)
    }
}

/// Buffer outcomes. The buffer has a hard bound: what does not fit is dropped, and counted in the
/// result.
pub fn buffer_tool_results(buf: &mut Vec<BufferedTool>, results: Vec<BufferedTool>) -> (dropped: u64)
    ensures
        buffered_models(final(buf)@) == buffered(
            buffered_models(old(buf)@),
            buffered_models(results@),
        ),
        dropped as nat == if results@.len() <= room_behind(old(buf)@.len()) {
            0
        } else {
            (results@.len() - room_behind(old(buf)@.len())) as nat
        },
{
    let ghost start = buf@;
    let ghost all = results@;
    let room: usize = if buf.len() < MAX_TOOL_BUFFER {
        MAX_TOOL_BUFFER - buf.len()
    } else {
        0
    };
    let total = results.len();
    let mut rest = results;
    if total > room {
        rest.truncate(room);
    }
    let ghost kept = rest@;
    buf.append(&mut rest);
    proof {
        assert(buffered_models(buf@) =~= buffered_models(start) + buffered_models(kept));
        if total > room {
            assert(buffered_models(kept) =~= buffered_models(all).take(room as int));
        }
    }
    if total > room {
        (total - room) as u64
    } else {
        0
    }
}

/// The line about dropped outcomes, where it is due.
pub open spec fn tool_drop_text(before: u64, n: u64) -> Option<Seq<char>> {
    if before + n <= u64::MAX && log_due(before as nat, n as nat, TOOL_DROP_LOG_EVERY as nat) {
        Some(
            "hatel: tool buffer full — dropped "@ + nat_text((before + n) as nat)
                + " tool record(s) so far (persist falling behind)"@,
        )
    } else {
        None
    }
}

/// What to log of `n` dropped outcomes, after `before` earlier ones.
pub fn record_tool_drop(before: u64, n: u64) -> (r: Option<String>)
    ensures
        opt_view(r) == tool_drop_text(before, n),
{
    if n <= u64::MAX - before && should_log(before, n, TOOL_DROP_LOG_EVERY) {
        Some(
            cat3(
                "hatel: tool buffer full — dropped ",
                &show(before + n),
                " tool record(s) so far (persist falling behind)",
            ),
        )
    } else {
        None
    }
}

/// An outcome to write, with the label of its project, which is empty where there is none.
#[derive(Debug)]
pub struct Attributed {
    pub tool: BufferedTool,
    pub project: String,
}

#[verifier::ext_equal]
pub struct AttributedModel {
    pub tool: BufferedModel,
    pub project: Seq<char>,
}

impl Attributed {
    pub open spec fn model(self) -> AttributedModel {
        AttributedModel { tool: self.tool.model(), project: self.project@ }
    }
}

pub open spec fn attributed_models(v: Seq<Attributed>) -> Seq<AttributedModel> {
    Seq::new(v.len(), |i: int| v[i].model())
}

/// An outcome is held back: the index has not seen its session yet, this is not the last flush, and
/// it has not been held back too often.
pub open spec fn held_back(index: SessionIndexCache, t: BufferedModel, last: bool) -> bool {
    index.row(t.session) is None && !last && t.deferrals < MAX_TOOL_DEFERRALS
}

/// The outcomes that a flush writes, of the first `n`.
pub open spec fn written(
    index: SessionIndexCache,
    drained: Seq<BufferedModel>,
    last: bool,
    n: int,
) -> Seq<AttributedModel>
    decreases n,
{
    if n <= 0 {
        Seq::empty()
    } else {
        let rest = written(index, drained, last, n - 1);
        let t = drained[n - 1];
        if held_back(index, t, last) {
            rest
        } else {
            rest.push(
                AttributedModel {
                    tool: t,
                    project: match index.project_row(t.session) {
                        Some(row) => row.label,
                        None => Seq::empty(),
                    },
                },
            )
        }
    }
}

/// The outcomes that a flush holds back, of the first `n`, each one flush older.
pub open spec fn deferred(
    index: SessionIndexCache,
    drained: Seq<BufferedModel>,
    last: bool,
    n: int,
) -> Seq<BufferedModel>
    decreases n,
{
    if n <= 0 {
        Seq::empty()
    } else {
        let rest = deferred(index, drained, last, n - 1);
        let t = drained[n - 1];
        if held_back(index, t, last) {
            rest.push(BufferedModel { deferrals: (t.deferrals + 1) as u8, ..t })
        } else {
            rest
        }
    }
}

/// Part drained outcomes into those that are written now and those that are held back for their
/// session to reach the index.
pub fn persist_tool(drained: Vec<BufferedTool>, index: &SessionIndexCache, last: bool) -> (r: (
    Vec<Attributed>,
    Vec<BufferedTool>,
))
    ensures
        attributed_models(r.0@) == written(
            *index,
            buffered_models(drained@),
            last,
            drained@.len() as int,
        ),
        buffered_models(r.1@) == deferred(
            *index,
            buffered_models(drained@),
            last,
            drained@.len() as int,
        ),
{
    let ghost all = buffered_models(drained@);
    let mut now: Vec<Attributed> = Vec::new();
    let mut later: Vec<BufferedTool> = Vec::new();
    let mut i: usize = 0;
    assert(attributed_models(now@) =~= Seq::<AttributedModel>::empty());
    assert(buffered_models(later@) =~= Seq::<BufferedModel>::empty());
    while i < drained.len()
        invariant
            0 <= i <= drained.len(),
            all == buffered_models(drained@),
            attributed_models(now@) == written(*index, all, last, i as int),
            buffered_models(later@) == deferred(*index, all, last, i as int),
        decreases drained.len() - i,
    {
        let t = &drained[i];
        assert(all[i as int] == t.model());
        let project = index.label(&t.session_id);
        let mut copy = BufferedTool {
            session_id: owned(&t.session_id),
            tool_name: owned(&t.tool_name),
            duration_ms: t.duration_ms,
            ok: t.ok,
            deferrals: t.deferrals,
        };
        if !index.contains(&t.session_id) && !last && t.deferrals < MAX_TOOL_DEFERRALS {
            let ghost held = later@;
            copy.deferrals = t.deferrals + 1;
            later.push(copy);
            assert(buffered_models(later@) =~= buffered_models(held).push(copy.model()));
        } else {
            let ghost held = now@;
            let label = match project {
                Some(l) => l,
                None => {
                    let out = String::new();
                    assert(out@ =~= Seq::<char>::empty());
                    out
                },
            };
            let one = Attributed { tool: copy, project: label };
            now.push(one);
            assert(attributed_models(now@) =~= attributed_models(held).push(one.model()));
        }
        i = i + 1;
    }
    (now, later)
}

/// The payload of an outcome: these five fields and nothing else of the event it came from.
pub open spec fn tool_payload_of(t: AttributedModel) -> Map<Seq<char>, Tree> {
    map![
        "session_id"@ => Tree::Str(t.tool.session),
        "project"@ => Tree::Str(t.project),
        "tool_name"@ => Tree::Str(t.tool.tool),
        "duration_ms"@ => Tree::Num(int_text(t.tool.duration as int)),
        "ok"@ => Tree::Num(int_text(if t.tool.ok { 1 } else { 0 })),
    ]
}

/// The payload of an outcome.
pub fn tool_payload(t: &Attributed) -> (r: Payload)
    ensures
        members(r@) == tool_payload_of(t.model()),
{
    let mut m: Payload = Vec::new();
    set_member(&mut m, "session_id", Json::text(&t.tool.session_id));
    set_member(&mut m, "project", Json::text(&t.project));
    set_member(&mut m, "tool_name", Json::text(&t.tool.tool_name));
    set_member(&mut m, "duration_ms", Json::integer(t.tool.duration_ms));
    let ok: i64 = if t.tool.ok {
        1
    } else {
        0
    };
    set_member(&mut m, "ok", Json::integer(ok));
    assert(members(m@) =~= tool_payload_of(t.model()));
    m
}

/// The record of an outcome at a given time.
pub fn tool_record_at(t: &Attributed, reg: &Registry, strict: bool, ts: String) -> (r: Result<
    Envelope,
    Error,
>)
    ensures
        envelope_agrees(
            r,
            enveloped("tool"@, tool_payload_of(t.model()), reg.model(), strict, ts@),
        ),
{
    envelope_at("tool", tool_payload(t), reg, strict, ts)
}

/// The last flush holds nothing back, and every flush writes or holds back each outcome.
pub proof fn law_no_outcome_is_lost(
    index: SessionIndexCache,
    drained: Seq<BufferedModel>,
    last: bool,
    n: int,
)
    requires
        0 <= n <= drained.len(),
    ensures
        written(index, drained, last, n).len() + deferred(index, drained, last, n).len() == n,
        last ==> deferred(index, drained, last, n).len() == 0,
    decreases n,
{
    if n > 0 {
        law_no_outcome_is_lost(index, drained, last, n - 1);
    }
}

/// An outcome is held back a bounded number of times, however long its session stays unknown.
pub proof fn law_an_outcome_is_held_back_only_so_often(
    index: SessionIndexCache,
    drained: Seq<BufferedModel>,
    last: bool,
    n: int,
)
    requires
        0 <= n <= drained.len(),
    ensures
        forall|i: int|
            0 <= i < deferred(index, drained, last, n).len() ==> (#[trigger] deferred(
                index,
                drained,
                last,
                n,
            )[i]).deferrals <= MAX_TOOL_DEFERRALS,
    decreases n,
{
    if n > 0 {
        law_an_outcome_is_held_back_only_so_often(index, drained, last, n - 1);
        let rest = deferred(index, drained, last, n - 1);
        let whole = deferred(index, drained, last, n);
        assert forall|i: int| 0 <= i < whole.len() implies (#[trigger] whole[i]).deferrals
            <= MAX_TOOL_DEFERRALS by {
            if i < rest.len() {
                assert(whole[i] == rest[i]);
            }
        }
    }
}

/// The buffer stays within its bound.
pub proof fn law_the_buffer_is_bounded(buf: Seq<BufferedModel>, more: Seq<BufferedModel>)
    requires
        buf.len() <= MAX_TOOL_BUFFER,
    ensures
        buffered(buf, more).len() <= MAX_TOOL_BUFFER,
{
}

// ---------------------------------------------------------------------------------------------
// Totals across a restart
// ---------------------------------------------------------------------------------------------

/// A total continued over a restart.
pub open spec fn continued(current: i64, base: Option<i64>, delta: bool) -> int {
    match base {
        Some(b) => if delta {
            current + b
        } else {
            current as int
        },
        None => current as int,
    }
}

/// Continue a total over a restart: what the earlier run counted is added where the metric comes
/// as increments; one that comes as a total carries it already.
pub fn add_baseline(current: i64, base: Option<i64>, delta: bool) -> (r: i64)
    requires
        i64::MIN <= continued(current, base, delta) <= i64::MAX,
    ensures
        r == continued(current, base, delta),
{
    match base {
        Some(b) => if delta {
            current + b
        } else {
            current
        },
        None => current,
    }
}

/// What one session spent in this run, and which of its metrics come as increments.
#[derive(Debug)]
pub struct Totals {
    pub session_id: String,
    pub tokens: i64,
    pub cost_usd: serde_json::Number,
    pub active_time_s: serde_json::Number,
    pub lines: i64,
    pub tokens_by_type: Counts,
    pub by_model: Vec<(String, Spend)>,
    pub by_agent: Vec<(String, Spend)>,
    pub tokens_delta: bool,
    pub cost_delta: bool,
    pub active_delta: bool,
    pub lines_delta: bool,
}

/// A row of the snapshot, with the amounts whose sums it holds not added up yet.
#[derive(Debug)]
pub struct RowSums {
    pub session_id: String,
    pub project: String,
    pub tokens: i64,
    pub costs: Vec<serde_json::Number>,
    pub active_times: Vec<serde_json::Number>,
    pub lines: i64,
    pub tokens_by_type: Counts,
    pub by_model: Vec<(String, SpendSum)>,
    pub by_agent: Vec<(String, SpendSum)>,
    pub ts: String,
}

#[verifier::ext_equal]
pub struct RowSumsModel {
    pub session: Seq<char>,
    pub project: Seq<char>,
    pub tokens: int,
    pub costs: Seq<Seq<char>>,
    pub actives: Seq<Seq<char>>,
    pub lines: int,
    pub types: Map<Seq<char>, i64>,
    pub models: Map<Seq<char>, SumModel>,
    pub agents: Map<Seq<char>, SumModel>,
    pub ts: Seq<char>,
}

impl RowSums {
    pub open spec fn model(self) -> RowSumsModel {
        RowSumsModel {
            session: self.session_id@,
            project: self.project@,
            tokens: self.tokens as int,
            costs: number_texts(self.costs@),
            actives: number_texts(self.active_times@),
            lines: self.lines as int,
            types: entries(self.tokens_by_type@),
            models: sum_map(self.by_model@),
            agents: sum_map(self.by_agent@),
            ts: self.ts@,
        }
    }
}

/// The row that the snapshot kept of a session before this run; one without any is empty.
pub open spec fn base_types(base: Option<&CostRow>) -> Map<Seq<char>, i64> {
    match base {
        Some(b) => entries(b.tokens_by_type@),
        None => Map::empty(),
    }
}

pub open spec fn base_models(base: Option<&CostRow>) -> Map<Seq<char>, SpendModel> {
    match base {
        Some(b) => spend_map(b.by_model@),
        None => Map::empty(),
    }
}

pub open spec fn base_agents(base: Option<&CostRow>) -> Map<Seq<char>, SpendModel> {
    match base {
        Some(b) => spend_map(b.by_agent@),
        None => Map::empty(),
    }
}

pub open spec fn base_tokens(base: Option<&CostRow>) -> Option<i64> {
    match base {
        Some(b) => Some(b.tokens),
        None => None,
    }
}

pub open spec fn base_lines(base: Option<&CostRow>) -> Option<i64> {
    match base {
        Some(b) => Some(b.lines),
        None => None,
    }
}

/// The amounts that an amount continued over a restart is the sum of.
pub open spec fn continued_amounts(
    current: serde_json::Number,
    base: Option<serde_json::Number>,
    delta: bool,
) -> Seq<Seq<char>> {
    match base {
        Some(b) => if delta {
            seq![number_text(current), number_text(b)]
        } else {
            seq![number_text(current)]
        },
        None => seq![number_text(current)],
    }
}

pub open spec fn base_cost(base: Option<&CostRow>) -> Option<serde_json::Number> {
    match base {
        Some(b) => Some(b.cost_usd),
        None => None,
    }
}

pub open spec fn base_active(base: Option<&CostRow>) -> Option<serde_json::Number> {
    match base {
        Some(b) => Some(b.active_time_s),
        None => None,
    }
}

/// No sum over a restart leaves the range of a count.
pub open spec fn row_fits(base: Option<&CostRow>, t: Totals) -> bool {
    &&& i64::MIN <= continued(t.tokens, base_tokens(base), t.tokens_delta) <= i64::MAX
    &&& i64::MIN <= continued(t.lines, base_lines(base), t.lines_delta) <= i64::MAX
    &&& sums_fit(base_types(base), entries(t.tokens_by_type@), t.tokens_delta)
    &&& token_sums_fit(base_models(base), spend_map(t.by_model@), t.tokens_delta)
    &&& token_sums_fit(base_agents(base), spend_map(t.by_agent@), t.tokens_delta)
}

/// A session's row: every metric is continued from what the earlier run left, each in its own way,
/// so that a session whose metrics come in both ways is right too.
pub open spec fn row_of(
    index: SessionIndexCache,
    base: Option<&CostRow>,
    t: Totals,
    ts: Seq<char>,
) -> RowSumsModel {
    RowSumsModel {
        session: t.session_id@,
        project: match index.project_row(t.session_id@) {
            Some(row) => row.label,
            None => Seq::empty(),
        },
        tokens: continued(t.tokens, base_tokens(base), t.tokens_delta),
        costs: continued_amounts(t.cost_usd, base_cost(base), t.cost_delta),
        actives: continued_amounts(t.active_time_s, base_active(base), t.active_delta),
        lines: continued(t.lines, base_lines(base), t.lines_delta),
        types: merged_counts(base_types(base), entries(t.tokens_by_type@), t.tokens_delta),
        models: merged_spend(
            base_models(base),
            spend_map(t.by_model@),
            t.tokens_delta,
            t.cost_delta,
        ),
        agents: merged_spend(
            base_agents(base),
            spend_map(t.by_agent@),
            t.tokens_delta,
            t.cost_delta,
        ),
        ts,
    }
}

/// Whether the sums of a session's row stay within the range of a count.
pub fn totals_fit(base: Option<&CostRow>, t: &Totals) -> (r: bool)
    ensures
        r == row_fits(base, *t),
{
    match base {
        Some(b) => {
            (!t.tokens_delta || t.tokens.checked_add(b.tokens).is_some()) && (!t.lines_delta
                || t.lines.checked_add(b.lines).is_some()) && counts_fit(
                &b.tokens_by_type,
                &t.tokens_by_type,
                t.tokens_delta,
            ) && tokens_fit(&b.by_model, &t.by_model, t.tokens_delta) && tokens_fit(
                &b.by_agent,
                &t.by_agent,
                t.tokens_delta,
            )
        },
        None => true,
    }
}

fn amounts(current: &serde_json::Number, base: Option<&serde_json::Number>, delta: bool) -> (r: Vec<
    serde_json::Number,
>)
    ensures
        number_texts(r@) == continued_amounts(
            *current,
            match base {
                Some(b) => Some(*b),
                None => None,
            },
            delta,
        ),
{
    let mut out: Vec<serde_json::Number> = Vec::new();
    out.push(current.clone());
    if delta {
        if let Some(b) = base {
            out.push(b.clone());
        }
    }
    assert(number_texts(out@) =~= continued_amounts(
        *current,
        match base {
            Some(b) => Some(*b),
            None => None,
        },
        delta,
    ));
    out
}

/// The row of a session at a given time. The project is the one that the index attributes the
/// session to; where it knows none, it is empty.
pub fn continued_row(
    index: &SessionIndexCache,
    base: Option<&CostRow>,
    t: &Totals,
    ts: &str,
) -> (r: RowSums)
    requires
        row_fits(base, *t),
    ensures
        r.model() == row_of(*index, base, *t, ts@),
{
    let project = match index.label(&t.session_id) {
        Some(l) => l,
        None => {
            let out = String::new();
            assert(out@ =~= Seq::<char>::empty());
            out
        },
    };
    let none_counts: Counts = Vec::new();
    let none_spend: Vec<(String, Spend)> = Vec::new();
    assert(spend_map(none_spend@) =~= Map::<Seq<char>, SpendModel>::empty());
    let (types, models, agents, tokens, lines, cost, active) = match base {
        Some(b) => (
            &b.tokens_by_type,
            &b.by_model,
            &b.by_agent,
            Some(b.tokens),
            Some(b.lines),
            Some(&b.cost_usd),
            Some(&b.active_time_s),
        ),
        None => (&none_counts, &none_spend, &none_spend, None, None, None, None),
    };
    RowSums {
        session_id: owned(&t.session_id),
        project,
        tokens: add_baseline(t.tokens, tokens, t.tokens_delta),
        costs: amounts(&t.cost_usd, cost, t.cost_delta),
        active_times: amounts(&t.active_time_s, active, t.active_delta),
        lines: add_baseline(t.lines, lines, t.lines_delta),
        tokens_by_type: merge_counts(types, copy_counts(&t.tokens_by_type), t.tokens_delta),
        by_model: merge_spend(models, &t.by_model, t.tokens_delta, t.cost_delta),
        by_agent: merge_spend(agents, &t.by_agent, t.tokens_delta, t.cost_delta),
        ts: owned(ts),
    }
}

/// A metric that comes as a total already carries what an earlier run counted: nothing is added to
/// it, so no restart counts anything twice.
pub proof fn law_a_total_is_not_counted_twice(
    index: SessionIndexCache,
    base: Option<&CostRow>,
    t: Totals,
    ts: Seq<char>,
)
    ensures
        !t.tokens_delta ==> row_of(index, base, t, ts).tokens == t.tokens,
        !t.lines_delta ==> row_of(index, base, t, ts).lines == t.lines,
        !t.cost_delta ==> row_of(index, base, t, ts).costs == seq![number_text(t.cost_usd)],
        !t.active_delta ==> row_of(index, base, t, ts).actives == seq![
            number_text(t.active_time_s),
        ],
{
}

// ---------------------------------------------------------------------------------------------
// Retention
// ---------------------------------------------------------------------------------------------

/// The line about what retention removed, where it removed anything.
pub open spec fn retention_text(removed: u64, unit: Seq<char>, days: i64) -> Option<Seq<char>> {
    if removed == 0 {
        None
    } else {
        Some(
            "hatel: retention — removed "@ + nat_text(removed as nat) + " "@ + unit
                + " older than "@ + int_text(days as int) + " days"@,
        )
    }
}

fn retention_line(removed: u64, unit: &str, days: i64) -> (r: Option<String>)
    ensures
        opt_view(r) == retention_text(removed, unit@, days),
{
    if removed == 0 {
        None
    } else {
        let head = cat5("hatel: retention — removed ", &show(removed), " ", unit, " older than ");
        Some(cat3(&head, &show_int(days), " days"))
    }
}

/// What a sink's pruned things are called.
pub open spec fn pruned_unit(sink: SinkKind) -> Seq<char> {
    match sink {
        SinkKind::Jsonl => "archived ledger file(s)"@,
        SinkKind::Sqlite => "ledger row(s)"@,
    }
}

/// What to log of a sweep of the ledger.
pub fn ledger_pruned(removed: u64, sink: SinkKind, days: i64) -> (r: Option<String>)
    ensures
        opt_view(r) == retention_text(removed, pruned_unit(sink), days),
{
    let unit: &str = match sink {
        SinkKind::Jsonl => "archived ledger file(s)",
        SinkKind::Sqlite => "ledger row(s)",
    };
    retention_line(removed, unit, days)
}

/// What to log of a sweep of the session index.
pub fn index_pruned(removed: u64, days: i64) -> (r: Option<String>)
    ensures
        opt_view(r) == retention_text(removed, "archived session-index file(s)"@, days),
{
    retention_line(removed, "archived session-index file(s)", days)
}

// ---------------------------------------------------------------------------------------------
// The live view
// ---------------------------------------------------------------------------------------------

/// A session of the live view passes: all are shown; or those of a label; or those of the current
/// project, by its unique key.
pub open spec fn shown(
    all: bool,
    filter: Option<Seq<char>>,
    current: Option<Seq<char>>,
    key: Seq<char>,
    label: Seq<char>,
) -> bool {
    if all {
        true
    } else if let Some(f) = filter {
        label == f
    } else if let Some(k) = current {
        key == k
    } else {
        true
    }
}

/// Whether a session is shown in the live view.
pub fn passes_filter(
    all: bool,
    filter: &Option<String>,
    current: &Option<String>,
    key: &str,
    label: &str,
) -> (r: bool)
    ensures
        r == shown(all, opt_view(*filter), opt_view(*current), key@, label@),
{
    if all {
        return true;
    }
    match filter {
        Some(f) => same(label, f),
        None => match current {
            Some(k) => same(key, k),
            None => true,
        },
    }
}

/// The first characters of a text.
pub open spec fn cut(s: Seq<char>, n: int) -> Seq<char> {
    if s.len() <= n {
        s
    } else {
        s.take(n)
    }
}

/// Cut a text to a number of characters.
pub fn truncate(s: &str, n: usize) -> (r: String)
    ensures
        r@ == cut(s@, n as int),
{
    let v = chars_of(s);
    if v.len() <= n {
        owned(s)
    } else {
        string_of(&v, 0, n)
    }
}

/// A text filled with spaces on the left to a number of characters.
pub open spec fn right(s: Seq<char>, width: int) -> Seq<char> {
    repeated(' ', width - s.len()) + s
}

fn push_right(out: &mut String, s: &str, width: u64)
    ensures
        final(out)@ == old(out)@ + right(s@, width as int),
{
    let ghost start = out@;
    let len = length(s);
    let mut n: u64 = len;
    assert(start + repeated(' ', 0) =~= start);
    while n < width
        invariant
            len == s@.len(),
            n >= len,
            n <= width || n == len,
            out@ == start + repeated(' ', n - len),
        decreases width - n,
    {
        out.push(' ');
        assert(start + repeated(' ', n + 1 - len) =~= (start + repeated(' ', n - len)).push(' '));
        n = n + 1;
    }
    out.append(s);
    assert(out@ =~= start + right(s@, width as int));
}

/// The cells of a row of the live view, the amounts as they are shown.
#[derive(Debug)]
pub struct LiveRow {
    pub session: String,
    pub project: String,
    pub tokens: String,
    pub cost: String,
    pub active: String,
    pub lines: String,
    pub prompts: String,
    pub skills: String,
    pub decisions: String,
}

/// The line of a row.
pub open spec fn live_line(r: LiveRow) -> Seq<char> {
    filled(cut(r.session@, 8), 8) + " "@ + filled(cut(r.project@, 20), 20) + " "@ + right(
        r.tokens@,
        9,
    ) + " "@ + right(r.cost@, 9) + " "@ + right(r.active@, 8) + " "@ + right(r.lines@, 6) + " "@
        + right(r.prompts@, 7) + " "@ + right(r.skills@, 6) + " "@ + right(r.decisions@, 9)
        + "\n"@
}

/// Write a row of the live view.
pub fn live_row(r: &LiveRow) -> (text: String)
    ensures
        text@ == live_line(*r),
{
    let mut out = String::new();
    push_filled(&mut out, &truncate(&r.session, 8), 8);
    out.append(" ");
    push_filled(&mut out, &truncate(&r.project, 20), 20);
    out.append(" ");
    push_right(&mut out, &r.tokens, 9);
    out.append(" ");
    push_right(&mut out, &r.cost, 9);
    out.append(" ");
    push_right(&mut out, &r.active, 8);
    out.append(" ");
    push_right(&mut out, &r.lines, 6);
    out.append(" ");
    push_right(&mut out, &r.prompts, 7);
    out.append(" ");
    push_right(&mut out, &r.skills, 6);
    out.append(" ");
    push_right(&mut out, &r.decisions, 9);
    out.append("\n");
    assert(out@ =~= live_line(*r));
    out
}

/// What one agent of a session spent, as it is shown.
#[derive(Debug)]
pub struct AgentRow {
    pub agent: String,
    pub tokens: String,
    pub cost: String,
}

/// An agent that is not a subagent.
pub open spec fn top_level(agent: Seq<char>) -> bool {
    agent == "main"@ || agent == "(unattributed)"@
}

pub open spec fn agent_line(a: AgentRow) -> Seq<char> {
    "  └ "@ + filled(cut(a.agent@, 27), 27) + " "@ + right(a.tokens@, 9) + " "@ + right(a.cost@, 9)
        + "\n"@
}

pub open spec fn agent_lines(v: Seq<AgentRow>) -> Seq<char>
    decreases v.len(),
{
    if v.len() == 0 {
        Seq::empty()
    } else {
        agent_lines(v.drop_last()) + agent_line(v.last())
    }
}

/// The agents of a session, shown only where there is a subagent among them.
pub open spec fn agents_text(v: Seq<AgentRow>) -> Seq<char> {
    if forall|i: int| 0 <= i < v.len() ==> top_level((#[trigger] v[i]).agent@) {
        Seq::empty()
    } else {
        agent_lines(v)
    }
}

fn push_agent(out: &mut String, a: &AgentRow)
    ensures
        final(out)@ == old(out)@ + agent_line(*a),
{
    let ghost start = out@;
    out.append("  └ ");
    push_filled(out, &truncate(&a.agent, 27), 27);
    out.append(" ");
    push_right(out, &a.tokens, 9);
    out.append(" ");
    push_right(out, &a.cost, 9);
    out.append("\n");
    assert(out@ =~= start + agent_line(*a));
}

/// Write the agents of a session.
pub fn agent_rows(v: &Vec<AgentRow>) -> (r: String)
    ensures
        r@ == agents_text(v@),
{
    let mut named = false;
    let mut i: usize = 0;
    while i < v.len()
        invariant
            0 <= i <= v.len(),
            named == !(forall|k: int| 0 <= k < i ==> top_level((#[trigger] v@[k]).agent@)),
        decreases v.len() - i,
    {
        if !same(&v[i].agent, "main") && !same(&v[i].agent, "(unattributed)") {
            assert(!top_level(v@[i as int].agent@));
            named = true;
        }
        i = i + 1;
    }
    let mut out = String::new();
    if !named {
        assert(out@ =~= Seq::<char>::empty());
        return out;
    }
    let mut j: usize = 0;
    assert(v@.take(0) =~= Seq::<AgentRow>::empty());
    assert(out@ =~= agent_lines(v@.take(0)));
    while j < v.len()
        invariant
            0 <= j <= v.len(),
            out@ == agent_lines(v@.take(j as int)),
        decreases v.len() - j,
    {
        assert(v@.take(j + 1).drop_last() =~= v@.take(j as int));
        push_agent(&mut out, &v[j]);
        j = j + 1;
    }
    assert(v@.take(v.len() as int) =~= v@);
    out
}

/// A session of the live view, its amounts as they are shown.
#[derive(Debug)]
pub struct Listing {
    pub session_id: String,
    pub tokens: String,
    pub cost: String,
    pub active: String,
    pub lines: String,
    pub prompts: String,
    pub skills: String,
    pub decisions: String,
    pub agents: Vec<AgentRow>,
}

/// Which sessions the live view shows.
#[derive(Debug)]
pub struct Focus {
    pub show_all: bool,
    /// A label that was asked for.
    pub filter: Option<String>,
    /// The unique key of the current project.
    pub current: Option<String>,
}

/// The line of the column names.
pub open spec fn live_header() -> Seq<char> {
    filled("session"@, 8) + " "@ + filled("project"@, 20) + " "@ + right("tokens"@, 9) + " "@
        + right("cost$"@, 9) + " "@ + right("active_s"@, 8) + " "@ + right("lines"@, 6) + " "@
        + right("prompts"@, 7) + " "@ + right("skills"@, 6) + " "@ + right("decisions"@, 9)
        + "\n"@
}

/// The label a session is shown under.
pub open spec fn live_label(index: SessionIndexCache, session: Seq<char>) -> Seq<char> {
    match index.project_row(session) {
        Some(row) => row.label,
        None => "(unknown)"@,
    }
}

/// The key a session is chosen by.
pub open spec fn live_key(index: SessionIndexCache, session: Seq<char>) -> Seq<char> {
    match index.project_row(session) {
        Some(row) => row.key,
        None => Seq::empty(),
    }
}

/// The lines of a session: its row and its agents, or nothing where it is not shown.
pub open spec fn listing_text(focus: Focus, index: SessionIndexCache, l: Listing) -> Seq<char> {
    let session = l.session_id@;
    let label = live_label(index, session);
    if shown(
        focus.show_all,
        opt_view(focus.filter),
        opt_view(focus.current),
        live_key(index, session),
        label,
    ) {
        filled(cut(session, 8), 8) + " "@ + filled(cut(label, 20), 20) + " "@ + right(l.tokens@, 9)
            + " "@ + right(l.cost@, 9) + " "@ + right(l.active@, 8) + " "@ + right(l.lines@, 6)
            + " "@ + right(l.prompts@, 7) + " "@ + right(l.skills@, 6) + " "@ + right(
            l.decisions@,
            9,
        ) + "\n"@ + agents_text(l.agents@)
    } else {
        Seq::empty()
    }
}

pub open spec fn listings_text(
    focus: Focus,
    index: SessionIndexCache,
    v: Seq<Listing>,
) -> Seq<char>
    decreases v.len(),
{
    if v.len() == 0 {
        Seq::empty()
    } else {
        listings_text(focus, index, v.drop_last()) + listing_text(focus, index, v.last())
    }
}

fn push_listing(out: &mut String, focus: &Focus, index: &SessionIndexCache, l: &Listing)
    ensures
        final(out)@ == old(out)@ + listing_text(*focus, *index, *l),
{
    let ghost start = out@;
    let (label, key) = match index.project(&l.session_id) {
        Some(p) => (owned(p.0), owned(p.1)),
        None => {
            let none = String::new();
            assert(none@ =~= Seq::<char>::empty());
            (owned("(unknown)"), none)
        },
    };
    if !passes_filter(focus.show_all, &focus.filter, &focus.current, &key, &label) {
        assert(out@ =~= start + listing_text(*focus, *index, *l));
        return;
    }
    let row = LiveRow {
        session: owned(&l.session_id),
        project: label,
        tokens: owned(&l.tokens),
        cost: owned(&l.cost),
        active: owned(&l.active),
        lines: owned(&l.lines),
        prompts: owned(&l.prompts),
        skills: owned(&l.skills),
        decisions: owned(&l.decisions),
    };
    out.append(&live_row(&row));
    out.append(&agent_rows(&l.agents));
    assert(out@ =~= start + listing_text(*focus, *index, *l));
}

fn column_names() -> (r: String)
    ensures
        r@ == live_header(),
{
    let mut out = String::new();
    push_filled(&mut out, "session", 8);
    out.append(" ");
    push_filled(&mut out, "project", 20);
    out.append(" ");
    push_right(&mut out, "tokens", 9);
    out.append(" ");
    push_right(&mut out, "cost$", 9);
    out.append(" ");
    push_right(&mut out, "active_s", 8);
    out.append(" ");
    push_right(&mut out, "lines", 6);
    out.append(" ");
    push_right(&mut out, "prompts", 7);
    out.append(" ");
    push_right(&mut out, "skills", 6);
    out.append(" ");
    push_right(&mut out, "decisions", 9);
    out.append("\n");
    assert(out@ =~= live_header());
    out
}

/// The live view: the column names and, for each session that passes, its row and its agents.
pub fn live_view(focus: &Focus, index: &SessionIndexCache, v: &Vec<Listing>) -> (r: String)
    ensures
        r@ == "\n=== hatel (live) ===\n"@ + live_header() + listings_text(*focus, *index, v@),
{
    let mut out = cat2("\n=== hatel (live) ===\n", &column_names());
    let ghost head = "\n=== hatel (live) ===\n"@ + live_header();
    let mut i: usize = 0;
    assert(v@.take(0) =~= Seq::<Listing>::empty());
    assert(out@ =~= head + listings_text(*focus, *index, v@.take(0)));
    while i < v.len()
        invariant
            0 <= i <= v.len(),
            out@ == head + listings_text(*focus, *index, v@.take(i as int)),
        decreases v.len() - i,
    {
        assert(v@.take(i + 1).drop_last() =~= v@.take(i as int));
        push_listing(&mut out, focus, index, &v[i]);
        assert(out@ =~= head + listings_text(*focus, *index, v@.take(i + 1)));
        i = i + 1;
    }
    assert(v@.take(v.len() as int) =~= v@);
    out
}

// ---------------------------------------------------------------------------------------------
// Retention
// ---------------------------------------------------------------------------------------------

/// How long lies between two sweeps of what retention no longer keeps, in nanoseconds: a day.
pub const PRUNE_NANOS: u64 = 86_400_000_000_000;

/// Whether a sweep is due, `waited` nanoseconds after the last.
pub fn prune_due(waited: u64) -> (r: bool)
    ensures
        r == (waited >= PRUNE_NANOS),
{
    waited >= PRUNE_NANOS
}

// ---------------------------------------------------------------------------------------------
// The announcement
// ---------------------------------------------------------------------------------------------

/// The line that announces a destination: its endpoint, its mode, and the projects it is limited
/// to. Its headers are not said: they may be credentials.
pub open spec fn announced(t: TargetModel) -> Seq<char> {
    "  → forwarding to "@ + t.endpoint + " ("@ + t.mode.name() + (match t.filter {
        FilterModel::All => Seq::empty(),
        FilterModel::Only(v) => ", "@ + ("only: "@ + joined(v, ", "@)),
        FilterModel::Except(v) => ", "@ + ("except: "@ + joined(v, ", "@)),
    }) + ")"@
}

/// The line that a starting receiver announces a destination by.
pub fn forwarding_line(t: &ExportTarget) -> (r: String)
    ensures
        r@ == announced(t.model()),
{
    let mut out = cat4("  → forwarding to ", &t.endpoint, " (", t.mode.as_str());
    match t.filter.describe() {
        Some(d) => {
            out.append(", ");
            out.append(&d);
        },
        None => {},
    }
    out.append(")");
    assert(out@ =~= announced(t.model()));
    out
}

} // verus!
