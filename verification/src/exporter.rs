//! The decisions of the export worker: what each received body is forwarded to and in which form,
//! which bodies wait for their sessions to reach the index, and when they are given up.
//!
//! Requests, clocks and the queue itself are the caller's: a turn of the worker says what to send,
//! what to log and which bytes leave the queue.
use vstd::prelude::*;
use crate::decimal::{nat_text, show};
use crate::export::{
    accepts, target_models, ExportMode, ExportTarget, FilterModel, ProjectFilter, TargetModel,
};
use crate::report::pair_views;
use crate::session::SessionIndexCache;
use crate::text::{cat2, cat3, cat5, list_contains, opt_view, owned, owned_opt, same, views};
use crate::throttle::{log_due, should_log};
use crate::transform::{
    body_sessions, enrich_logs, enrich_metrics, enriched_body, labels_of, session_ids, text_agrees,
};

verus! {

/// Queue depth before new batches are dropped.
pub const EXPORT_QUEUE_CAP: usize = 1024;

/// Bytes that may be queued.
pub const MAX_QUEUED_BYTES: usize = 268_435_456;

/// Milliseconds a request may take where its target does not say.
pub const DEFAULT_TIMEOUT_MS: u64 = 5_000;

/// Bodies that may wait for the session index.
pub const MAX_DEFERRED: usize = 64;

/// Milliseconds that a body waits for its own sessions to reach the index.
pub const DEFER_TIMEOUT_MS: u64 = 300_000;

/// How often a growing count of drops is logged.
pub const DROP_LOG_EVERY: u64 = 100;

/// Which signal a body carries.
#[derive(Debug, Clone, Copy, PartialEq, Eq, Structural)]
pub enum OtlpSignal {
    Metrics,
    Logs,
}

impl OtlpSignal {
    pub open spec fn path_text(self) -> Seq<char> {
        match self {
            OtlpSignal::Metrics => "/v1/metrics"@,
            OtlpSignal::Logs => "/v1/logs"@,
        }
    }

    /// The path of the signal at a collector.
    pub fn path(self) -> (r: &'static str)
        ensures
            r@ == self.path_text(),
    {
        match self {
            OtlpSignal::Metrics => "/v1/metrics",
            OtlpSignal::Logs => "/v1/logs",
        }
    }
}

/// One received body, with the content headers it came with.
#[derive(Debug)]
pub struct Outbound {
    pub signal: OtlpSignal,
    pub body: Vec<u8>,
    pub content_type: Option<String>,
    pub content_encoding: Option<String>,
}

#[verifier::ext_equal]
pub struct OutModel {
    pub signal: OtlpSignal,
    pub body: Seq<u8>,
    pub content_type: Option<Seq<char>>,
    pub encoding: Option<Seq<char>>,
}

impl Outbound {
    pub open spec fn model(self) -> OutModel {
        OutModel {
            signal: self.signal,
            body: self.body@,
            content_type: opt_view(self.content_type),
            encoding: opt_view(self.content_encoding),
        }
    }

    fn duplicate(&self) -> (r: Outbound)
        ensures
            r.model() == self.model(),
    {
        let mut body: Vec<u8> = Vec::new();
        let mut i: usize = 0;
        while i < self.body.len()
            invariant
                0 <= i <= self.body.len(),
                body@ == self.body@.take(i as int),
            decreases self.body.len() - i,
        {
            body.push(self.body[i]);
            assert(self.body@.take(i + 1) =~= self.body@.take(i as int).push(self.body@[i as int]));
            i = i + 1;
        }
        assert(self.body@.take(self.body.len() as int) =~= self.body@);
        Outbound {
            signal: self.signal,
            body,
            content_type: owned_opt(&self.content_type),
            content_encoding: owned_opt(&self.content_encoding),
        }
    }
}

// ---------------------------------------------------------------------------------------------
// The queue
// ---------------------------------------------------------------------------------------------

/// Reserve the bytes of a body: the bytes queued with it, or `None` where they would pass the
/// ceiling.
pub fn reserve(queued: usize, len: usize) -> (r: Option<usize>)
    ensures
        r == (if queued + len <= MAX_QUEUED_BYTES {
            Some((queued + len) as usize)
        } else {
            None
        }),
{
    if queued <= MAX_QUEUED_BYTES && len <= MAX_QUEUED_BYTES - queued {
        Some(queued + len)
    } else {
        None
    }
}

/// A count of drops, one further; it stops at the greatest number.
pub open spec fn next_count(before: u64) -> u64 {
    if before < u64::MAX {
        (before + 1) as u64
    } else {
        before
    }
}

/// A drop that is logged.
pub open spec fn drop_due(before: u64) -> bool {
    before < u64::MAX && log_due(before as nat, 1, DROP_LOG_EVERY as nat)
}

/// The line about a full queue, where it is due.
pub open spec fn queue_line(before: u64) -> Option<Seq<char>> {
    if drop_due(before) {
        Some(
            "hatel: export queue full — dropped "@ + nat_text((before + 1) as nat)
                + " batch(es) so far (downstream slow/unreachable)"@,
        )
    } else {
        None
    }
}

/// What to log of a batch that a full queue dropped, after `before` earlier ones.
pub fn record_drop(before: u64) -> (r: Option<String>)
    ensures
        opt_view(r) == queue_line(before),
{
    if before < u64::MAX && should_log(before, 1, DROP_LOG_EVERY) {
        Some(
            cat3(
                "hatel: export queue full — dropped ",
                &show(before + 1),
                " batch(es) so far (downstream slow/unreachable)",
            ),
        )
    } else {
        None
    }
}

// ---------------------------------------------------------------------------------------------
// Batches and their projects
// ---------------------------------------------------------------------------------------------

/// The projects of a batch: label and key of each, where every session has one; the sessions that
/// the index has not seen; or nothing that could ever be resolved, as no session is named or one is
/// known to have no project.
#[derive(Debug)]
pub enum BatchProjects {
    Resolved(Vec<(String, String)>),
    Unindexed(Vec<String>),
    Unattributable,
}

#[verifier::ext_equal]
pub enum BatchModel {
    Resolved(Seq<(Seq<char>, Seq<char>)>),
    Unindexed(Seq<Seq<char>>),
    Unattributable,
}

impl BatchProjects {
    pub open spec fn model(self) -> BatchModel {
        match self {
            BatchProjects::Resolved(p) => BatchModel::Resolved(pair_views(p@)),
            BatchProjects::Unindexed(m) => BatchModel::Unindexed(views(m@)),
            BatchProjects::Unattributable => BatchModel::Unattributable,
        }
    }
}

/// The sessions among the first `n` that the index has not seen. One that is known to have no
/// project is decided: nothing is gained by waiting for it.
pub open spec fn missing_of(index: SessionIndexCache, ids: Seq<Seq<char>>, n: int) -> Seq<Seq<char>>
    decreases n,
{
    if n <= 0 {
        Seq::empty()
    } else {
        let rest = missing_of(index, ids, n - 1);
        if index.row(ids[n - 1]) is None {
            rest.push(ids[n - 1])
        } else {
            rest
        }
    }
}

/// The projects of the first `n` sessions, each once.
pub open spec fn projects_of(index: SessionIndexCache, ids: Seq<Seq<char>>, n: int) -> Seq<
    (Seq<char>, Seq<char>),
>
    decreases n,
{
    if n <= 0 {
        Seq::empty()
    } else {
        let rest = projects_of(index, ids, n - 1);
        match index.project_row(ids[n - 1]) {
            Some(row) => if rest.contains((row.label, row.key)) {
                rest
            } else {
                rest.push((row.label, row.key))
            },
            None => rest,
        }
    }
}

/// Every one of the first `n` sessions has a project.
pub open spec fn all_attributed(index: SessionIndexCache, ids: Seq<Seq<char>>, n: int) -> bool {
    forall|i: int| 0 <= i < n ==> index.project_row(#[trigger] ids[i]) is Some
}

/// The projects of a body.
pub open spec fn batch_of(index: SessionIndexCache, out: OutModel) -> BatchModel {
    match body_sessions(out.body, out.signal == OtlpSignal::Metrics) {
        None => BatchModel::Unattributable,
        Some(ids) => if ids.len() == 0 {
            BatchModel::Unattributable
        } else if missing_of(index, ids, ids.len() as int).len() > 0 {
            BatchModel::Unindexed(missing_of(index, ids, ids.len() as int))
        } else if all_attributed(index, ids, ids.len() as int) {
            BatchModel::Resolved(projects_of(index, ids, ids.len() as int))
        } else {
            BatchModel::Unattributable
        },
    }
}

fn has_pair(list: &Vec<(String, String)>, label: &str, key: &str) -> (r: bool)
    ensures
        r == pair_views(list@).contains((label@, key@)),
{
    let ghost all = pair_views(list@);
    let mut i: usize = 0;
    while i < list.len()
        invariant
            0 <= i <= list.len(),
            all == pair_views(list@),
            forall|k: int| 0 <= k < i ==> #[trigger] all[k] != (label@, key@),
        decreases list.len() - i,
    {
        assert(all[i as int] == (list@[i as int].0@, list@[i as int].1@));
        if same(&list[i].0, label) && same(&list[i].1, key) {
            assert(all.contains((label@, key@)));
            return true;
        }
        i = i + 1;
    }
    false
}

/// Resolve the projects of a body against the index.
pub fn resolve_batch_projects(index: &SessionIndexCache, out: &Outbound) -> (r: BatchProjects)
    ensures
        r.model() == batch_of(*index, out.model()),
{
    let metrics = match out.signal {
        OtlpSignal::Metrics => true,
        OtlpSignal::Logs => false,
    };
    let ids = match session_ids(&out.body, metrics) {
        Some(ids) => ids,
        None => {
            return BatchProjects::Unattributable;
        },
    };
    let ghost all = views(ids@);
    if ids.len() == 0 {
        return BatchProjects::Unattributable;
    }
    let mut projects: Vec<(String, String)> = Vec::new();
    let mut missing: Vec<String> = Vec::new();
    let mut attributed = true;
    let mut i: usize = 0;
    assert(pair_views(projects@) =~= Seq::<(Seq<char>, Seq<char>)>::empty());
    assert(views(missing@) =~= Seq::<Seq<char>>::empty());
    while i < ids.len()
        invariant
            0 <= i <= ids.len(),
            all == views(ids@),
            pair_views(projects@) == projects_of(*index, all, i as int),
            views(missing@) == missing_of(*index, all, i as int),
            attributed == all_attributed(*index, all, i as int),
        decreases ids.len() - i,
    {
        assert(all[i as int] == ids@[i as int]@);
        match index.project(&ids[i]) {
            Some((label, key)) => {
                if !has_pair(&projects, label, key) {
                    let ghost held = projects@;
                    projects.push((owned(label), owned(key)));
                    assert(pair_views(projects@) =~= pair_views(held).push((label@, key@)));
                }
            },
            None => {
                attributed = false;
                assert(index.project_row(all[i as int]) is None);
                if !index.contains(&ids[i]) {
                    let ghost held = missing@;
                    missing.push(owned(&ids[i]));
                    assert(views(missing@) =~= views(held).push(ids@[i as int]@));
                }
            },
        }
        i = i + 1;
    }
    assert(views(missing@).len() == missing.len());
    if missing.len() > 0 {
        BatchProjects::Unindexed(missing)
    } else if attributed {
        BatchProjects::Resolved(projects)
    } else {
        BatchProjects::Unattributable
    }
}

// ---------------------------------------------------------------------------------------------
// One pass over the targets
// ---------------------------------------------------------------------------------------------

/// Which targets a pass addresses.
#[derive(Debug, Clone, Copy, PartialEq, Eq, Structural)]
pub enum TargetSet {
    All,
    UnfilteredOnly,
    FilteredOnly,
}

/// A target that restricts by project.
pub open spec fn filtered(t: TargetModel) -> bool {
    t.filter != FilterModel::All
}

/// Every project of a batch passes a filter.
pub open spec fn all_pass(f: FilterModel, projects: Seq<(Seq<char>, Seq<char>)>) -> bool {
    forall|i: int|
        0 <= i < projects.len() ==> accepts(f, (#[trigger] projects[i]).0, projects[i].1)
}

/// A target that a pass sends to: it is in the set, and where it restricts by project the projects
/// of the batch are known and all pass.
pub open spec fn addressed(
    t: TargetModel,
    set: TargetSet,
    projects: Option<Seq<(Seq<char>, Seq<char>)>>,
) -> bool {
    &&& match set {
        TargetSet::All => true,
        TargetSet::UnfilteredOnly => !filtered(t),
        TargetSet::FilteredOnly => filtered(t),
    }
    &&& filtered(t) ==> (projects matches Some(p) && all_pass(t.filter, p))
}

/// One request: to which target, where, with which body (the received one where there is none),
/// headers and timeout.
#[derive(Debug)]
pub struct Sending {
    pub target: usize,
    pub url: String,
    pub enriched: Option<String>,
    pub content_type: String,
    pub content_encoding: Option<String>,
    pub timeout_ms: u64,
}

#[verifier::ext_equal]
pub struct SendingModel {
    pub target: int,
    pub url: Seq<char>,
    pub enriched: Option<Seq<char>>,
    pub content_type: Seq<char>,
    pub encoding: Option<Seq<char>>,
    pub timeout: u64,
}

impl Sending {
    pub open spec fn model(self) -> SendingModel {
        SendingModel {
            target: self.target as int,
            url: self.url@,
            enriched: opt_view(self.enriched),
            content_type: self.content_type@,
            encoding: opt_view(self.content_encoding),
            timeout: self.timeout_ms,
        }
    }
}

pub open spec fn sending_models(v: Seq<Sending>) -> Seq<SendingModel> {
    Seq::new(v.len(), |i: int| v[i].model())
}

/// The request that a target gets. A raw target gets the body as it came, with its headers; an
/// enriched one the enriched text as plain JSON, or nothing where the body cannot be enriched.
pub open spec fn prepared(
    i: int,
    t: TargetModel,
    out: OutModel,
    enriched: Result<Seq<char>, Seq<char>>,
) -> Option<SendingModel> {
    let url = t.endpoint + out.signal.path_text();
    let timeout = match t.timeout {
        Some(ms) => ms,
        None => DEFAULT_TIMEOUT_MS,
    };
    match t.mode {
        ExportMode::Raw => Some(
            SendingModel {
                target: i,
                url,
                enriched: None,
                content_type: match out.content_type {
                    Some(c) => c,
                    None => "application/json"@,
                },
                encoding: out.encoding,
                timeout,
            },
        ),
        ExportMode::Enriched => match enriched {
            Ok(text) => Some(
                SendingModel {
                    target: i,
                    url,
                    enriched: Some(text),
                    content_type: "application/json"@,
                    encoding: None,
                    timeout,
                },
            ),
            Err(_) => None,
        },
    }
}

/// The line about a target whose batches cannot be enriched.
pub open spec fn skip_line(endpoint: Seq<char>, reason: Seq<char>) -> Seq<char> {
    "hatel: export enrich failed for "@ + endpoint + " ("@ + reason
        + ") — skipping its batches (enriched needs http/json; see `hatel doctor`)"@
}

/// What a pass does: what it sends, what it logs, and the endpoints warned about after it.
#[verifier::ext_equal]
pub struct PassModel {
    pub sends: Seq<SendingModel>,
    pub logs: Seq<Seq<char>>,
    pub warned: Seq<Seq<char>>,
}

/// A pass over the first `n` targets. A target that cannot be enriched for is skipped, with one
/// line for each endpoint ever.
pub open spec fn pass_over(
    targets: Seq<TargetModel>,
    n: int,
    set: TargetSet,
    projects: Option<Seq<(Seq<char>, Seq<char>)>>,
    out: OutModel,
    enriched: Result<Seq<char>, Seq<char>>,
    warned: Seq<Seq<char>>,
) -> PassModel
    decreases n,
{
    if n <= 0 {
        PassModel { sends: Seq::empty(), logs: Seq::empty(), warned }
    } else {
        let prev = pass_over(targets, n - 1, set, projects, out, enriched, warned);
        let t = targets[n - 1];
        if !addressed(t, set, projects) {
            prev
        } else {
            match prepared(n - 1, t, out, enriched) {
                Some(s) => PassModel { sends: prev.sends.push(s), ..prev },
                None => if prev.warned.contains(t.endpoint) {
                    prev
                } else {
                    PassModel {
                        sends: prev.sends,
                        logs: prev.logs.push(skip_line(t.endpoint, enriched->Err_0)),
                        warned: prev.warned.push(t.endpoint),
                    }
                },
            }
        }
    }
}

/// The text that a body is enriched to.
pub open spec fn enriched_out(index: SessionIndexCache, out: OutModel) -> Result<
    Seq<char>,
    Seq<char>,
> {
    enriched_body(out.body, out.signal == OtlpSignal::Metrics, labels_of(index))
}

pub open spec fn opt_pairs(o: Option<&Vec<(String, String)>>) -> Option<
    Seq<(Seq<char>, Seq<char>)>,
> {
    match o {
        Some(v) => Some(pair_views(v@)),
        None => None,
    }
}

fn every_passes(filter: &ProjectFilter, projects: &Vec<(String, String)>) -> (r: bool)
    ensures
        r == all_pass(filter.model(), pair_views(projects@)),
{
    let ghost all = pair_views(projects@);
    let mut i: usize = 0;
    while i < projects.len()
        invariant
            0 <= i <= projects.len(),
            all == pair_views(projects@),
            forall|k: int|
                0 <= k < i ==> accepts(filter.model(), (#[trigger] all[k]).0, all[k].1),
        decreases projects.len() - i,
    {
        assert(all[i as int] == (projects@[i as int].0@, projects@[i as int].1@));
        if !filter.allows(&projects[i].0, &projects[i].1) {
            return false;
        }
        i = i + 1;
    }
    true
}

fn is_addressed(
    t: &ExportTarget,
    set: TargetSet,
    projects: Option<&Vec<(String, String)>>,
) -> (r: bool)
    ensures
        r == addressed(t.model(), set, opt_pairs(projects)),
{
    let restricts = t.filter.is_filtered();
    let in_set = match set {
        TargetSet::All => true,
        TargetSet::UnfilteredOnly => !restricts,
        TargetSet::FilteredOnly => restricts,
    };
    if !in_set {
        return false;
    }
    if restricts {
        match projects {
            Some(p) => every_passes(&t.filter, p),
            None => false,
        }
    } else {
        true
    }
}

fn enrich_out(index: &SessionIndexCache, out: &Outbound) -> (r: Result<String, String>)
    ensures
        text_agrees(r, enriched_out(*index, out.model())),
{
    match out.signal {
        OtlpSignal::Metrics => enrich_metrics(&out.body, index),
        OtlpSignal::Logs => enrich_logs(&out.body, index),
    }
}

/// What one pass over the targets sends and logs.
#[derive(Debug)]
pub struct Pass {
    pub sends: Vec<Sending>,
    pub logs: Vec<String>,
}

/// Forward one body to the targets of a set. `projects` are the projects of the batch; a target
/// that restricts by project gets nothing where they are not known. `warned` are the endpoints
/// whose skipped enrichment has been logged.
pub fn forward(
    targets: &Vec<ExportTarget>,
    index: &SessionIndexCache,
    out: &Outbound,
    set: TargetSet,
    projects: Option<&Vec<(String, String)>>,
    warned: &mut Vec<String>,
) -> (r: Pass)
    ensures
        ({
            let want = pass_over(
                target_models(targets@),
                targets@.len() as int,
                set,
                opt_pairs(projects),
                out.model(),
                enriched_out(*index, out.model()),
                views(old(warned)@),
            );
            &&& sending_models(r.sends@) == want.sends
            &&& views(r.logs@) == want.logs
            &&& views(final(warned)@) == want.warned
        }),
{
    let ghost all = target_models(targets@);
    let ghost text = enriched_out(*index, out.model());
    let ghost start = views(warned@);
    let ghost ps = opt_pairs(projects);
    let ghost om = out.model();
    let mut sends: Vec<Sending> = Vec::new();
    let mut logs: Vec<String> = Vec::new();
    let mut cached: Option<Result<String, String>> = None;
    let mut i: usize = 0;
    assert(sending_models(sends@) =~= Seq::<SendingModel>::empty());
    assert(views(logs@) =~= Seq::<Seq<char>>::empty());
    while i < targets.len()
        invariant
            0 <= i <= targets.len(),
            all == target_models(targets@),
            ps == opt_pairs(projects),
            om == out.model(),
            text == enriched_out(*index, om),
            cached matches Some(c) ==> text_agrees(c, text),
            ({
                let want = pass_over(all, i as int, set, ps, om, text, start);
                &&& sending_models(sends@) == want.sends
                &&& views(logs@) == want.logs
                &&& views(warned@) == want.warned
            }),
        decreases targets.len() - i,
    {
        let t = &targets[i];
        assert(all[i as int] == t.model());
        if is_addressed(t, set, projects) {
            let url = cat2(&t.endpoint, out.signal.path());
            let timeout_ms: u64 = match t.timeout_ms {
                Some(ms) => ms,
                None => DEFAULT_TIMEOUT_MS,
            };
            match t.mode {
                ExportMode::Raw => {
                    let content_type = match &out.content_type {
                        Some(c) => owned(c),
                        None => owned("application/json"),
                    };
                    let one = Sending {
                        target: i,
                        url,
                        enriched: None,
                        content_type,
                        content_encoding: owned_opt(&out.content_encoding),
                        timeout_ms,
                    };
                    let ghost held = sends@;
                    sends.push(one);
                    assert(sending_models(sends@) =~= sending_models(held).push(one.model()));
                },
                ExportMode::Enriched => {
                    if cached.is_none() {
                        cached = Some(enrich_out(index, out));
                    }
                    if let Some(c) = &cached {
                        match c {
                            Ok(body) => {
                                let one = Sending {
                                    target: i,
                                    url,
                                    enriched: Some(owned(body)),
                                    content_type: owned("application/json"),
                                    content_encoding: None,
                                    timeout_ms,
                                };
                                let ghost held = sends@;
                                sends.push(one);
                                assert(sending_models(sends@) =~= sending_models(held).push(
                                    one.model(),
                                ));
                            },
                            Err(e) => {
                                if !list_contains(warned, &t.endpoint) {
                                    let ghost held = logs@;
                                    let ghost was = warned@;
                                    let line = cat5(
                                        "hatel: export enrich failed for ",
                                        &t.endpoint,
                                        " (",
                                        e,
                                        ") — skipping its batches (enriched needs http/json; see `hatel doctor`)",
                                    );
                                    logs.push(line);
                                    warned.push(owned(&t.endpoint));
                                    assert(views(logs@) =~= views(held).push(line@));
                                    assert(views(warned@) =~= views(was).push(t.endpoint@));
                                }
                            },
                        }
                    }
                },
            }
        }
        i = i + 1;
    }
    Pass { sends, logs }
}

// ---------------------------------------------------------------------------------------------
// The worker
// ---------------------------------------------------------------------------------------------

/// A body that waits: the sessions it waits for, and the millisecond since which it does.
#[derive(Debug)]
pub struct Deferred {
    pub out: Outbound,
    pub missing: Vec<String>,
    pub deferred_at: u64,
}

#[verifier::ext_equal]
pub struct DeferredModel {
    pub out: OutModel,
    pub missing: Seq<Seq<char>>,
    pub at: u64,
}

impl Deferred {
    pub open spec fn model(self) -> DeferredModel {
        DeferredModel { out: self.out.model(), missing: views(self.missing@), at: self.deferred_at }
    }
}

pub open spec fn deferred_models(v: Seq<Deferred>) -> Seq<DeferredModel> {
    Seq::new(v.len(), |i: int| v[i].model())
}

/// The state of the export worker.
pub struct Worker {
    pub targets: Vec<ExportTarget>,
    pub index: SessionIndexCache,
    /// Endpoints whose skipped enrichment has been logged.
    pub enrich_skip_warned: Vec<String>,
    /// Bodies that wait for their sessions.
    pub deferred: Vec<Deferred>,
    /// Batches that the restricted targets never got.
    pub unresolved_dropped: u64,
}

#[verifier::ext_equal]
pub struct WorkerModel {
    pub targets: Seq<TargetModel>,
    pub index: SessionIndexCache,
    pub warned: Seq<Seq<char>>,
    pub deferred: Seq<DeferredModel>,
    pub dropped: u64,
}

impl Worker {
    pub open spec fn model(self) -> WorkerModel {
        WorkerModel {
            targets: target_models(self.targets@),
            index: self.index,
            warned: views(self.enrich_skip_warned@),
            deferred: deferred_models(self.deferred@),
            dropped: self.unresolved_dropped,
        }
    }
}

/// A body and the requests that carry it.
#[derive(Debug)]
pub struct Dispatch {
    pub out: Outbound,
    pub sends: Vec<Sending>,
}

#[verifier::ext_equal]
pub struct DispatchModel {
    pub out: OutModel,
    pub sends: Seq<SendingModel>,
}

impl Dispatch {
    pub open spec fn model(self) -> DispatchModel {
        DispatchModel { out: self.out.model(), sends: sending_models(self.sends@) }
    }
}

pub open spec fn dispatch_models(v: Seq<Dispatch>) -> Seq<DispatchModel> {
    Seq::new(v.len(), |i: int| v[i].model())
}

/// What a turn of the worker asks for: the requests to make in order, the lines to log, and the
/// sizes of the bodies that are disposed of.
#[derive(Debug)]
pub struct Turn {
    pub dispatches: Vec<Dispatch>,
    pub logs: Vec<String>,
    pub released: Vec<usize>,
}

/// A turn and the state after it.
#[verifier::ext_equal]
pub struct TurnModel {
    pub dispatches: Seq<DispatchModel>,
    pub logs: Seq<Seq<char>>,
    pub released: Seq<nat>,
    pub warned: Seq<Seq<char>>,
    pub deferred: Seq<DeferredModel>,
    pub dropped: u64,
}

/// Every session that a body waits for has reached the index.
pub open spec fn ready(index: SessionIndexCache, missing: Seq<Seq<char>>) -> bool {
    forall|i: int| 0 <= i < missing.len() ==> index.row(#[trigger] missing[i]) is Some
}

/// A body that keeps waiting.
pub open spec fn stays(index: SessionIndexCache, d: DeferredModel, last: bool, now: u64) -> bool {
    !last && !ready(index, d.missing) && now - d.at < DEFER_TIMEOUT_MS
}

/// The line about a batch that the restricted targets never get.
pub open spec fn unresolved_line(before: u64) -> Seq<Seq<char>> {
    if drop_due(before) {
        seq![
            "hatel: "@ + nat_text((before + 1) as nat)
                + " batch(es) so far had no indexed session — dropped for the project-filtered destination(s) (fail closed)"@,
        ]
    } else {
        Seq::empty()
    }
}

/// A turn in which a batch is given up.
pub open spec fn given_up(t: TurnModel) -> TurnModel {
    TurnModel { logs: t.logs + unresolved_line(t.dropped), dropped: next_count(t.dropped), ..t }
}

/// A turn in which a body is passed to a set of targets.
pub open spec fn passed(
    t: TurnModel,
    w: WorkerModel,
    out: OutModel,
    set: TargetSet,
    projects: Option<Seq<(Seq<char>, Seq<char>)>>,
) -> TurnModel {
    let p = pass_over(
        w.targets,
        w.targets.len() as int,
        set,
        projects,
        out,
        enriched_out(w.index, out),
        t.warned,
    );
    TurnModel {
        dispatches: if p.sends.len() == 0 {
            t.dispatches
        } else {
            t.dispatches.push(DispatchModel { out, sends: p.sends })
        },
        logs: t.logs + p.logs,
        warned: p.warned,
        ..t
    }
}

/// A turn in which a body is disposed of.
pub open spec fn disposed(t: TurnModel, out: OutModel) -> TurnModel {
    TurnModel { released: t.released.push(out.body.len()), ..t }
}

/// The turn that looks at the first `n` waiting bodies: one whose sessions have all arrived, whose
/// time is up, or that meets the last pass, goes to the restricted targets, or is given up and
/// counted where a session was never seen. One whose sessions turned out to have no project goes to
/// none of them.
pub open spec fn retried(w: WorkerModel, n: int, last: bool, now: u64) -> TurnModel
    decreases n,
{
    if n <= 0 {
        TurnModel {
            dispatches: Seq::empty(),
            logs: Seq::empty(),
            released: Seq::empty(),
            warned: w.warned,
            deferred: Seq::empty(),
            dropped: w.dropped,
        }
    } else {
        let prev = retried(w, n - 1, last, now);
        let d = w.deferred[n - 1];
        if stays(w.index, d, last, now) {
            TurnModel { deferred: prev.deferred.push(d), ..prev }
        } else {
            match batch_of(w.index, d.out) {
                BatchModel::Resolved(p) => disposed(
                    passed(prev, w, d.out, TargetSet::FilteredOnly, Some(p)),
                    d.out,
                ),
                BatchModel::Unindexed(_) => disposed(given_up(prev), d.out),
                BatchModel::Unattributable => disposed(prev, d.out),
            }
        }
    }
}

/// Some target restricts by project.
pub open spec fn any_filtered(targets: Seq<TargetModel>) -> bool {
    exists|i: int| 0 <= i < targets.len() && filtered(#[trigger] targets[i])
}

/// The turn of one received body: the waiting ones first, then this one. Where a target restricts
/// by project and a session of the body is not in the index yet, the other targets get it now and
/// it waits for the rest, as long as there is room.
pub open spec fn handled(w: WorkerModel, out: OutModel, now: u64) -> TurnModel {
    let before = retried(w, w.deferred.len() as int, false, now);
    if !any_filtered(w.targets) {
        disposed(passed(before, w, out, TargetSet::All, None), out)
    } else {
        match batch_of(w.index, out) {
            BatchModel::Resolved(p) => disposed(
                passed(before, w, out, TargetSet::All, Some(p)),
                out,
            ),
            BatchModel::Unindexed(missing) => {
                let sent = passed(before, w, out, TargetSet::UnfilteredOnly, None);
                if before.deferred.len() < MAX_DEFERRED {
                    TurnModel {
                        deferred: sent.deferred.push(DeferredModel { out, missing, at: now }),
                        ..sent
                    }
                } else {
                    disposed(given_up(sent), out)
                }
            },
            BatchModel::Unattributable => disposed(
                passed(before, w, out, TargetSet::UnfilteredOnly, None),
                out,
            ),
        }
    }
}

pub open spec fn sizes(v: Seq<usize>) -> Seq<nat> {
    Seq::new(v.len(), |i: int| v[i] as nat)
}

/// A turn and the worker after it are what the model says.
pub open spec fn turn_agrees(r: Turn, after: Worker, want: TurnModel) -> bool {
    &&& dispatch_models(r.dispatches@) == want.dispatches
    &&& views(r.logs@) == want.logs
    &&& sizes(r.released@) == want.released
    &&& views(after.enrich_skip_warned@) == want.warned
    &&& deferred_models(after.deferred@) == want.deferred
    &&& after.unresolved_dropped == want.dropped
}

fn add_pass(turn: &mut Turn, out: Outbound, pass: Pass)
    ensures
        dispatch_models(final(turn).dispatches@) == (if pass.sends@.len() == 0 {
            dispatch_models(old(turn).dispatches@)
        } else {
            dispatch_models(old(turn).dispatches@).push(
                DispatchModel { out: out.model(), sends: sending_models(pass.sends@) },
            )
        }),
        views(final(turn).logs@) == views(old(turn).logs@) + views(pass.logs@),
        final(turn).released == old(turn).released,
{
    let ghost held = turn.dispatches@;
    let ghost told = turn.logs@;
    let more = pass.logs;
    let sends = pass.sends;
    let mut i: usize = 0;
    assert(views(told) + views(more@).take(0) =~= views(told));
    while i < more.len()
        invariant
            0 <= i <= more.len(),
            views(turn.logs@) == views(told) + views(more@).take(i as int),
            turn.dispatches@ == held,
            turn.released == old(turn).released,
        decreases more.len() - i,
    {
        let ghost was = turn.logs@;
        turn.logs.push(owned(&more[i]));
        assert(views(turn.logs@) =~= views(was).push(more@[i as int]@));
        assert(views(turn.logs@) =~= views(told) + views(more@).take(i + 1));
        i = i + 1;
    }
    assert(views(more@).take(more.len() as int) =~= views(more@));
    if sends.len() > 0 {
        let one = Dispatch { out, sends };
        turn.dispatches.push(one);
        assert(dispatch_models(turn.dispatches@) =~= dispatch_models(held).push(one.model()));
    }
}

fn add_release(turn: &mut Turn, len: usize)
    ensures
        sizes(final(turn).released@) == sizes(old(turn).released@).push(len as nat),
        final(turn).dispatches == old(turn).dispatches,
        final(turn).logs == old(turn).logs,
{
    let ghost held = turn.released@;
    turn.released.push(len);
    assert(sizes(turn.released@) =~= sizes(held).push(len as nat));
}

fn is_ready(index: &SessionIndexCache, missing: &Vec<String>) -> (r: bool)
    ensures
        r == ready(*index, views(missing@)),
{
    let ghost all = views(missing@);
    let mut i: usize = 0;
    while i < missing.len()
        invariant
            0 <= i <= missing.len(),
            all == views(missing@),
            forall|k: int| 0 <= k < i ==> index.row(#[trigger] all[k]) is Some,
        decreases missing.len() - i,
    {
        assert(all[i as int] == missing@[i as int]@);
        if !index.contains(&missing[i]) {
            return false;
        }
        i = i + 1;
    }
    true
}

impl Worker {
    /// A worker for a set of targets, with an empty index.
    pub fn new(targets: Vec<ExportTarget>, state_dir: String) -> (r: Worker)
        ensures
            target_models(r.targets@) == target_models(targets@),
            r.model().warned == Seq::<Seq<char>>::empty(),
            r.model().deferred == Seq::<DeferredModel>::empty(),
            r.unresolved_dropped == 0,
            forall|s: Seq<char>| (#[trigger] r.index.row(s)) is None,
            r.index.loaded_from() is None,
    {
        let r = Worker {
            targets,
            index: SessionIndexCache::new(state_dir),
            enrich_skip_warned: Vec::new(),
            deferred: Vec::new(),
            unresolved_dropped: 0,
        };
        assert(r.model().warned =~= Seq::<Seq<char>>::empty());
        assert(r.model().deferred =~= Seq::<DeferredModel>::empty());
        r
    }

    /// Whether some target needs the session index: it enriches or restricts by project.
    pub fn index_needed(&self) -> (r: bool)
        ensures
            r == exists|i: int|
                0 <= i < self.targets@.len() && ((#[trigger] self.targets@[i]).mode
                    == ExportMode::Enriched || filtered(self.targets@[i].model())),
    {
        let mut i: usize = 0;
        while i < self.targets.len()
            invariant
                0 <= i <= self.targets.len(),
                forall|k: int|
                    0 <= k < i ==> !((#[trigger] self.targets@[k]).mode == ExportMode::Enriched
                        || filtered(self.targets@[k].model())),
            decreases self.targets.len() - i,
        {
            let enriches = match self.targets[i].mode {
                ExportMode::Enriched => true,
                ExportMode::Raw => false,
            };
            if enriches || self.targets[i].filter.is_filtered() {
                return true;
            }
            i = i + 1;
        }
        false
    }

    fn restricts(&self) -> (r: bool)
        ensures
            r == any_filtered(target_models(self.targets@)),
    {
        let ghost all = target_models(self.targets@);
        let mut i: usize = 0;
        while i < self.targets.len()
            invariant
                0 <= i <= self.targets.len(),
                all == target_models(self.targets@),
                forall|k: int| 0 <= k < i ==> !filtered(#[trigger] all[k]),
            decreases self.targets.len() - i,
        {
            assert(all[i as int] == self.targets@[i as int].model());
            if self.targets[i].filter.is_filtered() {
                assert(filtered(all[i as int]));
                return true;
            }
            i = i + 1;
        }
        false
    }

    /// Count a batch that the restricted targets never get.
    fn record_unresolved_drop(&mut self, turn: &mut Turn)
        ensures
            final(self).unresolved_dropped == next_count(old(self).unresolved_dropped),
            final(self).targets == old(self).targets,
            final(self).index == old(self).index,
            final(self).enrich_skip_warned == old(self).enrich_skip_warned,
            final(self).deferred == old(self).deferred,
            views(final(turn).logs@) == views(old(turn).logs@) + unresolved_line(
                old(self).unresolved_dropped,
            ),
            final(turn).dispatches == old(turn).dispatches,
            final(turn).released == old(turn).released,
    {
        let before = self.unresolved_dropped;
        let ghost told = turn.logs@;
        if before < u64::MAX {
            self.unresolved_dropped = before + 1;
            if should_log(before, 1, DROP_LOG_EVERY) {
                let line = cat3(
                    "hatel: ",
                    &show(before + 1),
                    " batch(es) so far had no indexed session — dropped for the project-filtered destination(s) (fail closed)",
                );
                turn.logs.push(line);
                assert(views(turn.logs@) =~= views(told) + seq![line@]);
            } else {
                assert(views(told) + Seq::<Seq<char>>::empty() =~= views(told));
            }
        } else {
            assert(views(told) + Seq::<Seq<char>>::empty() =~= views(told));
        }
    }

    /// Look at the bodies that wait. One whose sessions have all reached the index, whose time is
    /// up, or that meets the last pass, goes to the restricted targets where its projects are
    /// known and is given up where they are not. The others keep waiting. The caller has
    /// refreshed the index; `now` is in milliseconds.
    pub fn retry_deferred(&mut self, last: bool, now: u64) -> (r: Turn)
        ensures
            turn_agrees(
                r,
                *final(self),
                retried(old(self).model(), old(self).deferred@.len() as int, last, now),
            ),
            final(self).targets == old(self).targets,
            final(self).index == old(self).index,
    {
        let ghost w = self.model();
        let mut turn = Turn { dispatches: Vec::new(), logs: Vec::new(), released: Vec::new() };
        let mut waiting: Vec<Deferred> = Vec::new();
        std::mem::swap(&mut waiting, &mut self.deferred);
        let ghost mut done: int = 0;
        proof {
            assert(dispatch_models(turn.dispatches@) =~= Seq::<DispatchModel>::empty());
            assert(views(turn.logs@) =~= Seq::<Seq<char>>::empty());
            assert(sizes(turn.released@) =~= Seq::<nat>::empty());
            assert(deferred_models(self.deferred@) =~= Seq::<DeferredModel>::empty());
            assert(deferred_models(waiting@) =~= w.deferred.skip(0));
        }
        while waiting.len() > 0
            invariant
                0 <= done <= w.deferred.len(),
                w == old(self).model(),
                self.targets == old(self).targets,
                self.index == old(self).index,
                deferred_models(waiting@) == w.deferred.skip(done),
                waiting.len() == w.deferred.len() - done,
                turn_agrees(turn, *self, retried(w, done, last, now)),
            decreases waiting.len(),
        {
            let ghost rest = waiting@;
            let d = waiting.remove(0);
            let ghost dm = d.model();
            proof {
                assert(deferred_models(rest)[0] == w.deferred.skip(done)[0]);
                assert(dm == w.deferred[done]);
                assert(deferred_models(waiting@) =~= w.deferred.skip(done + 1)) by {
                    assert forall|k: int| 0 <= k < waiting@.len() implies deferred_models(
                        waiting@,
                    )[k] == w.deferred.skip(done + 1)[k] by {
                        assert(deferred_models(rest)[k + 1] == w.deferred.skip(done)[k + 1]);
                    }
                }
            }
            let ghost prev = retried(w, done, last, now);
            let early = now < d.deferred_at || now - d.deferred_at < DEFER_TIMEOUT_MS;
            if !last && early && !is_ready(&self.index, &d.missing) {
                let ghost held = self.deferred@;
                self.deferred.push(d);
                assert(deferred_models(self.deferred@) =~= deferred_models(held).push(dm));
            } else {
                let batch = resolve_batch_projects(&self.index, &d.out);
                let len = d.out.body.len();
                match batch {
                    BatchProjects::Resolved(projects) => {
                        let pass = forward(
                            &self.targets,
                            &self.index,
                            &d.out,
                            TargetSet::FilteredOnly,
                            Some(&projects),
                            &mut self.enrich_skip_warned,
                        );
                        assert(sending_models(pass.sends@).len() == pass.sends@.len());
                        add_pass(&mut turn, d.out, pass);
                    },
                    BatchProjects::Unindexed(_) => {
                        self.record_unresolved_drop(&mut turn);
                    },
                    BatchProjects::Unattributable => {},
                }
                add_release(&mut turn, len);
            }
            proof {
                done = done + 1;
            }
        }
        turn
    }

    /// Take in one received body: the waiting bodies are looked at first, then this one is
    /// forwarded, or waits for the targets that need a project the index does not know yet. The
    /// caller has refreshed the index; `now` is in milliseconds.
    pub fn handle(&mut self, out: Outbound, now: u64) -> (r: Turn)
        ensures
            turn_agrees(r, *final(self), handled(old(self).model(), out.model(), now)),
            final(self).targets == old(self).targets,
            final(self).index == old(self).index,
    {
        let ghost w = self.model();
        let ghost om = out.model();
        let mut turn = self.retry_deferred(false, now);
        let len = out.body.len();
        if !self.restricts() {
            let pass = forward(
                &self.targets,
                &self.index,
                &out,
                TargetSet::All,
                None,
                &mut self.enrich_skip_warned,
            );
            assert(sending_models(pass.sends@).len() == pass.sends@.len());
            add_pass(&mut turn, out, pass);
            add_release(&mut turn, len);
            return turn;
        }
        match resolve_batch_projects(&self.index, &out) {
            BatchProjects::Resolved(projects) => {
                let pass = forward(
                    &self.targets,
                    &self.index,
                    &out,
                    TargetSet::All,
                    Some(&projects),
                    &mut self.enrich_skip_warned,
                );
                assert(sending_models(pass.sends@).len() == pass.sends@.len());
                add_pass(&mut turn, out, pass);
                add_release(&mut turn, len);
            },
            BatchProjects::Unindexed(missing) => {
                let pass = forward(
                    &self.targets,
                    &self.index,
                    &out,
                    TargetSet::UnfilteredOnly,
                    None,
                    &mut self.enrich_skip_warned,
                );
                assert(sending_models(pass.sends@).len() == pass.sends@.len());
                if self.deferred.len() < MAX_DEFERRED {
                    let copy = out.duplicate();
                    add_pass(&mut turn, copy, pass);
                    let one = Deferred { out, missing, deferred_at: now };
                    let ghost held = self.deferred@;
                    self.deferred.push(one);
                    assert(deferred_models(self.deferred@) =~= deferred_models(held).push(
                        one.model(),
                    ));
                } else {
                    add_pass(&mut turn, out, pass);
                    self.record_unresolved_drop(&mut turn);
                    add_release(&mut turn, len);
                }
            },
            BatchProjects::Unattributable => {
                let pass = forward(
                    &self.targets,
                    &self.index,
                    &out,
                    TargetSet::UnfilteredOnly,
                    None,
                    &mut self.enrich_skip_warned,
                );
                assert(sending_models(pass.sends@).len() == pass.sends@.len());
                add_pass(&mut turn, out, pass);
                add_release(&mut turn, len);
            },
        }
        turn
    }
}

/// The millisecond at which a waiting body's time is up.
pub open spec fn deadline_of(d: DeferredModel) -> u64 {
    if d.at + DEFER_TIMEOUT_MS <= u64::MAX {
        (d.at + DEFER_TIMEOUT_MS) as u64
    } else {
        u64::MAX
    }
}

/// The earliest deadline of the waiting bodies.
pub open spec fn first_deadline(v: Seq<DeferredModel>) -> Option<u64>
    decreases v.len(),
{
    if v.len() == 0 {
        None
    } else {
        let last = deadline_of(v.last());
        match first_deadline(v.drop_last()) {
            Some(t) => if t <= last {
                Some(t)
            } else {
                Some(last)
            },
            None => Some(last),
        }
    }
}

impl Worker {
    /// When to look at the waiting bodies again, even if nothing arrives.
    pub fn deadline(&self) -> (r: Option<u64>)
        ensures
            r == first_deadline(self.model().deferred),
    {
        let ghost all = deferred_models(self.deferred@);
        let mut best: Option<u64> = None;
        let mut i: usize = 0;
        assert(all.take(0) =~= Seq::<DeferredModel>::empty());
        while i < self.deferred.len()
            invariant
                0 <= i <= self.deferred.len(),
                all == deferred_models(self.deferred@),
                best == first_deadline(all.take(i as int)),
            decreases self.deferred.len() - i,
        {
            proof {
                assert(all.take(i + 1).drop_last() =~= all.take(i as int));
                assert(all.take(i + 1).last() == self.deferred@[i as int].model());
            }
            let at = self.deferred[i].deferred_at;
            let due: u64 = if at <= u64::MAX - DEFER_TIMEOUT_MS {
                at + DEFER_TIMEOUT_MS
            } else {
                u64::MAX
            };
            best = match best {
                Some(t) => if t <= due {
                    Some(t)
                } else {
                    Some(due)
                },
                None => Some(due),
            };
            i = i + 1;
        }
        assert(all.take(self.deferred.len() as int) =~= all);
        best
    }
}

// ---------------------------------------------------------------------------------------------
// Laws
// ---------------------------------------------------------------------------------------------

/// A target that restricts by project is sent nothing unless the projects of the batch are known
/// and every one of them passes.
pub proof fn law_a_restricted_target_fails_closed(
    t: TargetModel,
    set: TargetSet,
    projects: Option<Seq<(Seq<char>, Seq<char>)>>,
)
    requires
        filtered(t),
        addressed(t, set, projects),
    ensures
        projects matches Some(p) && forall|i: int|
            0 <= i < p.len() ==> accepts(t.filter, (#[trigger] p[i]).0, p[i].1),
{
}

/// No target gets a body twice: the pass that a body makes before it waits and the one after
/// address no target in common, and together they address what one pass over all would.
pub proof fn law_the_two_passes_share_no_target(
    t: TargetModel,
    projects: Option<Seq<(Seq<char>, Seq<char>)>>,
)
    ensures
        !(addressed(t, TargetSet::UnfilteredOnly, None) && addressed(
            t,
            TargetSet::FilteredOnly,
            projects,
        )),
        addressed(t, TargetSet::All, projects) == (addressed(t, TargetSet::UnfilteredOnly, None)
            || addressed(t, TargetSet::FilteredOnly, projects)),
{
}

/// Every request of a pass goes to a target that the pass addresses.
pub proof fn law_a_pass_sends_to_addressed_targets_only(
    targets: Seq<TargetModel>,
    n: int,
    set: TargetSet,
    projects: Option<Seq<(Seq<char>, Seq<char>)>>,
    out: OutModel,
    enriched: Result<Seq<char>, Seq<char>>,
    warned: Seq<Seq<char>>,
    i: int,
)
    requires
        0 <= n <= targets.len(),
        0 <= i < pass_over(targets, n, set, projects, out, enriched, warned).sends.len(),
    ensures
        ({
            let s = pass_over(targets, n, set, projects, out, enriched, warned).sends[i];
            0 <= s.target < n && addressed(targets[s.target], set, projects)
        }),
    decreases n,
{
    if n > 0 {
        let prev = pass_over(targets, n - 1, set, projects, out, enriched, warned);
        if i < prev.sends.len() {
            law_a_pass_sends_to_addressed_targets_only(
                targets,
                n - 1,
                set,
                projects,
                out,
                enriched,
                warned,
                i,
            );
        }
    }
}

proof fn lemma_retry_keeps_few(w: WorkerModel, n: int, last: bool, now: u64)
    requires
        0 <= n <= w.deferred.len(),
    ensures
        retried(w, n, last, now).deferred.len() <= n,
        last ==> retried(w, n, last, now).deferred.len() == 0,
    decreases n,
{
    if n > 0 {
        lemma_retry_keeps_few(w, n - 1, last, now);
    }
}

/// The number of bodies that wait stays bounded.
pub proof fn law_waiting_bodies_are_bounded(w: WorkerModel, out: OutModel, now: u64)
    requires
        w.deferred.len() <= MAX_DEFERRED,
    ensures
        handled(w, out, now).deferred.len() <= MAX_DEFERRED,
{
    lemma_retry_keeps_few(w, w.deferred.len() as int, false, now);
}

/// Nothing waits after the last pass.
pub proof fn law_the_last_pass_leaves_nothing_waiting(w: WorkerModel, now: u64)
    ensures
        retried(w, w.deferred.len() as int, true, now).deferred.len() == 0,
{
    lemma_retry_keeps_few(w, w.deferred.len() as int, true, now);
}

/// The bytes of the bodies that wait.
pub open spec fn waiting_bytes(v: Seq<DeferredModel>) -> nat
    decreases v.len(),
{
    if v.len() == 0 {
        0
    } else {
        waiting_bytes(v.drop_last()) + v.last().out.body.len()
    }
}

/// The sum of sizes.
pub open spec fn total(v: Seq<nat>) -> nat
    decreases v.len(),
{
    if v.len() == 0 {
        0
    } else {
        total(v.drop_last()) + v.last()
    }
}

proof fn lemma_push_sums(v: Seq<DeferredModel>, d: DeferredModel, r: Seq<nat>, len: nat)
    ensures
        waiting_bytes(v.push(d)) == waiting_bytes(v) + d.out.body.len(),
        total(r.push(len)) == total(r) + len,
{
    assert(v.push(d).drop_last() =~= v);
    assert(r.push(len).drop_last() =~= r);
}

proof fn lemma_retry_bytes(w: WorkerModel, n: int, last: bool, now: u64)
    requires
        0 <= n <= w.deferred.len(),
    ensures
        total(retried(w, n, last, now).released) + waiting_bytes(retried(w, n, last, now).deferred)
            == waiting_bytes(w.deferred.take(n)),
    decreases n,
{
    if n > 0 {
        let prev = retried(w, n - 1, last, now);
        let d = w.deferred[n - 1];
        lemma_retry_bytes(w, n - 1, last, now);
        lemma_push_sums(prev.deferred, d, prev.released, d.out.body.len());
        assert(w.deferred.take(n).drop_last() =~= w.deferred.take(n - 1));
        assert(w.deferred.take(n).last() == d);
    } else {
        assert(w.deferred.take(0) =~= Seq::<DeferredModel>::empty());
    }
}

/// The bytes of a body leave the queue exactly once, when it is disposed of: what a turn releases
/// and what still waits after it is what waited before and the body that came in.
pub proof fn law_bytes_are_released_once(w: WorkerModel, out: OutModel, now: u64)
    ensures
        total(handled(w, out, now).released) + waiting_bytes(handled(w, out, now).deferred)
            == waiting_bytes(w.deferred) + out.body.len(),
{
    let n = w.deferred.len() as int;
    let before = retried(w, n, false, now);
    lemma_retry_bytes(w, n, false, now);
    assert(w.deferred.take(n) =~= w.deferred);
    let missing = match batch_of(w.index, out) {
        BatchModel::Unindexed(m) => m,
        _ => Seq::empty(),
    };
    let d = DeferredModel { out, missing, at: now };
    lemma_push_sums(before.deferred, d, before.released, out.body.len());
}

/// A body keeps waiting for its own sessions only: as long as one of them is missing and its time
/// is not up, the arrival of any other session leaves it where it is.
pub proof fn law_other_sessions_release_nothing(
    index: SessionIndexCache,
    d: DeferredModel,
    now: u64,
    i: int,
)
    requires
        0 <= i < d.missing.len(),
        index.row(d.missing[i]) is None,
        now < deadline_of(d),
    ensures
        stays(index, d, false, now),
{
}

proof fn lemma_missing_are_unseen(index: SessionIndexCache, ids: Seq<Seq<char>>, n: int)
    ensures
        forall|i: int|
            0 <= i < missing_of(index, ids, n).len() ==> index.row(
                #[trigger] missing_of(index, ids, n)[i],
            ) is None,
    decreases n,
{
    if n > 0 {
        lemma_missing_are_unseen(index, ids, n - 1);
        let rest = missing_of(index, ids, n - 1);
        let all = missing_of(index, ids, n);
        assert forall|i: int| 0 <= i < all.len() implies index.row(#[trigger] all[i]) is None by {
            if i < rest.len() {
                assert(all[i] == rest[i]);
            }
        }
    }
}

/// A batch waits only for sessions that the index has not seen. A session that is known to have no
/// project is decided, and holds nothing back.
pub proof fn law_only_unseen_sessions_are_waited_for(index: SessionIndexCache, out: OutModel)
    ensures
        batch_of(index, out) matches BatchModel::Unindexed(missing) ==> missing.len() > 0 && forall|
            i: int,
        |
            0 <= i < missing.len() ==> index.row(#[trigger] missing[i]) is None,
{
    if let Some(ids) = body_sessions(out.body, out.signal == OtlpSignal::Metrics) {
        lemma_missing_are_unseen(index, ids, ids.len() as int);
    }
}

} // verus!
