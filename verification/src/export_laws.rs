//! Who is sent what: every destination that may have a batch gets it, no other does, and every batch
//! that waits is seen to.
use vstd::prelude::*;
use crate::claude_settings::slot;
use crate::export::{
    accepts, endpoint_at, filter_of, has_endpoint, header_pair, header_pairs, normalized, upserted,
    validated, validated_target, without_slashes, ExportMode, FilterModel, TargetModel,
};
use crate::exporter::{
    addressed, all_attributed, any_filtered, batch_of, deadline_of, enriched_out, filtered,
    first_deadline, handled, missing_of, next_count, pass_over, prepared, projects_of, queue_line,
    retried, skip_line, stays, unresolved_line, BatchModel, DeferredModel, DispatchModel,
    OtlpSignal, OutModel, PassModel, SendingModel, TargetSet, WorkerModel,
};
use crate::json::{parsed, Tree};
use crate::receiver::{
    answered_build, authority_of, bracket_port, gap_at, gap_from, host_part, identity_of,
    second_word, word_and_rest, word_end,
};
use crate::session::SessionIndexCache;
use crate::settings::RawTarget;
use crate::text::{before_first, is_blank, is_white, trimmed, trimmed_start};
use crate::text_laws::{law_a_beginning_ends_before_the_first, law_halves_stand_around_the_first};
use crate::transform::body_sessions;

verus! {

broadcast use vstd::map::group_map_axioms;

// ---------------------------------------------------------------------------------------------
// Destinations
// ---------------------------------------------------------------------------------------------

/// A project is named by its label or by its key: an allow-list accepts exactly those it names, an
/// exclusion exactly those it does not, and without either every project is accepted.
pub proof fn law_a_filter_accepts_what_it_names(
    v: Seq<Seq<char>>,
    label: Seq<char>,
    key: Seq<char>,
)
    ensures
        accepts(FilterModel::All, label, key),
        accepts(FilterModel::Only(v), label, key) <==> exists|i: int|
            0 <= i < v.len() && (#[trigger] v[i] == label || v[i] == key),
        accepts(FilterModel::Except(v), label, key) <==> !accepts(FilterModel::Only(v), label, key),
{
    if v.contains(label) {
        assert(v[v.index_of(label)] == label);
    }
    if v.contains(key) {
        assert(v[v.index_of(key)] == key);
    }
    if exists|i: int| 0 <= i < v.len() && (#[trigger] v[i] == label || v[i] == key) {
        let i = choose|i: int| 0 <= i < v.len() && (#[trigger] v[i] == label || v[i] == key);
        assert(v.contains(v[i]));
    }
}

proof fn lemma_slashes(s: Seq<char>) -> (n: int)
    ensures
        0 <= n <= s.len(),
        without_slashes(s) == s.take(n),
        forall|i: int| n <= i < s.len() ==> #[trigger] s[i] == '/',
        n > 0 ==> s[n - 1] != '/',
    decreases s.len(),
{
    if s.len() > 0 && s.last() == '/' {
        let d = s.drop_last();
        let n = lemma_slashes(d);
        assert(d.take(n) =~= s.take(n));
        assert forall|i: int| n <= i < s.len() implies #[trigger] s[i] == '/' by {
            if i < d.len() {
                assert(d[i] == s[i]);
            }
        }
        n
    } else {
        assert(s.take(s.len() as int) =~= s);
        s.len() as int
    }
}

/// An endpoint in its canonical form is what it was without the white space around it and without
/// the slashes at its end, of which none is left.
pub proof fn law_a_normal_endpoint_ends_in_no_slash(s: Seq<char>)
    ensures
        normalized(s).is_prefix_of(trimmed(s)),
        normalized(s).len() > 0 ==> normalized(s).last() != '/',
        forall|i: int|
            normalized(s).len() <= i < trimmed(s).len() ==> #[trigger] trimmed(s)[i] == '/',
{
    let t = trimmed(s);
    let n = lemma_slashes(t);
    assert(t.subrange(0, n) =~= t.take(n));
}

/// The headers of two lists are those of the first with those of the second over them; a piece is a
/// header where a name stands before its first equals sign, and the value is all that stands behind,
/// both without the white space around them.
pub proof fn law_headers_add_up(
    a: Seq<Seq<char>>,
    b: Seq<Seq<char>>,
    key: Seq<char>,
    value: Seq<char>,
)
    requires
        !key.contains('='),
    ensures
        header_pairs(a + b) == header_pairs(a).union_prefer_right(header_pairs(b)),
        header_pairs(seq![key + seq!['='] + value]) == if trimmed(key).len() > 0 {
            map![trimmed(key) => trimmed(value)]
        } else {
            Map::empty()
        },
        header_pairs(seq![key]) == Map::<Seq<char>, Seq<char>>::empty(),
    decreases b.len(),
{
    lemma_one_header(key + seq!['='] + value);
    lemma_one_header(key);
    law_halves_stand_around_the_first(key + seq!['='] + value, '=', key, value);
    law_halves_stand_around_the_first(key, '=', key, value);
    if b.len() == 0 {
        assert(a + b =~= a);
        assert(header_pairs(a).union_prefer_right(header_pairs(b)) =~= header_pairs(a));
    } else {
        law_headers_add_up(a, b.drop_last(), key, value);
        assert((a + b).drop_last() =~= a + b.drop_last());
        assert((a + b).last() == b.last());
        assert(header_pairs(a + b) =~= header_pairs(a).union_prefer_right(header_pairs(b)));
    }
}

proof fn lemma_one_header(piece: Seq<char>)
    ensures
        header_pairs(seq![piece]) == match header_pair(piece) {
            Some(p) => map![p.0 => p.1],
            None => Map::empty(),
        },
{
    let s = seq![piece];
    assert(s.drop_last() =~= Seq::<Seq<char>>::empty());
    assert(header_pairs(s.drop_last()) =~= Map::<Seq<char>, Seq<char>>::empty());
    assert(s.last() == piece);
}

/// The filter of an entry: an allow-list or an exclusion, as it is given, and not both; a list that
/// is given names something, and every entry of it does.
pub proof fn law_an_entry_has_one_filter(raw: RawTarget, endpoint: Seq<char>)
    ensures
        filter_of(raw, endpoint) is Ok <==> {
            &&& raw.projects is None || raw.exclude is None
            &&& raw.projects matches Some(v) ==> v.len() > 0 && forall|i: int|
                0 <= i < v.len() ==> !is_blank(#[trigger] v[i])
            &&& raw.exclude matches Some(v) ==> v.len() > 0 && forall|i: int|
                0 <= i < v.len() ==> !is_blank(#[trigger] v[i])
        },
        filter_of(raw, endpoint) matches Ok(f) ==> f == match (raw.projects, raw.exclude) {
            (Some(v), _) => FilterModel::Only(v),
            (None, Some(v)) => FilterModel::Except(v),
            (None, None) => FilterModel::All,
        },
{
}

/// An entry is accepted exactly where it has an endpoint that no earlier one has, a known mode and a
/// sound filter. The destination has what the entry says.
pub proof fn law_an_entry_is_accepted_where_it_is_sound(
    before: Seq<TargetModel>,
    raw: RawTarget,
)
    ensures
        validated_target(before, raw) is Ok <==> {
            &&& normalized(raw.endpoint).len() > 0
            &&& raw.mode == "raw"@ || raw.mode == "enriched"@
            &&& forall|i: int|
                0 <= i < before.len() ==> (#[trigger] before[i]).endpoint != normalized(
                    raw.endpoint,
                )
            &&& filter_of(raw, normalized(raw.endpoint)) is Ok
        },
        validated_target(before, raw) matches Ok(t) ==> {
            &&& t.endpoint == normalized(raw.endpoint)
            &&& t.mode == ExportMode::Raw <==> raw.mode == "raw"@
            &&& t.mode == ExportMode::Enriched <==> raw.mode == "enriched"@
            &&& filter_of(raw, t.endpoint) == Ok::<FilterModel, Seq<char>>(t.filter)
            &&& t.headers == raw.headers
            &&& t.timeout == raw.timeout
        },
{
    reveal_strlit("raw");
    reveal_strlit("enriched");
    assert("raw"@.len() != "enriched"@.len());
}

/// Entries are looked at one after the other: with one more, what came before is as it was, and the
/// first that is refused refuses them all.
pub proof fn law_entries_are_validated_in_order(raws: Seq<RawTarget>, raw: RawTarget)
    ensures
        match validated(raws) {
            Err(e) => validated(raws.push(raw)) == Err::<Seq<TargetModel>, Seq<char>>(e),
            Ok(before) => match validated_target(before, raw) {
                Err(e) => validated(raws.push(raw)) == Err::<Seq<TargetModel>, Seq<char>>(e),
                Ok(t) => validated(raws.push(raw)) == Ok::<Seq<TargetModel>, Seq<char>>(
                    before.push(t),
                ),
            },
        },
        validated(Seq::empty()) == Ok::<Seq<TargetModel>, Seq<char>>(Seq::empty()),
{
    assert(raws.push(raw).drop_last() =~= raws);
    assert(raws.push(raw).last() == raw);
}

proof fn lemma_endpoint_at(targets: Seq<TargetModel>, endpoint: Seq<char>)
    ensures
        0 <= endpoint_at(targets, endpoint) <= targets.len(),
        endpoint_at(targets, endpoint) < targets.len() ==> targets[endpoint_at(
            targets,
            endpoint,
        )].endpoint == endpoint,
        forall|i: int|
            0 <= i < endpoint_at(targets, endpoint) ==> (#[trigger] targets[i]).endpoint
                != endpoint,
    decreases targets.len(),
{
    if targets.len() > 0 && targets[0].endpoint != endpoint {
        let rest = targets.skip(1);
        lemma_endpoint_at(rest, endpoint);
        assert forall|i: int| 0 <= i < endpoint_at(targets, endpoint) implies (
        #[trigger] targets[i]).endpoint != endpoint by {
            if i > 0 {
                assert(rest[i - 1] == targets[i]);
            }
        }
    }
}

/// Adding a destination leaves every other as it is and where it is; it takes the place of the one
/// with its endpoint, or the last.
pub proof fn law_adding_a_destination_keeps_the_others(
    targets: Seq<TargetModel>,
    t: TargetModel,
)
    ensures
        ({
            let after = upserted(targets, t);
            let new = TargetModel { endpoint: normalized(t.endpoint), ..t };
            &&& forall|i: int|
                0 <= i < targets.len() && (#[trigger] targets[i]).endpoint != new.endpoint
                    ==> after[i] == targets[i]
            &&& after.contains(new)
            &&& after.len() == if has_endpoint(targets, new.endpoint) {
                targets.len()
            } else {
                targets.len() + 1
            }
        }),
{
    let new = TargetModel { endpoint: normalized(t.endpoint), ..t };
    let at = endpoint_at(targets, new.endpoint);
    let after = upserted(targets, t);
    lemma_endpoint_at(targets, new.endpoint);
    assert(after[at] == new);
    if at < targets.len() {
        assert(has_endpoint(targets, new.endpoint));
    } else if has_endpoint(targets, new.endpoint) {
        let i = choose|i: int|
            0 <= i < targets.len() && (#[trigger] targets[i]).endpoint == new.endpoint;
        assert(targets[i].endpoint != new.endpoint);
    }
}

// ---------------------------------------------------------------------------------------------
// One pass
// ---------------------------------------------------------------------------------------------

/// A pass addresses a destination exactly where the pass is for all, or for those that restrict or
/// do not, as it does; and where it restricts, the projects are known and every one is accepted.
pub proof fn law_who_is_addressed(
    t: TargetModel,
    set: TargetSet,
    projects: Option<Seq<(Seq<char>, Seq<char>)>>,
)
    ensures
        t.filter == FilterModel::All ==> (addressed(t, set, projects) <==> set
            != TargetSet::FilteredOnly),
        t.filter != FilterModel::All ==> (addressed(t, set, projects) <==> set
            != TargetSet::UnfilteredOnly && (projects matches Some(p) && forall|i: int|
            0 <= i < p.len() ==> accepts(t.filter, (#[trigger] p[i]).0, p[i].1))),
{
}

/// The request that a destination gets goes to its own endpoint, under the path of the signal, with
/// its own timeout or else five seconds. A raw one carries the body as it came; an enriched one the
/// enriched text, as plain JSON.
pub proof fn law_a_request_is_the_destinations_own(
    i: int,
    t: TargetModel,
    out: OutModel,
    enriched: Result<Seq<char>, Seq<char>>,
)
    ensures
        prepared(i, t, out, enriched) is None <==> t.mode == ExportMode::Enriched && enriched is Err,
        prepared(i, t, out, enriched) matches Some(s) ==> {
            &&& s.target == i
            &&& s.url == t.endpoint + (match out.signal {
                OtlpSignal::Metrics => "/v1/metrics"@,
                OtlpSignal::Logs => "/v1/logs"@,
            })
            &&& t.timeout matches Some(ms) ==> s.timeout == ms
            &&& t.timeout is None ==> s.timeout == 5_000
            &&& t.mode == ExportMode::Raw ==> s.enriched is None && s.encoding == out.encoding && (
            out.content_type matches Some(c) ==> s.content_type == c) && (out.content_type is None
                ==> s.content_type == "application/json"@)
            &&& t.mode == ExportMode::Enriched ==> enriched == Ok::<Seq<char>, Seq<char>>(
                s.enriched->0,
            ) && s.enriched is Some && s.encoding is None && s.content_type == "application/json"@
        },
{
}

proof fn lemma_pass(
    targets: Seq<TargetModel>,
    n: int,
    set: TargetSet,
    projects: Option<Seq<(Seq<char>, Seq<char>)>>,
    out: OutModel,
    enriched: Result<Seq<char>, Seq<char>>,
    warned: Seq<Seq<char>>,
)
    requires
        0 <= n <= targets.len(),
    ensures
        ({
            let sends = pass_over(targets, n, set, projects, out, enriched, warned).sends;
            &&& forall|j: int|
                0 <= j < sends.len() ==> {
                    &&& 0 <= (#[trigger] sends[j]).target < n
                    &&& addressed(targets[sends[j].target], set, projects)
                    &&& prepared(sends[j].target, targets[sends[j].target], out, enriched) == Some(
                        sends[j],
                    )
                }
            &&& forall|i: int, j: int|
                0 <= i < j < sends.len() ==> (#[trigger] sends[i]).target < (
                #[trigger] sends[j]).target
            &&& forall|i: int|
                0 <= i < n && addressed(#[trigger] targets[i], set, projects) && prepared(
                    i,
                    targets[i],
                    out,
                    enriched,
                ) is Some ==> sends.contains(prepared(i, targets[i], out, enriched)->0)
        }),
    decreases n,
{
    if n > 0 {
        lemma_pass(targets, n - 1, set, projects, out, enriched, warned);
        let rest = pass_over(targets, n - 1, set, projects, out, enriched, warned).sends;
        let all = pass_over(targets, n, set, projects, out, enriched, warned).sends;
        assert forall|j: int| 0 <= j < all.len() implies {
            &&& 0 <= (#[trigger] all[j]).target < n
            &&& addressed(targets[all[j].target], set, projects)
            &&& prepared(all[j].target, targets[all[j].target], out, enriched) == Some(all[j])
        } by {
            if j < rest.len() {
                assert(all[j] == rest[j]);
            }
        }
        assert forall|i: int, j: int| 0 <= i < j < all.len() implies (#[trigger] all[i]).target < (
        #[trigger] all[j]).target by {
            assert(all[i] == rest[i]);
            if j < rest.len() {
                assert(all[j] == rest[j]);
            }
        }
        assert forall|i: int|
            0 <= i < n && addressed(#[trigger] targets[i], set, projects) && prepared(
                i,
                targets[i],
                out,
                enriched,
            ) is Some implies all.contains(prepared(i, targets[i], out, enriched)->0) by {
            let s = prepared(i, targets[i], out, enriched)->0;
            if i < n - 1 {
                assert(rest.contains(s));
                assert(all[rest.index_of(s)] == s);
            } else {
                assert(all[all.len() - 1] == s);
            }
        }
    }
}

/// A pass sends exactly one request to each destination that it addresses and that can have one, in
/// the order of the destinations, and each is that destination's own.
pub proof fn law_every_addressed_destination_is_sent_to_once(
    targets: Seq<TargetModel>,
    set: TargetSet,
    projects: Option<Seq<(Seq<char>, Seq<char>)>>,
    out: OutModel,
    enriched: Result<Seq<char>, Seq<char>>,
    warned: Seq<Seq<char>>,
)
    ensures
        ({
            let sends = pass_over(
                targets,
                targets.len() as int,
                set,
                projects,
                out,
                enriched,
                warned,
            ).sends;
            &&& forall|j: int|
                0 <= j < sends.len() ==> {
                    &&& 0 <= (#[trigger] sends[j]).target < targets.len()
                    &&& addressed(targets[sends[j].target], set, projects)
                    &&& prepared(sends[j].target, targets[sends[j].target], out, enriched) == Some(
                        sends[j],
                    )
                }
            &&& forall|i: int, j: int|
                0 <= i < j < sends.len() ==> (#[trigger] sends[i]).target < (
                #[trigger] sends[j]).target
            &&& forall|i: int|
                0 <= i < targets.len() && addressed(#[trigger] targets[i], set, projects)
                    && prepared(i, targets[i], out, enriched) is Some ==> sends.contains(
                    prepared(i, targets[i], out, enriched)->0,
                )
        }),
{
    lemma_pass(targets, targets.len() as int, set, projects, out, enriched, warned);
}

/// A destination that a pass addresses and has no request for.
pub open spec fn skipped(
    t: TargetModel,
    i: int,
    set: TargetSet,
    projects: Option<Seq<(Seq<char>, Seq<char>)>>,
    out: OutModel,
    enriched: Result<Seq<char>, Seq<char>>,
) -> bool {
    addressed(t, set, projects) && prepared(i, t, out, enriched) is None
}

/// Some of the first `n` destinations has an endpoint and is skipped.
pub open spec fn some_skipped(
    targets: Seq<TargetModel>,
    n: int,
    set: TargetSet,
    projects: Option<Seq<(Seq<char>, Seq<char>)>>,
    out: OutModel,
    enriched: Result<Seq<char>, Seq<char>>,
    endpoint: Seq<char>,
) -> bool {
    exists|i: int|
        0 <= i < n && (#[trigger] targets[i]).endpoint == endpoint && skipped(
            targets[i],
            i,
            set,
            projects,
            out,
            enriched,
        )
}

/// The endpoints warned about after a pass are those from before and, behind them, others, none of
/// them twice; and there is a line for each of the others.
pub open spec fn warns_anew(
    p: PassModel,
    warned: Seq<Seq<char>>,
    enriched: Result<Seq<char>, Seq<char>>,
) -> bool {
    &&& p.warned.len() == warned.len() + p.logs.len()
    &&& forall|i: int| 0 <= i < warned.len() ==> #[trigger] p.warned[i] == warned[i]
    &&& p.logs.len() > 0 ==> enriched is Err
    &&& forall|i: int|
        0 <= i < p.logs.len() ==> #[trigger] p.logs[i] == skip_line(
            p.warned[warned.len() + i],
            enriched->Err_0,
        )
    &&& forall|i: int, j: int|
        0 <= i < j < p.warned.len() && j >= warned.len() ==> #[trigger] p.warned[i]
            != #[trigger] p.warned[j]
}

proof fn lemma_warned(
    targets: Seq<TargetModel>,
    n: int,
    set: TargetSet,
    projects: Option<Seq<(Seq<char>, Seq<char>)>>,
    out: OutModel,
    enriched: Result<Seq<char>, Seq<char>>,
    warned: Seq<Seq<char>>,
)
    requires
        0 <= n <= targets.len(),
    ensures
        warns_anew(
            pass_over(targets, n, set, projects, out, enriched, warned),
            warned,
            enriched,
        ),
        forall|e: Seq<char>| #[trigger]
            pass_over(targets, n, set, projects, out, enriched, warned).warned.contains(e)
                <==> warned.contains(e) || some_skipped(
                targets,
                n,
                set,
                projects,
                out,
                enriched,
                e,
            ),
    decreases n,
{
    let p = pass_over(targets, n, set, projects, out, enriched, warned);
    if n == 0 {
        assert forall|e: Seq<char>| #[trigger] p.warned.contains(e) <==> warned.contains(e)
            || some_skipped(targets, n, set, projects, out, enriched, e) by {}
    } else {
        lemma_warned(targets, n - 1, set, projects, out, enriched, warned);
        let prev = pass_over(targets, n - 1, set, projects, out, enriched, warned);
        let t = targets[n - 1];
        let fails = skipped(t, n - 1, set, projects, out, enriched);
        let fresh = fails && !prev.warned.contains(t.endpoint);
        if fresh {
            assert(p.warned == prev.warned.push(t.endpoint));
            assert(p.logs == prev.logs.push(skip_line(t.endpoint, enriched->Err_0)));
        } else {
            assert(p.warned == prev.warned && p.logs == prev.logs);
        }
        assert(p.warned.len() == warned.len() + p.logs.len());
        assert forall|i: int| 0 <= i < warned.len() implies #[trigger] p.warned[i] == warned[i] by {
            assert(p.warned[i] == prev.warned[i]);
        }
        assert forall|i: int| 0 <= i < p.logs.len() implies #[trigger] p.logs[i]
            == skip_line(p.warned[warned.len() + i], enriched->Err_0) by {
            if i < prev.logs.len() {
                assert(p.logs[i] == prev.logs[i]);
                assert(p.warned[warned.len() + i] == prev.warned[warned.len() + i]);
            }
        }
        assert forall|i: int, j: int|
            0 <= i < j < p.warned.len() && j >= warned.len() implies #[trigger] p.warned[i]
            != #[trigger] p.warned[j] by {
            assert(p.warned[i] == prev.warned[i]);
            if j < prev.warned.len() {
                assert(p.warned[j] == prev.warned[j]);
            } else {
                assert(prev.warned.contains(prev.warned[i]));
            }
        }
        assert(warns_anew(p, warned, enriched));
        assert forall|e: Seq<char>| #[trigger] p.warned.contains(e) <==> warned.contains(e)
            || some_skipped(targets, n, set, projects, out, enriched, e) by {
            lemma_some_skipped(targets, n, set, projects, out, enriched, e);
            assert(prev.warned.contains(e) <==> warned.contains(e) || some_skipped(
                targets,
                n - 1,
                set,
                projects,
                out,
                enriched,
                e,
            ));
            if prev.warned.contains(e) {
                assert(p.warned[prev.warned.index_of(e)] == e);
            }
            if fresh && t.endpoint == e {
                assert(p.warned[prev.warned.len() as int] == e);
            }
            if p.warned.contains(e) {
                let k = p.warned.index_of(e);
                if k < prev.warned.len() {
                    assert(prev.warned[k] == e);
                }
            }
        }
    }
}

proof fn lemma_some_skipped(
    targets: Seq<TargetModel>,
    n: int,
    set: TargetSet,
    projects: Option<Seq<(Seq<char>, Seq<char>)>>,
    out: OutModel,
    enriched: Result<Seq<char>, Seq<char>>,
    e: Seq<char>,
)
    requires
        0 < n <= targets.len(),
    ensures
        some_skipped(targets, n, set, projects, out, enriched, e) <==> some_skipped(
            targets,
            n - 1,
            set,
            projects,
            out,
            enriched,
            e,
        ) || (targets[n - 1].endpoint == e && skipped(
            targets[n - 1],
            n - 1,
            set,
            projects,
            out,
            enriched,
        )),
{
    if some_skipped(targets, n - 1, set, projects, out, enriched, e) {
        let i = choose|i: int|
            0 <= i < n - 1 && (#[trigger] targets[i]).endpoint == e && skipped(
                targets[i],
                i,
                set,
                projects,
                out,
                enriched,
            );
        assert(targets[i].endpoint == e);
    }
    if targets[n - 1].endpoint == e && skipped(
        targets[n - 1],
        n - 1,
        set,
        projects,
        out,
        enriched,
    ) {
        assert(some_skipped(targets, n, set, projects, out, enriched, e));
    }
}

/// A destination that a batch cannot be enriched for is logged once ever: a pass adds to the
/// endpoints warned about exactly those that it skips and that were not among them, with one line
/// for each.
pub proof fn law_a_skipped_destination_is_logged_once(
    targets: Seq<TargetModel>,
    set: TargetSet,
    projects: Option<Seq<(Seq<char>, Seq<char>)>>,
    out: OutModel,
    enriched: Result<Seq<char>, Seq<char>>,
    warned: Seq<Seq<char>>,
    endpoint: Seq<char>,
)
    ensures
        ({
            let n = targets.len() as int;
            let p = pass_over(targets, n, set, projects, out, enriched, warned);
            &&& warns_anew(p, warned, enriched)
            &&& p.warned.contains(endpoint) <==> warned.contains(endpoint) || some_skipped(
                targets,
                n,
                set,
                projects,
                out,
                enriched,
                endpoint,
            )
        }),
{
    lemma_warned(targets, targets.len() as int, set, projects, out, enriched, warned);
}

proof fn lemma_sends_same(
    targets: Seq<TargetModel>,
    n: int,
    set: TargetSet,
    projects: Option<Seq<(Seq<char>, Seq<char>)>>,
    out: OutModel,
    enriched: Result<Seq<char>, Seq<char>>,
    a: Seq<Seq<char>>,
    b: Seq<Seq<char>>,
)
    ensures
        pass_over(targets, n, set, projects, out, enriched, a).sends == pass_over(
            targets,
            n,
            set,
            projects,
            out,
            enriched,
            b,
        ).sends,
    decreases n,
{
    if n > 0 {
        lemma_sends_same(targets, n - 1, set, projects, out, enriched, a, b);
    }
}

/// What was warned about before makes no difference to what is sent.
pub proof fn law_warnings_change_nothing_that_is_sent(
    targets: Seq<TargetModel>,
    set: TargetSet,
    projects: Option<Seq<(Seq<char>, Seq<char>)>>,
    out: OutModel,
    enriched: Result<Seq<char>, Seq<char>>,
    a: Seq<Seq<char>>,
    b: Seq<Seq<char>>,
)
    ensures
        pass_over(targets, targets.len() as int, set, projects, out, enriched, a).sends == pass_over(
            targets,
            targets.len() as int,
            set,
            projects,
            out,
            enriched,
            b,
        ).sends,
{
    lemma_sends_same(targets, targets.len() as int, set, projects, out, enriched, a, b);
}

// ---------------------------------------------------------------------------------------------
// The projects of a batch
// ---------------------------------------------------------------------------------------------

proof fn lemma_missing(index: SessionIndexCache, ids: Seq<Seq<char>>, n: int)
    requires
        0 <= n <= ids.len(),
    ensures
        forall|s: Seq<char>| #[trigger]
            missing_of(index, ids, n).contains(s) <==> index.row(s) is None && exists|i: int|
                0 <= i < n && #[trigger] ids[i] == s,
        missing_of(index, ids, n).len() == 0 <==> forall|i: int|
            0 <= i < n ==> index.row(#[trigger] ids[i]) is Some,
    decreases n,
{
    if n > 0 {
        lemma_missing(index, ids, n - 1);
        let rest = missing_of(index, ids, n - 1);
        let all = missing_of(index, ids, n);
        assert forall|s: Seq<char>| #[trigger] all.contains(s) <==> index.row(s) is None && exists|
            i: int,
        |
            0 <= i < n && #[trigger] ids[i] == s by {
            if all.contains(s) {
                let k = all.index_of(s);
                if k < rest.len() {
                    assert(rest[k] == s);
                    assert(rest.contains(s));
                    let i = choose|i: int| 0 <= i < n - 1 && #[trigger] ids[i] == s;
                    assert(ids[i] == s);
                } else {
                    assert(ids[n - 1] == s);
                }
            }
            if index.row(s) is None && exists|i: int| 0 <= i < n && #[trigger] ids[i] == s {
                let i = choose|i: int| 0 <= i < n && #[trigger] ids[i] == s;
                if i < n - 1 {
                    assert(rest.contains(s));
                    assert(all[rest.index_of(s)] == s);
                } else {
                    assert(all[all.len() - 1] == s);
                }
            }
        }
    }
}

proof fn lemma_projects(index: SessionIndexCache, ids: Seq<Seq<char>>, n: int)
    requires
        0 <= n <= ids.len(),
    ensures
        forall|p: (Seq<char>, Seq<char>)| #[trigger]
            projects_of(index, ids, n).contains(p) <==> exists|i: int|
                0 <= i < n && (index.project_row(#[trigger] ids[i]) matches Some(row) && row.label
                    == p.0 && row.key == p.1),
        projects_of(index, ids, n).no_duplicates(),
    decreases n,
{
    if n > 0 {
        lemma_projects(index, ids, n - 1);
        let rest = projects_of(index, ids, n - 1);
        let all = projects_of(index, ids, n);
        assert forall|p: (Seq<char>, Seq<char>)| #[trigger] all.contains(p) <==> exists|i: int|
            0 <= i < n && (index.project_row(#[trigger] ids[i]) matches Some(row) && row.label
                == p.0 && row.key == p.1) by {
            if all.contains(p) {
                let k = all.index_of(p);
                if k < rest.len() {
                    assert(rest[k] == p);
                    assert(rest.contains(p));
                    let i = choose|i: int|
                        0 <= i < n - 1 && (index.project_row(#[trigger] ids[i]) matches Some(row)
                            && row.label == p.0 && row.key == p.1);
                    assert(index.project_row(ids[i]) is Some);
                } else {
                    assert(index.project_row(ids[n - 1]) is Some);
                }
            }
            if exists|i: int|
                0 <= i < n && (index.project_row(#[trigger] ids[i]) matches Some(row) && row.label
                    == p.0 && row.key == p.1) {
                let i = choose|i: int|
                    0 <= i < n && (index.project_row(#[trigger] ids[i]) matches Some(row)
                        && row.label == p.0 && row.key == p.1);
                if rest.contains(p) {
                    assert(all[rest.index_of(p)] == p);
                } else {
                    assert(i == n - 1);
                    assert(all[all.len() - 1] == p);
                }
            }
        }
        assert forall|i: int, j: int| 0 <= i < all.len() && 0 <= j < all.len() && i
            != j implies all[i] != all[j] by {
            if i < rest.len() && j < rest.len() {
                assert(all[i] == rest[i] && all[j] == rest[j]);
            } else if i < rest.len() {
                assert(rest.contains(rest[i]));
            } else {
                assert(rest.contains(rest[j]));
            }
        }
    }
}

/// A batch waits exactly where it names a session that the index has not seen, and for all of these;
/// it is resolved exactly where every session that it names has a project, to the projects of them
/// all, each once; and in every other case nothing can be told of it.
pub proof fn law_a_batch_has_the_projects_of_its_sessions(
    index: SessionIndexCache,
    out: OutModel,
    ids: Seq<Seq<char>>,
)
    requires
        body_sessions(out.body, out.signal == OtlpSignal::Metrics) == Some(ids),
    ensures
        match batch_of(index, out) {
            BatchModel::Unindexed(missing) => {
                &&& exists|i: int| 0 <= i < ids.len() && index.row(#[trigger] ids[i]) is None
                &&& forall|s: Seq<char>| #[trigger]
                    missing.contains(s) <==> ids.contains(s) && index.row(s) is None
            },
            BatchModel::Resolved(p) => {
                &&& ids.len() > 0
                &&& forall|i: int| 0 <= i < ids.len() ==> index.project_row(#[trigger] ids[i]) is Some
                &&& p.no_duplicates()
                &&& forall|i: int|
                    0 <= i < ids.len() ==> (index.project_row(#[trigger] ids[i]) matches Some(row)
                        && p.contains((row.label, row.key)))
                &&& forall|k: int|
                    0 <= k < p.len() ==> exists|i: int|
                        0 <= i < ids.len() && (index.project_row(#[trigger] ids[i]) matches Some(row)
                            && (row.label, row.key) == #[trigger] p[k])
            },
            BatchModel::Unattributable => {
                &&& forall|i: int| 0 <= i < ids.len() ==> index.row(#[trigger] ids[i]) is Some
                &&& ids.len() == 0 || exists|i: int|
                    0 <= i < ids.len() && index.project_row(#[trigger] ids[i]) is None
            },
        },
{
    let n = ids.len() as int;
    lemma_missing(index, ids, n);
    lemma_projects(index, ids, n);
    match batch_of(index, out) {
        BatchModel::Unindexed(missing) => {
            assert forall|s: Seq<char>| #[trigger] missing.contains(s) <==> ids.contains(s)
                && index.row(s) is None by {
                if ids.contains(s) {
                    assert(ids[ids.index_of(s)] == s);
                }
            }
        },
        BatchModel::Resolved(p) => {
            assert forall|i: int| 0 <= i < ids.len() implies (index.project_row(
                #[trigger] ids[i],
            ) matches Some(row) && p.contains((row.label, row.key))) by {
                let row = index.project_row(ids[i])->0;
                assert(p.contains((row.label, row.key)));
            }
            assert forall|k: int| 0 <= k < p.len() implies exists|i: int|
                0 <= i < ids.len() && (index.project_row(#[trigger] ids[i]) matches Some(row) && (
                row.label, row.key) == #[trigger] p[k]) by {
                assert(p.contains(p[k]));
                let i = choose|i: int|
                    0 <= i < n && (index.project_row(#[trigger] ids[i]) matches Some(row)
                        && row.label == p[k].0 && row.key == p[k].1);
                assert(index.project_row(ids[i]) is Some);
            }
        },
        BatchModel::Unattributable => {
            if ids.len() == 0 {
            } else {
                assert(!all_attributed(index, ids, n));
            }
        },
    }
}

/// A body that cannot be read is of no project.
pub proof fn law_an_unreadable_batch_is_of_no_project(index: SessionIndexCache, out: OutModel)
    requires
        body_sessions(out.body, out.signal == OtlpSignal::Metrics) is None,
    ensures
        batch_of(index, out) == BatchModel::Unattributable,
{
}

// ---------------------------------------------------------------------------------------------
// Waiting
// ---------------------------------------------------------------------------------------------

/// A body keeps waiting exactly where this is not the last pass, a session of it is still unseen,
/// and it has not waited five minutes.
pub proof fn law_a_body_waits_for_five_minutes(
    index: SessionIndexCache,
    d: DeferredModel,
    last: bool,
    now: u64,
)
    ensures
        stays(index, d, last, now) <==> {
            &&& !last
            &&& exists|i: int| 0 <= i < d.missing.len() && index.row(#[trigger] d.missing[i]) is None
            &&& now < d.at + 300_000
        },
{
}

/// The bodies among the first `n` that keep waiting.
pub open spec fn still_waiting(w: WorkerModel, n: int, last: bool, now: u64) -> Seq<DeferredModel> {
    w.deferred.take(n).filter(|d: DeferredModel| stays(w.index, d, last, now))
}

proof fn lemma_retried(w: WorkerModel, n: int, last: bool, now: u64)
    requires
        0 <= n <= w.deferred.len(),
    ensures
        retried(w, n, last, now).deferred == still_waiting(w, n, last, now),
    decreases n,
{
    let p = |d: DeferredModel| stays(w.index, d, last, now);
    if n == 0 {
        crate::seqs::lemma_filter_none(w.deferred, p);
    } else {
        lemma_retried(w, n - 1, last, now);
        crate::seqs::lemma_filter_take(w.deferred, n - 1, p);
    }
}

/// Of the bodies that wait, exactly those that have to keep waiting, in their order and unchanged.
pub proof fn law_a_body_keeps_its_place(w: WorkerModel, last: bool, now: u64)
    ensures
        retried(w, w.deferred.len() as int, last, now).deferred == w.deferred.filter(
            |d: DeferredModel| stays(w.index, d, last, now),
        ),
{
    lemma_retried(w, w.deferred.len() as int, last, now);
    assert(w.deferred.take(w.deferred.len() as int) =~= w.deferred);
}

/// The requests of a waiting body, once its projects are known: those of a pass over the
/// destinations that restrict.
pub open spec fn late_requests(w: WorkerModel, out: OutModel) -> Seq<SendingModel> {
    match batch_of(w.index, out) {
        BatchModel::Resolved(p) => pass_over(
            w.targets,
            w.targets.len() as int,
            TargetSet::FilteredOnly,
            Some(p),
            out,
            enriched_out(w.index, out),
            w.warned,
        ).sends,
        _ => Seq::empty(),
    }
}

/// How many of the first `n` waiting bodies leave without any session of theirs ever having been
/// seen.
pub open spec fn lost(w: WorkerModel, n: int, last: bool, now: u64) -> nat
    decreases n,
{
    if n <= 0 {
        0
    } else {
        lost(w, n - 1, last, now) + if !stays(w.index, w.deferred[n - 1], last, now) && batch_of(
            w.index,
            w.deferred[n - 1].out,
        ) is Unindexed {
            1nat
        } else {
            0nat
        }
    }
}

/// A waiting body that stops waiting and has requests, as it is dispatched.
pub open spec fn late(w: WorkerModel, i: int, last: bool, now: u64) -> Option<DispatchModel> {
    let d = w.deferred[i];
    if !stays(w.index, d, last, now) && late_requests(w, d.out).len() > 0 {
        Some(DispatchModel { out: d.out, sends: late_requests(w, d.out) })
    } else {
        None
    }
}

/// The dispatches of the first `n` waiting bodies, in their order.
pub open spec fn all_late(w: WorkerModel, n: int, last: bool, now: u64) -> Seq<DispatchModel>
    decreases n,
{
    if n <= 0 {
        Seq::empty()
    } else {
        match late(w, n - 1, last, now) {
            Some(x) => all_late(w, n - 1, last, now).push(x),
            None => all_late(w, n - 1, last, now),
        }
    }
}

proof fn lemma_dispatched(w: WorkerModel, n: int, last: bool, now: u64)
    requires
        0 <= n <= w.deferred.len(),
    ensures
        retried(w, n, last, now).dispatches == all_late(w, n, last, now),
        w.dropped + lost(w, n, last, now) <= u64::MAX ==> retried(w, n, last, now).dropped
            == w.dropped + lost(w, n, last, now),
    decreases n,
{
    if n > 0 {
        lemma_dispatched(w, n - 1, last, now);
        let prev = retried(w, n - 1, last, now);
        let d = w.deferred[n - 1];
        if !stays(w.index, d, last, now) {
            if let BatchModel::Resolved(p) = batch_of(w.index, d.out) {
                lemma_sends_same(
                    w.targets,
                    w.targets.len() as int,
                    TargetSet::FilteredOnly,
                    Some(p),
                    d.out,
                    enriched_out(w.index, d.out),
                    prev.warned,
                    w.warned,
                );
            }
        }
    }
}

/// Every body that stops waiting is sent, in the order in which they wait, to the destinations that
/// restrict and accept its projects, and nothing else is sent; one whose sessions were never seen is
/// counted as dropped.
pub proof fn law_a_body_that_stops_waiting_is_sent(w: WorkerModel, last: bool, now: u64)
    ensures
        ({
            let n = w.deferred.len() as int;
            let t = retried(w, n, last, now);
            &&& t.dispatches == all_late(w, n, last, now)
            &&& w.dropped + lost(w, n, last, now) <= u64::MAX ==> t.dropped == w.dropped + lost(
                w,
                n,
                last,
                now,
            )
        }),
{
    lemma_dispatched(w, w.deferred.len() as int, last, now);
}

/// The requests that a received body makes at once: to all where none restricts or its projects are
/// known, and else to those that do not restrict.
pub open spec fn prompt_requests(w: WorkerModel, out: OutModel) -> Seq<SendingModel> {
    let n = w.targets.len() as int;
    let text = enriched_out(w.index, out);
    if forall|i: int| 0 <= i < n ==> (#[trigger] w.targets[i]).filter == FilterModel::All {
        pass_over(w.targets, n, TargetSet::All, None, out, text, w.warned).sends
    } else {
        match batch_of(w.index, out) {
            BatchModel::Resolved(p) => pass_over(
                w.targets,
                n,
                TargetSet::All,
                Some(p),
                out,
                text,
                w.warned,
            ).sends,
            _ => pass_over(
                w.targets,
                n,
                TargetSet::UnfilteredOnly,
                None,
                out,
                text,
                w.warned,
            ).sends,
        }
    }
}

/// A received body is sent at once to every destination that may have it now, behind the bodies that
/// stopped waiting; and it waits, as long as there is room, exactly where a destination restricts
/// and a session of it is unseen. Without room it is counted as dropped.
pub proof fn law_a_received_body_is_sent_or_waits(w: WorkerModel, out: OutModel, now: u64)
    ensures
        ({
            let before = retried(w, w.deferred.len() as int, false, now);
            let t = handled(w, out, now);
            let sends = prompt_requests(w, out);
            let restricts = exists|i: int|
                0 <= i < w.targets.len() && (#[trigger] w.targets[i]).filter != FilterModel::All;
            &&& sends.len() == 0 ==> t.dispatches == before.dispatches
            &&& sends.len() > 0 ==> t.dispatches == before.dispatches.push(
                DispatchModel { out, sends },
            )
            &&& restricts ==> (batch_of(w.index, out) matches BatchModel::Unindexed(missing) ==> {
                if before.deferred.len() < 64 {
                    &&& t.deferred == before.deferred.push(DeferredModel { out, missing, at: now })
                    &&& t.dropped == before.dropped
                    &&& t.released == before.released
                } else {
                    &&& t.deferred == before.deferred
                    &&& t.dropped == next_count(before.dropped)
                    &&& t.released == before.released.push(out.body.len())
                }
            })
            &&& !(restricts && batch_of(w.index, out) is Unindexed) ==> {
                &&& t.deferred == before.deferred
                &&& t.dropped == before.dropped
                &&& t.released == before.released.push(out.body.len())
            }
        }),
{
    let n = w.targets.len() as int;
    let before = retried(w, w.deferred.len() as int, false, now);
    let text = enriched_out(w.index, out);
    lemma_sends_same(w.targets, n, TargetSet::All, None, out, text, before.warned, w.warned);
    lemma_sends_same(
        w.targets,
        n,
        TargetSet::UnfilteredOnly,
        None,
        out,
        text,
        before.warned,
        w.warned,
    );
    if let BatchModel::Resolved(p) = batch_of(w.index, out) {
        lemma_sends_same(w.targets, n, TargetSet::All, Some(p), out, text, before.warned, w.warned);
    }
    if any_filtered(w.targets) {
        let i = choose|i: int| 0 <= i < n && filtered(#[trigger] w.targets[i]);
        assert(w.targets[i].filter != FilterModel::All);
    } else {
        assert forall|i: int| 0 <= i < n implies (#[trigger] w.targets[i]).filter
            == FilterModel::All by {
            assert(!filtered(w.targets[i]));
        }
    }
}

/// A count of drops grows by one and stops at the greatest number; it is logged at the first and
/// then at every hundredth.
pub proof fn law_drops_are_counted_one_by_one(before: u64)
    ensures
        before < u64::MAX ==> next_count(before) == before + 1,
        next_count(u64::MAX) == u64::MAX,
        queue_line(before) is Some <==> before < u64::MAX && (before == 0 || (before + 1) % 100 == 0),
        unresolved_line(before).len() == if before < u64::MAX && (before == 0 || (before + 1) % 100
            == 0) {
            1nat
        } else {
            0nat
        },
{
    crate::throttle::law_every_multiple_is_logged_once(before as nat, 100);
}

/// The worker looks again when the first of the waiting bodies has waited its time: at the deadline
/// of one of them, and of none later than that of another.
pub proof fn law_the_first_deadline_is_the_earliest(v: Seq<DeferredModel>)
    ensures
        match first_deadline(v) {
            None => v.len() == 0,
            Some(t) => {
                &&& forall|i: int| 0 <= i < v.len() ==> t <= deadline_of(#[trigger] v[i])
                &&& exists|i: int| 0 <= i < v.len() && t == deadline_of(#[trigger] v[i])
            },
        },
        forall|i: int|
            0 <= i < v.len() && (#[trigger] v[i]).at + 300_000 <= u64::MAX ==> deadline_of(v[i])
                == v[i].at + 300_000,
    decreases v.len(),
{
    if v.len() > 0 {
        let d = v.drop_last();
        law_the_first_deadline_is_the_earliest(d);
        let n = v.len() - 1;
        assert(v[n] == v.last());
        assert forall|i: int| 0 <= i < n implies #[trigger] v[i] == d[i] by {}
        let t = first_deadline(v)->0;
        if t == deadline_of(v.last()) {
            assert(t == deadline_of(v[n]));
        } else {
            let i = choose|i: int| 0 <= i < d.len() && t == deadline_of(#[trigger] d[i]);
            assert(t == deadline_of(v[i]));
        }
    }
}

// ---------------------------------------------------------------------------------------------
// Answers and endpoints
// ---------------------------------------------------------------------------------------------

proof fn lemma_word_end(s: Seq<char>, i: int)
    requires
        0 <= i <= s.len(),
    ensures
        i <= word_end(s, i) <= s.len(),
        forall|k: int| i <= k < word_end(s, i) ==> !is_white(#[trigger] s[k]),
        word_end(s, i) < s.len() ==> is_white(s[word_end(s, i)]),
    decreases s.len() - i,
{
    if i < s.len() && !is_white(s[i]) {
        lemma_word_end(s, i + 1);
    }
}

/// A word: some characters, none of them white space.
pub open spec fn is_word(s: Seq<char>) -> bool {
    s.len() > 0 && forall|i: int| 0 <= i < s.len() ==> !is_white(#[trigger] s[i])
}

proof fn lemma_first_word(a: Seq<char>, rest: Seq<char>)
    requires
        is_word(a),
        rest.len() == 0 || is_white(rest[0]),
    ensures
        trimmed_start(a + rest) == a + rest,
        word_and_rest(a + rest) == (a, rest),
{
    let s = a + rest;
    assert(s[0] == a[0]);
    lemma_word_end(s, 0);
    let n = word_end(s, 0);
    assert(n == a.len()) by {
        if n < a.len() {
            assert(s[n] == a[n]);
        }
        if n > a.len() {
            assert(!is_white(s[a.len() as int]));
            assert(s[a.len() as int] == rest[0]);
        }
    }
    assert(s.take(n) =~= a);
    assert(s.skip(n) =~= rest);
}

/// The second word of a line is what stands between the first white space and the next.
pub proof fn law_the_second_word(a: Seq<char>, b: Seq<char>, rest: Seq<char>)
    requires
        is_word(a),
        is_word(b),
        rest.len() == 0 || is_white(rest[0]),
    ensures
        second_word(a + seq![' '] + b + rest) == b,
{
    let tail = seq![' '] + (b + rest);
    assert(a + seq![' '] + b + rest =~= a + tail);
    assert(is_white(' '));
    assert(tail[0] == ' ');
    lemma_first_word(a, tail);
    assert(tail.skip(1) =~= b + rest);
    lemma_first_word(b, rest);
    assert(trimmed_start(tail) == trimmed_start(tail.skip(1)));
}

proof fn lemma_gap(s: Seq<char>, i: int)
    requires
        0 <= i <= s.len(),
    ensures
        match gap_from(s, i) {
            Some(k) => i <= k && gap_at(s, k) && forall|j: int|
                i <= j < k ==> !#[trigger] gap_at(s, j),
            None => forall|j: int| i <= j ==> !#[trigger] gap_at(s, j),
        },
    decreases s.len() - i,
{
    if i < s.len() && !gap_at(s, i) {
        lemma_gap(s, i + 1);
    }
}

/// The build of a receiver is read from an answer exactly where a blank line ends its headers, its
/// status is 200, and the body behind the first blank line is an identity of this service; it is the
/// version that the identity names.
pub proof fn law_an_answer_names_the_build(text: Seq<char>, build: Seq<char>)
    ensures
        answered_build(text) == Some(build) <==> exists|k: int|
            {
                &&& #[trigger] gap_at(text, k)
                &&& forall|j: int| 0 <= j < k ==> !#[trigger] gap_at(text, j)
                &&& crate::decimal::unsigned_value(second_word(before_first(text.take(k), '\n')))
                    == Some(200nat)
                &&& parsed(trimmed(text.skip(k + 4))) matches Ok(t) && identity_of(t) == Some(
                    ("hatel"@, build),
                )
            },
{
    lemma_gap(text, 0);
    if answered_build(text) == Some(build) {
        let k = gap_from(text, 0)->0;
        assert(gap_at(text, k));
    }
    if exists|k: int|
        {
            &&& #[trigger] gap_at(text, k)
            &&& forall|j: int| 0 <= j < k ==> !#[trigger] gap_at(text, j)
            &&& crate::decimal::unsigned_value(second_word(before_first(text.take(k), '\n')))
                == Some(200nat)
            &&& parsed(trimmed(text.skip(k + 4))) matches Ok(t) && identity_of(t) == Some(
                ("hatel"@, build),
            )
        } {
        let k = choose|k: int|
            {
                &&& #[trigger] gap_at(text, k)
                &&& forall|j: int| 0 <= j < k ==> !#[trigger] gap_at(text, j)
                &&& crate::decimal::unsigned_value(second_word(before_first(text.take(k), '\n')))
                    == Some(200nat)
                &&& parsed(trimmed(text.skip(k + 4))) matches Ok(t) && identity_of(t) == Some(
                    ("hatel"@, build),
                )
            };
        let f = gap_from(text, 0);
        assert(f is Some);
        assert(f == Some(k)) by {
            if f->0 < k {
                assert(!gap_at(text, f->0));
            }
            if k < f->0 {
                assert(!gap_at(text, k));
            }
        }
    }
}

/// An identity is an object with a service and a version, or a list of just these two texts.
pub proof fn law_an_identity_is_a_service_and_a_version(
    m: Map<Seq<char>, Tree>,
    v: Seq<Tree>,
    service: Seq<char>,
    version: Seq<char>,
)
    ensures
        identity_of(Tree::Obj(m)) == Some((service, version)) <==> slot(m, "service"@) == Some(
            Tree::Str(service),
        ) && slot(m, "version"@) == Some(Tree::Str(version)),
        identity_of(Tree::Arr(v)) == Some((service, version)) <==> v == seq![
            Tree::Str(service),
            Tree::Str(version),
        ],
{
    if v.len() == 2 {
        if let Tree::Str(s) = v[0] {
            if let Tree::Str(t) = v[1] {
                assert(v =~= seq![Tree::Str(s), Tree::Str(t)]);
            }
        }
    }
    let pair = seq![Tree::Str(service), Tree::Str(version)];
    assert(pair[0] == Tree::Str(service) && pair[1] == Tree::Str(version) && pair.len() == 2);
}

/// An authority is the host and the port of an endpoint: without the scheme, without the path, and
/// with the default port where it names none.
pub proof fn law_an_authority_is_host_and_port(host: Seq<char>, port: Seq<char>, path: Seq<char>)
    requires
        host.len() > 0,
        host[0] != '[',
        !host.contains('/'),
        !host.contains(':'),
        !port.contains('/'),
    ensures
        authority_of("http://"@ + host + seq![':'] + port + seq!['/'] + path) == host + seq![':']
            + port,
        authority_of("https://"@ + host + seq![':'] + port + seq!['/'] + path) == host + seq![':']
            + port,
        authority_of("http://"@ + host + seq!['/'] + path) == host + ":80"@,
{
    let named = host + seq![':'] + port;
    assert(!named.contains('/')) by {
        if named.contains('/') {
            let k = named.index_of('/');
            if k < host.len() {
                assert(host[k] == '/');
            } else if k > host.len() {
                assert(port[k - host.len() - 1] == '/');
            }
        }
    }
    lemma_host("http://"@, named, path);
    lemma_host("https://"@, named, path);
    lemma_host("http://"@, host, path);
    assert("http://"@ + host + seq![':'] + port + seq!['/'] + path =~= "http://"@ + (named
        + seq!['/'] + path));
    assert("https://"@ + host + seq![':'] + port + seq!['/'] + path =~= "https://"@ + (named
        + seq!['/'] + path));
    assert("http://"@ + host + seq!['/'] + path =~= "http://"@ + (host + seq!['/'] + path));
    assert(named[host.len() as int] == ':');
    assert(named.contains(':'));
    assert(named[0] == host[0]);
}

proof fn lemma_host(scheme: Seq<char>, host: Seq<char>, path: Seq<char>)
    requires
        scheme == "http://"@ || scheme == "https://"@,
        !host.contains('/'),
    ensures
        host_part(scheme + (host + seq!['/'] + path)) == host,
{
    reveal_strlit("http://");
    reveal_strlit("https://");
    let rest = host + seq!['/'] + path;
    let whole = scheme + rest;
    assert(whole.subrange(0, scheme.len() as int) =~= scheme);
    assert(whole.skip(scheme.len() as int) =~= rest);
    if scheme == "https://"@ {
        assert(!"http://"@.is_prefix_of(whole)) by {
            if "http://"@.is_prefix_of(whole) {
                assert(whole.subrange(0, 7)[4] == whole[4]);
                assert(whole[4] == 's');
                assert("http://"@[4] == ':');
            }
        }
    }
    law_a_beginning_ends_before_the_first(rest, '/');
    let x = before_first(rest, '/');
    assert(rest[host.len() as int] == '/');
    assert(x.len() == host.len()) by {
        assert(rest.subrange(0, x.len() as int) == x);
        if x.len() > host.len() {
            assert(x[host.len() as int] == rest[host.len() as int]);
            assert(x.contains('/'));
        }
        if x.len() < host.len() {
            assert(rest[x.len() as int] == host[x.len() as int]);
            assert(host.contains('/'));
        }
    }
    assert(x =~= host) by {
        assert(rest.subrange(0, x.len() as int) =~= host);
    }
}

/// An address in brackets keeps its colons: the port stands behind the closing bracket, and is the
/// default one where there is none.
pub proof fn law_a_bracketed_authority_keeps_its_colons(
    host: Seq<char>,
    port: Seq<char>,
    path: Seq<char>,
)
    requires
        !host.contains('/'),
        !host.contains(']'),
        !port.contains('/'),
    ensures
        authority_of("http://"@ + (seq!['['] + host + seq![']', ':'] + port + seq!['/'] + path))
            == seq!['['] + host + seq![']', ':'] + port,
        authority_of("http://"@ + (seq!['['] + host + seq![']'] + seq!['/'] + path)) == seq!['[']
            + host + seq![']'] + ":80"@,
{
    let named = seq!['['] + host + seq![']', ':'] + port;
    let bare = seq!['['] + host + seq![']'];
    assert forall|i: int| 0 <= i < host.len() implies #[trigger] host[i] != '/' && host[i]
        != ']' by {
        assert(host.contains(host[i]));
    }
    assert(!named.contains('/')) by {
        if named.contains('/') {
            let k = named.index_of('/');
            if 1 <= k <= host.len() {
                assert(host[k - 1] == '/');
            } else if k > host.len() + 2 {
                assert(port[k - host.len() - 3] == '/');
                assert(port.contains('/'));
            }
        }
    }
    assert(!bare.contains('/')) by {
        if bare.contains('/') {
            let k = bare.index_of('/');
            if 1 <= k <= host.len() {
                assert(host[k - 1] == '/');
            }
        }
    }
    lemma_host("http://"@, named, path);
    lemma_host("http://"@, bare, path);
    let at = host.len() as int + 1;
    assert(named[at] == ']' && named[at + 1] == ':');
    assert(bracket_port(named));
    assert(named.contains(':'));
    assert(!bracket_port(bare)) by {
        if bracket_port(bare) {
            let i = choose|i: int|
                0 <= i < bare.len() - 1 && #[trigger] bare[i] == ']' && bare[i + 1] == ':';
            if 1 <= i {
                assert(host[i - 1] == ']');
            }
        }
    }
}

} // verus!
