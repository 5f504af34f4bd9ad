//! What a report answers: which sections it has, how each is ranked, and which records each group is
//! made of.
use vstd::prelude::*;
use crate::clock::{instant, not_later};
use crate::cost::CostModel;
use crate::decimal::{int_text, law_print_then_read_signed};
use crate::json::{compact_text, Tree};
use crate::model::{Envelope, EnvelopeModel};
use crate::order::before;
use crate::registry::{KindModel, RegistryModel};
use crate::report::{
    answered, answered_all, asked_kinds, counts, displaces, group_keys, grouped, in_scope,
    key_before, label_of, law_ranking_orders_all_groups, named_keys, oldest, order_of, planned,
    planned_section, precedes, rank_of_group, ranked, report_over, report_rows, row_sightings,
    rows_under, sighting, sightings, topped, undeclared, window_of, AnswerModel, GroupModel,
    MeasureModel, ProjectScope, QueryModel, SectionModel, SightingModel, MAX_WINDOW_DAYS,
};
use crate::sorted::{lemma_sorted_set, sorted_set};

verus! {

broadcast use vstd::map::group_map_axioms;

// ---------------------------------------------------------------------------------------------
// Ranking
// ---------------------------------------------------------------------------------------------

/// A group's sum of a measure: that of the first measure of the name, or zero where it has none.
pub open spec fn sum_is(g: GroupModel, measure: Seq<char>, v: i64) -> bool {
    ||| exists|i: int|
        0 <= i < g.sums.len() && (#[trigger] g.sums[i]).name == measure && g.sums[i].order == v
            && forall|j: int| 0 <= j < i ==> (#[trigger] g.sums[j]).name != measure
    ||| v == 0 && forall|j: int| 0 <= j < g.sums.len() ==> (#[trigger] g.sums[j]).name != measure
}

proof fn lemma_order_of(sums: Seq<MeasureModel>, measure: Seq<char>)
    ensures
        (exists|i: int|
            0 <= i < sums.len() && (#[trigger] sums[i]).name == measure && sums[i].order == order_of(
                sums,
                measure,
            ) && forall|j: int| 0 <= j < i ==> (#[trigger] sums[j]).name != measure) || (order_of(
            sums,
            measure,
        ) == 0 && forall|j: int| 0 <= j < sums.len() ==> (#[trigger] sums[j]).name != measure),
    decreases sums.len(),
{
    if sums.len() > 0 && sums[0].name != measure {
        let rest = sums.skip(1);
        lemma_order_of(rest, measure);
        let v = order_of(rest, measure);
        if exists|i: int|
            0 <= i < rest.len() && (#[trigger] rest[i]).name == measure && rest[i].order == v
                && forall|j: int| 0 <= j < i ==> (#[trigger] rest[j]).name != measure {
            let i = choose|i: int|
                0 <= i < rest.len() && (#[trigger] rest[i]).name == measure && rest[i].order == v
                    && forall|j: int| 0 <= j < i ==> (#[trigger] rest[j]).name != measure;
            assert(sums[i + 1] == rest[i]);
            assert forall|j: int| 0 <= j < i + 1 implies (#[trigger] sums[j]).name != measure by {
                if j > 0 {
                    assert(rest[j - 1] == sums[j]);
                }
            }
            assert(sums[i + 1].name == measure);
        } else {
            assert forall|j: int| 0 <= j < sums.len() implies (#[trigger] sums[j]).name
                != measure by {
                if j > 0 {
                    assert(rest[j - 1] == sums[j]);
                }
            }
        }
    } else if sums.len() > 0 {
        assert(sums[0].name == measure);
    }
}

/// A group ranks by its own sum of the measure, and by nothing else of it; without a measure it
/// ranks by how many records it has.
pub proof fn law_a_group_ranks_by_its_sum(g: GroupModel, measure: Seq<char>, v: i64)
    requires
        sum_is(g, measure, v),
    ensures
        rank_of_group(g, Some(measure)) == v,
        rank_of_group(g, None) == g.count,
{
    lemma_order_of(g.sums, measure);
    if exists|i: int|
        0 <= i < g.sums.len() && (#[trigger] g.sums[i]).name == measure && g.sums[i].order == v
            && forall|j: int| 0 <= j < i ==> (#[trigger] g.sums[j]).name != measure {
        let i = choose|i: int|
            0 <= i < g.sums.len() && (#[trigger] g.sums[i]).name == measure && g.sums[i].order == v
                && forall|j: int| 0 <= j < i ==> (#[trigger] g.sums[j]).name != measure;
        let w = order_of(g.sums, measure);
        assert(exists|k: int|
            0 <= k < g.sums.len() && (#[trigger] g.sums[k]).name == measure && g.sums[k].order == w
                && forall|j: int| 0 <= j < k ==> (#[trigger] g.sums[j]).name != measure);
        let k = choose|k: int|
            0 <= k < g.sums.len() && (#[trigger] g.sums[k]).name == measure && g.sums[k].order == w
                && forall|j: int| 0 <= j < k ==> (#[trigger] g.sums[j]).name != measure;
        assert(k == i) by {
            if k < i {
                assert(g.sums[k].name != measure);
            }
            if i < k {
                assert(g.sums[i].name != measure);
            }
        }
    }
}

/// Groups are ranked by a measure: of any two, the earlier has a sum that is not less, and where the
/// sums are equal its key does not come behind the other's.
pub open spec fn ranked_by(groups: Seq<GroupModel>, measure: Seq<char>) -> bool {
    forall|a: int, b: int, va: i64, vb: i64|
        0 <= a < b < groups.len() && #[trigger] sum_is(groups[a], measure, va) && #[trigger] sum_is(
            groups[b],
            measure,
            vb,
        ) ==> va >= vb && (va == vb ==> !key_before(groups[b].key, groups[a].key))
}

/// Groups are ranked by how many records they have.
pub open spec fn ranked_by_count(groups: Seq<GroupModel>) -> bool {
    forall|a: int, b: int|
        0 <= a < b < groups.len() ==> (#[trigger] groups[a]).count >= (#[trigger] groups[b]).count
            && (groups[a].count == groups[b].count ==> !key_before(groups[b].key, groups[a].key))
}

proof fn lemma_ranked_holds(groups: Seq<GroupModel>, measure: Option<Seq<char>>, top_n: nat)
    ensures
        measure matches Some(m) ==> ranked_by(topped(ranked(groups, measure), top_n), m),
        measure is None ==> ranked_by_count(topped(ranked(groups, measure), top_n)),
{
    let all = ranked(groups, measure);
    let shown = topped(all, top_n);
    law_ranking_orders_all_groups(groups, measure);
    vstd::seq_lib::to_multiset_len(all);
    vstd::seq_lib::to_multiset_len(groups);
    assert(all.len() == groups.len());
    assert forall|a: int, b: int| 0 <= a < b < shown.len() implies !precedes(
        #[trigger] shown[b],
        #[trigger] shown[a],
        measure,
    ) by {
        assert(shown[a] == all[a] && shown[b] == all[b]);
    }
    match measure {
        Some(m) => {
            assert forall|a: int, b: int, va: i64, vb: i64|
                0 <= a < b < shown.len() && #[trigger] sum_is(shown[a], m, va) && #[trigger] sum_is(
                    shown[b],
                    m,
                    vb,
                ) implies va >= vb && (va == vb ==> !key_before(shown[b].key, shown[a].key)) by {
                law_a_group_ranks_by_its_sum(shown[a], m, va);
                law_a_group_ranks_by_its_sum(shown[b], m, vb);
                assert(!precedes(shown[b], shown[a], measure));
            }
        },
        None => {
            assert forall|a: int, b: int| 0 <= a < b < shown.len() implies (
            #[trigger] shown[a]).count >= (#[trigger] shown[b]).count && (shown[a].count
                == shown[b].count ==> !key_before(shown[b].key, shown[a].key)) by {
                assert(!precedes(shown[b], shown[a], measure));
            }
        },
    }
}

proof fn lemma_asked_from(kinds: Seq<KindModel>, q: QueryModel)
    ensures
        forall|i: int|
            0 <= i < asked_kinds(kinds, q).len() ==> kinds.contains(
                #[trigger] asked_kinds(kinds, q)[i],
            ) && (q.kind is None || q.kind == Some(asked_kinds(kinds, q)[i].name)),
    decreases kinds.len(),
{
    if kinds.len() > 0 {
        lemma_asked_from(kinds.drop_last(), q);
        let rest = asked_kinds(kinds.drop_last(), q);
        let all = asked_kinds(kinds, q);
        assert forall|i: int| 0 <= i < all.len() implies kinds.contains(#[trigger] all[i]) && (
        q.kind is None || q.kind == Some(all[i].name)) by {
            if i < rest.len() {
                assert(all[i] == rest[i]);
                assert(kinds.drop_last().contains(rest[i]));
                let j = kinds.drop_last().index_of(rest[i]);
                assert(kinds[j] == rest[i]);
            } else {
                assert(all[i] == kinds.last());
                assert(kinds[kinds.len() - 1] == all[i]);
            }
        }
    }
}

/// A section of a report whose query names a measure to sort by is ranked by that measure, whatever
/// its Kind declares: its `sort_by` is the measure named, and of any two of its groups the earlier
/// has a sum of it that is not less. Only where the query names none does the Kind's first measure
/// rank it, and where the Kind has none, the number of records.
pub proof fn law_a_section_is_ranked_by_the_measure_asked_for(
    reg: RegistryModel,
    window: Seq<char>,
    q: QueryModel,
    answers: Seq<AnswerModel>,
    rows: Seq<CostModel>,
    stored: Seq<Seq<char>>,
    i: int,
)
    requires
        0 <= i < report_over(reg, window, q, answers, rows, stored).kinds.len(),
    ensures
        ({
            let section = report_over(reg, window, q, answers, rows, stored).kinds[i];
            &&& q.sort_by matches Some(m) ==> section.sort_by == Some(m) && ranked_by(
                section.groups,
                m,
            )
            &&& q.sort_by is None ==> exists|k: KindModel| #[trigger]
                reg.kinds.contains(k) && k.name == section.kind && if k.measures.len() > 0 {
                    section.sort_by == Some(k.measures[0]) && ranked_by(
                        section.groups,
                        k.measures[0],
                    )
                } else {
                    section.sort_by is None && ranked_by_count(section.groups)
                }
        }),
{
    let asked = asked_kinds(reg.kinds, q);
    let plan = planned_section(asked[i], q);
    let section = report_over(reg, window, q, answers, rows, stored).kinds[i];
    lemma_asked_from(reg.kinds, q);
    assert(reg.kinds.contains(asked[i]));
    if i < answers.len() {
        lemma_ranked_holds(answers[i].groups, plan.sort_by, q.top_n);
    }
}

/// The greater sum comes first, and of two that are equal the one whose key comes first.
pub proof fn law_a_tie_is_told_by_the_key(a: GroupModel, b: GroupModel, measure: Option<Seq<char>>)
    ensures
        rank_of_group(a, measure) > rank_of_group(b, measure) ==> precedes(a, b, measure)
            && !precedes(b, a, measure),
        rank_of_group(a, measure) == rank_of_group(b, measure) ==> (precedes(a, b, measure)
            <==> key_before(a.key, b.key)),
{
}

/// A section's groups are those that were found: without a limit all of them, each once; with one
/// that many, or all where there are fewer. A section that the project scope cannot select has none.
pub proof fn law_a_section_shows_what_was_found(
    plan: SectionModel,
    found: AnswerModel,
    top_n: nat,
)
    ensures
        ({
            let section = answered(plan, found, top_n);
            &&& section.kind == plan.kind
            &&& section.group_by == plan.group_by
            &&& section.sort_by == plan.sort_by
            &&& section.scope == plan.scope
            &&& section.retained == found.retained
            &&& plan.scope == ProjectScope::Unsupported ==> section.groups.len() == 0
            &&& plan.scope != ProjectScope::Unsupported ==> {
                &&& top_n == 0 ==> section.groups.to_multiset() == found.groups.to_multiset()
                &&& section.groups.to_multiset().subset_of(found.groups.to_multiset())
                &&& section.groups.len() == if top_n > 0 && top_n < found.groups.len() {
                    top_n
                } else {
                    found.groups.len()
                }
            }
        }),
{
    let all = ranked(found.groups, plan.sort_by);
    law_ranking_orders_all_groups(found.groups, plan.sort_by);
    vstd::seq_lib::to_multiset_len(all);
    vstd::seq_lib::to_multiset_len(found.groups);
    let shown = topped(all, top_n);
    if shown.len() < all.len() {
        let head = all.take(top_n as int);
        let tail = all.skip(top_n as int);
        assert(head + tail =~= all);
        vstd::seq_lib::lemma_multiset_commutative(head, tail);
        assert(head.to_multiset().subset_of(all.to_multiset()));
    }
}

/// A report is answered section by section: each has its own answer, by position, and one whose
/// store was not read stays as it was planned.
pub proof fn law_each_section_has_its_own_answer(
    plans: Seq<SectionModel>,
    answers: Seq<AnswerModel>,
    top_n: nat,
    i: int,
)
    requires
        0 <= i < plans.len(),
    ensures
        answered_all(plans, answers, top_n).len() == plans.len(),
        i < answers.len() ==> answered_all(plans, answers, top_n)[i] == answered(
            plans[i],
            answers[i],
            top_n,
        ),
        i >= answers.len() ==> answered_all(plans, answers, top_n)[i] == plans[i],
{
}

// ---------------------------------------------------------------------------------------------
// Sections
// ---------------------------------------------------------------------------------------------

/// The sections of two lists of Kinds are those of the first and then those of the second.
pub proof fn law_sections_add_up(a: Seq<KindModel>, b: Seq<KindModel>, q: QueryModel)
    ensures
        planned(a + b, q) == planned(a, q) + planned(b, q),
    decreases b.len(),
{
    lemma_asked_adds_up(a, b, q);
    assert(planned(a + b, q) =~= planned(a, q) + planned(b, q));
}

proof fn lemma_asked_adds_up(a: Seq<KindModel>, b: Seq<KindModel>, q: QueryModel)
    ensures
        asked_kinds(a + b, q) == asked_kinds(a, q) + asked_kinds(b, q),
    decreases b.len(),
{
    if b.len() == 0 {
        assert(a + b =~= a);
        assert(asked_kinds(a, q) + asked_kinds(b, q) =~= asked_kinds(a, q));
    } else {
        lemma_asked_adds_up(a, b.drop_last(), q);
        assert((a + b).drop_last() =~= a + b.drop_last());
        assert((a + b).last() == b.last());
        assert(asked_kinds(a + b, q) =~= asked_kinds(a, q) + asked_kinds(b, q));
    }
}

/// One Kind has a section exactly where the query asks for it or for all. It is grouped by the
/// dimension named, or else by the Kind's own; and the project scope applies to it where the Kind
/// records a project, and is said not to where it does not.
pub proof fn law_one_kind_has_its_section(k: KindModel, q: QueryModel)
    ensures
        q.kind is Some && q.kind != Some(k.name) ==> planned(seq![k], q).len() == 0,
        q.kind is None || q.kind == Some(k.name) ==> {
            let section = planned(seq![k], q)[0];
            &&& planned(seq![k], q).len() == 1
            &&& section.kind == k.name
            &&& q.group_by matches Some(d) ==> section.group_by == d
            &&& q.group_by is None ==> section.group_by == k.group_key
            &&& q.sort_by matches Some(m) ==> section.sort_by == Some(m)
            &&& q.sort_by is None && k.measures.len() > 0 ==> section.sort_by == Some(k.measures[0])
            &&& q.sort_by is None && k.measures.len() == 0 ==> section.sort_by is None
            &&& q.project is None <==> section.scope == ProjectScope::Unrestricted
            &&& q.project is Some && k.fields.contains("project"@) <==> section.scope
                == ProjectScope::Applied
            &&& section.retained is None
            &&& section.groups.len() == 0
        },
{
    let one = seq![k];
    assert(one.drop_last() =~= Seq::<KindModel>::empty());
    assert(asked_kinds(one.drop_last(), q) =~= Seq::<KindModel>::empty());
    assert(one.last() == k);
}

/// A report says what was asked: its window, project, restrictions and limit are the query's.
pub proof fn law_a_report_repeats_the_question(
    reg: RegistryModel,
    window: Seq<char>,
    q: QueryModel,
    answers: Seq<AnswerModel>,
    rows: Seq<CostModel>,
    stored: Seq<Seq<char>>,
)
    ensures
        ({
            let r = report_over(reg, window, q, answers, rows, stored);
            &&& r.window == window
            &&& r.project == q.project
            &&& r.filters == q.filters
            &&& r.top_n == q.top_n
            &&& r.kinds.len() == planned(reg.kinds, q).len()
            &&& r.cost == report_rows(q, rows)
        }),
{
}

// ---------------------------------------------------------------------------------------------
// Records
// ---------------------------------------------------------------------------------------------

/// A field of a payload reads as a text: a string as itself, anything else as it is written.
pub open spec fn reads(payload: Map<Seq<char>, Tree>, field: Seq<char>, text: Seq<char>) -> bool {
    payload.contains_key(field) && match payload[field] {
        Tree::Str(s) => s == text,
        other => compact_text(other) == text,
    }
}

proof fn lemma_label(payload: Map<Seq<char>, Tree>, field: Seq<char>)
    ensures
        forall|t: Seq<char>| label_of(payload, field) == Some(t) <==> #[trigger] reads(
            payload,
            field,
            t,
        ),
        label_of(payload, field) is None <==> !payload.contains_key(field),
{
}

/// A record is in scope exactly where its time is known and within the window, its project is the
/// one asked for, and every restriction reads as asked.
pub proof fn law_a_record_is_in_scope_where_all_holds(q: QueryModel, rec: EnvelopeModel)
    ensures
        in_scope(q, rec) <==> {
            &&& instant(rec.ts) matches Some(at) && at.0 >= q.since
            &&& q.project matches Some(p) ==> rec.payload.contains_key("project"@)
                && rec.payload["project"@] == Tree::Str(p)
            &&& forall|i: int|
                0 <= i < q.filters.len() ==> reads(
                    rec.payload,
                    (#[trigger] q.filters[i]).0,
                    q.filters[i].1,
                )
        },
{
    assert forall|i: int| 0 <= i < q.filters.len() implies (label_of(
        rec.payload,
        (#[trigger] q.filters[i]).0,
    ) == Some(q.filters[i].1) <==> reads(rec.payload, q.filters[i].0, q.filters[i].1)) by {
        lemma_label(rec.payload, q.filters[i].0);
    }
}

/// Grouping reads a record's value of the dimension asked for, or of the Kind's own; the value of the
/// Kind's identity, where it has one; and its time.
pub proof fn law_a_record_is_read_for_what_is_asked(
    kind: KindModel,
    q: QueryModel,
    rec: EnvelopeModel,
    text: Seq<char>,
)
    ensures
        ({
            let s = sighting(kind, q, rec);
            &&& s.matched == in_scope(q, rec)
            &&& q.group_by matches Some(d) ==> (s.key == Some(text) <==> reads(
                rec.payload,
                d,
                text,
            ))
            &&& q.group_by is None ==> (s.key == Some(text) <==> reads(
                rec.payload,
                kind.group_key,
                text,
            ))
            &&& kind.identity matches Some(id) ==> (s.entity == Some(text) <==> reads(
                rec.payload,
                id,
                text,
            ))
            &&& kind.identity is None ==> s.entity is None
            &&& s.at == instant(rec.ts)
        }),
{
    if let Some(d) = q.group_by {
        lemma_label(rec.payload, d);
    }
    lemma_label(rec.payload, kind.group_key);
    if let Some(id) = kind.identity {
        lemma_label(rec.payload, id);
    }
}

/// Every record is looked at, in order: those of two lots are those of the first and then those of
/// the second, each for itself.
pub proof fn law_every_record_is_looked_at(
    kind: KindModel,
    q: QueryModel,
    a: Seq<Envelope>,
    b: Seq<Envelope>,
    one: Envelope,
)
    ensures
        sightings(kind, q, a + b) == sightings(kind, q, a) + sightings(kind, q, b),
        sightings(kind, q, seq![one]) == seq![sighting(kind, q, one.model())],
{
    assert(sightings(kind, q, a + b) =~= sightings(kind, q, a) + sightings(kind, q, b));
    assert(sightings(kind, q, seq![one]) =~= seq![sighting(kind, q, one.model())]);
}

/// A record that counts is in scope; one in scope that names no entity always counts; and one that
/// names an entity counts exactly where no record in scope of its key and its entity is earlier, by
/// time and then by position.
pub proof fn law_the_earliest_record_counts(s: Seq<SightingModel>, i: int)
    requires
        0 <= i < s.len(),
    ensures
        counts(s, i) ==> s[i].matched,
        s[i].matched && s[i].entity is None ==> counts(s, i),
        s[i].matched && s[i].entity is Some ==> (counts(s, i) <==> forall|j: int|
            0 <= j < s.len() && (#[trigger] s[j]).matched && s[j].key == s[i].key && s[j].entity
                == s[i].entity ==> not_later(s[i].at, s[j].at) && (not_later(s[j].at, s[i].at)
                ==> i <= j)),
{
    if s[i].matched && s[i].entity is Some {
        if counts(s, i) {
            assert forall|j: int|
                0 <= j < s.len() && (#[trigger] s[j]).matched && s[j].key == s[i].key && s[j].entity
                    == s[i].entity implies not_later(s[i].at, s[j].at) && (not_later(
                s[j].at,
                s[i].at,
            ) ==> i <= j) by {
                assert(!displaces(s, j, i));
            }
        } else {
            let j = choose|j: int| #[trigger] displaces(s, j, i);
            assert(displaces(s, j, i));
            assert(s[j].matched);
        }
    }
}

/// Indices in ascending order, none twice.
pub open spec fn in_order(s: Seq<usize>) -> bool {
    forall|i: int, j: int| 0 <= i < j < s.len() ==> #[trigger] s[i] < #[trigger] s[j]
}

proof fn lemma_rows(s: Seq<SightingModel>, key: Option<Seq<char>>, n: int)
    requires
        0 <= n <= s.len() <= usize::MAX,
    ensures
        in_order(rows_under(s, key, n)),
        forall|i: usize| #[trigger]
            rows_under(s, key, n).contains(i) <==> i < n && counts(s, i as int) && s[i as int].key
                == key,
    decreases n,
{
    if n > 0 {
        lemma_rows(s, key, n - 1);
        let rest = rows_under(s, key, n - 1);
        let all = rows_under(s, key, n);
        assert forall|j: int| 0 <= j < rest.len() implies (#[trigger] rest[j]) < n - 1 by {
            assert(rest.contains(rest[j]));
        }
        assert forall|i: usize| #[trigger] all.contains(i) <==> i < n && counts(s, i as int)
            && s[i as int].key == key by {
            assert(rest.contains(i) <==> i < n - 1 && counts(s, i as int) && s[i as int].key
                == key);
            if all.contains(i) && !rest.contains(i) {
                let j = all.index_of(i);
                if j < rest.len() {
                    assert(rest[j] == i);
                }
            }
            if rest.contains(i) {
                assert(all[rest.index_of(i)] == i);
            }
            if i == n - 1 && counts(s, i as int) && s[i as int].key == key {
                assert(all[all.len() - 1] == i);
            }
        }
    }
}

proof fn lemma_named(s: Seq<SightingModel>, n: int)
    requires
        0 <= n <= s.len(),
    ensures
        forall|i: int|
            0 <= i < n && #[trigger] counts(s, i) && s[i].key is Some ==> named_keys(
                s,
                n,
            ).contains(s[i].key->0),
        forall|k: Seq<char>| #[trigger]
            named_keys(s, n).contains(k) ==> exists|i: int|
                0 <= i < n && #[trigger] counts(s, i) && s[i].key == Some(k),
    decreases n,
{
    if n > 0 {
        lemma_named(s, n - 1);
        let rest = named_keys(s, n - 1);
        let all = named_keys(s, n);
        assert forall|i: int|
            0 <= i < n && #[trigger] counts(s, i) && s[i].key is Some implies all.contains(
            s[i].key->0,
        ) by {
            if i < n - 1 {
                assert(all[rest.index_of(s[i].key->0)] == s[i].key->0);
            } else {
                assert(all[all.len() - 1] == s[i].key->0);
            }
        }
        assert forall|k: Seq<char>| #[trigger] all.contains(k) implies exists|i: int|
            0 <= i < n && #[trigger] counts(s, i) && s[i].key == Some(k) by {
            let j = all.index_of(k);
            if j < rest.len() {
                assert(rest[j] == k);
                assert(rest.contains(k));
                let i = choose|i: int|
                    0 <= i < n - 1 && #[trigger] counts(s, i) && s[i].key == Some(k);
                assert(0 <= i < n && counts(s, i));
            } else {
                assert(counts(s, n - 1));
            }
        }
    }
}

/// Grouping partitions the records that count: a group holds exactly those of its key, in their
/// order and each once; every record that counts is in the group of its key; no group is empty; and
/// the group without a key comes first, the others in the order of their keys.
pub proof fn law_grouping_partitions_the_records(s: Seq<SightingModel>)
    requires
        s.len() <= usize::MAX,
    ensures
        forall|g: int| 0 <= g < grouped(s).len() ==> in_order((#[trigger] grouped(s)[g]).rows),
        forall|g: int, i: usize|
            0 <= g < grouped(s).len() ==> (#[trigger] grouped(s)[g].rows.contains(i) <==> i < s.len()
                && counts(s, i as int) && s[i as int].key == grouped(s)[g].key),
        forall|i: int| #[trigger]
            counts(s, i) ==> exists|g: int|
                0 <= g < grouped(s).len() && (#[trigger] grouped(s)[g]).key == s[i].key,
        forall|g: int| 0 <= g < grouped(s).len() ==> (#[trigger] grouped(s)[g]).rows.len() > 0,
        forall|g: int, h: int|
            0 <= g < h < grouped(s).len() ==> key_before(
                (#[trigger] grouped(s)[g]).key,
                (#[trigger] grouped(s)[h]).key,
            ),
{
    let n = s.len() as int;
    let groups = grouped(s);
    let keys = group_keys(s);
    let found = named_keys(s, n);
    let names = sorted_set(found);
    lemma_named(s, n);
    lemma_sorted_set(found);
    let off: int = if crate::report::some_unnamed(s, n) {
        1
    } else {
        0
    };
    assert(keys.len() == names.len() + off);
    assert forall|g: int| off <= g < keys.len() implies #[trigger] keys[g] == Some(
        names[g - off],
    ) by {}
    assert forall|g: int| 0 <= g < groups.len() implies in_order((#[trigger] groups[g]).rows)
        && groups[g].rows.len() > 0 by {
        lemma_rows(s, keys[g], n);
        if g < off {
            let i = choose|i: int| 0 <= i < n && #[trigger] counts(s, i) && s[i].key is None;
            assert(groups[g].rows.contains(i as usize));
        } else {
            let k = names[g - off];
            assert(names.contains(k));
            assert(found.contains(k));
            let i = choose|i: int| 0 <= i < n && #[trigger] counts(s, i) && s[i].key == Some(k);
            assert(groups[g].rows.contains(i as usize));
        }
    }
    assert forall|g: int, i: usize| 0 <= g < groups.len() implies (#[trigger] groups[g].rows.contains(
        i,
    ) <==> i < s.len() && counts(s, i as int) && s[i as int].key == groups[g].key) by {
        lemma_rows(s, keys[g], n);
    }
    assert forall|i: int| #[trigger] counts(s, i) implies exists|g: int|
        0 <= g < groups.len() && (#[trigger] groups[g]).key == s[i].key by {
        match s[i].key {
            None => {
                assert(crate::report::some_unnamed(s, n));
                assert(groups[0].key is None);
            },
            Some(k) => {
                assert(found.contains(k));
                assert(names.contains(k));
                let g = names.index_of(k) + off;
                assert(keys[g] == Some(k));
                assert(groups[g].key == s[i].key);
            },
        }
    }
    assert forall|g: int, h: int| 0 <= g < h < groups.len() implies key_before(
        (#[trigger] groups[g]).key,
        (#[trigger] groups[h]).key,
    ) by {
        assert(keys[h] == Some(names[h - off]));
        if g >= off {
            assert(before(names[g - off], names[h - off]));
        }
    }
}

/// Every row of the cost snapshot counts, under its own project, and no two stand for one another.
pub proof fn law_every_row_counts_for_its_project(rows: Seq<CostModel>, i: int)
    requires
        0 <= i < rows.len(),
    ensures
        row_sightings(rows).len() == rows.len(),
        counts(row_sightings(rows), i),
        row_sightings(rows)[i].key == Some(rows[i].project),
{
    let s = row_sightings(rows);
    assert(s[i].entity is None && s[i].matched);
    assert forall|j: int| !(#[trigger] displaces(s, j, i)) by {}
}

/// The snapshot rows of a report of all Kinds are those of its window and its project, in their
/// order and each as often as it stands there; a report of one Kind has none.
pub proof fn law_snapshot_rows_add_up(q: QueryModel, a: Seq<CostModel>, b: Seq<CostModel>)
    ensures
        report_rows(q, a + b) == report_rows(q, a) + report_rows(q, b),
{
    Seq::<CostModel>::filter_distributes_over_add(
        a,
        b,
        |r: CostModel| crate::report::row_in_scope(q, r),
    );
    assert(Seq::<CostModel>::empty() + Seq::<CostModel>::empty() =~= Seq::<CostModel>::empty());
}

/// One snapshot row is in a report exactly where the report is of all Kinds and the row's time is
/// within the window and its project the one asked for.
pub proof fn law_one_snapshot_row(q: QueryModel, row: CostModel)
    ensures
        ({
            let fits = {
                &&& q.kind is None
                &&& instant(row.ts) matches Some(at) && at.0 >= q.since
                &&& q.project matches Some(p) ==> row.project == p
            };
            report_rows(q, seq![row]) == if fits {
                seq![row]
            } else {
                Seq::empty()
            }
        }),
{
    reveal_with_fuel(Seq::filter, 2);
    let one = seq![row];
    assert(one.drop_last() =~= Seq::<CostModel>::empty());
    assert(one.last() == row);
    assert(Seq::<CostModel>::empty().push(row) =~= one);
}

/// A stored Kind is said to be unreadable exactly where no declared Kind has its name; the names
/// come as they are stored.
pub proof fn law_unreadable_kinds_are_those_not_declared(
    reg: RegistryModel,
    a: Seq<Seq<char>>,
    b: Seq<Seq<char>>,
    name: Seq<char>,
)
    ensures
        undeclared(reg, a + b) == undeclared(reg, a) + undeclared(reg, b),
        undeclared(reg, seq![name]) == if exists|i: int|
            0 <= i < reg.kinds.len() && (#[trigger] reg.kinds[i]).name == name {
            Seq::empty()
        } else {
            seq![name]
        },
{
    let p = |k: Seq<char>| !crate::registry::kind_names(reg.kinds).contains(k);
    Seq::<Seq<char>>::filter_distributes_over_add(a, b, p);
    reveal_with_fuel(Seq::filter, 2);
    let one = seq![name];
    assert(one.drop_last() =~= Seq::<Seq<char>>::empty());
    assert(one.last() == name);
    assert(Seq::<Seq<char>>::empty().push(name) =~= one);
    let names = crate::registry::kind_names(reg.kinds);
    if names.contains(name) {
        let i = names.index_of(name);
        assert(reg.kinds[i].name == name);
    }
    if exists|i: int| 0 <= i < reg.kinds.len() && (#[trigger] reg.kinds[i]).name == name {
        let i = choose|i: int| 0 <= i < reg.kinds.len() && (#[trigger] reg.kinds[i]).name == name;
        assert(names[i] == name);
    }
}

/// How far back a store reaches is the time of one of its records, and no record whose time can be
/// read is earlier; it is unknown exactly where none can be read.
pub proof fn law_a_store_reaches_back_to_its_earliest_record(recs: Seq<EnvelopeModel>)
    ensures
        match oldest(recs) {
            Some(ts) => {
                &&& instant(ts) is Some
                &&& exists|i: int| 0 <= i < recs.len() && (#[trigger] recs[i]).ts == ts
                &&& forall|i: int|
                    0 <= i < recs.len() && instant((#[trigger] recs[i]).ts) is Some ==> not_later(
                        instant(ts),
                        instant(recs[i].ts),
                    )
            },
            None => forall|i: int|
                0 <= i < recs.len() ==> instant((#[trigger] recs[i]).ts) is None,
        },
    decreases recs.len(),
{
    if recs.len() > 0 {
        let init = recs.drop_last();
        law_a_store_reaches_back_to_its_earliest_record(init);
        let last = recs.len() - 1;
        assert(recs[last] == recs.last());
        assert forall|i: int| 0 <= i < last implies #[trigger] recs[i] == init[i] by {}
        if let Some(ts) = oldest(recs) {
            if ts == recs.last().ts {
                assert(recs[last].ts == ts);
            } else {
                let i = choose|i: int| 0 <= i < init.len() && (#[trigger] init[i]).ts == ts;
                assert(recs[i].ts == ts);
            }
        }
    }
}

/// A window of so many days is that many days of seconds, up to the longest; nothing else is one.
pub proof fn law_a_window_is_so_many_days(n: int)
    ensures
        window_of(int_text(n) + "d"@) == if 0 < n <= MAX_WINDOW_DAYS {
            Some((n * 86_400) as i64)
        } else {
            None
        },
{
    reveal_strlit("d");
    let text = int_text(n) + "d"@;
    law_print_then_read_signed(n);
    assert("d"@.is_suffix_of(text)) by {
        assert(text.subrange(text.len() - 1, text.len() as int) =~= "d"@);
    }
    assert(text.take(text.len() - 1) =~= int_text(n));
}

} // verus!
