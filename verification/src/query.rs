//! Queries read from a command line or a tool call, and the machine-readable answers.
//!
//! Every restriction must name something the Kind declares: one that does not could only ever
//! match nothing, and is refused rather than answered with a convincing empty result.
use vstd::prelude::*;
use crate::cost::{cost_models, row_members, CostModel, CostRow};
use crate::decimal::{int_text, nat_text};
use crate::emit::{unknown_kind, unknown_kind_message};
use crate::error::{debug_str, show_str};
use crate::json::{
    items, member_list, member_map, members, pretty, pretty_text, set_member, Json, Tree,
};
use crate::pii::{plain_text, redacted, redaction, sanitized, stored_value};
use crate::registry::{find_kind, kind_models, KindModel, KindSpec, Registry, RegistryModel};
use crate::render::{filled, push_filled};
use crate::report::{
    filter_models, filters_match, gap_names, pair_views, Filter, GroupAgg, GroupModel, KindSection,
    Measure, MeasureModel, ProjectScope, Report, ReportModel, SectionModel, UnreadableKinds,
};
use crate::text::{
    cat2, cat3, cat5, halves, join, joined, list_contains, opt_str_view, opt_view, split_once,
    views,
};

verus! {

broadcast use vstd::map::group_map_axioms;

// ---------------------------------------------------------------------------------------------
// Filters
// ---------------------------------------------------------------------------------------------

/// A flag that asks about a Kind where none is given or known.
pub open spec fn flag_fault(
    kinds: Seq<KindModel>,
    kind: Option<Seq<char>>,
    flag: Seq<char>,
) -> Option<Seq<char>> {
    match kind {
        None => Some(flag + " requires --kind"@),
        Some(k) => if find_kind(kinds, k) is None {
            Some("unknown kind "@ + debug_str(k))
        } else {
            None
        },
    }
}

/// The field and the stored form of the value of one filter. A redacted field is asked for by its
/// original value, which is hashed as it was when it was stored.
pub open spec fn filter_of(f: Seq<char>, kind: Seq<char>, spec: KindModel) -> Result<
    (Seq<char>, Seq<char>),
    Seq<char>,
> {
    match halves(f, '=') {
        None => Err("filter "@ + debug_str(f) + " must be field=value"@),
        Some((field, value)) => if field.len() == 0 {
            Err("filter "@ + debug_str(f) + " has an empty field"@)
        } else if !spec.fields.contains(field) {
            Err(
                kind + " has no field "@ + debug_str(field)
                    + " to filter on — accepted fields: "@ + joined(spec.fields, ", "@),
            )
        } else {
            Ok(
                (
                    field,
                    if spec.redact.contains(field) {
                        redaction(value)
                    } else {
                        value
                    },
                ),
            )
        },
    }
}

/// A list of filters; the first that is refused fails the whole.
pub open spec fn filters_of(raw: Seq<Seq<char>>, kind: Seq<char>, spec: KindModel) -> Result<
    Seq<(Seq<char>, Seq<char>)>,
    Seq<char>,
>
    decreases raw.len(),
{
    if raw.len() == 0 {
        Ok(Seq::empty())
    } else {
        match filters_of(raw.drop_last(), kind, spec) {
            Err(e) => Err(e),
            Ok(done) => match filter_of(raw.last(), kind, spec) {
                Err(e) => Err(e),
                Ok(p) => Ok(done.push(p)),
            },
        }
    }
}

proof fn lemma_filters_fail_early(raw: Seq<Seq<char>>, kind: Seq<char>, spec: KindModel, n: int)
    requires
        0 <= n <= raw.len(),
        filters_of(raw.take(n), kind, spec) is Err,
    ensures
        filters_of(raw, kind, spec) == filters_of(raw.take(n), kind, spec),
    decreases raw.len() - n,
{
    if n < raw.len() {
        assert(raw.take(n + 1).drop_last() =~= raw.take(n));
        lemma_filters_fail_early(raw, kind, spec, n + 1);
    } else {
        assert(raw.take(n) =~= raw);
    }
}

/// The filters of a query.
pub open spec fn query_filters(
    raw: Seq<Seq<char>>,
    kind: Option<Seq<char>>,
    reg: RegistryModel,
) -> Result<Seq<(Seq<char>, Seq<char>)>, Seq<char>> {
    if raw.len() == 0 {
        Ok(Seq::empty())
    } else {
        match flag_fault(reg.kinds, kind, "--filter"@) {
            Some(e) => Err(e),
            None => filters_of(raw, kind->0, find_kind(reg.kinds, kind->0)->0),
        }
    }
}

pub open spec fn filters_agree(
    r: Result<Vec<(String, String)>, String>,
    want: Result<Seq<(Seq<char>, Seq<char>)>, Seq<char>>,
) -> bool {
    match (r, want) {
        (Ok(v), Ok(w)) => pair_views(v@) == w,
        (Err(a), Err(b)) => a@ == b,
        _ => false,
    }
}

fn kind_of<'a>(reg: &'a Registry, kind: Option<&str>, flag: &str) -> (r: Result<&'a KindSpec, String>)
    ensures
        match (r, flag_fault(reg.model().kinds, opt_str_view(kind), flag@)) {
            (Ok(spec), None) => find_kind(reg.model().kinds, opt_str_view(kind)->0) == Some(
                spec.model(),
            ),
            (Err(a), Some(b)) => a@ == b,
            _ => false,
        },
{
    match kind {
        None => Err(cat2(flag, " requires --kind")),
        Some(k) => match reg.kind(k) {
            Some(spec) => Ok(spec),
            None => Err(cat2("unknown kind ", &show_str(k))),
        },
    }
}

fn read_filter(f: &str, kind: &str, spec: &KindSpec) -> (r: Result<(String, String), String>)
    ensures
        match (r, filter_of(f@, kind@, spec.model())) {
            (Ok(p), Ok(w)) => (p.0@, p.1@) == w,
            (Err(a), Err(b)) => a@ == b,
            _ => false,
        },
{
    let (field, value) = match split_once(f, '=') {
        Some(p) => p,
        None => {
            return Err(cat3("filter ", &show_str(f), " must be field=value"));
        },
    };
    if field.as_str().is_empty() {
        return Err(cat3("filter ", &show_str(f), " has an empty field"));
    }
    if !list_contains(&spec.fields, &field) {
        return Err(
            cat5(
                kind,
                " has no field ",
                &show_str(&field),
                " to filter on — accepted fields: ",
                &join(&spec.fields, ", "),
            ),
        );
    }
    if list_contains(&spec.redact, &field) {
        let stored = redacted(&value);
        Ok((field, stored))
    } else {
        Ok((field, value))
    }
}

/// Read the filters of a query. Every field must be one that the Kind accepts.
pub fn parse_filters(raw: &Vec<String>, kind: Option<&str>, reg: &Registry) -> (r: Result<
    Vec<(String, String)>,
    String,
>)
    ensures
        filters_agree(r, query_filters(views(raw@), opt_str_view(kind), reg.model())),
{
    let ghost all = views(raw@);
    let mut out: Vec<(String, String)> = Vec::new();
    assert(pair_views(out@) =~= Seq::<(Seq<char>, Seq<char>)>::empty());
    if raw.len() == 0 {
        return Ok(out);
    }
    let spec = match kind_of(reg, kind, "--filter") {
        Ok(s) => s,
        Err(e) => {
            return Err(e);
        },
    };
    let name: &str = match kind {
        Some(k) => k,
        None => &spec.name,
    };
    let mut i: usize = 0;
    assert(all.take(0) =~= Seq::<Seq<char>>::empty());
    while i < raw.len()
        invariant
            0 <= i <= raw.len(),
            all == views(raw@),
            all.len() > 0,
            opt_str_view(kind) == Some(name@),
            flag_fault(reg.model().kinds, opt_str_view(kind), "--filter"@) is None,
            find_kind(reg.model().kinds, name@) == Some(spec.model()),
            filters_of(all.take(i as int), name@, spec.model()) == Ok::<
                Seq<(Seq<char>, Seq<char>)>,
                Seq<char>,
            >(pair_views(out@)),
        decreases raw.len() - i,
    {
        proof {
            assert(all.take(i + 1).drop_last() =~= all.take(i as int));
            assert(all.take(i + 1).last() == raw@[i as int]@);
        }
        match read_filter(&raw[i], name, spec) {
            Ok(p) => {
                let ghost held = out@;
                out.push(p);
                assert(pair_views(out@) =~= pair_views(held).push((p.0@, p.1@)));
            },
            Err(e) => {
                proof {
                    lemma_filters_fail_early(all, name@, spec.model(), i + 1);
                }
                return Err(e);
            },
        }
        i = i + 1;
    }
    assert(all.take(raw.len() as int) =~= all);
    Ok(out)
}

// ---------------------------------------------------------------------------------------------
// Queries
// ---------------------------------------------------------------------------------------------

/// What is wrong with a grouping dimension.
pub open spec fn group_fault(
    kinds: Seq<KindModel>,
    kind: Option<Seq<char>>,
    group_by: Option<Seq<char>>,
) -> Option<Seq<char>> {
    match group_by {
        None => None,
        Some(field) => match flag_fault(kinds, kind, "--group-by"@) {
            Some(e) => Some(e),
            None => {
                let spec = find_kind(kinds, kind->0)->0;
                if spec.fields.contains(field) {
                    None
                } else {
                    Some(
                        spec.name + " has no field "@ + debug_str(field)
                            + " to group by — accepted fields: "@ + joined(spec.fields, ", "@),
                    )
                }
            },
        },
    }
}

/// What is wrong with a ranking measure.
pub open spec fn sort_fault(
    kinds: Seq<KindModel>,
    kind: Option<Seq<char>>,
    sort_by: Option<Seq<char>>,
) -> Option<Seq<char>> {
    match sort_by {
        None => None,
        Some(measure) => match flag_fault(kinds, kind, "--sort-by"@) {
            Some(e) => Some(e),
            None => {
                let spec = find_kind(kinds, kind->0)->0;
                if spec.measures.contains(measure) {
                    None
                } else if spec.measures.len() == 0 {
                    Some(
                        spec.name
                            + " declares no measures, so its groups rank by record count — --sort-by has nothing to name"@,
                    )
                } else {
                    Some(
                        spec.name + " has no measure "@ + debug_str(measure)
                            + " to rank by — declared measures: "@ + joined(spec.measures, ", "@),
                    )
                }
            },
        },
    }
}

/// The filters of a query, or the first thing that is wrong with it: its Kind, its dimension, its
/// measure or a filter.
pub open spec fn query_of(
    reg: RegistryModel,
    kind: Option<Seq<char>>,
    group_by: Option<Seq<char>>,
    sort_by: Option<Seq<char>>,
    filter: Seq<Seq<char>>,
) -> Result<Seq<(Seq<char>, Seq<char>)>, Seq<char>> {
    if kind matches Some(k) && find_kind(reg.kinds, k) is None {
        Err(unknown_kind(kind->0, reg.kinds))
    } else if let Some(e) = group_fault(reg.kinds, kind, group_by) {
        Err(e)
    } else if let Some(e) = sort_fault(reg.kinds, kind, sort_by) {
        Err(e)
    } else {
        query_filters(filter, kind, reg)
    }
}

/// Check every part of a query against the registry, and read its filters.
pub fn parse_query(
    reg: &Registry,
    kind: Option<&str>,
    group_by: Option<&str>,
    sort_by: Option<&str>,
    filter: &Vec<String>,
) -> (r: Result<Vec<(String, String)>, String>)
    ensures
        filters_agree(
            r,
            query_of(
                reg.model(),
                opt_str_view(kind),
                opt_str_view(group_by),
                opt_str_view(sort_by),
                views(filter@),
            ),
        ),
{
    if let Some(k) = kind {
        if reg.kind(k).is_none() {
            return Err(unknown_kind_message(k, reg));
        }
    }
    if let Some(field) = group_by {
        let spec = match kind_of(reg, kind, "--group-by") {
            Ok(s) => s,
            Err(e) => {
                return Err(e);
            },
        };
        if !list_contains(&spec.fields, field) {
            return Err(
                cat5(
                    &spec.name,
                    " has no field ",
                    &show_str(field),
                    " to group by — accepted fields: ",
                    &join(&spec.fields, ", "),
                ),
            );
        }
    }
    if let Some(measure) = sort_by {
        let spec = match kind_of(reg, kind, "--sort-by") {
            Ok(s) => s,
            Err(e) => {
                return Err(e);
            },
        };
        if !list_contains(&spec.measures, measure) {
            if spec.measures.len() == 0 {
                return Err(
                    cat2(
                        &spec.name,
                        " declares no measures, so its groups rank by record count — --sort-by has nothing to name",
                    ),
                );
            }
            return Err(
                cat5(
                    &spec.name,
                    " has no measure ",
                    &show_str(measure),
                    " to rank by — declared measures: ",
                    &join(&spec.measures, ", "),
                ),
            );
        }
    }
    parse_filters(filter, kind, reg)
}

/// A query that is accepted names only what its Kind declares: the dimension and every filter are
/// among its fields, and the measure among its measures.
pub proof fn law_an_accepted_query_names_declared_fields(
    reg: RegistryModel,
    kind: Option<Seq<char>>,
    group_by: Option<Seq<char>>,
    sort_by: Option<Seq<char>>,
    filter: Seq<Seq<char>>,
)
    requires
        query_of(reg, kind, group_by, sort_by, filter) is Ok,
    ensures
        group_by matches Some(field) ==> (kind matches Some(k) && find_kind(reg.kinds, k) matches Some(
            spec,
        ) && spec.fields.contains(field)),
        sort_by matches Some(measure) ==> (kind matches Some(k) && find_kind(reg.kinds, k) matches Some(
            spec,
        ) && spec.measures.contains(measure)),
        forall|i: int|
            0 <= i < query_of(reg, kind, group_by, sort_by, filter)->Ok_0.len() ==> (
            kind matches Some(k) && find_kind(reg.kinds, k) matches Some(spec)
                && spec.fields.contains(
                (#[trigger] query_of(reg, kind, group_by, sort_by, filter)->Ok_0[i]).0,
            )),
{
    if filter.len() > 0 {
        lemma_filters_declared(filter, kind->0, find_kind(reg.kinds, kind->0)->0);
    }
}

proof fn lemma_filters_declared(raw: Seq<Seq<char>>, kind: Seq<char>, spec: KindModel)
    requires
        filters_of(raw, kind, spec) is Ok,
    ensures
        forall|i: int|
            0 <= i < filters_of(raw, kind, spec)->Ok_0.len() ==> spec.fields.contains(
                (#[trigger] filters_of(raw, kind, spec)->Ok_0[i]).0,
            ),
    decreases raw.len(),
{
    if raw.len() > 0 {
        lemma_filters_declared(raw.drop_last(), kind, spec);
    }
}

// ---------------------------------------------------------------------------------------------
// Kinds
// ---------------------------------------------------------------------------------------------

pub open spec fn text_trees(v: Seq<Seq<char>>) -> Seq<Tree> {
    Seq::new(v.len(), |i: int| Tree::Str(v[i]))
}

/// A Kind as a machine reads it.
pub open spec fn kind_tree(k: KindModel) -> Tree {
    Tree::Obj(
        map![
            "name"@ => Tree::Str(k.name),
            "fields"@ => Tree::Arr(text_trees(k.fields)),
            "group_key"@ => Tree::Str(k.group_key),
            "redact"@ => Tree::Arr(text_trees(k.redact)),
            "measures"@ => Tree::Arr(text_trees(k.measures)),
            "receiver_sourced"@ => Tree::Bool(k.receiver_sourced),
        ],
    )
}

fn text_values(v: &Vec<String>) -> (r: Vec<Json>)
    ensures
        items(r@) == text_trees(views(v@)),
{
    let mut out: Vec<Json> = Vec::new();
    let mut i: usize = 0;
    while i < v.len()
        invariant
            0 <= i <= v.len(),
            out.len() == i,
            forall|k: int| 0 <= k < i ==> (#[trigger] out@[k]).view() == Tree::Str(v@[k]@),
        decreases v.len() - i,
    {
        out.push(Json::text(&v[i]));
        i = i + 1;
    }
    assert(items(out@) =~= text_trees(views(v@)));
    out
}

fn kind_value(k: &KindSpec) -> (r: Json)
    ensures
        r.view() == kind_tree(k.model()),
{
    let mut m: Vec<(String, Json)> = Vec::new();
    set_member(&mut m, "name", Json::text(&k.name));
    set_member(&mut m, "fields", Json::Array(text_values(&k.fields)));
    set_member(&mut m, "group_key", Json::text(&k.group_key));
    set_member(&mut m, "redact", Json::Array(text_values(&k.redact)));
    set_member(&mut m, "measures", Json::Array(text_values(&k.measures)));
    set_member(&mut m, "receiver_sourced", Json::Bool(k.receiver_sourced));
    assert(members(m@) =~= kind_tree(k.model())->Obj_0);
    Json::Object(m)
}

/// The registered Kinds as a value.
pub fn kinds_value(reg: &Registry) -> (r: Json)
    ensures
        r.view() == Tree::Arr(
            Seq::new(reg.model().kinds.len(), |i: int| kind_tree(reg.model().kinds[i])),
        ),
{
    let kinds = reg.kinds();
    let ghost all = reg.model().kinds;
    let mut out: Vec<Json> = Vec::new();
    let mut i: usize = 0;
    while i < kinds.len()
        invariant
            0 <= i <= kinds.len(),
            all == kind_models(kinds@),
            out.len() == i,
            forall|k: int| 0 <= k < i ==> (#[trigger] out@[k]).view() == kind_tree(all[k]),
        decreases kinds.len() - i,
    {
        out.push(kind_value(&kinds[i]));
        i = i + 1;
    }
    assert(items(out@) =~= Seq::new(all.len(), |i: int| kind_tree(all[i])));
    Json::Array(out)
}

/// The line of a Kind.
pub open spec fn kind_line(k: KindModel) -> Seq<char> {
    filled(k.name, 14) + " group_key="@ + filled(k.group_key, 12) + " fields=["@ + joined(
        k.fields,
        ", "@,
    ) + "]\n"@
}

pub open spec fn kind_lines(kinds: Seq<KindModel>) -> Seq<char>
    decreases kinds.len(),
{
    if kinds.len() == 0 {
        Seq::empty()
    } else {
        kind_lines(kinds.drop_last()) + kind_line(kinds.last())
    }
}

fn push_kind(out: &mut String, k: &KindSpec)
    ensures
        final(out)@ == old(out)@ + kind_line(k.model()),
{
    let ghost start = out@;
    push_filled(out, &k.name, 14);
    out.append(" group_key=");
    push_filled(out, &k.group_key, 12);
    out.append(" fields=[");
    out.append(&join(&k.fields, ", "));
    out.append("]\n");
    assert(out@ =~= start + kind_line(k.model()));
}

/// List the registered Kinds, one on each line.
pub fn kinds_text(reg: &Registry) -> (r: String)
    ensures
        r@ == kind_lines(reg.model().kinds),
{
    let kinds = reg.kinds();
    let ghost all = reg.model().kinds;
    let mut out = String::new();
    let mut i: usize = 0;
    assert(all.take(0) =~= Seq::<KindModel>::empty());
    assert(out@ =~= kind_lines(all.take(0)));
    while i < kinds.len()
        invariant
            0 <= i <= kinds.len(),
            all == kind_models(kinds@),
            out@ == kind_lines(all.take(i as int)),
        decreases kinds.len() - i,
    {
        proof {
            assert(all.take(i + 1).drop_last() =~= all.take(i as int));
            assert(all.take(i + 1).last() == kinds@[i as int].model());
        }
        push_kind(&mut out, &kinds[i]);
        i = i + 1;
    }
    assert(all.take(kinds.len() as int) =~= all);
    out
}

// ---------------------------------------------------------------------------------------------
// The report
// ---------------------------------------------------------------------------------------------

pub open spec fn opt_text_tree(o: Option<Seq<char>>) -> Tree {
    match o {
        Some(s) => Tree::Str(s),
        None => Tree::Null,
    }
}

/// A summed measure as a machine reads it; a sum that no JSON number stands for is null.
pub open spec fn measure_tree(m: MeasureModel) -> Tree {
    Tree::Obj(
        map![
            "name"@ => Tree::Str(m.name),
            "sum"@ => match m.value {
                Some(n) => Tree::Num(n),
                None => Tree::Null,
            },
        ],
    )
}

pub open spec fn measure_trees(v: Seq<MeasureModel>) -> Seq<Tree> {
    Seq::new(v.len(), |i: int| measure_tree(v[i]))
}

/// A group as a machine reads it. One without a key is null, which no key is.
pub open spec fn group_tree(g: GroupModel) -> Tree {
    Tree::Obj(
        map![
            "key"@ => opt_text_tree(g.key),
            "count"@ => Tree::Num(int_text(g.count as int)),
            "sums"@ => Tree::Arr(measure_trees(g.sums)),
        ],
    )
}

pub open spec fn group_trees(v: Seq<GroupModel>) -> Seq<Tree> {
    Seq::new(v.len(), |i: int| group_tree(v[i]))
}

pub open spec fn scope_name(s: ProjectScope) -> Seq<char> {
    match s {
        ProjectScope::Unrestricted => "unrestricted"@,
        ProjectScope::Applied => "applied"@,
        ProjectScope::Unsupported => "unsupported"@,
    }
}

/// A Kind's answer as a machine reads it.
pub open spec fn section_tree(s: SectionModel) -> Tree {
    Tree::Obj(
        map![
            "kind"@ => Tree::Str(s.kind),
            "group_by"@ => Tree::Str(s.group_by),
            "sort_by"@ => opt_text_tree(s.sort_by),
            "project_scope"@ => Tree::Str(scope_name(s.scope)),
            "retained_since"@ => opt_text_tree(s.retained),
            "groups"@ => Tree::Arr(group_trees(s.groups)),
        ],
    )
}

pub open spec fn section_trees(v: Seq<SectionModel>) -> Seq<Tree> {
    Seq::new(v.len(), |i: int| section_tree(v[i]))
}

pub open spec fn filter_tree(f: (Seq<char>, Seq<char>)) -> Tree {
    Tree::Obj(map!["field"@ => Tree::Str(f.0), "value"@ => Tree::Str(f.1)])
}

pub open spec fn filter_trees(v: Seq<(Seq<char>, Seq<char>)>) -> Seq<Tree> {
    Seq::new(v.len(), |i: int| filter_tree(v[i]))
}

pub open spec fn row_trees(v: Seq<CostModel>) -> Seq<Tree> {
    Seq::new(v.len(), |i: int| Tree::Obj(member_map(row_members(v[i]))))
}

/// A report as a machine reads it.
pub open spec fn report_tree(r: ReportModel) -> Tree {
    Tree::Obj(
        map![
            "window"@ => Tree::Str(r.window),
            "project"@ => opt_text_tree(r.project),
            "filters"@ => Tree::Arr(filter_trees(r.filters)),
            "top_n"@ => Tree::Num(nat_text(r.top_n)),
            "kinds"@ => Tree::Arr(section_trees(r.kinds)),
            "cost"@ => Tree::Arr(row_trees(r.cost)),
            "unreadable_kinds"@ => match r.unreadable {
                Some(names) => Tree::Obj(map!["names"@ => Tree::Arr(text_trees(names))]),
                None => Tree::Null,
            },
        ],
    )
}

fn opt_text_value(o: &Option<String>) -> (r: Json)
    ensures
        r.view() == opt_text_tree(opt_view(*o)),
{
    match o {
        Some(s) => Json::text(s),
        None => Json::Null,
    }
}

fn measure_value(m: &Measure) -> (r: Json)
    ensures
        r.view() == measure_tree(m.model()),
{
    let mut out: Vec<(String, Json)> = Vec::new();
    set_member(&mut out, "name", Json::text(&m.name));
    let sum = match &m.sum.value {
        Some(n) => Json::Number(n.clone()),
        None => Json::Null,
    };
    set_member(&mut out, "sum", sum);
    assert(members(out@) =~= measure_tree(m.model())->Obj_0);
    Json::Object(out)
}

fn group_value(g: &GroupAgg) -> (r: Json)
    ensures
        r.view() == group_tree(g.model()),
{
    let mut sums: Vec<Json> = Vec::new();
    let mut i: usize = 0;
    while i < g.sums.len()
        invariant
            0 <= i <= g.sums.len(),
            sums.len() == i,
            forall|k: int| 0 <= k < i ==> (#[trigger] sums@[k]).view() == measure_tree(
                g.sums@[k].model(),
            ),
        decreases g.sums.len() - i,
    {
        sums.push(measure_value(&g.sums[i]));
        i = i + 1;
    }
    assert(items(sums@) =~= measure_trees(g.model().sums));
    let mut out: Vec<(String, Json)> = Vec::new();
    set_member(&mut out, "key", opt_text_value(&g.key));
    set_member(&mut out, "count", Json::integer(g.count));
    set_member(&mut out, "sums", Json::Array(sums));
    assert(members(out@) =~= group_tree(g.model())->Obj_0);
    Json::Object(out)
}

fn section_value(s: &KindSection) -> (r: Json)
    ensures
        r.view() == section_tree(s.model()),
{
    let mut groups: Vec<Json> = Vec::new();
    let mut i: usize = 0;
    while i < s.groups.len()
        invariant
            0 <= i <= s.groups.len(),
            groups.len() == i,
            forall|k: int| 0 <= k < i ==> (#[trigger] groups@[k]).view() == group_tree(
                s.groups@[k].model(),
            ),
        decreases s.groups.len() - i,
    {
        groups.push(group_value(&s.groups[i]));
        i = i + 1;
    }
    assert(items(groups@) =~= group_trees(s.model().groups));
    let scope: &str = match s.project_scope {
        ProjectScope::Unrestricted => "unrestricted",
        ProjectScope::Applied => "applied",
        ProjectScope::Unsupported => "unsupported",
    };
    let mut out: Vec<(String, Json)> = Vec::new();
    set_member(&mut out, "kind", Json::text(&s.kind));
    set_member(&mut out, "group_by", Json::text(&s.group_by));
    set_member(&mut out, "sort_by", opt_text_value(&s.sort_by));
    set_member(&mut out, "project_scope", Json::text(scope));
    set_member(&mut out, "retained_since", opt_text_value(&s.retained_since));
    set_member(&mut out, "groups", Json::Array(groups));
    assert(members(out@) =~= section_tree(s.model())->Obj_0);
    Json::Object(out)
}

fn filter_values(v: &Vec<Filter>) -> (r: Vec<Json>)
    ensures
        items(r@) == filter_trees(filter_models(v@)),
{
    let mut out: Vec<Json> = Vec::new();
    let mut i: usize = 0;
    while i < v.len()
        invariant
            0 <= i <= v.len(),
            out.len() == i,
            forall|k: int| 0 <= k < i ==> (#[trigger] out@[k]).view() == filter_tree(
                (v@[k].field@, v@[k].value@),
            ),
        decreases v.len() - i,
    {
        let mut m: Vec<(String, Json)> = Vec::new();
        set_member(&mut m, "field", Json::text(&v[i].field));
        set_member(&mut m, "value", Json::text(&v[i].value));
        assert(members(m@) =~= filter_tree((v@[i as int].field@, v@[i as int].value@))->Obj_0);
        out.push(Json::Object(m));
        i = i + 1;
    }
    assert(items(out@) =~= filter_trees(filter_models(v@)));
    out
}

proof fn lemma_members_of_list(m: Seq<(String, Json)>)
    ensures
        members(m) == member_map(member_list(m)),
    decreases m.len(),
{
    if m.len() > 0 {
        lemma_members_of_list(m.drop_last());
        assert(member_list(m).drop_last() =~= member_list(m.drop_last()));
    }
}

fn row_values(v: &Vec<CostRow>) -> (r: Vec<Json>)
    ensures
        items(r@) == row_trees(cost_models(v@)),
{
    let mut out: Vec<Json> = Vec::new();
    let mut i: usize = 0;
    while i < v.len()
        invariant
            0 <= i <= v.len(),
            out.len() == i,
            forall|k: int| 0 <= k < i ==> (#[trigger] out@[k]).view() == Tree::Obj(
                member_map(row_members(v@[k].model())),
            ),
        decreases v.len() - i,
    {
        let m = v[i].to_members();
        proof {
            lemma_members_of_list(m@);
        }
        out.push(Json::Object(m));
        i = i + 1;
    }
    assert(items(out@) =~= row_trees(cost_models(v@)));
    out
}

fn unreadable_value(o: &Option<UnreadableKinds>) -> (r: Json)
    ensures
        r.view() == (match gap_names(*o) {
            Some(names) => Tree::Obj(map!["names"@ => Tree::Arr(text_trees(names))]),
            None => Tree::Null,
        }),
{
    match o {
        Some(u) => {
            let mut m: Vec<(String, Json)> = Vec::new();
            set_member(&mut m, "names", Json::Array(text_values(&u.names)));
            assert(members(m@) =~= map!["names"@ => Tree::Arr(text_trees(views(u.names@)))]);
            Json::Object(m)
        },
        None => Json::Null,
    }
}

/// A report as a value.
pub fn report_value(report: &Report) -> (r: Json)
    ensures
        r.view() == report_tree(report.model()),
{
    let mut kinds: Vec<Json> = Vec::new();
    let mut i: usize = 0;
    while i < report.kinds.len()
        invariant
            0 <= i <= report.kinds.len(),
            kinds.len() == i,
            forall|k: int| 0 <= k < i ==> (#[trigger] kinds@[k]).view() == section_tree(
                report.kinds@[k].model(),
            ),
        decreases report.kinds.len() - i,
    {
        kinds.push(section_value(&report.kinds[i]));
        i = i + 1;
    }
    assert(items(kinds@) =~= section_trees(report.model().kinds));
    let mut out: Vec<(String, Json)> = Vec::new();
    set_member(&mut out, "window", Json::text(&report.window));
    set_member(&mut out, "project", opt_text_value(&report.project));
    set_member(&mut out, "filters", Json::Array(filter_values(&report.filters)));
    set_member(&mut out, "top_n", Json::natural(report.top_n as u64));
    set_member(&mut out, "kinds", Json::Array(kinds));
    set_member(&mut out, "cost", Json::Array(row_values(&report.cost)));
    set_member(&mut out, "unreadable_kinds", unreadable_value(&report.unreadable_kinds));
    assert(members(out@) =~= report_tree(report.model())->Obj_0);
    Json::Object(out)
}

/// A report as an indented JSON text.
pub fn report_json(report: &Report) -> (r: String)
    ensures
        r@ == pretty_text(report_tree(report.model())) + "\n"@,
{
    cat2(&pretty(&report_value(report)), "\n")
}

/// A field is found by the value that was recorded for it, redacted or not: the filter that names
/// the value is accepted, and what is stored of the payload meets it.
pub proof fn law_a_field_is_found_by_its_recorded_value(
    f: Seq<char>,
    field: Seq<char>,
    value: Seq<char>,
    name: Seq<char>,
    kind: KindModel,
    payload: Map<Seq<char>, Tree>,
)
    requires
        halves(f, '=') == Some((field, value)),
        field.len() > 0,
        kind.fields.contains(field),
        payload.contains_key(field),
        plain_text(payload[field]) == value,
    ensures
        filter_of(f, name, kind) is Ok,
        filters_match(seq![filter_of(f, name, kind)->Ok_0], sanitized(kind, payload)),
{
    let kept = sanitized(kind, payload);
    assert(kept.contains_key(field));
    assert(kept[field] == stored_value(kind, field, payload[field]));
}

} // verus!
