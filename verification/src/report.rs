//! Windowed aggregation over stored records, and the report that every output format renders.
//!
//! A Kind declares its data; a query asks a question of that data: over what window, restricted
//! how, grouped by which dimension, ranked by which measure. What a group's measures sum to is
//! taken where the numbers are added; here a sum is the integer it ranks by and the text it is
//! shown as.
use vstd::prelude::*;
use crate::claude_settings::slot;
use crate::clock::{epoch_of, instant, is_not_later, not_later, parse_instant, ts_epoch};
use crate::cost::{cost_models, CostModel, CostRow};
use crate::decimal::{int_value, parse_i64};
use crate::json::{find_member, members, number_text, Json, Tree};
use crate::model::{Envelope, EnvelopeModel};
use crate::order::{before, less, lemma_irreflexive, lemma_transitive};
use crate::pii::{plain_text, value_text};
use crate::registry::{kind_models, kind_names, KindModel, KindSpec, Registry, RegistryModel};
use crate::seqs::{lemma_filter_none, lemma_filter_take};
use crate::sorted::{ascending, insert, sorted_set};
use crate::text::{
    cat2, join, joined, list_contains, opt_str_view, opt_view, owned, owned_opt, same, strip_suffix,
    views, without_suffix,
};

verus! {

broadcast use vstd::map::group_map_axioms;

/// How many groups a report shows per Kind.
pub const TOP_N: usize = 5;

/// The longest window, in days; a longer one is refused rather than wrapped.
pub const MAX_WINDOW_DAYS: i64 = 100_000;

/// The seconds of a window text.
pub open spec fn window_of(spec: Seq<char>) -> Option<i64> {
    match without_suffix(spec, "d"@) {
        Some(days) => match int_value(days) {
            Some(n) => if 0 < n <= MAX_WINDOW_DAYS {
                Some((n * 86_400) as i64)
            } else {
                None
            },
            None => None,
        },
        None => None,
    }
}

/// Read a `<n>d` window as seconds.
pub fn parse_window(spec: &str) -> (r: Option<i64>)
    ensures
        r == window_of(spec@),
        r matches Some(s) ==> 86_400 <= s <= MAX_WINDOW_DAYS * 86_400,
{
    let days = match strip_suffix(spec, "d") {
        Some(d) => d,
        None => {
            return None;
        },
    };
    let n: i64 = match parse_i64(&days) {
        Some(n) => n,
        None => {
            return None;
        },
    };
    if n <= 0 || n > MAX_WINDOW_DAYS {
        return None;
    }
    Some(n * 86_400)
}

// ---------------------------------------------------------------------------------------------
// Queries
// ---------------------------------------------------------------------------------------------

/// One `field=value` restriction.
#[derive(Debug)]
pub struct Filter {
    pub field: String,
    pub value: String,
}

/// One report query: the window's start and every restriction.
#[derive(Debug, Clone, Copy)]
pub struct Query<'a> {
    /// The first second of the window.
    pub since: i64,
    /// Groups shown per Kind; zero is all.
    pub top_n: usize,
    /// Restrict to one project, by its label.
    pub project: Option<&'a str>,
    /// Restrict to one Kind.
    pub kind: Option<&'a str>,
    /// The dimension to group by in place of the Kind's own.
    pub group_by: Option<&'a str>,
    /// The measure to rank by in place of the Kind's first.
    pub sort_by: Option<&'a str>,
    /// Field and value of each exact-match restriction.
    pub filters: &'a [(String, String)],
}

/// What a query asks.
#[verifier::ext_equal]
pub struct QueryModel {
    pub since: i64,
    pub top_n: nat,
    pub project: Option<Seq<char>>,
    pub kind: Option<Seq<char>>,
    pub group_by: Option<Seq<char>>,
    pub sort_by: Option<Seq<char>>,
    pub filters: Seq<(Seq<char>, Seq<char>)>,
}

/// The texts of a list of pairs.
pub open spec fn pair_views(v: Seq<(String, String)>) -> Seq<(Seq<char>, Seq<char>)> {
    Seq::new(v.len(), |i: int| (v[i].0@, v[i].1@))
}

impl<'a> Query<'a> {
    pub open spec fn model(self) -> QueryModel {
        QueryModel {
            since: self.since,
            top_n: self.top_n as nat,
            project: opt_str_view(self.project),
            kind: opt_str_view(self.kind),
            group_by: opt_str_view(self.group_by),
            sort_by: opt_str_view(self.sort_by),
            filters: pair_views(self.filters@),
        }
    }
}

/// A member as a report shows it.
pub open spec fn label_of(payload: Map<Seq<char>, Tree>, field: Seq<char>) -> Option<Seq<char>> {
    match slot(payload, field) {
        Some(t) => Some(plain_text(t)),
        None => None,
    }
}

/// Every restriction holds of a payload; a payload without the field meets none.
pub open spec fn filters_match(
    filters: Seq<(Seq<char>, Seq<char>)>,
    payload: Map<Seq<char>, Tree>,
) -> bool {
    forall|i: int|
        0 <= i < filters.len() ==> label_of(payload, (#[trigger] filters[i]).0) == Some(
            filters[i].1,
        )
}

/// A record that a query is about: its time is known and not before the window, its project is the
/// one asked for, and it meets every restriction.
pub open spec fn in_scope(q: QueryModel, rec: EnvelopeModel) -> bool {
    &&& epoch_of(rec.ts) matches Some(t) && t >= q.since
    &&& q.project matches Some(p) ==> slot(rec.payload, "project"@) == Some(Tree::Str(p))
    &&& filters_match(q.filters, rec.payload)
}

/// The dimension a query groups a Kind by.
pub open spec fn dimension(kind: KindModel, q: QueryModel) -> Seq<char> {
    match q.group_by {
        Some(d) => d,
        None => kind.group_key,
    }
}

/// The measure that ranks a Kind's groups under a query; `None` is the record count.
pub open spec fn ranking(kind: KindModel, q: QueryModel) -> Option<Seq<char>> {
    match q.sort_by {
        Some(m) => Some(m),
        None => if kind.measures.len() > 0 {
            Some(kind.measures[0])
        } else {
            None
        },
    }
}

fn member_label(payload: &Vec<(String, Json)>, field: &str) -> (r: Option<String>)
    ensures
        opt_view(r) == label_of(members(payload@), field@),
{
    let at = find_member(payload, field);
    if at < payload.len() {
        Some(value_text(&payload[at].1))
    } else {
        None
    }
}

fn meets(filters: &[(String, String)], payload: &Vec<(String, Json)>) -> (r: bool)
    ensures
        r == filters_match(pair_views(filters@), members(payload@)),
{
    let ghost all = pair_views(filters@);
    let mut i: usize = 0;
    while i < filters.len()
        invariant
            0 <= i <= filters.len(),
            all == pair_views(filters@),
            forall|k: int|
                0 <= k < i ==> label_of(members(payload@), (#[trigger] all[k]).0) == Some(all[k].1),
        decreases filters.len() - i,
    {
        let held = match member_label(payload, &filters[i].0) {
            Some(v) => same(&v, &filters[i].1),
            None => false,
        };
        assert(all[i as int] == (filters@[i as int].0@, filters@[i as int].1@));
        if !held {
            return false;
        }
        i = i + 1;
    }
    true
}

// ---------------------------------------------------------------------------------------------
// Grouping
// ---------------------------------------------------------------------------------------------

/// What grouping reads of one record.
#[derive(Debug)]
pub struct Sighting {
    /// The record is in scope.
    pub matched: bool,
    /// Its value of the dimension; `None` where it does not carry one.
    pub key: Option<String>,
    /// The entity it is about; `None` where it names none.
    pub entity: Option<String>,
    /// When it was recorded.
    pub at: Option<(i64, i32)>,
}

#[verifier::ext_equal]
pub struct SightingModel {
    pub matched: bool,
    pub key: Option<Seq<char>>,
    pub entity: Option<Seq<char>>,
    pub at: Option<(i64, i32)>,
}

impl Sighting {
    pub open spec fn model(self) -> SightingModel {
        SightingModel {
            matched: self.matched,
            key: opt_view(self.key),
            entity: opt_view(self.entity),
            at: self.at,
        }
    }
}

pub open spec fn sighting_models(v: Seq<Sighting>) -> Seq<SightingModel> {
    Seq::new(v.len(), |i: int| v[i].model())
}

/// What grouping a Kind under a query reads of a record.
pub open spec fn sighting(kind: KindModel, q: QueryModel, rec: EnvelopeModel) -> SightingModel {
    SightingModel {
        matched: in_scope(q, rec),
        key: label_of(rec.payload, dimension(kind, q)),
        entity: match kind.identity {
            Some(id) => label_of(rec.payload, id),
            None => None,
        },
        at: instant(rec.ts),
    }
}

/// Record `j` stands for the entity of record `i`: both are of one group and one entity, and `j`
/// is the earlier, by time and then by position.
pub open spec fn displaces(s: Seq<SightingModel>, j: int, i: int) -> bool {
    &&& 0 <= j < s.len()
    &&& j != i
    &&& s[j].matched
    &&& s[j].key == s[i].key
    &&& s[i].entity is Some
    &&& s[j].entity == s[i].entity
    &&& not_later(s[j].at, s[i].at)
    &&& (s[j].at == s[i].at ==> j < i)
}

/// Record `i` counts: it is in scope, and no earlier record of its group stands for its entity. A
/// record that names no entity always counts.
pub open spec fn counts(s: Seq<SightingModel>, i: int) -> bool {
    0 <= i < s.len() && s[i].matched && forall|j: int| !(#[trigger] displaces(s, j, i))
}

/// The keys of the first `n` records that count, where they carry one.
pub open spec fn named_keys(s: Seq<SightingModel>, n: int) -> Seq<Seq<char>>
    decreases n,
{
    if n <= 0 {
        Seq::empty()
    } else {
        let rest = named_keys(s, n - 1);
        if counts(s, n - 1) && s[n - 1].key is Some {
            rest.push(s[n - 1].key->0)
        } else {
            rest
        }
    }
}

/// Some record among the first `n` that count carries no key.
pub open spec fn some_unnamed(s: Seq<SightingModel>, n: int) -> bool {
    exists|i: int| 0 <= i < n && #[trigger] counts(s, i) && s[i].key is None
}

/// The records among the first `n` that count under a key, in their order.
pub open spec fn rows_under(s: Seq<SightingModel>, key: Option<Seq<char>>, n: int) -> Seq<usize>
    decreases n,
{
    if n <= 0 {
        Seq::empty()
    } else {
        let rest = rows_under(s, key, n - 1);
        if counts(s, n - 1) && s[n - 1].key == key {
            rest.push((n - 1) as usize)
        } else {
            rest
        }
    }
}

/// The keys of the groups: the records without a key first, then the keys in order.
pub open spec fn group_keys(s: Seq<SightingModel>) -> Seq<Option<Seq<char>>> {
    let names = sorted_set(named_keys(s, s.len() as int));
    let named = Seq::new(names.len(), |i: int| Some(names[i]));
    if some_unnamed(s, s.len() as int) {
        seq![None::<Seq<char>>] + named
    } else {
        named
    }
}

/// One group of records: its key, and the positions of the records that count in it.
#[derive(Debug)]
pub struct GroupRows {
    pub key: Option<String>,
    pub rows: Vec<usize>,
}

#[verifier::ext_equal]
pub struct RowsModel {
    pub key: Option<Seq<char>>,
    pub rows: Seq<usize>,
}

impl GroupRows {
    pub open spec fn model(self) -> RowsModel {
        RowsModel { key: opt_view(self.key), rows: self.rows@ }
    }
}

pub open spec fn rows_models(v: Seq<GroupRows>) -> Seq<RowsModel> {
    Seq::new(v.len(), |i: int| v[i].model())
}

/// The groups of a list of records.
pub open spec fn grouped(s: Seq<SightingModel>) -> Seq<RowsModel> {
    let keys = group_keys(s);
    Seq::new(
        keys.len(),
        |i: int| RowsModel { key: keys[i], rows: rows_under(s, keys[i], s.len() as int) },
    )
}

fn same_opt(a: &Option<String>, b: &Option<String>) -> (r: bool)
    ensures
        r == (opt_view(*a) == opt_view(*b)),
{
    match a {
        Some(x) => match b {
            Some(y) => same(x, y),
            None => false,
        },
        None => b.is_none(),
    }
}

/// Whether record `i` counts.
fn is_counted(s: &Vec<Sighting>, i: usize) -> (r: bool)
    requires
        i < s.len(),
    ensures
        r == counts(sighting_models(s@), i as int),
{
    let ghost all = sighting_models(s@);
    if !s[i].matched {
        return false;
    }
    if s[i].entity.is_none() {
        assert forall|j: int| !(#[trigger] displaces(all, j, i as int)) by {
            assert(all[i as int].entity is None);
        }
        return true;
    }
    let mut j: usize = 0;
    while j < s.len()
        invariant
            0 <= j <= s.len(),
            i < s.len(),
            all == sighting_models(s@),
            all[i as int].entity is Some,
            forall|k: int| 0 <= k < j ==> !(#[trigger] displaces(all, k, i as int)),
        decreases s.len() - j,
    {
        if j != i && s[j].matched && same_opt(&s[j].key, &s[i].key) && same_opt(
            &s[j].entity,
            &s[i].entity,
        ) && is_not_later(s[j].at, s[i].at) && (j < i || !is_not_later(s[i].at, s[j].at)) {
            proof {
                if all[j as int].at == all[i as int].at {
                    assert(not_later(all[i as int].at, all[j as int].at));
                }
                assert(displaces(all, j as int, i as int));
            }
            return false;
        }
        proof {
            if displaces(all, j as int, i as int) {
                if j > i {
                    assert(not_later(all[i as int].at, all[j as int].at));
                    assert(all[i as int].at == all[j as int].at);
                }
            }
        }
        j = j + 1;
    }
    assert forall|k: int| !(#[trigger] displaces(all, k, i as int)) by {
        if 0 <= k < all.len() {
            assert(k < j);
        }
    }
    true
}

fn rows_with(s: &Vec<Sighting>, flags: &Vec<bool>, key: &Option<String>) -> (r: Vec<usize>)
    requires
        flags.len() == s.len(),
        forall|i: int|
            0 <= i < s.len() ==> #[trigger] flags@[i] == counts(sighting_models(s@), i),
    ensures
        r@ == rows_under(sighting_models(s@), opt_view(*key), s.len() as int),
{
    let ghost all = sighting_models(s@);
    let mut out: Vec<usize> = Vec::new();
    let mut i: usize = 0;
    while i < s.len()
        invariant
            0 <= i <= s.len(),
            flags.len() == s.len(),
            all == sighting_models(s@),
            forall|k: int| 0 <= k < s.len() ==> #[trigger] flags@[k] == counts(all, k),
            out@ == rows_under(all, opt_view(*key), i as int),
        decreases s.len() - i,
    {
        assert(flags@[i as int] == counts(all, i as int));
        if flags[i] && same_opt(&s[i].key, key) {
            out.push(i);
        }
        i = i + 1;
    }
    out
}

/// Group records by key: each group's key and the positions of the records that count in it.
pub fn group_sightings(s: &Vec<Sighting>) -> (r: Vec<GroupRows>)
    ensures
        rows_models(r@) == grouped(sighting_models(s@)),
{
    let ghost all = sighting_models(s@);
    let mut flags: Vec<bool> = Vec::new();
    let mut names: Vec<String> = Vec::new();
    let mut unnamed = false;
    let mut i: usize = 0;
    assert(views(names@) =~= Seq::<Seq<char>>::empty());
    while i < s.len()
        invariant
            0 <= i <= s.len(),
            flags.len() == i,
            all == sighting_models(s@),
            forall|k: int| 0 <= k < i ==> #[trigger] flags@[k] == counts(all, k),
            ascending(views(names@)),
            views(names@) == sorted_set(named_keys(all, i as int)),
            unnamed == some_unnamed(all, i as int),
        decreases s.len() - i,
    {
        let flag = is_counted(s, i);
        let ghost was = named_keys(all, i as int);
        let ghost had = unnamed;
        flags.push(flag);
        if flag {
            match &s[i].key {
                Some(k) => {
                    insert(&mut names, k);
                    proof {
                        let now = named_keys(all, i + 1);
                        assert(now == was.push(k@));
                        assert(now.drop_last() =~= was);
                    }
                },
                None => {
                    unnamed = true;
                    assert(counts(all, i as int) && all[i as int].key is None);
                },
            }
        }
        proof {
            if had {
                let k = choose|k: int|
                    0 <= k < i && #[trigger] counts(all, k) && all[k].key is None;
                assert(0 <= k < i + 1 && counts(all, k) && all[k].key is None);
            }
            assert(unnamed == some_unnamed(all, i + 1));
        }
        i = i + 1;
    }
    let mut out: Vec<GroupRows> = Vec::new();
    let ghost keys = group_keys(all);
    let ghost shift: int = if unnamed {
        1
    } else {
        0
    };
    if unnamed {
        let rows = rows_with(s, &flags, &None);
        out.push(GroupRows { key: None, rows });
    }
    let mut n: usize = 0;
    assert(rows_models(out@) =~= grouped(all).take(shift));
    while n < names.len()
        invariant
            0 <= n <= names.len(),
            flags.len() == s.len(),
            all == sighting_models(s@),
            forall|k: int| 0 <= k < s.len() ==> #[trigger] flags@[k] == counts(all, k),
            views(names@) == sorted_set(named_keys(all, s.len() as int)),
            unnamed == some_unnamed(all, s.len() as int),
            shift == if unnamed {
                1int
            } else {
                0int
            },
            rows_models(out@) == grouped(all).take(shift + n),
            keys == group_keys(all),
            keys.len() == shift + names.len(),
        decreases names.len() - n,
    {
        let key = Some(owned(&names[n]));
        let rows = rows_with(s, &flags, &key);
        proof {
            assert(views(names@)[n as int] == names@[n as int]@);
            assert(keys[shift + n] == Some(names@[n as int]@));
        }
        let group = GroupRows { key, rows };
        let ghost held = out@;
        out.push(group);
        proof {
            assert(rows_models(out@) =~= rows_models(held).push(group.model()));
            assert(grouped(all).take(shift + n + 1) =~= grouped(all).take(shift + n).push(
                grouped(all)[shift + n],
            ));
        }
        n = n + 1;
    }
    assert(grouped(all).take(shift + names.len()) =~= grouped(all));
    out
}

/// What grouping a Kind under a query reads of each of a list of records.
pub open spec fn sightings(
    kind: KindModel,
    q: QueryModel,
    recs: Seq<Envelope>,
) -> Seq<SightingModel> {
    Seq::new(recs.len(), |i: int| sighting(kind, q, recs[i].model()))
}

/// Group a Kind's records under a query: those in scope, by the query's dimension or else the
/// Kind's own. Where the Kind counts entities, each entity counts once in a group, by its earliest
/// record. The groups come in the order of their keys.
pub fn aggregate(spec: &KindSpec, records: &Vec<Envelope>, q: &Query) -> (r: Vec<GroupRows>)
    ensures
        rows_models(r@) == grouped(sightings(spec.model(), q.model(), records@)),
{
    let dim: &str = match q.group_by {
        Some(d) => d,
        None => &spec.group_key,
    };
    let mut s: Vec<Sighting> = Vec::new();
    let mut i: usize = 0;
    while i < records.len()
        invariant
            0 <= i <= records.len(),
            s.len() == i,
            dim@ == dimension(spec.model(), q.model()),
            forall|k: int|
                0 <= k < i ==> (#[trigger] s@[k]).model() == sighting(
                    spec.model(),
                    q.model(),
                    records@[k].model(),
                ),
        decreases records.len() - i,
    {
        let rec = &records[i];
        let at = parse_instant(&rec.ts);
        let timely = match at {
            Some(t) => t.0 >= q.since,
            None => false,
        };
        let placed = match q.project {
            Some(p) => {
                let at = find_member(&rec.payload, "project");
                if at < rec.payload.len() {
                    match &rec.payload[at].1 {
                        Json::Str(s) => same(s, p),
                        _ => false,
                    }
                } else {
                    false
                }
            },
            None => true,
        };
        let matched = timely && placed && meets(q.filters, &rec.payload);
        let key = member_label(&rec.payload, dim);
        let entity = match &spec.identity {
            Some(id) => member_label(&rec.payload, id),
            None => None,
        };
        s.push(Sighting { matched, key, entity, at });
        i = i + 1;
    }
    assert(sighting_models(s@) =~= sightings(spec.model(), q.model(), records@));
    group_sightings(&s)
}

// ---------------------------------------------------------------------------------------------
// Ranking
// ---------------------------------------------------------------------------------------------

/// A summed measure: the integer by which it is ordered among the sums of the same measure, the
/// decimal text it is shown as, and the number a machine reads, where there is one.
#[derive(Debug)]
pub struct Amount {
    pub order: i64,
    pub plain: String,
    pub value: Option<serde_json::Number>,
}

/// One measure's sum for a group.
#[derive(Debug)]
pub struct Measure {
    pub name: String,
    pub sum: Amount,
}

#[verifier::ext_equal]
pub struct MeasureModel {
    pub name: Seq<char>,
    pub order: i64,
    pub plain: Seq<char>,
    pub value: Option<Seq<char>>,
}

/// How an optional number prints.
pub open spec fn opt_number(o: Option<serde_json::Number>) -> Option<Seq<char>> {
    match o {
        Some(n) => Some(number_text(n)),
        None => None,
    }
}

impl Measure {
    pub open spec fn model(self) -> MeasureModel {
        MeasureModel {
            name: self.name@,
            order: self.sum.order,
            plain: self.sum.plain@,
            value: opt_number(self.sum.value),
        }
    }
}

pub open spec fn measure_models(v: Seq<Measure>) -> Seq<MeasureModel> {
    Seq::new(v.len(), |i: int| v[i].model())
}

/// One group's aggregate: its key, how many records counted in it, the sum of each measure, and
/// how many cells of a magnitude bar it fills.
#[derive(Debug)]
pub struct GroupAgg {
    pub key: Option<String>,
    pub count: i64,
    pub sums: Vec<Measure>,
    pub share: usize,
}

#[verifier::ext_equal]
pub struct GroupModel {
    pub key: Option<Seq<char>>,
    pub count: i64,
    pub sums: Seq<MeasureModel>,
    pub share: nat,
}

impl GroupAgg {
    pub open spec fn model(self) -> GroupModel {
        GroupModel {
            key: opt_view(self.key),
            count: self.count,
            sums: measure_models(self.sums@),
            share: self.share as nat,
        }
    }

    /// An independent copy.
    pub fn duplicate(&self) -> (r: GroupAgg)
        ensures
            r.model() == self.model(),
    {
        let mut sums: Vec<Measure> = Vec::new();
        let mut i: usize = 0;
        while i < self.sums.len()
            invariant
                0 <= i <= self.sums.len(),
                sums.len() == i,
                forall|k: int| 0 <= k < i ==> (#[trigger] sums@[k]).model() == self.sums@[k].model(),
            decreases self.sums.len() - i,
        {
            let m = &self.sums[i];
            let value = match &m.sum.value {
                Some(n) => Some(n.clone()),
                None => None,
            };
            sums.push(
                Measure {
                    name: owned(&m.name),
                    sum: Amount { order: m.sum.order, plain: owned(&m.sum.plain), value },
                },
            );
            i = i + 1;
        }
        assert(measure_models(sums@) =~= measure_models(self.sums@));
        GroupAgg { key: owned_opt(&self.key), count: self.count, sums, share: self.share }
    }
}

pub open spec fn group_models(v: Seq<GroupAgg>) -> Seq<GroupModel> {
    Seq::new(v.len(), |i: int| v[i].model())
}

/// The order of the first sum of a measure; nothing is zero.
pub open spec fn order_of(sums: Seq<MeasureModel>, measure: Seq<char>) -> i64
    decreases sums.len(),
{
    if sums.len() == 0 {
        0
    } else if sums[0].name == measure {
        sums[0].order
    } else {
        order_of(sums.skip(1), measure)
    }
}

/// What a group ranks by: its sum of the measure, or else its record count.
pub open spec fn rank_of_group(g: GroupModel, measure: Option<Seq<char>>) -> i64 {
    match measure {
        Some(m) => order_of(g.sums, m),
        None => g.count,
    }
}

/// The value a group is ranked by: its sum of `measure`, or its record count where there is none.
pub fn rank_value(group: &GroupAgg, measure: Option<&str>) -> (r: i64)
    ensures
        r == rank_of_group(group.model(), opt_str_view(measure)),
{
    let name = match measure {
        Some(m) => m,
        None => {
            return group.count;
        },
    };
    let ghost all = measure_models(group.sums@);
    let mut i: usize = 0;
    assert(all.skip(0) =~= all);
    while i < group.sums.len()
        invariant
            0 <= i <= group.sums.len(),
            all == measure_models(group.sums@),
            opt_str_view(measure) == Some(name@),
            order_of(all, name@) == order_of(all.skip(i as int), name@),
        decreases group.sums.len() - i,
    {
        proof {
            assert(all.skip(i as int)[0] == group.sums@[i as int].model());
            assert(all.skip(i as int).skip(1) =~= all.skip(i + 1));
        }
        if same(&group.sums[i].name, name) {
            return group.sums[i].sum.order;
        }
        i = i + 1;
    }
    0
}

/// The order of keys: the missing one first.
pub open spec fn key_before(a: Option<Seq<char>>, b: Option<Seq<char>>) -> bool {
    match (a, b) {
        (None, Some(_)) => true,
        (Some(x), Some(y)) => before(x, y),
        _ => false,
    }
}

/// `a` ranks above `b`: it has the greater value, or the same value and the earlier key.
pub open spec fn precedes(a: GroupModel, b: GroupModel, measure: Option<Seq<char>>) -> bool {
    rank_of_group(a, measure) > rank_of_group(b, measure) || (rank_of_group(a, measure)
        == rank_of_group(b, measure) && key_before(a.key, b.key))
}

/// The first position of a ranked list whose group `x` ranks above.
pub open spec fn rank_position(
    s: Seq<GroupModel>,
    x: GroupModel,
    measure: Option<Seq<char>>,
) -> int
    decreases s.len(),
{
    if s.len() == 0 {
        0
    } else if precedes(x, s[0], measure) {
        0
    } else {
        1 + rank_position(s.skip(1), x, measure)
    }
}

/// Groups ranked: each stands behind those that rank above it or came before it as its equal.
pub open spec fn ranked(s: Seq<GroupModel>, measure: Option<Seq<char>>) -> Seq<GroupModel>
    decreases s.len(),
{
    if s.len() == 0 {
        s
    } else {
        let rest = ranked(s.drop_last(), measure);
        rest.insert(rank_position(rest, s.last(), measure), s.last())
    }
}

proof fn lemma_rank_position(s: Seq<GroupModel>, x: GroupModel, measure: Option<Seq<char>>, p: int)
    requires
        0 <= p <= s.len(),
        forall|k: int| 0 <= k < p ==> !precedes(x, #[trigger] s[k], measure),
        p < s.len() ==> precedes(x, s[p], measure),
    ensures
        rank_position(s, x, measure) == p,
    decreases s.len(),
{
    if s.len() > 0 && p > 0 {
        assert(!precedes(x, s[0], measure));
        assert forall|k: int| 0 <= k < p - 1 implies !precedes(
            x,
            #[trigger] s.skip(1)[k],
            measure,
        ) by {
            assert(s.skip(1)[k] == s[k + 1]);
        }
        if p < s.len() {
            assert(s.skip(1)[p - 1] == s[p]);
        }
        lemma_rank_position(s.skip(1), x, measure, p - 1);
    }
}

proof fn lemma_rank_position_found(s: Seq<GroupModel>, x: GroupModel, measure: Option<Seq<char>>)
    ensures
        0 <= rank_position(s, x, measure) <= s.len(),
        forall|k: int|
            0 <= k < rank_position(s, x, measure) ==> !precedes(x, #[trigger] s[k], measure),
        rank_position(s, x, measure) < s.len() ==> precedes(
            x,
            s[rank_position(s, x, measure)],
            measure,
        ),
    decreases s.len(),
{
    if s.len() > 0 && !precedes(x, s[0], measure) {
        let rest = s.skip(1);
        lemma_rank_position_found(rest, x, measure);
        assert forall|k: int| 0 <= k < rank_position(s, x, measure) implies !precedes(
            x,
            #[trigger] s[k],
            measure,
        ) by {
            if k > 0 {
                assert(rest[k - 1] == s[k]);
            }
        }
        if rank_position(s, x, measure) < s.len() {
            assert(rest[rank_position(rest, x, measure)] == s[rank_position(s, x, measure)]);
        }
    }
}

proof fn lemma_ranked_len(s: Seq<GroupModel>, measure: Option<Seq<char>>)
    ensures
        ranked(s, measure).len() == s.len(),
    decreases s.len(),
{
    if s.len() > 0 {
        lemma_ranked_len(s.drop_last(), measure);
        lemma_rank_position_found(ranked(s.drop_last(), measure), s.last(), measure);
    }
}

proof fn lemma_precedes_transitive(
    a: GroupModel,
    b: GroupModel,
    c: GroupModel,
    measure: Option<Seq<char>>,
)
    requires
        precedes(a, b, measure),
        precedes(b, c, measure),
    ensures
        precedes(a, c, measure),
{
    if let (Some(x), Some(y), Some(z)) = (a.key, b.key, c.key) {
        if before(x, y) && before(y, z) {
            lemma_transitive(x, y, z);
        }
    }
}

proof fn lemma_precedes_irreflexive(a: GroupModel, measure: Option<Seq<char>>)
    ensures
        !precedes(a, a, measure),
{
    if let Some(x) = a.key {
        lemma_irreflexive(x);
    }
}

/// Ranking loses no group and adds none, and no group stands behind one that it ranks above.
pub proof fn law_ranking_orders_all_groups(s: Seq<GroupModel>, measure: Option<Seq<char>>)
    ensures
        ranked(s, measure).to_multiset() == s.to_multiset(),
        forall|i: int, j: int|
            0 <= i < j < s.len() ==> !precedes(
                #[trigger] ranked(s, measure)[j],
                #[trigger] ranked(s, measure)[i],
                measure,
            ),
    decreases s.len(),
{
    lemma_ranked_len(s, measure);
    if s.len() > 0 {
        let x = s.last();
        let rest = ranked(s.drop_last(), measure);
        let p = rank_position(rest, x, measure);
        law_ranking_orders_all_groups(s.drop_last(), measure);
        lemma_ranked_len(s.drop_last(), measure);
        lemma_rank_position_found(rest, x, measure);
        let all = ranked(s, measure);
        assert(all == rest.insert(p, x));
        vstd::seq_lib::to_multiset_insert(rest, p, x);
        assert(s =~= s.drop_last().push(x));
        vstd::seq_lib::to_multiset_insert(s.drop_last(), s.drop_last().len() as int, x);
        assert(s.drop_last().insert(s.drop_last().len() as int, x) =~= s);
        assert forall|i: int, j: int| 0 <= i < j < s.len() implies !precedes(
            #[trigger] all[j],
            #[trigger] all[i],
            measure,
        ) by {
            if i < p && j < p {
                assert(!precedes(rest[j], rest[i], measure));
            } else if i < p && j == p {
                assert(!precedes(x, rest[i], measure));
            } else if i < p {
                assert(!precedes(rest[j - 1], rest[i], measure));
            } else if i == p {
                let y = rest[j - 1];
                if precedes(y, x, measure) {
                    lemma_precedes_transitive(y, x, rest[p], measure);
                    if j - 1 == p {
                        lemma_precedes_irreflexive(y, measure);
                    } else {
                        assert(!precedes(rest[j - 1], rest[p], measure));
                    }
                }
            } else {
                assert(!precedes(rest[j - 1], rest[i - 1], measure));
            }
        }
    } else {
        assert(ranked(s, measure) =~= s);
    }
}

fn key_less(a: &Option<String>, b: &Option<String>) -> (r: bool)
    ensures
        r == key_before(opt_view(*a), opt_view(*b)),
{
    match a {
        None => b.is_some(),
        Some(x) => match b {
            None => false,
            Some(y) => less(x, y),
        },
    }
}

/// Order groups by `measure` descending, then by key.
pub fn rank(groups: &mut Vec<GroupAgg>, measure: Option<&str>)
    ensures
        group_models(final(groups)@) == ranked(group_models(old(groups)@), opt_str_view(measure)),
{
    let ghost orig = group_models(groups@);
    let ghost m = opt_str_view(measure);
    let n: usize = groups.len();
    let mut i: usize = 0;
    assert(orig.take(0) =~= Seq::<GroupModel>::empty());
    assert(group_models(groups@) =~= ranked(orig.take(0), m) + orig.skip(0));
    while i < n
        invariant
            0 <= i <= n,
            n == orig.len(),
            m == opt_str_view(measure),
            groups.len() == n,
            ranked(orig.take(i as int), m).len() == i,
            group_models(groups@) == ranked(orig.take(i as int), m) + orig.skip(i as int),
        decreases n - i,
    {
        let ghost head = ranked(orig.take(i as int), m);
        let ghost before_list = groups@;
        let x = groups.remove(i);
        let ghost xm = x.model();
        let ghost short = groups@;
        proof {
            assert(group_models(before_list)[i as int] == orig[i as int]);
            assert(xm == orig[i as int]);
            assert(group_models(short) =~= head + orig.skip(i + 1)) by {
                assert forall|k: int| 0 <= k < short.len() implies group_models(short)[k] == (head
                    + orig.skip(i + 1))[k] by {
                    if k < i {
                        assert(group_models(before_list)[k] == head[k]);
                    } else {
                        assert(group_models(before_list)[k + 1] == orig.skip(i as int)[k + 1 - i]);
                    }
                }
            }
        }
        let value: i64 = rank_value(&x, measure);
        let mut p: usize = 0;
        let mut above = false;
        while p < i && !above
            invariant
                0 <= p <= i,
                i < n,
                groups@ == short,
                groups.len() == n - 1,
                xm == x.model(),
                m == opt_str_view(measure),
                value == rank_of_group(xm, m),
                head.len() == i,
                group_models(short) == head + orig.skip(i + 1),
                forall|k: int| 0 <= k < p ==> !precedes(xm, #[trigger] head[k], m),
                above ==> p < i && precedes(xm, head[p as int], m),
            decreases i - p, (if above {
                0int
            } else {
                1int
            }),
        {
            let other: i64 = rank_value(&groups[p], measure);
            assert(group_models(short)[p as int] == head[p as int]);
            if value > other || (value == other && key_less(&x.key, &groups[p].key)) {
                above = true;
            } else {
                p = p + 1;
            }
        }
        proof {
            lemma_rank_position(head, xm, m, p as int);
        }
        groups.insert(p, x);
        proof {
            let next = orig.take(i + 1);
            assert(next.drop_last() =~= orig.take(i as int));
            assert(next.last() == xm);
            assert(ranked(next, m) == head.insert(p as int, xm));
            let want = ranked(next, m) + orig.skip(i + 1);
            assert(group_models(groups@) =~= want) by {
                assert forall|k: int| 0 <= k < groups@.len() implies group_models(groups@)[k]
                    == want[k] by {
                    if k < p {
                        assert(group_models(short)[k] == head[k]);
                    } else if k == p {
                    } else if k <= i {
                        assert(group_models(short)[k - 1] == head[k - 1]);
                    } else {
                        assert(group_models(short)[k - 1] == orig.skip(i + 1)[k - 1 - i]);
                    }
                }
            }
        }
        i = i + 1;
    }
    assert(orig.take(n as int) =~= orig);
    assert(ranked(orig, m) + orig.skip(n as int) =~= ranked(orig, m));
}

/// The first `top_n` groups; all of them where it is zero.
pub open spec fn topped(s: Seq<GroupModel>, top_n: nat) -> Seq<GroupModel> {
    if top_n > 0 && top_n < s.len() {
        s.take(top_n as int)
    } else {
        s
    }
}

/// Keep the first `top_n` groups; all of them where it is zero.
pub fn truncate(groups: &mut Vec<GroupAgg>, top_n: usize)
    ensures
        group_models(final(groups)@) == topped(group_models(old(groups)@), top_n as nat),
{
    let ghost orig = groups@;
    if top_n > 0 && top_n < groups.len() {
        groups.truncate(top_n);
        assert(group_models(groups@) =~= group_models(orig).take(top_n as int));
    }
}

// ---------------------------------------------------------------------------------------------
// The report
// ---------------------------------------------------------------------------------------------

/// Where a Kind's records stand to a project scope. A Kind that does not record a project has
/// nothing a project scope could select, which is said rather than shown as an empty answer.
#[derive(Debug, Clone, Copy, PartialEq, Eq, Structural)]
pub enum ProjectScope {
    Unrestricted,
    Applied,
    Unsupported,
}

/// How a query's project scope applies to a Kind.
pub open spec fn scope_of(kind: KindModel, q: QueryModel) -> ProjectScope {
    match q.project {
        None => ProjectScope::Unrestricted,
        Some(_) => if kind.fields.contains("project"@) {
            ProjectScope::Applied
        } else {
            ProjectScope::Unsupported
        },
    }
}

/// One Kind's answer: the dimension it was grouped by, the measure that ranked it, how the project
/// scope applied, and how far back its store reaches.
#[derive(Debug)]
pub struct KindSection {
    pub kind: String,
    pub group_by: String,
    pub sort_by: Option<String>,
    pub project_scope: ProjectScope,
    pub retained_since: Option<String>,
    pub groups: Vec<GroupAgg>,
}

#[verifier::ext_equal]
pub struct SectionModel {
    pub kind: Seq<char>,
    pub group_by: Seq<char>,
    pub sort_by: Option<Seq<char>>,
    pub scope: ProjectScope,
    pub retained: Option<Seq<char>>,
    pub groups: Seq<GroupModel>,
}

impl KindSection {
    pub open spec fn model(self) -> SectionModel {
        SectionModel {
            kind: self.kind@,
            group_by: self.group_by@,
            sort_by: opt_view(self.sort_by),
            scope: self.project_scope,
            retained: opt_view(self.retained_since),
            groups: group_models(self.groups@),
        }
    }
}

pub open spec fn section_models(v: Seq<KindSection>) -> Seq<SectionModel> {
    Seq::new(v.len(), |i: int| v[i].model())
}

/// The Kinds that a query is about.
pub open spec fn asked_kinds(kinds: Seq<KindModel>, q: QueryModel) -> Seq<KindModel>
    decreases kinds.len(),
{
    if kinds.len() == 0 {
        Seq::empty()
    } else {
        let rest = asked_kinds(kinds.drop_last(), q);
        if q.kind is None || q.kind == Some(kinds.last().name) {
            rest.push(kinds.last())
        } else {
            rest
        }
    }
}

/// The section of a Kind under a query, before its store is read.
pub open spec fn planned_section(kind: KindModel, q: QueryModel) -> SectionModel {
    SectionModel {
        kind: kind.name,
        group_by: dimension(kind, q),
        sort_by: ranking(kind, q),
        scope: scope_of(kind, q),
        retained: None,
        groups: Seq::empty(),
    }
}

pub open spec fn planned(kinds: Seq<KindModel>, q: QueryModel) -> Seq<SectionModel> {
    let asked = asked_kinds(kinds, q);
    Seq::new(asked.len(), |i: int| planned_section(asked[i], q))
}

fn plan_section(spec: &KindSpec, q: &Query) -> (r: KindSection)
    ensures
        r.model() == planned_section(spec.model(), q.model()),
{
    let project_scope = match q.project {
        None => ProjectScope::Unrestricted,
        Some(_) => if list_contains(&spec.fields, "project") {
            ProjectScope::Applied
        } else {
            ProjectScope::Unsupported
        },
    };
    let group_by = match q.group_by {
        Some(d) => owned(d),
        None => owned(&spec.group_key),
    };
    let sort_by = match q.sort_by {
        Some(m) => Some(owned(m)),
        None => if spec.measures.len() > 0 {
            Some(owned(&spec.measures[0]))
        } else {
            None
        },
    };
    let groups: Vec<GroupAgg> = Vec::new();
    assert(group_models(groups@) =~= Seq::<GroupModel>::empty());
    KindSection { kind: owned(&spec.name), group_by, sort_by, project_scope, retained_since: None, groups }
}

/// The sections a query asks for, one for each Kind in the order of their names, before any store
/// is read.
pub fn plan(reg: &Registry, q: &Query) -> (r: Vec<KindSection>)
    ensures
        section_models(r@) == planned(reg.model().kinds, q.model()),
{
    let kinds = reg.kinds();
    let ghost all = kind_models(kinds@);
    let ghost qm = q.model();
    let mut out: Vec<KindSection> = Vec::new();
    let mut i: usize = 0;
    assert(all.take(0) =~= Seq::<KindModel>::empty());
    assert(section_models(out@) =~= planned(all.take(0), qm));
    while i < kinds.len()
        invariant
            0 <= i <= kinds.len(),
            all == kind_models(kinds@),
            qm == q.model(),
            section_models(out@) == planned(all.take(i as int), qm),
        decreases kinds.len() - i,
    {
        let ghost now = all.take(i + 1);
        proof {
            assert(now.drop_last() =~= all.take(i as int));
            assert(now.last() == kinds@[i as int].model());
        }
        let asked = match q.kind {
            None => true,
            Some(k) => same(&kinds[i].name, k),
        };
        if asked {
            let ghost held = out@;
            let section = plan_section(&kinds[i], q);
            out.push(section);
            proof {
                assert(section_models(out@) =~= section_models(held).push(section.model()));
                assert(planned(now, qm) =~= planned(all.take(i as int), qm).push(
                    planned_section(now.last(), qm),
                ));
            }
        } else {
            assert(planned(now, qm) =~= planned(all.take(i as int), qm));
        }
        i = i + 1;
    }
    assert(all.take(kinds.len() as int) =~= all);
    out
}

/// What was read of one section's store: its groups in any order, and the time of its oldest
/// record.
#[derive(Debug)]
pub struct Answer {
    pub retained_since: Option<String>,
    pub groups: Vec<GroupAgg>,
}

#[verifier::ext_equal]
pub struct AnswerModel {
    pub retained: Option<Seq<char>>,
    pub groups: Seq<GroupModel>,
}

impl Answer {
    pub open spec fn model(self) -> AnswerModel {
        AnswerModel { retained: opt_view(self.retained_since), groups: group_models(self.groups@) }
    }
}

pub open spec fn answer_models(v: Seq<Answer>) -> Seq<AnswerModel> {
    Seq::new(v.len(), |i: int| v[i].model())
}

/// A planned section with its answer: the groups ranked and cut to the number asked for. A section
/// that the project scope cannot select has no groups, whatever its store holds.
pub open spec fn answered(plan: SectionModel, answer: AnswerModel, top_n: nat) -> SectionModel {
    SectionModel {
        retained: answer.retained,
        groups: if plan.scope == ProjectScope::Unsupported {
            Seq::empty()
        } else {
            topped(ranked(answer.groups, plan.sort_by), top_n)
        },
        ..plan
    }
}

/// Sections with their answers, position by position; a section without one stays as planned.
pub open spec fn answered_all(
    plans: Seq<SectionModel>,
    answers: Seq<AnswerModel>,
    top_n: nat,
) -> Seq<SectionModel> {
    Seq::new(
        plans.len(),
        |i: int|
            {
                if i < answers.len() {
                    answered(plans[i], answers[i], top_n)
                } else {
                    plans[i]
                }
            },
    )
}

/// A snapshot row that a query is about.
pub open spec fn row_in_scope(q: QueryModel, row: CostModel) -> bool {
    &&& q.project matches Some(p) ==> row.project == p
    &&& epoch_of(row.ts) matches Some(t) && t >= q.since
}

/// The snapshot rows of a report. The snapshot is not a Kind, so a report of one Kind has none.
pub open spec fn report_rows(q: QueryModel, rows: Seq<CostModel>) -> Seq<CostModel> {
    if q.kind is Some {
        Seq::empty()
    } else {
        rows.filter(|r: CostModel| row_in_scope(q, r))
    }
}

/// The snapshot rows within a query's window and project.
pub fn cost_rows(rows: &Vec<CostRow>, q: &Query) -> (r: Vec<CostRow>)
    ensures
        cost_models(r@) == cost_models(rows@).filter(|r: CostModel| row_in_scope(q.model(), r)),
{
    let ghost all = cost_models(rows@);
    let ghost p = |r: CostModel| row_in_scope(q.model(), r);
    let mut out: Vec<CostRow> = Vec::new();
    let mut i: usize = 0;
    proof {
        lemma_filter_none(all.take(0), p);
        assert(cost_models(out@) =~= Seq::<CostModel>::empty());
    }
    while i < rows.len()
        invariant
            0 <= i <= rows.len(),
            all == cost_models(rows@),
            p == (|r: CostModel| row_in_scope(q.model(), r)),
            cost_models(out@) == all.take(i as int).filter(p),
        decreases rows.len() - i,
    {
        proof {
            lemma_filter_take(all, i as int, p);
        }
        let placed = match q.project {
            Some(p) => same(&rows[i].project, p),
            None => true,
        };
        let timely = match ts_epoch(&rows[i].ts) {
            Some(t) => t >= q.since,
            None => false,
        };
        if placed && timely {
            let ghost held = out@;
            let row = rows[i].duplicate();
            out.push(row);
            assert(cost_models(out@) =~= cost_models(held).push(row.model()));
        }
        i = i + 1;
    }
    assert(all.take(rows.len() as int) =~= all);
    out
}

/// The stored Kinds that a registry cannot read.
#[derive(Debug)]
pub struct UnreadableKinds {
    pub names: Vec<String>,
}

/// The stored Kinds that no declared one names.
pub open spec fn undeclared(reg: RegistryModel, stored: Seq<Seq<char>>) -> Seq<Seq<char>> {
    stored.filter(|k: Seq<char>| !kind_names(reg.kinds).contains(k))
}

/// Stored Kinds that no loaded schema declares, named so that an answer over part of a store does
/// not pass for one over the whole.
pub open spec fn gap_text(names: Seq<Seq<char>>) -> Seq<char> {
    "stored but unreadable — no loaded schema declares "@ + joined(names, ", "@)
}

pub open spec fn gap_names(o: Option<UnreadableKinds>) -> Option<Seq<Seq<char>>> {
    match o {
        Some(u) => Some(views(u.names@)),
        None => None,
    }
}

impl UnreadableKinds {
    /// The stored Kinds that the registry does not declare; `None` where it declares them all.
    pub fn detect(reg: &Registry, stored: &Vec<String>) -> (r: Option<UnreadableKinds>)
        ensures
            gap_names(r) == (if undeclared(reg.model(), views(stored@)).len() == 0 {
                None
            } else {
                Some(undeclared(reg.model(), views(stored@)))
            }),
    {
        let ghost all = views(stored@);
        let ghost p = |k: Seq<char>| !kind_names(reg.model().kinds).contains(k);
        let mut names: Vec<String> = Vec::new();
        let mut i: usize = 0;
        proof {
            lemma_filter_none(all.take(0), p);
            assert(views(names@) =~= Seq::<Seq<char>>::empty());
        }
        while i < stored.len()
            invariant
                0 <= i <= stored.len(),
                all == views(stored@),
                p == (|k: Seq<char>| !kind_names(reg.model().kinds).contains(k)),
                views(names@) == all.take(i as int).filter(p),
            decreases stored.len() - i,
        {
            proof {
                lemma_filter_take(all, i as int, p);
            }
            let kinds = reg.kinds();
            let mut known = false;
            let mut j: usize = 0;
            while j < kinds.len() && !known
                invariant
                    0 <= j <= kinds.len(),
                    i < stored.len(),
                    kind_models(kinds@) == reg.model().kinds,
                    known ==> kind_names(reg.model().kinds).contains(stored@[i as int]@),
                    !known ==> forall|k: int|
                        0 <= k < j ==> (#[trigger] kind_names(reg.model().kinds)[k])
                            != stored@[i as int]@,
                decreases kinds.len() - j, (if known {
                    0int
                } else {
                    1int
                }),
            {
                assert(kind_models(kinds@)[j as int] == kinds@[j as int].model());
                assert(kind_names(reg.model().kinds)[j as int] == kinds@[j as int].name@);
                if same(&kinds[j].name, &stored[i]) {
                    known = true;
                } else {
                    j = j + 1;
                }
            }
            if !known {
                let ghost held = names@;
                names.push(owned(&stored[i]));
                assert(views(names@) =~= views(held).push(stored@[i as int]@));
            }
            i = i + 1;
        }
        assert(all.take(stored.len() as int) =~= all);
        if names.len() == 0 {
            assert(views(names@).len() == 0);
            None
        } else {
            Some(UnreadableKinds { names })
        }
    }

    /// The gap in words.
    pub fn message(&self) -> (r: String)
        ensures
            r@ == gap_text(views(self.names@)),
    {
        cat2("stored but unreadable — no loaded schema declares ", &join(&self.names, ", "))
    }
}

/// A whole report: the query and the answer to it, computed once and rendered by every format.
#[derive(Debug)]
pub struct Report {
    pub window: String,
    pub project: Option<String>,
    pub filters: Vec<Filter>,
    pub top_n: usize,
    pub kinds: Vec<KindSection>,
    /// The cost snapshot, one row for each session in the window.
    pub cost: Vec<CostRow>,
    /// Kinds that the store holds and the registry cannot read.
    pub unreadable_kinds: Option<UnreadableKinds>,
}

#[verifier::ext_equal]
pub struct ReportModel {
    pub window: Seq<char>,
    pub project: Option<Seq<char>>,
    pub filters: Seq<(Seq<char>, Seq<char>)>,
    pub top_n: nat,
    pub kinds: Seq<SectionModel>,
    pub cost: Seq<CostModel>,
    pub unreadable: Option<Seq<Seq<char>>>,
}

pub open spec fn filter_models(v: Seq<Filter>) -> Seq<(Seq<char>, Seq<char>)> {
    Seq::new(v.len(), |i: int| (v[i].field@, v[i].value@))
}

/// The report that a query gives over what was read of the stores.
pub open spec fn report_over(
    reg: RegistryModel,
    window: Seq<char>,
    q: QueryModel,
    answers: Seq<AnswerModel>,
    rows: Seq<CostModel>,
    stored: Seq<Seq<char>>,
) -> ReportModel {
    ReportModel {
        window,
        project: q.project,
        filters: q.filters,
        top_n: q.top_n,
        kinds: answered_all(planned(reg.kinds, q), answers, q.top_n),
        cost: report_rows(q, rows),
        unreadable: if undeclared(reg, stored).len() == 0 {
            None
        } else {
            Some(undeclared(reg, stored))
        },
    }
}

impl Report {
    pub open spec fn model(self) -> ReportModel {
        ReportModel {
            window: self.window@,
            project: opt_view(self.project),
            filters: filter_models(self.filters@),
            top_n: self.top_n as nat,
            kinds: section_models(self.kinds@),
            cost: cost_models(self.cost@),
            unreadable: gap_names(self.unreadable_kinds),
        }
    }

    /// Build the report of a query from what was read of the stores: the answer of each section of
    /// its plan, the rows of the cost snapshot, and the names of the stored Kinds.
    pub fn build(
        reg: &Registry,
        window: &str,
        q: &Query,
        answers: &Vec<Answer>,
        snapshot: &Vec<CostRow>,
        stored: &Vec<String>,
    ) -> (r: Report)
        ensures
            r.model() == report_over(
                reg.model(),
                window@,
                q.model(),
                answer_models(answers@),
                cost_models(snapshot@),
                views(stored@),
            ),
    {
        let mut kinds = plan(reg, q);
        let ghost plans = section_models(kinds@);
        let ghost told = answer_models(answers@);
        let ghost want = answered_all(plans, told, q.model().top_n);
        let mut i: usize = 0;
        while i < kinds.len()
            invariant
                0 <= i <= kinds.len(),
                kinds.len() == plans.len(),
                told == answer_models(answers@),
                want == answered_all(plans, told, q.model().top_n),
                forall|k: int| 0 <= k < i ==> (#[trigger] kinds@[k]).model() == want[k],
                forall|k: int| i <= k < kinds.len() ==> (#[trigger] kinds@[k]).model() == plans[k],
            decreases kinds.len() - i,
        {
            if i < answers.len() {
                assert(kinds@[i as int].model() == plans[i as int]);
                assert(told[i as int] == answers@[i as int].model());
                let ghost before = kinds@;
                let section = kinds.remove(i);
                let done = answer(section, &answers[i], q.top_n);
                kinds.insert(i, done);
                assert forall|k: int| 0 <= k < kinds@.len() && k != i implies #[trigger] kinds@[k]
                    == before[k] by {}
            }
            i = i + 1;
        }
        assert(section_models(kinds@) =~= want);
        let mut filters: Vec<Filter> = Vec::new();
        let mut j: usize = 0;
        while j < q.filters.len()
            invariant
                0 <= j <= q.filters.len(),
                filters.len() == j,
                forall|k: int|
                    0 <= k < j ==> (#[trigger] filters@[k]).field@ == q.filters@[k].0@
                        && filters@[k].value@ == q.filters@[k].1@,
            decreases q.filters.len() - j,
        {
            filters.push(Filter { field: owned(&q.filters[j].0), value: owned(&q.filters[j].1) });
            j = j + 1;
        }
        assert(filter_models(filters@) =~= q.model().filters);
        let cost = match q.kind {
            Some(_) => {
                let none: Vec<CostRow> = Vec::new();
                assert(cost_models(none@) =~= Seq::<CostModel>::empty());
                none
            },
            None => cost_rows(snapshot, q),
        };
        let project = match q.project {
            Some(p) => Some(owned(p)),
            None => None,
        };
        Report {
            window: owned(window),
            project,
            filters,
            top_n: q.top_n,
            kinds,
            cost,
            unreadable_kinds: UnreadableKinds::detect(reg, stored),
        }
    }
}

fn answer(section: KindSection, found: &Answer, top_n: usize) -> (r: KindSection)
    ensures
        r.model() == answered(section.model(), found.model(), top_n as nat),
{
    let mut groups: Vec<GroupAgg> = Vec::new();
    let unsupported = match section.project_scope {
        ProjectScope::Unsupported => true,
        _ => false,
    };
    assert(group_models(groups@) =~= Seq::<GroupModel>::empty());
    if !unsupported {
        let mut i: usize = 0;
        while i < found.groups.len()
            invariant
                0 <= i <= found.groups.len(),
                groups.len() == i,
                forall|k: int|
                    0 <= k < i ==> (#[trigger] groups@[k]).model() == found.groups@[k].model(),
            decreases found.groups.len() - i,
        {
            groups.push(found.groups[i].duplicate());
            i = i + 1;
        }
        assert(group_models(groups@) =~= group_models(found.groups@));
        rank(&mut groups, str_of(&section.sort_by));
        truncate(&mut groups, top_n);
    }
    KindSection {
        kind: section.kind,
        group_by: section.group_by,
        sort_by: section.sort_by,
        project_scope: section.project_scope,
        retained_since: owned_opt(&found.retained_since),
        groups,
    }
}

/// An optional text, borrowed.
pub fn str_of(o: &Option<String>) -> (r: Option<&str>)
    ensures
        opt_str_view(r) == opt_view(*o),
{
    match o {
        Some(s) => Some(s.as_str()),
        None => None,
    }
}

// ---------------------------------------------------------------------------------------------
// Cost
// ---------------------------------------------------------------------------------------------

/// The dimension the cost snapshot rolls up by.
pub const COST_DIMENSION: &'static str = "project";

/// The measure the cost rollup ranks by.
pub const COST_RANK: &'static str = "cost_usd";

/// The dimension and the measure of the cost rollup.
pub fn cost_axes() -> (r: (&'static str, &'static str))
    ensures
        r.0@ == "project"@,
        r.1@ == "cost_usd"@,
{
    (COST_DIMENSION, COST_RANK)
}

/// What grouping reads of a snapshot row: its project, which may be empty and is then its own
/// group.
pub open spec fn row_sighting(row: CostModel) -> SightingModel {
    SightingModel { matched: true, key: Some(row.project), entity: None, at: None }
}

pub open spec fn row_sightings(rows: Seq<CostModel>) -> Seq<SightingModel> {
    Seq::new(rows.len(), |i: int| row_sighting(rows[i]))
}

/// Group snapshot rows by project.
pub fn cost_groups(rows: &Vec<CostRow>) -> (r: Vec<GroupRows>)
    ensures
        rows_models(r@) == grouped(row_sightings(cost_models(rows@))),
{
    let mut s: Vec<Sighting> = Vec::new();
    let mut i: usize = 0;
    while i < rows.len()
        invariant
            0 <= i <= rows.len(),
            s.len() == i,
            forall|k: int|
                0 <= k < i ==> (#[trigger] s@[k]).model() == row_sighting(rows@[k].model()),
        decreases rows.len() - i,
    {
        s.push(
            Sighting { matched: true, key: Some(owned(&rows[i].project)), entity: None, at: None },
        );
        i = i + 1;
    }
    assert(sighting_models(s@) =~= row_sightings(cost_models(rows@)));
    group_sightings(&s)
}

/// Rank the projects of a cost rollup by spend and keep the first `top_n`; all of them where it is
/// zero.
pub fn cost_by_project(groups: Vec<GroupAgg>, top_n: usize) -> (r: Vec<GroupAgg>)
    ensures
        group_models(r@) == topped(
            ranked(group_models(groups@), Some("cost_usd"@)),
            top_n as nat,
        ),
{
    let mut out = groups;
    rank(&mut out, Some(COST_RANK));
    truncate(&mut out, top_n);
    out
}

// ---------------------------------------------------------------------------------------------
// How far back a store reaches
// ---------------------------------------------------------------------------------------------

/// The time of the earliest of a list of records, as it is written; records whose time cannot be
/// read are passed over. Of two at one instant the first counts.
pub open spec fn oldest(recs: Seq<EnvelopeModel>) -> Option<Seq<char>>
    decreases recs.len(),
{
    if recs.len() == 0 {
        None
    } else {
        let rest = oldest(recs.drop_last());
        let ts = recs.last().ts;
        if instant(ts) is None {
            rest
        } else {
            match rest {
                None => Some(ts),
                Some(held) => if not_later(instant(held), instant(ts)) {
                    rest
                } else {
                    Some(ts)
                },
            }
        }
    }
}

pub open spec fn envelope_models(v: Seq<Envelope>) -> Seq<EnvelopeModel> {
    Seq::new(v.len(), |i: int| v[i].model())
}

/// The time of the earliest record among the first records of a Kind's files: how far back its
/// store reaches.
pub fn reach(firsts: &Vec<Envelope>) -> (r: Option<String>)
    ensures
        opt_view(r) == oldest(envelope_models(firsts@)),
{
    let ghost all = envelope_models(firsts@);
    let mut best: Option<String> = None;
    let mut at: Option<(i64, i32)> = None;
    let mut i: usize = 0;
    assert(all.take(0) =~= Seq::<EnvelopeModel>::empty());
    while i < firsts.len()
        invariant
            0 <= i <= firsts.len(),
            all == envelope_models(firsts@),
            opt_view(best) == oldest(all.take(i as int)),
            best matches Some(b) ==> at == instant(b@),
            best is None ==> at is None,
        decreases firsts.len() - i,
    {
        proof {
            assert(all.take(i + 1).drop_last() =~= all.take(i as int));
            assert(all.take(i + 1).last() == firsts@[i as int].model());
        }
        let t = parse_instant(&firsts[i].ts);
        if t.is_some() {
            let keep = match &best {
                None => false,
                Some(_) => is_not_later(at, t),
            };
            if !keep {
                best = Some(owned(&firsts[i].ts));
                at = t;
            }
        }
        i = i + 1;
    }
    assert(all.take(firsts.len() as int) =~= all);
    best
}

// ---------------------------------------------------------------------------------------------
// Laws
// ---------------------------------------------------------------------------------------------

/// A filter on a field that a record does not carry never selects the record.
pub proof fn law_a_record_without_the_field_is_never_selected(
    q: QueryModel,
    rec: EnvelopeModel,
    i: int,
)
    requires
        0 <= i < q.filters.len(),
        !rec.payload.contains_key(q.filters[i].0),
    ensures
        !in_scope(q, rec),
{
    assert(label_of(rec.payload, q.filters[i].0) is None);
}

/// A record whose time is unknown or before the window, or that is of another project than the one
/// asked for, is never selected.
pub proof fn law_a_record_outside_the_question_is_never_selected(q: QueryModel, rec: EnvelopeModel)
    requires
        epoch_of(rec.ts) is None || epoch_of(rec.ts)->0 < q.since || (q.project is Some && slot(
            rec.payload,
            "project"@,
        ) != Some(Tree::Str(q.project->0))),
    ensures
        !in_scope(q, rec),
{
}

/// One entity counts once in a group.
pub proof fn law_an_entity_counts_once(s: Seq<SightingModel>, i: int, j: int)
    requires
        counts(s, i),
        counts(s, j),
        s[i].key == s[j].key,
        s[i].entity is Some,
        s[i].entity == s[j].entity,
    ensures
        i == j,
{
    if i != j {
        assert(!displaces(s, i, j));
        assert(!displaces(s, j, i));
    }
}

proof fn lemma_displaces_transitive(s: Seq<SightingModel>, a: int, b: int, c: int)
    requires
        0 <= c < s.len(),
        displaces(s, a, b),
        displaces(s, b, c),
    ensures
        displaces(s, a, c),
{
}

proof fn lemma_represented(s: Seq<SightingModel>, i: int) -> (j: int)
    requires
        0 <= i < s.len(),
        s[i].matched,
    ensures
        counts(s, j),
        s[j].key == s[i].key,
        s[j].entity == s[i].entity,
        j == i || displaces(s, j, i),
    decreases Set::new(|j: int| displaces(s, j, i)).len(),
{
    if counts(s, i) {
        i
    } else {
        let k = choose|k: int| #[trigger] displaces(s, k, i);
        let mine = Set::new(|j: int| displaces(s, j, i));
        let theirs = Set::new(|j: int| displaces(s, j, k));
        let range = vstd::set_lib::set_int_range(0, s.len() as int);
        vstd::set_lib::lemma_int_range(0, s.len() as int);
        assert(mine.subset_of(range));
        vstd::set_lib::lemma_len_subset(mine, range);
        assert forall|j: int| #[trigger] theirs.contains(j) implies mine.contains(j) by {
            lemma_displaces_transitive(s, j, k, i);
        }
        assert(theirs.subset_of(mine.remove(k))) by {
            assert(!displaces(s, k, k));
        }
        assert(mine.contains(k));
        vstd::set_lib::lemma_len_subset(theirs, mine.remove(k));
        lemma_represented(s, k)
    }
}

/// No record in scope is lost: a record that does not count itself is stood for by one of its
/// group and entity that is not later and does.
pub proof fn law_every_record_in_scope_is_represented(s: Seq<SightingModel>, i: int)
    requires
        0 <= i < s.len(),
        s[i].matched,
    ensures
        exists|j: int| #[trigger]
            counts(s, j) && s[j].key == s[i].key && s[j].entity == s[i].entity && (j == i
                || not_later(s[j].at, s[i].at)),
{
    let j = lemma_represented(s, i);
    assert(counts(s, j));
}

/// No two groups of a list have one key.
pub open spec fn distinct_groups(s: Seq<GroupModel>) -> bool {
    forall|i: int, j: int| 0 <= i < j < s.len() ==> (#[trigger] s[i]).key != (#[trigger] s[j]).key
}

/// Groups with their sums stand for groups of records: one for each, with its key and its count.
pub open spec fn stand_for(groups: Seq<GroupModel>, rows: Seq<RowsModel>) -> bool {
    &&& groups.len() == rows.len()
    &&& forall|i: int|
        0 <= i < groups.len() ==> (#[trigger] groups[i]).key == rows[i].key && groups[i].count
            == rows[i].rows.len()
}

/// Two queries that ask the same, but for how many groups to answer with.
pub open spec fn same_question(a: QueryModel, b: QueryModel) -> bool {
    a == (QueryModel { top_n: a.top_n, ..b })
}

/// The groups of a list of records have different keys.
pub proof fn law_group_keys_differ(s: Seq<SightingModel>, i: int, j: int)
    requires
        0 <= i < j < grouped(s).len(),
    ensures
        grouped(s)[i].key != grouped(s)[j].key,
{
    let names = sorted_set(named_keys(s, s.len() as int));
    crate::sorted::lemma_sorted_set(named_keys(s, s.len() as int));
    let shift: int = if some_unnamed(s, s.len() as int) {
        1
    } else {
        0
    };
    if i >= shift {
        assert(before(names[i - shift], names[j - shift]));
        lemma_irreflexive(names[i - shift]);
    }
}

proof fn lemma_ranked_distinct(s: Seq<GroupModel>, measure: Option<Seq<char>>)
    requires
        distinct_groups(s),
    ensures
        distinct_groups(ranked(s, measure)),
        forall|i: int|
            0 <= i < s.len() ==> exists|j: int|
                0 <= j < s.len() && (#[trigger] ranked(s, measure)[i]).key == (#[trigger] s[j]).key,
    decreases s.len(),
{
    lemma_ranked_len(s, measure);
    if s.len() > 0 {
        let d = s.drop_last();
        let x = s.last();
        assert(distinct_groups(d)) by {
            assert forall|i: int, j: int| 0 <= i < j < d.len() implies (#[trigger] d[i]).key != (
            #[trigger] d[j]).key by {
                assert(s[i].key != s[j].key);
            }
        }
        lemma_ranked_distinct(d, measure);
        lemma_ranked_len(d, measure);
        let rest = ranked(d, measure);
        lemma_rank_position_found(rest, x, measure);
        let p = rank_position(rest, x, measure);
        let all = ranked(s, measure);
        assert forall|i: int| 0 <= i < rest.len() implies (#[trigger] rest[i]).key != x.key by {
            let j = choose|j: int| 0 <= j < d.len() && rest[i].key == (#[trigger] d[j]).key;
            assert(s[j].key != s[s.len() - 1].key);
        }
        assert forall|i: int, j: int| 0 <= i < j < all.len() implies (#[trigger] all[i]).key != (
        #[trigger] all[j]).key by {
            let a = if i < p { i } else { i - 1 };
            let b = if j < p { j } else { j - 1 };
            if i == p {
                assert(all[j] == rest[b]);
            } else if j == p {
                assert(all[i] == rest[a]);
            } else {
                assert(all[i] == rest[a] && all[j] == rest[b]);
                assert(rest[a].key != rest[b].key);
            }
        }
        assert forall|i: int| 0 <= i < s.len() implies exists|j: int|
            0 <= j < s.len() && (#[trigger] all[i]).key == (#[trigger] s[j]).key by {
            if i == p {
                assert(all[i].key == s[s.len() - 1].key);
            } else {
                let a = if i < p { i } else { i - 1 };
                assert(all[i] == rest[a]);
                let j = choose|j: int| 0 <= j < d.len() && rest[a].key == (#[trigger] d[j]).key;
                assert(all[i].key == s[j].key);
            }
        }
    }
}

/// Ranking groups with different keys leaves nothing open: every group ranks above all behind it,
/// by its value, and by its key where the values are equal. A limit keeps the first of them.
pub proof fn law_a_limit_keeps_the_first(
    groups: Seq<GroupModel>,
    measure: Option<Seq<char>>,
    top_n: nat,
)
    requires
        distinct_groups(groups),
        top_n > 0,
    ensures
        topped(ranked(groups, measure), 0) == ranked(groups, measure),
        distinct_groups(ranked(groups, measure)),
        forall|i: int, j: int|
            0 <= i < j < groups.len() ==> precedes(
                #[trigger] ranked(groups, measure)[i],
                #[trigger] ranked(groups, measure)[j],
                measure,
            ),
        topped(ranked(groups, measure), top_n) == ranked(groups, measure).take(
            if top_n < groups.len() {
                top_n as int
            } else {
                groups.len() as int
            },
        ),
{
    let all = ranked(groups, measure);
    lemma_ranked_len(groups, measure);
    lemma_ranked_distinct(groups, measure);
    law_ranking_orders_all_groups(groups, measure);
    assert(all.take(all.len() as int) =~= all);
    assert forall|i: int, j: int| 0 <= i < j < groups.len() implies precedes(
        #[trigger] all[i],
        #[trigger] all[j],
        measure,
    ) by {
        assert(!precedes(all[j], all[i], measure));
        assert(all[i].key != all[j].key);
        if let (Some(x), Some(y)) = (all[i].key, all[j].key) {
            crate::order::lemma_total(x, y);
        }
    }
}

/// A query with a limit is answered, for every Kind, with the first groups of what the same query
/// without one is answered with: grouping does not see the limit, the groups have different keys,
/// and their order is settled. `groups` are the Kind's groups with their sums.
pub proof fn law_a_limited_answer_is_a_prefix(
    kind: KindModel,
    all: QueryModel,
    limited: QueryModel,
    recs: Seq<Envelope>,
    found: AnswerModel,
)
    requires
        same_question(limited, all),
        all.top_n == 0,
        limited.top_n > 0,
        stand_for(found.groups, grouped(sightings(kind, all, recs))),
    ensures
        grouped(sightings(kind, limited, recs)) == grouped(sightings(kind, all, recs)),
        ({
            let whole = answered(planned_section(kind, all), found, all.top_n);
            let part = answered(planned_section(kind, limited), found, limited.top_n);
            &&& part == (SectionModel { groups: part.groups, ..whole })
            &&& part.groups == whole.groups.take(
                if limited.top_n < whole.groups.len() {
                    limited.top_n as int
                } else {
                    whole.groups.len() as int
                },
            )
            &&& distinct_groups(whole.groups)
            &&& forall|i: int, j: int|
                0 <= i < j < whole.groups.len() ==> precedes(
                    #[trigger] whole.groups[i],
                    #[trigger] whole.groups[j],
                    ranking(kind, all),
                )
        }),
{
    let rows = grouped(sightings(kind, all, recs));
    assert(sightings(kind, limited, recs) =~= sightings(kind, all, recs)) by {
        assert forall|i: int| 0 <= i < recs.len() implies sighting(
            kind,
            limited,
            recs[i].model(),
        ) == sighting(kind, all, recs[i].model()) by {}
    }
    assert(distinct_groups(found.groups)) by {
        assert forall|i: int, j: int| 0 <= i < j < found.groups.len() implies (
        #[trigger] found.groups[i]).key != (#[trigger] found.groups[j]).key by {
            law_group_keys_differ(sightings(kind, all, recs), i, j);
            assert(found.groups[i].key == rows[i].key);
            assert(found.groups[j].key == rows[j].key);
        }
    }
    lemma_ranked_len(found.groups, ranking(kind, all));
    law_a_limit_keeps_the_first(found.groups, ranking(kind, all), limited.top_n);
    let whole = answered(planned_section(kind, all), found, all.top_n);
    assert(whole.groups.take(0) =~= Seq::<GroupModel>::empty());
}

/// A whole report with a limit shows, section by section, the first groups of what the same report
/// without one shows, and is otherwise the same.
pub proof fn law_a_limited_report_is_a_prefix(
    reg: RegistryModel,
    window: Seq<char>,
    all: QueryModel,
    limited: QueryModel,
    answers: Seq<AnswerModel>,
    rows: Seq<CostModel>,
    stored: Seq<Seq<char>>,
    i: int,
)
    requires
        same_question(limited, all),
        all.top_n == 0,
        limited.top_n > 0,
        0 <= i < report_over(reg, window, all, answers, rows, stored).kinds.len(),
    ensures
        ({
            let whole = report_over(reg, window, all, answers, rows, stored);
            let part = report_over(reg, window, limited, answers, rows, stored);
            &&& part == (ReportModel { top_n: limited.top_n, kinds: part.kinds, ..whole })
            &&& part.kinds.len() == whole.kinds.len()
            &&& part.kinds[i].kind == whole.kinds[i].kind
            &&& part.kinds[i].groups == whole.kinds[i].groups.take(
                if limited.top_n < whole.kinds[i].groups.len() {
                    limited.top_n as int
                } else {
                    whole.kinds[i].groups.len() as int
                },
            )
        }),
{
    let whole = report_over(reg, window, all, answers, rows, stored);
    let part = report_over(reg, window, limited, answers, rows, stored);
    lemma_asked_same(reg.kinds, all, limited);
    assert(planned(reg.kinds, limited) =~= planned(reg.kinds, all));
    assert(part.cost == whole.cost) by {
        assert((|r: CostModel| row_in_scope(limited, r)) =~= (|r: CostModel| row_in_scope(all, r)));
    }
    let g = whole.kinds[i].groups;
    assert(g.take(g.len() as int) =~= g);
    assert(g.take(0) =~= Seq::<GroupModel>::empty());
}

proof fn lemma_asked_same(kinds: Seq<KindModel>, a: QueryModel, b: QueryModel)
    requires
        same_question(b, a),
    ensures
        asked_kinds(kinds, b) == asked_kinds(kinds, a),
    decreases kinds.len(),
{
    if kinds.len() > 0 {
        lemma_asked_same(kinds.drop_last(), a, b);
    }
}

} // verus!
