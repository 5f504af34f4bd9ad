//! The cost snapshot: one row of totals for each session.
//!
//! Amounts of money and time are carried as the numbers they were read as; sums of them are taken
//! where they are shown.
use vstd::prelude::*;
use crate::assoc::{entries, find, keys_of, lists, put};
use crate::claude_settings::slot;
use crate::clock::{epoch_of, ts_epoch};
use crate::decimal::{int_text, int_value, parse_i64};
use crate::json::{
    find_member, integer_text, lemma_member_map_at, lemma_reserved_key, lists_keys, member_list,
    member_map, members, number_text, object_text, one_line, parse, parsed, plain, plain_members,
    reserved_key, set_member, show_number, sorted_keys, write_object, Json, Tree, PLAIN_DEPTH,
};
use crate::rolling::{parse_lines, record_lines};
use crate::shape::{any, flat, lemma_flat, shape, shaped, Shape};
use crate::text::{join, joined, owned, views};

verus! {

broadcast use vstd::map::group_map_axioms;

/// Counts by name.
pub type Counts = Vec<(String, i64)>;

/// What a key has in a map of counts; nothing is zero.
pub open spec fn count_at(m: Map<Seq<char>, i64>, key: Seq<char>) -> int {
    if m.contains_key(key) {
        m[key] as int
    } else {
        0
    }
}

/// Two maps of counts merged, key by key: a count of the current run is added to the baseline's
/// (`delta`) or replaces it; a key that only the baseline has keeps its count.
pub open spec fn merged_counts(
    base: Map<Seq<char>, i64>,
    current: Map<Seq<char>, i64>,
    delta: bool,
) -> Map<Seq<char>, i64> {
    Map::new(
        |k: Seq<char>| base.contains_key(k) || current.contains_key(k),
        |k: Seq<char>|
            if !current.contains_key(k) {
                base[k]
            } else if delta {
                (count_at(base, k) + current[k]) as i64
            } else {
                current[k]
            },
    )
}

/// No sum of the merge leaves the range of a count.
pub open spec fn sums_fit(
    base: Map<Seq<char>, i64>,
    current: Map<Seq<char>, i64>,
    delta: bool,
) -> bool {
    delta ==> forall|k: Seq<char>| #[trigger]
        current.contains_key(k) ==> i64::MIN <= count_at(base, k) + current[k] <= i64::MAX
}

/// Copy a list of counts.
pub fn copy_counts(m: &Counts) -> (r: Counts)
    ensures
        entries(r@) == entries(m@),
{
    let mut out: Counts = Vec::new();
    let mut i: usize = 0;
    assert(m@.take(0) =~= Seq::<(String, i64)>::empty());
    while i < m.len()
        invariant
            0 <= i <= m.len(),
            entries(out@) == entries(m@.take(i as int)),
        decreases m.len() - i,
    {
        let ghost held = out@;
        out.push((owned(&m[i].0), m[i].1));
        assert(out@.drop_last() =~= held);
        assert(m@.take(i + 1).drop_last() =~= m@.take(i as int));
        i = i + 1;
    }
    assert(m@.take(m.len() as int) =~= m@);
    out
}

/// Whether the sums of a merge stay within the range of a count.
pub fn counts_fit(base: &Counts, current: &Counts, delta: bool) -> (r: bool)
    ensures
        r == sums_fit(entries(base@), entries(current@), delta),
{
    if !delta {
        return true;
    }
    let ghost b = entries(base@);
    let ghost c = entries(current@);
    let keys = keys_of(current);
    let ghost all = views(keys@);
    let mut i: usize = 0;
    while i < keys.len()
        invariant
            0 <= i <= keys.len(),
            delta,
            all == views(keys@),
            b == entries(base@),
            c == entries(current@),
            lists(all, c),
            forall|j: int|
                0 <= j < i ==> i64::MIN <= count_at(b, #[trigger] all[j]) + c[all[j]] <= i64::MAX,
        decreases keys.len() - i,
    {
        let ghost key = keys@[i as int]@;
        proof {
            assert(all[i as int] == key);
            assert(all.contains(key));
            assert(c.contains_key(key));
        }
        let p = find(base, &keys[i]);
        let q = find(current, &keys[i]);
        let old_count: i64 = if p < base.len() {
            base[p].1
        } else {
            0
        };
        if old_count.checked_add(current[q].1).is_none() {
            assert(!sums_fit(b, c, delta));
            return false;
        }
        i = i + 1;
    }
    proof {
        assert forall|k: Seq<char>| #[trigger] c.contains_key(k) implies i64::MIN <= count_at(b, k)
            + c[k] <= i64::MAX by {
            assert(all.contains(k));
            let j = choose|j: int| 0 <= j < all.len() && all[j] == k;
            assert(count_at(b, all[j]) + c[all[j]] <= i64::MAX);
        }
    }
    true
}

/// Merge the counts of the current run into those of an earlier one, key by key.
pub fn merge_counts(base: &Counts, current: Counts, delta: bool) -> (r: Counts)
    requires
        sums_fit(entries(base@), entries(current@), delta),
    ensures
        entries(r@) == merged_counts(entries(base@), entries(current@), delta),
{
    let ghost b = entries(base@);
    let ghost c = entries(current@);
    let keys = keys_of(&current);
    let ghost all = views(keys@);
    let mut out = copy_counts(base);
    let mut i: usize = 0;
    assert(all.take(0) =~= Seq::<Seq<char>>::empty());
    while i < keys.len()
        invariant
            0 <= i <= keys.len(),
            all == views(keys@),
            b == entries(base@),
            c == entries(current@),
            lists(all, c),
            sums_fit(b, c, delta),
            forall|k: Seq<char>| #[trigger]
                entries(out@).contains_key(k) == (b.contains_key(k) || all.take(i as int).contains(
                    k,
                )),
            forall|k: Seq<char>| #[trigger]
                entries(out@).contains_key(k) ==> entries(out@)[k] == if all.take(
                    i as int,
                ).contains(k) {
                    merged_counts(b, c, delta)[k]
                } else {
                    b[k]
                },
        decreases keys.len() - i,
    {
        let ghost key = keys@[i as int]@;
        let ghost before = entries(out@);
        proof {
            assert(all[i as int] == key);
            assert(all.contains(key));
            assert(all.take(i + 1) =~= all.take(i as int).push(key));
            assert(!all.take(i as int).contains(key)) by {
                if all.take(i as int).contains(key) {
                    let k = choose|k: int| 0 <= k < i && all.take(i as int)[k] == key;
                    assert(crate::order::before(all[k], all[i as int]));
                    crate::order::lemma_irreflexive(key);
                }
            }
        }
        let at = find(&current, &keys[i]);
        let value: i64 = current[at].1;
        let held_at = find(&out, &keys[i]);
        let held: i64 = if held_at < out.len() {
            out[held_at].1
        } else {
            0
        };
        assert(held as int == count_at(b, key)) by {
            assert(before.contains_key(key) == (b.contains_key(key) || all.take(
                i as int,
            ).contains(key)));
        }
        let sum: i64 = if delta {
            held + value
        } else {
            value
        };
        put(&mut out, &keys[i], sum);
        proof {
            assert forall|k: Seq<char>| #[trigger]
                entries(out@).contains_key(k) == (b.contains_key(k) || all.take(i + 1).contains(
                    k,
                )) by {
                crate::scopes::lemma_push_contains(all.take(i as int), key, k);
                assert(before.contains_key(k) == (b.contains_key(k) || all.take(
                    i as int,
                ).contains(k)));
            }
            assert forall|k: Seq<char>| #[trigger]
                entries(out@).contains_key(k) implies entries(out@)[k] == if all.take(
                i + 1,
            ).contains(k) {
                merged_counts(b, c, delta)[k]
            } else {
                b[k]
            } by {
                crate::scopes::lemma_push_contains(all.take(i as int), key, k);
                if k != key {
                    assert(before.contains_key(k));
                }
            }
        }
        i = i + 1;
    }
    proof {
        assert(all.take(keys.len() as int) =~= all);
        let want = merged_counts(b, c, delta);
        assert forall|k: Seq<char>| #[trigger]
            entries(out@).dom().contains(k) == want.dom().contains(k) by {
            assert(entries(out@).contains_key(k) == (b.contains_key(k) || all.contains(k)));
            assert(all.contains(k) <==> c.contains_key(k));
        }
        assert forall|k: Seq<char>| #[trigger]
            entries(out@).dom().contains(k) implies entries(out@)[k] == want[k] by {
            assert(entries(out@).contains_key(k));
            assert(all.contains(k) <==> c.contains_key(k));
        }
        assert(entries(out@).dom() =~= want.dom());
        assert(entries(out@) =~= want);
    }
    out
}

// ---------------------------------------------------------------------------------------------
// Rows
// ---------------------------------------------------------------------------------------------

/// One bucket's spend.
#[derive(Debug)]
pub struct Spend {
    pub tokens: i64,
    pub cost_usd: serde_json::Number,
}

/// What a bucket's spend says: the tokens, and the cost as it prints.
#[verifier::ext_equal]
pub struct SpendModel {
    pub tokens: i64,
    pub cost: Seq<char>,
}

impl Spend {
    pub open spec fn model(self) -> SpendModel {
        SpendModel { tokens: self.tokens, cost: number_text(self.cost_usd) }
    }

    /// An independent copy.
    pub fn duplicate(&self) -> (r: Spend)
        ensures
            r.model() == self.model(),
    {
        Spend { tokens: self.tokens, cost_usd: self.cost_usd.clone() }
    }
}

/// The totals of one session.
#[derive(Debug)]
pub struct CostRow {
    pub session_id: String,
    pub project: String,
    pub tokens: i64,
    pub cost_usd: serde_json::Number,
    pub active_time_s: serde_json::Number,
    pub lines: i64,
    /// Tokens by token type.
    pub tokens_by_type: Counts,
    /// Spend by model.
    pub by_model: Vec<(String, Spend)>,
    /// Spend by the agent it is attributed to.
    pub by_agent: Vec<(String, Spend)>,
    pub ts: String,
}

/// What a row says.
#[verifier::ext_equal]
pub struct CostModel {
    pub session: Seq<char>,
    pub project: Seq<char>,
    pub tokens: i64,
    pub cost: Seq<char>,
    pub active: Seq<char>,
    pub lines: i64,
    pub types: Map<Seq<char>, i64>,
    pub models: Map<Seq<char>, SpendModel>,
    pub agents: Map<Seq<char>, SpendModel>,
    pub ts: Seq<char>,
}

/// The spends of a list of buckets.
pub open spec fn spend_map(m: Seq<(String, Spend)>) -> Map<Seq<char>, SpendModel> {
    Map::new(
        |k: Seq<char>| entries(m).contains_key(k),
        |k: Seq<char>| entries(m)[k].model(),
    )
}

impl CostRow {
    pub open spec fn model(self) -> CostModel {
        CostModel {
            session: self.session_id@,
            project: self.project@,
            tokens: self.tokens,
            cost: number_text(self.cost_usd),
            active: number_text(self.active_time_s),
            lines: self.lines,
            types: entries(self.tokens_by_type@),
            models: spend_map(self.by_model@),
            agents: spend_map(self.by_agent@),
            ts: self.ts@,
        }
    }
}

/// The models of a list of rows.
pub open spec fn cost_models(v: Seq<CostRow>) -> Seq<CostModel> {
    Seq::new(v.len(), |i: int| v[i].model())
}

/// An integer value.
pub open spec fn tree_integer(t: Tree) -> Option<i64> {
    match t {
        Tree::Num(s) => match int_value(s) {
            Some(n) => if i64::MIN <= n <= i64::MAX {
                Some(n as i64)
            } else {
                None
            },
            None => None,
        },
        _ => None,
    }
}

/// The counts of an object: every member is an integer.
pub open spec fn counts_of(t: Tree) -> Option<Map<Seq<char>, i64>> {
    match t {
        Tree::Obj(m) => if forall|k: Seq<char>| #[trigger]
            m.contains_key(k) ==> tree_integer(m[k]) is Some {
            Some(Map::new(|k: Seq<char>| m.contains_key(k), |k: Seq<char>| tree_integer(m[k])->0))
        } else {
            None
        },
        _ => None,
    }
}

/// The fields of a spend, in the order in which they may be given without their names.
pub open spec fn spend_shape() -> Shape {
    any("tokens", any("cost_usd", Shape::End))
}

/// The spend of an object with its two measures.
pub open spec fn spend_of(t: Tree) -> Option<SpendModel> {
    match shaped(t, spend_shape()) {
        Tree::Obj(m) => match (slot(m, "tokens"@), slot(m, "cost_usd"@)) {
            (Some(n), Some(Tree::Num(cost))) => match tree_integer(n) {
                Some(tokens) => Some(SpendModel { tokens, cost }),
                None => None,
            },
            _ => None,
        },
        _ => None,
    }
}

/// The spends of an object: every member is one.
pub open spec fn spends_of(t: Tree) -> Option<Map<Seq<char>, SpendModel>> {
    match t {
        Tree::Obj(m) => if forall|k: Seq<char>| #[trigger]
            m.contains_key(k) ==> spend_of(m[k]) is Some {
            Some(Map::new(|k: Seq<char>| m.contains_key(k), |k: Seq<char>| spend_of(m[k])->0))
        } else {
            None
        },
        _ => None,
    }
}

/// An optional member read by `counts_of`; a missing one is empty: it was not recorded.
pub open spec fn counts_field(m: Map<Seq<char>, Tree>, key: Seq<char>) -> Option<
    Map<Seq<char>, i64>,
> {
    match slot(m, key) {
        None => Some(Map::empty()),
        Some(t) => counts_of(t),
    }
}

/// An optional member read by `spends_of`; a missing one is empty.
pub open spec fn spends_field(m: Map<Seq<char>, Tree>, key: Seq<char>) -> Option<
    Map<Seq<char>, SpendModel>,
> {
    match slot(m, key) {
        None => Some(Map::empty()),
        Some(t) => spends_of(t),
    }
}

/// A required integer member.
pub open spec fn integer_field(m: Map<Seq<char>, Tree>, key: Seq<char>) -> Option<i64> {
    match slot(m, key) {
        Some(t) => tree_integer(t),
        None => None,
    }
}

/// A required number member, as it prints.
pub open spec fn number_field(m: Map<Seq<char>, Tree>, key: Seq<char>) -> Option<Seq<char>> {
    match slot(m, key) {
        Some(Tree::Num(t)) => Some(t),
        _ => None,
    }
}

/// A required string member.
pub open spec fn text_field(m: Map<Seq<char>, Tree>, key: Seq<char>) -> Option<Seq<char>> {
    match slot(m, key) {
        Some(Tree::Str(t)) => Some(t),
        _ => None,
    }
}

/// The fields of a row from the second half on.
pub open spec fn row_tail_shape() -> Shape {
    any(
        "lines",
        any("tokens_by_type", any("by_model", any("by_agent", any("ts", Shape::End)))),
    )
}

/// The fields of a row, in the order in which a line may give them without their names.
pub open spec fn row_shape() -> Shape {
    any(
        "session_id",
        any(
            "project",
            any("tokens", any("cost_usd", any("active_time_s", row_tail_shape()))),
        ),
    )
}

/// The row that a tree holds.
pub open spec fn cost_row_of(t: Tree) -> Option<CostModel> {
    match shaped(t, row_shape()) {
        Tree::Obj(m) => if text_field(m, "session_id"@) is Some && text_field(m, "project"@) is Some
            && integer_field(m, "tokens"@) is Some && number_field(m, "cost_usd"@) is Some
            && number_field(m, "active_time_s"@) is Some && integer_field(m, "lines"@) is Some
            && counts_field(m, "tokens_by_type"@) is Some && spends_field(m, "by_model"@) is Some
            && spends_field(m, "by_agent"@) is Some && text_field(m, "ts"@) is Some {
            Some(
                CostModel {
                    session: text_field(m, "session_id"@)->0,
                    project: text_field(m, "project"@)->0,
                    tokens: integer_field(m, "tokens"@)->0,
                    cost: number_field(m, "cost_usd"@)->0,
                    active: number_field(m, "active_time_s"@)->0,
                    lines: integer_field(m, "lines"@)->0,
                    types: counts_field(m, "tokens_by_type"@)->0,
                    models: spends_field(m, "by_model"@)->0,
                    agents: spends_field(m, "by_agent"@)->0,
                    ts: text_field(m, "ts"@)->0,
                },
            )
        } else {
            None
        },
        _ => None,
    }
}

fn read_integer(t: &Json) -> (r: Option<i64>)
    ensures
        r == tree_integer(t.view()),
{
    match t {
        Json::Number(n) => parse_i64(&show_number(n)),
        _ => None,
    }
}

fn member_integer(m: &Vec<(String, Json)>, key: &str) -> (r: Option<i64>)
    ensures
        r == integer_field(members(m@), key@),
{
    let at = find_member(m, key);
    if at < m.len() {
        read_integer(&m[at].1)
    } else {
        None
    }
}

fn member_number(m: &Vec<(String, Json)>, key: &str) -> (r: Option<serde_json::Number>)
    ensures
        match r {
            Some(n) => number_field(members(m@), key@) == Some(number_text(n)),
            None => number_field(members(m@), key@) is None,
        },
{
    let at = find_member(m, key);
    if at < m.len() {
        match &m[at].1 {
            Json::Number(n) => Some(n.clone()),
            _ => None,
        }
    } else {
        None
    }
}

fn member_text(m: &Vec<(String, Json)>, key: &str) -> (r: Option<String>)
    ensures
        crate::text::opt_view(r) == text_field(members(m@), key@),
{
    let at = find_member(m, key);
    if at < m.len() {
        match &m[at].1 {
            Json::Str(s) => Some(owned(s)),
            _ => None,
        }
    } else {
        None
    }
}

fn read_counts(t: &Json) -> (r: Option<Counts>)
    ensures
        match r {
            Some(c) => counts_of(t.view()) == Some(entries(c@)),
            None => counts_of(t.view()) is None,
        },
{
    let m = match t {
        Json::Object(m) => m,
        _ => {
            return None;
        },
    };
    let keys = sorted_keys(m);
    let ghost all = views(keys@);
    let ghost tree = members(m@);
    let mut out: Counts = Vec::new();
    let mut i: usize = 0;
    assert(all.take(0) =~= Seq::<Seq<char>>::empty());
    while i < keys.len()
        invariant
            0 <= i <= keys.len(),
            t.view() == Tree::Obj(tree),
            all == views(keys@),
            tree == members(m@),
            lists_keys(all, tree),
            forall|k: Seq<char>| #[trigger]
                entries(out@).contains_key(k) <==> all.take(i as int).contains(k),
            forall|k: Seq<char>| #[trigger]
                entries(out@).contains_key(k) ==> tree_integer(tree[k]) == Some(entries(out@)[k]),
        decreases keys.len() - i,
    {
        let ghost key = keys@[i as int]@;
        let ghost before = entries(out@);
        proof {
            assert(all[i as int] == key);
            assert(all.contains(key));
            assert(all.take(i + 1) =~= all.take(i as int).push(key));
        }
        let at = find_member(m, &keys[i]);
        match read_integer(&m[at].1) {
            Some(n) => {
                put(&mut out, &keys[i], n);
            },
            None => {
                assert(tree.contains_key(key) && tree_integer(tree[key]) is None);
                return None;
            },
        }
        proof {
            assert forall|k: Seq<char>| #[trigger]
                entries(out@).contains_key(k) <==> all.take(i + 1).contains(k) by {
                crate::scopes::lemma_push_contains(all.take(i as int), key, k);
                assert(before.contains_key(k) <==> all.take(i as int).contains(k));
            }
            assert forall|k: Seq<char>| #[trigger]
                entries(out@).contains_key(k) implies tree_integer(tree[k]) == Some(
                entries(out@)[k],
            ) by {
                if k != key {
                    assert(before.contains_key(k));
                }
            }
        }
        i = i + 1;
    }
    proof {
        assert(all.take(keys.len() as int) =~= all);
        assert forall|k: Seq<char>| #[trigger] tree.contains_key(k) implies tree_integer(
            tree[k],
        ) is Some by {
            assert(all.contains(k));
            assert(entries(out@).contains_key(k));
        }
        let want = counts_of(t.view())->0;
        assert forall|k: Seq<char>| #[trigger]
            entries(out@).dom().contains(k) == want.dom().contains(k) by {
            assert(entries(out@).contains_key(k) <==> all.contains(k));
            assert(all.contains(k) <==> tree.contains_key(k));
        }
        assert forall|k: Seq<char>| #[trigger]
            entries(out@).dom().contains(k) implies entries(out@)[k] == want[k] by {
            assert(entries(out@).contains_key(k));
        }
        assert(entries(out@).dom() =~= want.dom());
        assert(entries(out@) =~= want);
    }
    Some(out)
}

fn read_spend(t: &Json) -> (r: Option<Spend>)
    ensures
        match r {
            Some(s) => spend_of(t.view()) == Some(s.model()),
            None => spend_of(t.view()) is None,
        },
{
    let fields = any("tokens", any("cost_usd", Shape::End));
    match shape(t, &fields) {
        Json::Object(m) => match (member_integer(&m, "tokens"), member_number(&m, "cost_usd")) {
            (Some(tokens), Some(cost_usd)) => Some(Spend { tokens, cost_usd }),
            _ => None,
        },
        _ => None,
    }
}

fn read_spends(t: &Json) -> (r: Option<Vec<(String, Spend)>>)
    ensures
        match r {
            Some(c) => spends_of(t.view()) == Some(spend_map(c@)),
            None => spends_of(t.view()) is None,
        },
{
    let m = match t {
        Json::Object(m) => m,
        _ => {
            return None;
        },
    };
    let keys = sorted_keys(m);
    let ghost all = views(keys@);
    let ghost tree = members(m@);
    let mut out: Vec<(String, Spend)> = Vec::new();
    let mut i: usize = 0;
    assert(all.take(0) =~= Seq::<Seq<char>>::empty());
    while i < keys.len()
        invariant
            0 <= i <= keys.len(),
            t.view() == Tree::Obj(tree),
            all == views(keys@),
            tree == members(m@),
            lists_keys(all, tree),
            forall|k: Seq<char>| #[trigger]
                entries(out@).contains_key(k) <==> all.take(i as int).contains(k),
            forall|k: Seq<char>| #[trigger]
                entries(out@).contains_key(k) ==> spend_of(tree[k]) == Some(
                    entries(out@)[k].model(),
                ),
        decreases keys.len() - i,
    {
        let ghost key = keys@[i as int]@;
        let ghost before = entries(out@);
        proof {
            assert(all[i as int] == key);
            assert(all.contains(key));
            assert(all.take(i + 1) =~= all.take(i as int).push(key));
        }
        let at = find_member(m, &keys[i]);
        match read_spend(&m[at].1) {
            Some(s) => {
                put(&mut out, &keys[i], s);
            },
            None => {
                assert(tree.contains_key(key) && spend_of(tree[key]) is None);
                return None;
            },
        }
        proof {
            assert forall|k: Seq<char>| #[trigger]
                entries(out@).contains_key(k) <==> all.take(i + 1).contains(k) by {
                crate::scopes::lemma_push_contains(all.take(i as int), key, k);
                assert(before.contains_key(k) <==> all.take(i as int).contains(k));
            }
            assert forall|k: Seq<char>| #[trigger]
                entries(out@).contains_key(k) implies spend_of(tree[k]) == Some(
                entries(out@)[k].model(),
            ) by {
                if k != key {
                    assert(before.contains_key(k));
                }
            }
        }
        i = i + 1;
    }
    proof {
        assert(all.take(keys.len() as int) =~= all);
        assert forall|k: Seq<char>| #[trigger] tree.contains_key(k) implies spend_of(
            tree[k],
        ) is Some by {
            assert(all.contains(k));
            assert(entries(out@).contains_key(k));
        }
        let want = spends_of(t.view())->0;
        let got = spend_map(out@);
        assert forall|k: Seq<char>| #[trigger] got.dom().contains(k) == want.dom().contains(k) by {
            assert(entries(out@).contains_key(k) <==> all.contains(k));
            assert(all.contains(k) <==> tree.contains_key(k));
        }
        assert forall|k: Seq<char>| #[trigger] got.dom().contains(k) implies got[k]
            == want[k] by {
            assert(entries(out@).contains_key(k));
        }
        assert(got.dom() =~= want.dom());
        assert(got =~= want);
    }
    Some(out)
}

fn member_counts(m: &Vec<(String, Json)>, key: &str) -> (r: Option<Counts>)
    ensures
        match r {
            Some(c) => counts_field(members(m@), key@) == Some(entries(c@)),
            None => counts_field(members(m@), key@) is None,
        },
{
    let at = find_member(m, key);
    if at < m.len() {
        read_counts(&m[at].1)
    } else {
        Some(Vec::new())
    }
}

fn member_spends(m: &Vec<(String, Json)>, key: &str) -> (r: Option<Vec<(String, Spend)>>)
    ensures
        match r {
            Some(c) => spends_field(members(m@), key@) == Some(spend_map(c@)),
            None => spends_field(members(m@), key@) is None,
        },
{
    let at = find_member(m, key);
    if at < m.len() {
        read_spends(&m[at].1)
    } else {
        let none: Vec<(String, Spend)> = Vec::new();
        assert(spend_map(none@) =~= Map::<Seq<char>, SpendModel>::empty());
        Some(none)
    }
}

impl CostRow {
    /// Read a row from a tree; breakdowns that were not recorded are empty.
    pub fn from_json(t: &Json) -> (r: Option<CostRow>)
        ensures
            match r {
                Some(row) => cost_row_of(t.view()) == Some(row.model()),
                None => cost_row_of(t.view()) is None,
            },
    {
        let tail = any(
            "lines",
            any("tokens_by_type", any("by_model", any("by_agent", any("ts", Shape::End)))),
        );
        let fields = any(
            "session_id",
            any("project", any("tokens", any("cost_usd", any("active_time_s", tail)))),
        );
        let m = match shape(t, &fields) {
            Json::Object(m) => m,
            _ => {
                return None;
            },
        };
        match (
            member_text(&m, "session_id"),
            member_text(&m, "project"),
            member_integer(&m, "tokens"),
            member_number(&m, "cost_usd"),
            member_number(&m, "active_time_s"),
        ) {
            (
                Some(session_id),
                Some(project),
                Some(tokens),
                Some(cost_usd),
                Some(active_time_s),
            ) => match (
                member_integer(&m, "lines"),
                member_counts(&m, "tokens_by_type"),
                member_spends(&m, "by_model"),
                member_spends(&m, "by_agent"),
                member_text(&m, "ts"),
            ) {
                (
                    Some(lines),
                    Some(tokens_by_type),
                    Some(by_model),
                    Some(by_agent),
                    Some(ts),
                ) => Some(
                    CostRow {
                        session_id,
                        project,
                        tokens,
                        cost_usd,
                        active_time_s,
                        lines,
                        tokens_by_type,
                        by_model,
                        by_agent,
                        ts,
                    },
                ),
                _ => None,
            },
            _ => None,
        }
    }
}

/// The row of a line.
pub open spec fn read_row(line: Seq<char>) -> Option<CostModel> {
    match parsed(line) {
        Ok(t) => cost_row_of(t),
        Err(_) => None,
    }
}

/// The rows that lines hold, malformed ones left out.
pub open spec fn rows_of(lines: Seq<Seq<char>>) -> Seq<CostModel>
    decreases lines.len(),
{
    if lines.len() == 0 {
        Seq::empty()
    } else {
        let rest = rows_of(lines.drop_last());
        match read_row(lines.last()) {
            Some(r) => rest.push(r),
            None => rest,
        }
    }
}

/// A row whose line reads back as itself: its amounts are whole numbers, and nothing is counted
/// under the reserved key.
pub open spec fn plain_row(r: CostModel) -> bool {
    &&& integer_text(r.cost)
    &&& integer_text(r.active)
    &&& r.types.dom().finite()
    &&& !r.types.contains_key(reserved_key())
    &&& plain_spends(r.models)
    &&& plain_spends(r.agents)
}

/// Spends whose amounts are whole numbers.
pub open spec fn plain_spends(m: Map<Seq<char>, SpendModel>) -> bool {
    &&& m.dom().finite()
    &&& !m.contains_key(reserved_key())
    &&& forall|k: Seq<char>| #[trigger] m.contains_key(k) ==> integer_text(m[k].cost)
}

/// Rows that a text was written of, each on one line.
pub open spec fn written(rows: Seq<CostModel>, text: Seq<char>) -> bool {
    &&& snapshot_of(rows) == Some(text)
    &&& forall|i: int|
        0 <= i < rows.len() ==> plain_row(#[trigger] rows[i]) && one_line(
            object_text(row_members(rows[i])),
        )
}

proof fn lemma_counts_round_trip(m: Map<Seq<char>, i64>)
    requires
        m.dom().finite(),
        !m.contains_key(reserved_key()),
    ensures
        counts_of(counts_tree(m)) == Some(m),
        plain(counts_tree(m), PLAIN_DEPTH as nat),
{
    let t = counts_tree(m)->Obj_0;
    assert forall|k: Seq<char>| #[trigger] t.contains_key(k) implies tree_integer(t[k]) == Some(
        m[k],
    ) by {
        crate::decimal::law_print_then_read_signed(m[k] as int);
    }
    assert(counts_of(counts_tree(m))->0 =~= m);
    assert(t.dom() =~= m.dom());
    assert forall|k: Seq<char>| t.contains_key(k) implies plain(
        #[trigger] t[k],
        (PLAIN_DEPTH - 1) as nat,
    ) by {
        assert(t[k] == Tree::Num(int_text(m[k] as int)));
        assert(integer_text(int_text(m[k] as int)));
    }
}

proof fn lemma_spend_round_trip(s: SpendModel, depth: nat)
    requires
        integer_text(s.cost),
        depth > 0,
    ensures
        spend_of(spend_tree(s)) == Some(s),
        plain(spend_tree(s), depth),
{
    reveal_strlit("tokens");
    reveal_strlit("cost_usd");
    assert("tokens"@.len() == 6 && "cost_usd"@.len() == 8);
    let t = spend_tree(s)->Obj_0;
    reveal_with_fuel(flat, 3);
    lemma_flat(t, spend_shape());
    lemma_reserved_key();
    crate::decimal::law_print_then_read_signed(s.tokens as int);
    assert(slot(t, "tokens"@) == Some(Tree::Num(int_text(s.tokens as int))));
    assert(slot(t, "cost_usd"@) == Some(Tree::Num(s.cost)));
    assert(integer_text(int_text(s.tokens as int)));
    assert(t.dom().finite()) by {
        assert(t.dom() =~= Set::empty().insert("tokens"@).insert("cost_usd"@));
    }
    assert forall|k: Seq<char>| t.contains_key(k) implies plain(
        #[trigger] t[k],
        (depth - 1) as nat,
    ) by {
        assert(k == "tokens"@ || k == "cost_usd"@);
    }
}

proof fn lemma_spends_round_trip(m: Map<Seq<char>, SpendModel>)
    requires
        plain_spends(m),
    ensures
        spends_of(spends_tree(m)) == Some(m),
        plain(spends_tree(m), PLAIN_DEPTH as nat),
{
    let t = spends_tree(m)->Obj_0;
    assert forall|k: Seq<char>| #[trigger] t.contains_key(k) implies spend_of(t[k]) == Some(
        m[k],
    ) by {
        lemma_spend_round_trip(m[k], 1);
    }
    assert(spends_of(spends_tree(m))->0 =~= m);
    assert(t.dom() =~= m.dom());
    assert forall|k: Seq<char>| t.contains_key(k) implies plain(
        #[trigger] t[k],
        (PLAIN_DEPTH - 1) as nat,
    ) by {
        lemma_spend_round_trip(m[k], (PLAIN_DEPTH - 1) as nat);
    }
}

proof fn lemma_row_keys_differ(r: CostModel)
    ensures
        forall|i: int, j: int|
            0 <= i < j < 10 ==> (#[trigger] row_members(r)[i]).0 != (#[trigger] row_members(r)[j]).0,
{
    reveal_strlit("session_id");
    reveal_strlit("project");
    reveal_strlit("tokens");
    reveal_strlit("cost_usd");
    reveal_strlit("active_time_s");
    reveal_strlit("lines");
    reveal_strlit("tokens_by_type");
    reveal_strlit("by_model");
    reveal_strlit("by_agent");
    reveal_strlit("ts");
    assert("session_id"@.len() == 10 && "project"@.len() == 7 && "tokens"@.len() == 6
        && "cost_usd"@.len() == 8 && "active_time_s"@.len() == 13 && "lines"@.len() == 5
        && "tokens_by_type"@.len() == 14 && "by_model"@.len() == 8 && "by_agent"@.len() == 8
        && "ts"@.len() == 2);
    assert("cost_usd"@[0] == 'c' && "by_model"@[0] == 'b' && "by_agent"@[0] == 'b');
    assert("by_model"@[3] == 'm' && "by_agent"@[3] == 'a');
}

proof fn lemma_row_keys_free(r: CostModel)
    ensures
        forall|i: int| 0 <= i < 10 ==> (#[trigger] row_members(r)[i]).0 != reserved_key(),
{
    lemma_reserved_key();
    reveal_strlit("session_id");
    reveal_strlit("project");
    reveal_strlit("tokens");
    reveal_strlit("cost_usd");
    reveal_strlit("active_time_s");
    reveal_strlit("lines");
    reveal_strlit("tokens_by_type");
    reveal_strlit("by_model");
    reveal_strlit("by_agent");
    reveal_strlit("ts");
}

proof fn lemma_row_round_trip(r: CostModel)
    requires
        plain_row(r),
    ensures
        plain_members(row_members(r)),
        cost_row_of(Tree::Obj(member_map(row_members(r)))) == Some(r),
{
    let m = row_members(r);
    let map = member_map(m);
    lemma_row_keys_differ(r);
    lemma_row_keys_free(r);
    lemma_counts_round_trip(r.types);
    lemma_spends_round_trip(r.models);
    lemma_spends_round_trip(r.agents);
    crate::decimal::law_print_then_read_signed(r.tokens as int);
    crate::decimal::law_print_then_read_signed(r.lines as int);
    assert(integer_text(int_text(r.tokens as int)));
    assert(integer_text(int_text(r.lines as int)));
    assert forall|i: int| 0 <= i < 10 implies slot(map, (#[trigger] m[i]).0) == Some(m[i].1) by {
        lemma_member_map_at(m, i);
    }
    reveal_with_fuel(flat, 11);
    lemma_flat(map, row_shape());
    assert(slot(map, m[0].0) == Some(Tree::Str(r.session)));
    assert(slot(map, m[1].0) == Some(Tree::Str(r.project)));
    assert(slot(map, m[2].0) == Some(Tree::Num(int_text(r.tokens as int))));
    assert(slot(map, m[3].0) == Some(Tree::Num(r.cost)));
    assert(slot(map, m[4].0) == Some(Tree::Num(r.active)));
    assert(slot(map, m[5].0) == Some(Tree::Num(int_text(r.lines as int))));
    assert(slot(map, m[6].0) == Some(counts_tree(r.types)));
    assert(slot(map, m[7].0) == Some(spends_tree(r.models)));
    assert(slot(map, m[8].0) == Some(spends_tree(r.agents)));
    assert(slot(map, m[9].0) == Some(Tree::Str(r.ts)));
}

/// Read the text of a snapshot; malformed lines are left out. What was written of rows whose
/// amounts are whole numbers reads back as those rows.
///
/// A line is read as a JSON value first: every member is judged, also one that a row does not have,
/// and where a member is repeated its last value counts.
pub fn read_snapshot(text: &str) -> (r: Vec<CostRow>)
    ensures
        cost_models(r@) == rows_of(record_lines(text@)),
        forall|rows: Seq<CostModel>| #[trigger] written(rows, text@) ==> cost_models(r@) == rows,
{
    let lines = parse_lines(text);
    let ghost all = views(lines@);
    let mut out: Vec<CostRow> = Vec::new();
    let mut i: usize = 0;
    assert(all.take(0) =~= Seq::<Seq<char>>::empty());
    assert(cost_models(out@) =~= Seq::<CostModel>::empty());
    proof {
        assert forall|rows: Seq<CostModel>| #[trigger] written(rows, text@) implies all
            == row_lines(rows) by {
            let want = row_lines(rows);
            assert forall|k: int| 0 <= k < want.len() implies one_line(#[trigger] want[k]) by {
                assert(plain_row(rows[k]));
            }
            crate::rolling::law_lines_read_back(want);
        }
        assert forall|rows: Seq<CostModel>| #[trigger] written(rows, text@) implies rows_of(
            all.take(0),
        ) == rows.take(0) by {
            assert(rows.take(0) =~= Seq::<CostModel>::empty());
        }
    }
    while i < lines.len()
        invariant
            0 <= i <= lines.len(),
            all == views(lines@),
            cost_models(out@) == rows_of(all.take(i as int)),
            forall|rows: Seq<CostModel>| #[trigger]
                written(rows, text@) ==> all == row_lines(rows) && rows_of(all.take(i as int))
                    == rows.take(i as int),
        decreases lines.len() - i,
    {
        proof {
            assert(all.take(i + 1).drop_last() =~= all.take(i as int));
            assert(all.take(i + 1).last() == lines@[i as int]@);
        }
        let read = parse(&lines[i]);
        proof {
            assert forall|rows: Seq<CostModel>| #[trigger] written(rows, text@) implies rows_of(
                all.take(i + 1),
            ) == rows.take(i + 1) by {
                assert(plain_row(rows[i as int]));
                lemma_row_round_trip(rows[i as int]);
                assert(lines@[i as int]@ == all[i as int]);
                assert(all[i as int] == row_lines(rows)[i as int]);
                assert(lines@[i as int]@ == object_text(row_members(rows[i as int])));
                assert(read_row(all[i as int]) == Some(rows[i as int]));
                assert(rows.take(i + 1) =~= rows.take(i as int).push(rows[i as int]));
            }
        }
        let row = match read {
            Ok(t) => CostRow::from_json(&t),
            Err(_) => None,
        };
        if let Some(row) = row {
            let ghost held = out@;
            out.push(row);
            assert(cost_models(out@) =~= cost_models(held).push(row.model()));
        }
        i = i + 1;
    }
    assert(all.take(lines.len() as int) =~= all);
    proof {
        assert forall|rows: Seq<CostModel>| #[trigger] written(rows, text@) implies rows_of(all)
            == rows by {
            assert(row_lines(rows).len() == rows.len());
            assert(rows.take(rows.len() as int) =~= rows);
        }
    }
    out
}

// ---------------------------------------------------------------------------------------------
// Merging
// ---------------------------------------------------------------------------------------------

/// The last row of a session.
pub open spec fn last_row(rows: Seq<CostModel>, session: Seq<char>) -> Option<CostModel>
    decreases rows.len(),
{
    if rows.len() == 0 {
        None
    } else if rows.last().session == session {
        Some(rows.last())
    } else {
        last_row(rows.drop_last(), session)
    }
}

/// A row that is kept: one whose time is known and not before the bound.
pub open spec fn retained(row: CostModel, retain_since: i64) -> bool {
    epoch_of(row.ts) matches Some(t) && t >= retain_since
}

/// The row that the merged snapshot has for a session: the current one, or else the stored one,
/// where it is still kept.
pub open spec fn merged_row(
    stored: Seq<CostModel>,
    current: Seq<CostModel>,
    session: Seq<char>,
    retain_since: i64,
) -> Option<CostModel> {
    let row = match last_row(current, session) {
        Some(r) => Some(r),
        None => last_row(stored, session),
    };
    match row {
        Some(r) => if retained(r, retain_since) {
            Some(r)
        } else {
            None
        },
        None => None,
    }
}

/// The sessions of a list of rows.
pub open spec fn sessions_of(rows: Seq<CostModel>) -> Seq<Seq<char>> {
    Seq::new(rows.len(), |i: int| rows[i].session)
}

/// The rows of the merged snapshot, in the order of the sessions.
pub open spec fn merged_rows(
    stored: Seq<CostModel>,
    current: Seq<CostModel>,
    sessions: Seq<Seq<char>>,
    retain_since: i64,
) -> Seq<CostModel>
    decreases sessions.len(),
{
    if sessions.len() == 0 {
        Seq::empty()
    } else {
        let rest = merged_rows(stored, current, sessions.drop_last(), retain_since);
        match merged_row(stored, current, sessions.last(), retain_since) {
            Some(r) => rest.push(r),
            None => rest,
        }
    }
}

/// The merged snapshot.
pub open spec fn merged_snapshot(
    stored: Seq<CostModel>,
    current: Seq<CostModel>,
    retain_since: i64,
) -> Seq<CostModel> {
    merged_rows(
        stored,
        current,
        crate::sorted::sorted_set(sessions_of(stored) + sessions_of(current)),
        retain_since,
    )
}

/// The position of the last row of a session, or the length.
fn find_row(rows: &Vec<CostRow>, session: &str) -> (r: usize)
    ensures
        r <= rows.len(),
        r < rows.len() ==> last_row(cost_models(rows@), session@) == Some(rows@[r as int].model()),
        r == rows.len() ==> last_row(cost_models(rows@), session@) is None,
{
    let ghost all = cost_models(rows@);
    let mut i: usize = rows.len();
    assert(all.take(all.len() as int) =~= all);
    while i > 0
        invariant
            0 <= i <= rows.len(),
            all == cost_models(rows@),
            last_row(all, session@) == last_row(all.take(i as int), session@),
        decreases i,
    {
        proof {
            assert(all.take(i as int).drop_last() =~= all.take(i - 1));
            assert(all.take(i as int).last() == rows@[i - 1].model());
        }
        if crate::text::same(&rows[i - 1].session_id, session) {
            return i - 1;
        }
        i = i - 1;
    }
    rows.len()
}

fn copy_spends(m: &Vec<(String, Spend)>) -> (r: Vec<(String, Spend)>)
    ensures
        spend_map(r@) == spend_map(m@),
{
    let mut out: Vec<(String, Spend)> = Vec::new();
    let mut i: usize = 0;
    assert(m@.take(0) =~= Seq::<(String, Spend)>::empty());
    while i < m.len()
        invariant
            0 <= i <= m.len(),
            forall|k: Seq<char>| #[trigger]
                entries(out@).contains_key(k) == entries(m@.take(i as int)).contains_key(k),
            forall|k: Seq<char>| #[trigger]
                entries(out@).contains_key(k) ==> entries(out@)[k].model() == entries(
                    m@.take(i as int),
                )[k].model(),
        decreases m.len() - i,
    {
        let ghost before = out@;
        let entry = (owned(&m[i].0), m[i].1.duplicate());
        out.push(entry);
        proof {
            assert(out@.drop_last() =~= before);
            assert(m@.take(i + 1).drop_last() =~= m@.take(i as int));
            let was = entries(m@.take(i as int));
            let now = entries(m@.take(i + 1));
            assert(now == was.insert(m@[i as int].0@, m@[i as int].1));
            assert(entries(out@) == entries(before).insert(entry.0@, entry.1));
            assert forall|k: Seq<char>| #[trigger]
                entries(out@).contains_key(k) == now.contains_key(k) by {
                assert(entries(before).contains_key(k) == was.contains_key(k));
            }
            assert forall|k: Seq<char>| #[trigger]
                entries(out@).contains_key(k) implies entries(out@)[k].model() == now[k].model() by {
                if k != entry.0@ {
                    assert(entries(before).contains_key(k));
                }
            }
        }
        i = i + 1;
    }
    assert(m@.take(m.len() as int) =~= m@);
    assert(spend_map(out@) =~= spend_map(m@));
    out
}

impl CostRow {
    /// An independent copy.
    pub fn duplicate(&self) -> (r: CostRow)
        ensures
            r.model() == self.model(),
    {
        CostRow {
            session_id: owned(&self.session_id),
            project: owned(&self.project),
            tokens: self.tokens,
            cost_usd: self.cost_usd.clone(),
            active_time_s: self.active_time_s.clone(),
            lines: self.lines,
            tokens_by_type: copy_counts(&self.tokens_by_type),
            by_model: copy_spends(&self.by_model),
            by_agent: copy_spends(&self.by_agent),
            ts: owned(&self.ts),
        }
    }
}

/// Merge current totals into a stored snapshot, one row for each session. A session that is
/// current replaces its stored row, any other is preserved, and rows from before `retain_since`
/// are dropped.
pub fn merge_snapshot(stored: &Vec<CostRow>, rows: &Vec<CostRow>, retain_since: i64) -> (r: Vec<
    CostRow,
>)
    ensures
        cost_models(r@) == merged_snapshot(cost_models(stored@), cost_models(rows@), retain_since),
{
    let ghost a = cost_models(stored@);
    let ghost b = cost_models(rows@);
    let mut names: Vec<String> = Vec::new();
    let mut i: usize = 0;
    while i < stored.len()
        invariant
            0 <= i <= stored.len(),
            names.len() == i,
            forall|k: int| 0 <= k < i ==> (#[trigger] names@[k])@ == stored@[k].session_id@,
        decreases stored.len() - i,
    {
        names.push(owned(&stored[i].session_id));
        i = i + 1;
    }
    let mut j: usize = 0;
    while j < rows.len()
        invariant
            0 <= j <= rows.len(),
            names.len() == stored.len() + j,
            forall|k: int|
                0 <= k < stored.len() ==> (#[trigger] names@[k])@ == stored@[k].session_id@,
            forall|k: int|
                stored.len() <= k < stored.len() + j ==> (#[trigger] names@[k])@ == rows@[k
                    - stored.len()].session_id@,
        decreases rows.len() - j,
    {
        names.push(owned(&rows[j].session_id));
        j = j + 1;
    }
    assert(views(names@) =~= sessions_of(a) + sessions_of(b));
    let sessions = crate::sorted::sort_set(&names);
    let ghost all = views(sessions@);
    let mut out: Vec<CostRow> = Vec::new();
    let mut n: usize = 0;
    assert(all.take(0) =~= Seq::<Seq<char>>::empty());
    assert(cost_models(out@) =~= Seq::<CostModel>::empty());
    while n < sessions.len()
        invariant
            0 <= n <= sessions.len(),
            all == views(sessions@),
            a == cost_models(stored@),
            b == cost_models(rows@),
            cost_models(out@) == merged_rows(a, b, all.take(n as int), retain_since),
        decreases sessions.len() - n,
    {
        proof {
            assert(all.take(n + 1).drop_last() =~= all.take(n as int));
            assert(all.take(n + 1).last() == sessions@[n as int]@);
        }
        let at = find_row(rows, &sessions[n]);
        let row = if at < rows.len() {
            Some(rows[at].duplicate())
        } else {
            let at = find_row(stored, &sessions[n]);
            if at < stored.len() {
                Some(stored[at].duplicate())
            } else {
                None
            }
        };
        if let Some(row) = row {
            let kept = match ts_epoch(&row.ts) {
                Some(t) => t >= retain_since,
                None => false,
            };
            if kept {
                let ghost held = out@;
                out.push(row);
                assert(cost_models(out@) =~= cost_models(held).push(row.model()));
            }
        }
        n = n + 1;
    }
    assert(all.take(sessions.len() as int) =~= all);
    out
}

// ---------------------------------------------------------------------------------------------
// Spend across a restart
// ---------------------------------------------------------------------------------------------

/// A bucket's spend whose cost is still to be added up, in the order given.
#[derive(Debug)]
pub struct SpendSum {
    pub tokens: i64,
    pub costs: Vec<serde_json::Number>,
}

#[verifier::ext_equal]
pub struct SumModel {
    pub tokens: i64,
    pub costs: Seq<Seq<char>>,
}

pub open spec fn number_texts(v: Seq<serde_json::Number>) -> Seq<Seq<char>> {
    Seq::new(v.len(), |i: int| number_text(v[i]))
}

impl SpendSum {
    pub open spec fn model(self) -> SumModel {
        SumModel { tokens: self.tokens, costs: number_texts(self.costs@) }
    }
}

pub open spec fn sum_map(m: Seq<(String, SpendSum)>) -> Map<Seq<char>, SumModel> {
    Map::new(
        |k: Seq<char>| entries(m).contains_key(k),
        |k: Seq<char>| entries(m)[k].model(),
    )
}

/// The spend of one bucket: its measures are merged each by its own rule.
pub open spec fn bucket_sum(
    base: Option<SpendModel>,
    current: Option<SpendModel>,
    tokens_delta: bool,
    cost_delta: bool,
) -> SumModel {
    match (base, current) {
        (Some(b), Some(c)) => SumModel {
            tokens: if tokens_delta {
                (b.tokens + c.tokens) as i64
            } else {
                c.tokens
            },
            costs: if cost_delta {
                seq![b.cost, c.cost]
            } else {
                seq![c.cost]
            },
        },
        (Some(b), None) => SumModel { tokens: b.tokens, costs: seq![b.cost] },
        (None, Some(c)) => SumModel { tokens: c.tokens, costs: seq![c.cost] },
        (None, None) => SumModel { tokens: 0, costs: Seq::empty() },
    }
}

pub open spec fn spend_at(m: Map<Seq<char>, SpendModel>, key: Seq<char>) -> Option<SpendModel> {
    if m.contains_key(key) {
        Some(m[key])
    } else {
        None
    }
}

/// Two breakdowns merged, bucket by bucket.
pub open spec fn merged_spend(
    base: Map<Seq<char>, SpendModel>,
    current: Map<Seq<char>, SpendModel>,
    tokens_delta: bool,
    cost_delta: bool,
) -> Map<Seq<char>, SumModel> {
    Map::new(
        |k: Seq<char>| base.contains_key(k) || current.contains_key(k),
        |k: Seq<char>|
            bucket_sum(spend_at(base, k), spend_at(current, k), tokens_delta, cost_delta),
    )
}

/// No sum of tokens leaves the range of a count.
pub open spec fn token_sums_fit(
    base: Map<Seq<char>, SpendModel>,
    current: Map<Seq<char>, SpendModel>,
    tokens_delta: bool,
) -> bool {
    tokens_delta ==> forall|k: Seq<char>| #[trigger]
        current.contains_key(k) && base.contains_key(k) ==> i64::MIN <= base[k].tokens
            + current[k].tokens <= i64::MAX
}

fn sum_bucket(
    base: Option<&Spend>,
    current: Option<&Spend>,
    tokens_delta: bool,
    cost_delta: bool,
) -> (r: SpendSum)
    requires
        tokens_delta && base is Some && current is Some ==> i64::MIN <= base->0.tokens
            + current->0.tokens <= i64::MAX,
    ensures
        r.model() == bucket_sum(opt_spend(base), opt_spend(current), tokens_delta, cost_delta),
{
    let mut costs: Vec<serde_json::Number> = Vec::new();
    let mut tokens: i64 = 0;
    if let Some(b) = base {
        tokens = b.tokens;
        if current.is_none() || cost_delta {
            costs.push(b.cost_usd.clone());
        }
    }
    if let Some(c) = current {
        if tokens_delta && base.is_some() {
            tokens = tokens + c.tokens;
        } else {
            tokens = c.tokens;
        }
        costs.push(c.cost_usd.clone());
    }
    let r = SpendSum { tokens, costs };
    assert(r.model().costs =~= bucket_sum(
        opt_spend(base),
        opt_spend(current),
        tokens_delta,
        cost_delta,
    ).costs);
    r
}

pub open spec fn opt_spend(o: Option<&Spend>) -> Option<SpendModel> {
    match o {
        Some(s) => Some(s.model()),
        None => None,
    }
}

/// Whether the token sums of a merge stay within the range of a count.
pub fn tokens_fit(
    base: &Vec<(String, Spend)>,
    current: &Vec<(String, Spend)>,
    tokens_delta: bool,
) -> (r: bool)
    ensures
        r == token_sums_fit(spend_map(base@), spend_map(current@), tokens_delta),
{
    if !tokens_delta {
        return true;
    }
    let ghost b = spend_map(base@);
    let ghost c = spend_map(current@);
    let keys = keys_of(current);
    let ghost all = views(keys@);
    let mut i: usize = 0;
    while i < keys.len()
        invariant
            0 <= i <= keys.len(),
            tokens_delta,
            all == views(keys@),
            b == spend_map(base@),
            c == spend_map(current@),
            lists(all, entries(current@)),
            forall|j: int|
                0 <= j < i && b.contains_key(#[trigger] all[j]) ==> i64::MIN <= b[all[j]].tokens
                    + c[all[j]].tokens <= i64::MAX,
        decreases keys.len() - i,
    {
        let ghost key = keys@[i as int]@;
        proof {
            assert(all[i as int] == key);
            assert(all.contains(key));
            assert(entries(current@).contains_key(key));
            assert(c.contains_key(key));
        }
        let p = find(base, &keys[i]);
        let q = find(current, &keys[i]);
        if p < base.len() {
            assert(b.contains_key(key));
            if base[p].1.tokens.checked_add(current[q].1.tokens).is_none() {
                assert(!token_sums_fit(b, c, tokens_delta));
                return false;
            }
        }
        i = i + 1;
    }
    proof {
        assert forall|k: Seq<char>| #[trigger]
            c.contains_key(k) && b.contains_key(k) implies i64::MIN <= b[k].tokens + c[k].tokens
            <= i64::MAX by {
            assert(entries(current@).contains_key(k));
            assert(all.contains(k));
            let j = choose|j: int| 0 <= j < all.len() && all[j] == k;
            assert(b.contains_key(all[j]));
        }
    }
    true
}

/// Merge the spend of the current run into that of an earlier one, bucket by bucket: tokens and
/// cost each add up (`delta`) or replace; a bucket that only the earlier run has is kept.
pub fn merge_spend(
    base: &Vec<(String, Spend)>,
    current: &Vec<(String, Spend)>,
    tokens_delta: bool,
    cost_delta: bool,
) -> (r: Vec<(String, SpendSum)>)
    requires
        token_sums_fit(spend_map(base@), spend_map(current@), tokens_delta),
    ensures
        sum_map(r@) == merged_spend(
            spend_map(base@),
            spend_map(current@),
            tokens_delta,
            cost_delta,
        ),
{
    let ghost b = spend_map(base@);
    let ghost c = spend_map(current@);
    let ghost want = merged_spend(b, c, tokens_delta, cost_delta);
    let base_keys = keys_of(base);
    let current_keys = keys_of(current);
    let mut names: Vec<String> = crate::text::owned_list(&base_keys);
    proof {
        assert(views(names@).len() == views(base_keys@).len());
        assert forall|k: int| 0 <= k < base_keys.len() implies (#[trigger] names@[k])@
            == base_keys@[k]@ by {
            assert(views(names@)[k] == views(base_keys@)[k]);
        }
    }
    let mut n: usize = 0;
    while n < current_keys.len()
        invariant
            0 <= n <= current_keys.len(),
            names.len() == base_keys.len() + n,
            forall|k: int| 0 <= k < base_keys.len() ==> (#[trigger] names@[k])@ == base_keys@[k]@,
            forall|k: int|
                base_keys.len() <= k < base_keys.len() + n ==> (#[trigger] names@[k])@
                    == current_keys@[k - base_keys.len()]@,
        decreases current_keys.len() - n,
    {
        names.push(owned(&current_keys[n]));
        n = n + 1;
    }
    let ghost all = views(names@);
    proof {
        assert(all =~= views(base_keys@) + views(current_keys@));
        assert forall|k: Seq<char>| #[trigger] all.contains(k) <==> want.contains_key(k) by {
            if views(base_keys@).contains(k) {
                let i = choose|i: int|
                    0 <= i < views(base_keys@).len() && views(base_keys@)[i] == k;
                assert(all[i] == k);
            }
            if views(current_keys@).contains(k) {
                let i = choose|i: int|
                    0 <= i < views(current_keys@).len() && views(current_keys@)[i] == k;
                assert(all[views(base_keys@).len() + i] == k);
            }
            assert(views(base_keys@).contains(k) <==> entries(base@).contains_key(k));
            assert(views(current_keys@).contains(k) <==> entries(current@).contains_key(k));
        }
    }
    let mut out: Vec<(String, SpendSum)> = Vec::new();
    let mut i: usize = 0;
    assert(all.take(0) =~= Seq::<Seq<char>>::empty());
    while i < names.len()
        invariant
            0 <= i <= names.len(),
            all == views(names@),
            b == spend_map(base@),
            c == spend_map(current@),
            want == merged_spend(b, c, tokens_delta, cost_delta),
            token_sums_fit(b, c, tokens_delta),
            forall|k: Seq<char>| #[trigger] all.contains(k) <==> want.contains_key(k),
            forall|k: Seq<char>| #[trigger]
                entries(out@).contains_key(k) <==> all.take(i as int).contains(k),
            forall|k: Seq<char>| #[trigger]
                entries(out@).contains_key(k) ==> entries(out@)[k].model() == want[k],
        decreases names.len() - i,
    {
        let ghost key = names@[i as int]@;
        let ghost before = entries(out@);
        proof {
            assert(all[i as int] == key);
            assert(all.contains(key));
            assert(all.take(i + 1) =~= all.take(i as int).push(key));
        }
        let p = find(base, &names[i]);
        let q = find(current, &names[i]);
        let old_spend = if p < base.len() {
            Some(&base[p].1)
        } else {
            None
        };
        let new_spend = if q < current.len() {
            Some(&current[q].1)
        } else {
            None
        };
        proof {
            assert(opt_spend(old_spend) == spend_at(b, key));
            assert(opt_spend(new_spend) == spend_at(c, key));
            if c.contains_key(key) && b.contains_key(key) && tokens_delta {
                assert(i64::MIN <= b[key].tokens + c[key].tokens <= i64::MAX);
            }
        }
        let sum = sum_bucket(old_spend, new_spend, tokens_delta, cost_delta);
        put(&mut out, &names[i], sum);
        proof {
            assert forall|k: Seq<char>| #[trigger]
                entries(out@).contains_key(k) <==> all.take(i + 1).contains(k) by {
                crate::scopes::lemma_push_contains(all.take(i as int), key, k);
                assert(before.contains_key(k) <==> all.take(i as int).contains(k));
            }
            assert forall|k: Seq<char>| #[trigger]
                entries(out@).contains_key(k) implies entries(out@)[k].model() == want[k] by {
                if k != key {
                    assert(before.contains_key(k));
                }
            }
        }
        i = i + 1;
    }
    proof {
        assert(all.take(names.len() as int) =~= all);
        let got = sum_map(out@);
        assert forall|k: Seq<char>| #[trigger] got.dom().contains(k) == want.dom().contains(k) by {
            assert(entries(out@).contains_key(k) <==> all.contains(k));
            assert(all.contains(k) <==> want.contains_key(k));
        }
        assert forall|k: Seq<char>| #[trigger] got.dom().contains(k) implies got[k]
            == want[k] by {
            assert(entries(out@).contains_key(k));
        }
        assert(got.dom() =~= want.dom());
        assert(got =~= want);
    }
    out
}

// ---------------------------------------------------------------------------------------------
// Writing
// ---------------------------------------------------------------------------------------------

pub open spec fn counts_tree(m: Map<Seq<char>, i64>) -> Tree {
    Tree::Obj(
        Map::new(|k: Seq<char>| m.contains_key(k), |k: Seq<char>| Tree::Num(int_text(m[k] as int))),
    )
}

pub open spec fn spend_tree(s: SpendModel) -> Tree {
    Tree::Obj(
        map![
            "tokens"@ => Tree::Num(int_text(s.tokens as int)),
            "cost_usd"@ => Tree::Num(s.cost),
        ],
    )
}

pub open spec fn spends_tree(m: Map<Seq<char>, SpendModel>) -> Tree {
    Tree::Obj(Map::new(|k: Seq<char>| m.contains_key(k), |k: Seq<char>| spend_tree(m[k])))
}

/// The members of a row's line, in the order in which they are written.
pub open spec fn row_members(r: CostModel) -> Seq<(Seq<char>, Tree)> {
    seq![
        ("session_id"@, Tree::Str(r.session)),
        ("project"@, Tree::Str(r.project)),
        ("tokens"@, Tree::Num(int_text(r.tokens as int))),
        ("cost_usd"@, Tree::Num(r.cost)),
        ("active_time_s"@, Tree::Num(r.active)),
        ("lines"@, Tree::Num(int_text(r.lines as int))),
        ("tokens_by_type"@, counts_tree(r.types)),
        ("by_model"@, spends_tree(r.models)),
        ("by_agent"@, spends_tree(r.agents)),
        ("ts"@, Tree::Str(r.ts)),
    ]
}

fn counts_value(m: &Counts) -> (r: Json)
    ensures
        r.view() == counts_tree(entries(m@)),
{
    let ghost src = entries(m@);
    let keys = keys_of(m);
    let ghost all = views(keys@);
    let mut out: Vec<(String, Json)> = Vec::new();
    let mut i: usize = 0;
    assert(all.take(0) =~= Seq::<Seq<char>>::empty());
    while i < keys.len()
        invariant
            0 <= i <= keys.len(),
            all == views(keys@),
            src == entries(m@),
            lists(all, src),
            forall|k: Seq<char>| #[trigger]
                members(out@).contains_key(k) <==> all.take(i as int).contains(k),
            forall|k: Seq<char>| #[trigger]
                members(out@).contains_key(k) ==> members(out@)[k] == Tree::Num(
                    int_text(src[k] as int),
                ),
        decreases keys.len() - i,
    {
        let ghost key = keys@[i as int]@;
        let ghost before = members(out@);
        proof {
            assert(all[i as int] == key);
            assert(all.contains(key));
            assert(all.take(i + 1) =~= all.take(i as int).push(key));
        }
        let at = find(m, &keys[i]);
        set_member(&mut out, &keys[i], Json::integer(m[at].1));
        proof {
            assert forall|k: Seq<char>| #[trigger]
                members(out@).contains_key(k) <==> all.take(i + 1).contains(k) by {
                crate::scopes::lemma_push_contains(all.take(i as int), key, k);
                assert(before.contains_key(k) <==> all.take(i as int).contains(k));
            }
            assert forall|k: Seq<char>| #[trigger]
                members(out@).contains_key(k) implies members(out@)[k] == Tree::Num(
                int_text(src[k] as int),
            ) by {
                if k != key {
                    assert(before.contains_key(k));
                }
            }
        }
        i = i + 1;
    }
    proof {
        assert(all.take(keys.len() as int) =~= all);
        let want = counts_tree(src)->Obj_0;
        assert forall|k: Seq<char>| #[trigger]
            members(out@).dom().contains(k) == want.dom().contains(k) by {
            assert(members(out@).contains_key(k) <==> all.contains(k));
            assert(all.contains(k) <==> src.contains_key(k));
        }
        assert forall|k: Seq<char>| #[trigger]
            members(out@).dom().contains(k) implies members(out@)[k] == want[k] by {
            assert(members(out@).contains_key(k));
        }
        assert(members(out@).dom() =~= want.dom());
        assert(members(out@) =~= want);
    }
    Json::Object(out)
}

fn spend_value(s: &Spend) -> (r: Json)
    ensures
        r.view() == spend_tree(s.model()),
{
    let mut m: Vec<(String, Json)> = Vec::new();
    set_member(&mut m, "tokens", Json::integer(s.tokens));
    set_member(&mut m, "cost_usd", Json::Number(s.cost_usd.clone()));
    assert(members(m@) =~= spend_tree(s.model())->Obj_0);
    Json::Object(m)
}

fn spends_value(m: &Vec<(String, Spend)>) -> (r: Json)
    ensures
        r.view() == spends_tree(spend_map(m@)),
{
    let ghost src = spend_map(m@);
    let keys = keys_of(m);
    let ghost all = views(keys@);
    let mut out: Vec<(String, Json)> = Vec::new();
    let mut i: usize = 0;
    assert(all.take(0) =~= Seq::<Seq<char>>::empty());
    while i < keys.len()
        invariant
            0 <= i <= keys.len(),
            all == views(keys@),
            src == spend_map(m@),
            lists(all, entries(m@)),
            forall|k: Seq<char>| #[trigger]
                members(out@).contains_key(k) <==> all.take(i as int).contains(k),
            forall|k: Seq<char>| #[trigger]
                members(out@).contains_key(k) ==> members(out@)[k] == spend_tree(src[k]),
        decreases keys.len() - i,
    {
        let ghost key = keys@[i as int]@;
        let ghost before = members(out@);
        proof {
            assert(all[i as int] == key);
            assert(all.contains(key));
            assert(all.take(i + 1) =~= all.take(i as int).push(key));
        }
        let at = find(m, &keys[i]);
        set_member(&mut out, &keys[i], spend_value(&m[at].1));
        proof {
            assert(src.contains_key(key));
            assert forall|k: Seq<char>| #[trigger]
                members(out@).contains_key(k) <==> all.take(i + 1).contains(k) by {
                crate::scopes::lemma_push_contains(all.take(i as int), key, k);
                assert(before.contains_key(k) <==> all.take(i as int).contains(k));
            }
            assert forall|k: Seq<char>| #[trigger]
                members(out@).contains_key(k) implies members(out@)[k] == spend_tree(src[k]) by {
                if k != key {
                    assert(before.contains_key(k));
                }
            }
        }
        i = i + 1;
    }
    proof {
        assert(all.take(keys.len() as int) =~= all);
        let want = spends_tree(src)->Obj_0;
        assert forall|k: Seq<char>| #[trigger]
            members(out@).dom().contains(k) == want.dom().contains(k) by {
            assert(members(out@).contains_key(k) <==> all.contains(k));
            assert(all.contains(k) <==> entries(m@).contains_key(k));
        }
        assert forall|k: Seq<char>| #[trigger]
            members(out@).dom().contains(k) implies members(out@)[k] == want[k] by {
            assert(members(out@).contains_key(k));
        }
        assert(members(out@).dom() =~= want.dom());
        assert(members(out@) =~= want);
    }
    Json::Object(out)
}

impl CostRow {
    /// The members of the row, in the order in which they are written.
    pub fn to_members(&self) -> (r: Vec<(String, Json)>)
        ensures
            member_list(r@) == row_members(self.model()),
    {
        let mut m: Vec<(String, Json)> = Vec::new();
        m.push((owned("session_id"), Json::text(&self.session_id)));
        m.push((owned("project"), Json::text(&self.project)));
        m.push((owned("tokens"), Json::integer(self.tokens)));
        m.push((owned("cost_usd"), Json::Number(self.cost_usd.clone())));
        m.push((owned("active_time_s"), Json::Number(self.active_time_s.clone())));
        m.push((owned("lines"), Json::integer(self.lines)));
        m.push((owned("tokens_by_type"), counts_value(&self.tokens_by_type)));
        m.push((owned("by_model"), spends_value(&self.by_model)));
        m.push((owned("by_agent"), spends_value(&self.by_agent)));
        m.push((owned("ts"), Json::text(&self.ts)));
        assert(member_list(m@) =~= row_members(self.model()));
        m
    }
}

/// The lines of rows.
pub open spec fn row_lines(rows: Seq<CostModel>) -> Seq<Seq<char>> {
    Seq::new(rows.len(), |i: int| object_text(row_members(rows[i])))
}

/// The text of a snapshot; none where it has no row, and there is then no file.
pub open spec fn snapshot_of(rows: Seq<CostModel>) -> Option<Seq<char>> {
    if rows.len() == 0 {
        None
    } else {
        Some(joined(row_lines(rows), "\n"@) + "\n"@)
    }
}

/// Write a snapshot. `None` is a snapshot without rows, which leaves no file.
pub fn snapshot_text(rows: &Vec<CostRow>) -> (r: Option<String>)
    ensures
        crate::text::opt_view(r) == snapshot_of(cost_models(rows@)),
        forall|i: int| 0 <= i < rows.len() ==> one_line(#[trigger] row_lines(cost_models(rows@))[i]),
{
    if rows.len() == 0 {
        return None;
    }
    let ghost all = cost_models(rows@);
    let mut lines: Vec<String> = Vec::new();
    let mut i: usize = 0;
    while i < rows.len()
        invariant
            0 <= i <= rows.len(),
            all == cost_models(rows@),
            lines.len() == i,
            forall|k: int|
                0 <= k < i ==> (#[trigger] lines@[k])@ == row_lines(all)[k] && one_line(
                    lines@[k]@,
                ),
        decreases rows.len() - i,
    {
        let m = rows[i].to_members();
        lines.push(write_object(&m));
        i = i + 1;
    }
    assert(views(lines@) =~= row_lines(all));
    assert forall|k: int| 0 <= k < rows.len() implies one_line(
        #[trigger] row_lines(cost_models(rows@))[k],
    ) by {
        assert(lines@[k]@ == row_lines(all)[k]);
    }
    Some(crate::text::cat2(&join(&lines, "\n"), "\n"))
}

proof fn lemma_merged_rows(
    stored: Seq<CostModel>,
    current: Seq<CostModel>,
    sessions: Seq<Seq<char>>,
    since: i64,
    session: Seq<char>,
)
    requires
        crate::sorted::ascending(sessions),
    ensures
        last_row(merged_rows(stored, current, sessions, since), session) == if sessions.contains(
            session,
        ) {
            merged_row(stored, current, session, since)
        } else {
            None
        },
    decreases sessions.len(),
{
    if sessions.len() > 0 {
        let front = sessions.drop_last();
        lemma_merged_rows(stored, current, front, since, session);
        lemma_merged_session(stored, current, sessions.last(), since);
        if front.contains(session) {
            let k = front.index_of(session);
            assert(sessions[k] == session);
            assert(crate::order::before(sessions[k], sessions[sessions.len() - 1]));
            crate::order::lemma_irreflexive(session);
        }
        if sessions.contains(session) && !front.contains(session) {
            let k = sessions.index_of(session);
            if k < front.len() {
                assert(front[k] == session);
            }
        }
        if session == sessions.last() {
            assert(sessions[sessions.len() - 1] == session);
        }
        let rest = merged_rows(stored, current, front, since);
        if let Some(r) = merged_row(stored, current, sessions.last(), since) {
            assert(rest.push(r).drop_last() =~= rest);
        }
    }
}

proof fn lemma_last_row_session(rows: Seq<CostModel>, session: Seq<char>)
    ensures
        last_row(rows, session) matches Some(r) ==> r.session == session,
        last_row(rows, session) is Some ==> sessions_of(rows).contains(session),
    decreases rows.len(),
{
    if rows.len() > 0 {
        lemma_last_row_session(rows.drop_last(), session);
        if rows.last().session == session {
            assert(sessions_of(rows)[rows.len() - 1] == session);
        } else if last_row(rows, session) is Some {
            let k = sessions_of(rows.drop_last()).index_of(session);
            assert(sessions_of(rows)[k] == session);
        }
    }
}

proof fn lemma_merged_session(
    stored: Seq<CostModel>,
    current: Seq<CostModel>,
    session: Seq<char>,
    since: i64,
)
    ensures
        merged_row(stored, current, session, since) matches Some(r) ==> r.session == session,
{
    lemma_last_row_session(stored, session);
    lemma_last_row_session(current, session);
}

/// Merging loses nothing that is to be kept: of every session the merged snapshot has the current
/// row, or else the stored one, and none exactly where that row is older than the bound.
pub proof fn law_a_merge_keeps_every_session(
    stored: Seq<CostModel>,
    current: Seq<CostModel>,
    since: i64,
    session: Seq<char>,
)
    ensures
        last_row(merged_snapshot(stored, current, since), session) == merged_row(
            stored,
            current,
            session,
            since,
        ),
{
    let all = sessions_of(stored) + sessions_of(current);
    crate::sorted::lemma_sorted_set(all);
    let sessions = crate::sorted::sorted_set(all);
    lemma_merged_rows(stored, current, sessions, since, session);
    lemma_last_row_session(stored, session);
    lemma_last_row_session(current, session);
    if sessions_of(stored).contains(session) {
        let k = sessions_of(stored).index_of(session);
        assert(all[k] == session);
        assert(all.contains(session));
    }
    if sessions_of(current).contains(session) {
        let k = sessions_of(current).index_of(session);
        assert(all[sessions_of(stored).len() + k] == session);
        assert(all.contains(session));
    }
    assert(all.contains(session) <==> sessions.contains(session));
}

} // verus!
