//! What a reader and a machine see of a report: everything in it, each thing at its place.
use vstd::prelude::*;
use crate::claude_settings::slot;
use crate::cost::row_members;
use crate::decimal::{int_text, int_value, law_print_then_read, law_print_then_read_signed};
use crate::json::{member_map, Tree};
use crate::pii::redaction;
use crate::query::{
    filter_of, filters_of, group_tree, kind_line, kind_lines, kind_tree, measure_tree, query_of,
    report_tree, section_tree,
};
use crate::registry::{find_kind, KindModel, RegistryModel};
use crate::render::{
    axes_text, bar_text, cells_of, char_columns, clipped, column_headers, column_width,
    column_widths, columns, comma_digits, cost_markdown, cost_text, filled, fitting, group_lines,
    grouped_digits, key_columns, key_width, label, markdown_table_of, md_cell, md_cells, md_char,
    md_row, md_row_cells, md_rows, md_rules, note_of, on_one_line, padded_left, repeated,
    report_markdown, report_text, row_cells, scope_text, section_markdown, section_text,
    sections_markdown, sections_text, text_table_of, GUTTER,
};
use crate::report::{gap_text, GroupModel, MeasureModel, ProjectScope, ReportModel, SectionModel};
use crate::text::joined;
use crate::text_laws::law_halves_stand_around_the_first;

verus! {

broadcast use vstd::map::group_map_axioms;

// ---------------------------------------------------------------------------------------------
// Questions
// ---------------------------------------------------------------------------------------------

/// A filter is accepted exactly where it has a field, which is one of the Kind's, before its first
/// equals sign. It asks for what stands behind, as it is stored: hashed where the field is redacted.
pub proof fn law_a_filter_asks_for_the_stored_value(
    field: Seq<char>,
    value: Seq<char>,
    kind: Seq<char>,
    spec: KindModel,
)
    requires
        !field.contains('='),
    ensures
        ({
            let r = filter_of(field + seq!['='] + value, kind, spec);
            &&& r is Ok <==> field.len() > 0 && spec.fields.contains(field)
            &&& r matches Ok(p) ==> p.0 == field && p.1 == if spec.redact.contains(field) {
                redaction(value)
            } else {
                value
            }
        }),
        filter_of(field, kind, spec) is Err,
{
    law_halves_stand_around_the_first(field + seq!['='] + value, '=', field, value);
    law_halves_stand_around_the_first(field, '=', field, value);
}

/// The filters of two lists are those of the first and then those of the second; the first that is
/// refused refuses them all.
pub proof fn law_filters_add_up(
    a: Seq<Seq<char>>,
    b: Seq<Seq<char>>,
    one: Seq<char>,
    kind: Seq<char>,
    spec: KindModel,
)
    ensures
        match (filters_of(a, kind, spec), filters_of(b, kind, spec)) {
            (Ok(x), Ok(y)) => filters_of(a + b, kind, spec) == Ok::<
                Seq<(Seq<char>, Seq<char>)>,
                Seq<char>,
            >(x + y),
            (Err(e), _) => filters_of(a + b, kind, spec) == Err::<
                Seq<(Seq<char>, Seq<char>)>,
                Seq<char>,
            >(e),
            (Ok(_), Err(e)) => filters_of(a + b, kind, spec) == Err::<
                Seq<(Seq<char>, Seq<char>)>,
                Seq<char>,
            >(e),
        },
        filters_of(seq![one], kind, spec) == match filter_of(one, kind, spec) {
            Ok(p) => Ok::<Seq<(Seq<char>, Seq<char>)>, Seq<char>>(seq![p]),
            Err(e) => Err(e),
        },
    decreases b.len(),
{
    let s = seq![one];
    assert(s.drop_last() =~= Seq::<Seq<char>>::empty());
    assert(filters_of(s.drop_last(), kind, spec) == Ok::<
        Seq<(Seq<char>, Seq<char>)>,
        Seq<char>,
    >(Seq::empty()));
    assert(s.last() == one);
    if let Ok(p) = filter_of(one, kind, spec) {
        assert(Seq::<(Seq<char>, Seq<char>)>::empty().push(p) =~= seq![p]);
    }
    if b.len() == 0 {
        assert(a + b =~= a);
        if let Ok(x) = filters_of(a, kind, spec) {
            assert(x + Seq::<(Seq<char>, Seq<char>)>::empty() =~= x);
        }
    } else {
        law_filters_add_up(a, b.drop_last(), one, kind, spec);
        assert((a + b).drop_last() =~= a + b.drop_last());
        assert((a + b).last() == b.last());
        if let Ok(x) = filters_of(a, kind, spec) {
            if let Ok(y) = filters_of(b.drop_last(), kind, spec) {
                if let Ok(p) = filter_of(b.last(), kind, spec) {
                    assert((x + y).push(p) =~= x + y.push(p));
                }
            }
        }
    }
}

/// A question is accepted exactly where the Kind that it names is known, and what it groups, ranks
/// and filters by is that Kind's; one that names no Kind may do none of these.
pub proof fn law_a_question_is_accepted_where_its_kind_answers_it(
    reg: RegistryModel,
    kind: Option<Seq<char>>,
    group_by: Option<Seq<char>>,
    sort_by: Option<Seq<char>>,
    filter: Seq<Seq<char>>,
)
    ensures
        query_of(reg, kind, group_by, sort_by, filter) is Ok <==> match kind {
            None => group_by is None && sort_by is None && filter.len() == 0,
            Some(k) => match find_kind(reg.kinds, k) {
                None => false,
                Some(spec) => {
                    &&& group_by matches Some(d) ==> spec.fields.contains(d)
                    &&& sort_by matches Some(m) ==> spec.measures.contains(m)
                    &&& filters_of(filter, k, spec) is Ok
                },
            },
        },
        query_of(reg, kind, group_by, sort_by, filter) matches Ok(v) ==> if filter.len() == 0 {
            v.len() == 0
        } else {
            kind matches Some(k) && find_kind(reg.kinds, k) matches Some(spec) && filters_of(
                filter,
                k,
                spec,
            ) == Ok::<Seq<(Seq<char>, Seq<char>)>, Seq<char>>(v)
        },
{
}

// ---------------------------------------------------------------------------------------------
// Values for machines
// ---------------------------------------------------------------------------------------------

/// A list of texts as a machine reads it has each of them, in order.
pub open spec fn says_texts(t: Option<Tree>, v: Seq<Seq<char>>) -> bool {
    t matches Some(Tree::Arr(a)) && a.len() == v.len() && forall|i: int|
        0 <= i < v.len() ==> #[trigger] a[i] == Tree::Str(v[i])
}

/// A text that may be missing, as a machine reads it: null where it is.
pub open spec fn says_text(t: Option<Tree>, o: Option<Seq<char>>) -> bool {
    match o {
        Some(s) => t == Some(Tree::Str(s)),
        None => t == Some(Tree::Null),
    }
}

/// A Kind is told with all that it declares.
pub proof fn law_a_kind_is_told_whole(k: KindModel)
    ensures
        kind_tree(k) matches Tree::Obj(m) && {
            &&& slot(m, "name"@) == Some(Tree::Str(k.name))
            &&& slot(m, "group_key"@) == Some(Tree::Str(k.group_key))
            &&& says_texts(slot(m, "fields"@), k.fields)
            &&& says_texts(slot(m, "redact"@), k.redact)
            &&& says_texts(slot(m, "measures"@), k.measures)
            &&& slot(m, "receiver_sourced"@) == Some(Tree::Bool(k.receiver_sourced))
        },
{
    reveal_strlit("name");
    reveal_strlit("fields");
    reveal_strlit("group_key");
    reveal_strlit("redact");
    reveal_strlit("measures");
    reveal_strlit("receiver_sourced");
    assert("name"@.len() == 4 && "fields"@.len() == 6 && "group_key"@.len() == 9 && "measures"@.len()
        == 8 && "receiver_sourced"@.len() == 16 && "redact"@.len() == 6);
    assert("fields"@[0] != "redact"@[0]);
}

/// A measure is told by its name and its sum, which is null where no number stands for it.
pub proof fn law_a_measure_is_told_by_name_and_sum(m: MeasureModel)
    ensures
        measure_tree(m) matches Tree::Obj(t) && {
            &&& slot(t, "name"@) == Some(Tree::Str(m.name))
            &&& m.value matches Some(n) ==> slot(t, "sum"@) == Some(Tree::Num(n))
            &&& m.value is None ==> slot(t, "sum"@) == Some(Tree::Null)
        },
{
    reveal_strlit("name");
    reveal_strlit("sum");
    assert("name"@.len() == 4 && "sum"@.len() == 3);
}

/// A group is told by its key, null where it has none, by how many records it has, and by each of
/// its sums, in order.
pub proof fn law_a_group_is_told_whole(g: GroupModel)
    ensures
        group_tree(g) matches Tree::Obj(m) && {
            &&& says_text(slot(m, "key"@), g.key)
            &&& slot(m, "count"@) matches Some(Tree::Num(n)) && int_value(n) == Some(g.count as int)
            &&& slot(m, "sums"@) matches Some(Tree::Arr(a)) && a.len() == g.sums.len() && forall|
                i: int,
            |
                0 <= i < a.len() ==> #[trigger] a[i] == measure_tree(g.sums[i])
        },
{
    reveal_strlit("key");
    reveal_strlit("count");
    reveal_strlit("sums");
    assert("key"@.len() == 3 && "count"@.len() == 5 && "sums"@.len() == 4);
    law_print_then_read_signed(g.count as int);
}

/// A section is told by its Kind, what it is grouped and ranked by, how the project applies, how far
/// back it reaches, and each of its groups, in order.
pub proof fn law_a_section_is_told_whole(s: SectionModel)
    ensures
        section_tree(s) matches Tree::Obj(m) && {
            &&& slot(m, "kind"@) == Some(Tree::Str(s.kind))
            &&& slot(m, "group_by"@) == Some(Tree::Str(s.group_by))
            &&& says_text(slot(m, "sort_by"@), s.sort_by)
            &&& says_text(slot(m, "retained_since"@), s.retained)
            &&& slot(m, "project_scope"@) == Some(
                Tree::Str(
                    match s.scope {
                        ProjectScope::Unrestricted => "unrestricted"@,
                        ProjectScope::Applied => "applied"@,
                        ProjectScope::Unsupported => "unsupported"@,
                    },
                ),
            )
            &&& slot(m, "groups"@) matches Some(Tree::Arr(a)) && a.len() == s.groups.len() && forall|
                i: int,
            |
                0 <= i < a.len() ==> #[trigger] a[i] == group_tree(s.groups[i])
        },
{
    reveal_strlit("kind");
    reveal_strlit("group_by");
    reveal_strlit("sort_by");
    reveal_strlit("project_scope");
    reveal_strlit("retained_since");
    reveal_strlit("groups");
    assert("kind"@.len() == 4 && "group_by"@.len() == 8 && "sort_by"@.len() == 7
        && "project_scope"@.len() == 13 && "retained_since"@.len() == 14 && "groups"@.len() == 6);
}

/// A report is told by its window, its project, each of its restrictions, its limit, each of its
/// sections, each row of its snapshot, and the Kinds that it could not read.
pub proof fn law_a_report_is_told_whole(r: ReportModel)
    ensures
        report_tree(r) matches Tree::Obj(m) && {
            &&& slot(m, "window"@) == Some(Tree::Str(r.window))
            &&& says_text(slot(m, "project"@), r.project)
            &&& slot(m, "top_n"@) matches Some(Tree::Num(n)) && int_value(n) == Some(r.top_n as int)
            &&& slot(m, "filters"@) matches Some(Tree::Arr(a)) && a.len() == r.filters.len()
                && forall|i: int|
                0 <= i < a.len() ==> (#[trigger] a[i] matches Tree::Obj(f) && slot(f, "field"@)
                    == Some(Tree::Str(r.filters[i].0)) && slot(f, "value"@) == Some(
                    Tree::Str(r.filters[i].1),
                ))
            &&& slot(m, "kinds"@) matches Some(Tree::Arr(a)) && a.len() == r.kinds.len() && forall|
                i: int,
            |
                0 <= i < a.len() ==> #[trigger] a[i] == section_tree(r.kinds[i])
            &&& slot(m, "cost"@) matches Some(Tree::Arr(a)) && a.len() == r.cost.len() && forall|
                i: int,
            |
                0 <= i < a.len() ==> #[trigger] a[i] == Tree::Obj(
                    member_map(row_members(r.cost[i])),
                )
            &&& r.unreadable is None ==> slot(m, "unreadable_kinds"@) == Some(Tree::Null)
            &&& r.unreadable matches Some(names) ==> slot(m, "unreadable_kinds"@) matches Some(
                Tree::Obj(u),
            ) && says_texts(slot(u, "names"@), names)
        },
{
    reveal_strlit("window");
    reveal_strlit("project");
    reveal_strlit("filters");
    reveal_strlit("top_n");
    reveal_strlit("kinds");
    reveal_strlit("cost");
    reveal_strlit("unreadable_kinds");
    reveal_strlit("field");
    reveal_strlit("value");
    assert("window"@.len() == 6 && "project"@.len() == 7 && "filters"@.len() == 7 && "top_n"@.len()
        == 5 && "kinds"@.len() == 5 && "cost"@.len() == 4 && "unreadable_kinds"@.len() == 16);
    assert("project"@[0] != "filters"@[0]);
    assert("top_n"@[0] != "kinds"@[0]);
    assert("field"@[0] != "value"@[0]);
    law_print_then_read(r.top_n);
}

/// The lines of two lists of Kinds are those of the first and then those of the second; one Kind's
/// line has its name, its group key and all its fields.
pub proof fn law_kind_lines_add_up(a: Seq<KindModel>, b: Seq<KindModel>, k: KindModel)
    ensures
        kind_lines(a + b) == kind_lines(a) + kind_lines(b),
        kind_lines(seq![k]) == filled(k.name, 14) + " group_key="@ + filled(k.group_key, 12)
            + " fields=["@ + joined(k.fields, ", "@) + "]\n"@,
    decreases b.len(),
{
    let s = seq![k];
    assert(s.drop_last() =~= Seq::<KindModel>::empty());
    assert(kind_lines(s.drop_last()) =~= Seq::<char>::empty());
    assert(s.last() == k);
    assert(kind_lines(s) =~= kind_line(k));
    if b.len() == 0 {
        assert(a + b =~= a);
        assert(kind_lines(a) + kind_lines(b) =~= kind_lines(a));
    } else {
        law_kind_lines_add_up(a, b.drop_last(), k);
        assert((a + b).drop_last() =~= a + b.drop_last());
        assert((a + b).last() == b.last());
        assert(kind_lines(a + b) =~= kind_lines(a) + kind_lines(b));
    }
}

// ---------------------------------------------------------------------------------------------
// Cells
// ---------------------------------------------------------------------------------------------

proof fn lemma_fitting(s: Seq<char>, budget: int, n: int)
    requires
        0 <= n <= s.len(),
        char_columns(s, n) <= budget,
    ensures
        n <= fitting(s, budget, n) <= s.len(),
        char_columns(s, fitting(s, budget, n)) <= budget,
        fitting(s, budget, n) < s.len() ==> char_columns(s, fitting(s, budget, n) + 1) > budget,
    decreases s.len() - n,
{
    if n < s.len() && char_columns(s, n + 1) <= budget {
        lemma_fitting(s, budget, n + 1);
    }
}

/// A text that fits is shown whole; of one that does not, as much as fits before the ellipsis: one
/// character more would not.
pub proof fn law_a_text_is_clipped_no_more_than_it_must(s: Seq<char>, width: int)
    requires
        width > 0,
    ensures
        columns(s) <= width ==> clipped(s, width) == s,
        columns(s) > width ==> {
            let kept = clipped(s, width).len() - 1;
            &&& 0 <= kept <= s.len()
            &&& clipped(s, width) == s.take(kept).push('…')
            &&& char_columns(s, kept) <= width - 1
            &&& kept < s.len() ==> char_columns(s, kept + 1) > width - 1
        },
{
    lemma_fitting(s, width - 1, 0);
}

/// A text on one line has a space for each control character and every other character as it is.
pub proof fn law_a_line_keeps_all_but_control(s: Seq<char>)
    ensures
        on_one_line(s).len() == s.len(),
        forall|i: int|
            0 <= i < s.len() ==> #[trigger] on_one_line(s)[i] == if (s[i] as u32) < 32 || 127
                <= s[i] as u32 <= 159 {
                ' '
            } else {
                s[i]
            },
{
}

/// The cell of two texts is the cell of the first and then that of the second; a backslash and a
/// pipe each stand behind a backslash, a control character is a space, and any other is itself.
pub proof fn law_markdown_cells_add_up(a: Seq<char>, b: Seq<char>, c: char)
    ensures
        md_cell(a + b) == md_cell(a) + md_cell(b),
        md_cell(seq!['|']) == seq!['\\', '|'],
        md_cell(seq!['\\']) == seq!['\\', '\\'],
        c != '|' && c != '\\' ==> md_cell(seq![c]) == if (c as u32) < 32 || 127 <= c as u32 <= 159 {
            seq![' ']
        } else {
            seq![c]
        },
    decreases b.len(),
{
    lemma_md_one('|');
    lemma_md_one('\\');
    lemma_md_one(c);
    if b.len() == 0 {
        assert(a + b =~= a);
        assert(md_cell(a) + md_cell(b) =~= md_cell(a));
    } else {
        law_markdown_cells_add_up(a, b.drop_last(), c);
        assert((a + b).drop_last() =~= a + b.drop_last());
        assert((a + b).last() == b.last());
        assert(md_cell(a + b) =~= md_cell(a) + md_cell(b));
    }
}

proof fn lemma_md_one(c: char)
    ensures
        md_cell(seq![c]) == md_char(c),
{
    let s = seq![c];
    assert(s.drop_last() =~= Seq::<char>::empty());
    assert(md_cell(s.drop_last()) =~= Seq::<char>::empty());
    assert(s.last() == c);
    assert(md_cell(s) =~= md_char(c));
}

/// Where a digit stands when the digits are grouped, by its position.
pub open spec fn grouped_at(len: int, i: int) -> int {
    i + (len - 1) / 3 - (len - 1 - i) / 3
}

proof fn lemma_commas(s: Seq<char>, n: int)
    requires
        0 <= n <= s.len(),
    ensures
        n > 0 ==> comma_digits(s, n).len() == grouped_at(s.len() as int, n - 1) + 1,
        n == 0 ==> comma_digits(s, n).len() == 0,
        forall|i: int|
            0 <= i < n ==> 0 <= #[trigger] grouped_at(s.len() as int, i) < comma_digits(s, n).len()
                && comma_digits(s, n)[grouped_at(s.len() as int, i)] == s[i],
        forall|i: int|
            0 < i < n && (s.len() - i) % 3 == 0 ==> comma_digits(s, n)[#[trigger] grouped_at(
                s.len() as int,
                i,
            ) - 1] == ',',
    decreases n,
{
    if n > 0 {
        lemma_commas(s, n - 1);
        let len = s.len() as int;
        let rest = comma_digits(s, n - 1);
        let all = comma_digits(s, n);
        if n > 1 {
            assert(rest.len() == grouped_at(len, n - 2) + 1);
            if (len - (n - 1)) % 3 == 0 {
                assert((len - 1 - (n - 2)) / 3 == (len - 1 - (n - 1)) / 3 + 1);
                assert(all =~= rest.push(',').push(s[n - 1]));
                assert(grouped_at(len, n - 1) == grouped_at(len, n - 2) + 2);
            } else {
                assert((len - 1 - (n - 2)) / 3 == (len - 1 - (n - 1)) / 3);
                assert(grouped_at(len, n - 1) == grouped_at(len, n - 2) + 1);
            }
        } else {
            assert(grouped_at(len, 0) == 0);
        }
        assert(all[grouped_at(len, n - 1)] == s[n - 1]);
        assert forall|i: int| 0 <= i < n implies 0 <= #[trigger] grouped_at(len, i) < all.len()
            && all[grouped_at(len, i)] == s[i] by {
            if i < n - 1 {
                assert(rest[grouped_at(len, i)] == s[i]);
            }
        }
        assert forall|i: int| 0 < i < n && (len - i) % 3 == 0 implies all[#[trigger] grouped_at(
            len,
            i,
        ) - 1] == ',' by {
            if i < n - 1 {
                assert(rest[grouped_at(len, i) - 1] == ',');
                assert(grouped_at(len, i) < rest.len());
                assert(grouped_at(len, i) - 1 >= 0) by {
                    assert((len - 1) / 3 >= (len - 1 - i) / 3);
                }
            } else {
                assert(all[all.len() - 2] == ',');
            }
        }
    }
}

/// The digits of a whole number are grouped by threes from the right: each stands where the commas
/// before it leave it, a comma before each third but the first digit, and nothing else is there.
pub proof fn law_digits_are_grouped_by_threes(s: Seq<char>)
    requires
        s.len() > 0,
        s[0] != '-',
        !s.contains('.'),
    ensures
        grouped_digits(s).len() == s.len() + (s.len() - 1) / 3,
        forall|i: int|
            0 <= i < s.len() ==> grouped_digits(s)[#[trigger] grouped_at(s.len() as int, i)]
                == s[i],
        forall|i: int|
            0 < i < s.len() && (s.len() - i) % 3 == 0 ==> grouped_digits(s)[#[trigger] grouped_at(
                s.len() as int,
                i,
            ) - 1] == ',',
{
    reveal_strlit("-");
    assert(!"-"@.is_prefix_of(s)) by {
        if "-"@.is_prefix_of(s) {
            assert(s.subrange(0, 1)[0] == s[0]);
            assert("-"@[0] == '-');
        }
    }
    law_halves_stand_around_the_first(s, '.', s, s);
    let r = comma_digits(s, s.len() as int);
    assert(Seq::<char>::empty() + r =~= r);
    lemma_commas(s, s.len() as int);
}

/// A sign stays in front of the grouped digits, and a fraction behind them as it is.
pub proof fn law_sign_and_fraction_stay(whole: Seq<char>, fraction: Seq<char>)
    requires
        whole.len() > 0,
        whole[0] != '-',
        !whole.contains('.'),
    ensures
        grouped_digits(whole + seq!['.'] + fraction) == grouped_digits(whole) + seq!['.'] + fraction,
        grouped_digits(seq!['-'] + whole) == seq!['-'] + grouped_digits(whole),
        grouped_digits(seq!['-'] + whole + seq!['.'] + fraction) == seq!['-'] + grouped_digits(whole)
            + seq!['.'] + fraction,
{
    reveal_strlit("-");
    let minus = "-"@;
    assert(minus =~= seq!['-']);
    let r = comma_digits(whole, whole.len() as int);
    assert(!minus.is_prefix_of(whole)) by {
        if minus.is_prefix_of(whole) {
            assert(whole.subrange(0, 1)[0] == whole[0]);
        }
    }
    law_halves_stand_around_the_first(whole, '.', whole, whole);
    assert(grouped_digits(whole) =~= r);
    let s = whole + seq!['.'] + fraction;
    assert(!minus.is_prefix_of(s)) by {
        if minus.is_prefix_of(s) {
            assert(s.subrange(0, 1)[0] == s[0]);
            assert(s[0] == whole[0]);
        }
    }
    law_halves_stand_around_the_first(s, '.', whole, fraction);
    assert(grouped_digits(s) =~= r + seq!['.'] + fraction);
    let t = seq!['-'] + whole;
    assert(minus.is_prefix_of(t)) by {
        assert(t.subrange(0, 1) =~= minus);
    }
    assert(t.skip(1) =~= whole);
    assert(grouped_digits(t) =~= seq!['-'] + r);
    let u = seq!['-'] + whole + seq!['.'] + fraction;
    assert(minus.is_prefix_of(u)) by {
        assert(u.subrange(0, 1) =~= minus);
    }
    assert(u.skip(1) =~= s);
    assert(grouped_digits(u) =~= seq!['-'] + r + seq!['.'] + fraction);
}

/// A key is shown as it is; an empty one is named, and a missing one is a dash.
pub proof fn law_a_key_is_shown_as_it_is(k: Seq<char>)
    ensures
        k.len() > 0 ==> label(Some(k)) == k,
        label(Some(Seq::empty())) == "(empty)"@,
        label(None) == "—"@,
{
}

/// A group's cells are its count and then the sum of each of its measures, in order; the headers
/// name them in that order.
pub proof fn law_a_group_has_a_cell_for_each_measure(
    g: GroupModel,
    more: Seq<GroupModel>,
    count: Seq<char>,
    i: int,
)
    requires
        0 <= i < g.sums.len(),
    ensures
        cells_of(g).len() == g.sums.len() + 1,
        cells_of(g)[0] == grouped_digits(int_text(g.count as int)),
        cells_of(g)[i + 1] == grouped_digits(g.sums[i].plain),
        column_headers(count, seq![g] + more).len() == g.sums.len() + 1,
        column_headers(count, seq![g] + more)[0] == count,
        column_headers(count, seq![g] + more)[i + 1] == g.sums[i].name,
{
    assert((seq![g] + more)[0] == g);
}

/// The key column is as wide as its header and as every key, up to the longest shown, and no wider
/// than the widest of these.
pub proof fn law_the_key_column_fits_every_key(dimension: Seq<char>, groups: Seq<GroupModel>)
    ensures
        key_width(dimension, groups) >= columns(dimension),
        forall|i: int|
            0 <= i < groups.len() ==> key_width(dimension, groups) >= key_columns(
                #[trigger] groups[i],
            ),
        key_width(dimension, groups) == columns(dimension) || exists|i: int|
            0 <= i < groups.len() && key_width(dimension, groups) == key_columns(
                #[trigger] groups[i],
            ),
        forall|i: int|
            0 <= i < groups.len() && columns(label((#[trigger] groups[i]).key)) <= 34
                ==> key_columns(groups[i]) == columns(label(groups[i].key)),
        forall|i: int| 0 <= i < groups.len() ==> key_columns(#[trigger] groups[i]) <= 34,
    decreases groups.len(),
{
    if groups.len() > 0 {
        let init = groups.drop_last();
        law_the_key_column_fits_every_key(dimension, init);
        let n = groups.len() - 1;
        assert(groups[n] == groups.last());
        assert forall|i: int| 0 <= i < groups.len() implies key_width(dimension, groups)
            >= key_columns(#[trigger] groups[i]) by {
            if i < n {
                assert(init[i] == groups[i]);
            }
        }
        if key_width(dimension, groups) != columns(dimension) {
            if key_width(dimension, groups) == key_columns(groups.last()) {
                assert(key_width(dimension, groups) == key_columns(groups[n]));
            } else {
                let i = choose|i: int|
                    0 <= i < init.len() && key_width(dimension, init) == key_columns(
                        #[trigger] init[i],
                    );
                assert(groups[i] == init[i]);
            }
        }
    }
}

/// A numeric column is as wide as its header and as every cell in it, and no wider than the widest of
/// these.
pub proof fn law_a_column_fits_every_cell(
    header: Seq<char>,
    groups: Seq<GroupModel>,
    column: int,
)
    requires
        column >= 0,
    ensures
        column_width(header, groups, column) >= columns(header),
        forall|i: int|
            0 <= i < groups.len() && column < cells_of(#[trigger] groups[i]).len() ==> column_width(
                header,
                groups,
                column,
            ) >= columns(cells_of(groups[i])[column]),
        column_width(header, groups, column) == columns(header) || exists|i: int|
            0 <= i < groups.len() && column < cells_of(#[trigger] groups[i]).len() && column_width(
                header,
                groups,
                column,
            ) == columns(cells_of(groups[i])[column]),
    decreases groups.len(),
{
    if groups.len() > 0 {
        let init = groups.drop_last();
        law_a_column_fits_every_cell(header, init, column);
        let n = groups.len() - 1;
        assert(groups[n] == groups.last());
        let w = column_width(header, groups, column);
        assert forall|i: int|
            0 <= i < groups.len() && column < cells_of(#[trigger] groups[i]).len() implies w
            >= columns(cells_of(groups[i])[column]) by {
            if i < n {
                assert(init[i] == groups[i]);
            }
        }
        if w != columns(header) {
            if column < cells_of(groups.last()).len() && w == columns(
                cells_of(groups.last())[column],
            ) {
                assert(column < cells_of(groups[n]).len());
            } else {
                let i = choose|i: int|
                    0 <= i < init.len() && column < cells_of(#[trigger] init[i]).len()
                        && column_width(header, init, column) == columns(
                        cells_of(init[i])[column],
                    );
                assert(groups[i] == init[i]);
            }
        }
    }
}

/// Every column has its own width, and every cell of a Markdown row is escaped for itself.
pub proof fn law_each_column_is_measured_for_itself(
    heads: Seq<Seq<char>>,
    groups: Seq<GroupModel>,
    cells: Seq<Seq<char>>,
    i: int,
)
    ensures
        column_widths(heads, groups).len() == heads.len(),
        0 <= i < heads.len() ==> column_widths(heads, groups)[i] == column_width(
            heads[i],
            groups,
            i,
        ),
        md_cells(cells).len() == cells.len(),
        0 <= i < cells.len() ==> md_cells(cells)[i] == md_cell(cells[i]),
{
}

/// A row with one cell more has that cell at its end, behind a gutter and on the right of its column.
pub proof fn law_a_row_goes_on_with_its_next_cell(
    cells: Seq<Seq<char>>,
    widths: Seq<nat>,
    cell: Seq<char>,
    width: nat,
)
    requires
        cells.len() == widths.len(),
    ensures
        row_cells(cells.push(cell), widths.push(width), cells.len() as int + 1) == row_cells(
            cells,
            widths,
            cells.len() as int,
        ) + seq![' ', ' '] + padded_left(cell, width as int),
        row_cells(cells, widths, 0) == Seq::<char>::empty(),
{
    lemma_row_cells(cells.push(cell), widths.push(width), cells, widths, cells.len() as int);
    assert(repeated(' ', GUTTER as int) =~= seq![' ', ' ']);
}

proof fn lemma_row_cells(
    a: Seq<Seq<char>>,
    v: Seq<nat>,
    b: Seq<Seq<char>>,
    w: Seq<nat>,
    n: int,
)
    requires
        forall|i: int| 0 <= i < n ==> #[trigger] a[i] == b[i],
        forall|i: int| 0 <= i < n ==> #[trigger] v[i] == w[i],
    ensures
        row_cells(a, v, n) == row_cells(b, w, n),
    decreases n,
{
    if n > 0 {
        lemma_row_cells(a, v, b, w, n - 1);
        assert(a[n - 1] == b[n - 1]);
        assert(v[n - 1] == w[n - 1]);
    }
}

/// A bar has eighteen cells: the first are filled, as many as are asked for, and the rest are not.
pub proof fn law_a_bar_is_filled_from_the_left(share: nat)
    ensures
        bar_text(share).len() == 18,
        forall|i: int|
            0 <= i < 18 ==> #[trigger] bar_text(share)[i] == if i < share {
                '█'
            } else {
                '░'
            },
{
}

/// The lines of two lists of groups are those of the first and then those of the second, and one
/// group's line has its bar, its key and its cells.
pub proof fn law_group_lines_add_up(
    a: Seq<GroupModel>,
    b: Seq<GroupModel>,
    g: GroupModel,
    kw: nat,
    widths: Seq<nat>,
)
    requires
        cells_of(g).len() == widths.len(),
    ensures
        group_lines(a + b, kw, widths) == group_lines(a, kw, widths) + group_lines(b, kw, widths),
        group_lines(seq![g], kw, widths) == seq![' ', ' '] + bar_text(g.share) + seq![' ', ' ']
            + clipped(label(g.key), 34) + repeated(' ', kw - columns(clipped(label(g.key), 34)))
            + row_cells(cells_of(g), widths, widths.len() as int) + seq!['\n'],
    decreases b.len(),
{
    let s = seq![g];
    assert(s.drop_last() =~= Seq::<GroupModel>::empty());
    assert(group_lines(s.drop_last(), kw, widths) =~= Seq::<char>::empty());
    assert(s.last() == g);
    assert(repeated(' ', GUTTER as int) =~= seq![' ', ' ']);
    assert(group_lines(s, kw, widths) =~= seq![' ', ' '] + bar_text(g.share) + seq![' ', ' ']
        + clipped(label(g.key), 34) + repeated(' ', kw - columns(clipped(label(g.key), 34)))
        + row_cells(cells_of(g), widths, widths.len() as int) + seq!['\n']);
    if b.len() == 0 {
        assert(a + b =~= a);
        assert(group_lines(a, kw, widths) + group_lines(b, kw, widths) =~= group_lines(
            a,
            kw,
            widths,
        ));
    } else {
        law_group_lines_add_up(a, b.drop_last(), g, kw, widths);
        assert((a + b).drop_last() =~= a + b.drop_last());
        assert((a + b).last() == b.last());
        assert(group_lines(a + b, kw, widths) =~= group_lines(a, kw, widths) + group_lines(
            b,
            kw,
            widths,
        ));
    }
}

/// The Markdown rows of two lists of groups are those of the first and then those of the second.
pub proof fn law_markdown_rows_add_up(a: Seq<GroupModel>, b: Seq<GroupModel>, g: GroupModel)
    ensures
        md_rows(a + b) == md_rows(a) + md_rows(b),
        md_rows(seq![g]) == "| "@ + md_cell(label(g.key)) + " |"@ + md_row_cells(
            cells_of(g),
            g.sums.len() as int + 1,
        ) + "\n"@,
    decreases b.len(),
{
    let s = seq![g];
    assert(s.drop_last() =~= Seq::<GroupModel>::empty());
    assert(md_rows(s.drop_last()) =~= Seq::<char>::empty());
    assert(s.last() == g);
    assert(md_rows(s) =~= md_row(g));
    if b.len() == 0 {
        assert(a + b =~= a);
        assert(md_rows(a) + md_rows(b) =~= md_rows(a));
    } else {
        law_markdown_rows_add_up(a, b.drop_last(), g);
        assert((a + b).drop_last() =~= a + b.drop_last());
        assert((a + b).last() == b.last());
        assert(md_rows(a + b) =~= md_rows(a) + md_rows(b));
    }
}

/// A Markdown row with one cell more has it at its end; and there is a rule for each column.
pub proof fn law_a_markdown_row_goes_on_with_its_next_cell(
    cells: Seq<Seq<char>>,
    cell: Seq<char>,
    n: int,
)
    requires
        n >= 0,
    ensures
        md_row_cells(cells.push(cell), cells.len() as int + 1) == md_row_cells(cells, cells.len() as int)
            + " "@ + cell + " |"@,
        md_row_cells(cells, 0).len() == 0,
        md_rules(n).len() == 5 * n,
        md_rules(n + 1) == md_rules(n) + "---:|"@,
    decreases n,
{
    lemma_md_row_cells(cells.push(cell), cells, cells.len() as int);
    reveal_strlit("---:|");
    if n > 0 {
        law_a_markdown_row_goes_on_with_its_next_cell(cells, cell, n - 1);
    }
}

proof fn lemma_md_row_cells(a: Seq<Seq<char>>, b: Seq<Seq<char>>, n: int)
    requires
        forall|i: int| 0 <= i < n ==> #[trigger] a[i] == b[i],
    ensures
        md_row_cells(a, n) == md_row_cells(b, n),
    decreases n,
{
    if n > 0 {
        lemma_md_row_cells(a, b, n - 1);
        assert(a[n - 1] == b[n - 1]);
    }
}

/// A Markdown table of groups has its headers, its rule and a row for each group; a note is said in
/// its place.
pub proof fn law_a_markdown_table_has_a_row_for_each_group(
    dimension: Seq<char>,
    count: Seq<char>,
    g: GroupModel,
    a: Seq<GroupModel>,
    b: Seq<GroupModel>,
    note: Seq<char>,
)
    ensures
        markdown_table_of(dimension, count, seq![g] + a + b, None) == markdown_table_of(
            dimension,
            count,
            seq![g] + a,
            None,
        ) + md_rows(b),
        markdown_table_of(dimension, count, seq![g] + a, Some(note)) == "_"@ + note + "_\n"@,
{
    law_markdown_rows_add_up(seq![g] + a, b, g);
    assert((seq![g] + a + b)[0] == g);
    assert((seq![g] + a)[0] == g);
    let heads = column_headers(count, seq![g] + a);
    assert(column_headers(count, seq![g] + a + b) =~= heads);
    let top = "| "@ + joined(md_cells(seq![dimension] + heads), " | "@) + " |\n"@ + "|---|"@
        + md_rules(heads.len() as int) + "\n"@;
    assert(top + (md_rows(seq![g] + a) + md_rows(b)) =~= top + md_rows(seq![g] + a) + md_rows(b));
}

// ---------------------------------------------------------------------------------------------
// Reports
// ---------------------------------------------------------------------------------------------

/// The heading of a report says its project and then each of its restrictions, in order.
pub proof fn law_a_heading_says_every_restriction(
    project: Option<Seq<char>>,
    a: Seq<(Seq<char>, Seq<char>)>,
    field: Seq<char>,
    value: Seq<char>,
)
    ensures
        scope_text(project, a.push((field, value))) == scope_text(project, a) + " — "@ + field + "="@
            + value,
        project matches Some(p) ==> scope_text(project, Seq::empty()) == " — project "@ + p,
        project is None ==> scope_text(project, Seq::empty()).len() == 0,
{
    assert(a.push((field, value)).drop_last() =~= a);
    assert(a.push((field, value)).last() == (field, value));
}

/// A note stands in the place of a table exactly where the project scope cannot select the Kind, or
/// where there is no group; the first is said where both hold.
pub proof fn law_a_note_is_said_where_there_is_nothing_to_show(s: SectionModel)
    ensures
        note_of(s) is None <==> s.scope != ProjectScope::Unsupported && s.groups.len() > 0,
        s.scope == ProjectScope::Unsupported ==> note_of(s) == Some(
            "records no project, so a project scope cannot select it"@,
        ),
        s.scope != ProjectScope::Unsupported && s.groups.len() == 0 ==> note_of(s) == Some(
            "no records in this window"@,
        ),
        s.sort_by is None ==> axes_text(s) == "by "@ + on_one_line(s.group_by) + ", ranked by "@
            + on_one_line("count"@),
        s.sort_by matches Some(m) ==> axes_text(s) == "by "@ + on_one_line(s.group_by)
            + ", ranked by "@ + on_one_line(m),
{
}

proof fn lemma_sections(a: Seq<SectionModel>, b: Seq<SectionModel>)
    ensures
        sections_text(a + b) == sections_text(a) + sections_text(b),
        sections_markdown(a + b) == sections_markdown(a) + sections_markdown(b),
    decreases b.len(),
{
    if b.len() == 0 {
        assert(a + b =~= a);
        assert(sections_text(a) + sections_text(b) =~= sections_text(a));
        assert(sections_markdown(a) + sections_markdown(b) =~= sections_markdown(a));
    } else {
        lemma_sections(a, b.drop_last());
        assert((a + b).drop_last() =~= a + b.drop_last());
        assert((a + b).last() == b.last());
        assert(sections_text(a + b) =~= sections_text(a) + sections_text(b));
        assert(sections_markdown(a + b) =~= sections_markdown(a) + sections_markdown(b));
    }
}

proof fn lemma_one_section(one: SectionModel)
    ensures
        sections_text(seq![one]) == section_text(one),
        sections_markdown(seq![one]) == section_markdown(one),
{
    let s = seq![one];
    let x = section_text(one);
    let y = section_markdown(one);
    assert(s.drop_last() =~= Seq::<SectionModel>::empty());
    assert(s.last() == one);
    assert(sections_text(s.drop_last()) =~= Seq::<char>::empty());
    assert(sections_markdown(s.drop_last()) =~= Seq::<char>::empty());
    assert(Seq::<char>::empty() + x =~= x);
    assert(Seq::<char>::empty() + y =~= y);
}

proof fn lemma_goes_on(head: Seq<char>, a: Seq<char>, b: Seq<char>, none: Seq<char>)
    requires
        none.len() == 0,
    ensures
        head + (a + b) + none == head + a + none + b,
{
    assert(head + (a + b) + none =~= head + a + none + b);
}

proof fn lemma_report_goes_on(r: ReportModel, a: Seq<SectionModel>, b: Seq<SectionModel>)
    ensures
        report_text((ReportModel { kinds: a + b, ..r }), Seq::empty()) == report_text(
            (ReportModel { kinds: a, ..r }),
            Seq::empty(),
        ) + sections_text(b),
        report_markdown((ReportModel { kinds: a + b, ..r }), Seq::empty()) == report_markdown(
            (ReportModel { kinds: a, ..r }),
            Seq::empty(),
        ) + sections_markdown(b),
{
    lemma_sections(a, b);
    let none = Seq::<GroupModel>::empty();
    let text = "=== hatel — rolling "@ + r.window + scope_text(r.project, r.filters) + " ===\n"@ + (
    match r.unreadable {
        Some(names) => "  ("@ + gap_text(names) + ")\n"@,
        None => Seq::empty(),
    });
    lemma_goes_on(text, sections_text(a), sections_text(b), cost_text(none));
    let markdown = "# hatel — rolling "@ + r.window + scope_text(r.project, r.filters) + "\n"@ + (
    match r.unreadable {
        Some(names) => "\n_"@ + gap_text(names) + "_\n"@,
        None => Seq::empty(),
    });
    lemma_goes_on(markdown, sections_markdown(a), sections_markdown(b), cost_markdown(none));
}

/// A report with more sections goes on with them, in order, and none is left out.
pub proof fn law_a_report_shows_every_section(
    r: ReportModel,
    a: Seq<SectionModel>,
    b: Seq<SectionModel>,
    one: SectionModel,
)
    ensures
        report_text((ReportModel { kinds: a + b, ..r }), Seq::empty()) == report_text(
            (ReportModel { kinds: a, ..r }),
            Seq::empty(),
        ) + sections_text(b),
        report_markdown((ReportModel { kinds: a + b, ..r }), Seq::empty()) == report_markdown(
            (ReportModel { kinds: a, ..r }),
            Seq::empty(),
        ) + sections_markdown(b),
        sections_text(seq![one]) == "\n"@ + one.kind + " — "@ + axes_text(one) + "\n"@
            + text_table_of(one.group_by, "count"@, one.groups, note_of(one)),
        sections_markdown(seq![one]) == "\n## "@ + one.kind + " — "@ + axes_text(one) + "\n\n"@
            + markdown_table_of(one.group_by, "count"@, one.groups, note_of(one)),
{
    lemma_report_goes_on(r, a, b);
    lemma_one_section(one);
}

/// A report ends with its cost rollup, where there is spend; and it names what it could not read
/// under its heading, where there is any.
pub proof fn law_a_report_ends_with_its_cost(r: ReportModel, spend: Seq<GroupModel>)
    ensures
        report_text(r, spend) == report_text(r, Seq::empty()) + cost_text(spend),
        report_markdown(r, spend) == report_markdown(r, Seq::empty()) + cost_markdown(spend),
        spend.len() == 0 ==> cost_text(spend).len() == 0 && cost_markdown(spend).len() == 0,
        spend.len() > 0 ==> cost_text(spend) == "\ncost — by "@ + "project"@ + ", ranked by "@
            + "cost_usd"@ + "\n"@ + text_table_of("project"@, "sessions"@, spend, None),
        ({
            let bare = (ReportModel { kinds: Seq::empty(), ..r });
            &&& r.unreadable is None ==> report_text(bare, Seq::empty()) == "=== hatel — rolling "@
                + r.window + scope_text(r.project, r.filters) + " ===\n"@
            &&& r.unreadable matches Some(names) ==> report_text(bare, Seq::empty())
                == "=== hatel — rolling "@ + r.window + scope_text(r.project, r.filters)
                + " ===\n"@ + "  (stored but unreadable — no loaded schema declares "@ + joined(
                names,
                ", "@,
            ) + ")\n"@
        }),
{
    assert(report_text(r, spend) =~= report_text(r, Seq::empty()) + cost_text(spend));
    assert(report_markdown(r, spend) =~= report_markdown(r, Seq::empty()) + cost_markdown(spend));
    let bare = (ReportModel { kinds: Seq::empty(), ..r });
    assert(sections_text(bare.kinds) =~= Seq::<char>::empty());
    match r.unreadable {
        None => {
            assert(report_text(bare, Seq::empty()) =~= "=== hatel — rolling "@ + r.window
                + scope_text(r.project, r.filters) + " ===\n"@);
        },
        Some(names) => {
            reveal_strlit("  (stored but unreadable — no loaded schema declares ");
            reveal_strlit("  (");
            reveal_strlit("stored but unreadable — no loaded schema declares ");
            assert("  ("@ + "stored but unreadable — no loaded schema declares "@
                =~= "  (stored but unreadable — no loaded schema declares "@);
            assert("  ("@ + gap_text(names) =~= "  (stored but unreadable — no loaded schema declares "@
                + joined(names, ", "@));
            assert(report_text(bare, Seq::empty()) =~= "=== hatel — rolling "@ + r.window
                + scope_text(r.project, r.filters) + " ===\n"@
                + "  (stored but unreadable — no loaded schema declares "@ + joined(names, ", "@)
                + ")\n"@);
        },
    }
}

} // verus!
