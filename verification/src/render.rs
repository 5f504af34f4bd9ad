//! Presentation of a report, as an aligned terminal table or as Markdown.
use vstd::prelude::*;
use crate::decimal::{int_text, show_int};
use crate::report::{
    gap_text, group_models, section_models, GroupAgg, GroupModel, KindSection, ProjectScope, Report,
    ReportModel, SectionModel, COST_DIMENSION, COST_RANK,
};
use crate::text::{
    chars_of, joined, opt_str_view, opt_view, owned, split_once, strip_prefix, views,
    without_prefix, halves,
};

verus! {

/// Cells of the magnitude bar before a terminal row.
pub const BAR_WIDTH: usize = 18;

/// The longest group key shown, in terminal columns.
pub const KEY_WIDTH: usize = 34;

/// Columns between the columns of a row.
pub const GUTTER: usize = 2;

// ---------------------------------------------------------------------------------------------
// Columns
// ---------------------------------------------------------------------------------------------

/// The terminal columns a text occupies, as the `unicode-width` crate counts them.
pub uninterp spec fn columns(s: Seq<char>) -> nat;

/// `unicode_width::UnicodeWidthStr::width`: the displayed width of a string, in columns.
#[verifier::external_body]
pub(crate) fn display_width(s: &str) -> (r: usize)
    ensures
        r as nat == columns(s@),
{
    unicode_width::UnicodeWidthStr::width(s)
}

/// `n` times one character.
pub open spec fn repeated(c: char, n: int) -> Seq<char> {
    Seq::new(
        if n > 0 {
            n as nat
        } else {
            0
        },
        |i: int| c,
    )
}

fn push_repeated(out: &mut String, c: char, n: usize)
    ensures
        final(out)@ == old(out)@ + repeated(c, n as int),
{
    let ghost start = out@;
    let mut i: usize = 0;
    assert(start + repeated(c, 0) =~= start);
    while i < n
        invariant
            0 <= i <= n,
            out@ == start + repeated(c, i as int),
        decreases n - i,
    {
        out.push(c);
        assert(start + repeated(c, i + 1) =~= (start + repeated(c, i as int)).push(c));
        i = i + 1;
    }
}

/// A text filled with spaces on the right to a width.
pub open spec fn padded_right(s: Seq<char>, width: int) -> Seq<char> {
    s + repeated(' ', width - columns(s))
}

/// A text filled with spaces on the left to a width.
pub open spec fn padded_left(s: Seq<char>, width: int) -> Seq<char> {
    repeated(' ', width - columns(s)) + s
}

fn missing(width: usize, s: &str) -> (r: usize)
    ensures
        repeated(' ', r as int) == repeated(' ', width - columns(s@)),
{
    let w = display_width(s);
    if w < width {
        width - w
    } else {
        assert(repeated(' ', 0) =~= repeated(' ', width - columns(s@)));
        0
    }
}

fn push_padded_right(out: &mut String, s: &str, width: usize)
    ensures
        final(out)@ == old(out)@ + padded_right(s@, width as int),
{
    let ghost start = out@;
    let n = missing(width, s);
    out.append(s);
    push_repeated(out, ' ', n);
    assert(out@ =~= start + padded_right(s@, width as int));
}

fn push_padded_left(out: &mut String, s: &str, width: usize)
    ensures
        final(out)@ == old(out)@ + padded_left(s@, width as int),
{
    let ghost start = out@;
    let n = missing(width, s);
    push_repeated(out, ' ', n);
    out.append(s);
    assert(out@ =~= start + padded_left(s@, width as int));
}

/// A text filled with spaces on the right to a number of characters.
pub open spec fn filled(s: Seq<char>, width: int) -> Seq<char> {
    s + repeated(' ', width - s.len())
}

/// Append a text filled with spaces on the right to a number of characters.
pub fn push_filled(out: &mut String, s: &str, width: u64)
    ensures
        final(out)@ == old(out)@ + filled(s@, width as int),
{
    let ghost start = out@;
    out.append(s);
    let mut n = crate::text::length(s);
    let ghost len = n;
    assert(start + s@ + repeated(' ', 0) =~= start + s@);
    while n < width
        invariant
            len == s@.len(),
            n >= len,
            out@ == start + s@ + repeated(' ', n - len),
            n <= width || n == len,
        decreases width - n,
    {
        out.push(' ');
        assert(start + s@ + repeated(' ', n + 1 - len) =~= (start + s@ + repeated(
            ' ',
            n - len,
        )).push(' '));
        n = n + 1;
    }
    assert(out@ =~= start + filled(s@, width as int));
}

/// The columns of the first `n` characters, each taken by itself.
pub open spec fn char_columns(s: Seq<char>, n: int) -> nat
    decreases n,
{
    if n <= 0 {
        0
    } else {
        char_columns(s, n - 1) + columns(seq![s[n - 1]])
    }
}

/// How many of the leading characters fit whole into a number of columns.
pub open spec fn fitting(s: Seq<char>, budget: int, n: int) -> int
    decreases s.len() - n,
{
    if n >= s.len() || n < 0 {
        n
    } else if char_columns(s, n + 1) > budget {
        n
    } else {
        fitting(s, budget, n + 1)
    }
}

/// A text cut to a width: what fits whole into one column less, and an ellipsis.
pub open spec fn clipped(s: Seq<char>, width: int) -> Seq<char> {
    if columns(s) <= width {
        s
    } else {
        s.take(fitting(s, if width > 0 { width - 1 } else { 0 }, 0)).push('…')
    }
}

/// Clip a text to `width` terminal columns, the clip marked with an ellipsis. A character is taken
/// only while it fits whole.
pub fn truncate(s: &str, width: usize) -> (r: String)
    ensures
        r@ == clipped(s@, width as int),
{
    if display_width(s) <= width {
        return owned(s);
    }
    let budget: usize = if width > 0 {
        width - 1
    } else {
        0
    };
    let v = chars_of(s);
    let mut out = String::new();
    let mut used: usize = 0;
    let mut i: usize = 0;
    let mut full = false;
    while i < v.len() && !full
        invariant
            0 <= i <= v.len(),
            v@ == s@,
            out@ == s@.take(i as int),
            used as nat == char_columns(s@, i as int),
            used <= budget,
            fitting(s@, budget as int, 0) == if full {
                i as int
            } else {
                fitting(s@, budget as int, i as int)
            },
        decreases v.len() - i, (if full {
            0int
        } else {
            1int
        }),
    {
        let mut one = String::new();
        one.push(v[i]);
        assert(one@ =~= seq![s@[i as int]]);
        let w = display_width(&one);
        if w > budget - used {
            full = true;
        } else {
            out.push(v[i]);
            used = used + w;
            assert(s@.take(i + 1) =~= s@.take(i as int).push(s@[i as int]));
            i = i + 1;
        }
    }
    out.push('…');
    out
}

proof fn lemma_fitting(s: Seq<char>, budget: int, n: int)
    requires
        0 <= n <= s.len(),
        char_columns(s, n) <= budget,
    ensures
        n <= fitting(s, budget, n) <= s.len(),
        char_columns(s, fitting(s, budget, n)) <= budget,
    decreases s.len() - n,
{
    if n < s.len() && char_columns(s, n + 1) <= budget {
        lemma_fitting(s, budget, n + 1);
    }
}

/// What is kept of a clipped text fits into the width with the ellipsis, character by character,
/// and is a beginning of the text.
pub proof fn law_a_clipped_text_fits(s: Seq<char>, width: int)
    requires
        width > 0,
        columns(s) > width,
    ensures
        clipped(s, width).last() == '…',
        clipped(s, width).drop_last() == s.take(clipped(s, width).len() - 1),
        char_columns(s, clipped(s, width).len() - 1) + 1 <= width,
{
    lemma_fitting(s, width - 1, 0);
    let n = fitting(s, width - 1, 0);
    assert(clipped(s, width).drop_last() =~= s.take(n));
}

// ---------------------------------------------------------------------------------------------
// Values
// ---------------------------------------------------------------------------------------------

/// A control character.
pub open spec fn is_control(c: char) -> bool {
    (c as u32) < 0x20 || 0x7f <= c as u32 <= 0x9f
}

fn control(c: char) -> (r: bool)
    ensures
        r == is_control(c),
{
    (c as u32) < 0x20 || (0x7f <= c as u32 && c as u32 <= 0x9f)
}

/// A text with its control characters replaced by spaces.
pub open spec fn on_one_line(s: Seq<char>) -> Seq<char> {
    Seq::new(
        s.len(),
        |i: int|
            {
                if is_control(s[i]) {
                    ' '
                } else {
                    s[i]
                }
            },
    )
}

/// Replace control characters by spaces, so that a value stays on the line it is written to.
pub fn inline(s: &str) -> (r: String)
    ensures
        r@ == on_one_line(s@),
{
    let v = chars_of(s);
    let mut out = String::new();
    let mut i: usize = 0;
    while i < v.len()
        invariant
            0 <= i <= v.len(),
            v@ == s@,
            out@.len() == i,
            forall|k: int| 0 <= k < i ==> #[trigger] out@[k] == on_one_line(s@)[k],
        decreases v.len() - i,
    {
        let c = v[i];
        if control(c) {
            out.push(' ');
        } else {
            out.push(c);
        }
        i = i + 1;
    }
    assert(out@ =~= on_one_line(s@));
    out
}

/// What one character of a Markdown table cell is written as.
pub open spec fn md_char(c: char) -> Seq<char> {
    if c == '\\' {
        seq!['\\', '\\']
    } else if c == '|' {
        seq!['\\', '|']
    } else if is_control(c) {
        seq![' ']
    } else {
        seq![c]
    }
}

/// A text written as a Markdown table cell.
pub open spec fn md_cell(s: Seq<char>) -> Seq<char>
    decreases s.len(),
{
    if s.len() == 0 {
        Seq::empty()
    } else {
        md_cell(s.drop_last()) + md_char(s.last())
    }
}

/// Neutralize a string for a Markdown table cell: backslash and pipe are escaped, and every control
/// character becomes a space.
pub fn escape_md_cell(s: &str) -> (r: String)
    ensures
        r@ == md_cell(s@),
{
    let v = chars_of(s);
    let mut out = String::new();
    let mut i: usize = 0;
    assert(s@.take(0) =~= Seq::<char>::empty());
    while i < v.len()
        invariant
            0 <= i <= v.len(),
            v@ == s@,
            out@ == md_cell(s@.take(i as int)),
        decreases v.len() - i,
    {
        let c = v[i];
        let ghost held = out@;
        proof {
            assert(s@.take(i + 1).drop_last() =~= s@.take(i as int));
            assert(s@.take(i + 1).last() == c);
        }
        if c == '\\' {
            out.push('\\');
            out.push('\\');
        } else if c == '|' {
            out.push('\\');
            out.push('|');
        } else if control(c) {
            out.push(' ');
        } else {
            out.push(c);
        }
        assert(out@ =~= held + md_char(c));
        i = i + 1;
    }
    assert(s@.take(v.len() as int) =~= s@);
    out
}

/// A cell that stays one cell: read from the left, with a backslash taking the character behind it
/// along, no pipe is met.
pub open spec fn one_cell(s: Seq<char>) -> bool
    decreases s.len(),
{
    if s.len() == 0 {
        true
    } else if s[0] == '\\' {
        s.len() >= 2 && one_cell(s.skip(2))
    } else {
        s[0] != '|' && one_cell(s.skip(1))
    }
}

proof fn lemma_one_cell_extends(a: Seq<char>, b: Seq<char>)
    requires
        one_cell(a),
        one_cell(b),
    ensures
        one_cell(a + b),
    decreases a.len(),
{
    if a.len() == 0 {
        assert(a + b =~= b);
    } else if a[0] == '\\' {
        lemma_one_cell_extends(a.skip(2), b);
        assert((a + b).skip(2) =~= a.skip(2) + b);
    } else {
        lemma_one_cell_extends(a.skip(1), b);
        assert((a + b).skip(1) =~= a.skip(1) + b);
    }
}

/// Whatever a value holds, its cell is one cell of one row: no pipe in it is live and no control
/// character, so no line break, is left.
pub proof fn law_an_escaped_value_is_one_cell(s: Seq<char>)
    ensures
        one_cell(md_cell(s)),
        forall|i: int| 0 <= i < md_cell(s).len() ==> !is_control(#[trigger] md_cell(s)[i]),
    decreases s.len(),
{
    if s.len() > 0 {
        law_an_escaped_value_is_one_cell(s.drop_last());
        let one = md_char(s.last());
        assert(one_cell(one)) by {
            reveal_with_fuel(one_cell, 2);
            if one.len() == 2 {
                assert(one.skip(2).len() == 0);
            } else {
                assert(one.skip(1).len() == 0);
            }
        }
        lemma_one_cell_extends(md_cell(s.drop_last()), one);
    }
}

/// The first `n` digits, with a comma before each but the first whose distance to the end is a
/// multiple of three.
pub open spec fn comma_digits(s: Seq<char>, n: int) -> Seq<char>
    decreases n,
{
    if n <= 0 {
        Seq::empty()
    } else if n > 1 && (s.len() - (n - 1)) % 3 == 0 {
        comma_digits(s, n - 1).push(',').push(s[n - 1])
    } else {
        comma_digits(s, n - 1).push(s[n - 1])
    }
}

/// The sign of a decimal text, and what follows it.
pub open spec fn sign_split(s: Seq<char>) -> (Seq<char>, Seq<char>) {
    match without_prefix(s, "-"@) {
        Some(rest) => ("-"@, rest),
        None => (Seq::empty(), s),
    }
}

/// A decimal text with the digits of its whole part grouped by threes.
pub open spec fn grouped_digits(s: Seq<char>) -> Seq<char> {
    let (sign, rest) = sign_split(s);
    match halves(rest, '.') {
        Some((whole, fraction)) => sign + comma_digits(whole, whole.len() as int) + seq!['.']
            + fraction,
        None => sign + comma_digits(rest, rest.len() as int),
    }
}

fn push_digits(out: &mut String, s: &str)
    ensures
        final(out)@ == old(out)@ + comma_digits(s@, s@.len() as int),
{
    let ghost start = out@;
    let v = chars_of(s);
    let mut i: usize = 0;
    assert(start + comma_digits(s@, 0) =~= start);
    while i < v.len()
        invariant
            0 <= i <= v.len(),
            v@ == s@,
            out@ == start + comma_digits(s@, i as int),
        decreases v.len() - i,
    {
        let ghost held = comma_digits(s@, i as int);
        if i > 0 && (v.len() - i) % 3 == 0 {
            out.push(',');
            assert(out@ =~= start + held.push(','));
        }
        let ghost mid = out@;
        out.push(v[i]);
        assert(out@ =~= start + comma_digits(s@, i + 1));
        i = i + 1;
    }
}

/// Group the digits of a decimal text's whole part by threes.
pub fn group_digits(s: &str) -> (r: String)
    ensures
        r@ == grouped_digits(s@),
{
    let mut out = String::new();
    let rest = match strip_prefix(s, "-") {
        Some(rest) => {
            out.append("-");
            rest
        },
        None => owned(s),
    };
    let ghost sign = out@;
    match split_once(&rest, '.') {
        Some((whole, fraction)) => {
            push_digits(&mut out, &whole);
            out.push('.');
            out.append(&fraction);
            assert(out@ =~= sign + comma_digits(whole@, whole@.len() as int) + seq!['.']
                + fraction@);
        },
        None => {
            push_digits(&mut out, &rest);
        },
    }
    assert(out@ =~= grouped_digits(s@));
    out
}

/// The characters of a text that are no commas.
pub open spec fn without_commas(s: Seq<char>) -> Seq<char>
    decreases s.len(),
{
    if s.len() == 0 {
        s
    } else if s.last() == ',' {
        without_commas(s.drop_last())
    } else {
        without_commas(s.drop_last()).push(s.last())
    }
}

proof fn lemma_without_commas_concat(a: Seq<char>, b: Seq<char>)
    ensures
        without_commas(a + b) == without_commas(a) + without_commas(b),
    decreases b.len(),
{
    if b.len() == 0 {
        assert(a + b =~= a);
        assert(without_commas(a) + without_commas(b) =~= without_commas(a));
    } else {
        lemma_without_commas_concat(a, b.drop_last());
        assert((a + b).drop_last() =~= a + b.drop_last());
        assert((a + b).last() == b.last());
        assert(without_commas(a + b) =~= without_commas(a) + without_commas(b));
    }
}

proof fn lemma_comma_digits_lossless(s: Seq<char>, n: int)
    requires
        0 <= n <= s.len(),
    ensures
        without_commas(comma_digits(s, n)) == without_commas(s.take(n)),
    decreases n,
{
    if n > 0 {
        reveal_with_fuel(without_commas, 3);
        lemma_comma_digits_lossless(s, n - 1);
        let rest = comma_digits(s, n - 1);
        assert(s.take(n).drop_last() =~= s.take(n - 1));
        assert(s.take(n).last() == s[n - 1]);
        let c = s[n - 1];
        assert(rest.push(c).drop_last() =~= rest);
        assert(rest.push(',').drop_last() =~= rest);
        assert(rest.push(',').push(c).drop_last() =~= rest.push(','));
    } else {
        assert(s.take(0) =~= Seq::<char>::empty());
    }
}

/// Grouping digits changes nothing but the commas: without them the text is what it was.
pub proof fn law_grouping_is_lossless(s: Seq<char>)
    ensures
        without_commas(grouped_digits(s)) == without_commas(s),
{
    let (sign, rest) = sign_split(s);
    reveal_strlit("-");
    assert(s =~= sign + rest);
    match halves(rest, '.') {
        Some((whole, fraction)) => {
            crate::text::lemma_first_at_is_first(rest, '.');
            let dot = seq!['.'];
            assert(rest =~= whole + dot + fraction);
            let digits = comma_digits(whole, whole.len() as int);
            lemma_comma_digits_lossless(whole, whole.len() as int);
            assert(whole.take(whole.len() as int) =~= whole);
            lemma_without_commas_concat(sign + digits + dot, fraction);
            lemma_without_commas_concat(sign + digits, dot);
            lemma_without_commas_concat(sign, digits);
            assert(s =~= sign + whole + dot + fraction);
            lemma_without_commas_concat(sign + whole + dot, fraction);
            lemma_without_commas_concat(sign + whole, dot);
            lemma_without_commas_concat(sign, whole);
        },
        None => {
            let digits = comma_digits(rest, rest.len() as int);
            lemma_comma_digits_lossless(rest, rest.len() as int);
            assert(rest.take(rest.len() as int) =~= rest);
            lemma_without_commas_concat(sign, digits);
            lemma_without_commas_concat(sign, rest);
        },
    }
}

// ---------------------------------------------------------------------------------------------
// Tables
// ---------------------------------------------------------------------------------------------

/// A group key as a label: a missing dimension is a dash, and an empty value is named.
pub open spec fn label(key: Option<Seq<char>>) -> Seq<char> {
    match key {
        None => "—"@,
        Some(k) => if k.len() == 0 {
            "(empty)"@
        } else {
            k
        },
    }
}

/// A group key as a label.
pub fn key_label(key: &Option<String>) -> (r: String)
    ensures
        r@ == label(opt_view(*key)),
{
    match key {
        None => owned("—"),
        Some(k) => if crate::text::length(k) == 0 {
            owned("(empty)")
        } else {
            owned(k)
        },
    }
}

/// The count and the sums of a group as they are shown, in column order.
pub open spec fn cells_of(g: GroupModel) -> Seq<Seq<char>> {
    Seq::new(
        g.sums.len() + 1,
        |i: int|
            {
                if i == 0 {
                    grouped_digits(int_text(g.count as int))
                } else {
                    grouped_digits(g.sums[i - 1].plain)
                }
            },
    )
}

fn numeric_cells(g: &GroupAgg) -> (r: Vec<String>)
    ensures
        views(r@) == cells_of(g.model()),
{
    let mut out: Vec<String> = Vec::new();
    out.push(group_digits(&show_int(g.count)));
    let mut i: usize = 0;
    while i < g.sums.len()
        invariant
            0 <= i <= g.sums.len(),
            out.len() == i + 1,
            forall|k: int| 0 <= k <= i ==> (#[trigger] out@[k])@ == cells_of(g.model())[k],
        decreases g.sums.len() - i,
    {
        let cell = group_digits(&g.sums[i].sum.plain);
        assert(g.model().sums[i as int].plain == g.sums@[i as int].sum.plain@);
        out.push(cell);
        i = i + 1;
    }
    assert(views(out@) =~= cells_of(g.model()));
    out
}

/// The headers of the numeric columns: the count's, and the measures of the first group.
pub open spec fn column_headers(count_header: Seq<char>, groups: Seq<GroupModel>) -> Seq<Seq<char>> {
    if groups.len() == 0 {
        seq![count_header]
    } else {
        Seq::new(
            groups[0].sums.len() + 1,
            |i: int|
                {
                    if i == 0 {
                        count_header
                    } else {
                        groups[0].sums[i - 1].name
                    }
                },
        )
    }
}

fn headers(count_header: &str, groups: &Vec<GroupAgg>) -> (r: Vec<String>)
    ensures
        views(r@) == column_headers(count_header@, group_models(groups@)),
{
    let mut out: Vec<String> = Vec::new();
    out.push(owned(count_header));
    if groups.len() > 0 {
        let first = &groups[0];
        let ghost want = column_headers(count_header@, group_models(groups@));
        let mut i: usize = 0;
        while i < first.sums.len()
            invariant
                0 <= i <= first.sums.len(),
                groups.len() > 0,
                first == groups@[0],
                want == column_headers(count_header@, group_models(groups@)),
                out.len() == i + 1,
                forall|k: int| 0 <= k <= i ==> (#[trigger] out@[k])@ == want[k],
            decreases first.sums.len() - i,
        {
            assert(group_models(groups@)[0].sums[i as int].name == first.sums@[i as int].name@);
            out.push(owned(&first.sums[i].name));
            i = i + 1;
        }
        assert(views(out@) =~= want);
    } else {
        assert(views(out@) =~= seq![count_header@]);
    }
    out
}

/// The greater of two numbers.
pub open spec fn wider(a: nat, b: nat) -> nat {
    if a >= b {
        a
    } else {
        b
    }
}

/// The columns a group's key takes: at most the longest shown.
pub open spec fn key_columns(g: GroupModel) -> nat {
    if columns(label(g.key)) < KEY_WIDTH {
        columns(label(g.key))
    } else {
        KEY_WIDTH as nat
    }
}

/// The width of the key column: its header's, or that of the widest key.
pub open spec fn key_width(dimension: Seq<char>, groups: Seq<GroupModel>) -> nat
    decreases groups.len(),
{
    if groups.len() == 0 {
        columns(dimension)
    } else {
        wider(key_width(dimension, groups.drop_last()), key_columns(groups.last()))
    }
}

/// The width of a numeric column: its header's, or that of its widest cell. A group without the
/// cell adds nothing.
pub open spec fn column_width(header: Seq<char>, groups: Seq<GroupModel>, column: int) -> nat
    decreases groups.len(),
{
    if groups.len() == 0 {
        columns(header)
    } else {
        let rest = column_width(header, groups.drop_last(), column);
        let cells = cells_of(groups.last());
        if column < cells.len() {
            wider(rest, columns(cells[column]))
        } else {
            rest
        }
    }
}

/// The widths of the numeric columns.
pub open spec fn column_widths(heads: Seq<Seq<char>>, groups: Seq<GroupModel>) -> Seq<nat> {
    Seq::new(heads.len(), |i: int| column_width(heads[i], groups, i))
}

/// The first `n` cells of a row, each behind a gutter and right-aligned in its column.
pub open spec fn row_cells(cells: Seq<Seq<char>>, widths: Seq<nat>, n: int) -> Seq<char>
    decreases n,
{
    if n <= 0 {
        Seq::empty()
    } else {
        row_cells(cells, widths, n - 1) + repeated(' ', GUTTER as int) + padded_left(
            cells[n - 1],
            widths[n - 1] as int,
        )
    }
}

/// How many cells a row shows: those with a column.
pub open spec fn shown(cells: Seq<Seq<char>>, widths: Seq<nat>) -> int {
    if cells.len() < widths.len() {
        cells.len() as int
    } else {
        widths.len() as int
    }
}

/// A bar of which a number of cells are filled.
pub open spec fn bar_text(filled: nat) -> Seq<char> {
    let n = if filled < BAR_WIDTH {
        filled as int
    } else {
        BAR_WIDTH as int
    };
    repeated('█', n) + repeated('░', BAR_WIDTH - n)
}

/// The line of one group.
pub open spec fn group_line(g: GroupModel, key_width: nat, widths: Seq<nat>) -> Seq<char> {
    repeated(' ', GUTTER as int) + bar_text(g.share) + repeated(' ', GUTTER as int) + padded_right(
        clipped(label(g.key), KEY_WIDTH as int),
        key_width as int,
    ) + row_cells(cells_of(g), widths, shown(cells_of(g), widths)) + seq!['\n']
}

/// The lines of the groups.
pub open spec fn group_lines(groups: Seq<GroupModel>, key_width: nat, widths: Seq<nat>) -> Seq<char>
    decreases groups.len(),
{
    if groups.len() == 0 {
        Seq::empty()
    } else {
        group_lines(groups.drop_last(), key_width, widths) + group_line(
            groups.last(),
            key_width,
            widths,
        )
    }
}

/// Texts with their control characters replaced.
pub open spec fn inlined(v: Seq<Seq<char>>) -> Seq<Seq<char>> {
    Seq::new(v.len(), |i: int| on_one_line(v[i]))
}

/// A terminal table of groups, or the note that stands in its place.
pub open spec fn text_table_of(
    dimension: Seq<char>,
    count_header: Seq<char>,
    groups: Seq<GroupModel>,
    note: Option<Seq<char>>,
) -> Seq<char> {
    match note {
        Some(n) => "  ("@ + n + ")\n"@,
        None => {
            let heads = column_headers(count_header, groups);
            let widths = column_widths(heads, groups);
            let kw = key_width(dimension, groups);
            repeated(' ', GUTTER * 2 + BAR_WIDTH) + padded_right(on_one_line(dimension), kw as int)
                + row_cells(inlined(heads), widths, heads.len() as int) + seq!['\n'] + group_lines(
                groups,
                kw,
                widths,
            )
        },
    }
}

pub open spec fn width_values(v: Seq<usize>) -> Seq<nat> {
    Seq::new(v.len(), |i: int| v[i] as nat)
}

fn push_cells(out: &mut String, cells: &Vec<String>, widths: &Vec<usize>)
    ensures
        final(out)@ == old(out)@ + row_cells(
            views(cells@),
            width_values(widths@),
            shown(views(cells@), width_values(widths@)),
        ),
{
    let ghost start = out@;
    let ghost all = views(cells@);
    let ghost ws = width_values(widths@);
    let n: usize = if cells.len() < widths.len() {
        cells.len()
    } else {
        widths.len()
    };
    let mut i: usize = 0;
    assert(start + row_cells(all, ws, 0) =~= start);
    while i < n
        invariant
            0 <= i <= n,
            n <= cells.len(),
            n <= widths.len(),
            all == views(cells@),
            ws == width_values(widths@),
            out@ == start + row_cells(all, ws, i as int),
        decreases n - i,
    {
        let ghost held = out@;
        push_repeated(out, ' ', GUTTER);
        push_padded_left(out, &cells[i], widths[i]);
        assert(out@ =~= start + row_cells(all, ws, i + 1));
        i = i + 1;
    }
}

fn push_group(out: &mut String, g: &GroupAgg, key_width: usize, widths: &Vec<usize>)
    ensures
        final(out)@ == old(out)@ + group_line(
            g.model(),
            key_width as nat,
            width_values(widths@),
        ),
{
    let ghost start = out@;
    let filled: usize = if g.share < BAR_WIDTH {
        g.share
    } else {
        BAR_WIDTH
    };
    push_repeated(out, ' ', GUTTER);
    push_repeated(out, '█', filled);
    push_repeated(out, '░', BAR_WIDTH - filled);
    push_repeated(out, ' ', GUTTER);
    let key = truncate(&key_label(&g.key), KEY_WIDTH);
    push_padded_right(out, &key, key_width);
    let cells = numeric_cells(g);
    push_cells(out, &cells, widths);
    out.push('\n');
    assert(out@ =~= start + group_line(g.model(), key_width as nat, width_values(widths@)));
}

fn widest_key(dimension: &str, groups: &Vec<GroupAgg>) -> (r: usize)
    ensures
        r as nat == key_width(dimension@, group_models(groups@)),
{
    let ghost all = group_models(groups@);
    let mut widest = display_width(dimension);
    let mut i: usize = 0;
    assert(all.take(0) =~= Seq::<GroupModel>::empty());
    while i < groups.len()
        invariant
            0 <= i <= groups.len(),
            all == group_models(groups@),
            widest as nat == key_width(dimension@, all.take(i as int)),
        decreases groups.len() - i,
    {
        proof {
            assert(all.take(i + 1).drop_last() =~= all.take(i as int));
            assert(all.take(i + 1).last() == groups@[i as int].model());
        }
        let w = display_width(&key_label(&groups[i].key));
        let w: usize = if w < KEY_WIDTH {
            w
        } else {
            KEY_WIDTH
        };
        if w > widest {
            widest = w;
        }
        i = i + 1;
    }
    assert(all.take(groups.len() as int) =~= all);
    widest
}

fn widest_cell(header: &str, groups: &Vec<GroupAgg>, column: usize) -> (r: usize)
    ensures
        r as nat == column_width(header@, group_models(groups@), column as int),
{
    let ghost all = group_models(groups@);
    let mut widest = display_width(header);
    let mut i: usize = 0;
    assert(all.take(0) =~= Seq::<GroupModel>::empty());
    while i < groups.len()
        invariant
            0 <= i <= groups.len(),
            all == group_models(groups@),
            widest as nat == column_width(header@, all.take(i as int), column as int),
        decreases groups.len() - i,
    {
        proof {
            assert(all.take(i + 1).drop_last() =~= all.take(i as int));
            assert(all.take(i + 1).last() == groups@[i as int].model());
        }
        let cells = numeric_cells(&groups[i]);
        if column < cells.len() {
            assert(views(cells@)[column as int] == cells@[column as int]@);
            let w = display_width(&cells[column]);
            if w > widest {
                widest = w;
            }
        }
        i = i + 1;
    }
    assert(all.take(groups.len() as int) =~= all);
    widest
}

/// A terminal table of groups: a bar, the key, the count and the measures, with every column as
/// wide as its widest cell. A note takes the place of the table.
pub fn text_table(
    dimension: &str,
    count_header: &str,
    groups: &Vec<GroupAgg>,
    note: Option<&str>,
) -> (r: String)
    ensures
        r@ == text_table_of(
            dimension@,
            count_header@,
            group_models(groups@),
            opt_str_view(note),
        ),
{
    if let Some(n) = note {
        return crate::text::cat3("  (", n, ")\n");
    }
    let ghost all = group_models(groups@);
    let heads = headers(count_header, groups);
    let ghost hs = views(heads@);
    let mut widths: Vec<usize> = Vec::new();
    let mut plain: Vec<String> = Vec::new();
    let mut i: usize = 0;
    while i < heads.len()
        invariant
            0 <= i <= heads.len(),
            hs == views(heads@),
            all == group_models(groups@),
            widths.len() == i,
            plain.len() == i,
            forall|k: int|
                0 <= k < i ==> (#[trigger] widths@[k]) as nat == column_width(hs[k], all, k),
            forall|k: int| 0 <= k < i ==> (#[trigger] plain@[k])@ == on_one_line(hs[k]),
        decreases heads.len() - i,
    {
        widths.push(widest_cell(&heads[i], groups, i));
        plain.push(inline(&heads[i]));
        i = i + 1;
    }
    assert(width_values(widths@) =~= column_widths(hs, all));
    assert(views(plain@) =~= inlined(hs));
    let kw = widest_key(dimension, groups);
    let mut out = String::new();
    push_repeated(&mut out, ' ', GUTTER * 2 + BAR_WIDTH);
    push_padded_right(&mut out, &inline(dimension), kw);
    push_cells(&mut out, &plain, &widths);
    out.push('\n');
    let ghost top = out@;
    let mut j: usize = 0;
    assert(all.take(0) =~= Seq::<GroupModel>::empty());
    assert(top + group_lines(all.take(0), kw as nat, width_values(widths@)) =~= top);
    while j < groups.len()
        invariant
            0 <= j <= groups.len(),
            all == group_models(groups@),
            out@ == top + group_lines(all.take(j as int), kw as nat, width_values(widths@)),
        decreases groups.len() - j,
    {
        proof {
            assert(all.take(j + 1).drop_last() =~= all.take(j as int));
            assert(all.take(j + 1).last() == groups@[j as int].model());
        }
        push_group(&mut out, &groups[j], kw, &widths);
        assert(out@ =~= top + group_lines(all.take(j + 1), kw as nat, width_values(widths@)));
        j = j + 1;
    }
    assert(all.take(groups.len() as int) =~= all);
    assert(out@ =~= text_table_of(dimension@, count_header@, all, None));
    out
}

// ---------------------------------------------------------------------------------------------
// Markdown
// ---------------------------------------------------------------------------------------------

/// Texts written as Markdown table cells.
pub open spec fn md_cells(v: Seq<Seq<char>>) -> Seq<Seq<char>> {
    Seq::new(v.len(), |i: int| md_cell(v[i]))
}

/// The first `n` numeric cells of a Markdown row.
pub open spec fn md_row_cells(cells: Seq<Seq<char>>, n: int) -> Seq<char>
    decreases n,
{
    if n <= 0 {
        Seq::empty()
    } else {
        md_row_cells(cells, n - 1) + " "@ + cells[n - 1] + " |"@
    }
}

/// The Markdown row of a group.
pub open spec fn md_row(g: GroupModel) -> Seq<char> {
    "| "@ + md_cell(label(g.key)) + " |"@ + md_row_cells(cells_of(g), cells_of(g).len() as int)
        + "\n"@
}

/// The Markdown rows of the groups.
pub open spec fn md_rows(groups: Seq<GroupModel>) -> Seq<char>
    decreases groups.len(),
{
    if groups.len() == 0 {
        Seq::empty()
    } else {
        md_rows(groups.drop_last()) + md_row(groups.last())
    }
}

/// `n` right-aligned column rules.
pub open spec fn md_rules(n: int) -> Seq<char>
    decreases n,
{
    if n <= 0 {
        Seq::empty()
    } else {
        md_rules(n - 1) + "---:|"@
    }
}

/// A Markdown table of groups, or the note that stands in its place.
pub open spec fn markdown_table_of(
    dimension: Seq<char>,
    count_header: Seq<char>,
    groups: Seq<GroupModel>,
    note: Option<Seq<char>>,
) -> Seq<char> {
    match note {
        Some(n) => "_"@ + n + "_\n"@,
        None => {
            let heads = column_headers(count_header, groups);
            "| "@ + joined(md_cells(seq![dimension] + heads), " | "@) + " |\n"@ + "|---|"@ + md_rules(
                heads.len() as int,
            ) + "\n"@ + md_rows(groups)
        },
    }
}

fn push_md_row(out: &mut String, g: &GroupAgg)
    ensures
        final(out)@ == old(out)@ + md_row(g.model()),
{
    let ghost start = out@;
    out.append("| ");
    out.append(&escape_md_cell(&key_label(&g.key)));
    out.append(" |");
    let cells = numeric_cells(g);
    let ghost all = views(cells@);
    let ghost base = out@;
    let mut i: usize = 0;
    assert(base + md_row_cells(all, 0) =~= base);
    while i < cells.len()
        invariant
            0 <= i <= cells.len(),
            all == views(cells@),
            out@ == base + md_row_cells(all, i as int),
        decreases cells.len() - i,
    {
        out.append(" ");
        out.append(&cells[i]);
        out.append(" |");
        assert(out@ =~= base + md_row_cells(all, i + 1));
        i = i + 1;
    }
    out.append("\n");
    assert(out@ =~= start + md_row(g.model()));
}

/// A Markdown table of groups. Headers are escaped as values are. A note takes the place of the
/// table.
pub fn markdown_table(
    dimension: &str,
    count_header: &str,
    groups: &Vec<GroupAgg>,
    note: Option<&str>,
) -> (r: String)
    ensures
        r@ == markdown_table_of(
            dimension@,
            count_header@,
            group_models(groups@),
            opt_str_view(note),
        ),
{
    if let Some(n) = note {
        return crate::text::cat3("_", n, "_\n");
    }
    let ghost all = group_models(groups@);
    let heads = headers(count_header, groups);
    let ghost hs = views(heads@);
    let mut cells: Vec<String> = Vec::new();
    cells.push(escape_md_cell(dimension));
    let mut rules = String::new();
    let mut i: usize = 0;
    while i < heads.len()
        invariant
            0 <= i <= heads.len(),
            hs == views(heads@),
            cells.len() == i + 1,
            cells@[0]@ == md_cell(dimension@),
            forall|k: int| 1 <= k <= i ==> (#[trigger] cells@[k])@ == md_cell(hs[k - 1]),
            rules@ == md_rules(i as int),
        decreases heads.len() - i,
    {
        cells.push(escape_md_cell(&heads[i]));
        rules.append("---:|");
        i = i + 1;
    }
    assert(views(cells@) =~= md_cells(seq![dimension@] + hs));
    let mut out = owned("| ");
    out.append(&crate::text::join(&cells, " | "));
    out.append(" |\n");
    out.append("|---|");
    out.append(&rules);
    out.append("\n");
    let ghost top = out@;
    let mut j: usize = 0;
    assert(all.take(0) =~= Seq::<GroupModel>::empty());
    assert(top + md_rows(all.take(0)) =~= top);
    while j < groups.len()
        invariant
            0 <= j <= groups.len(),
            all == group_models(groups@),
            out@ == top + md_rows(all.take(j as int)),
        decreases groups.len() - j,
    {
        proof {
            assert(all.take(j + 1).drop_last() =~= all.take(j as int));
            assert(all.take(j + 1).last() == groups@[j as int].model());
        }
        push_md_row(&mut out, &groups[j]);
        assert(out@ =~= top + md_rows(all.take(j + 1)));
        j = j + 1;
    }
    assert(all.take(groups.len() as int) =~= all);
    out
}

// ---------------------------------------------------------------------------------------------
// Reports
// ---------------------------------------------------------------------------------------------

/// The restrictions of a report, for its heading.
pub open spec fn scope_text(project: Option<Seq<char>>, filters: Seq<(Seq<char>, Seq<char>)>) -> Seq<
    char,
>
    decreases filters.len(),
{
    if filters.len() == 0 {
        match project {
            Some(p) => " — project "@ + p,
            None => Seq::empty(),
        }
    } else {
        scope_text(project, filters.drop_last()) + " — "@ + filters.last().0 + "="@
            + filters.last().1
    }
}

/// The restrictions of a report: its project and each filter, so that a saved report states what
/// it covers.
pub fn scope(report: &Report) -> (r: String)
    ensures
        r@ == scope_text(report.model().project, report.model().filters),
{
    let ghost all = report.model().filters;
    let ghost project = report.model().project;
    let mut out = match &report.project {
        Some(p) => crate::text::cat2(" — project ", p),
        None => String::new(),
    };
    let mut i: usize = 0;
    assert(all.take(0) =~= Seq::<(Seq<char>, Seq<char>)>::empty());
    assert(out@ =~= scope_text(project, all.take(0)));
    while i < report.filters.len()
        invariant
            0 <= i <= report.filters.len(),
            all == report.model().filters,
            out@ == scope_text(project, all.take(i as int)),
        decreases report.filters.len() - i,
    {
        proof {
            assert(all.take(i + 1).drop_last() =~= all.take(i as int));
            assert(all.take(i + 1).last() == all[i as int]);
        }
        out.append(" — ");
        out.append(&report.filters[i].field);
        out.append("=");
        out.append(&report.filters[i].value);
        i = i + 1;
    }
    assert(all.take(report.filters.len() as int) =~= all);
    out
}

/// A section's dimension and ranking measure, in words.
pub open spec fn axes_text(section: SectionModel) -> Seq<char> {
    "by "@ + on_one_line(section.group_by) + ", ranked by "@ + on_one_line(
        match section.sort_by {
            Some(m) => m,
            None => "count"@,
        },
    )
}

/// A section's dimension and ranking measure, in words.
pub fn axes(section: &KindSection) -> (r: String)
    ensures
        r@ == axes_text(section.model()),
{
    let measure: &str = match &section.sort_by {
        Some(m) => m,
        None => "count",
    };
    crate::text::cat4("by ", &inline(&section.group_by), ", ranked by ", &inline(measure))
}

/// What is said in place of rows.
pub open spec fn note_of(section: SectionModel) -> Option<Seq<char>> {
    if section.scope == ProjectScope::Unsupported {
        Some("records no project, so a project scope cannot select it"@)
    } else if section.groups.len() == 0 {
        Some("no records in this window"@)
    } else {
        None
    }
}

/// What is said in place of rows. A Kind that a project scope cannot select says so rather than
/// that it has no records.
pub fn note(section: &KindSection) -> (r: Option<&'static str>)
    ensures
        opt_str_view(r) == note_of(section.model()),
{
    match section.project_scope {
        ProjectScope::Unsupported => Some(
            "records no project, so a project scope cannot select it",
        ),
        _ => if section.groups.len() == 0 {
            Some("no records in this window")
        } else {
            None
        },
    }
}

/// The terminal text of a section.
pub open spec fn section_text(section: SectionModel) -> Seq<char> {
    "\n"@ + section.kind + " — "@ + axes_text(section) + "\n"@ + text_table_of(
        section.group_by,
        "count"@,
        section.groups,
        note_of(section),
    )
}

/// The Markdown of a section.
pub open spec fn section_markdown(section: SectionModel) -> Seq<char> {
    "\n## "@ + section.kind + " — "@ + axes_text(section) + "\n\n"@ + markdown_table_of(
        section.group_by,
        "count"@,
        section.groups,
        note_of(section),
    )
}

pub open spec fn sections_text(sections: Seq<SectionModel>) -> Seq<char>
    decreases sections.len(),
{
    if sections.len() == 0 {
        Seq::empty()
    } else {
        sections_text(sections.drop_last()) + section_text(sections.last())
    }
}

pub open spec fn sections_markdown(sections: Seq<SectionModel>) -> Seq<char>
    decreases sections.len(),
{
    if sections.len() == 0 {
        Seq::empty()
    } else {
        sections_markdown(sections.drop_last()) + section_markdown(sections.last())
    }
}

/// The terminal text of the cost rollup; nothing where there is no spend.
pub open spec fn cost_text(spend: Seq<GroupModel>) -> Seq<char> {
    if spend.len() == 0 {
        Seq::empty()
    } else {
        "\ncost — by "@ + "project"@ + ", ranked by "@ + "cost_usd"@ + "\n"@ + text_table_of(
            "project"@,
            "sessions"@,
            spend,
            None,
        )
    }
}

/// The Markdown of the cost rollup; nothing where there is no spend.
pub open spec fn cost_markdown(spend: Seq<GroupModel>) -> Seq<char> {
    if spend.len() == 0 {
        Seq::empty()
    } else {
        "\n## cost — by "@ + "project"@ + ", ranked by "@ + "cost_usd"@ + "\n\n"@
            + markdown_table_of("project"@, "sessions"@, spend, None)
    }
}

/// The terminal text of a report and its cost rollup.
pub open spec fn report_text(report: ReportModel, spend: Seq<GroupModel>) -> Seq<char> {
    "=== hatel — rolling "@ + report.window + scope_text(report.project, report.filters)
        + " ===\n"@ + (match report.unreadable {
        Some(names) => "  ("@ + gap_text(names) + ")\n"@,
        None => Seq::empty(),
    }) + sections_text(report.kinds) + cost_text(spend)
}

/// The Markdown of a report and its cost rollup.
pub open spec fn report_markdown(report: ReportModel, spend: Seq<GroupModel>) -> Seq<char> {
    "# hatel — rolling "@ + report.window + scope_text(report.project, report.filters) + "\n"@ + (
    match report.unreadable {
        Some(names) => "\n_"@ + gap_text(names) + "_\n"@,
        None => Seq::empty(),
    }) + sections_markdown(report.kinds) + cost_markdown(spend)
}

fn push_section(out: &mut String, section: &KindSection)
    ensures
        final(out)@ == old(out)@ + section_text(section.model()),
{
    let ghost start = out@;
    let head = crate::text::cat5("\n", &section.kind, " — ", &axes(section), "\n");
    out.append(&head);
    out.append(&text_table(&section.group_by, "count", &section.groups, note(section)));
    assert(out@ =~= start + section_text(section.model()));
}

fn push_section_markdown(out: &mut String, section: &KindSection)
    ensures
        final(out)@ == old(out)@ + section_markdown(section.model()),
{
    let ghost start = out@;
    let head = crate::text::cat5("\n## ", &section.kind, " — ", &axes(section), "\n\n");
    out.append(&head);
    out.append(&markdown_table(&section.group_by, "count", &section.groups, note(section)));
    assert(out@ =~= start + section_markdown(section.model()));
}

fn cost_section(spend: &Vec<GroupAgg>) -> (r: String)
    ensures
        r@ == cost_text(group_models(spend@)),
{
    if spend.len() == 0 {
        return String::new();
    }
    let mut out = crate::text::cat5(
        "\ncost — by ",
        COST_DIMENSION,
        ", ranked by ",
        COST_RANK,
        "\n",
    );
    out.append(&text_table(COST_DIMENSION, "sessions", spend, None));
    out
}

fn cost_section_markdown(spend: &Vec<GroupAgg>) -> (r: String)
    ensures
        r@ == cost_markdown(group_models(spend@)),
{
    if spend.len() == 0 {
        return String::new();
    }
    let mut out = crate::text::cat5(
        "\n## cost — by ",
        COST_DIMENSION,
        ", ranked by ",
        COST_RANK,
        "\n\n",
    );
    out.append(&markdown_table(COST_DIMENSION, "sessions", spend, None));
    out
}

/// Render a report as terminal text; `spend` is its ranked cost rollup.
pub fn format_text(report: &Report, spend: &Vec<GroupAgg>) -> (r: String)
    ensures
        r@ == report_text(report.model(), group_models(spend@)),
{
    let mut out = crate::text::cat4(
        "=== hatel — rolling ",
        &report.window,
        &scope(report),
        " ===\n",
    );
    if let Some(gap) = &report.unreadable_kinds {
        let ghost held = out@;
        out.append("  (");
        out.append(&gap.message());
        out.append(")\n");
        assert(out@ =~= held + ("  ("@ + gap_text(views(gap.names@)) + ")\n"@));
    } else {
        assert(out@ =~= out@ + Seq::<char>::empty());
    }
    let ghost all = section_models(report.kinds@);
    let ghost top = out@;
    let mut i: usize = 0;
    assert(all.take(0) =~= Seq::<SectionModel>::empty());
    assert(top + sections_text(all.take(0)) =~= top);
    while i < report.kinds.len()
        invariant
            0 <= i <= report.kinds.len(),
            all == section_models(report.kinds@),
            out@ == top + sections_text(all.take(i as int)),
        decreases report.kinds.len() - i,
    {
        let section = &report.kinds[i];
        proof {
            assert(all.take(i + 1).drop_last() =~= all.take(i as int));
            assert(all.take(i + 1).last() == section.model());
        }
        push_section(&mut out, section);
        assert(out@ =~= top + sections_text(all.take(i + 1)));
        i = i + 1;
    }
    assert(all.take(report.kinds.len() as int) =~= all);
    out.append(&cost_section(spend));
    out
}

/// Render a report as Markdown; `spend` is its ranked cost rollup.
pub fn format_markdown(report: &Report, spend: &Vec<GroupAgg>) -> (r: String)
    ensures
        r@ == report_markdown(report.model(), group_models(spend@)),
{
    let mut out = crate::text::cat4("# hatel — rolling ", &report.window, &scope(report), "\n");
    if let Some(gap) = &report.unreadable_kinds {
        let ghost held = out@;
        out.append("\n_");
        out.append(&gap.message());
        out.append("_\n");
        assert(out@ =~= held + ("\n_"@ + gap_text(views(gap.names@)) + "_\n"@));
    } else {
        assert(out@ =~= out@ + Seq::<char>::empty());
    }
    let ghost all = section_models(report.kinds@);
    let ghost top = out@;
    let mut i: usize = 0;
    assert(all.take(0) =~= Seq::<SectionModel>::empty());
    assert(top + sections_markdown(all.take(0)) =~= top);
    while i < report.kinds.len()
        invariant
            0 <= i <= report.kinds.len(),
            all == section_models(report.kinds@),
            out@ == top + sections_markdown(all.take(i as int)),
        decreases report.kinds.len() - i,
    {
        let section = &report.kinds[i];
        proof {
            assert(all.take(i + 1).drop_last() =~= all.take(i as int));
            assert(all.take(i + 1).last() == section.model());
        }
        push_section_markdown(&mut out, section);
        assert(out@ =~= top + sections_markdown(all.take(i + 1)));
        i = i + 1;
    }
    assert(all.take(report.kinds.len() as int) =~= all);
    out.append(&cost_section_markdown(spend));
    out
}

} // verus!
