//! What cutting, joining, trimming and ordering of texts mean, each by what it undoes.
use vstd::prelude::*;
use crate::order::before;
use crate::text::{
    after_last, before_first, first_at, halves, is_white, joined, last_at, last_halves,
    lemma_first_at, lemma_first_at_is_first, lemma_pieces_concat, lemma_pieces_nonempty,
    lemma_pieces_whole, lower, pieces, same_letters, trimmed, trimmed_end, trimmed_start,
    without_prefix, without_suffix,
};

verus! {

/// Joining two lists joins the two joined texts; one part stands for itself, and none for nothing.
pub proof fn law_joining_adds_up(a: Seq<Seq<char>>, b: Seq<Seq<char>>, sep: Seq<char>, x: Seq<char>)
    ensures
        a.len() > 0 && b.len() > 0 ==> joined(a + b, sep) == joined(a, sep) + sep + joined(b, sep),
        joined(seq![x], sep) == x,
        joined(Seq::empty(), sep) == Seq::<char>::empty(),
    decreases b.len(),
{
    if a.len() > 0 && b.len() > 0 {
        assert((a + b).drop_last() =~= a + b.drop_last());
        assert((a + b).last() == b.last());
        if b.len() == 1 {
            assert(a + b.drop_last() =~= a);
            assert(b[0] == b.last());
        } else {
            law_joining_adds_up(a, b.drop_last(), sep, x);
            assert(joined(a, sep) + sep + joined(b.drop_last(), sep) + sep + b.last() =~= joined(
                a,
                sep,
            ) + sep + (joined(b.drop_last(), sep) + sep + b.last()));
        }
    }
}

/// The pieces of a text, joined again, are the text, and none of them holds the separator.
pub proof fn law_pieces_are_a_cut(s: Seq<char>, c: char)
    ensures
        joined(pieces(s, c), seq![c]) == s,
        forall|i: int| 0 <= i < pieces(s, c).len() ==> !(#[trigger] pieces(s, c)[i]).contains(c),
    decreases s.len(),
{
    let i = first_at(s, c);
    lemma_first_at_is_first(s, c);
    if i == s.len() {
        assert(!s.contains(c)) by {
            if s.contains(c) {
                let k = s.index_of(c);
                assert(s[k] == c);
            }
        }
        lemma_pieces_whole(s, c);
        law_joining_adds_up(Seq::empty(), Seq::empty(), seq![c], s);
    } else {
        let a = s.take(i);
        let b = s.skip(i + 1);
        assert(s =~= a.push(c) + b);
        lemma_pieces_concat(a, b, c);
        assert(!a.contains(c)) by {
            if a.contains(c) {
                let k = a.index_of(c);
                assert(s[k] == c);
            }
        }
        lemma_pieces_whole(a, c);
        law_pieces_are_a_cut(b, c);
        lemma_pieces_nonempty(b, c);
        law_joining_adds_up(seq![a], pieces(b, c), seq![c], a);
        assert(pieces(s, c) == seq![a] + pieces(b, c));
        assert(a + seq![c] + b =~= s);
        assert forall|k: int| 0 <= k < pieces(s, c).len() implies !(
        #[trigger] pieces(s, c)[k]).contains(c) by {
            if k > 0 {
                assert(pieces(s, c)[k] == pieces(b, c)[k - 1]);
            }
        }
    }
}

/// Cutting what was joined gives the parts again, where none of them holds the separator.
pub proof fn law_cutting_undoes_joining(parts: Seq<Seq<char>>, c: char)
    requires
        parts.len() > 0,
        forall|i: int| 0 <= i < parts.len() ==> !(#[trigger] parts[i]).contains(c),
    ensures
        pieces(joined(parts, seq![c]), c) == parts,
    decreases parts.len(),
{
    let last = parts.last();
    assert(parts[parts.len() - 1] == last);
    lemma_pieces_whole(last, c);
    if parts.len() == 1 {
        assert(parts =~= seq![last]);
    } else {
        let init = parts.drop_last();
        law_cutting_undoes_joining(init, c);
        let head = joined(init, seq![c]);
        assert(head + seq![c] + last =~= head.push(c) + last);
        lemma_pieces_concat(head, last, c);
        assert(init + seq![last] =~= parts);
    }
}

/// The halves of a text are what stands around its first separator, and a text without one has none.
pub proof fn law_halves_stand_around_the_first(s: Seq<char>, c: char, a: Seq<char>, b: Seq<char>)
    ensures
        halves(s, c) == Some((a, b)) <==> s == a + seq![c] + b && !a.contains(c),
        halves(s, c) is None <==> !s.contains(c),
{
    let i = first_at(s, c);
    lemma_first_at_is_first(s, c);
    if i < s.len() {
        let x = s.take(i);
        let y = s.skip(i + 1);
        assert(s =~= x + seq![c] + y);
        assert(s[i] == c);
        assert(!x.contains(c)) by {
            if x.contains(c) {
                let k = x.index_of(c);
                assert(s[k] == c);
            }
        }
    } else if s.contains(c) {
        let k = s.index_of(c);
        assert(s[k] == c);
    }
    if s == a + seq![c] + b && !a.contains(c) {
        let n = a.len() as int;
        assert(s[n] == c);
        assert forall|k: int| 0 <= k < n implies s[k] != c by {
            assert(s[k] == a[k]);
            assert(a.contains(a[k]));
        }
        lemma_first_at(s, c, n);
        assert(s.take(n) =~= a);
        assert(s.skip(n + 1) =~= b);
    }
}

/// What stands before the first of a character holds none of it, and the text goes on with it where
/// it goes on.
pub proof fn law_a_beginning_ends_before_the_first(s: Seq<char>, c: char)
    ensures
        before_first(s, c).is_prefix_of(s),
        !before_first(s, c).contains(c),
        before_first(s, c).len() < s.len() ==> s[before_first(s, c).len() as int] == c,
{
    lemma_first_at_is_first(s, c);
    let x = before_first(s, c);
    assert(s.subrange(0, x.len() as int) =~= x);
    if x.contains(c) {
        let k = x.index_of(c);
        assert(s[k] == c);
    }
}

proof fn lemma_last_at(s: Seq<char>, a: char, b: char)
    ensures
        -1 <= last_at(s, a, b) < s.len(),
        last_at(s, a, b) >= 0 ==> s[last_at(s, a, b)] == a || s[last_at(s, a, b)] == b,
        forall|k: int| last_at(s, a, b) < k < s.len() ==> (#[trigger] s[k]) != a && s[k] != b,
    decreases s.len(),
{
    if s.len() > 0 && s.last() != a && s.last() != b {
        let d = s.drop_last();
        lemma_last_at(d, a, b);
        assert forall|k: int| last_at(s, a, b) < k < s.len() implies (#[trigger] s[k]) != a && s[k]
            != b by {
            if k < d.len() {
                assert(d[k] == s[k]);
            }
        }
    }
}

/// The last halves of a text are what stands around its last separator.
pub proof fn law_last_halves_stand_around_the_last(
    s: Seq<char>,
    c: char,
    a: Seq<char>,
    b: Seq<char>,
)
    ensures
        last_halves(s, c) == Some((a, b)) <==> s == a + seq![c] + b && !b.contains(c),
        last_halves(s, c) is None <==> !s.contains(c),
{
    let i = last_at(s, c, c);
    lemma_last_at(s, c, c);
    if i >= 0 {
        let x = s.take(i);
        let y = s.skip(i + 1);
        assert(s =~= x + seq![c] + y);
        assert(s[i] == c);
        assert(!y.contains(c)) by {
            if y.contains(c) {
                let k = y.index_of(c);
                assert(s[k + i + 1] == c);
            }
        }
    } else if s.contains(c) {
        let k = s.index_of(c);
        assert(s[k] != c);
    }
    if s == a + seq![c] + b && !b.contains(c) {
        let n = a.len() as int;
        assert(s[n] == c);
        assert(i == n) by {
            if i > n {
                assert(s[i] == b[i - n - 1]);
                assert(b.contains(b[i - n - 1]));
            }
            if i < n {
                assert(s[n] != c);
            }
        }
        assert(s.take(n) =~= a);
        assert(s.skip(n + 1) =~= b);
    }
}

/// What stands behind the last of two characters holds neither, and one of them stands before it
/// where anything does.
pub proof fn law_an_end_begins_behind_the_last(s: Seq<char>, a: char, b: char)
    ensures
        after_last(s, a, b).is_suffix_of(s),
        !after_last(s, a, b).contains(a),
        !after_last(s, a, b).contains(b),
        after_last(s, a, b).len() < s.len() ==> {
            let x = s[s.len() - after_last(s, a, b).len() - 1];
            x == a || x == b
        },
{
    lemma_last_at(s, a, b);
    let i = last_at(s, a, b);
    let y = after_last(s, a, b);
    assert(s.subrange(s.len() - y.len(), s.len() as int) =~= y);
    if y.contains(a) {
        let k = y.index_of(a);
        assert(s[k + i + 1] == a);
    }
    if y.contains(b) {
        let k = y.index_of(b);
        assert(s[k + i + 1] == b);
    }
}

/// A prefix is taken off exactly where the text goes on behind it, and a suffix where it goes on
/// before it: what is left is the rest.
pub proof fn law_a_prefix_is_taken_off(s: Seq<char>, x: Seq<char>, rest: Seq<char>)
    ensures
        without_prefix(s, x) == Some(rest) <==> s == x + rest,
        without_suffix(s, x) == Some(rest) <==> s == rest + x,
{
    if x.is_prefix_of(s) {
        assert(x + s.skip(x.len() as int) =~= s);
    }
    if s == x + rest {
        assert(s.subrange(0, x.len() as int) =~= x);
        assert(s.skip(x.len() as int) =~= rest);
    }
    if x.is_suffix_of(s) {
        assert(s.take(s.len() - x.len()) + x =~= s);
    }
    if s == rest + x {
        assert(s.subrange(s.len() - x.len(), s.len() as int) =~= x);
        assert(s.take(s.len() - x.len()) =~= rest);
    }
}

proof fn lemma_trimmed_start(s: Seq<char>) -> (n: int)
    ensures
        0 <= n <= s.len(),
        trimmed_start(s) == s.skip(n),
        forall|i: int| 0 <= i < n ==> is_white(#[trigger] s[i]),
        n < s.len() ==> !is_white(s[n]),
    decreases s.len(),
{
    if s.len() > 0 && is_white(s[0]) {
        let rest = s.skip(1);
        let k = lemma_trimmed_start(rest);
        assert(rest.skip(k) =~= s.skip(k + 1));
        assert forall|i: int| 0 <= i < k + 1 implies is_white(#[trigger] s[i]) by {
            if i > 0 {
                assert(rest[i - 1] == s[i]);
            }
        }
        if k < rest.len() {
            assert(rest[k] == s[k + 1]);
        }
        k + 1
    } else {
        assert(s.skip(0) =~= s);
        0
    }
}

proof fn lemma_trimmed_end(s: Seq<char>) -> (n: int)
    ensures
        0 <= n <= s.len(),
        trimmed_end(s) == s.take(n),
        forall|i: int| n <= i < s.len() ==> is_white(#[trigger] s[i]),
        n > 0 ==> !is_white(s[n - 1]),
    decreases s.len(),
{
    if s.len() > 0 && is_white(s.last()) {
        let rest = s.drop_last();
        let k = lemma_trimmed_end(rest);
        assert(rest.take(k) =~= s.take(k));
        assert forall|i: int| k <= i < s.len() implies is_white(#[trigger] s[i]) by {
            if i < rest.len() {
                assert(rest[i] == s[i]);
            }
        }
        k
    } else {
        assert(s.take(s.len() as int) =~= s);
        s.len() as int
    }
}

/// Only white space stands around a trimmed text, and it neither begins nor ends with any.
pub proof fn law_trimming_takes_the_white_space_around(s: Seq<char>)
    ensures
        exists|from: int, to: int|
            0 <= from <= to <= s.len() && trimmed(s) == #[trigger] s.subrange(from, to) && (forall|
                i: int,
            |
                0 <= i < from || to <= i < s.len() ==> is_white(#[trigger] s[i])),
        trimmed(s).len() > 0 ==> !is_white(trimmed(s)[0]) && !is_white(trimmed(s).last()),
{
    let a = lemma_trimmed_start(s);
    let mid = s.skip(a);
    let n = lemma_trimmed_end(mid);
    let b = a + n;
    assert(mid.take(n) =~= s.subrange(a, b));
    assert forall|i: int| 0 <= i < a || b <= i < s.len() implies is_white(#[trigger] s[i]) by {
        if i >= b {
            assert(mid[i - a] == s[i]);
        }
    }
    if n > 0 {
        assert(mid[0] == s[a]);
        assert(trimmed(s)[0] == s[a]);
        assert(trimmed(s).last() == mid[n - 1]);
    }
}

/// The case of a letter of the Latin alphabet makes no difference, and that of nothing else.
pub proof fn law_only_letters_have_a_case(a: char, b: char)
    ensures
        lower(a) == lower(b) <==> a == b || ('A' <= a <= 'Z' && b as u32 == a as u32 + 32) || ('A'
            <= b <= 'Z' && a as u32 == b as u32 + 32),
        same_letters(seq![a], seq![b]) <==> lower(a) == lower(b),
{
    let x = seq![a];
    let y = seq![b];
    assert(x[0] == a && y[0] == b);
}

/// Texts are ordered by the first character in which they differ, and a text comes before every
/// longer one that begins with it.
pub proof fn law_the_first_difference_orders(
    p: Seq<char>,
    x: char,
    y: char,
    a: Seq<char>,
    b: Seq<char>,
)
    ensures
        x != y ==> (before(p.push(x) + a, p.push(y) + b) <==> x < y),
        before(p, p.push(x) + a),
        !before(p.push(x) + a, p),
        !before(p, p),
    decreases p.len(),
{
    let s = p.push(x) + a;
    let t = p.push(y) + b;
    if p.len() == 0 {
        assert(s[0] == x && t[0] == y);
    } else {
        let q = p.skip(1);
        law_the_first_difference_orders(q, x, y, a, b);
        assert(s.skip(1) =~= q.push(x) + a);
        assert(t.skip(1) =~= q.push(y) + b);
        assert(s[0] == p[0] && t[0] == p[0]);
    }
}

} // verus!
