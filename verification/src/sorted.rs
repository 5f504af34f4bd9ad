//! Sets of strings kept as strictly ascending lists.
use vstd::prelude::*;
use crate::order::{before, lemma_irreflexive, lemma_total, lemma_transitive, less};
use crate::text::{owned, same, views};

verus! {

/// Each text comes strictly before every later one; in particular none occurs twice.
pub open spec fn ascending(s: Seq<Seq<char>>) -> bool {
    forall|i: int, j: int| 0 <= i < j < s.len() ==> before(#[trigger] s[i], #[trigger] s[j])
}

/// Two lists hold the same texts.
pub open spec fn same_elements(a: Seq<Seq<char>>, b: Seq<Seq<char>>) -> bool {
    forall|x: Seq<char>| #[trigger] a.contains(x) <==> b.contains(x)
}

/// `r` lists the elements of `s` in ascending order, each once.
pub open spec fn is_sorted_set_of(r: Seq<Seq<char>>, s: Seq<Seq<char>>) -> bool {
    ascending(r) && same_elements(r, s)
}

/// The elements of `s` in ascending order, each once.
pub open spec fn sorted_set(s: Seq<Seq<char>>) -> Seq<Seq<char>>
    decreases s.len(),
{
    if s.len() == 0 {
        Seq::empty()
    } else {
        inserted(sorted_set(s.drop_last()), s.last())
    }
}

/// How many leading elements come before `x`.
pub open spec fn rank_of(s: Seq<Seq<char>>, x: Seq<char>) -> int
    decreases s.len(),
{
    if s.len() == 0 || !before(s[0], x) {
        0
    } else {
        1 + rank_of(s.skip(1), x)
    }
}

/// An ascending list with `x` put in its place, where it is not there already.
pub open spec fn inserted(s: Seq<Seq<char>>, x: Seq<char>) -> Seq<Seq<char>> {
    if s.contains(x) {
        s
    } else {
        s.insert(rank_of(s, x), x)
    }
}

/// The rank is the length of the run of leading elements that come before `x`.
pub proof fn lemma_rank(s: Seq<Seq<char>>, x: Seq<char>, r: int)
    requires
        0 <= r <= s.len(),
        forall|k: int| 0 <= k < r ==> before(#[trigger] s[k], x),
        r < s.len() ==> !before(s[r], x),
    ensures
        rank_of(s, x) == r,
    decreases s.len(),
{
    if r > 0 {
        assert(before(s[0], x));
        assert forall|k: int| 0 <= k < r - 1 implies before(#[trigger] s.skip(1)[k], x) by {
            assert(s.skip(1)[k] == s[k + 1]);
        }
        lemma_rank(s.skip(1), x, r - 1);
    }
}

/// What the rank says of the elements.
pub proof fn lemma_rank_bounds(s: Seq<Seq<char>>, x: Seq<char>)
    ensures
        0 <= rank_of(s, x) <= s.len(),
        forall|k: int| 0 <= k < rank_of(s, x) ==> before(#[trigger] s[k], x),
        rank_of(s, x) < s.len() ==> !before(s[rank_of(s, x)], x),
    decreases s.len(),
{
    if s.len() > 0 && before(s[0], x) {
        lemma_rank_bounds(s.skip(1), x);
        assert forall|k: int| 0 <= k < rank_of(s, x) implies before(#[trigger] s[k], x) by {
            if k > 0 {
                assert(s.skip(1)[k - 1] == s[k]);
            }
        }
    }
}

/// Inserting keeps the order and adds exactly the one element.
pub proof fn lemma_inserted(s: Seq<Seq<char>>, x: Seq<char>)
    requires
        ascending(s),
    ensures
        ascending(inserted(s, x)),
        forall|y: Seq<char>| #[trigger] inserted(s, x).contains(y) <==> s.contains(y) || y == x,
{
    if !s.contains(x) {
        lemma_rank_bounds(s, x);
        let r = rank_of(s, x);
        let n = s.insert(r, x);
        assert forall|i: int, j: int| 0 <= i < j < n.len() implies before(
            #[trigger] n[i],
            #[trigger] n[j],
        ) by {
            let a = if i < r { i } else { i - 1 };
            let b = if j < r { j } else { j - 1 };
            if i == r {
                lemma_total(s[r], x);
                assert(before(x, s[r]));
                if j - 1 > r {
                    lemma_transitive(x, s[r], s[j - 1]);
                }
            } else if j == r {
                assert(before(s[i], x));
            } else {
                assert(before(s[a], s[b]));
            }
        }
        assert forall|y: Seq<char>| #[trigger] n.contains(y) <==> s.contains(y) || y == x by {
            if s.contains(y) {
                let k = choose|k: int| 0 <= k < s.len() && s[k] == y;
                if k < r {
                    assert(n[k] == y);
                } else {
                    assert(n[k + 1] == y);
                }
            }
            if y == x {
                assert(n[r] == y);
            }
            if n.contains(y) {
                let k = choose|k: int| 0 <= k < n.len() && n[k] == y;
                if k < r {
                    assert(s[k] == y);
                } else if k > r {
                    assert(s[k - 1] == y);
                }
            }
        }
    }
}

/// The sorted set of a list is ascending and has exactly the elements of the list.
pub proof fn lemma_sorted_set(s: Seq<Seq<char>>)
    ensures
        is_sorted_set_of(sorted_set(s), s),
    decreases s.len(),
{
    if s.len() > 0 {
        let d = s.drop_last();
        lemma_sorted_set(d);
        lemma_inserted(sorted_set(d), s.last());
        assert forall|x: Seq<char>| #[trigger] sorted_set(s).contains(x) <==> s.contains(x) by {
            if s.contains(x) {
                let k = choose|k: int| 0 <= k < s.len() && s[k] == x;
                if k < d.len() {
                    assert(d[k] == x);
                }
            }
            if d.contains(x) {
                let k = choose|k: int| 0 <= k < d.len() && d[k] == x;
                assert(s[k] == x);
            }
            assert(s[s.len() - 1] == s.last());
            assert(sorted_set(d).contains(x) <==> d.contains(x));
        }
    }
}

/// An ascending list is determined by its elements.
pub proof fn lemma_ascending_unique(a: Seq<Seq<char>>, b: Seq<Seq<char>>)
    requires
        ascending(a),
        ascending(b),
        same_elements(a, b),
    ensures
        a == b,
    decreases a.len(),
{
    if a.len() == 0 {
        if b.len() > 0 {
            assert(b.contains(b[0]));
            assert(a.contains(b[0]));
        }
        assert(a =~= b);
    } else {
        assert(a.contains(a[0]));
        assert(b.contains(a[0]));
        assert(b.contains(b[0]));
        assert(a.contains(b[0]));
        let i = choose|i: int| 0 <= i < b.len() && b[i] == a[0];
        let j = choose|j: int| 0 <= j < a.len() && a[j] == b[0];
        if i > 0 {
            assert(before(b[0], b[i]));
            if j > 0 {
                assert(before(a[0], a[j]));
                lemma_transitive(a[0], b[0], a[0]);
            }
            lemma_irreflexive(a[0]);
        }
        assert(a[0] == b[0]);
        let x = a.skip(1);
        let y = b.skip(1);
        assert(ascending(x)) by {
            assert forall|i: int, j: int| 0 <= i < j < x.len() implies before(
                #[trigger] x[i],
                #[trigger] x[j],
            ) by {
                assert(before(a[i + 1], a[j + 1]));
            }
        }
        assert(ascending(y)) by {
            assert forall|i: int, j: int| 0 <= i < j < y.len() implies before(
                #[trigger] y[i],
                #[trigger] y[j],
            ) by {
                assert(before(b[i + 1], b[j + 1]));
            }
        }
        assert forall|e: Seq<char>| #[trigger] x.contains(e) <==> y.contains(e) by {
            lemma_irreflexive(a[0]);
            if x.contains(e) {
                let k = choose|k: int| 0 <= k < x.len() && x[k] == e;
                assert(a[k + 1] == e);
                assert(before(a[0], a[k + 1]));
                assert(a.contains(e));
                assert(b.contains(e));
                let n = choose|n: int| 0 <= n < b.len() && b[n] == e;
                assert(n != 0);
                assert(y[n - 1] == e);
            }
            if y.contains(e) {
                let k = choose|k: int| 0 <= k < y.len() && y[k] == e;
                assert(b[k + 1] == e);
                assert(before(b[0], b[k + 1]));
                assert(b.contains(e));
                assert(a.contains(e));
                let n = choose|n: int| 0 <= n < a.len() && a[n] == e;
                assert(n != 0);
                assert(x[n - 1] == e);
            }
        }
        lemma_ascending_unique(x, y);
        assert(a =~= b) by {
            assert forall|k: int| 0 <= k < a.len() implies a[k] == b[k] by {
                if k > 0 {
                    assert(x[k - 1] == a[k]);
                    assert(y[k - 1] == b[k]);
                }
            }
            assert(a.len() == x.len() + 1);
            assert(b.len() == y.len() + 1);
        }
    }
}

/// Put `x` into an ascending list, where it is not there already; tells whether it was put in.
pub fn insert(list: &mut Vec<String>, x: &str) -> (fresh: bool)
    requires
        ascending(views(old(list)@)),
    ensures
        views(final(list)@) == inserted(views(old(list)@), x@),
        ascending(views(final(list)@)),
        fresh == !views(old(list)@).contains(x@),
{
    let ghost s = views(list@);
    let mut r: usize = 0;
    while r < list.len() && less(&list[r], x)
        invariant
            0 <= r <= list@.len(),
            s == views(list@),
            forall|k: int| 0 <= k < r ==> before(#[trigger] s[k], x@),
        decreases list@.len() - r,
    {
        r = r + 1;
    }
    proof {
        lemma_rank(s, x@, r as int);
        lemma_inserted(s, x@);
    }
    if r < list.len() && same(&list[r], x) {
        assert(s[r as int] == x@);
        return false;
    }
    proof {
        if s.contains(x@) {
            let k = choose|k: int| 0 <= k < s.len() && s[k] == x@;
            lemma_irreflexive(x@);
            assert(k >= r);
            if k > r {
                assert(before(s[r as int], s[k]));
            }
        }
    }
    list.insert(r, owned(x));
    assert(views(list@) =~= s.insert(r as int, x@));
    true
}

/// The elements of a list in ascending order, each once.
pub fn sort_set(list: &Vec<String>) -> (r: Vec<String>)
    ensures
        views(r@) == sorted_set(views(list@)),
        is_sorted_set_of(views(r@), views(list@)),
{
    let mut out: Vec<String> = Vec::new();
    let mut i: usize = 0;
    assert(views(out@) =~= Seq::<Seq<char>>::empty());
    assert(views(list@).take(0) =~= Seq::<Seq<char>>::empty());
    while i < list.len()
        invariant
            0 <= i <= list.len(),
            ascending(views(out@)),
            views(out@) == sorted_set(views(list@).take(i as int)),
        decreases list.len() - i,
    {
        proof {
            assert(views(list@).take(i + 1).drop_last() =~= views(list@).take(i as int));
            assert(views(list@).take(i + 1).last() == list@[i as int]@);
        }
        insert(&mut out, &list[i]);
        i = i + 1;
    }
    proof {
        assert(views(list@).take(list.len() as int) =~= views(list@));
        lemma_sorted_set(views(list@));
    }
    out
}

} // verus!
