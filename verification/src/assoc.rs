//! Maps from strings, kept as lists of entries.
use vstd::prelude::*;
use crate::order::less;
use crate::sorted::{ascending, insert, lemma_ascending_unique, lemma_inserted, same_elements};
use crate::text::{owned, same, views};

verus! {

broadcast use vstd::map::group_map_axioms;

/// The map a list of entries stands for; a later entry replaces an earlier one.
pub open spec fn entries<V>(m: Seq<(String, V)>) -> Map<Seq<char>, V>
    decreases m.len(),
{
    if m.len() == 0 {
        Map::empty()
    } else {
        entries(m.drop_last()).insert(m.last().0@, m.last().1)
    }
}

/// The last position of a key is the one the map reads.
pub proof fn lemma_entries_at<V>(m: Seq<(String, V)>, key: Seq<char>, at: int)
    requires
        0 <= at < m.len(),
        m[at].0@ == key,
        forall|k: int| at < k < m.len() ==> m[k].0@ != key,
    ensures
        entries(m).contains_key(key),
        entries(m)[key] == m[at].1,
    decreases m.len(),
{
    if at < m.len() - 1 {
        lemma_entries_at(m.drop_last(), key, at);
    }
}

/// A key that occurs nowhere is not in the map.
pub proof fn lemma_entries_absent<V>(m: Seq<(String, V)>, key: Seq<char>)
    requires
        forall|k: int| 0 <= k < m.len() ==> m[k].0@ != key,
    ensures
        !entries(m).contains_key(key),
    decreases m.len(),
{
    if m.len() > 0 {
        lemma_entries_absent(m.drop_last(), key);
    }
}

proof fn lemma_entries_insert<V>(m: Seq<(String, V)>, at: int, e: (String, V))
    requires
        0 <= at <= m.len(),
        forall|k: int| 0 <= k < m.len() ==> m[k].0@ != e.0@,
    ensures
        entries(m.insert(at, e)) == entries(m).insert(e.0@, e.1),
    decreases m.len(),
{
    let n = m.insert(at, e);
    if at == m.len() {
        assert(n.drop_last() =~= m);
    } else {
        assert(n.drop_last() =~= m.drop_last().insert(at, e));
        assert(n.last() == m.last());
        lemma_entries_insert(m.drop_last(), at, e);
        assert(entries(m.drop_last()).insert(e.0@, e.1).insert(m.last().0@, m.last().1) =~= entries(
            m.drop_last(),
        ).insert(m.last().0@, m.last().1).insert(e.0@, e.1));
    }
}

proof fn lemma_entries_update<V>(m: Seq<(String, V)>, at: int, e: (String, V))
    requires
        0 <= at < m.len(),
        m[at].0@ == e.0@,
        forall|k: int| at < k < m.len() ==> m[k].0@ != e.0@,
    ensures
        entries(m.update(at, e)) == entries(m).insert(e.0@, e.1),
    decreases m.len(),
{
    let n = m.update(at, e);
    if at == m.len() - 1 {
        assert(n.drop_last() =~= m.drop_last());
        assert(entries(m.drop_last()).insert(e.0@, e.1) =~= entries(m.drop_last()).insert(
            m.last().0@,
            m.last().1,
        ).insert(e.0@, e.1));
    } else {
        assert(n.drop_last() =~= m.drop_last().update(at, e));
        assert(n.last() == m.last());
        lemma_entries_update(m.drop_last(), at, e);
        assert(entries(m.drop_last()).insert(e.0@, e.1).insert(m.last().0@, m.last().1) =~= entries(
            m.drop_last(),
        ).insert(m.last().0@, m.last().1).insert(e.0@, e.1));
    }
}

/// The position of the last entry of `key`, or the length of the list where there is none.
pub fn find<V>(m: &Vec<(String, V)>, key: &str) -> (r: usize)
    ensures
        r <= m.len(),
        r < m.len() ==> m@[r as int].0@ == key@ && entries(m@).contains_key(key@)
            && entries(m@)[key@] == m@[r as int].1 && (forall|k: int|
            r < k < m.len() ==> m@[k].0@ != key@),
        r == m.len() ==> !entries(m@).contains_key(key@) && (forall|k: int|
            0 <= k < m.len() ==> m@[k].0@ != key@),
{
    let mut i: usize = m.len();
    while i > 0
        invariant
            0 <= i <= m.len(),
            forall|k: int| i <= k < m.len() ==> m@[k].0@ != key@,
        decreases i,
    {
        if same(&m[i - 1].0, key) {
            proof {
                lemma_entries_at(m@, key@, i - 1);
            }
            return i - 1;
        }
        i = i - 1;
    }
    proof {
        lemma_entries_absent(m@, key@);
    }
    m.len()
}

/// Set the value of a key, in place where it is already there and in key order where it is not.
pub fn put<V>(m: &mut Vec<(String, V)>, key: &str, value: V)
    ensures
        entries(final(m)@) == entries(old(m)@).insert(key@, value),
{
    let at = find(m, key);
    let entry = (owned(key), value);
    if at < m.len() {
        proof {
            lemma_entries_update(m@, at as int, entry);
        }
        m.set(at, entry);
    } else {
        let mut p: usize = 0;
        while p < m.len() && less(&m[p].0, key)
            invariant
                0 <= p <= m.len(),
            decreases m.len() - p,
        {
            p = p + 1;
        }
        proof {
            lemma_entries_insert(m@, p as int, entry);
        }
        m.insert(p, entry);
    }
}

/// `keys` lists the keys of a map in ascending order, each once.
pub open spec fn lists<V>(keys: Seq<Seq<char>>, m: Map<Seq<char>, V>) -> bool {
    ascending(keys) && forall|k: Seq<char>| #[trigger] keys.contains(k) <==> m.contains_key(k)
}

/// The keys of a map in ascending order.
pub open spec fn ordered_keys<V>(m: Map<Seq<char>, V>) -> Seq<Seq<char>> {
    choose|keys: Seq<Seq<char>>| lists(keys, m)
}

/// There is only one such list.
pub proof fn lemma_ordered_keys<V>(m: Map<Seq<char>, V>, keys: Seq<Seq<char>>)
    requires
        lists(keys, m),
    ensures
        ordered_keys(m) == keys,
{
    let k = ordered_keys(m);
    assert(lists(k, m));
    assert(same_elements(k, keys)) by {
        assert forall|x: Seq<char>| #[trigger] k.contains(x) <==> keys.contains(x) by {
            assert(k.contains(x) <==> m.contains_key(x));
            assert(keys.contains(x) <==> m.contains_key(x));
        }
    }
    lemma_ascending_unique(k, keys);
}

/// The keys of a list of entries, ascending.
pub fn keys_of<V>(m: &Vec<(String, V)>) -> (r: Vec<String>)
    ensures
        views(r@) == ordered_keys(entries(m@)),
        lists(views(r@), entries(m@)),
{
    let mut out: Vec<String> = Vec::new();
    let mut i: usize = 0;
    assert(views(out@) =~= Seq::<Seq<char>>::empty());
    while i < m.len()
        invariant
            0 <= i <= m.len(),
            lists(views(out@), entries(m@.take(i as int))),
        decreases m.len() - i,
    {
        let ghost held = views(out@);
        proof {
            assert(m@.take(i + 1).drop_last() =~= m@.take(i as int));
            lemma_inserted(held, m@[i as int].0@);
        }
        insert(&mut out, &m[i].0);
        proof {
            assert forall|k: Seq<char>| #[trigger]
                views(out@).contains(k) <==> entries(m@.take(i + 1)).contains_key(k) by {
                assert(held.contains(k) <==> entries(m@.take(i as int)).contains_key(k));
            }
        }
        i = i + 1;
    }
    proof {
        assert(m@.take(m.len() as int) =~= m@);
        lemma_ordered_keys(entries(m@), views(out@));
    }
    out
}

} // verus!
