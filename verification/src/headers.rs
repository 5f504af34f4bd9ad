//! Maps from strings to strings, such as request headers.
use vstd::prelude::*;
use crate::assoc::{entries, find, keys_of, lists, put};
use crate::text::{owned, views};

verus! {

broadcast use vstd::map::group_map_axioms;

/// A map from names to values.
#[derive(Debug, PartialEq, Eq)]
pub struct Headers {
    list: Vec<(String, String)>,
}

impl Headers {
    /// The values by name.
    pub closed spec fn view(self) -> Map<Seq<char>, Seq<char>> {
        Map::new(
            |k: Seq<char>| entries(self.list@).contains_key(k),
            |k: Seq<char>| entries(self.list@)[k]@,
        )
    }

    /// A map without entries.
    pub fn new() -> (r: Headers)
        ensures
            r@ == Map::<Seq<char>, Seq<char>>::empty(),
    {
        let r = Headers { list: Vec::new() };
        assert(r@ =~= Map::<Seq<char>, Seq<char>>::empty());
        r
    }

    /// The value of a name.
    pub fn get(&self, name: &str) -> (r: Option<&str>)
        ensures
            crate::text::opt_str_view(r) == if self@.contains_key(name@) {
                Some(self@[name@])
            } else {
                None
            },
    {
        let at = find(&self.list, name);
        if at < self.list.len() {
            Some(self.list[at].1.as_str())
        } else {
            None
        }
    }

    /// Whether a name has a value.
    pub fn contains_key(&self, name: &str) -> (r: bool)
        ensures
            r == self@.contains_key(name@),
    {
        find(&self.list, name) < self.list.len()
    }

    /// Give a name a value.
    pub fn insert(&mut self, name: &str, value: &str)
        ensures
            final(self)@ == old(self)@.insert(name@, value@),
    {
        let v = owned(value);
        put(&mut self.list, name, v);
        assert(self@ =~= old(self)@.insert(name@, value@));
    }

    /// The names, ascending.
    pub fn names(&self) -> (r: Vec<String>)
        ensures
            lists(views(r@), self@),
    {
        let r = keys_of(&self.list);
        proof {
            assert forall|k: Seq<char>| #[trigger]
                views(r@).contains(k) <==> self@.contains_key(k) by {
                assert(views(r@).contains(k) <==> entries(self.list@).contains_key(k));
            }
        }
        r
    }

    /// Whether no name has a value.
    pub fn is_empty(&self) -> (r: bool)
        ensures
            r == (self@ == Map::<Seq<char>, Seq<char>>::empty()),
    {
        if self.list.len() == 0 {
            assert(self@ =~= Map::<Seq<char>, Seq<char>>::empty());
            true
        } else {
            let ghost at = self.list@.len() - 1;
            proof {
                crate::assoc::lemma_entries_at(self.list@, self.list@[at].0@, at);
                assert(self@.contains_key(self.list@[at].0@));
            }
            false
        }
    }

    /// An independent copy.
    pub fn duplicate(&self) -> (r: Headers)
        ensures
            r@ == self@,
    {
        let mut out: Vec<(String, String)> = Vec::new();
        let mut i: usize = 0;
        assert(self.list@.take(0) =~= Seq::<(String, String)>::empty());
        let ghost all = self.list@;
        while i < self.list.len()
            invariant
                0 <= i <= self.list.len(),
                all == self.list@,
                forall|k: Seq<char>| #[trigger]
                    entries(out@).contains_key(k) == entries(all.take(i as int)).contains_key(k),
                forall|k: Seq<char>| #[trigger]
                    entries(out@).contains_key(k) ==> entries(out@)[k]@ == entries(
                        all.take(i as int),
                    )[k]@,
            decreases self.list.len() - i,
        {
            let ghost before = out@;
            let entry = (owned(&self.list[i].0), owned(&self.list[i].1));
            out.push(entry);
            proof {
                assert(out@.drop_last() =~= before);
                assert(all.take(i + 1).drop_last() =~= all.take(i as int));
                let was = entries(all.take(i as int));
                let now = entries(all.take(i + 1));
                assert(now == was.insert(all[i as int].0@, all[i as int].1));
                assert(entries(out@) == entries(before).insert(entry.0@, entry.1));
                assert forall|k: Seq<char>| #[trigger]
                    entries(out@).contains_key(k) == now.contains_key(k) by {
                    assert(entries(before).contains_key(k) == was.contains_key(k));
                }
                assert forall|k: Seq<char>| #[trigger]
                    entries(out@).contains_key(k) implies entries(out@)[k]@ == now[k]@ by {
                    if k != entry.0@ {
                        assert(entries(before).contains_key(k));
                    }
                }
            }
            i = i + 1;
        }
        assert(all.take(all.len() as int) =~= all);
        let r = Headers { list: out };
        assert(r@ =~= self@);
        r
    }
}

} // verus!
