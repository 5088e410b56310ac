//! A small map keyed by text.
//!
//! What is remembered about containers between two cycles is a handful of
//! entries, so a list with linear lookup serves. A later entry shadows an
//! earlier one with the same key, which makes every list a valid table.

use vstd::prelude::*;
use vstd::string::*;

use crate::text;

verus! {

/// The map that a list of entries stands for.
pub open spec fn map_of<V>(entries: Seq<(String, V)>) -> Map<Seq<char>, V>
    decreases entries.len(),
{
    if entries.len() == 0 {
        Map::empty()
    } else {
        map_of(entries.drop_last()).insert(entries.last().0@, entries.last().1)
    }
}

/// A map from text to `V`.
pub struct Table<V> {
    entries: Vec<(String, V)>,
}

impl<V> View for Table<V> {
    type V = Map<Seq<char>, V>;

    closed spec fn view(&self) -> Map<Seq<char>, V> {
        map_of(self.entries@)
    }
}

/// Overwriting the last entry of a key is an insertion.
proof fn lemma_update<V>(s: Seq<(String, V)>, i: int, e: (String, V))
    requires
        0 <= i < s.len(),
        s[i].0@ == e.0@,
        forall|j: int| i < j < s.len() ==> (#[trigger] s[j]).0@ != e.0@,
    ensures
        map_of(s.update(i, e)) == map_of(s).insert(e.0@, e.1),
    decreases s.len(),
{
    let t = s.update(i, e);
    if i == s.len() - 1 {
        assert(t.drop_last() =~= s.drop_last());
        assert(map_of(t) =~= map_of(s).insert(e.0@, e.1));
    } else {
        assert(t.drop_last() =~= s.drop_last().update(i, e));
        assert(t.last() == s.last());
        assert(s[s.len() - 1].0@ != e.0@);
        lemma_update(s.drop_last(), i, e);
        assert(map_of(t) =~= map_of(s).insert(e.0@, e.1));
    }
}

/// Whether a key is among `live`.
pub open spec fn is_live(live: Seq<&str>, key: Seq<char>) -> bool {
    exists|i: int| 0 <= i < live.len() && (#[trigger] live[i])@ == key
}

fn listed(live: &Vec<&str>, key: &str) -> (r: bool)
    ensures
        r == is_live(live@, key@),
{
    let mut i: usize = 0;
    while i < live.len()
        invariant
            i <= live.len(),
            forall|j: int| 0 <= j < i ==> (#[trigger] live[j])@ != key@,
        decreases live.len() - i,
    {
        if text::same(live[i], key) {
            proof {
                assert(live@[i as int]@ == key@);
            }
            return true;
        }
        i += 1;
    }
    false
}

impl<V: Copy> Table<V> {
    /// The empty table.
    pub fn new() -> (r: Self)
        ensures
            r@ == Map::<Seq<char>, V>::empty(),
    {
        Table { entries: Vec::new() }
    }

    /// Whether the table has no entry.
    pub fn is_empty(&self) -> (r: bool)
        ensures
            r == (self@ == Map::<Seq<char>, V>::empty()),
    {
        proof {
            if self.entries@.len() > 0 {
                assert(self@.contains_key(self.entries@.last().0@));
            }
        }
        self.entries.len() == 0
    }

    /// The position of the entry that decides `key`.
    fn position(&self, key: &str) -> (r: Option<usize>)
        ensures
            match r {
                Some(i) => {
                    &&& i < self.entries.len()
                    &&& self.entries[i as int].0@ == key@
                    &&& forall|j: int|
                        i < j < self.entries.len() ==> (#[trigger] self.entries[j]).0@ != key@
                    &&& self@.contains_key(key@)
                    &&& self@[key@] == self.entries[i as int].1
                },
                None => !self@.contains_key(key@),
            },
    {
        let ghost all = self.entries@;
        let mut i: usize = self.entries.len();
        proof {
            assert(all.take(all.len() as int) =~= all);
        }
        while i > 0
            invariant
                i <= self.entries.len(),
                all == self.entries@,
                self@ == map_of(all),
                forall|j: int| i <= j < all.len() ==> (#[trigger] all[j]).0@ != key@,
                map_of(all).contains_key(key@) == map_of(all.take(i as int)).contains_key(key@),
                map_of(all).contains_key(key@) ==> map_of(all)[key@] == map_of(
                    all.take(i as int),
                )[key@],
            decreases i,
        {
            let k: usize = i - 1;
            proof {
                assert(all.take(i as int).drop_last() =~= all.take(k as int));
                assert(all.take(i as int).last() == all[k as int]);
            }
            if text::same(self.entries[k].0.as_str(), key) {
                return Some(k);
            }
            i = k;
        }
        None
    }

    /// The value of `key`.
    pub fn get(&self, key: &str) -> (r: Option<V>)
        ensures
            r == (if self@.contains_key(key@) {
                Some(self@[key@])
            } else {
                None
            }),
    {
        match self.position(key) {
            Some(i) => Some(self.entries[i].1),
            None => None,
        }
    }

    /// Give `key` the value `value`.
    pub fn set(&mut self, key: String, value: V)
        ensures
            final(self)@ == old(self)@.insert(key@, value),
    {
        let ghost before = self.entries@;
        match self.position(key.as_str()) {
            Some(i) => {
                proof {
                    lemma_update(before, i as int, (key, value));
                }
                self.entries.set(i, (key, value));
            },
            None => {
                self.entries.push((key, value));
                proof {
                    assert(self.entries@.drop_last() =~= before);
                }
            },
        }
    }

    /// Forget every key that is not among `live`.
    pub fn retain(&mut self, live: &Vec<&str>)
        ensures
            final(self)@ == old(self)@.restrict(Set::new(|k: Seq<char>| is_live(live@, k))),
    {
        let ghost keep = Set::new(|k: Seq<char>| is_live(live@, k));
        let ghost all = self.entries@;
        let mut kept: Vec<(String, V)> = Vec::new();
        let mut i: usize = 0;
        proof {
            assert(map_of(all.take(0)) =~= Map::<Seq<char>, V>::empty());
            assert(map_of(kept@) =~= map_of(all.take(0)).restrict(keep));
        }
        while i < self.entries.len()
            invariant
                i <= self.entries.len(),
                all == self.entries@,
                keep == Set::new(|k: Seq<char>| is_live(live@, k)),
                map_of(kept@) == map_of(all.take(i as int)).restrict(keep),
            decreases self.entries.len() - i,
        {
            let ghost before = kept@;
            proof {
                assert(all.take(i + 1).drop_last() =~= all.take(i as int));
                assert(all.take(i + 1).last() == all[i as int]);
            }
            if listed(live, self.entries[i].0.as_str()) {
                kept.push((self.entries[i].0.clone(), self.entries[i].1));
                proof {
                    assert(kept@.drop_last() =~= before);
                }
            }
            proof {
                assert(map_of(kept@) =~= map_of(all.take(i + 1)).restrict(keep));
            }
            i += 1;
        }
        proof {
            assert(all.take(all.len() as int) =~= all);
        }
        self.entries = kept;
    }
}

} // verus!
