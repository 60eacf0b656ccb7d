//! An ordered key-value table with string keys, the building block of the
//! storage environment.  Entries sit in ascending lexicographic key order,
//! and the table denotes the association map of its entry sequence.

use vstd::pervasive::VecAdditionalExecFns;
use vstd::prelude::*;

use crate::assoc::{lemma_map_of_contains, lemma_map_of_index, lemma_map_of_insert,
    lemma_map_of_remove, lemma_map_of_update, lemma_sorted_keys_unique, map_of, sorted_keys};
use crate::strings::{lemma_text_lt_transitive, lemma_text_lt_trichotomy, str_eq, str_lt,
    text_lt};

verus! {

/// One ordered table of the storage environment.
pub struct Table<V> {
    entries: Vec<(String, V)>,
}

impl<V: View> Table<V> {
    /// The entry sequence of the table, as key and value views in table
    /// order.
    pub closed spec fn kv(&self) -> Seq<(Seq<char>, V::V)> {
        self.entries@.map(|i: int, p: (String, V)| (p.0@, p.1@))
    }

    /// Well-formedness: the entries sit in strictly ascending key order,
    /// so in particular no two entries share a key.
    pub open spec fn wf(&self) -> bool {
        sorted_keys(self.kv())
    }

    /// The map the table denotes.
    pub open spec fn as_map(&self) -> Map<Seq<char>, V::V> {
        map_of(self.kv())
    }

    /// Whether the table holds `key`.
    pub open spec fn spec_contains(&self, key: Seq<char>) -> bool {
        self.as_map().contains_key(key)
    }

    /// An empty table.
    pub fn new() -> (t: Self)
        ensures
            t.wf(),
            t.kv() == Seq::<(Seq<char>, V::V)>::empty(),
            t.as_map() == Map::<Seq<char>, V::V>::empty(),
    {
        let t = Table { entries: Vec::new() };
        proof {
            assert(t.kv() =~= Seq::<(Seq<char>, V::V)>::empty());
        }
        t
    }

    /// The number of entries.
    pub fn len(&self) -> (r: usize)
        ensures
            r == self.kv().len(),
    {
        self.entries.len()
    }

    /// The entry at position `i` in table order.
    pub fn entry(&self, i: usize) -> (r: &(String, V))
        requires
            i < self.kv().len(),
        ensures
            r.0@ == self.kv()[i as int].0,
            r.1@ == self.kv()[i as int].1,
    {
        &self.entries[i]
    }

    /// The position of the entry that holds `key`, if any.
    fn index_of(&self, key: &str) -> (r: Option<usize>)
        ensures
            match r {
                Some(i) => i < self.kv().len() && self.kv()[i as int].0 == key@,
                None => forall|j: int| 0 <= j < self.kv().len() ==> self.kv()[j].0 != key@,
            },
    {
        let n = self.entries.len();
        let mut i: usize = 0;
        while i < n
            invariant
                n == self.kv().len(),
                i <= n,
                forall|j: int| 0 <= j < i ==> self.kv()[j].0 != key@,
            decreases n - i,
        {
            if str_eq(self.entries[i].0.as_str(), key) {
                return Some(i);
            }
            i += 1;
        }
        None
    }

    /// Whether the table holds `key`.
    pub fn contains(&self, key: &str) -> (r: bool)
        ensures
            r == self.spec_contains(key@),
    {
        proof {
            lemma_map_of_contains(self.kv(), key@);
        }
        self.index_of(key).is_some()
    }

    /// The value stored under `key`, if any.
    pub fn get(&self, key: &str) -> (r: Option<&V>)
        requires
            self.wf(),
        ensures
            match r {
                Some(v) => self.spec_contains(key@) && v@ == self.as_map()[key@],
                None => !self.spec_contains(key@),
            },
    {
        proof {
            lemma_sorted_keys_unique(self.kv());
            lemma_map_of_contains(self.kv(), key@);
        }
        match self.index_of(key) {
            Some(i) => {
                proof {
                    lemma_map_of_index(self.kv(), i as int);
                }
                Some(&self.entries[i].1)
            },
            None => None,
        }
    }

    /// Stores `v` under `key`: overwrites the entry that holds `key` in
    /// place, or inserts a fresh entry at its ascending-order position.
    pub fn put(&mut self, key: String, v: V)
        requires
            old(self).wf(),
        ensures
            final(self).wf(),
            final(self).as_map() == old(self).as_map().insert(key@, v@),
            old(self).spec_contains(key@) ==> exists|i: int|
                0 <= i < old(self).kv().len() && old(self).kv()[i].0 == key@ && final(self).kv()
                    == old(self).kv().update(i, (key@, v@)),
            !old(self).spec_contains(key@) ==> exists|i: int|
                0 <= i <= old(self).kv().len() && final(self).kv() == old(self).kv().insert(
                    i,
                    (key@, v@),
                ),
    {
        proof {
            lemma_sorted_keys_unique(self.kv());
            lemma_map_of_contains(self.kv(), key@);
        }
        let n = self.entries.len();
        let mut pos: usize = 0;
        loop
            invariant_except_break
                n == self.kv().len(),
                pos <= n,
                forall|j: int| 0 <= j < pos ==> text_lt(self.kv()[j].0, key@),
            ensures
                n == self.kv().len(),
                pos <= n,
                forall|j: int| 0 <= j < pos ==> text_lt(self.kv()[j].0, key@),
                pos < n ==> !text_lt(self.kv()[pos as int].0, key@),
            decreases n - pos,
        {
            if pos == n {
                break ;
            }
            if !str_lt(self.entries[pos].0.as_str(), key.as_str()) {
                break ;
            }
            pos += 1;
        }
        let found = pos < n && str_eq(self.entries[pos].0.as_str(), key.as_str());
        if found {
            proof {
                lemma_map_of_update(self.kv(), pos as int, key@, v@);
            }
            let ghost old_kv = self.kv();
            self.entries.set(pos, (key, v));
            proof {
                assert(self.kv() =~= old_kv.update(pos as int, (old_kv[pos as int].0, v@)));
                assert forall|a: int, b: int|
                    0 <= a < b < self.kv().len() implies text_lt(
                    self.kv()[a].0,
                    self.kv()[b].0,
                ) by {
                    assert(self.kv()[a].0 == old_kv[a].0 && self.kv()[b].0 == old_kv[b].0);
                }
            }
        } else {
            proof {
                // Everything before the position is strictly below the key,
                // everything at or after it strictly above.
                assert forall|j: int|
                    pos <= j < self.kv().len() implies text_lt(key@, self.kv()[j].0) by {
                    lemma_text_lt_trichotomy(self.kv()[pos as int].0, key@);
                    if j > pos {
                        lemma_text_lt_transitive(
                            key@,
                            self.kv()[pos as int].0,
                            self.kv()[j].0,
                        );
                    }
                }
                assert forall|j: int| 0 <= j < self.kv().len() implies self.kv()[j].0 != key@ by {
                    if j < pos {
                        lemma_text_lt_trichotomy(self.kv()[j].0, key@);
                    } else {
                        lemma_text_lt_trichotomy(key@, self.kv()[j].0);
                    }
                }
                lemma_map_of_contains(self.kv(), key@);
                lemma_map_of_insert(self.kv(), pos as int, key@, v@);
            }
            let ghost old_kv = self.kv();
            let ghost kview = key@;
            self.entries.insert(pos, (key, v));
            proof {
                assert(self.kv() =~= old_kv.insert(pos as int, (kview, v@)));
                assert(forall|x: int| 0 <= x < pos ==> self.kv()[x] == old_kv[x]);
                assert(self.kv()[pos as int] == (kview, v@));
                assert(forall|x: int|
                    pos < x < self.kv().len() ==> self.kv()[x] == old_kv[x - 1]);
                assert forall|a: int, b: int|
                    0 <= a < b < self.kv().len() implies text_lt(
                    self.kv()[a].0,
                    self.kv()[b].0,
                ) by {
                    if a < pos && b > pos {
                        assert(text_lt(old_kv[a].0, kview));
                        assert(text_lt(kview, old_kv[b - 1].0));
                        lemma_text_lt_transitive(old_kv[a].0, kview, old_kv[b - 1].0);
                    }
                }
            }
        }
    }

    /// Removes the entry that holds `key`; reports whether one existed.
    pub fn delete(&mut self, key: &str) -> (r: bool)
        requires
            old(self).wf(),
        ensures
            final(self).wf(),
            r == old(self).spec_contains(key@),
            final(self).as_map() == old(self).as_map().remove(key@),
            r ==> exists|i: int|
                0 <= i < old(self).kv().len() && old(self).kv()[i].0 == key@ && final(self).kv()
                    == old(self).kv().remove(i),
            !r ==> final(self).kv() == old(self).kv(),
    {
        proof {
            lemma_sorted_keys_unique(self.kv());
            lemma_map_of_contains(self.kv(), key@);
        }
        match self.index_of(key) {
            Some(i) => {
                proof {
                    lemma_map_of_remove(self.kv(), i as int, key@);
                }
                let ghost old_kv = self.kv();
                let _ = self.entries.remove(i);
                proof {
                    assert(self.kv() =~= old_kv.remove(i as int));
                    assert(sorted_keys(self.kv()));
                }
                true
            },
            None => {
                proof {
                    assert(self.as_map() =~= self.as_map().remove(key@));
                }
                false
            },
        }
    }
}

} // verus!
