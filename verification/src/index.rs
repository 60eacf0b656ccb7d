//! The composite secondary index: a table from composite keys to the
//! list of permit-record keys that share the triple.  Each bucket holds
//! its members once, in insertion order; buckets are reached by exact key
//! only, so the index keeps its entries in insertion order.

use vstd::prelude::*;

use crate::assoc::{lemma_map_of_contains, lemma_map_of_index, lemma_map_of_push,
    lemma_map_of_update, map_of, unique_keys};
use crate::schema::{KeySchema, KeyView};
use crate::strings::str_eq;

verus! {

/// The bucket `s` with every occurrence of `x` removed, in order.
pub open spec fn remove_all(s: Seq<Seq<char>>, x: Seq<char>) -> Seq<Seq<char>>
    decreases s.len(),
{
    if s.len() == 0 {
        Seq::empty()
    } else if s.last() == x {
        remove_all(s.drop_last(), x)
    } else {
        remove_all(s.drop_last(), x).push(s.last())
    }
}

/// Membership in a pruned bucket.
pub proof fn lemma_remove_all_contains(s: Seq<Seq<char>>, x: Seq<char>, y: Seq<char>)
    ensures
        remove_all(s, x).contains(y) <==> s.contains(y) && y != x,
    decreases s.len(),
{
    if s.len() > 0 {
        lemma_remove_all_contains(s.drop_last(), x, y);
        assert(s.contains(y) <==> s.drop_last().contains(y) || s.last() == y) by {
            if s.contains(y) {
                let i = choose|i: int| 0 <= i < s.len() && s[i] == y;
                if i < s.len() - 1 {
                    assert(s.drop_last()[i] == y);
                }
            }
            if s.drop_last().contains(y) {
                let i = choose|i: int| 0 <= i < s.drop_last().len() && s.drop_last()[i] == y;
                assert(s[i] == y);
            }
        }
        if s.last() != x {
            let pruned = remove_all(s.drop_last(), x);
            assert(pruned.push(s.last()).contains(y) <==> pruned.contains(y) || s.last() == y) by {
                if pruned.push(s.last()).contains(y) {
                    let i = choose|i: int|
                        0 <= i < pruned.push(s.last()).len() && pruned.push(s.last())[i] == y;
                    if i < pruned.len() {
                        assert(pruned[i] == y);
                    }
                }
                if pruned.contains(y) {
                    let i = choose|i: int| 0 <= i < pruned.len() && pruned[i] == y;
                    assert(pruned.push(s.last())[i] == y);
                }
                assert(pruned.push(s.last())[pruned.len() as int] == s.last());
            }
        }
    }
}

/// Whether a bucket holds each member at most once.
pub open spec fn unique_members(s: Seq<Seq<char>>) -> bool {
    forall|i: int, j: int| 0 <= i < j < s.len() ==> s[i] != s[j]
}

/// Pruning preserves member uniqueness.
pub proof fn lemma_remove_all_unique(s: Seq<Seq<char>>, x: Seq<char>)
    requires
        unique_members(s),
    ensures
        unique_members(remove_all(s, x)),
        remove_all(s, x).len() <= s.len(),
    decreases s.len(),
{
    if s.len() > 0 {
        assert(unique_members(s.drop_last()));
        lemma_remove_all_unique(s.drop_last(), x);
        if s.last() != x {
            let pruned = remove_all(s.drop_last(), x);
            assert(!s.drop_last().contains(s.last())) by {
                if s.drop_last().contains(s.last()) {
                    let i = choose|i: int|
                        0 <= i < s.drop_last().len() && s.drop_last()[i] == s.last();
                    assert(s[i] == s[s.len() - 1]);
                }
            }
            lemma_remove_all_contains(s.drop_last(), x, s.last());
            assert(!pruned.contains(s.last()));
            assert forall|i: int, j: int|
                0 <= i < j < pruned.push(s.last()).len() implies pruned.push(s.last())[i]
                != pruned.push(s.last())[j] by {
                if j == pruned.len() {
                    assert(pruned[i] == pruned.push(s.last())[i]);
                    assert(pruned.contains(pruned[i]));
                }
            }
        }
    }
}

/// The composite secondary index.
pub struct IndexTable {
    entries: Vec<(KeySchema, Vec<String>)>,
}

/// Compares two composite keys field by field.
pub fn key_eq(a: &KeySchema, b: &KeySchema) -> (r: bool)
    ensures
        r == (a@ == b@),
{
    let fields_eq = str_eq(a.client.as_str(), b.client.as_str()) && str_eq(
        a.county.as_str(),
        b.county.as_str(),
    ) && a.county_status == b.county_status;
    fields_eq
}

impl IndexTable {
    /// The entry sequence of the index, as key and bucket views in table
    /// order.
    pub closed spec fn kv(&self) -> Seq<(KeyView, Seq<Seq<char>>)> {
        self.entries@.map(
            |i: int, p: (KeySchema, Vec<String>)|
                (p.0@, p.1@.map(|j: int, s: String| s@)),
        )
    }

    /// Well-formedness: composite keys are unique and every bucket holds
    /// each member at most once.
    pub open spec fn wf(&self) -> bool {
        &&& unique_keys(self.kv())
    &&& forall|i: int| 0 <= i < self.kv().len() ==> unique_members(#[trigger] self.kv()[i].1)
    }

    /// The map the index denotes.
    pub open spec fn as_map(&self) -> Map<KeyView, Seq<Seq<char>>> {
        map_of(self.kv())
    }

    /// Whether the index holds a bucket for `key`.
    pub open spec fn spec_contains(&self, key: KeyView) -> bool {
        self.as_map().contains_key(key)
    }

    /// The bucket of `key`, or the empty bucket where none exists.
    pub open spec fn bucket_or_empty(&self, key: KeyView) -> Seq<Seq<char>> {
        if self.spec_contains(key) {
            self.as_map()[key]
        } else {
            Seq::empty()
        }
    }

    /// An empty index.
    pub fn new() -> (t: Self)
        ensures
            t.wf(),
            t.kv() == Seq::<(KeyView, Seq<Seq<char>>)>::empty(),
            t.as_map() == Map::<KeyView, Seq<Seq<char>>>::empty(),
    {
        let t = IndexTable { entries: Vec::new() };
        proof {
            assert(t.kv() =~= Seq::<(KeyView, Seq<Seq<char>>)>::empty());
        }
        t
    }

    /// The position of the bucket of `key`, if any.
    fn index_of(&self, key: &KeySchema) -> (r: Option<usize>)
        ensures
            match r {
                Some(i) => i < self.kv().len() && self.kv()[i as int].0 == key@,
                None => forall|j: int| 0 <= j < self.kv().len() ==> self.kv()[j].0 != key@,
            },
    {
        let n = self.entries.len();
        let mut i: usize = 0;
        while i < n
            invariant
                n == self.kv().len(),
                i <= n,
                forall|j: int| 0 <= j < i ==> self.kv()[j].0 != key@,
            decreases n - i,
        {
            if key_eq(&self.entries[i].0, key) {
                return Some(i);
            }
            i += 1;
        }
        None
    }

    /// The bucket stored for `key`, if any.
    pub fn get_members(&self, key: &KeySchema) -> (r: Option<&Vec<String>>)
        requires
            self.wf(),
        ensures
            match r {
                Some(m) => self.spec_contains(key@) && m@.map(|j: int, s: String| s@)
                    == self.as_map()[key@],
                None => !self.spec_contains(key@),
            },
    {
        proof {
            lemma_map_of_contains(self.kv(), key@);
        }
        match self.index_of(key) {
            Some(i) => {
                proof {
                    lemma_map_of_index(self.kv(), i as int);
                }
                Some(&self.entries[i].1)
            },
            None => None,
        }
    }

    /// Adds `member` to the bucket of `key`, creating a singleton bucket if
    /// none exists; a member already present is left alone.
    pub fn upsert_member(&mut self, key: KeySchema, member: String)
        requires
            old(self).wf(),
        ensures
            final(self).wf(),
            !old(self).spec_contains(key@) ==> {
                &&& final(self).kv() == old(self).kv().push((key@, seq![member@]))
            &&& final(self).as_map() == old(self).as_map().insert(key@, seq![member@])
            },
            old(self).spec_contains(key@) && old(self).as_map()[key@].contains(member@) ==> final(self).kv() == old(self).kv(),
            old(self).spec_contains(key@) && !old(self).as_map()[key@].contains(member@) ==> {
                &&& final(self).as_map() == old(self).as_map().insert(
                    key@,
                    old(self).as_map()[key@].push(member@),
                )
            &&& exists|i: int|
                    0 <= i < old(self).kv().len() && old(self).kv()[i].0 == key@ && final(self).kv() == old(self).kv().update(
                        i,
                        (key@, old(self).as_map()[key@].push(member@)),
                    )
            },
    {
        proof {
            lemma_map_of_contains(self.kv(), key@);
        }
        match self.index_of(&key) {
            Some(i) => {
                proof {
                    lemma_map_of_index(self.kv(), i as int);
                }
                let ghost old_kv = self.kv();
                let mut pair = self.entries.remove(i);
                let ghost bucket = old_kv[i as int].1;
                if bucket_holds(&pair.1, member.as_str()) {
                    self.entries.insert(i, pair);
                    proof {
                        assert(self.kv() =~= old_kv);
                    }
                } else {
                    pair.1.push(member);
                    proof {
                        assert(pair.1@.map(|j: int, s: String| s@) =~= bucket.push(member@));
                    }
                    self.entries.insert(i, pair);
                    proof {
                        assert(self.kv() =~~= old_kv.update(
                            i as int,
                            (key@, bucket.push(member@)),
                        ));
                        lemma_map_of_update(old_kv, i as int, key@, bucket.push(member@));
                        assert forall|a: int, b: int|
                            0 <= a < b < self.kv().len() implies self.kv()[a].0
                            != self.kv()[b].0 by {
                            assert(old_kv[a].0 != old_kv[b].0);
                        }
                        assert forall|a: int|
                            0 <= a < self.kv().len() implies unique_members(
                            #[trigger] self.kv()[a].1,
                        ) by {
                            assert(unique_members(old_kv[a].1));
                            if a == i {
                                assert forall|x: int, y: int|
                                    0 <= x < y < bucket.push(member@).len() implies bucket.push(
                                    member@,
                                )[x] != bucket.push(member@)[y] by {
                                    if y == bucket.len() {
                                        assert(bucket[x] == bucket.push(member@)[x]);
                                        assert(bucket.contains(bucket[x]));
                                    }
                                }
                            }
                        }
                    }
                }
            },
            None => {
                let ghost old_kv = self.kv();
                let mut bucket: Vec<String> = Vec::new();
                let ghost mview = member@;
                bucket.push(member);
                self.entries.push((key, bucket));
                proof {
                    assert(bucket@.map(|j: int, s: String| s@) =~= seq![mview]);
                    assert(self.kv() =~= old_kv.push((key@, seq![mview])));
                    lemma_map_of_push(old_kv, key@, seq![mview]);
                    assert forall|a: int, b: int|
                        0 <= a < b < self.kv().len() implies self.kv()[a].0 != self.kv()[b].0 by {
                        if b == self.kv().len() - 1 {
                            assert(old_kv[a].0 != key@);
                        } else {
                            assert(old_kv[a].0 != old_kv[b].0);
                        }
                    }
                    assert forall|a: int|
                        0 <= a < self.kv().len() implies unique_members(
                        #[trigger] self.kv()[a].1,
                    ) by {
                        if a < self.kv().len() - 1 {
                            assert(unique_members(old_kv[a].1));
                        }
                    }
                }
            },
        }
    }

    /// Removes `member` from the bucket of `key`, keeping the (possibly
    /// empty) bucket in place; reports whether a bucket for `key` existed.
    pub fn remove_member(&mut self, key: &KeySchema, member: &str) -> (r: bool)
        requires
            old(self).wf(),
        ensures
            final(self).wf(),
            r == old(self).spec_contains(key@),
            !r ==> final(self).kv() == old(self).kv(),
            r ==> {
                &&& final(self).as_map() == old(self).as_map().insert(
                    key@,
                    remove_all(old(self).as_map()[key@], member@),
                )
            &&& exists|i: int|
                    0 <= i < old(self).kv().len() && old(self).kv()[i].0 == key@ && final(self).kv() == old(self).kv().update(
                        i,
                        (key@, remove_all(old(self).as_map()[key@], member@)),
                    )
            },
    {
        proof {
            lemma_map_of_contains(self.kv(), key@);
        }
        match self.index_of(key) {
            Some(i) => {
                proof {
                    lemma_map_of_index(self.kv(), i as int);
                }
                let ghost old_kv = self.kv();
                let ghost bucket = old_kv[i as int].1;
                let pair = self.entries.remove(i);
                let pruned = bucket_without(&pair.1, member);
                self.entries.insert(i, (pair.0, pruned));
                proof {
                    assert(self.kv() =~= old_kv.update(
                        i as int,
                        (key@, remove_all(bucket, member@)),
                    ));
                    lemma_map_of_update(old_kv, i as int, key@, remove_all(bucket, member@));
                    assert forall|a: int, b: int|
                        0 <= a < b < self.kv().len() implies self.kv()[a].0 != self.kv()[b].0 by {
                        assert(old_kv[a].0 != old_kv[b].0);
                    }
                    assert forall|a: int|
                        0 <= a < self.kv().len() implies unique_members(
                        #[trigger] self.kv()[a].1,
                    ) by {
                        assert(unique_members(old_kv[a].1));
                        if a == i {
                            lemma_remove_all_unique(bucket, member@);
                        }
                    }
                }
                true
            },
            None => false,
        }
    }
}

/// Whether the bucket holds `member`.
fn bucket_holds(bucket: &Vec<String>, member: &str) -> (r: bool)
    ensures
        r == bucket@.map(|j: int, s: String| s@).contains(member@),
{
    let ghost bview = bucket@.map(|j: int, s: String| s@);
    let n = bucket.len();
    let mut i: usize = 0;
    while i < n
        invariant
            n == bucket@.len(),
            bview == bucket@.map(|j: int, s: String| s@),
            i <= n,
            forall|j: int| 0 <= j < i ==> bview[j] != member@,
        decreases n - i,
    {
        if str_eq(bucket[i].as_str(), member) {
            proof {
                assert(bview[i as int] == member@);
            }
            return true;
        }
        i += 1;
    }
    proof {
        if bview.contains(member@) {
            let j = choose|j: int| 0 <= j < bview.len() && bview[j] == member@;
        }
    }
    false
}

/// A copy of the bucket without any occurrence of `member`.
fn bucket_without(bucket: &Vec<String>, member: &str) -> (r: Vec<String>)
    ensures
        r@.map(|j: int, s: String| s@) == remove_all(
            bucket@.map(|j: int, s: String| s@),
            member@,
        ),
{
    let ghost bview = bucket@.map(|j: int, s: String| s@);
    let n = bucket.len();
    let mut out: Vec<String> = Vec::new();
    let mut i: usize = 0;
    while i < n
        invariant
            n == bucket@.len(),
            bview == bucket@.map(|j: int, s: String| s@),
            i <= n,
            out@.map(|j: int, s: String| s@) == remove_all(bview.take(i as int), member@),
        decreases n - i,
    {
        proof {
            assert(bview.take(i + 1).drop_last() =~= bview.take(i as int));
            assert(bview.take(i + 1).last() == bview[i as int]);
        }
        if !str_eq(bucket[i].as_str(), member) {
            let ghost old_out = out@.map(|j: int, s: String| s@);
            out.push(bucket[i].clone());
            proof {
                assert(out@.map(|j: int, s: String| s@) =~= old_out.push(bview[i as int]));
            }
        }
        i += 1;
    }
    proof {
        assert(bview.take(n as int) =~= bview);
    }
    out
}

} // verus!
