//! The storage environment and the record lifecycle operations.
//!
//! `DBHandles` owns the four ordered tables.  Every write operation
//! re-establishes the consistency invariant between the record table and the
//! composite index, and every failing operation leaves the whole state
//! untouched, as a transactional store would after an abort.

use vstd::prelude::*;

use crate::assoc::{map_of, sorted_keys};
use crate::error::Error;
use crate::index::{remove_all, IndexTable};
use crate::schema::{DBSchema, KeyView, Payments, PaymentView, ProcessingStatusSchema,
    ProcessingView, RecordView, UpdateDBSchema, UpdatePayment, UpdateProcessingStatusSchema};
use crate::strings::join_with;
use crate::table::Table;
use crate::timestamp::{render_timestamp, timestamp_text};

verus! {

/// The key of a permit record: the rendered `opened` timestamp, a hyphen,
/// and a generated unique identifier.
pub open spec fn record_key(opened: crate::timestamp::Timestamp, id: Seq<char>) -> Seq<char> {
    timestamp_text(opened) + seq!['-'] + id
}

/// The key of a derived entry: the permit number, a hyphen, and the
/// rendered key-defining timestamp.
pub open spec fn derived_key(permit: Seq<char>, t: crate::timestamp::Timestamp) -> Seq<char> {
    permit + seq!['-'] + timestamp_text(t)
}

/// The consistency invariant between the record table and the composite
/// index: every record's key sits in the bucket of its own composite key,
/// and every bucket member is the key of a record whose composite key owns
/// that bucket.  Together the two directions put each record key in exactly
/// one bucket.
pub open spec fn maps_consistent(
    r: Map<Seq<char>, RecordView>,
    ix: Map<KeyView, Seq<Seq<char>>>,
) -> bool {
    &&& forall|k: Seq<char>| #[trigger]
        r.contains_key(k) ==> ix.contains_key(r[k].composite_key()) && ix[r[k].composite_key()].contains(
            k,
        )
&&& forall|ck: KeyView, k: Seq<char>|
        ix.contains_key(ck) && #[trigger] ix[ck].contains(k) ==> r.contains_key(k)
            && r[k].composite_key() == ck
}

/// The bucket of `ck` in `ix`, or the empty bucket where none exists.
pub open spec fn bucket_or_empty(ix: Map<KeyView, Seq<Seq<char>>>, ck: KeyView) -> Seq<Seq<char>> {
    if ix.contains_key(ck) {
        ix[ck]
    } else {
        Seq::empty()
    }
}

/// Creating a record under a fresh key keeps the store consistent, and the
/// fresh key sits in no bucket beforehand.
proof fn lemma_create_consistent(
    r: Map<Seq<char>, RecordView>,
    ix: Map<KeyView, Seq<Seq<char>>>,
    key: Seq<char>,
    data: RecordView,
)
    requires
        maps_consistent(r, ix),
        !r.contains_key(key),
    ensures
        !bucket_or_empty(ix, data.composite_key()).contains(key),
        maps_consistent(
            r.insert(key, data),
            ix.insert(data.composite_key(), bucket_or_empty(ix, data.composite_key()).push(key)),
        ),
{
    let ck = data.composite_key();
    let b = bucket_or_empty(ix, ck);
    let r2 = r.insert(key, data);
    let ix2 = ix.insert(ck, b.push(key));
    assert(!b.contains(key)) by {
        if ix.contains_key(ck) && ix[ck].contains(key) {
            assert(r.contains_key(key));
        }
    }
    assert forall|k: Seq<char>| #[trigger]
        r2.contains_key(k) implies ix2.contains_key(r2[k].composite_key())
        && ix2[r2[k].composite_key()].contains(k) by {
        if k == key {
            crate::assoc::lemma_push_contains(b, key, k);
        } else {
            let ck2 = r[k].composite_key();
            if ck2 == ck {
                crate::assoc::lemma_push_contains(b, key, k);
            }
        }
    }
    assert forall|ck2: KeyView, k: Seq<char>|
        ix2.contains_key(ck2) && #[trigger] ix2[ck2].contains(k) implies r2.contains_key(k) && (
    #[trigger] r2[k]).composite_key() == ck2 by {
        if ck2 == ck {
            crate::assoc::lemma_push_contains(b, key, k);
            if k != key {
                assert(b.contains(k));
                assert(ix.contains_key(ck) && ix[ck].contains(k));
            }
        }
    }
}

/// Deleting a record and pruning its key from its bucket keeps the store
/// consistent.
proof fn lemma_delete_consistent(
    r: Map<Seq<char>, RecordView>,
    ix: Map<KeyView, Seq<Seq<char>>>,
    key: Seq<char>,
)
    requires
        maps_consistent(r, ix),
        r.contains_key(key),
    ensures
        ix.contains_key(r[key].composite_key()),
        maps_consistent(
            r.remove(key),
            ix.insert(
                r[key].composite_key(),
                remove_all(ix[r[key].composite_key()], key),
            ),
        ),
{
    let ck = r[key].composite_key();
    let r2 = r.remove(key);
    let ix2 = ix.insert(ck, remove_all(ix[ck], key));
    assert forall|k: Seq<char>| #[trigger]
        r2.contains_key(k) implies ix2.contains_key(r2[k].composite_key())
        && ix2[r2[k].composite_key()].contains(k) by {
        let ck2 = r[k].composite_key();
        assert(ix[ck2].contains(k));
        if ck2 == ck {
            crate::index::lemma_remove_all_contains(ix[ck], key, k);
        }
    }
    assert forall|ck2: KeyView, k: Seq<char>|
        ix2.contains_key(ck2) && #[trigger] ix2[ck2].contains(k) implies r2.contains_key(k)
        && r2[k].composite_key() == ck2 by {
        if ck2 == ck {
            crate::index::lemma_remove_all_contains(ix[ck], key, k);
            assert(ix[ck].contains(k));
        } else {
            assert(ix[ck2].contains(k));
            assert(r[k].composite_key() == ck2);
        }
    }
}

/// Moving a record's key from the bucket of its old composite key to the
/// bucket of its new one keeps the store consistent, and after the pruning
/// step the new bucket does not yet hold the key.
proof fn lemma_update_consistent(
    r: Map<Seq<char>, RecordView>,
    ix: Map<KeyView, Seq<Seq<char>>>,
    key: Seq<char>,
    new: RecordView,
)
    requires
        maps_consistent(r, ix),
        r.contains_key(key),
    ensures
        ix.contains_key(r[key].composite_key()),
        ({
            let ock = r[key].composite_key();
            let mid = ix.insert(ock, remove_all(ix[ock], key));
            let nck = new.composite_key();
            &&& !bucket_or_empty(mid, nck).contains(key)
        &&& maps_consistent(
                r.insert(key, new),
                mid.insert(nck, bucket_or_empty(mid, nck).push(key)),
            )
        }),
{
    let ock = r[key].composite_key();
    let mid = ix.insert(ock, remove_all(ix[ock], key));
    let nck = new.composite_key();
    let b = bucket_or_empty(mid, nck);
    assert(!b.contains(key)) by {
        if nck == ock {
            crate::index::lemma_remove_all_contains(ix[ock], key, key);
        } else {
            if mid.contains_key(nck) && mid[nck].contains(key) {
                assert(ix[nck].contains(key));
                assert(r[key].composite_key() == nck);
            }
        }
    }
    let r2 = r.insert(key, new);
    let ix2 = mid.insert(nck, b.push(key));
    assert forall|k: Seq<char>| #[trigger]
        r2.contains_key(k) implies ix2.contains_key(r2[k].composite_key())
        && ix2[r2[k].composite_key()].contains(k) by {
        if k == key {
            crate::assoc::lemma_push_contains(b, key, k);
        } else {
            let ck2 = r[k].composite_key();
            assert(ix[ck2].contains(k));
            if ck2 == nck {
                if nck == ock {
                    crate::index::lemma_remove_all_contains(ix[ock], key, k);
                } else {
                    assert(mid[nck] == ix[nck]);
                }
                crate::assoc::lemma_push_contains(b, key, k);
            } else if ck2 == ock {
                crate::index::lemma_remove_all_contains(ix[ock], key, k);
            }
        }
    }
    assert forall|ck2: KeyView, k: Seq<char>|
        ix2.contains_key(ck2) && #[trigger] ix2[ck2].contains(k) implies r2.contains_key(k)
        && r2[k].composite_key() == ck2 by {
        if ck2 == nck {
            crate::assoc::lemma_push_contains(b, key, k);
            if k != key {
                assert(b.contains(k));
                if nck == ock {
                    crate::index::lemma_remove_all_contains(ix[ock], key, k);
                    assert(ix[ock].contains(k));
                } else {
                    assert(mid.contains_key(nck));
                    assert(ix[nck].contains(k));
                }
            }
        } else if ck2 == ock {
            crate::index::lemma_remove_all_contains(ix[ock], key, k);
            assert(ix[ock].contains(k));
        } else {
            assert(ix[ck2].contains(k));
            assert(r[k].composite_key() == ck2);
        }
    }
}

/// Relies on `uuid::Uuid::new_v4` and its hyphenated rendering: a freshly
/// generated random identifier, 36 characters of text.
#[verifier::external_body]
fn fresh_id() -> (r: String)
    ensures
        r@.len() == 36,
{
    uuid::Uuid::new_v4().to_string()
}

/// The four ordered tables of the storage environment.
pub struct DBHandles {
    main_db: Table<DBSchema>,
    composite_index: IndexTable,
    processing_state: Table<ProcessingStatusSchema>,
    payments_db: Table<Payments>,
}

impl DBHandles {
    /// The record table's entry sequence, in table order.
    pub closed spec fn records_kv(&self) -> Seq<(Seq<char>, RecordView)> {
        self.main_db.kv()
    }

    /// The composite index's entry sequence, in table order.
    pub closed spec fn index_kv(&self) -> Seq<(KeyView, Seq<Seq<char>>)> {
        self.composite_index.kv()
    }

    /// The processing-status table's entry sequence, in table order.
    pub closed spec fn processing_kv(&self) -> Seq<(Seq<char>, ProcessingView)> {
        self.processing_state.kv()
    }

    /// The payments table's entry sequence, in table order.
    pub closed spec fn payments_kv(&self) -> Seq<(Seq<char>, PaymentView)> {
        self.payments_db.kv()
    }

    /// The map the record table denotes.
    pub open spec fn records_map(&self) -> Map<Seq<char>, RecordView> {
        map_of(self.records_kv())
    }

    /// The map the composite index denotes.
    pub open spec fn index_map(&self) -> Map<KeyView, Seq<Seq<char>>> {
        map_of(self.index_kv())
    }

    /// The map the processing-status table denotes.
    pub open spec fn processing_map(&self) -> Map<Seq<char>, ProcessingView> {
        map_of(self.processing_kv())
    }

    /// The map the payments table denotes.
    pub open spec fn payments_map(&self) -> Map<Seq<char>, PaymentView> {
        map_of(self.payments_kv())
    }

    /// The four tables are well formed.
    pub closed spec fn tables_wf(&self) -> bool {
        &&& self.main_db.wf()
    &&& self.composite_index.wf()
    &&& self.processing_state.wf()
    &&& self.payments_db.wf()
    }

    /// The store invariant: well-formed tables — the three string-keyed
    /// tables in ascending key order — and the consistency invariant
    /// between records and index.
    pub open spec fn inv(&self) -> bool {
        &&& self.tables_wf()
    &&& sorted_keys(self.records_kv())
    &&& sorted_keys(self.processing_kv())
    &&& sorted_keys(self.payments_kv())
    &&& maps_consistent(self.records_map(), self.index_map())
    }

    /// The record table, for the query engine.
    pub(crate) fn records_table(&self) -> (r: &Table<DBSchema>)
        ensures
            r.kv() == self.records_kv(),
            self.inv() ==> r.wf(),
    {
        &self.main_db
    }

    /// The composite index, for the query engine.
    pub(crate) fn index_table(&self) -> (r: &IndexTable)
        ensures
            r.kv() == self.index_kv(),
            self.inv() ==> r.wf(),
    {
        &self.composite_index
    }

    /// The processing-status table, for the query engine.
    pub(crate) fn processing_table(&self) -> (r: &Table<ProcessingStatusSchema>)
        ensures
            r.kv() == self.processing_kv(),
            self.inv() ==> r.wf(),
    {
        &self.processing_state
    }

    /// The payments table, for the query engine.
    pub(crate) fn payments_table(&self) -> (r: &Table<Payments>)
        ensures
            r.kv() == self.payments_kv(),
            self.inv() ==> r.wf(),
    {
        &self.payments_db
    }
}

/// Two store states with equal table contents.
pub open spec fn same_state(a: DBHandles, b: DBHandles) -> bool {
    &&& a.records_kv() == b.records_kv()
&&& a.index_kv() == b.index_kv()
&&& a.processing_kv() == b.processing_kv()
&&& a.payments_kv() == b.payments_kv()
}

/// Opens a fresh, empty storage environment with its four tables.
pub fn setup_db() -> (s: DBHandles)
    ensures
        s.inv(),
        s.records_kv() == Seq::<(Seq<char>, RecordView)>::empty(),
        s.index_kv() == Seq::<(KeyView, Seq<Seq<char>>)>::empty(),
        s.processing_kv() == Seq::<(Seq<char>, ProcessingView)>::empty(),
        s.payments_kv() == Seq::<(Seq<char>, PaymentView)>::empty(),
{
    let s = DBHandles {
        main_db: Table::new(),
        composite_index: IndexTable::new(),
        processing_state: Table::new(),
        payments_db: Table::new(),
    };
    proof {
        assert(s.records_map() =~= Map::<Seq<char>, RecordView>::empty());
        assert(s.index_map() =~= Map::<KeyView, Seq<Seq<char>>>::empty());
    }
    s
}

/// What a successful create leaves behind: the record inserted at its key
/// position under the fresh key, the key appended to the bucket of the
/// record's composite key, and the derived tables untouched.
pub open spec fn create_post(
    pre: DBHandles,
    post: DBHandles,
    key: Seq<char>,
    data: RecordView,
) -> bool {
    &&& !pre.records_map().contains_key(key)
&&& (exists|i: int|
        0 <= i <= pre.records_kv().len() && post.records_kv() == pre.records_kv().insert(
            i,
            (key, data),
        ))
&&& post.records_map() == pre.records_map().insert(key, data)
&&& post.index_map() == pre.index_map().insert(
        data.composite_key(),
        bucket_or_empty(pre.index_map(), data.composite_key()).push(key),
    )
&&& post.processing_kv() == pre.processing_kv()
&&& post.payments_kv() == pre.payments_kv()
}

impl DBHandles {
    /// Creates a permit record under the key formed from its `opened`
    /// timestamp and the supplied identifier, and adds the key to the
    /// bucket of the record's composite key, atomically.  A key already
    /// present — impossible while identifiers are unique — fails the
    /// operation as a storage fault and changes nothing.
    pub fn create_record_with_id(&mut self, data: DBSchema, id: &str) -> (r: Result<String, Error>)
        requires
            old(self).inv(),
            data.opened.valid(),
        ensures
            final(self).inv(),
            ({
                let key = record_key(data.opened, id@);
                match r {
                    Ok(k) => k@ == key && create_post(*old(self), *final(self), key, data@),
                    Err(e) => e == Error::StorageFailure && old(self).records_map().contains_key(
                        key,
                    ) && same_state(*old(self), *final(self)),
                }
            }),
    {
        proof {
            reveal_strlit("-");
        }
        let rendered = render_timestamp(&data.opened);
        let key = join_with(rendered.as_str(), "-", id);
        proof {
            assert("-"@ =~= seq!['-']);
            assert(key@ == record_key(data.opened, id@));
        }
        if self.main_db.contains(key.as_str()) {
            return Err(Error::StorageFailure);
        }
        let ck = data.composite_key();
        proof {
            lemma_create_consistent(self.records_map(), self.index_map(), key@, data@);
        }
        self.composite_index.upsert_member(ck, key.clone());
        self.main_db.put(key.clone(), data);
        proof {
            if !old(self).index_map().contains_key(ck@) {
                assert(Seq::<Seq<char>>::empty().push(key@) =~= seq![key@]);
            }
        }
        Ok(key)
    }

    /// Creates a permit record under a freshly generated identifier and
    /// returns the generated key.  The operation can fail only where the
    /// drawn identifier collides with a key already stored — so on any
    /// store holding no key of that shape it is promised to succeed — and a
    /// failure changes nothing.
    pub fn create_record(&mut self, data: DBSchema) -> (r: Result<String, Error>)
        requires
            old(self).inv(),
            data.opened.valid(),
        ensures
            final(self).inv(),
            match r {
                Ok(k) => k@.len() == 60 && k@.subrange(0, 23) == timestamp_text(data.opened)
                    && k@[23] == '-' && create_post(*old(self), *final(self), k@, data@),
                Err(e) => e == Error::StorageFailure && same_state(*old(self), *final(self))
                    && exists|id: Seq<char>|
                    id.len() == 36 && old(self).records_map().contains_key(
                        record_key(data.opened, id),
                    ),
            },
    {
        let id = fresh_id();
        let r = self.create_record_with_id(data, id.as_str());
        proof {
            crate::timestamp::lemma_timestamp_text_shape(data.opened);
            let key = record_key(data.opened, id@);
            assert(key.subrange(0, 23) =~= timestamp_text(data.opened));
            assert(key[23] == '-');
            if r is Err {
                assert(id@.len() == 36 && old(self).records_map().contains_key(
                    record_key(data.opened, id@),
                ));
            }
        }
        r
    }

    /// Applies a partial update to the record stored under `uuid`,
    /// atomically: the record's key moves from the bucket of its old
    /// composite key to the bucket of the new one, and the updated record
    /// overwrites the old one.  `NotFound` where the key is absent,
    /// `InvalidInput` where a supplied date text is malformed; every failure
    /// leaves the store exactly as it was.
    pub fn update_records(&mut self, uuid: &str, updated_data: &UpdateDBSchema) -> (r: Result<
        (),
        Error,
    >)
        requires
            old(self).inv(),
        ensures
            final(self).inv(),
            match r {
                Ok(()) => {
                    &&& old(self).records_map().contains_key(uuid@)
                &&& crate::schema::update_applies(updated_data@)
                &&& ({
                        let oldrec = old(self).records_map()[uuid@];
                        let newrec = final(self).records_map()[uuid@];
                        let ock = oldrec.composite_key();
                        let mid = old(self).index_map().insert(
                            ock,
                            remove_all(old(self).index_map()[ock], uuid@),
                        );
                        let nck = newrec.composite_key();
                        &&& crate::schema::updated_record(oldrec, updated_data@, newrec)
                    &&& final(self).records_map() == old(self).records_map().insert(uuid@, newrec)
                    &&& exists|i: int|
                            0 <= i < old(self).records_kv().len() && old(self).records_kv()[i].0
                                == uuid@ && final(self).records_kv() == old(
                                self,
                            ).records_kv().update(i, (uuid@, newrec))
                    &&& final(self).index_map() == mid.insert(
                            nck,
                            bucket_or_empty(mid, nck).push(uuid@),
                        )
                    })
                &&& final(self).processing_kv() == old(self).processing_kv()
                &&& final(self).payments_kv() == old(self).payments_kv()
                },
                Err(e) => {
                    &&& same_state(*old(self), *final(self))
                &&& (e == Error::NotFound || e == Error::InvalidInput)
                &&& (e == Error::NotFound <==> !old(self).records_map().contains_key(uuid@))
                &&& (e == Error::InvalidInput <==> old(self).records_map().contains_key(uuid@)
                        && !crate::schema::update_applies(updated_data@))
                },
            },
    {
        let rec = match self.main_db.get(uuid) {
            Some(d) => d.clone(),
            None => {
                return Err(Error::NotFound);
            },
        };
        let old_key = rec.composite_key();
        // Defensive check of the consistency invariant: a record whose
        // bucket is missing would mean index/table divergence.  The store
        // invariant rules it out.
        if self.composite_index.get_members(&old_key).is_none() {
            return Err(Error::Consistency);
        }
        let new_rec = match crate::schema::apply_update(&rec, updated_data) {
            Ok(nr) => nr,
            Err(e) => {
                return Err(e);
            },
        };
        let new_key = new_rec.composite_key();
        let ghost nrec_view = new_rec@;
        proof {
            lemma_update_consistent(self.records_map(), self.index_map(), uuid@, new_rec@);
        }
        let _removed = self.composite_index.remove_member(&old_key, uuid);
        self.composite_index.upsert_member(new_key, String::from_str(uuid));
        self.main_db.put(String::from_str(uuid), new_rec);
        proof {
            let ock = old(self).records_map()[uuid@].composite_key();
            let mid = old(self).index_map().insert(
                ock,
                remove_all(old(self).index_map()[ock], uuid@),
            );
            let nck = nrec_view.composite_key();
            if !mid.contains_key(nck) {
                assert(Seq::<Seq<char>>::empty().push(uuid@) =~= seq![uuid@]);
            }
        }
        Ok(())
    }

    /// Removes the record stored under `uuid` and prunes its key from the
    /// bucket of its composite key, atomically.  `NotFound` where the key
    /// is absent, and nothing changes.
    pub fn delete_record(&mut self, uuid: &str) -> (r: Result<(), Error>)
        requires
            old(self).inv(),
        ensures
            final(self).inv(),
            match r {
                Ok(()) => {
                    &&& old(self).records_map().contains_key(uuid@)
                &&& ({
                        let ck = old(self).records_map()[uuid@].composite_key();
                        &&& final(self).records_map() == old(self).records_map().remove(uuid@)
                    &&& exists|i: int|
                            0 <= i < old(self).records_kv().len() && old(self).records_kv()[i].0
                                == uuid@ && final(self).records_kv() == old(
                                self,
                            ).records_kv().remove(i)
                    &&& final(self).index_map() == old(self).index_map().insert(
                            ck,
                            remove_all(old(self).index_map()[ck], uuid@),
                        )
                    })
                &&& final(self).processing_kv() == old(self).processing_kv()
                &&& final(self).payments_kv() == old(self).payments_kv()
                },
                Err(e) => {
                    &&& e == Error::NotFound
                &&& !old(self).records_map().contains_key(uuid@)
                &&& same_state(*old(self), *final(self))
                },
            },
    {
        let rec = match self.main_db.get(uuid) {
            Some(d) => d.clone(),
            None => {
                return Err(Error::NotFound);
            },
        };
        let key_schema = rec.composite_key();
        proof {
            lemma_delete_consistent(self.records_map(), self.index_map(), uuid@);
        }
        let removed = self.composite_index.remove_member(&key_schema, uuid);
        if !removed {
            // Impossible under the store invariant: the record's bucket
            // always exists.
            return Err(Error::Consistency);
        }
        let _ = self.main_db.delete(uuid);
        Ok(())
    }

    /// Writes a processing-status entry under the key formed from the
    /// permit number and the entry's `last_modified` timestamp, overwriting
    /// any entry already stored under that key.
    pub fn create_processing_state(
        &mut self,
        permit_number: &str,
        data: ProcessingStatusSchema,
    ) -> (key: String)
        requires
            old(self).inv(),
            data.last_modified.valid(),
        ensures
            final(self).inv(),
            key@ == derived_key(permit_number@, data.last_modified),
            final(self).processing_map() == old(self).processing_map().insert(key@, data@),
            final(self).records_kv() == old(self).records_kv(),
            final(self).index_kv() == old(self).index_kv(),
            final(self).payments_kv() == old(self).payments_kv(),
    {
        proof {
            reveal_strlit("-");
        }
        let rendered = render_timestamp(&data.last_modified);
        let key = join_with(permit_number, "-", rendered.as_str());
        proof {
            assert("-"@ =~= seq!['-']);
        }
        self.processing_state.put(key.clone(), data);
        key
    }

    /// Writes a payment entry under the key formed from the permit number
    /// and the payment's `date` timestamp, overwriting any entry already
    /// stored under that key.
    pub fn create_payment(&mut self, permit_number: &str, data: Payments) -> (key: String)
        requires
            old(self).inv(),
            data.date.valid(),
        ensures
            final(self).inv(),
            key@ == derived_key(permit_number@, data.date),
            final(self).payments_map() == old(self).payments_map().insert(key@, data@),
            final(self).records_kv() == old(self).records_kv(),
            final(self).index_kv() == old(self).index_kv(),
            final(self).processing_kv() == old(self).processing_kv(),
    {
        proof {
            reveal_strlit("-");
        }
        let rendered = render_timestamp(&data.date);
        let key = join_with(permit_number, "-", rendered.as_str());
        proof {
            assert("-"@ =~= seq!['-']);
        }
        self.payments_db.put(key.clone(), data);
        key
    }

    /// Applies a partial update to the processing-status entry stored under
    /// `<permit-number>-<last-modified text>`.  A supplied `last_modified`
    /// relocates the entry to its recomputed key in the same step.
    /// `NotFound` where the key is absent, and nothing changes.
    pub fn update_processing_status(
        &mut self,
        permit_number: &str,
        last_modified: &str,
        updated_data: &UpdateProcessingStatusSchema,
    ) -> (r: Result<(), Error>)
        requires
            old(self).inv(),
            match updated_data.last_modified {
                Some(t) => t.valid(),
                None => true,
            },
        ensures
            final(self).inv(),
            ({
                let key = permit_number@ + seq!['-'] + last_modified@;
                match r {
                    Ok(()) => {
                        &&& old(self).processing_map().contains_key(key)
                    &&& ({
                            let oldrec = old(self).processing_map()[key];
                            match updated_data.last_modified {
                                None => {
                                    &&& crate::schema::updated_processing(
                                        oldrec,
                                        *updated_data,
                                        final(self).processing_map()[key],
                                    )
                                &&& final(self).processing_map() == old(
                                        self,
                                    ).processing_map().insert(
                                        key,
                                        final(self).processing_map()[key],
                                    )
                                },
                                Some(t) => {
                                    let nk = derived_key(permit_number@, t);
                                    &&& crate::schema::updated_processing(
                                        oldrec,
                                        *updated_data,
                                        final(self).processing_map()[nk],
                                    )
                                &&& final(self).processing_map() == old(
                                        self,
                                    ).processing_map().remove(key).insert(
                                        nk,
                                        final(self).processing_map()[nk],
                                    )
                                },
                            }
                        })
                    &&& final(self).records_kv() == old(self).records_kv()
                    &&& final(self).index_kv() == old(self).index_kv()
                    &&& final(self).payments_kv() == old(self).payments_kv()
                    },
                    Err(e) => {
                        &&& e == Error::NotFound
                    &&& !old(self).processing_map().contains_key(key)
                    &&& same_state(*old(self), *final(self))
                    },
                }
            }),
    {
        proof {
            reveal_strlit("-");
        }
        let key = join_with(permit_number, "-", last_modified);
        proof {
            assert("-"@ =~= seq!['-']);
        }
        let rec = match self.processing_state.get(key.as_str()) {
            Some(d) => d.clone(),
            None => {
                return Err(Error::NotFound);
            },
        };
        let new_rec = crate::schema::apply_processing_update(&rec, updated_data);
        match &updated_data.last_modified {
            Some(t) => {
                let _ = self.processing_state.delete(key.as_str());
                let rendered = render_timestamp(t);
                let new_key = join_with(permit_number, "-", rendered.as_str());
                self.processing_state.put(new_key, new_rec);
            },
            None => {
                self.processing_state.put(key, new_rec);
            },
        }
        Ok(())
    }

    /// Applies a partial update to the payment entry stored under
    /// `<permit-number>-<date text>`.  A supplied `date` relocates the
    /// entry to its recomputed key in the same step.  `NotFound` where the
    /// key is absent, and nothing changes.
    pub fn update_payment_details(
        &mut self,
        permit_number: &str,
        date: &str,
        updated_data: &UpdatePayment,
    ) -> (r: Result<(), Error>)
        requires
            old(self).inv(),
            match updated_data.date {
                Some(t) => t.valid(),
                None => true,
            },
        ensures
            final(self).inv(),
            ({
                let key = permit_number@ + seq!['-'] + date@;
                match r {
                    Ok(()) => {
                        &&& old(self).payments_map().contains_key(key)
                    &&& ({
                            let oldrec = old(self).payments_map()[key];
                            match updated_data.date {
                                None => {
                                    &&& crate::schema::updated_payment(
                                        oldrec,
                                        *updated_data,
                                        final(self).payments_map()[key],
                                    )
                                &&& final(self).payments_map() == old(
                                        self,
                                    ).payments_map().insert(key, final(self).payments_map()[key])
                                },
                                Some(t) => {
                                    let nk = derived_key(permit_number@, t);
                                    &&& crate::schema::updated_payment(
                                        oldrec,
                                        *updated_data,
                                        final(self).payments_map()[nk],
                                    )
                                &&& final(self).payments_map() == old(
                                        self,
                                    ).payments_map().remove(key).insert(
                                        nk,
                                        final(self).payments_map()[nk],
                                    )
                                },
                            }
                        })
                    &&& final(self).records_kv() == old(self).records_kv()
                    &&& final(self).index_kv() == old(self).index_kv()
                    &&& final(self).processing_kv() == old(self).processing_kv()
                    },
                    Err(e) => {
                        &&& e == Error::NotFound
                    &&& !old(self).payments_map().contains_key(key)
                    &&& same_state(*old(self), *final(self))
                    },
                }
            }),
    {
        proof {
            reveal_strlit("-");
        }
        let key = join_with(permit_number, "-", date);
        proof {
            assert("-"@ =~= seq!['-']);
        }
        let rec = match self.payments_db.get(key.as_str()) {
            Some(d) => d.clone(),
            None => {
                return Err(Error::NotFound);
            },
        };
        let new_rec = crate::schema::apply_payment_update(&rec, updated_data);
        match &updated_data.date {
            Some(t) => {
                let _ = self.payments_db.delete(key.as_str());
                let rendered = render_timestamp(t);
                let new_key = join_with(permit_number, "-", rendered.as_str());
                self.payments_db.put(new_key, new_rec);
            },
            None => {
                self.payments_db.put(key, new_rec);
            },
        }
        Ok(())
    }

    /// Fetches the record stored under `uuid`; `NotFound` where the key is
    /// absent.
    pub fn read_record_by_uuid(&self, uuid: &str) -> (r: Result<DBSchema, Error>)
        requires
            self.inv(),
        ensures
            match r {
                Ok(d) => self.records_map().contains_key(uuid@) && d@ == self.records_map()[uuid@],
                Err(e) => e == Error::NotFound && !self.records_map().contains_key(uuid@),
            },
    {
        match self.main_db.get(uuid) {
            Some(d) => Ok(d.clone()),
            None => Err(Error::NotFound),
        }
    }
}

} // verus!
