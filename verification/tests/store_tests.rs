use permit_store::{
    setup_db, DBSchema, Date, Error, Status, Timestamp, UpdateDBSchema,
};

fn ts(year: u32, month: u32, day: u32, hour: u32, minute: u32, second: u32, ms: u32) -> Timestamp {
    Timestamp { date: Date { year, month, day }, hour, minute, second, millisecond: ms }
}

fn record(client: &str, county: &str, status: Status, opened: Timestamp) -> DBSchema {
    DBSchema {
        permit_link: "https://permits.example/1".to_string(),
        permit_number: "PN-1".to_string(),
        client: client.to_string(),
        opened,
        last_updated: ts(2024, 1, 10, 0, 0, 0, 0),
        status_updated: ts(2024, 1, 11, 0, 0, 0, 0),
        county: county.to_string(),
        county_status: status,
        manual_status: Status::Pending,
        address: "1 Main St".to_string(),
    }
}

fn no_update() -> UpdateDBSchema {
    UpdateDBSchema {
        permit_link: None,
        permit_number: None,
        last_updated: None,
        status_updated: None,
        client: None,
        county: None,
        county_status: None,
        manual_status: None,
        address: None,
    }
}

#[test]
fn create_then_lookup_round_trip() {
    let mut db = setup_db();
    let rec = record("a", "one", Status::Active, ts(2024, 1, 2, 3, 4, 5, 6));
    let key = db.create_record_with_id(rec.clone(), "id-1").unwrap();
    assert_eq!(key, "2024-01-02T03:04:05.006-id-1");
    let got = db.read_record_by_uuid(&key).unwrap();
    assert_eq!(got.permit_link, rec.permit_link);
    assert_eq!(got.permit_number, rec.permit_number);
    assert_eq!(got.client, rec.client);
    assert_eq!(got.opened, rec.opened);
    assert_eq!(got.last_updated, rec.last_updated);
    assert_eq!(got.status_updated, rec.status_updated);
    assert_eq!(got.county, rec.county);
    assert_eq!(got.county_status, rec.county_status);
    assert_eq!(got.manual_status, rec.manual_status);
    assert_eq!(got.address, rec.address);
}

#[test]
fn create_record_generates_a_usable_key() {
    let mut db = setup_db();
    let rec = record("a", "one", Status::Active, ts(2024, 1, 2, 3, 4, 5, 6));
    let key = db.create_record(rec.clone()).unwrap();
    // 23 characters of timestamp, a hyphen, 36 characters of identifier.
    assert_eq!(key.len(), 60);
    assert!(key.starts_with("2024-01-02T03:04:05.006-"));
    assert!(db.read_record_by_uuid(&key).is_ok());
    let key2 = db.create_record(rec).unwrap();
    assert_ne!(key, key2);
}

#[test]
fn duplicate_identifier_is_a_storage_failure() {
    let mut db = setup_db();
    let rec = record("a", "one", Status::Active, ts(2024, 1, 2, 3, 4, 5, 6));
    let key = db.create_record_with_id(rec.clone(), "id-1").unwrap();
    let other = record("b", "two", Status::Closed, ts(2024, 1, 2, 3, 4, 5, 6));
    assert_eq!(db.create_record_with_id(other, "id-1"), Err(Error::StorageFailure));
    // The first record is untouched.
    let got = db.read_record_by_uuid(&key).unwrap();
    assert_eq!(got.client, "a");
}

#[test]
fn lookup_of_missing_key_is_not_found() {
    let db = setup_db();
    assert!(matches!(db.read_record_by_uuid("missing"), Err(Error::NotFound)));
}

#[test]
fn update_of_missing_key_is_not_found() {
    let mut db = setup_db();
    assert_eq!(db.update_records("missing", &no_update()), Err(Error::NotFound));
}

#[test]
fn delete_of_missing_key_is_not_found() {
    let mut db = setup_db();
    assert_eq!(db.delete_record("missing"), Err(Error::NotFound));
}

#[test]
fn update_overwrites_only_supplied_fields() {
    let mut db = setup_db();
    let rec = record("a", "one", Status::Active, ts(2024, 1, 2, 3, 4, 5, 6));
    let key = db.create_record_with_id(rec, "id-1").unwrap();
    let mut upd = no_update();
    upd.address = Some("2 Side St".to_string());
    upd.last_updated = Some("2025-03-04T05:06:07.008".to_string());
    db.update_records(&key, &upd).unwrap();
    let got = db.read_record_by_uuid(&key).unwrap();
    assert_eq!(got.address, "2 Side St");
    assert_eq!(got.last_updated, ts(2025, 3, 4, 5, 6, 7, 8));
    // Everything unsupplied is kept.
    assert_eq!(got.client, "a");
    assert_eq!(got.county, "one");
    assert_eq!(got.county_status, Status::Active);
    assert_eq!(got.opened, ts(2024, 1, 2, 3, 4, 5, 6));
    assert_eq!(got.status_updated, ts(2024, 1, 11, 0, 0, 0, 0));
}

#[test]
fn aborted_update_leaves_no_partial_effect() {
    // An update that fails halfway through its field application — here on
    // the malformed date text — must leave both the record and the index
    // exactly as they were, even though earlier fields were acceptable.
    let mut db = setup_db();
    let rec = record("a", "one", Status::Active, ts(2024, 1, 2, 3, 4, 5, 6));
    let key = db.create_record_with_id(rec, "id-1").unwrap();
    let mut upd = no_update();
    upd.county = Some("two".to_string());
    upd.county_status = Some(Status::Closed);
    upd.last_updated = Some("not-a-timestamp".to_string());
    assert_eq!(db.update_records(&key, &upd), Err(Error::InvalidInput));
    let got = db.read_record_by_uuid(&key).unwrap();
    assert_eq!(got.county, "one");
    assert_eq!(got.county_status, Status::Active);
    // The composite index still answers for the original triple only.
    let q_old = query_for("a", "one", Status::Active);
    let q_new = query_for("a", "two", Status::Closed);
    assert_eq!(page_keys(&db, &q_old), vec![key.clone()]);
    assert!(page_keys(&db, &q_new).is_empty());
}

fn query_for(client: &str, county: &str, status: Status) -> permit_store::RecordQuery {
    permit_store::RecordQuery {
        county: Some(county.to_string()),
        client: Some(client.to_string()),
        county_status: Some(status),
        sort_key: None,
        descending: false,
        page: None,
        records_per_page: None,
    }
}

fn page_keys(db: &permit_store::DBHandles, q: &permit_store::RecordQuery) -> Vec<String> {
    match db.read_record(q).unwrap() {
        permit_store::QueryOutcome::Page { items, total: _ } => {
            items.into_iter().map(|p| p.0).collect()
        }
        permit_store::QueryOutcome::BeyondLastPage { total_pages: _ } => Vec::new(),
    }
}

#[test]
fn index_follows_create_update_delete() {
    // Create record A with (client="a", county="one", status=Active): the
    // bucket of that triple holds exactly A's key.  Update the status to
    // Closed: the old bucket no longer answers, the new one does.  Delete
    // A: the lookup fails and the Closed bucket is empty again.
    let mut db = setup_db();
    let rec = record("a", "one", Status::Active, ts(2024, 1, 2, 3, 4, 5, 6));
    let key = db.create_record_with_id(rec, "id-a").unwrap();
    assert_eq!(page_keys(&db, &query_for("a", "one", Status::Active)), vec![key.clone()]);

    let mut upd = no_update();
    upd.county_status = Some(Status::Closed);
    db.update_records(&key, &upd).unwrap();
    assert!(page_keys(&db, &query_for("a", "one", Status::Active)).is_empty());
    assert_eq!(page_keys(&db, &query_for("a", "one", Status::Closed)), vec![key.clone()]);

    db.delete_record(&key).unwrap();
    assert!(matches!(db.read_record_by_uuid(&key), Err(Error::NotFound)));
    assert!(page_keys(&db, &query_for("a", "one", Status::Closed)).is_empty());
}

#[test]
fn update_within_same_bucket_keeps_membership() {
    let mut db = setup_db();
    let rec = record("a", "one", Status::Active, ts(2024, 1, 2, 3, 4, 5, 6));
    let key = db.create_record_with_id(rec, "id-a").unwrap();
    let mut upd = no_update();
    upd.address = Some("3 Other St".to_string());
    db.update_records(&key, &upd).unwrap();
    assert_eq!(page_keys(&db, &query_for("a", "one", Status::Active)), vec![key]);
}
