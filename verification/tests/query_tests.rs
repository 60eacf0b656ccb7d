use permit_store::{
    apply_update, paginate, setup_db, DBHandles, DBSchema, Date, Error, Payments, ProcessStatus,
    ProcessingStatusSchema, QueryOutcome, RecordQuery, SortKey, Status, Timestamp, UpdateDBSchema,
    UpdatePayment, UpdateProcessingStatusSchema,
};

fn ts(year: u32, month: u32, day: u32, hour: u32, minute: u32, second: u32, ms: u32) -> Timestamp {
    Timestamp { date: Date { year, month, day }, hour, minute, second, millisecond: ms }
}

fn record(client: &str, county: &str, status: Status, opened: Timestamp) -> DBSchema {
    DBSchema {
        permit_link: "https://permits.example/1".to_string(),
        permit_number: "PN-1".to_string(),
        client: client.to_string(),
        opened,
        last_updated: ts(2024, 1, 10, 0, 0, 0, 0),
        status_updated: ts(2024, 1, 11, 0, 0, 0, 0),
        county: county.to_string(),
        county_status: status,
        manual_status: Status::Pending,
        address: "1 Main St".to_string(),
    }
}

fn empty_query() -> RecordQuery {
    RecordQuery {
        county: None,
        client: None,
        county_status: None,
        sort_key: None,
        descending: false,
        page: None,
        records_per_page: None,
    }
}

fn all_three(client: &str, county: &str, status: Status) -> RecordQuery {
    RecordQuery {
        county: Some(county.to_string()),
        client: Some(client.to_string()),
        county_status: Some(status),
        sort_key: None,
        descending: false,
        page: None,
        records_per_page: None,
    }
}

fn page_keys(out: QueryOutcome) -> Vec<String> {
    match out {
        QueryOutcome::Page { items, total: _ } => items.into_iter().map(|p| p.0).collect(),
        QueryOutcome::BeyondLastPage { total_pages: _ } => Vec::new(),
    }
}

fn seeded(n: u32) -> (DBHandles, Vec<String>) {
    let mut db = setup_db();
    let mut keys = Vec::new();
    for i in 0..n {
        let rec = record("a", "one", Status::Active, ts(2024, 1, 1 + i, 0, 0, 0, 0));
        let key = db.create_record_with_id(rec, &format!("id-{}", i)).unwrap();
        keys.push(key);
    }
    (db, keys)
}

#[test]
fn pages_partition_the_result_set() {
    // Five records at page size two: pages 1..3 carry [0,1], [2,3], [4]
    // with no overlap and no gap; page 4 reports the page count instead.
    let (db, keys) = seeded(5);
    let mut q = empty_query();
    q.records_per_page = Some(2);

    q.page = Some(1);
    assert_eq!(page_keys(db.read_record(&q).unwrap()), vec![keys[0].clone(), keys[1].clone()]);
    q.page = Some(2);
    assert_eq!(page_keys(db.read_record(&q).unwrap()), vec![keys[2].clone(), keys[3].clone()]);
    q.page = Some(3);
    assert_eq!(page_keys(db.read_record(&q).unwrap()), vec![keys[4].clone()]);
    q.page = Some(4);
    match db.read_record(&q).unwrap() {
        QueryOutcome::BeyondLastPage { total_pages } => assert_eq!(total_pages, 3),
        QueryOutcome::Page { .. } => panic!("page 4 must report the page count"),
    }
}

#[test]
fn page_reports_total_count() {
    let (db, _) = seeded(5);
    let mut q = empty_query();
    q.records_per_page = Some(2);
    q.page = Some(1);
    match db.read_record(&q).unwrap() {
        QueryOutcome::Page { items, total } => {
            assert_eq!(items.len(), 2);
            assert_eq!(total, 5);
        }
        QueryOutcome::BeyondLastPage { .. } => panic!("page 1 must hold data"),
    }
}

#[test]
fn zero_page_parameters_are_invalid_input() {
    let (db, _) = seeded(2);
    let mut q = empty_query();
    q.page = Some(0);
    assert!(matches!(db.read_record(&q), Err(Error::InvalidInput)));
    let mut q = empty_query();
    q.records_per_page = Some(0);
    assert!(matches!(db.read_record(&q), Err(Error::InvalidInput)));
}

#[test]
fn default_page_size_is_fifty() {
    let (db, _) = seeded(60);
    match db.read_record(&empty_query()).unwrap() {
        QueryOutcome::Page { items, total } => {
            assert_eq!(items.len(), 50);
            assert_eq!(total, 60);
        }
        QueryOutcome::BeyondLastPage { .. } => panic!("the first page must hold data"),
    }
}

#[test]
fn date_range_scan_is_the_union_of_per_day_matches() {
    // Records opened on the first, second, third and fifth of the month: a
    // scan over [2024-01-01, 2024-01-03] returns exactly the first three,
    // each once, in date order.
    let (db, keys) = seeded(3);
    let mut db = db;
    let outside = record("a", "one", Status::Active, ts(2024, 1, 5, 0, 0, 0, 0));
    db.create_record_with_id(outside, "id-out").unwrap();

    let got = db.read_records_by_opened_date("2024-01-01", "2024-01-03").unwrap();
    let got_keys: Vec<String> = got.into_iter().map(|p| p.0).collect();
    assert_eq!(got_keys, keys);
}

#[test]
fn date_range_scan_rejects_malformed_dates() {
    let (db, _) = seeded(1);
    assert!(matches!(
        db.read_records_by_opened_date("2024/01/01", "2024-01-03"),
        Err(Error::InvalidInput)
    ));
    assert!(matches!(
        db.read_records_by_opened_date("2024-01-01", "03-01-2024"),
        Err(Error::InvalidInput)
    ));
}

#[test]
fn empty_date_range_scans_nothing() {
    let (db, _) = seeded(3);
    let got = db.read_records_by_opened_date("2024-01-03", "2024-01-01").unwrap();
    assert!(got.is_empty());
}

#[test]
fn residual_filter_combines_supplied_fields() {
    let mut db = setup_db();
    let k1 = db
        .create_record_with_id(
            record("a", "one", Status::Active, ts(2024, 1, 1, 0, 0, 0, 0)),
            "id-1",
        )
        .unwrap();
    let k2 = db
        .create_record_with_id(
            record("a", "two", Status::Closed, ts(2024, 1, 1, 1, 0, 0, 0)),
            "id-2",
        )
        .unwrap();
    let k3 = db
        .create_record_with_id(
            record("b", "one", Status::Active, ts(2024, 1, 1, 2, 0, 0, 0)),
            "id-3",
        )
        .unwrap();

    let county = Some("one".to_string());
    let client = Some("a".to_string());
    let status = Some("Active".to_string());
    let none: Option<String> = None;

    let got = db
        .read_permit_with_filter("2024-01-01", "2024-01-01", &county, &none, &none)
        .unwrap();
    let got_keys: Vec<String> = got.into_iter().map(|p| p.0).collect();
    assert_eq!(got_keys, vec![k1.clone(), k3.clone()]);

    let got = db
        .read_permit_with_filter("2024-01-01", "2024-01-01", &county, &client, &status)
        .unwrap();
    let got_keys: Vec<String> = got.into_iter().map(|p| p.0).collect();
    assert_eq!(got_keys, vec![k1.clone()]);

    // No filter supplied: the scan comes back whole.
    let got = db
        .read_permit_with_filter("2024-01-01", "2024-01-01", &none, &none, &none)
        .unwrap();
    assert_eq!(got.len(), 3);

    // A status text that names no variant matches nothing.
    let bogus = Some("Open".to_string());
    let got = db
        .read_permit_with_filter("2024-01-01", "2024-01-01", &none, &none, &bogus)
        .unwrap();
    assert!(got.is_empty());
    let _ = k2;
}

#[test]
fn composite_lookup_uses_the_index_not_the_scan() {
    // With all three of client, county and county-status supplied, the
    // query answers from the composite index: a date consideration that
    // would exclude the record on the scan-and-filter path has no effect.
    let mut db = setup_db();
    let key = db
        .create_record_with_id(
            record("a", "one", Status::Active, ts(2024, 1, 2, 0, 0, 0, 0)),
            "id-1",
        )
        .unwrap();
    // The scan path over a range that misses the record finds nothing.
    let county = Some("one".to_string());
    let client = Some("a".to_string());
    let status = Some("Active".to_string());
    let got = db
        .read_permit_with_filter("2025-01-01", "2025-01-02", &county, &client, &status)
        .unwrap();
    assert!(got.is_empty());
    // The index path finds the record regardless of any date.
    let got = page_keys(db.read_record(&all_three("a", "one", Status::Active)).unwrap());
    assert_eq!(got, vec![key]);
}

#[test]
fn composite_lookup_separates_buckets() {
    let mut db = setup_db();
    let k1 = db
        .create_record_with_id(
            record("a", "one", Status::Active, ts(2024, 1, 1, 0, 0, 0, 0)),
            "id-1",
        )
        .unwrap();
    let _k2 = db
        .create_record_with_id(
            record("a", "one", Status::Closed, ts(2024, 1, 2, 0, 0, 0, 0)),
            "id-2",
        )
        .unwrap();
    // Same client and county, different status: only the exact triple's
    // bucket answers.
    let got = page_keys(db.read_record(&all_three("a", "one", Status::Active)).unwrap());
    assert_eq!(got, vec![k1]);
    let got = page_keys(db.read_record(&all_three("c", "one", Status::Active)).unwrap());
    assert!(got.is_empty());
}

#[test]
fn composite_lookup_sorts_by_selected_key() {
    let mut db = setup_db();
    let mut r1 = record("a", "one", Status::Active, ts(2024, 1, 3, 0, 0, 0, 0));
    r1.manual_status = Status::UnderReview;
    let mut r2 = record("a", "one", Status::Active, ts(2024, 1, 1, 0, 0, 0, 0));
    r2.manual_status = Status::Pending;
    let mut r3 = record("a", "one", Status::Active, ts(2024, 1, 2, 0, 0, 0, 0));
    r3.manual_status = Status::Active;
    let k1 = db.create_record_with_id(r1, "id-1").unwrap();
    let k2 = db.create_record_with_id(r2, "id-2").unwrap();
    let k3 = db.create_record_with_id(r3, "id-3").unwrap();

    // Default: ascending by the opened timestamp.
    let got = page_keys(db.read_record(&all_three("a", "one", Status::Active)).unwrap());
    assert_eq!(got, vec![k2.clone(), k3.clone(), k1.clone()]);

    let mut q = all_three("a", "one", Status::Active);
    q.descending = true;
    let got = page_keys(db.read_record(&q).unwrap());
    assert_eq!(got, vec![k1.clone(), k3.clone(), k2.clone()]);

    let mut q = all_three("a", "one", Status::Active);
    q.sort_key = Some(SortKey::ManualStatus);
    let got = page_keys(db.read_record(&q).unwrap());
    assert_eq!(got, vec![k3, k2, k1]);
}

#[test]
fn sort_is_stable_on_ties() {
    let mut db = setup_db();
    let same_opened = ts(2024, 1, 1, 0, 0, 0, 0);
    let k1 = db
        .create_record_with_id(record("a", "one", Status::Active, same_opened), "id-1")
        .unwrap();
    let k2 = db
        .create_record_with_id(record("a", "one", Status::Active, same_opened), "id-2")
        .unwrap();
    let k3 = db
        .create_record_with_id(record("a", "one", Status::Active, same_opened), "id-3")
        .unwrap();
    // All opened timestamps tie: ascending and descending both keep the
    // original bucket order.
    let got = page_keys(db.read_record(&all_three("a", "one", Status::Active)).unwrap());
    assert_eq!(got, vec![k1.clone(), k2.clone(), k3.clone()]);
    let mut q = all_three("a", "one", Status::Active);
    q.descending = true;
    let got = page_keys(db.read_record(&q).unwrap());
    assert_eq!(got, vec![k1, k2, k3]);
}

#[test]
fn processing_status_create_read_update() {
    let mut db = setup_db();
    let entry = ProcessingStatusSchema {
        processing_status: ProcessStatus::PendingAdditionalReview,
        due_date: ts(2024, 2, 1, 0, 0, 0, 0),
        assigned_to: "inspector".to_string(),
        last_modified: ts(2024, 1, 5, 10, 0, 0, 0),
    };
    let key = db.create_processing_state("PN-1", entry);
    assert_eq!(key, "PN-1-2024-01-05T10:00:00.000");

    let got = db.read_processing_state(&vec!["PN-1".to_string(), "PN-2".to_string()]);
    assert_eq!(got.len(), 2);
    assert_eq!(got[0].len(), 1);
    assert_eq!(got[0][0].0, key);
    assert_eq!(got[0][0].1.assigned_to, "inspector");
    assert!(got[1].is_empty());

    // An in-place update keeps the key.
    let upd = UpdateProcessingStatusSchema {
        processing_status: Some(ProcessStatus::RevisionsReceived),
        due_date: None,
        assigned_to: None,
        last_modified: None,
    };
    db.update_processing_status("PN-1", "2024-01-05T10:00:00.000", &upd).unwrap();
    let got = db.read_processing_state(&vec!["PN-1".to_string()]);
    assert_eq!(got[0].len(), 1);
    assert_eq!(got[0][0].1.processing_status, ProcessStatus::RevisionsReceived);
    assert_eq!(got[0][0].1.assigned_to, "inspector");

    // A changed last-modified relocates the entry.
    let upd = UpdateProcessingStatusSchema {
        processing_status: None,
        due_date: None,
        assigned_to: None,
        last_modified: Some(ts(2024, 1, 6, 9, 0, 0, 0)),
    };
    db.update_processing_status("PN-1", "2024-01-05T10:00:00.000", &upd).unwrap();
    let got = db.read_processing_state(&vec!["PN-1".to_string()]);
    assert_eq!(got[0].len(), 1);
    assert_eq!(got[0][0].0, "PN-1-2024-01-06T09:00:00.000");

    assert_eq!(
        db.update_processing_status("PN-1", "2024-01-05T10:00:00.000", &upd),
        Err(Error::NotFound)
    );
}

#[test]
fn payments_create_read_update() {
    let mut db = setup_db();
    let entry = Payments {
        payment: "application fee".to_string(),
        date: ts(2024, 1, 5, 10, 0, 0, 0),
        amount: 25_000,
        status: "paid".to_string(),
    };
    let key = db.create_payment("PN-1", entry);
    assert_eq!(key, "PN-1-2024-01-05T10:00:00.000");

    let got = db.read_payment_details(&vec!["PN-1".to_string()]);
    assert_eq!(got.len(), 1);
    assert_eq!(got[0].len(), 1);
    assert_eq!(got[0][0].1.amount, 25_000);

    let upd = UpdatePayment {
        payment: None,
        date: Some(ts(2024, 1, 7, 8, 0, 0, 0)),
        amount: Some(30_000),
        status: None,
    };
    db.update_payment_details("PN-1", "2024-01-05T10:00:00.000", &upd).unwrap();
    let got = db.read_payment_details(&vec!["PN-1".to_string()]);
    assert_eq!(got[0].len(), 1);
    assert_eq!(got[0][0].0, "PN-1-2024-01-07T08:00:00.000");
    assert_eq!(got[0][0].1.amount, 30_000);
    assert_eq!(got[0][0].1.status, "paid");

    assert_eq!(
        db.update_payment_details("PN-9", "2024-01-05T10:00:00.000", &upd),
        Err(Error::NotFound)
    );
}

#[test]
fn date_range_scan_crosses_month_boundaries() {
    let mut db = setup_db();
    let k1 = db
        .create_record_with_id(
            record("a", "one", Status::Active, ts(2024, 2, 28, 0, 0, 0, 0)),
            "id-1",
        )
        .unwrap();
    let k2 = db
        .create_record_with_id(
            record("a", "one", Status::Active, ts(2024, 2, 29, 0, 0, 0, 0)),
            "id-2",
        )
        .unwrap();
    let k3 = db
        .create_record_with_id(
            record("a", "one", Status::Active, ts(2024, 3, 1, 0, 0, 0, 0)),
            "id-3",
        )
        .unwrap();
    let got = db.read_records_by_opened_date("2024-02-28", "2024-03-01").unwrap();
    let got_keys: Vec<String> = got.into_iter().map(|p| p.0).collect();
    assert_eq!(got_keys, vec![k1, k2, k3]);
}

#[test]
fn paginate_windows_directly() {
    let mut db = setup_db();
    let mut items = Vec::new();
    for i in 0..5u32 {
        let rec = record("a", "one", Status::Active, ts(2024, 1, 1 + i, 0, 0, 0, 0));
        let key = db.create_record_with_id(rec, &format!("id-{}", i)).unwrap();
        let got = db.read_record_by_uuid(&key).unwrap();
        items.push((key, got));
    }
    match paginate(items.clone(), 2, 2) {
        QueryOutcome::Page { items: out, total } => {
            assert_eq!(total, 5);
            assert_eq!(out.len(), 2);
            assert_eq!(out[0].0, items[2].0);
            assert_eq!(out[1].0, items[3].0);
        }
        QueryOutcome::BeyondLastPage { .. } => panic!("page 2 of 5 items at size 2 holds data"),
    }
    match paginate(items.clone(), 3, 2) {
        QueryOutcome::Page { items: out, total } => {
            assert_eq!(total, 5);
            assert_eq!(out.len(), 1);
            assert_eq!(out[0].0, items[4].0);
        }
        QueryOutcome::BeyondLastPage { .. } => panic!("the last partial page holds data"),
    }
    match paginate(items, 9, 2) {
        QueryOutcome::BeyondLastPage { total_pages } => assert_eq!(total_pages, 3),
        QueryOutcome::Page { .. } => panic!("page 9 lies beyond the last page"),
    }
}

#[test]
fn apply_update_rejects_any_malformed_date_field() {
    let rec = record("a", "one", Status::Active, ts(2024, 1, 2, 0, 0, 0, 0));
    let upd = UpdateDBSchema {
        permit_link: None,
        permit_number: None,
        last_updated: None,
        status_updated: Some("2024-01-02".to_string()),
        client: None,
        county: None,
        county_status: None,
        manual_status: None,
        address: None,
    };
    assert!(matches!(apply_update(&rec, &upd), Err(Error::InvalidInput)));
    let upd = UpdateDBSchema {
        permit_link: None,
        permit_number: None,
        last_updated: None,
        status_updated: Some("2024-01-02T03:04:05.006".to_string()),
        client: None,
        county: None,
        county_status: None,
        manual_status: None,
        address: None,
    };
    let new = apply_update(&rec, &upd).unwrap();
    assert_eq!(new.status_updated, ts(2024, 1, 2, 3, 4, 5, 6));
    assert_eq!(new.last_updated, rec.last_updated);
}

#[test]
fn update_moves_key_into_an_existing_bucket() {
    let mut db = setup_db();
    let ka = db
        .create_record_with_id(
            record("a", "one", Status::Active, ts(2024, 1, 1, 0, 0, 0, 0)),
            "id-a",
        )
        .unwrap();
    let kb = db
        .create_record_with_id(
            record("a", "one", Status::Closed, ts(2024, 1, 2, 0, 0, 0, 0)),
            "id-b",
        )
        .unwrap();
    // Move A into B's bucket: the bucket then answers with both, sorted by
    // the opened timestamp.
    let upd = UpdateDBSchema {
        permit_link: None,
        permit_number: None,
        last_updated: None,
        status_updated: None,
        client: None,
        county: None,
        county_status: Some(Status::Closed),
        manual_status: None,
        address: None,
    };
    db.update_records(&ka, &upd).unwrap();
    let got = page_keys(db.read_record(&all_three("a", "one", Status::Closed)).unwrap());
    assert_eq!(got, vec![ka.clone(), kb]);
    assert!(page_keys(db.read_record(&all_three("a", "one", Status::Active)).unwrap()).is_empty());
}

#[test]
fn partial_filters_fall_back_to_the_residual_scan() {
    let mut db = setup_db();
    let k1 = db
        .create_record_with_id(
            record("a", "one", Status::Active, ts(2024, 1, 1, 0, 0, 0, 0)),
            "id-1",
        )
        .unwrap();
    let _k2 = db
        .create_record_with_id(
            record("b", "two", Status::Active, ts(2024, 1, 2, 0, 0, 0, 0)),
            "id-2",
        )
        .unwrap();
    let k3 = db
        .create_record_with_id(
            record("c", "one", Status::Closed, ts(2024, 1, 3, 0, 0, 0, 0)),
            "id-3",
        )
        .unwrap();
    // Fewer than all three composite fields: the whole table is filtered in
    // table order, no index involved.
    let mut q = empty_query();
    q.county = Some("one".to_string());
    assert_eq!(page_keys(db.read_record(&q).unwrap()), vec![k1.clone(), k3.clone()]);
    let mut q = empty_query();
    q.county = Some("one".to_string());
    q.county_status = Some(Status::Closed);
    assert_eq!(page_keys(db.read_record(&q).unwrap()), vec![k3]);
}


#[test]
fn scans_come_back_in_ascending_key_order() {
    // Records created out of date order: every read that scans the table
    // still comes back in ascending key order, as an ordered store gives.
    let mut db = setup_db();
    let k3 = db
        .create_record_with_id(
            record("a", "one", Status::Active, ts(2024, 1, 3, 0, 0, 0, 0)),
            "id-3",
        )
        .unwrap();
    let k1 = db
        .create_record_with_id(
            record("a", "one", Status::Active, ts(2024, 1, 1, 0, 0, 0, 0)),
            "id-1",
        )
        .unwrap();
    let k2 = db
        .create_record_with_id(
            record("a", "one", Status::Active, ts(2024, 1, 2, 0, 0, 0, 0)),
            "id-2",
        )
        .unwrap();

    let got = db.read_records_by_opened_date("2024-01-01", "2024-01-03").unwrap();
    let got_keys: Vec<String> = got.into_iter().map(|p| p.0).collect();
    assert_eq!(got_keys, vec![k1.clone(), k2.clone(), k3.clone()]);

    // The unfiltered browse returns the table window in key order too.
    assert_eq!(page_keys(db.read_record(&empty_query()).unwrap()), vec![k1, k2, k3]);
}

#[test]
fn derived_reads_come_back_in_ascending_key_order() {
    let mut db = setup_db();
    let later = Payments {
        payment: "late fee".to_string(),
        date: ts(2024, 2, 1, 0, 0, 0, 0),
        amount: 5_000,
        status: "due".to_string(),
    };
    let earlier = Payments {
        payment: "application fee".to_string(),
        date: ts(2024, 1, 1, 0, 0, 0, 0),
        amount: 25_000,
        status: "paid".to_string(),
    };
    let k_later = db.create_payment("PN-1", later);
    let k_earlier = db.create_payment("PN-1", earlier);
    let got = db.read_payment_details(&vec!["PN-1".to_string()]);
    assert_eq!(got[0].len(), 2);
    assert_eq!(got[0][0].0, k_earlier);
    assert_eq!(got[0][1].0, k_later);
}
