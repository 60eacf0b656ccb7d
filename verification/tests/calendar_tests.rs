use permit_store::{
    days_in_month, is_leap_year, next_day, parse_date, parse_timestamp, render_date,
    render_timestamp, Date, Error, ProcessStatus, Status, Timestamp,
};

fn ts(year: u32, month: u32, day: u32, hour: u32, minute: u32, second: u32, ms: u32) -> Timestamp {
    Timestamp { date: Date { year, month, day }, hour, minute, second, millisecond: ms }
}

#[test]
fn status_text_round_trip() {
    let all = [
        Status::Active,
        Status::Inactive,
        Status::Pending,
        Status::Closed,
        Status::UnderReview,
    ];
    for st in all {
        assert_eq!(Status::from_text(st.as_text()), Some(st));
    }
    assert_eq!(Status::Active.as_text(), "Active");
    assert_eq!(Status::UnderReview.as_text(), "UnderReview");
    assert_eq!(Status::from_text("bogus"), None);
    assert_eq!(Status::from_text(""), None);
}

#[test]
fn status_parsing_accepts_any_capitalization() {
    assert_eq!(Status::from_text("active"), Some(Status::Active));
    assert_eq!(Status::from_text("AcTiVe"), Some(Status::Active));
    assert_eq!(Status::from_text("ACTIVE"), Some(Status::Active));
    assert_eq!(Status::from_text("underreview"), Some(Status::UnderReview));
    assert_eq!(Status::from_text("closed"), Some(Status::Closed));
    assert_eq!(Status::from_text("activee"), None);
    assert_eq!(
        ProcessStatus::from_text("approvedwithconditions"),
        Some(ProcessStatus::ApprovedWithConditions)
    );
    assert_eq!(
        ProcessStatus::from_text("PENDINGADDITIONALREVIEW"),
        Some(ProcessStatus::PendingAdditionalReview)
    );
}

#[test]
fn process_status_text_round_trip() {
    let all = [
        ProcessStatus::ApprovedWithConditions,
        ProcessStatus::PendingAdditionalReview,
        ProcessStatus::RevisionsReceived,
    ];
    for st in all {
        assert_eq!(ProcessStatus::from_text(st.as_text()), Some(st));
    }
    assert_eq!(ProcessStatus::from_text("Approved"), None);
}

#[test]
fn status_rank_follows_declaration_order() {
    assert!(Status::Active.rank() < Status::Inactive.rank());
    assert!(Status::Inactive.rank() < Status::Pending.rank());
    assert!(Status::Pending.rank() < Status::Closed.rank());
    assert!(Status::Closed.rank() < Status::UnderReview.rank());
}

#[test]
fn renders_fixed_formats() {
    assert_eq!(render_date(&Date { year: 2024, month: 1, day: 2 }), "2024-01-02");
    assert_eq!(render_date(&Date { year: 987, month: 12, day: 31 }), "0987-12-31");
    assert_eq!(render_timestamp(&ts(2024, 1, 2, 3, 4, 5, 6)), "2024-01-02T03:04:05.006");
    assert_eq!(render_timestamp(&ts(2026, 11, 30, 23, 59, 59, 999)), "2026-11-30T23:59:59.999");
}

#[test]
fn parses_exactly_the_rendered_forms() {
    assert_eq!(parse_date("2024-01-02"), Ok(Date { year: 2024, month: 1, day: 2 }));
    assert_eq!(parse_date("2024-1-2"), Err(Error::InvalidInput));
    assert_eq!(parse_date("2024-01-02T"), Err(Error::InvalidInput));
    assert_eq!(parse_date("2024-13-02"), Err(Error::InvalidInput));
    assert_eq!(parse_date("2024-00-02"), Err(Error::InvalidInput));
    assert_eq!(parse_date("0000-01-02"), Err(Error::InvalidInput));
    assert_eq!(parse_date("2024-04-31"), Err(Error::InvalidInput));

    let t = parse_timestamp("2024-01-02T03:04:05.006").unwrap();
    assert_eq!(t, ts(2024, 1, 2, 3, 4, 5, 6));
    assert_eq!(render_timestamp(&t), "2024-01-02T03:04:05.006");
    assert_eq!(parse_timestamp("2024-01-02 03:04:05.006"), Err(Error::InvalidInput));
    assert_eq!(parse_timestamp("2024-01-02T03:04:05"), Err(Error::InvalidInput));
    assert_eq!(parse_timestamp("2024-01-02T24:00:00.000"), Err(Error::InvalidInput));
    assert_eq!(parse_timestamp("2024-01-02T03:60:05.006"), Err(Error::InvalidInput));
}

#[test]
fn leap_year_rules() {
    assert!(is_leap_year(2024));
    assert!(!is_leap_year(2023));
    assert!(!is_leap_year(1900));
    assert!(is_leap_year(2000));
    assert_eq!(days_in_month(2024, 2), 29);
    assert_eq!(days_in_month(2023, 2), 28);
    assert_eq!(days_in_month(2024, 4), 30);
    assert_eq!(days_in_month(2024, 12), 31);
    assert!(parse_timestamp("2024-02-29T00:00:00.000").is_ok());
    assert_eq!(parse_timestamp("2023-02-29T00:00:00.000"), Err(Error::InvalidInput));
}

#[test]
fn next_day_rolls_over() {
    assert_eq!(
        next_day(&Date { year: 2024, month: 1, day: 2 }),
        Date { year: 2024, month: 1, day: 3 }
    );
    assert_eq!(
        next_day(&Date { year: 2024, month: 2, day: 28 }),
        Date { year: 2024, month: 2, day: 29 }
    );
    assert_eq!(
        next_day(&Date { year: 2023, month: 2, day: 28 }),
        Date { year: 2023, month: 3, day: 1 }
    );
    assert_eq!(
        next_day(&Date { year: 2024, month: 12, day: 31 }),
        Date { year: 2025, month: 1, day: 1 }
    );
}

#[test]
fn error_descriptions() {
    assert_eq!(Error::NotFound.describe(), "not found");
    assert_eq!(Error::Consistency.describe(), "consistency violation");
    assert_eq!(Error::InvalidInput.describe(), "invalid input");
    assert_eq!(Error::StorageFailure.describe(), "storage failure");
}
