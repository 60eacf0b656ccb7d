//! A verified embedded store for permit records and their derived entries.
//!
//! The store owns four ordered key-value tables: the primary record table,
//! a composite secondary index bucketing record keys by
//! (client, county, county-status), a processing-status table and a payments
//! table.  Every write operation maintains the consistency invariant between
//! the record table and the composite index, and the query engine answers
//! point lookups, date-range scans and filtered, sorted, paginated queries
//! against the same state.

mod assoc;
mod error;
mod index;
mod laws;
mod query;
mod schema;
mod status;
mod store;
mod strings;
mod table;
mod timestamp;

pub use error::Error;
pub use query::{paginate, QueryOutcome, RecordQuery, SortKey};
pub use schema::{
    apply_update, DBSchema, KeySchema, Payments, ProcessingStatusSchema, UpdateDBSchema,
    UpdatePayment, UpdateProcessingStatusSchema,
};
pub use status::{ProcessStatus, Status};
pub use store::{setup_db, DBHandles};
pub use timestamp::{
    date_le, days_in_month, is_leap_year, next_day, parse_date, parse_timestamp, render_date,
    render_timestamp, ts_le, Date, Timestamp,
};
