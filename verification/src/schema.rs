//! The record types of the store, their mathematical views, and the
//! partial-update payloads that overwrite only supplied fields.

use vstd::prelude::*;

use crate::error::Error;
use crate::status::{ProcessStatus, Status};
use crate::timestamp::{timestamp_text, Timestamp};

verus! {

/// A primary permit record.
#[derive(Debug)]
pub struct DBSchema {
    pub permit_link: String,
    pub permit_number: String,
    pub client: String,
    pub opened: Timestamp,
    pub last_updated: Timestamp,
    pub status_updated: Timestamp,
    pub county: String,
    pub county_status: Status,
    pub manual_status: Status,
    pub address: String,
}

/// The mathematical view of a permit record.
pub struct RecordView {
    pub permit_link: Seq<char>,
    pub permit_number: Seq<char>,
    pub client: Seq<char>,
    pub opened: Timestamp,
    pub last_updated: Timestamp,
    pub status_updated: Timestamp,
    pub county: Seq<char>,
    pub county_status: Status,
    pub manual_status: Status,
    pub address: Seq<char>,
}

impl View for DBSchema {
    type V = RecordView;

    open spec fn view(&self) -> RecordView {
        RecordView {
            permit_link: self.permit_link@,
            permit_number: self.permit_number@,
            client: self.client@,
            opened: self.opened,
            last_updated: self.last_updated,
            status_updated: self.status_updated,
            county: self.county@,
            county_status: self.county_status,
            manual_status: self.manual_status,
            address: self.address@,
        }
    }
}

impl Clone for DBSchema {
    fn clone(&self) -> (r: Self)
        ensures
            r@ == self@,
    {
        DBSchema {
            permit_link: self.permit_link.clone(),
            permit_number: self.permit_number.clone(),
            client: self.client.clone(),
            opened: self.opened,
            last_updated: self.last_updated,
            status_updated: self.status_updated,
            county: self.county.clone(),
            county_status: self.county_status,
            manual_status: self.manual_status,
            address: self.address.clone(),
        }
    }
}

/// The composite key that buckets permit records in the secondary index.
#[derive(Debug)]
pub struct KeySchema {
    pub client: String,
    pub county: String,
    pub county_status: Status,
}

/// The mathematical view of a composite key.
pub struct KeyView {
    pub client: Seq<char>,
    pub county: Seq<char>,
    pub county_status: Status,
}

impl View for KeySchema {
    type V = KeyView;

    open spec fn view(&self) -> KeyView {
        KeyView {
            client: self.client@,
            county: self.county@,
            county_status: self.county_status,
        }
    }
}

impl Clone for KeySchema {
    fn clone(&self) -> (r: Self)
        ensures
            r@ == self@,
    {
        KeySchema {
            client: self.client.clone(),
            county: self.county.clone(),
            county_status: self.county_status,
        }
    }
}

impl RecordView {
    /// The composite key of a record: its (client, county, county-status)
    /// triple.
    pub open spec fn composite_key(&self) -> KeyView {
        KeyView { client: self.client, county: self.county, county_status: self.county_status }
    }
}

impl DBSchema {
    /// The composite key of the record.
    pub fn composite_key(&self) -> (r: KeySchema)
        ensures
            r@ == self@.composite_key(),
    {
        KeySchema {
            client: self.client.clone(),
            county: self.county.clone(),
            county_status: self.county_status,
        }
    }
}

/// A partial update of a permit record: only supplied fields are
/// overwritten.  The two date-valued fields arrive as text in the fixed
/// `YYYY-MM-DDTHH:MM:SS.sss` form and are parsed on application.
#[derive(Debug)]
pub struct UpdateDBSchema {
    pub permit_link: Option<String>,
    pub permit_number: Option<String>,
    pub last_updated: Option<String>,
    pub status_updated: Option<String>,
    pub client: Option<String>,
    pub county: Option<String>,
    pub county_status: Option<Status>,
    pub manual_status: Option<Status>,
    pub address: Option<String>,
}

/// The mathematical view of a partial permit-record update.
pub struct UpdateView {
    pub permit_link: Option<Seq<char>>,
    pub permit_number: Option<Seq<char>>,
    pub last_updated: Option<Seq<char>>,
    pub status_updated: Option<Seq<char>>,
    pub client: Option<Seq<char>>,
    pub county: Option<Seq<char>>,
    pub county_status: Option<Status>,
    pub manual_status: Option<Status>,
    pub address: Option<Seq<char>>,
}

impl View for UpdateDBSchema {
    type V = UpdateView;

    open spec fn view(&self) -> UpdateView {
        UpdateView {
            permit_link: match self.permit_link {
                Some(ref s) => Some(s@),
                None => None,
            },
            permit_number: match self.permit_number {
                Some(ref s) => Some(s@),
                None => None,
            },
            last_updated: match self.last_updated {
                Some(ref s) => Some(s@),
                None => None,
            },
            status_updated: match self.status_updated {
                Some(ref s) => Some(s@),
                None => None,
            },
            client: match self.client {
                Some(ref s) => Some(s@),
                None => None,
            },
            county: match self.county {
                Some(ref s) => Some(s@),
                None => None,
            },
            county_status: self.county_status,
            manual_status: self.manual_status,
            address: match self.address {
                Some(ref s) => Some(s@),
                None => None,
            },
        }
    }
}

/// Whether date text admits a valid timestamp.
pub open spec fn parseable_timestamp(s: Seq<char>) -> bool {
    exists|t: Timestamp| t.valid() && s == timestamp_text(t)
}

/// Whether applying `upd` to a record succeeds: every supplied date text
/// must be the rendering of a valid timestamp.
pub open spec fn update_applies(upd: UpdateView) -> bool {
    &&& (match upd.last_updated {
        Some(s) => parseable_timestamp(s),
        None => true,
    })
&&& (match upd.status_updated {
        Some(s) => parseable_timestamp(s),
        None => true,
    })
}

/// The record that applying `upd` to `r` produces: each supplied field
/// overwrites the old value, every other field is kept, and the record's
/// identity-defining `opened` timestamp is never touched.
pub open spec fn updated_record(r: RecordView, upd: UpdateView, new: RecordView) -> bool {
    &&& new.permit_link == (match upd.permit_link {
        Some(s) => s,
        None => r.permit_link,
    })
&&& new.permit_number == (match upd.permit_number {
        Some(s) => s,
        None => r.permit_number,
    })
&&& new.client == (match upd.client {
        Some(s) => s,
        None => r.client,
    })
&&& new.county == (match upd.county {
        Some(s) => s,
        None => r.county,
    })
&&& new.county_status == (match upd.county_status {
        Some(st) => st,
        None => r.county_status,
    })
&&& new.manual_status == (match upd.manual_status {
        Some(st) => st,
        None => r.manual_status,
    })
&&& new.address == (match upd.address {
        Some(s) => s,
        None => r.address,
    })
&&& (match upd.last_updated {
        Some(s) => new.last_updated.valid() && s == timestamp_text(new.last_updated),
        None => new.last_updated == r.last_updated,
    })
&&& (match upd.status_updated {
        Some(s) => new.status_updated.valid() && s == timestamp_text(new.status_updated),
        None => new.status_updated == r.status_updated,
    })
&&& new.opened == r.opened
}

/// Applies a partial update to a copy of `r`: supplied fields overwrite,
/// unsupplied fields are kept, and a supplied date text that is not a valid
/// `YYYY-MM-DDTHH:MM:SS.sss` rendering fails the whole application with
/// `InvalidInput`.
#[verifier::rlimit(60)]
pub fn apply_update(r: &DBSchema, upd: &UpdateDBSchema) -> (res: Result<DBSchema, Error>)
    ensures
        match res {
            Ok(new) => update_applies(upd@) && updated_record(r@, upd@, new@),
            Err(e) => e == Error::InvalidInput && !update_applies(upd@),
        },
{
    let mut new = r.clone();
    if let Some(permit_link) = &upd.permit_link {
        new.permit_link = permit_link.clone();
    }
    if let Some(permit_number) = &upd.permit_number {
        new.permit_number = permit_number.clone();
    }
    if let Some(client) = &upd.client {
        new.client = client.clone();
    }
    if let Some(county) = &upd.county {
        new.county = county.clone();
    }
    if let Some(county_status) = &upd.county_status {
        new.county_status = *county_status;
    }
    if let Some(manual_status) = &upd.manual_status {
        new.manual_status = *manual_status;
    }
    if let Some(address) = &upd.address {
        new.address = address.clone();
    }
    if let Some(last_updated) = &upd.last_updated {
        match crate::timestamp::parse_timestamp(last_updated.as_str()) {
            Ok(t) => {
                new.last_updated = t;
            },
            Err(_) => {
                return Err(Error::InvalidInput);
            },
        }
    }
    if let Some(status_updated) = &upd.status_updated {
        match crate::timestamp::parse_timestamp(status_updated.as_str()) {
            Ok(t) => {
                new.status_updated = t;
            },
            Err(_) => {
                return Err(Error::InvalidInput);
            },
        }
    }
    Ok(new)
}

/// A processing-status entry derived from a permit.
#[derive(Debug)]
pub struct ProcessingStatusSchema {
    pub processing_status: ProcessStatus,
    pub due_date: Timestamp,
    pub assigned_to: String,
    pub last_modified: Timestamp,
}

/// The mathematical view of a processing-status entry.
pub struct ProcessingView {
    pub processing_status: ProcessStatus,
    pub due_date: Timestamp,
    pub assigned_to: Seq<char>,
    pub last_modified: Timestamp,
}

impl View for ProcessingStatusSchema {
    type V = ProcessingView;

    open spec fn view(&self) -> ProcessingView {
        ProcessingView {
            processing_status: self.processing_status,
            due_date: self.due_date,
            assigned_to: self.assigned_to@,
            last_modified: self.last_modified,
        }
    }
}

impl Clone for ProcessingStatusSchema {
    fn clone(&self) -> (r: Self)
        ensures
            r@ == self@,
    {
        ProcessingStatusSchema {
            processing_status: self.processing_status,
            due_date: self.due_date,
            assigned_to: self.assigned_to.clone(),
            last_modified: self.last_modified,
        }
    }
}

/// A partial update of a processing-status entry.
#[derive(Debug)]
pub struct UpdateProcessingStatusSchema {
    pub processing_status: Option<ProcessStatus>,
    pub due_date: Option<Timestamp>,
    pub assigned_to: Option<String>,
    pub last_modified: Option<Timestamp>,
}

/// The processing-status entry that applying `upd` to `r` produces.
pub open spec fn updated_processing(
    r: ProcessingView,
    upd: UpdateProcessingStatusSchema,
    new: ProcessingView,
) -> bool {
    &&& new.processing_status == (match upd.processing_status {
        Some(st) => st,
        None => r.processing_status,
    })
&&& new.due_date == (match upd.due_date {
        Some(t) => t,
        None => r.due_date,
    })
&&& new.assigned_to == (match upd.assigned_to {
        Some(ref s) => s@,
        None => r.assigned_to,
    })
&&& new.last_modified == (match upd.last_modified {
        Some(t) => t,
        None => r.last_modified,
    })
}

/// Applies a partial update to a copy of a processing-status entry.
pub fn apply_processing_update(
    r: &ProcessingStatusSchema,
    upd: &UpdateProcessingStatusSchema,
) -> (new: ProcessingStatusSchema)
    ensures
        updated_processing(r@, *upd, new@),
{
    let mut new = r.clone();
    if let Some(processing_status) = &upd.processing_status {
        new.processing_status = *processing_status;
    }
    if let Some(due_date) = &upd.due_date {
        new.due_date = *due_date;
    }
    if let Some(assigned_to) = &upd.assigned_to {
        new.assigned_to = assigned_to.clone();
    }
    if let Some(last_modified) = &upd.last_modified {
        new.last_modified = *last_modified;
    }
    new
}

/// A payment entry derived from a permit.
#[derive(Debug)]
pub struct Payments {
    pub payment: String,
    pub date: Timestamp,
    pub amount: u64,
    pub status: String,
}

/// The mathematical view of a payment entry.
pub struct PaymentView {
    pub payment: Seq<char>,
    pub date: Timestamp,
    pub amount: u64,
    pub status: Seq<char>,
}

impl View for Payments {
    type V = PaymentView;

    open spec fn view(&self) -> PaymentView {
        PaymentView {
            payment: self.payment@,
            date: self.date,
            amount: self.amount,
            status: self.status@,
        }
    }
}

impl Clone for Payments {
    fn clone(&self) -> (r: Self)
        ensures
            r@ == self@,
    {
        Payments {
            payment: self.payment.clone(),
            date: self.date,
            amount: self.amount,
            status: self.status.clone(),
        }
    }
}

/// A partial update of a payment entry.
#[derive(Debug)]
pub struct UpdatePayment {
    pub payment: Option<String>,
    pub date: Option<Timestamp>,
    pub amount: Option<u64>,
    pub status: Option<String>,
}

/// The payment entry that applying `upd` to `r` produces.
pub open spec fn updated_payment(r: PaymentView, upd: UpdatePayment, new: PaymentView) -> bool {
    &&& new.payment == (match upd.payment {
        Some(ref s) => s@,
        None => r.payment,
    })
&&& new.date == (match upd.date {
        Some(t) => t,
        None => r.date,
    })
&&& new.amount == (match upd.amount {
        Some(a) => a,
        None => r.amount,
    })
&&& new.status == (match upd.status {
        Some(ref s) => s@,
        None => r.status,
    })
}

/// Applies a partial update to a copy of a payment entry.
pub fn apply_payment_update(r: &Payments, upd: &UpdatePayment) -> (new: Payments)
    ensures
        updated_payment(r@, *upd, new@),
{
    let mut new = r.clone();
    if let Some(payment) = &upd.payment {
        new.payment = payment.clone();
    }
    if let Some(date) = &upd.date {
        new.date = *date;
    }
    if let Some(amount) = &upd.amount {
        new.amount = *amount;
    }
    if let Some(status) = &upd.status {
        new.status = status.clone();
    }
    new
}

} // verus!
