//! The two enumerations of the data model, with a bidirectional
//! enumeration-to-text mapping shared by rendering and parsing.

use vstd::prelude::*;

use crate::strings::{seq_eq_ignore_ascii_case, str_eq_ignore_ascii_case};

verus! {

/// The status a county assigns to a permit record, or the one set by hand.
#[derive(Clone, Copy, Debug, PartialEq, Eq, Structural)]
pub enum Status {
    Active,
    Inactive,
    Pending,
    Closed,
    UnderReview,
}

/// The processing state of a permit under review.
#[derive(Clone, Copy, Debug, PartialEq, Eq, Structural)]
pub enum ProcessStatus {
    ApprovedWithConditions,
    PendingAdditionalReview,
    RevisionsReceived,
}

impl Status {
    /// The display text of the variant.
    pub open spec fn spec_text(&self) -> Seq<char> {
        match self {
            Status::Active => "Active"@,
            Status::Inactive => "Inactive"@,
            Status::Pending => "Pending"@,
            Status::Closed => "Closed"@,
            Status::UnderReview => "UnderReview"@,
        }
    }

    /// The position of the variant in the declaration order, which is the
    /// order the sort-by-manual-status query key uses.
    pub open spec fn spec_rank(&self) -> u8 {
        match self {
            Status::Active => 0,
            Status::Inactive => 1,
            Status::Pending => 2,
            Status::Closed => 3,
            Status::UnderReview => 4,
        }
    }

    /// Renders the variant as its display text.
    pub fn as_text(&self) -> (r: &'static str)
        ensures
            r@ == self.spec_text(),
    {
        match self {
            Status::Active => "Active",
            Status::Inactive => "Inactive",
            Status::Pending => "Pending",
            Status::Closed => "Closed",
            Status::UnderReview => "UnderReview",
        }
    }

    /// The rank used for ordering by status.
    pub fn rank(&self) -> (r: u8)
        ensures
            r == self.spec_rank(),
    {
        match self {
            Status::Active => 0,
            Status::Inactive => 1,
            Status::Pending => 2,
            Status::Closed => 3,
            Status::UnderReview => 4,
        }
    }

    /// Parses display text back into a variant, accepting any
    /// capitalization: exactly the texts that equal a variant's display
    /// text up to ASCII case.
    pub fn from_text(s: &str) -> (r: Option<Status>)
        ensures
            match r {
                Some(st) => seq_eq_ignore_ascii_case(s@, st.spec_text()),
                None => forall|st: Status| !seq_eq_ignore_ascii_case(s@, st.spec_text()),
            },
    {
        proof {
            reveal_strlit("Active");
            reveal_strlit("Inactive");
            reveal_strlit("Pending");
            reveal_strlit("Closed");
            reveal_strlit("UnderReview");
        }
        if str_eq_ignore_ascii_case(s, "Active") {
            Some(Status::Active)
        } else if str_eq_ignore_ascii_case(s, "Inactive") {
            Some(Status::Inactive)
        } else if str_eq_ignore_ascii_case(s, "Pending") {
            Some(Status::Pending)
        } else if str_eq_ignore_ascii_case(s, "Closed") {
            Some(Status::Closed)
        } else if str_eq_ignore_ascii_case(s, "UnderReview") {
            Some(Status::UnderReview)
        } else {
            None
        }
    }
}

impl ProcessStatus {
    /// The display text of the variant.
    pub open spec fn spec_text(&self) -> Seq<char> {
        match self {
            ProcessStatus::ApprovedWithConditions => "ApprovedWithConditions"@,
            ProcessStatus::PendingAdditionalReview => "PendingAdditionalReview"@,
            ProcessStatus::RevisionsReceived => "RevisionsReceived"@,
        }
    }

    /// Renders the variant as its display text.
    pub fn as_text(&self) -> (r: &'static str)
        ensures
            r@ == self.spec_text(),
    {
        match self {
            ProcessStatus::ApprovedWithConditions => "ApprovedWithConditions",
            ProcessStatus::PendingAdditionalReview => "PendingAdditionalReview",
            ProcessStatus::RevisionsReceived => "RevisionsReceived",
        }
    }

    /// Parses display text back into a variant, accepting any
    /// capitalization: exactly the texts that equal a variant's display
    /// text up to ASCII case.
    pub fn from_text(s: &str) -> (r: Option<ProcessStatus>)
        ensures
            match r {
                Some(st) => seq_eq_ignore_ascii_case(s@, st.spec_text()),
                None => forall|st: ProcessStatus| !seq_eq_ignore_ascii_case(s@, st.spec_text()),
            },
    {
        proof {
            reveal_strlit("ApprovedWithConditions");
            reveal_strlit("PendingAdditionalReview");
            reveal_strlit("RevisionsReceived");
        }
        if str_eq_ignore_ascii_case(s, "ApprovedWithConditions") {
            Some(ProcessStatus::ApprovedWithConditions)
        } else if str_eq_ignore_ascii_case(s, "PendingAdditionalReview") {
            Some(ProcessStatus::PendingAdditionalReview)
        } else if str_eq_ignore_ascii_case(s, "RevisionsReceived") {
            Some(ProcessStatus::RevisionsReceived)
        } else {
            None
        }
    }
}

} // verus!
