//! The query engine: prefix scans, date-range scans, residual filtering,
//! stable sorting and pagination, composed over the storage environment's
//! read state.

use vstd::prelude::*;

use crate::error::Error;
use crate::schema::{DBSchema, KeySchema, KeyView, Payments, ProcessingStatusSchema, RecordView};
use crate::status::Status;
use crate::store::{bucket_or_empty, DBHandles};
use crate::assoc::sorted_keys;
use crate::strings::{str_eq, str_has_prefix};
use crate::table::Table;
use crate::timestamp::{date_ord, date_text, lemma_date_ord_le, lemma_next_day_successor,
    next_day, parse_date, render_date, spec_date_le, spec_next_day, spec_ts_le, ts_le, Date};

verus! {

/// The text of an optional string argument.
pub open spec fn opt_text(o: Option<String>) -> Option<Seq<char>> {
    match o {
        Some(s) => Some(s@),
        None => None,
    }
}

/// The display text of an optional status argument.
pub open spec fn opt_status_text(o: Option<Status>) -> Option<Seq<char>> {
    match o {
        Some(st) => Some(st.spec_text()),
        None => None,
    }
}

/// Whether a record passes the residual filter: each supplied field must
/// match, combined with logical and; the county-status comparison goes by
/// its display text.
pub open spec fn residual_matches(
    r: RecordView,
    county: Option<Seq<char>>,
    client: Option<Seq<char>>,
    status_text: Option<Seq<char>>,
) -> bool {
    &&& match county {
        Some(c) => r.county == c,
        None => true,
    }
&&& match client {
        Some(c) => r.client == c,
        None => true,
    }
&&& match status_text {
        Some(t) => r.county_status.spec_text() == t,
        None => true,
    }
}

/// The subsequence of `s` whose records pass the residual filter, in order.
pub open spec fn residual_filter(
    s: Seq<(Seq<char>, RecordView)>,
    county: Option<Seq<char>>,
    client: Option<Seq<char>>,
    status_text: Option<Seq<char>>,
) -> Seq<(Seq<char>, RecordView)>
    decreases s.len(),
{
    if s.len() == 0 {
        Seq::empty()
    } else if residual_matches(s.last().1, county, client, status_text) {
        residual_filter(s.drop_last(), county, client, status_text).push(s.last())
    } else {
        residual_filter(s.drop_last(), county, client, status_text)
    }
}

/// Tests the residual filter on one record.
fn record_matches(
    rec: &DBSchema,
    county: &Option<String>,
    client: &Option<String>,
    status_text: &Option<String>,
) -> (r: bool)
    ensures
        r == residual_matches(rec@, opt_text(*county), opt_text(*client), opt_text(*status_text)),
{
    let county_ok = match county {
        Some(c) => str_eq(rec.county.as_str(), c.as_str()),
        None => true,
    };
    let client_ok = match client {
        Some(c) => str_eq(rec.client.as_str(), c.as_str()),
        None => true,
    };
    let status_ok = match status_text {
        Some(t) => str_eq(rec.county_status.as_text(), t.as_str()),
        None => true,
    };
    county_ok && client_ok && status_ok
}

/// Keeps the pairs whose records pass the residual filter, in order.
fn filter_pairs(
    items: &Vec<(String, DBSchema)>,
    county: &Option<String>,
    client: &Option<String>,
    status_text: &Option<String>,
) -> (r: Vec<(String, DBSchema)>)
    ensures
        r@.map(|i: int, p: (String, DBSchema)| (p.0@, p.1@)) == residual_filter(
            items@.map(|i: int, p: (String, DBSchema)| (p.0@, p.1@)),
            opt_text(*county),
            opt_text(*client),
            opt_text(*status_text),
        ),
{
    let ghost sv = items@.map(|i: int, p: (String, DBSchema)| (p.0@, p.1@));
    let n = items.len();
    let mut out: Vec<(String, DBSchema)> = Vec::new();
    let mut i: usize = 0;
    while i < n
        invariant
            n == items@.len(),
            sv == items@.map(|i: int, p: (String, DBSchema)| (p.0@, p.1@)),
            i <= n,
            out@.map(|j: int, p: (String, DBSchema)| (p.0@, p.1@)) == residual_filter(
                sv.take(i as int),
                opt_text(*county),
                opt_text(*client),
                opt_text(*status_text),
            ),
        decreases n - i,
    {
        proof {
            assert(sv.take(i + 1).drop_last() =~= sv.take(i as int));
            assert(sv.take(i + 1).last() == sv[i as int]);
        }
        if record_matches(&items[i].1, county, client, status_text) {
            let ghost old_view = out@.map(|j: int, p: (String, DBSchema)| (p.0@, p.1@));
            out.push((items[i].0.clone(), items[i].1.clone()));
            proof {
                assert(out@.map(|j: int, p: (String, DBSchema)| (p.0@, p.1@)) =~= old_view.push(
                    sv[i as int],
                ));
            }
        }
        i += 1;
    }
    proof {
        assert(sv.take(n as int) =~= sv);
    }
    out
}

/// The subsequence of `s` whose keys start with `prefix`, in table order.
pub open spec fn matching_pairs<T>(
    s: Seq<(Seq<char>, T)>,
    prefix: Seq<char>,
) -> Seq<(Seq<char>, T)>
    decreases s.len(),
{
    if s.len() == 0 {
        Seq::empty()
    } else if prefix.is_prefix_of(s.last().0) {
        matching_pairs(s.drop_last(), prefix).push(s.last())
    } else {
        matching_pairs(s.drop_last(), prefix)
    }
}

/// Membership in a prefix scan: exactly the pairs of `s` whose key starts
/// with `prefix`.
pub proof fn lemma_matching_pairs_contains<T>(
    s: Seq<(Seq<char>, T)>,
    prefix: Seq<char>,
    p: (Seq<char>, T),
)
    ensures
        matching_pairs(s, prefix).contains(p) <==> s.contains(p) && prefix.is_prefix_of(p.0),
    decreases s.len(),
{
    if s.len() > 0 {
        lemma_matching_pairs_contains(s.drop_last(), prefix, p);
        assert(s.contains(p) <==> s.drop_last().contains(p) || s.last() == p) by {
            if s.contains(p) {
                let i = choose|i: int| 0 <= i < s.len() && s[i] == p;
                if i < s.len() - 1 {
                    assert(s.drop_last()[i] == p);
                }
            }
            if s.drop_last().contains(p) {
                let i = choose|i: int| 0 <= i < s.drop_last().len() && s.drop_last()[i] == p;
                assert(s[i] == p);
            }
        }
        if prefix.is_prefix_of(s.last().0) {
            crate::assoc::lemma_push_contains(matching_pairs(s.drop_last(), prefix), s.last(), p);
        }
    }
}

/// A prefix scan of a table with unique keys yields unique keys.
pub proof fn lemma_matching_pairs_unique<T>(s: Seq<(Seq<char>, T)>, prefix: Seq<char>)
    requires
        crate::assoc::unique_keys(s),
    ensures
        crate::assoc::unique_keys(matching_pairs(s, prefix)),
    decreases s.len(),
{
    if s.len() > 0 {
        assert(crate::assoc::unique_keys(s.drop_last()));
        lemma_matching_pairs_unique(s.drop_last(), prefix);
        if prefix.is_prefix_of(s.last().0) {
            let m = matching_pairs(s.drop_last(), prefix);
            assert forall|i: int, j: int|
                0 <= i < j < m.push(s.last()).len() implies m.push(s.last())[i].0 != m.push(
                s.last(),
            )[j].0 by {
                if j == m.len() {
                    assert(m.contains(m[i]));
                    lemma_matching_pairs_contains(s.drop_last(), prefix, m[i]);
                    let x = choose|x: int|
                        0 <= x < s.drop_last().len() && s.drop_last()[x] == m[i];
                    assert(s[x] == m[i]);
                    assert(s[x].0 != s[s.len() - 1].0);
                }
            }
        }
    }
}

/// A prefix scan of a table in ascending key order comes back in ascending
/// key order.
pub proof fn lemma_matching_pairs_sorted<T>(s: Seq<(Seq<char>, T)>, prefix: Seq<char>)
    requires
        sorted_keys(s),
    ensures
        sorted_keys(matching_pairs(s, prefix)),
    decreases s.len(),
{
    if s.len() > 0 {
        assert(sorted_keys(s.drop_last()));
        lemma_matching_pairs_sorted(s.drop_last(), prefix);
        if prefix.is_prefix_of(s.last().0) {
            let m = matching_pairs(s.drop_last(), prefix);
            assert forall|i: int, j: int|
                0 <= i < j < m.push(s.last()).len() implies crate::strings::text_lt(
                m.push(s.last())[i].0,
                m.push(s.last())[j].0,
            ) by {
                if j == m.len() {
                    assert(m.contains(m[i]));
                    lemma_matching_pairs_contains(s.drop_last(), prefix, m[i]);
                    let x = choose|x: int|
                        0 <= x < s.drop_last().len() && s.drop_last()[x] == m[i];
                    assert(s[x] == m[i]);
                    assert(crate::strings::text_lt(s[x].0, s[s.len() - 1].0));
                }
            }
        }
    }
}

/// A residual filter of a sequence in ascending key order comes back in
/// ascending key order.
pub proof fn lemma_residual_filter_sorted(
    s: Seq<(Seq<char>, RecordView)>,
    county: Option<Seq<char>>,
    client: Option<Seq<char>>,
    status_text: Option<Seq<char>>,
)
    requires
        sorted_keys(s),
    ensures
        sorted_keys(residual_filter(s, county, client, status_text)),
    decreases s.len(),
{
    if s.len() > 0 {
        assert(sorted_keys(s.drop_last()));
        lemma_residual_filter_sorted(s.drop_last(), county, client, status_text);
        if residual_matches(s.last().1, county, client, status_text) {
            let m = residual_filter(s.drop_last(), county, client, status_text);
            assert forall|i: int, j: int|
                0 <= i < j < m.push(s.last()).len() implies crate::strings::text_lt(
                m.push(s.last())[i].0,
                m.push(s.last())[j].0,
            ) by {
                if j == m.len() {
                    assert(m.contains(m[i]));
                    lemma_residual_filter_contains(s.drop_last(), county, client, status_text, m[i]);
                    let x = choose|x: int|
                        0 <= x < s.drop_last().len() && s.drop_last()[x] == m[i];
                    assert(s[x] == m[i]);
                    assert(crate::strings::text_lt(s[x].0, s[s.len() - 1].0));
                }
            }
        }
    }
}

/// Membership in a residual filter: exactly the pairs whose record passes.
pub proof fn lemma_residual_filter_contains(
    s: Seq<(Seq<char>, RecordView)>,
    county: Option<Seq<char>>,
    client: Option<Seq<char>>,
    status_text: Option<Seq<char>>,
    p: (Seq<char>, RecordView),
)
    ensures
        residual_filter(s, county, client, status_text).contains(p) <==> s.contains(p)
            && residual_matches(p.1, county, client, status_text),
    decreases s.len(),
{
    if s.len() > 0 {
        lemma_residual_filter_contains(s.drop_last(), county, client, status_text, p);
        assert(s.contains(p) <==> s.drop_last().contains(p) || s.last() == p) by {
            if s.contains(p) {
                let i = choose|i: int| 0 <= i < s.len() && s[i] == p;
                if i < s.len() - 1 {
                    assert(s.drop_last()[i] == p);
                }
            }
            if s.drop_last().contains(p) {
                let i = choose|i: int| 0 <= i < s.drop_last().len() && s.drop_last()[i] == p;
                assert(s[i] == p);
            }
        }
        if residual_matches(s.last().1, county, client, status_text) {
            crate::assoc::lemma_push_contains(
                residual_filter(s.drop_last(), county, client, status_text),
                s.last(),
                p,
            );
        }
    }
}

/// Scans the record table for entries whose key starts with `prefix`.
fn scan_records_prefix(t: &Table<DBSchema>, prefix: &str) -> (r: Vec<(String, DBSchema)>)
    ensures
        r@.map(|i: int, p: (String, DBSchema)| (p.0@, p.1@)) == matching_pairs(t.kv(), prefix@),
{
    let n = t.len();
    let mut out: Vec<(String, DBSchema)> = Vec::new();
    let mut i: usize = 0;
    while i < n
        invariant
            n == t.kv().len(),
            i <= n,
            out@.map(|j: int, p: (String, DBSchema)| (p.0@, p.1@)) == matching_pairs(
                t.kv().take(i as int),
                prefix@,
            ),
        decreases n - i,
    {
        proof {
            assert(t.kv().take(i + 1).drop_last() =~= t.kv().take(i as int));
            assert(t.kv().take(i + 1).last() == t.kv()[i as int]);
        }
        let e = t.entry(i);
        if str_has_prefix(e.0.as_str(), prefix) {
            let ghost old_view = out@.map(|j: int, p: (String, DBSchema)| (p.0@, p.1@));
            out.push((e.0.clone(), e.1.clone()));
            proof {
                assert(out@.map(|j: int, p: (String, DBSchema)| (p.0@, p.1@)) =~= old_view.push(
                    t.kv()[i as int],
                ));
            }
        }
        i += 1;
    }
    proof {
        assert(t.kv().take(n as int) =~= t.kv());
    }
    out
}

/// Scans the processing-status table for entries whose key starts with
/// `prefix`.
fn scan_processing_prefix(t: &Table<ProcessingStatusSchema>, prefix: &str) -> (r: Vec<
    (String, ProcessingStatusSchema),
>)
    ensures
        r@.map(|i: int, p: (String, ProcessingStatusSchema)| (p.0@, p.1@)) == matching_pairs(
            t.kv(),
            prefix@,
        ),
{
    let n = t.len();
    let mut out: Vec<(String, ProcessingStatusSchema)> = Vec::new();
    let mut i: usize = 0;
    while i < n
        invariant
            n == t.kv().len(),
            i <= n,
            out@.map(|j: int, p: (String, ProcessingStatusSchema)| (p.0@, p.1@)) == matching_pairs(
                t.kv().take(i as int),
                prefix@,
            ),
        decreases n - i,
    {
        proof {
            assert(t.kv().take(i + 1).drop_last() =~= t.kv().take(i as int));
            assert(t.kv().take(i + 1).last() == t.kv()[i as int]);
        }
        let e = t.entry(i);
        if str_has_prefix(e.0.as_str(), prefix) {
            let ghost old_view = out@.map(
                |j: int, p: (String, ProcessingStatusSchema)| (p.0@, p.1@),
            );
            out.push((e.0.clone(), e.1.clone()));
            proof {
                assert(out@.map(|j: int, p: (String, ProcessingStatusSchema)| (p.0@, p.1@))
                    =~= old_view.push(t.kv()[i as int]));
            }
        }
        i += 1;
    }
    proof {
        assert(t.kv().take(n as int) =~= t.kv());
    }
    out
}

/// Scans the payments table for entries whose key starts with `prefix`.
fn scan_payments_prefix(t: &Table<Payments>, prefix: &str) -> (r: Vec<(String, Payments)>)
    ensures
        r@.map(|i: int, p: (String, Payments)| (p.0@, p.1@)) == matching_pairs(t.kv(), prefix@),
{
    let n = t.len();
    let mut out: Vec<(String, Payments)> = Vec::new();
    let mut i: usize = 0;
    while i < n
        invariant
            n == t.kv().len(),
            i <= n,
            out@.map(|j: int, p: (String, Payments)| (p.0@, p.1@)) == matching_pairs(
                t.kv().take(i as int),
                prefix@,
            ),
        decreases n - i,
    {
        proof {
            assert(t.kv().take(i + 1).drop_last() =~= t.kv().take(i as int));
            assert(t.kv().take(i + 1).last() == t.kv()[i as int]);
        }
        let e = t.entry(i);
        if str_has_prefix(e.0.as_str(), prefix) {
            let ghost old_view = out@.map(|j: int, p: (String, Payments)| (p.0@, p.1@));
            out.push((e.0.clone(), e.1.clone()));
            proof {
                assert(out@.map(|j: int, p: (String, Payments)| (p.0@, p.1@)) =~= old_view.push(
                    t.kv()[i as int],
                ));
            }
        }
        i += 1;
    }
    proof {
        assert(t.kv().take(n as int) =~= t.kv());
    }
    out
}

/// The records whose keys carry a date prefix of `[a, b]`: for each date of
/// the range in ascending order, the prefix matches of that date's text, in
/// table order, concatenated.
pub open spec fn scan_range(
    kv: Seq<(Seq<char>, RecordView)>,
    a: Date,
    b: Date,
) -> Seq<(Seq<char>, RecordView)>
    decreases date_ord(b) - date_ord(a),
    when a.valid() && b.valid()
    via scan_range_decreases
{
    if !spec_date_le(a, b) {
        Seq::empty()
    } else if a == b {
        matching_pairs(kv, date_text(a))
    } else {
        matching_pairs(kv, date_text(a)) + scan_range(kv, spec_next_day(a), b)
    }
}

#[via_fn]
proof fn scan_range_decreases(kv: Seq<(Seq<char>, RecordView)>, a: Date, b: Date) {
    if spec_date_le(a, b) && a != b {
        assert(!a.is_max()) by {
            assert(crate::timestamp::spec_days_in_month(b.year as int, b.month as int) <= 31);
        }
        lemma_next_day_successor(a);
        lemma_date_ord_le(spec_next_day(a), b);
    }
}

impl DBHandles {
    /// Enumerates the dates of `[start, end]` in ascending order and
    /// concatenates the record table's prefix matches of each date's text;
    /// the whole result comes back in ascending key order.
    pub fn scan_opened_range(&self, start: &Date, end: &Date) -> (r: Vec<(String, DBSchema)>)
        requires
            self.inv(),
            start.valid(),
            end.valid(),
        ensures
            r@.map(|i: int, p: (String, DBSchema)| (p.0@, p.1@)) == scan_range(
                self.records_kv(),
                *start,
                *end,
            ),
            sorted_keys(r@.map(|i: int, p: (String, DBSchema)| (p.0@, p.1@))),
    {
        proof {
            crate::laws::lemma_scan_range_sorted(self.records_kv(), *start, *end);
        }
        let mut out: Vec<(String, DBSchema)> = Vec::new();
        if !crate::timestamp::date_le(start, end) {
            proof {
                assert(out@.map(|i: int, p: (String, DBSchema)| (p.0@, p.1@)) =~= scan_range(
                    self.records_kv(),
                    *start,
                    *end,
                ));
            }
            return out;
        }
        let mut current = *start;
        loop
            invariant
                self.inv(),
                start.valid(),
                end.valid(),
                current.valid(),
                spec_date_le(current, *end),
                out@.map(|i: int, p: (String, DBSchema)| (p.0@, p.1@)) + scan_range(
                    self.records_kv(),
                    current,
                    *end,
                ) == scan_range(self.records_kv(), *start, *end),
            decreases date_ord(*end) - date_ord(current),
        {
            let prefix = render_date(&current);
            let mut matches = scan_records_prefix(self.records_table(), prefix.as_str());
            let ghost out_before = out@;
            let ghost matches_view = matches@.map(|i: int, p: (String, DBSchema)| (p.0@, p.1@));
            out.append(&mut matches);
            proof {
                assert(out@.map(|i: int, p: (String, DBSchema)| (p.0@, p.1@)) =~= out_before.map(
                    |i: int, p: (String, DBSchema)| (p.0@, p.1@),
                ) + matches_view);
            }
            if current.year == end.year && current.month == end.month && current.day == end.day {
                proof {
                    assert(current == *end);
                    assert(scan_range(self.records_kv(), current, *end) == matching_pairs(
                        self.records_kv(),
                        date_text(current),
                    ));
                    assert(out@.map(|i: int, p: (String, DBSchema)| (p.0@, p.1@)) =~= scan_range(
                        self.records_kv(),
                        *start,
                        *end,
                    ));
                    crate::laws::lemma_scan_range_sorted(self.records_kv(), *start, *end);
                }
                return out;
            }
            proof {
                assert(!current.is_max()) by {
                    assert(crate::timestamp::spec_days_in_month(
                        end.year as int,
                        end.month as int,
                    ) <= 31);
                }
                lemma_next_day_successor(current);
                lemma_date_ord_le(spec_next_day(current), *end);
                assert(scan_range(self.records_kv(), current, *end) == matching_pairs(
                    self.records_kv(),
                    date_text(current),
                ) + scan_range(self.records_kv(), spec_next_day(current), *end));
                assert(out@.map(|i: int, p: (String, DBSchema)| (p.0@, p.1@)) + scan_range(
                    self.records_kv(),
                    spec_next_day(current),
                    *end,
                ) =~= scan_range(self.records_kv(), *start, *end));
            }
            current = next_day(&current);
        }
    }

    /// Parses the two `YYYY-MM-DD` range bounds and runs the date-range
    /// scan; malformed text fails with `InvalidInput` and scans nothing.
    pub fn read_records_by_opened_date(&self, start_date: &str, end_date: &str) -> (r: Result<
        Vec<(String, DBSchema)>,
        Error,
    >)
        requires
            self.inv(),
        ensures
            match r {
                Ok(v) => sorted_keys(v@.map(|i: int, p: (String, DBSchema)| (p.0@, p.1@)))
                    && exists|ds: Date, de: Date|
                    ds.valid() && de.valid() && start_date@ == date_text(ds) && end_date@
                        == date_text(de) && v@.map(|i: int, p: (String, DBSchema)| (p.0@, p.1@))
                        == scan_range(self.records_kv(), ds, de),
                Err(e) => {
                    &&& e == Error::InvalidInput
                &&& (forall|d: Date| d.valid() ==> start_date@ != date_text(d)) || (forall|d: Date|
                        d.valid() ==> end_date@ != date_text(d))
                },
            },
    {
        let start = match parse_date(start_date) {
            Ok(d) => d,
            Err(e) => {
                return Err(e);
            },
        };
        let end = match parse_date(end_date) {
            Ok(d) => d,
            Err(e) => {
                return Err(e);
            },
        };
        let out = self.scan_opened_range(&start, &end);
        Ok(out)
    }

    /// For each permit number, the processing-status entries whose keys
    /// start with `<permit-number>-`, in table order.
    pub fn read_processing_state(&self, permit_numbers: &Vec<String>) -> (r: Vec<
        Vec<(String, ProcessingStatusSchema)>,
    >)
        requires
            self.inv(),
        ensures
            r@.len() == permit_numbers@.len(),
            forall|i: int|
                0 <= i < r@.len() ==> (#[trigger] r@[i])@.map(
                    |j: int, p: (String, ProcessingStatusSchema)| (p.0@, p.1@),
                ) == matching_pairs(self.processing_kv(), permit_numbers@[i]@ + seq!['-']),
            forall|i: int|
                0 <= i < r@.len() ==> sorted_keys(
                    (#[trigger] r@[i])@.map(
                        |j: int, p: (String, ProcessingStatusSchema)| (p.0@, p.1@),
                    ),
                ),
    {
        proof {
            reveal_strlit("-");
        }
        let n = permit_numbers.len();
        let mut out: Vec<Vec<(String, ProcessingStatusSchema)>> = Vec::new();
        let mut i: usize = 0;
        while i < n
            invariant
                self.inv(),
                n == permit_numbers@.len(),
                i <= n,
                out@.len() == i,
                "-"@ == seq!['-'],
                forall|k: int|
                    0 <= k < i ==> (#[trigger] out@[k])@.map(
                        |j: int, p: (String, ProcessingStatusSchema)| (p.0@, p.1@),
                    ) == matching_pairs(self.processing_kv(), permit_numbers@[k]@ + seq!['-']),
            decreases n - i,
        {
            let prefix = crate::strings::join_with(permit_numbers[i].as_str(), "-", "");
            proof {
                reveal_strlit("");
                assert(prefix@ =~= permit_numbers@[i as int]@ + seq!['-']);
            }
            let matches = scan_processing_prefix(self.processing_table(), prefix.as_str());
            out.push(matches);
            i += 1;
        }
        proof {
            assert forall|k: int|
                0 <= k < out@.len() implies sorted_keys(
                (#[trigger] out@[k])@.map(
                    |j: int, p: (String, ProcessingStatusSchema)| (p.0@, p.1@),
                ),
            ) by {
                lemma_matching_pairs_sorted(self.processing_kv(), permit_numbers@[k]@ + seq!['-']);
            }
        }
        out
    }

    /// For each permit number, the payment entries whose keys start with
    /// `<permit-number>-`, in table order.
    pub fn read_payment_details(&self, permit_numbers: &Vec<String>) -> (r: Vec<
        Vec<(String, Payments)>,
    >)
        requires
            self.inv(),
        ensures
            r@.len() == permit_numbers@.len(),
            forall|i: int|
                0 <= i < r@.len() ==> (#[trigger] r@[i])@.map(
                    |j: int, p: (String, Payments)| (p.0@, p.1@),
                ) == matching_pairs(self.payments_kv(), permit_numbers@[i]@ + seq!['-']),
            forall|i: int|
                0 <= i < r@.len() ==> sorted_keys(
                    (#[trigger] r@[i])@.map(|j: int, p: (String, Payments)| (p.0@, p.1@)),
                ),
    {
        proof {
            reveal_strlit("-");
        }
        let n = permit_numbers.len();
        let mut out: Vec<Vec<(String, Payments)>> = Vec::new();
        let mut i: usize = 0;
        while i < n
            invariant
                self.inv(),
                n == permit_numbers@.len(),
                i <= n,
                out@.len() == i,
                "-"@ == seq!['-'],
                forall|k: int|
                    0 <= k < i ==> (#[trigger] out@[k])@.map(
                        |j: int, p: (String, Payments)| (p.0@, p.1@),
                    ) == matching_pairs(self.payments_kv(), permit_numbers@[k]@ + seq!['-']),
            decreases n - i,
        {
            let prefix = crate::strings::join_with(permit_numbers[i].as_str(), "-", "");
            proof {
                reveal_strlit("");
                assert(prefix@ =~= permit_numbers@[i as int]@ + seq!['-']);
            }
            let matches = scan_payments_prefix(self.payments_table(), prefix.as_str());
            out.push(matches);
            i += 1;
        }
        proof {
            assert forall|k: int|
                0 <= k < out@.len() implies sorted_keys(
                (#[trigger] out@[k])@.map(|j: int, p: (String, Payments)| (p.0@, p.1@)),
            ) by {
                lemma_matching_pairs_sorted(self.payments_kv(), permit_numbers@[k]@ + seq!['-']);
            }
        }
        out
    }
}


/// The sortable fields of the composite-index query.
#[derive(Clone, Copy, Debug, PartialEq, Eq, Structural)]
pub enum SortKey {
    Opened,
    LastUpdated,
    StatusUpdated,
    ManualStatus,
}

/// Non-strict order of two records under a sort key.
pub open spec fn field_le(sk: SortKey, a: RecordView, b: RecordView) -> bool {
    match sk {
        SortKey::Opened => spec_ts_le(a.opened, b.opened),
        SortKey::LastUpdated => spec_ts_le(a.last_updated, b.last_updated),
        SortKey::StatusUpdated => spec_ts_le(a.status_updated, b.status_updated),
        SortKey::ManualStatus => a.manual_status.spec_rank() <= b.manual_status.spec_rank(),
    }
}

/// The comparison the stable sort uses: the selected field's order, turned
/// around for a descending sort; ties always compare true, so an element
/// inserted after its equals keeps the original order.
pub open spec fn sort_le(
    sk: SortKey,
    descending: bool,
    a: (Seq<char>, RecordView),
    b: (Seq<char>, RecordView),
) -> bool {
    if descending {
        field_le(sk, b.1, a.1)
    } else {
        field_le(sk, a.1, b.1)
    }
}

/// Compares two fetched entries under the sort descriptor.
fn sort_le_exec(
    sk: SortKey,
    descending: bool,
    a: &(String, DBSchema),
    b: &(String, DBSchema),
) -> (r: bool)
    ensures
        r == sort_le(sk, descending, (a.0@, a.1@), (b.0@, b.1@)),
{
    let (x, y) = if descending {
        (b, a)
    } else {
        (a, b)
    };
    match sk {
        SortKey::Opened => ts_le(&x.1.opened, &y.1.opened),
        SortKey::LastUpdated => ts_le(&x.1.last_updated, &y.1.last_updated),
        SortKey::StatusUpdated => ts_le(&x.1.status_updated, &y.1.status_updated),
        SortKey::ManualStatus => x.1.manual_status.rank() <= y.1.manual_status.rank(),
    }
}

/// Inserts `x` into an already sorted sequence, after every element that
/// compares at or below it.
pub open spec fn insert_stable(
    sorted: Seq<(Seq<char>, RecordView)>,
    x: (Seq<char>, RecordView),
    sk: SortKey,
    descending: bool,
) -> Seq<(Seq<char>, RecordView)>
    decreases sorted.len(),
{
    if sorted.len() == 0 {
        seq![x]
    } else if sort_le(sk, descending, sorted.last(), x) {
        sorted.push(x)
    } else {
        insert_stable(sorted.drop_last(), x, sk, descending).push(sorted.last())
    }
}

/// The stable sort of `s` under the sort descriptor: insertion in original
/// order, each element placed after its equals.
pub open spec fn stable_sorted(
    s: Seq<(Seq<char>, RecordView)>,
    sk: SortKey,
    descending: bool,
) -> Seq<(Seq<char>, RecordView)>
    decreases s.len(),
{
    if s.len() == 0 {
        Seq::empty()
    } else {
        insert_stable(stable_sorted(s.drop_last(), sk, descending), s.last(), sk, descending)
    }
}

/// Where the insertion lands: just after the last element that compares at
/// or below `x`.
proof fn lemma_insert_stable_at(
    sorted: Seq<(Seq<char>, RecordView)>,
    x: (Seq<char>, RecordView),
    sk: SortKey,
    descending: bool,
    j: int,
)
    requires
        0 <= j <= sorted.len(),
        j > 0 ==> sort_le(sk, descending, sorted[j - 1], x),
        forall|k: int| j <= k < sorted.len() ==> !sort_le(sk, descending, sorted[k], x),
    ensures
        insert_stable(sorted, x, sk, descending) == sorted.subrange(0, j) + seq![x]
            + sorted.subrange(j, sorted.len() as int),
    decreases sorted.len(),
{
    if j == sorted.len() {
        if sorted.len() == 0 {
            assert(insert_stable(sorted, x, sk, descending) =~= sorted.subrange(0, j) + seq![x]
                + sorted.subrange(j, sorted.len() as int));
        } else {
            assert(sort_le(sk, descending, sorted.last(), x));
            assert(sorted.push(x) =~= sorted.subrange(0, j) + seq![x] + sorted.subrange(
                j,
                sorted.len() as int,
            ));
        }
    } else {
        assert(!sort_le(sk, descending, sorted[sorted.len() - 1], x));
        let inner = sorted.drop_last();
        assert(forall|k: int| j <= k < inner.len() ==> !sort_le(sk, descending, inner[k], x));
        if j > 0 {
            assert(inner[j - 1] == sorted[j - 1]);
        }
        lemma_insert_stable_at(inner, x, sk, descending, j);
        assert(insert_stable(inner, x, sk, descending).push(sorted.last()) =~= sorted.subrange(
            0,
            j,
        ) + seq![x] + sorted.subrange(j, sorted.len() as int));
    }
}

/// Stable-sorts the fetched entries under the sort descriptor by insertion.
fn sort_records(items: Vec<(String, DBSchema)>, sk: SortKey, descending: bool) -> (r: Vec<
    (String, DBSchema),
>)
    ensures
        r@.map(|i: int, p: (String, DBSchema)| (p.0@, p.1@)) == stable_sorted(
            items@.map(|i: int, p: (String, DBSchema)| (p.0@, p.1@)),
            sk,
            descending,
        ),
{
    let ghost sv = items@.map(|i: int, p: (String, DBSchema)| (p.0@, p.1@));
    let n = items.len();
    let mut out: Vec<(String, DBSchema)> = Vec::new();
    let mut i: usize = 0;
    while i < n
        invariant
            n == items@.len(),
            sv == items@.map(|i: int, p: (String, DBSchema)| (p.0@, p.1@)),
            i <= n,
            out@.len() == i,
            out@.map(|j: int, p: (String, DBSchema)| (p.0@, p.1@)) == stable_sorted(
                sv.take(i as int),
                sk,
                descending,
            ),
        decreases n - i,
    {
        proof {
            assert(sv.take(i + 1).drop_last() =~= sv.take(i as int));
            assert(sv.take(i + 1).last() == sv[i as int]);
        }
        let x = (items[i].0.clone(), items[i].1.clone());
        let ghost out_view = out@.map(|j: int, p: (String, DBSchema)| (p.0@, p.1@));
        let mut j = out.len();
        loop
            invariant_except_break
                j <= out@.len(),
                out@.len() == i,
                i <= n,
                out_view == out@.map(|k: int, p: (String, DBSchema)| (p.0@, p.1@)),
                x.0@ == sv[i as int].0,
                x.1@ == sv[i as int].1,
                forall|k: int|
                    j <= k < out_view.len() ==> !sort_le(sk, descending, out_view[k], sv[i as int]),
            ensures
                j <= out@.len(),
                out@.len() == i,
                out_view == out@.map(|k: int, p: (String, DBSchema)| (p.0@, p.1@)),
                forall|k: int|
                    j <= k < out_view.len() ==> !sort_le(sk, descending, out_view[k], sv[i as int]),
                j > 0 ==> sort_le(sk, descending, out_view[j - 1], sv[i as int]),
            decreases j,
        {
            if j == 0 {
                break ;
            }
            if sort_le_exec(sk, descending, &out[j - 1], &x) {
                proof {
                    assert(out_view[j - 1] == (out@[j - 1].0@, out@[j - 1].1@));
                }
                break ;
            }
            proof {
                assert(out_view[j - 1] == (out@[j - 1].0@, out@[j - 1].1@));
            }
            j -= 1;
        }
        proof {
            lemma_insert_stable_at(out_view, sv[i as int], sk, descending, j as int);
        }
        out.insert(j, x);
        proof {
            assert(out@.map(|k: int, p: (String, DBSchema)| (p.0@, p.1@)) =~= out_view.subrange(
                0,
                j as int,
            ) + seq![sv[i as int]] + out_view.subrange(j as int, out_view.len() as int));
        }
        i += 1;
    }
    proof {
        assert(sv.take(n as int) =~= sv);
    }
    out
}

/// How many pages a result set of `total` items makes at `psize` items a
/// page: the last, possibly partial page counts.
pub open spec fn total_pages(total: int, psize: int) -> int
    recommends
        psize >= 1,
{
    total / psize + if total % psize != 0 {
        1int
    } else {
        0int
    }
}

/// One page of a result set, or the page count where the request lies
/// beyond the last page.
pub enum QueryOutcome {
    Page { items: Vec<(String, DBSchema)>, total: usize },
    BeyondLastPage { total_pages: usize },
}

/// Selects the 1-indexed page `page` of size `psize` from the result set:
/// the items at positions `[(page-1)*psize, page*psize)`.  A page beyond
/// the last reports how many pages exist instead of data.
pub fn paginate(items: Vec<(String, DBSchema)>, page: usize, psize: usize) -> (r: QueryOutcome)
    requires
        page >= 1,
        psize >= 1,
    ensures
        match r {
            QueryOutcome::Page { items: out, total } => {
                &&& total == items@.len()
            &&& (page - 1) * psize < items@.len()
            &&& out@ == items@.subrange(
                    (page - 1) * psize,
                    if page * psize <= items@.len() {
                        page * psize as int
                    } else {
                        items@.len() as int
                    },
                )
            },
            QueryOutcome::BeyondLastPage { total_pages: tp } => {
                &&& (page - 1) * psize >= items@.len()
            &&& tp == total_pages(items@.len() as int, psize as int)
            },
        },
{
    let total = items.len();
    let q = total / psize;
    let m = total % psize;
    proof {
        vstd::arithmetic::div_mod::lemma_fundamental_div_mod(total as int, psize as int);
        if m != 0 {
            assert(q < usize::MAX) by (nonlinear_arith)
                requires
                    total == psize * q + m,
                    1 <= m < psize,
                    total <= usize::MAX,
                    q >= 0,
            ;
        }
    }
    let pages = if m != 0 {
        q + 1
    } else {
        q
    };
    if page > pages {
        proof {
            assert(pages * psize >= total) by (nonlinear_arith)
                requires
                    pages == q + (if m != 0 { 1int } else { 0int }),
                    total == psize * q + m,
                    0 <= m < psize,
            ;
            vstd::arithmetic::mul::lemma_mul_inequality(
                pages as int,
                page - 1,
                psize as int,
            );
        }
        return QueryOutcome::BeyondLastPage { total_pages: pages };
    }
    proof {
        assert((pages - 1) * psize < total) by (nonlinear_arith)
            requires
                page >= 1,
                page <= pages,
                pages == q + (if m != 0 { 1int } else { 0int }),
                total == psize * q + m,
                0 <= m < psize,
                psize >= 1,
        ;
        vstd::arithmetic::mul::lemma_mul_inequality(page - 1, pages - 1, psize as int);
    }
    let start = (page - 1) * psize;
    let mut head = items;
    let mut tail = head.split_off(start);
    let rem = tail.len();
    if psize < rem {
        tail.truncate(psize);
    }
    proof {
        assert(tail@ =~= items@.subrange(
            (page - 1) * psize,
            if page * psize <= items@.len() {
                page * psize as int
            } else {
                items@.len() as int
            },
        )) by {
            vstd::arithmetic::mul::lemma_mul_is_distributive_sub_other_way(
                psize as int,
                page as int,
                1,
            );
        }
    }
    QueryOutcome::Page { items: tail, total }
}


/// An empty prefix matches every entry.
pub proof fn lemma_matching_pairs_all<T>(s: Seq<(Seq<char>, T)>, prefix: Seq<char>)
    requires
        prefix.len() == 0,
    ensures
        matching_pairs(s, prefix) == s,
    decreases s.len(),
{
    if s.len() > 0 {
        lemma_matching_pairs_all(s.drop_last(), prefix);
        assert(prefix =~= s.last().0.subrange(0, 0));
        assert(matching_pairs(s, prefix) =~= s);
    }
}

/// The records fetched for the bucket members, in bucket order; a member
/// whose record is missing is skipped.
pub open spec fn fetch_records(
    rm: Map<Seq<char>, RecordView>,
    members: Seq<Seq<char>>,
) -> Seq<(Seq<char>, RecordView)>
    decreases members.len(),
{
    if members.len() == 0 {
        Seq::empty()
    } else if rm.contains_key(members.last()) {
        fetch_records(rm, members.drop_last()).push((members.last(), rm[members.last()])) 
    } else {
        fetch_records(rm, members.drop_last())
    }
}

/// A query descriptor for the filtered, sorted, paginated record read:
/// which of the three composite fields are supplied, the sort selection,
/// and the page window.
#[derive(Debug)]
pub struct RecordQuery {
    pub county: Option<String>,
    pub client: Option<String>,
    pub county_status: Option<Status>,
    pub sort_key: Option<SortKey>,
    pub descending: bool,
    pub page: Option<usize>,
    pub records_per_page: Option<usize>,
}

/// The requested page number, 1 where none is given.
pub open spec fn page_of(q: RecordQuery) -> int {
    match q.page {
        Some(p) => p as int,
        None => 1,
    }
}

/// The requested page size, 50 where none is given.
pub open spec fn page_size_of(q: RecordQuery) -> int {
    match q.records_per_page {
        Some(p) => p as int,
        None => 50,
    }
}

impl DBHandles {
    /// The result set the query selects, before pagination: with all three
    /// composite fields supplied, the bucket of that composite key is
    /// fetched and stable-sorted under the sort selection; with none, the
    /// whole record table in table order; otherwise the whole table passed
    /// through the residual filter.  Only the composite-index path sorts.
    pub open spec fn base_items(&self, q: RecordQuery) -> Seq<(Seq<char>, RecordView)> {
        if q.county is Some && q.client is Some && q.county_status is Some {
            let ck = KeyView {
                client: q.client->0@,
                county: q.county->0@,
                county_status: q.county_status->0,
            };
            stable_sorted(
                fetch_records(self.records_map(), bucket_or_empty(self.index_map(), ck)),
                match q.sort_key {
                    Some(k) => k,
                    None => SortKey::Opened,
                },
                q.descending,
            )
        } else if q.county is None && q.client is None && q.county_status is None {
            self.records_kv()
        } else {
            residual_filter(
                self.records_kv(),
                opt_text(q.county),
                opt_text(q.client),
                opt_status_text(q.county_status),
            )
        }
    }

    /// Answers the filtered record query: the composite-index path where
    /// all three of county, client and county-status are supplied (any
    /// other filter consideration is ignored on that path), the whole
    /// table where none is, the residual filter otherwise; then one page
    /// of the result.  A zero page or page size is invalid input.
    pub fn read_record(&self, q: &RecordQuery) -> (r: Result<QueryOutcome, Error>)
        requires
            self.inv(),
        ensures
            match r {
                Err(e) => e == Error::InvalidInput && (q.page == Some(0usize)
                    || q.records_per_page == Some(0usize)),
                Ok(out) => q.page != Some(0usize) && q.records_per_page != Some(0usize) && (!(
                q.county is Some && q.client is Some && q.county_status is Some) ==> sorted_keys(
                    self.base_items(*q),
                )) && ({
                    let base = self.base_items(*q);
                    let page = page_of(*q);
                    let psize = page_size_of(*q);
                    match out {
                        QueryOutcome::Page { items, total } => {
                            &&& total == base.len()
                        &&& (page - 1) * psize < base.len()
                        &&& items@.map(|i: int, p: (String, DBSchema)| (p.0@, p.1@))
                                == base.subrange(
                                (page - 1) * psize,
                                if page * psize <= base.len() {
                                    page * psize
                                } else {
                                    base.len() as int
                                },
                            )
                        },
                        QueryOutcome::BeyondLastPage { total_pages: tp } => {
                            &&& (page - 1) * psize >= base.len()
                        &&& tp == total_pages(base.len() as int, psize)
                        },
                    }
                }),
            },
    {
        let page: usize = match &q.page {
            Some(p) => {
                if *p == 0 {
                    return Err(Error::InvalidInput);
                }
                *p
            },
            None => 1,
        };
        let psize: usize = match &q.records_per_page {
            Some(p) => {
                if *p == 0 {
                    return Err(Error::InvalidInput);
                }
                *p
            },
            None => 50,
        };
        let all_three = q.county.is_some() && q.client.is_some() && q.county_status.is_some();
        let none_of_three = q.county.is_none() && q.client.is_none() && q.county_status.is_none();
        let base: Vec<(String, DBSchema)> = if all_three {
            let key = KeySchema {
                client: match &q.client {
                    Some(c) => c.clone(),
                    None => String::new(),
                },
                county: match &q.county {
                    Some(c) => c.clone(),
                    None => String::new(),
                },
                county_status: match &q.county_status {
                    Some(st) => *st,
                    None => Status::Active,
                },
            };
            let mut fetched: Vec<(String, DBSchema)> = Vec::new();
            match self.index_table().get_members(&key) {
                None => {
                    proof {
                        assert(fetched@.map(|i: int, p: (String, DBSchema)| (p.0@, p.1@))
                            =~= fetch_records(
                            self.records_map(),
                            bucket_or_empty(self.index_map(), key@),
                        ));
                    }
                },
                Some(members) => {
                    let ghost mv = members@.map(|j: int, s: String| s@);
                    let n = members.len();
                    let mut i: usize = 0;
                    while i < n
                        invariant
                            self.inv(),
                            n == members@.len(),
                            mv == members@.map(|j: int, s: String| s@),
                            i <= n,
                            fetched@.map(|j: int, p: (String, DBSchema)| (p.0@, p.1@))
                                == fetch_records(self.records_map(), mv.take(i as int)),
                        decreases n - i,
                    {
                        proof {
                            assert(mv.take(i + 1).drop_last() =~= mv.take(i as int));
                            assert(mv.take(i + 1).last() == mv[i as int]);
                        }
                        // A member whose record is missing is skipped: the
                        // consistency invariant rules it out, but a reader
                        // tolerates it rather than failing the query.
                        match self.records_table().get(members[i].as_str()) {
                            Some(rec) => {
                                let ghost old_view = fetched@.map(
                                    |j: int, p: (String, DBSchema)| (p.0@, p.1@),
                                );
                                fetched.push((members[i].clone(), rec.clone()));
                                proof {
                                    assert(fetched@.map(
                                        |j: int, p: (String, DBSchema)| (p.0@, p.1@),
                                    ) =~= old_view.push((mv[i as int], self.records_map()[mv[i as int]])));
                                }
                            },
                            None => {},
                        }
                        i += 1;
                    }
                    proof {
                        assert(mv.take(n as int) =~= mv);
                    }
                },
            }
            let sk = match &q.sort_key {
                Some(k) => *k,
                None => SortKey::Opened,
            };
            sort_records(fetched, sk, q.descending)
        } else if none_of_three {
            proof {
                reveal_strlit("");
            }
            let all = scan_records_prefix(self.records_table(), "");
            proof {
                lemma_matching_pairs_all(self.records_kv(), ""@);
            }
            all
        } else {
            proof {
                reveal_strlit("");
            }
            let all = scan_records_prefix(self.records_table(), "");
            proof {
                lemma_matching_pairs_all(self.records_kv(), ""@);
            }
            let status_text = match &q.county_status {
                Some(st) => Some(String::from_str(st.as_text())),
                None => None,
            };
            filter_pairs(&all, &q.county, &q.client, &status_text)
        };
        let ghost base_view = base@.map(|i: int, p: (String, DBSchema)| (p.0@, p.1@));
        let ghost base_seq = base@;
        proof {
            assert(base_view == self.base_items(*q));
            if !(q.county is Some && q.client is Some && q.county_status is Some) {
                if q.county is None && q.client is None && q.county_status is None {
                } else {
                    lemma_residual_filter_sorted(
                        self.records_kv(),
                        opt_text(q.county),
                        opt_text(q.client),
                        opt_status_text(q.county_status),
                    );
                }
            }
        }
        let out = paginate(base, page, psize);
        proof {
            vstd::arithmetic::mul::lemma_mul_inequality(page - 1, page as int, psize as int);
            if let QueryOutcome::Page { items: ref items, total } = out {
                let start = (page - 1) * (psize as int);
                let end = if page * psize <= base_seq.len() {
                    page * (psize as int)
                } else {
                    base_seq.len() as int
                };
                assert(items@ == base_seq.subrange(start, end));
                assert forall|k: int| 0 <= k < items@.len() implies items@.map(
                    |i: int, p: (String, DBSchema)| (p.0@, p.1@),
                )[k] == base_view.subrange(start, end)[k] by {
                    assert(items@[k] == base_seq[start + k]);
                    assert(base_view[start + k] == (base_seq[start + k].0@, base_seq[start + k].1@));
                }
                assert(items@.map(|i: int, p: (String, DBSchema)| (p.0@, p.1@)) =~= base_view.subrange(
                    start,
                    end,
                ));
            }
        }
        Ok(out)
    }

    /// The date-range scan passed through the residual filter: the records
    /// opened in `[start, end]` whose supplied fields all match.
    pub fn filter_records(
        &self,
        start: &Date,
        end: &Date,
        county: &Option<String>,
        client: &Option<String>,
        county_status: &Option<String>,
    ) -> (r: Vec<(String, DBSchema)>)
        requires
            self.inv(),
            start.valid(),
            end.valid(),
        ensures
            r@.map(|i: int, p: (String, DBSchema)| (p.0@, p.1@)) == residual_filter(
                scan_range(self.records_kv(), *start, *end),
                opt_text(*county),
                opt_text(*client),
                opt_text(*county_status),
            ),
            sorted_keys(r@.map(|i: int, p: (String, DBSchema)| (p.0@, p.1@))),
    {
        proof {
            crate::laws::lemma_scan_range_sorted(self.records_kv(), *start, *end);
            lemma_residual_filter_sorted(
                scan_range(self.records_kv(), *start, *end),
                opt_text(*county),
                opt_text(*client),
                opt_text(*county_status),
            );
        }
        let scanned = self.scan_opened_range(start, end);
        filter_pairs(&scanned, county, client, county_status)
    }

    /// Parses the two `YYYY-MM-DD` range bounds, scans the range, and
    /// filters by whatever subset of county, client and county-status is
    /// supplied; when none is, the scan comes back unfiltered.  Malformed
    /// date text fails with `InvalidInput`.
    pub fn read_permit_with_filter(
        &self,
        start_date: &str,
        end_date: &str,
        county: &Option<String>,
        client: &Option<String>,
        county_status: &Option<String>,
    ) -> (r: Result<Vec<(String, DBSchema)>, Error>)
        requires
            self.inv(),
        ensures
            match r {
                Ok(v) => sorted_keys(v@.map(|i: int, p: (String, DBSchema)| (p.0@, p.1@)))
                    && exists|ds: Date, de: Date|
                    ds.valid() && de.valid() && start_date@ == date_text(ds) && end_date@
                        == date_text(de) && v@.map(|i: int, p: (String, DBSchema)| (p.0@, p.1@))
                        == residual_filter(
                        scan_range(self.records_kv(), ds, de),
                        opt_text(*county),
                        opt_text(*client),
                        opt_text(*county_status),
                    ),
                Err(e) => {
                    &&& e == Error::InvalidInput
                &&& (forall|d: Date| d.valid() ==> start_date@ != date_text(d)) || (forall|d: Date|
                        d.valid() ==> end_date@ != date_text(d))
                },
            },
    {
        let start = match parse_date(start_date) {
            Ok(d) => d,
            Err(e) => {
                return Err(e);
            },
        };
        let end = match parse_date(end_date) {
            Ok(d) => d,
            Err(e) => {
                return Err(e);
            },
        };
        let out = self.filter_records(&start, &end, county, client, county_status);
        Ok(out)
    }
}

} // verus!
