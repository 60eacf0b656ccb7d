//! The laws of the store, proved once and for all: the exactness of the
//! composite-index membership, the create/read round trip, the partition
//! property of pagination, and the completeness of the date-range scan.

use vstd::multiset::Multiset;
use vstd::prelude::*;

use crate::query::{matching_pairs, scan_range, total_pages};
use crate::schema::{KeyView, RecordView};
use crate::store::{create_post, DBHandles};
use crate::timestamp::{date_ord, date_text, lemma_date_ord_le, lemma_date_text_injective,
    lemma_date_text_shape, lemma_next_day_successor, spec_date_le, spec_date_lt, spec_next_day,
    Date};

verus! {

/// Law: for every record in the table, the bucket of the record's own
/// composite key — the (client, county, county-status) triple — holds the
/// record's key, and no other composite key's bucket does.
pub proof fn lemma_record_in_exactly_one_bucket(s: &DBHandles, k: Seq<char>)
    requires
        s.inv(),
        s.records_map().contains_key(k),
    ensures
        s.index_map().contains_key(s.records_map()[k].composite_key()),
        s.index_map()[s.records_map()[k].composite_key()].contains(k),
        forall|ck: KeyView|
            s.index_map().contains_key(ck) && #[trigger] s.index_map()[ck].contains(k) ==> ck
                == s.records_map()[k].composite_key(),
{
}

/// Law: every member of every bucket is the key of a record present in the
/// table, and that record's composite key owns the bucket; no bucket holds
/// a key absent from the table.
pub proof fn lemma_bucket_members_live(s: &DBHandles, ck: KeyView, k: Seq<char>)
    requires
        s.inv(),
        s.index_map().contains_key(ck),
        s.index_map()[ck].contains(k),
    ensures
        s.records_map().contains_key(k),
        s.records_map()[k].composite_key() == ck,
{
}

/// Law: after a create, a point lookup of the returned key finds a record
/// equal to the one that was stored, in all fields.
pub proof fn lemma_create_round_trip(
    pre: DBHandles,
    post: DBHandles,
    key: Seq<char>,
    data: RecordView,
)
    requires
        create_post(pre, post, key, data),
    ensures
        post.records_map().contains_key(key),
        post.records_map()[key] == data,
{
}

/// Law: pages 1 through the page count partition the result set with no
/// overlap and no gaps: item `i` appears in page `i / psize + 1` at offset
/// `i % psize`, and in no other page's window.
pub proof fn lemma_pagination_partition(s: Seq<(Seq<char>, RecordView)>, psize: int, i: int)
    requires
        psize >= 1,
        0 <= i < s.len(),
    ensures
        ({
            let page = i / psize + 1;
            let start = (page - 1) * psize;
            let end = if page * psize <= s.len() {
                page * psize
            } else {
                s.len() as int
            };
            &&& 1 <= page <= total_pages(s.len() as int, psize)
        &&& start <= i < end
        &&& s.subrange(start, end)[i % psize] == s[i]
        &&& forall|p2: int|
                p2 >= 1 && p2 != page ==> !(#[trigger] ((p2 - 1) * psize) <= i < p2 * psize)
        }),
{
    let len = s.len() as int;
    let page = i / psize + 1;
    let start = (page - 1) * psize;
    vstd::arithmetic::div_mod::lemma_fundamental_div_mod(i, psize);
    vstd::arithmetic::div_mod::lemma_fundamental_div_mod(len, psize);
    let q = len / psize;
    let m = len % psize;
    assert(start == psize * (i / psize)) by (nonlinear_arith)
        requires
            start == ((i / psize + 1) - 1) * psize,
    ;
    assert(page * psize == psize * (i / psize) + psize) by (nonlinear_arith)
        requires
            page == i / psize + 1,
    ;
    assert(1 <= page <= total_pages(len, psize)) by {
        assert(i / psize >= 0) by (nonlinear_arith)
            requires
                i >= 0,
                psize >= 1,
                i == psize * (i / psize) + i % psize,
                0 <= i % psize < psize,
        ;
        assert(i / psize < q + (if m != 0 { 1int } else { 0int })) by (nonlinear_arith)
            requires
                i < len,
                psize >= 1,
                i == psize * (i / psize) + i % psize,
                0 <= i % psize < psize,
                len == psize * q + m,
                0 <= m < psize,
        ;
    }
    let end = if page * psize <= len {
        page * psize
    } else {
        len
    };
    assert(start <= i < end);
    assert(s.subrange(start, end)[i % psize] == s[start + i % psize]);
    assert(start + i % psize == i);
    assert forall|p2: int|
        p2 >= 1 && p2 != page implies !(#[trigger] ((p2 - 1) * psize) <= i < p2 * psize) by {
        if p2 < page {
            vstd::arithmetic::mul::lemma_mul_inequality(p2, page - 1, psize);
        } else {
            vstd::arithmetic::mul::lemma_mul_inequality(page, p2 - 1, psize);
        }
    }
}

/// Two date prefixes on one key are the same date: the two renderings are
/// both the key's first ten characters.
pub proof fn lemma_date_prefix_unique(k: Seq<char>, d1: Date, d2: Date)
    requires
        d1.valid(),
        d2.valid(),
        date_text(d1).is_prefix_of(k),
        date_text(d2).is_prefix_of(k),
    ensures
        d1 == d2,
{
    lemma_date_text_shape(d1);
    lemma_date_text_shape(d2);
    assert(date_text(d1) =~= k.subrange(0, 10));
    assert(date_text(d2) =~= k.subrange(0, 10));
    lemma_date_text_injective(d1, d2);
}

/// Membership in a concatenation.
proof fn lemma_add_contains<A>(x: Seq<A>, y: Seq<A>, p: A)
    ensures
        (x + y).contains(p) <==> x.contains(p) || y.contains(p),
{
    if (x + y).contains(p) {
        let i = choose|i: int| 0 <= i < (x + y).len() && (x + y)[i] == p;
        if i < x.len() {
            assert(x[i] == p);
        } else {
            assert(y[i - x.len()] == p);
        }
    }
    if x.contains(p) {
        let i = choose|i: int| 0 <= i < x.len() && x[i] == p;
        assert((x + y)[i] == p);
    }
    if y.contains(p) {
        let i = choose|i: int| 0 <= i < y.len() && y[i] == p;
        assert((x + y)[x.len() + i] == p);
    }
}

/// Law, completeness half: the date-range scan holds exactly the table
/// entries whose key starts with the text of some date of the inclusive
/// range — the union of the per-day prefix matches.
pub proof fn lemma_scan_range_complete(
    kv: Seq<(Seq<char>, RecordView)>,
    a: Date,
    b: Date,
    p: (Seq<char>, RecordView),
)
    requires
        a.valid(),
        b.valid(),
    ensures
        scan_range(kv, a, b).contains(p) <==> (kv.contains(p) && exists|d: Date|
            d.valid() && spec_date_le(a, d) && spec_date_le(d, b) && date_text(
                d,
            ).is_prefix_of(p.0)),
    decreases date_ord(b) - date_ord(a),
{
    if !spec_date_le(a, b) {
        assert(!scan_range(kv, a, b).contains(p));
    } else if a == b {
        crate::query::lemma_matching_pairs_contains(kv, date_text(a), p);
        if kv.contains(p) && date_text(a).is_prefix_of(p.0) {
            assert(a.valid() && spec_date_le(a, a) && spec_date_le(a, b) && date_text(
                a,
            ).is_prefix_of(p.0));
        }
    } else {
        assert(!a.is_max()) by {
            assert(crate::timestamp::spec_days_in_month(b.year as int, b.month as int) <= 31);
        }
        lemma_next_day_successor(a);
        lemma_date_ord_le(spec_next_day(a), b);
        lemma_scan_range_complete(kv, spec_next_day(a), b, p);
        lemma_add_contains(
            matching_pairs(kv, date_text(a)),
            scan_range(kv, spec_next_day(a), b),
            p,
        );
        crate::query::lemma_matching_pairs_contains(kv, date_text(a), p);
        if kv.contains(p) && exists|d: Date|
            d.valid() && spec_date_le(a, d) && spec_date_le(d, b) && date_text(d).is_prefix_of(
                p.0,
            ) {
            let d = choose|d: Date|
                d.valid() && spec_date_le(a, d) && spec_date_le(d, b) && date_text(
                    d,
                ).is_prefix_of(p.0);
            if d != a {
                assert(spec_date_lt(a, d));
                assert(spec_date_le(spec_next_day(a), d));
            }
        }
    }
}

/// Law, uniqueness half: no entry appears twice in a date-range scan —
/// table keys are unique, and a key carries at most one date prefix, so the
/// per-day groups never share a key.
pub proof fn lemma_scan_range_unique(kv: Seq<(Seq<char>, RecordView)>, a: Date, b: Date)
    requires
        a.valid(),
        b.valid(),
        crate::assoc::unique_keys(kv),
    ensures
        crate::assoc::unique_keys(scan_range(kv, a, b)),
    decreases date_ord(b) - date_ord(a),
{
    if !spec_date_le(a, b) {
    } else if a == b {
        crate::query::lemma_matching_pairs_unique(kv, date_text(a));
    } else {
        assert(!a.is_max()) by {
            assert(crate::timestamp::spec_days_in_month(b.year as int, b.month as int) <= 31);
        }
        lemma_next_day_successor(a);
        lemma_date_ord_le(spec_next_day(a), b);
        lemma_scan_range_unique(kv, spec_next_day(a), b);
        crate::query::lemma_matching_pairs_unique(kv, date_text(a));
        let x = matching_pairs(kv, date_text(a));
        let y = scan_range(kv, spec_next_day(a), b);
        assert forall|i: int, j: int|
            0 <= i < j < (x + y).len() implies (x + y)[i].0 != (x + y)[j].0 by {
            if i < x.len() && j >= x.len() {
                let px = (x + y)[i];
                let py = (x + y)[j];
                assert(x[i] == px);
                assert(y[j - x.len()] == py);
                assert(x.contains(px));
                assert(y.contains(py));
                crate::query::lemma_matching_pairs_contains(kv, date_text(a), px);
                lemma_scan_range_complete(kv, spec_next_day(a), b, py);
                let d = choose|d: Date|
                    d.valid() && spec_date_le(spec_next_day(a), d) && spec_date_le(d, b)
                        && date_text(d).is_prefix_of(py.0);
                if px.0 == py.0 {
                    lemma_date_prefix_unique(px.0, a, d);
                }
            }
        }
    }
}


/// Law, order half: the date-range scan comes back in ascending key order —
/// within a date the table order is the key order, and the date rendering
/// is order-preserving, so later dates' keys sort after earlier dates'.
pub proof fn lemma_scan_range_sorted(kv: Seq<(Seq<char>, RecordView)>, a: Date, b: Date)
    requires
        a.valid(),
        b.valid(),
        crate::assoc::sorted_keys(kv),
    ensures
        crate::assoc::sorted_keys(scan_range(kv, a, b)),
    decreases date_ord(b) - date_ord(a),
{
    if !spec_date_le(a, b) {
    } else if a == b {
        crate::query::lemma_matching_pairs_sorted(kv, date_text(a));
    } else {
        assert(!a.is_max()) by {
            assert(crate::timestamp::spec_days_in_month(b.year as int, b.month as int) <= 31);
        }
        lemma_next_day_successor(a);
        lemma_date_ord_le(spec_next_day(a), b);
        lemma_scan_range_sorted(kv, spec_next_day(a), b);
        crate::query::lemma_matching_pairs_sorted(kv, date_text(a));
        let x = matching_pairs(kv, date_text(a));
        let y = scan_range(kv, spec_next_day(a), b);
        assert forall|i: int, j: int|
            0 <= i < j < (x + y).len() implies crate::strings::text_lt(
            (x + y)[i].0,
            (x + y)[j].0,
        ) by {
            if i < x.len() && j >= x.len() {
                let px = (x + y)[i];
                let py = (x + y)[j];
                assert(x[i] == px);
                assert(y[j - x.len()] == py);
                assert(x.contains(px));
                assert(y.contains(py));
                crate::query::lemma_matching_pairs_contains(kv, date_text(a), px);
                lemma_scan_range_complete(kv, spec_next_day(a), b, py);
                let d = choose|d: Date|
                    d.valid() && spec_date_le(spec_next_day(a), d) && spec_date_le(d, b)
                        && date_text(d).is_prefix_of(py.0);
                crate::timestamp::lemma_date_text_increasing(a, d);
                lemma_date_text_shape(a);
                lemma_date_text_shape(d);
                assert(px.0 =~= date_text(a) + px.0.skip(10));
                assert(py.0 =~= date_text(d) + py.0.skip(10));
                crate::strings::lemma_text_lt_prefix_dominates(
                    date_text(a),
                    date_text(d),
                    px.0.skip(10),
                    py.0.skip(10),
                );
            }
        }
    }
}

/// The sort comparison is total: of any two entries, one sorts at or below
/// the other.
proof fn lemma_sort_le_total(
    sk: crate::query::SortKey,
    descending: bool,
    a: (Seq<char>, RecordView),
    b: (Seq<char>, RecordView),
)
    ensures
        crate::query::sort_le(sk, descending, a, b) || crate::query::sort_le(sk, descending, b, a),
{
}

/// The sort comparison is transitive.
proof fn lemma_sort_le_trans(
    sk: crate::query::SortKey,
    descending: bool,
    a: (Seq<char>, RecordView),
    b: (Seq<char>, RecordView),
    c: (Seq<char>, RecordView),
)
    requires
        crate::query::sort_le(sk, descending, a, b),
        crate::query::sort_le(sk, descending, b, c),
    ensures
        crate::query::sort_le(sk, descending, a, c),
{
}

/// A stable insertion into a sorted sequence keeps it sorted and adds
/// exactly the inserted entry.
proof fn lemma_insert_stable_correct(
    sorted: Seq<(Seq<char>, RecordView)>,
    x: (Seq<char>, RecordView),
    sk: crate::query::SortKey,
    descending: bool,
)
    requires
        forall|i: int, j: int|
            0 <= i <= j < sorted.len() ==> crate::query::sort_le(
                sk,
                descending,
                #[trigger] sorted[i],
                #[trigger] sorted[j],
            ),
    ensures
        ({
            let r = crate::query::insert_stable(sorted, x, sk, descending);
            &&& r.len() == sorted.len() + 1
        &&& r.to_multiset() == sorted.to_multiset().insert(x)
        &&& forall|i: int, j: int|
                0 <= i <= j < r.len() ==> crate::query::sort_le(
                    sk,
                    descending,
                    #[trigger] r[i],
                    #[trigger] r[j],
                )
        }),
    decreases sorted.len(),
{
    broadcast use vstd::seq_lib::group_to_multiset_ensures;

    let r = crate::query::insert_stable(sorted, x, sk, descending);
    if sorted.len() == 0 {
        assert(r =~= Seq::empty().push(x));
        assert(Seq::<(Seq<char>, RecordView)>::empty().to_multiset() =~= Multiset::empty());
    } else if crate::query::sort_le(sk, descending, sorted.last(), x) {
        assert forall|i: int, j: int|
            0 <= i <= j < r.len() implies crate::query::sort_le(
            sk,
            descending,
            #[trigger] r[i],
            #[trigger] r[j],
        ) by {
            if j == r.len() - 1 && i < j {
                lemma_sort_le_trans(sk, descending, sorted[i], sorted.last(), x);
            }
        }
    } else {
        let inner = sorted.drop_last();
        lemma_insert_stable_correct(inner, x, sk, descending);
        let ri = crate::query::insert_stable(inner, x, sk, descending);
        assert(r == ri.push(sorted.last()));
        lemma_sort_le_total(sk, descending, sorted.last(), x);
        assert(crate::query::sort_le(sk, descending, x, sorted.last()));
        // Every entry of the inner insertion sorts at or below the moved
        // last element.
        assert forall|i: int|
            0 <= i < ri.len() implies crate::query::sort_le(
            sk,
            descending,
            #[trigger] ri[i],
            sorted.last(),
        ) by {
            assert(ri.contains(ri[i]));
            assert(ri.to_multiset().count(ri[i]) > 0);
            if ri[i] == x {
            } else {
                assert(inner.to_multiset().count(ri[i]) > 0);
                assert(inner.contains(ri[i]));
                let k = choose|k: int| 0 <= k < inner.len() && inner[k] == ri[i];
                assert(sorted[k] == ri[i]);
                assert(crate::query::sort_le(sk, descending, sorted[k], sorted.last()));
            }
        }
        assert forall|i: int, j: int|
            0 <= i <= j < r.len() implies crate::query::sort_le(
            sk,
            descending,
            #[trigger] r[i],
            #[trigger] r[j],
        ) by {
            if j < r.len() - 1 {
                assert(r[i] == ri[i] && r[j] == ri[j]);
            } else if i < j {
                assert(r[i] == ri[i]);
            }
        }
        assert(sorted.to_multiset() =~= inner.to_multiset().insert(sorted.last())) by {
            assert(sorted == inner.push(sorted.last()));
        }
        assert(r.to_multiset() =~= sorted.to_multiset().insert(x));
    }
}

/// Law: the stable sort of a result set is ordered by the selected
/// comparison and holds exactly the original entries.
pub proof fn lemma_stable_sorted_correct(
    s: Seq<(Seq<char>, RecordView)>,
    sk: crate::query::SortKey,
    descending: bool,
)
    ensures
        ({
            let r = crate::query::stable_sorted(s, sk, descending);
            &&& r.len() == s.len()
        &&& r.to_multiset() == s.to_multiset()
        &&& forall|i: int, j: int|
                0 <= i <= j < r.len() ==> crate::query::sort_le(
                    sk,
                    descending,
                    #[trigger] r[i],
                    #[trigger] r[j],
                )
        }),
    decreases s.len(),
{
    broadcast use vstd::seq_lib::group_to_multiset_ensures;

    if s.len() > 0 {
        lemma_stable_sorted_correct(s.drop_last(), sk, descending);
        lemma_insert_stable_correct(
            crate::query::stable_sorted(s.drop_last(), sk, descending),
            s.last(),
            sk,
            descending,
        );
        assert(s.to_multiset() =~= s.drop_last().to_multiset().insert(s.last())) by {
            assert(s == s.drop_last().push(s.last()));
        }
        assert(crate::query::stable_sorted(s, sk, descending).to_multiset() =~= s.to_multiset());
    }
}

} // verus!
