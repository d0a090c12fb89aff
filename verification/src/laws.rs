//! The service's standing guarantees, stated once and proved from the
//! operation contracts.

use crate::db::create_success;
use crate::db::find_report;
use crate::db::ids_uniq;
use crate::db::set_status;
use crate::db::spec_lookup;
use crate::db::spec_parse_id;
use crate::db::Database;
use crate::types::DefaultReturn;
use crate::types::Report;
use crate::types::ReportStatus;
use crate::types::ReportView;
use crate::db::StoredView;
use vstd::prelude::*;

verus! {

/// Every successful submission stores status Active whatever status
/// was asked for, stamps exactly the clock reading, and — as long as
/// the clock did not run backwards between two successful submissions
/// — the later report never carries an earlier stamp than the earlier
/// one.
pub proof fn lemma_submission_stamps(
    pre: Database,
    mid: Database,
    post: Database,
    a: ReportView,
    b: ReportView,
    now_a: u128,
    now_b: u128,
    ra: DefaultReturn<Report>,
    rb: DefaultReturn<Report>,
)
    requires
        create_success(pre, mid, a, now_a, ra),
        create_success(mid, post, b, now_b, rb),
        now_a <= now_b,
    ensures
        ra.payload matches Some(x) && x@.status == ReportStatus::Active && x@.timestamp == now_a,
        rb.payload matches Some(y) && y@.status == ReportStatus::Active && y@.timestamp == now_b,
        ra.payload matches Some(x) && rb.payload matches Some(y) && x@.timestamp <= y@.timestamp,
{
}

/// Repeated reads of one id with no intervening writes return the
/// same payload: each read's payload is a function of the rows alone,
/// and a read leaves the rows as they were, so the warm path
/// reproduces what the miss path stored.
pub proof fn lemma_get_report_idempotent(
    s: Seq<StoredView>,
    id: Seq<char>,
    p1: Option<ReportView>,
    p2: Option<ReportView>,
)
    requires
        match spec_lookup(s, id) {
            Some(rv) => p1 == Some(rv),
            None => p1 is None,
        },
        match spec_lookup(s, id) {
            Some(rv) => p2 == Some(rv),
            None => p2 is None,
        },
    ensures
        p1 == p2,
{
}

/// After an authorized status edit, reading the same id returns the
/// report with the new status and its other fields untouched, and
/// every other id still reads exactly as before the edit.
pub proof fn lemma_edit_then_get(s: Seq<StoredView>, id: Seq<char>, n: u128, st: ReportStatus)
    requires
        ids_uniq(s),
        spec_parse_id(id) == Some(n),
        find_report(s, n) is Some,
    ensures
        find_report(s, n) matches Some(rv) && spec_lookup(set_status(s, n, st), id) == Some(
            ReportView { status: st, ..rv },
        ),
        forall|m: u128|
            m != n ==> #[trigger] find_report(set_status(s, n, st), m) == find_report(s, m),
{
    crate::db::lemma_set_status(s, n, st);
}

/// A submission accepted at an instant no earlier than every stored
/// row heads the first page of the active listing: the view lists
/// most-recent-first, and nothing outranks the newest row.
pub proof fn lemma_fresh_submission_heads_listing(
    pre: Database,
    post: Database,
    props: ReportView,
    now: u128,
    r: DefaultReturn<Report>,
)
    requires
        create_success(pre, post, props, now, r),
        forall|i: int|
            0 <= i < pre.storage().len() ==> (#[trigger] pre.storage()[i]).report.timestamp
                <= now,
        forall|i: int| 0 <= i < pre.storage().len() ==> (#[trigger] pre.storage()[i]).id
            < pre.spec_next_id(),
    ensures
        crate::db::spec_window(post.storage(), 0).len() >= 1,
        crate::db::spec_window(post.storage(), 0)[0] == (ReportView {
            status: ReportStatus::Active,
            timestamp: now,
            ..props
        }),
{
    let stamped = ReportView { status: ReportStatus::Active, timestamp: now, ..props };
    let rec = StoredView { id: pre.spec_next_id(), report: stamped };
    let s = pre.storage();
    let post_s = crate::db::insert_desc(s, rec);
    if s.len() == 0 {
        assert(post_s == seq![rec]);
        assert(post_s[0] == rec);
        assert(post_s.drop_first() =~= Seq::<StoredView>::empty());
    } else {
        assert(!crate::db::rec_before(s[0], rec)) by {
            assert(s[0].report.timestamp <= now);
            assert(s[0].id < rec.id);
        }
        assert(post_s == seq![rec] + s);
        assert(post_s[0] == rec);
    }
    assert(crate::db::active_views(post_s)[0] == rec.report);
    assert(crate::db::active_views(post_s).len() >= 1);
    assert(crate::db::spec_window(post_s, 0)[0] == rec.report);
}

} // verus!
