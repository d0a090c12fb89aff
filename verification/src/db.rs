//! The report repository: persistent rows and the read-through cache.
//!
//! `Database` models what the service sees of its storage engine and
//! cache working together: rows of reports keyed by engine-assigned
//! identifiers, held newest-first, and a cache whose every entry is
//! proved to agree with the rows it stands for. Reads populate the
//! cache; every write invalidates or rewrites exactly the entries it
//! could have staled, so a cached answer never lags a completed write.

use crate::auth::spec_is_authorized;
use crate::auth::FullUser;
use crate::cache::spec_starts_with;
use crate::cache::CacheStore;
use crate::codec::spec_encode_list;
use crate::codec::spec_encode_report;
use crate::digits::dec_rep;
use crate::digits::lemma_dec_rep_canonical;
use crate::types::DefaultReturn;
use crate::types::Report;
use crate::types::ReportStatus;
use crate::types::ReportView;
use vstd::prelude::*;

verus! {

/// A persisted report with its engine-assigned identifier.
pub struct StoredReport {
    pub id: u128,
    pub report: Report,
}

/// The mathematical value of a stored row.
pub struct StoredView {
    pub id: u128,
    pub report: ReportView,
}

impl View for StoredReport {
    type V = StoredView;

    open spec fn view(&self) -> StoredView {
        StoredView { id: self.id, report: self.report@ }
    }
}

// ---------------------------------------------------------------------
// cache keys
// ---------------------------------------------------------------------
/// The cache key of a single report.
pub open spec fn spec_report_key(id: u128) -> Seq<char> {
    "report:"@ + dec_rep(id as nat)
}

/// The cache key of one listing window.
pub open spec fn spec_list_key(off: nat) -> Seq<char> {
    "reports:offset"@ + dec_rep(off)
}

/// The shared prefix of every listing-window key; each create drops
/// all of them at once.
pub open spec fn spec_list_prefix() -> Seq<char> {
    "reports:offset"@
}

/// How the two key families relate: each is injective, they never
/// collide, and exactly the listing keys carry the listing prefix.
pub proof fn lemma_keys()
    ensures
        forall|n: u128, m: u128| spec_report_key(n) == spec_report_key(m) ==> n == m,
        forall|a: nat, b: nat| spec_list_key(a) == spec_list_key(b) ==> a == b,
        forall|n: u128, off: nat| spec_report_key(n) != spec_list_key(off),
        forall|n: u128| !spec_starts_with(#[trigger] spec_report_key(n), spec_list_prefix()),
        forall|off: nat| spec_starts_with(#[trigger] spec_list_key(off), spec_list_prefix()),
{
    reveal_strlit("report:");
    reveal_strlit("reports:offset");
    assert forall|n: u128, m: u128| spec_report_key(n) == spec_report_key(m) implies n == m by {
        lemma_dec_rep_canonical(n as nat);
        lemma_dec_rep_canonical(m as nat);
        let kn = spec_report_key(n);
        let km = spec_report_key(m);
        assert(dec_rep(n as nat) =~= kn.subrange(7, kn.len() as int));
        assert(dec_rep(m as nat) =~= km.subrange(7, km.len() as int));
        assert(crate::digits::dec_val(dec_rep(n as nat)) == n as nat);
    }
    assert forall|a: nat, b: nat| spec_list_key(a) == spec_list_key(b) implies a == b by {
        lemma_dec_rep_canonical(a);
        lemma_dec_rep_canonical(b);
        let ka = spec_list_key(a);
        let kb = spec_list_key(b);
        assert(dec_rep(a) =~= ka.subrange(14, ka.len() as int));
        assert(dec_rep(b) =~= kb.subrange(14, kb.len() as int));
        assert(crate::digits::dec_val(dec_rep(a)) == a);
    }
    assert forall|n: u128, off: nat| spec_report_key(n) != spec_list_key(off) by {
        lemma_dec_rep_canonical(n as nat);
        assert(spec_report_key(n)[6] == ':');
        assert(spec_list_key(off)[6] == 's');
    }
    assert forall|n: u128| !spec_starts_with(
        #[trigger] spec_report_key(n),
        spec_list_prefix(),
    ) by {
        lemma_dec_rep_canonical(n as nat);
        let k = spec_report_key(n);
        if spec_starts_with(k, spec_list_prefix()) {
            assert(k.subrange(0, 14)[6] == spec_list_prefix()[6]);
            assert(k[6] == 's');
            assert(k[6] == ':');
        }
    }
    assert forall|off: nat| spec_starts_with(
        #[trigger] spec_list_key(off),
        spec_list_prefix(),
    ) by {
        lemma_dec_rep_canonical(off);
        assert(spec_list_key(off).subrange(0, 14) =~= spec_list_prefix());
    }
}

// ---------------------------------------------------------------------
// the rows as a mathematical store
// ---------------------------------------------------------------------
/// `a` is listed before `b`: more recent, or at the same instant the
/// later-assigned (larger) identifier first.
pub open spec fn rec_before(a: StoredView, b: StoredView) -> bool {
    a.report.timestamp > b.report.timestamp || (a.report.timestamp == b.report.timestamp && a.id
        > b.id)
}

/// Rows stand newest-first.
pub open spec fn sorted_desc(s: Seq<StoredView>) -> bool {
    forall|i: int, j: int| 0 <= i < j < s.len() ==> rec_before(s[i], s[j])
}

/// No identifier names two rows.
pub open spec fn ids_uniq(s: Seq<StoredView>) -> bool {
    forall|i: int, j: int| 0 <= i < j < s.len() ==> s[i].id != s[j].id
}

/// The row a given identifier names, if any.
pub open spec fn find_report(s: Seq<StoredView>, id: u128) -> Option<ReportView>
    decreases s.len(),
{
    if s.len() == 0 {
        None
    } else if s[0].id == id {
        Some(s[0].report)
    } else {
        find_report(s.drop_first(), id)
    }
}

/// The active rows, in listing order.
pub open spec fn active_views(s: Seq<StoredView>) -> Seq<ReportView>
    decreases s.len(),
{
    if s.len() == 0 {
        Seq::empty()
    } else if s[0].report.status == ReportStatus::Active {
        seq![s[0].report] + active_views(s.drop_first())
    } else {
        active_views(s.drop_first())
    }
}

/// One page of up to fifty active rows, starting at `off`.
pub open spec fn spec_window(s: Seq<StoredView>, off: nat) -> Seq<ReportView> {
    let a = active_views(s);
    if off >= a.len() {
        Seq::empty()
    } else if off + 50 <= a.len() {
        a.subrange(off as int, off as int + 50)
    } else {
        a.subrange(off as int, a.len() as int)
    }
}

/// The identifier an id string names: the number it canonically
/// spells, if it spells one.
pub open spec fn spec_parse_id(t: Seq<char>) -> Option<u128> {
    if exists|n: u128| t == dec_rep(n as nat) {
        Some(choose|n: u128| t == dec_rep(n as nat))
    } else {
        None
    }
}

/// What looking an id string up in the rows yields.
pub open spec fn spec_lookup(s: Seq<StoredView>, t: Seq<char>) -> Option<ReportView> {
    match spec_parse_id(t) {
        Some(n) => find_report(s, n),
        None => None,
    }
}

/// The rows after one row's status is rewritten in place.
pub open spec fn set_status(s: Seq<StoredView>, id: u128, st: ReportStatus) -> Seq<StoredView> {
    Seq::new(
        s.len(),
        |i: int|
            if s[i].id == id {
                StoredView {
                    id: s[i].id,
                    report: ReportView { status: st, ..s[i].report },
                }
            } else {
                s[i]
            },
    )
}

/// The rows after a fresh row is filed in listing order.
pub open spec fn insert_desc(s: Seq<StoredView>, rec: StoredView) -> Seq<StoredView>
    decreases s.len(),
{
    if s.len() == 0 {
        seq![rec]
    } else if rec_before(s[0], rec) {
        seq![s[0]] + insert_desc(s.drop_first(), rec)
    } else {
        seq![rec] + s
    }
}

/// An identifier finds a row exactly when a row carries it, and finds
/// the row that does.
pub proof fn lemma_find_report(s: Seq<StoredView>, id: u128)
    ensures
        (find_report(s, id) is Some) <==> (exists|i: int| 0 <= i < s.len() && s[i].id == id),
        ids_uniq(s) ==> forall|i: int|
            0 <= i < s.len() && s[i].id == id ==> find_report(s, id) == Some(s[i].report),
    decreases s.len(),
{
    if s.len() == 0 {
    } else {
        let t = s.drop_first();
        lemma_find_report(t, id);
        assert(ids_uniq(s) ==> ids_uniq(t)) by {
            if ids_uniq(s) {
                assert forall|i: int, j: int| 0 <= i < j < t.len() implies t[i].id != t[j].id by {
                    assert(t[i] == s[i + 1] && t[j] == s[j + 1]);
                }
            }
        }
        if find_report(s, id) is Some {
            if s[0].id == id {
                assert(0 <= 0 < s.len() && s[0].id == id);
            } else {
                let i = choose|i: int| 0 <= i < t.len() && t[i].id == id;
                assert(s[i + 1].id == id);
            }
        }
        if exists|i: int| 0 <= i < s.len() && s[i].id == id {
            let i = choose|i: int| 0 <= i < s.len() && s[i].id == id;
            if i == 0 {
            } else {
                assert(t[i - 1].id == id);
            }
        }
        if ids_uniq(s) {
            assert forall|i: int| 0 <= i < s.len() && s[i].id == id implies find_report(s, id)
                == Some(s[i].report) by {
                if i == 0 {
                } else {
                    assert(t[i - 1] == s[i]);
                    assert(s[0].id != s[i].id);
                }
            }
        }
    }
}

/// Rewriting one row's status touches no other row and keeps order,
/// identifiers and timestamps.
pub proof fn lemma_set_status(s: Seq<StoredView>, id: u128, st: ReportStatus)
    ensures
        set_status(s, id, st).len() == s.len(),
        sorted_desc(s) ==> sorted_desc(set_status(s, id, st)),
        ids_uniq(s) ==> ids_uniq(set_status(s, id, st)),
        forall|m: u128|
            m != id ==> #[trigger] find_report(set_status(s, id, st), m) == find_report(s, m),
        ids_uniq(s) ==> (match find_report(s, id) {
            Some(rv) => find_report(set_status(s, id, st), id) == Some(
                ReportView { status: st, ..rv },
            ),
            None => find_report(set_status(s, id, st), id) is None,
        }),
    decreases s.len(),
{
    let r = set_status(s, id, st);
    assert forall|i: int, j: int| 0 <= i < j < s.len() && sorted_desc(s) implies rec_before(
        r[i],
        r[j],
    ) by {
        assert(rec_before(s[i], s[j]));
    }
    if s.len() > 0 {
        lemma_set_status(s.drop_first(), id, st);
        assert(r.drop_first() =~= set_status(s.drop_first(), id, st));
        assert(ids_uniq(s) ==> ids_uniq(s.drop_first())) by {
            if ids_uniq(s) {
                assert forall|i: int, j: int|
                    0 <= i < j < s.drop_first().len() implies s.drop_first()[i].id
                    != s.drop_first()[j].id by {
                    assert(s.drop_first()[i] == s[i + 1] && s.drop_first()[j] == s[j + 1]);
                }
            }
        }
        if ids_uniq(s) && s[0].id != id {
            assert(find_report(s, id) == find_report(s.drop_first(), id));
            assert(r[0] == s[0]);
            assert(find_report(r, id) == find_report(r.drop_first(), id));
        }
        assert forall|m: u128| m != id implies #[trigger] find_report(r, m) == find_report(
            s,
            m,
        ) by {
            assert(r[0].id == s[0].id);
            if s[0].id == m {
                assert(r[0] == s[0]);
            } else {
                assert(find_report(r, m) == find_report(r.drop_first(), m));
                assert(find_report(s, m) == find_report(s.drop_first(), m));
            }
        }
    }
}

/// Filing a fresh row with an unused identifier keeps order and
/// uniqueness, adds exactly that row, and leaves every other lookup
/// unchanged.
pub proof fn lemma_insert_desc(s: Seq<StoredView>, rec: StoredView)
    requires
        sorted_desc(s),
        ids_uniq(s),
        forall|i: int| 0 <= i < s.len() ==> #[trigger] s[i].id < rec.id,
    ensures
        insert_desc(s, rec).len() == s.len() + 1,
        sorted_desc(insert_desc(s, rec)),
        ids_uniq(insert_desc(s, rec)),
        find_report(insert_desc(s, rec), rec.id) == Some(rec.report),
        forall|m: u128|
            m != rec.id ==> #[trigger] find_report(insert_desc(s, rec), m) == find_report(s, m),
        forall|i: int|
            0 <= i < insert_desc(s, rec).len() ==> (#[trigger] insert_desc(s, rec)[i].id < rec.id
                || insert_desc(s, rec)[i].id == rec.id),
    decreases s.len(),
{
    let r = insert_desc(s, rec);
    if s.len() == 0 {
        assert(r == seq![rec]);
        assert(r[0] == rec);
        assert(r.drop_first() =~= Seq::<StoredView>::empty());
        assert forall|m: u128| m != rec.id implies #[trigger] find_report(r, m) == find_report(
            s,
            m,
        ) by {
            assert(find_report(r, m) == find_report(r.drop_first(), m));
        }
    } else if rec_before(s[0], rec) {
        let t = s.drop_first();
        assert(sorted_desc(t) && ids_uniq(t)) by {
            assert forall|i: int, j: int| 0 <= i < j < t.len() implies rec_before(t[i], t[j])
                && t[i].id != t[j].id by {
                assert(t[i] == s[i + 1] && t[j] == s[j + 1]);
            }
        }
        assert(forall|i: int| 0 <= i < t.len() ==> #[trigger] t[i].id < rec.id) by {
            assert forall|i: int| 0 <= i < t.len() implies #[trigger] t[i].id < rec.id by {
                assert(t[i] == s[i + 1]);
            }
        }
        lemma_insert_desc(t, rec);
        let rt = insert_desc(t, rec);
        assert(r == seq![s[0]] + rt);
        assert(r[0] == s[0]);
        assert(r.drop_first() =~= rt);
        assert(sorted_desc(r)) by {
            assert forall|i: int, j: int| 0 <= i < j < r.len() implies rec_before(r[i], r[j]) by {
                if i == 0 {
                    // the head goes before every old row and before the new one
                    if exists|k: int| 0 <= k < t.len() && rt[j - 1] == t[k] {
                        let k = choose|k: int| 0 <= k < t.len() && rt[j - 1] == t[k];
                        assert(rec_before(s[0], s[k + 1]));
                    } else {
                        assert(rt[j - 1] == rec || exists|k: int|
                            0 <= k < t.len() && rt[j - 1] == t[k]) by {
                            lemma_insert_desc_members(t, rec, j - 1);
                        }
                        assert(rec_before(s[0], rec));
                    }
                } else {
                    assert(rec_before(rt[i - 1], rt[j - 1]));
                }
            }
        }
        assert(ids_uniq(r)) by {
            assert forall|i: int, j: int| 0 <= i < j < r.len() implies r[i].id != r[j].id by {
                if i == 0 {
                    lemma_insert_desc_members(t, rec, j - 1);
                    if rt[j - 1] == rec {
                        assert(s[0].id < rec.id);
                    } else {
                        let k = choose|k: int| 0 <= k < t.len() && rt[j - 1] == t[k];
                        assert(s[0].id != s[k + 1].id);
                    }
                } else {
                    assert(rt[i - 1].id != rt[j - 1].id);
                }
            }
        }
        assert(s[0].id != rec.id);
        assert(find_report(r, rec.id) == find_report(rt, rec.id));
        assert forall|m: u128| m != rec.id implies #[trigger] find_report(r, m) == find_report(
            s,
            m,
        ) by {
            assert(find_report(r, m) == if s[0].id == m {
                Some(s[0].report)
            } else {
                find_report(rt, m)
            });
        }
        assert forall|i: int| 0 <= i < r.len() implies (#[trigger] r[i].id < rec.id || r[i].id
            == rec.id) by {
            if i > 0 {
                assert(r[i] == rt[i - 1]);
            }
        }
    } else {
        assert(r == seq![rec] + s);
        assert(r[0] == rec);
        assert(r.drop_first() =~= s);
        assert(sorted_desc(r)) by {
            assert forall|i: int, j: int| 0 <= i < j < r.len() implies rec_before(r[i], r[j]) by {
                if i == 0 {
                    if j == 1 {
                        assert(r[j] == s[0]);
                        assert(s[0].id < rec.id);
                        assert(rec_before(rec, s[0]));
                    } else {
                        assert(r[j] == s[j - 1]);
                        assert(s[0].id < rec.id);
                        assert(rec_before(rec, s[0]));
                        assert(rec_before(s[0], s[j - 1]));
                    }
                } else {
                    assert(r[i] == s[i - 1] && r[j] == s[j - 1]);
                }
            }
        }
        assert(ids_uniq(r)) by {
            assert forall|i: int, j: int| 0 <= i < j < r.len() implies r[i].id != r[j].id by {
                if i == 0 {
                    assert(r[j] == s[j - 1]);
                    assert(s[j - 1].id < rec.id);
                } else {
                    assert(r[i] == s[i - 1] && r[j] == s[j - 1]);
                }
            }
        }
        assert(find_report(r, rec.id) == Some(rec.report));
        assert forall|m: u128| m != rec.id implies #[trigger] find_report(r, m) == find_report(
            s,
            m,
        ) by {
            assert(find_report(r, m) == find_report(r.drop_first(), m));
        }
    }
}

/// Every row of an insertion is the new row or one of the old rows.
proof fn lemma_insert_desc_members(s: Seq<StoredView>, rec: StoredView, i: int)
    requires
        0 <= i < insert_desc(s, rec).len(),
    ensures
        insert_desc(s, rec)[i] == rec || exists|k: int|
            0 <= k < s.len() && insert_desc(s, rec)[i] == s[k],
    decreases s.len(),
{
    let r = insert_desc(s, rec);
    if s.len() == 0 {
    } else if rec_before(s[0], rec) {
        if i == 0 {
            assert(r[0] == s[0]);
        } else {
            lemma_insert_desc_members(s.drop_first(), rec, i - 1);
            assert(r[i] == insert_desc(s.drop_first(), rec)[i - 1]);
            if insert_desc(s.drop_first(), rec)[i - 1] != rec {
                let k = choose|k: int|
                    0 <= k < s.drop_first().len() && insert_desc(s.drop_first(), rec)[i - 1]
                        == s.drop_first()[k];
                assert(r[i] == s[k + 1]);
            }
        }
    } else {
        if i > 0 {
            assert(r[i] == s[i - 1]);
        }
    }
}


/// Active rows listed from a longer prefix: the same list, plus the
/// new row if it is active.
proof fn lemma_active_views_snoc(s: Seq<StoredView>, rec: StoredView)
    ensures
        active_views(s.push(rec)) == active_views(s) + (if rec.report.status
            == ReportStatus::Active {
            seq![rec.report]
        } else {
            Seq::<ReportView>::empty()
        }),
    decreases s.len(),
{
    let tail: Seq<ReportView> = if rec.report.status == ReportStatus::Active {
        seq![rec.report]
    } else {
        Seq::empty()
    };
    if s.len() == 0 {
        assert(s.push(rec)[0] == rec);
        assert(s.push(rec).drop_first() =~= Seq::<StoredView>::empty());
        assert(active_views(Seq::<StoredView>::empty()) == Seq::<ReportView>::empty());
        assert(active_views(s.push(rec)) =~= active_views(s) + tail);
    } else {
        assert(s.push(rec)[0] == s[0]);
        assert(s.push(rec).drop_first() =~= s.drop_first().push(rec));
        lemma_active_views_snoc(s.drop_first(), rec);
        assert(active_views(s.push(rec)) =~= active_views(s) + tail);
    }
}

/// Reports listed older-to-never-newer.
pub open spec fn tsorted(a: Seq<ReportView>) -> bool {
    forall|i: int, j: int| 0 <= i < j < a.len() ==> a[i].timestamp >= a[j].timestamp
}

/// Every listed report is some row's report.
proof fn lemma_active_views_member(s: Seq<StoredView>, j: int)
    requires
        0 <= j < active_views(s).len(),
    ensures
        exists|k: int| 0 <= k < s.len() && active_views(s)[j] == s[k].report,
    decreases s.len(),
{
    if s.len() > 0 {
        let t = s.drop_first();
        if s[0].report.status == ReportStatus::Active {
            if j == 0 {
                assert(active_views(s)[0] == s[0].report);
            } else {
                lemma_active_views_member(t, j - 1);
                let k = choose|k: int| 0 <= k < t.len() && active_views(t)[j - 1] == t[k].report;
                assert(active_views(s)[j] == s[k + 1].report);
            }
        } else {
            lemma_active_views_member(t, j);
            let k = choose|k: int| 0 <= k < t.len() && active_views(t)[j] == t[k].report;
            assert(active_views(s)[j] == s[k + 1].report);
        }
    }
}

/// Newest-first rows list newest-first.
proof fn lemma_active_views_tsorted(s: Seq<StoredView>)
    requires
        sorted_desc(s),
    ensures
        tsorted(active_views(s)),
    decreases s.len(),
{
    if s.len() > 0 {
        let t = s.drop_first();
        assert(sorted_desc(t)) by {
            assert forall|i: int, j: int| 0 <= i < j < t.len() implies rec_before(
                t[i],
                t[j],
            ) by {
                assert(t[i] == s[i + 1] && t[j] == s[j + 1]);
            }
        }
        lemma_active_views_tsorted(t);
        let a = active_views(s);
        assert forall|i: int, j: int| 0 <= i < j < a.len() implies a[i].timestamp
            >= a[j].timestamp by {
            if s[0].report.status == ReportStatus::Active {
                if i == 0 {
                    lemma_active_views_member(t, j - 1);
                    let k = choose|k: int|
                        0 <= k < t.len() && active_views(t)[j - 1] == t[k].report;
                    assert(rec_before(s[0], s[k + 1]));
                    assert(a[j] == t[k].report);
                } else {
                    assert(a[i] == active_views(t)[i - 1] && a[j] == active_views(t)[j - 1]);
                }
            } else {
                assert(a[i] == active_views(t)[i] && a[j] == active_views(t)[j]);
            }
        }
    }
}

/// Where the scan that files a fresh row stops is where the listing
/// order puts it.
proof fn lemma_insert_desc_at(s: Seq<StoredView>, rec: StoredView, idx: int)
    requires
        0 <= idx <= s.len(),
        forall|k: int| 0 <= k < idx ==> #[trigger] s[k].report.timestamp > rec.report.timestamp,
        idx < s.len() ==> s[idx as int].report.timestamp <= rec.report.timestamp,
        forall|i: int| 0 <= i < s.len() ==> #[trigger] s[i].id < rec.id,
    ensures
        insert_desc(s, rec) == s.subrange(0, idx) + seq![rec] + s.subrange(idx, s.len() as int),
    decreases s.len(),
{
    if s.len() == 0 {
        assert(insert_desc(s, rec) =~= s.subrange(0, 0) + seq![rec] + s.subrange(0, 0));
    } else if idx == 0 {
        assert(!rec_before(s[0], rec));
        assert(insert_desc(s, rec) =~= s.subrange(0, 0) + seq![rec] + s.subrange(
            0,
            s.len() as int,
        ));
    } else {
        assert(s[0].report.timestamp > rec.report.timestamp);
        assert(rec_before(s[0], rec));
        let t = s.drop_first();
        assert(forall|k: int| 0 <= k < idx - 1 ==> #[trigger] t[k].report.timestamp
            > rec.report.timestamp) by {
            assert forall|k: int| 0 <= k < idx - 1 implies #[trigger] t[k].report.timestamp
                > rec.report.timestamp by {
                assert(t[k] == s[k + 1]);
            }
        }
        assert(forall|i: int| 0 <= i < t.len() ==> #[trigger] t[i].id < rec.id) by {
            assert forall|i: int| 0 <= i < t.len() implies #[trigger] t[i].id < rec.id by {
                assert(t[i] == s[i + 1]);
            }
        }
        if idx - 1 < t.len() {
            assert(t[idx - 1] == s[idx]);
        }
        lemma_insert_desc_at(t, rec, idx - 1);
        assert(insert_desc(s, rec) =~= s.subrange(0, idx) + seq![rec] + s.subrange(
            idx,
            s.len() as int,
        )) by {
            assert(insert_desc(s, rec) == seq![s[0]] + insert_desc(t, rec));
            assert(insert_desc(t, rec) == t.subrange(0, idx - 1) + seq![rec] + t.subrange(
                idx - 1,
                t.len() as int,
            ));
            assert forall|w: int| 0 <= w < idx - 1 implies #[trigger] t.subrange(0, idx - 1)[w]
                == s[w + 1] by {}
        }
    }
}

/// A field-for-field copy whose view is the original's.
pub fn clone_report(r: &Report) -> (c: Report)
    ensures
        c@ == r@,
{
    Report {
        report_type: r.report_type,
        status: r.status,
        author: r.author.clone(),
        content: r.content.clone(),
        address: r.address.clone(),
        timestamp: r.timestamp,
    }
}

/// Build the cache key of a single report.
fn report_key(n: u128) -> (k: String)
    ensures
        k@ == spec_report_key(n),
{
    let mut k = String::from_str("report:");
    let num = crate::digits::u128_to_dec(n);
    k.append(num.as_str());
    k
}

/// Build the cache key of one listing window.
fn list_key(off: usize) -> (k: String)
    ensures
        k@ == spec_list_key(off as nat),
{
    let mut k = String::from_str("reports:offset");
    let num = crate::digits::u128_to_dec(off as u128);
    k.append(num.as_str());
    k
}

/// The repository: the report rows and the cache in front of them.
pub struct Database {
    reports: Vec<StoredReport>,
    next_id: u128,
    cache: CacheStore,
}

impl Database {
    /// The rows as mathematical records, in listing order.
    pub closed spec fn storage(&self) -> Seq<StoredView> {
        Seq::new(self.reports@.len(), |i: int| self.reports@[i]@)
    }

    /// The cache as the map from key text to value text.
    pub closed spec fn cache_map(&self) -> Map<Seq<char>, Seq<char>> {
        self.cache@
    }

    /// The identifier the next created report receives.
    pub closed spec fn spec_next_id(&self) -> u128 {
        self.next_id
    }

    /// The repository invariant: rows newest-first under unused
    /// identifiers, and every cache entry agreeing with the rows —
    /// a cached report is the stored report, a cached window is the
    /// window the rows give.
    pub closed spec fn wf(&self) -> bool {
        &&& self.cache.wf()
        &&& sorted_desc(self.storage())
        &&& ids_uniq(self.storage())
        &&& self.next_id >= 1
        &&& forall|i: int|
            0 <= i < self.storage().len() ==> (#[trigger] self.storage()[i].id) < self.next_id
        &&& forall|n: u128|
            #[trigger] self.cache@.contains_key(spec_report_key(n)) ==> (find_report(
                self.storage(),
                n,
            ) matches Some(rv) && self.cache@[spec_report_key(n)] == spec_encode_report(rv))
        &&& forall|off: nat|
            #[trigger] self.cache@.contains_key(spec_list_key(off)) ==> self.cache@[spec_list_key(
                off,
            )] == spec_encode_list(spec_window(self.storage(), off))
    }

    /// An empty repository in front of an empty cache.
    pub fn new() -> (db: Database)
        ensures
            db.wf(),
            db.storage() == Seq::<StoredView>::empty(),
            db.cache_map() == Map::<Seq<char>, Seq<char>>::empty(),
            db.spec_next_id() == 1,
    {
        let db = Database { reports: Vec::new(), next_id: 1, cache: CacheStore::new() };
        proof {
            assert(db.storage() =~= Seq::<StoredView>::empty());
        }
        db
    }

    fn find_by_id(&self, n: u128) -> (r: Option<Report>)
        requires
            self.wf(),
        ensures
            match r {
                Some(rep) => find_report(self.storage(), n) == Some(rep@),
                None => find_report(self.storage(), n) is None,
            },
    {
        proof {
            lemma_find_report(self.storage(), n);
        }
        let len = self.reports.len();
        let mut i: usize = 0;
        while i < len
            invariant
                0 <= i <= len,
                len == self.reports@.len(),
                self.wf(),
                forall|j: int| 0 <= j < i ==> self.storage()[j].id != n,
            decreases len - i,
        {
            if self.reports[i].id == n {
                proof {
                    lemma_find_report(self.storage(), n);
                    assert(self.storage()[i as int].id == n);
                }
                return Some(clone_report(&self.reports[i].report));
            }
            i = i + 1;
        }
        proof {
            lemma_find_report(self.storage(), n);
            if find_report(self.storage(), n) is Some {
                let j = choose|j: int| 0 <= j < self.storage().len() && self.storage()[j].id == n;
                assert(false);
            }
        }
        None
    }

    /// Get a report by its id: from the cache when its entry is warm,
    /// else from the rows, warming the cache on the way out. Only the
    /// canonical decimal spelling of an identifier names a row.
    pub fn get_report_by_id(&mut self, id: String) -> (r: DefaultReturn<Report>)
        requires
            old(self).wf(),
        ensures
            final(self).wf(),
            final(self).storage() == old(self).storage(),
            final(self).spec_next_id() == old(self).spec_next_id(),
            r.success == (spec_lookup(old(self).storage(), id@) is Some),
            match spec_lookup(old(self).storage(), id@) {
                Some(rv) => r.payload matches Some(rep) && rep@ == rv,
                None => r.payload is None,
            },
            match spec_parse_id(id@) {
                Some(n) => match find_report(old(self).storage(), n) {
                    Some(rv) => {
                        &&& (old(self).cache_map().contains_key(spec_report_key(n))
                            ==> *final(self) == *old(self) && r.message@
                            == "Report exists (cache)"@)
                        &&& (!old(self).cache_map().contains_key(spec_report_key(n))
                            ==> final(self).cache_map() == old(self).cache_map().insert(
                            spec_report_key(n),
                            spec_encode_report(rv),
                        ) && r.message@ == "Report exists"@)
                    },
                    None => *final(self) == *old(self) && r.message@ == "Report does not exist"@,
                },
                None => *final(self) == *old(self) && r.message@ == "Report does not exist"@,
            },
    {
        let n = match crate::digits::parse_u128_dec(id.as_str()) {
            Some(n) => n,
            None => {
                proof {
                    if spec_parse_id(id@) is Some {
                        let m = choose|m: u128| id@ == dec_rep(m as nat);
                        assert(false);
                    }
                }
                return DefaultReturn {
                    success: false,
                    message: String::from_str("Report does not exist"),
                    payload: None,
                };
            },
        };
        proof {
            assert(spec_parse_id(id@) == Some(n)) by {
                assert(id@ == dec_rep(n as nat));
                let m = choose|m: u128| id@ == dec_rep(m as nat);
                lemma_dec_rep_canonical(n as nat);
                lemma_dec_rep_canonical(m as nat);
                assert(crate::digits::dec_val(id@) == n as nat);
                assert(crate::digits::dec_val(id@) == m as nat);
            }
        }
        let key = report_key(n);
        match self.cache.get(key.as_str()) {
            Some(cached) => {
                proof {
                    assert(self.cache@.contains_key(spec_report_key(n)));
                }
                let rep = match crate::codec::decode_report(cached.as_str()) {
                    Some(rep) => rep,
                    None => {
                        proof {
                            let rv = choose|rv: ReportView|
                                find_report(self.storage(), n) == Some(rv);
                            assert(cached@ == spec_encode_report(rv));
                            assert(false);
                        }
                        return DefaultReturn {
                            success: false,
                            message: String::new(),
                            payload: None,
                        };
                    },
                };
                proof {
                    let rv = choose|rv: ReportView| find_report(self.storage(), n) == Some(rv);
                    assert(cached@ == spec_encode_report(rv));
                    crate::codec::lemma_encode_report_injective(rep@, rv);
                }
                DefaultReturn {
                    success: true,
                    message: String::from_str("Report exists (cache)"),
                    payload: Some(rep),
                }
            },
            None => {
                match self.find_by_id(n) {
                    Some(rep) => {
                        let enc = crate::codec::encode_report(&rep);
                        let ghost oldcache = self.cache@;
                        self.cache.set(key, enc);
                        proof {
                            lemma_keys();
                            assert(self.cache@ == oldcache.insert(
                                spec_report_key(n),
                                spec_encode_report(rep@),
                            ));
                            assert forall|m: u128| #[trigger]
                                self.cache@.contains_key(spec_report_key(m)) implies (find_report(
                                self.storage(),
                                m,
                            ) matches Some(rv) && self.cache@[spec_report_key(m)]
                                == spec_encode_report(rv)) by {
                                if spec_report_key(m) == spec_report_key(n) {
                                    assert(m == n);
                                } else {
                                    assert(oldcache.contains_key(spec_report_key(m)));
                                }
                            }
                            assert forall|off: nat| #[trigger]
                                self.cache@.contains_key(spec_list_key(off)) implies
                                self.cache@[spec_list_key(off)] == spec_encode_list(
                                spec_window(self.storage(), off),
                            ) by {
                                assert(spec_list_key(off) != spec_report_key(n));
                                assert(oldcache.contains_key(spec_list_key(off)));
                            }
                        }
                        DefaultReturn {
                            success: true,
                            message: String::from_str("Report exists"),
                            payload: Some(rep),
                        }
                    },
                    None => {
                        DefaultReturn {
                            success: false,
                            message: String::from_str("Report does not exist"),
                            payload: None,
                        }
                    },
                }
            },
        }
    }
}


/// The offset a listing request means: absent or negative is zero.
pub open spec fn norm_offset(offset: Option<i32>) -> nat {
    match offset {
        Some(o) => if o > 0 {
            o as nat
        } else {
            0
        },
        None => 0,
    }
}

impl Database {
    fn collect_window(&self, off: usize) -> (v: Vec<Report>)
        requires
            self.wf(),
        ensures
            v.deep_view() == spec_window(self.storage(), off as nat),
    {
        let len = self.reports.len();
        let mut v: Vec<Report> = Vec::new();
        let mut seen: usize = 0;
        let mut i: usize = 0;
        proof {
            assert(self.storage().subrange(0, 0) =~= Seq::<StoredView>::empty());
            assert(active_views(Seq::<StoredView>::empty()) == Seq::<ReportView>::empty());
            assert(v.deep_view() =~= spec_window(self.storage().subrange(0, 0), off as nat));
        }
        while i < len
            invariant
                0 <= i <= len,
                len == self.reports@.len(),
                self.wf(),
                seen as nat == active_views(self.storage().subrange(0, i as int)).len(),
                seen <= i,
                v.len() <= 50,
                v.deep_view() == spec_window(self.storage().subrange(0, i as int), off as nat),
            decreases len - i,
        {
            let ghost pre = self.storage().subrange(0, i as int);
            let ghost rec = self.storage()[i as int];
            let ghost a = active_views(pre);
            proof {
                assert(self.storage().subrange(0, i as int + 1) =~= pre.push(rec));
                lemma_active_views_snoc(pre, rec);
            }
            if self.reports[i].report.status == ReportStatus::Active {
                proof {
                    assert(rec.report.status == ReportStatus::Active);
                    assert(active_views(pre.push(rec)) =~= a.push(rec.report));
                }
                if seen >= off {
                    if v.len() < 50 {
                        let rep = clone_report(&self.reports[i].report);
                        let ghost oldv = v.deep_view();
                        v.push(rep);
                        proof {
                            assert(v.deep_view() =~= oldv.push(rec.report));
                            assert(a.len() >= off as nat);
                            assert(oldv.len() == a.len() - off as nat || oldv.len() == 50);
                            assert(v.deep_view() =~= spec_window(pre.push(rec), off as nat)) by {
                                let a2 = a.push(rec.report);
                                assert(a2.len() == a.len() + 1);
                                if a.len() == off as nat {
                                    assert(oldv =~= Seq::<ReportView>::empty());
                                    assert(a2.subrange(off as int, off as int + 1) =~= oldv.push(
                                        rec.report,
                                    ));
                                } else {
                                    assert(oldv =~= a.subrange(off as int, a.len() as int));
                                    assert(a2.subrange(off as int, a2.len() as int) =~= oldv.push(
                                        rec.report,
                                    ));
                                }
                            }
                        }
                    } else {
                        proof {
                            assert(v.deep_view().len() == 50);
                            assert(a.len() >= off as nat + 50);
                            let a2 = a.push(rec.report);
                            assert(a2.subrange(off as int, off as int + 50) =~= a.subrange(
                                off as int,
                                off as int + 50,
                            ));
                            assert(v.deep_view() == spec_window(pre.push(rec), off as nat));
                        }
                    }
                } else {
                    proof {
                        assert(a.len() < off as nat);
                        assert(v.deep_view() =~= Seq::<ReportView>::empty());
                        assert(v.deep_view() == spec_window(pre.push(rec), off as nat));
                    }
                }
                seen = seen + 1;
            } else {
                proof {
                    assert(active_views(pre.push(rec)) =~= a);
                    assert(spec_window(pre.push(rec), off as nat) == spec_window(
                        pre,
                        off as nat,
                    ));
                }
            }
            i = i + 1;
        }
        proof {
            assert(self.storage().subrange(0, len as int) =~= self.storage());
        }
        v
    }

    /// List one page of active reports, most recent first: from the
    /// cache when that window is warm, else from the rows, warming the
    /// cache at that window's key. A missing or negative offset reads
    /// as zero.
    pub fn get_all_reports(&mut self, offset: Option<i32>) -> (r: DefaultReturn<Vec<Report>>)
        requires
            old(self).wf(),
        ensures
            final(self).wf(),
            final(self).storage() == old(self).storage(),
            final(self).spec_next_id() == old(self).spec_next_id(),
            r.success,
            r.message@ == "Found reports"@,
            r.payload matches Some(v) && v.deep_view() == spec_window(
                old(self).storage(),
                norm_offset(offset),
            ),
            r.payload matches Some(v) && tsorted(v.deep_view()),
            old(self).cache_map().contains_key(spec_list_key(norm_offset(offset)))
                ==> *final(self) == *old(self),
            !old(self).cache_map().contains_key(spec_list_key(norm_offset(offset)))
                ==> final(self).cache_map() == old(self).cache_map().insert(
                spec_list_key(norm_offset(offset)),
                spec_encode_list(spec_window(old(self).storage(), norm_offset(offset))),
            ),
    {
        let off: usize = match offset {
            Some(o) => if o > 0 {
                o as usize
            } else {
                0
            },
            None => 0,
        };
        proof {
            assert(off as nat == norm_offset(offset));
            lemma_active_views_tsorted(old(self).storage());
            assert forall|i: int, j: int|
                0 <= i < j < spec_window(old(self).storage(), off as nat).len() implies
                spec_window(old(self).storage(), off as nat)[i].timestamp >= spec_window(
                old(self).storage(),
                off as nat,
            )[j].timestamp by {
                let a = active_views(old(self).storage());
                assert(spec_window(old(self).storage(), off as nat)[i] == a[off + i]);
                assert(spec_window(old(self).storage(), off as nat)[j] == a[off + j]);
            }
        }
        let key = list_key(off);
        match self.cache.get(key.as_str()) {
            Some(cached) => {
                proof {
                    assert(self.cache@.contains_key(spec_list_key(off as nat)));
                    assert(cached@ == spec_encode_list(spec_window(self.storage(), off as nat)));
                }
                match crate::codec::decode_report_list(cached.as_str()) {
                    Some(v) => {
                        proof {
                            assert(cached@ == spec_encode_list(v.deep_view()));
                            crate::codec::lemma_encode_list_injective(
                                v.deep_view(),
                                spec_window(self.storage(), off as nat),
                            );
                        }
                        DefaultReturn {
                            success: true,
                            message: String::from_str("Found reports"),
                            payload: Some(v),
                        }
                    },
                    None => {
                        proof {
                            assert(false);
                        }
                        DefaultReturn { success: false, message: String::new(), payload: None }
                    },
                }
            },
            None => {
                let v = self.collect_window(off);
                let enc = crate::codec::encode_report_list(&v);
                let out = clone_report_vec(&v);
                let ghost oldcache = self.cache@;
                self.cache.set(key, enc);
                proof {
                    lemma_keys();
                    assert(self.cache@ == oldcache.insert(
                        spec_list_key(off as nat),
                        spec_encode_list(spec_window(self.storage(), off as nat)),
                    ));
                    assert forall|m: u128| #[trigger]
                        self.cache@.contains_key(spec_report_key(m)) implies (find_report(
                        self.storage(),
                        m,
                    ) matches Some(rv) && self.cache@[spec_report_key(m)] == spec_encode_report(
                        rv,
                    )) by {
                        assert(spec_report_key(m) != spec_list_key(off as nat));
                        assert(oldcache.contains_key(spec_report_key(m)));
                    }
                    assert forall|o2: nat| #[trigger]
                        self.cache@.contains_key(spec_list_key(o2)) implies self.cache@[
                        spec_list_key(o2)] == spec_encode_list(
                        spec_window(self.storage(), o2),
                    ) by {
                        if spec_list_key(o2) == spec_list_key(off as nat) {
                            assert(o2 == off as nat);
                        } else {
                            assert(oldcache.contains_key(spec_list_key(o2)));
                        }
                    }
                }
                DefaultReturn {
                    success: true,
                    message: String::from_str("Found reports"),
                    payload: Some(out),
                }
            },
        }
    }
}

/// A field-for-field copy of a page of reports.
fn clone_report_vec(v: &Vec<Report>) -> (out: Vec<Report>)
    ensures
        out.deep_view() == v.deep_view(),
{
    let mut out: Vec<Report> = Vec::new();
    let mut i: usize = 0;
    proof {
        assert(out.deep_view() =~= v.deep_view().subrange(0, 0));
    }
    while i < v.len()
        invariant
            0 <= i <= v.len(),
            out.deep_view() == v.deep_view().subrange(0, i as int),
        decreases v.len() - i,
    {
        let ghost oldd = out.deep_view();
        out.push(clone_report(&v[i]));
        proof {
            assert(out.deep_view() =~= oldd.push(v@[i as int]@));
            assert(v.deep_view()[i as int] == v@[i as int]@);
            assert(out.deep_view() =~= v.deep_view().subrange(0, i as int + 1));
        }
        i = i + 1;
    }
    proof {
        assert(v.deep_view().subrange(0, v@.len() as int) =~= v.deep_view());
    }
    out
}


/// A cache with every listing window dropped and nothing else touched.
pub open spec fn purge_listings(m: Map<Seq<char>, Seq<char>>) -> Map<Seq<char>, Seq<char>> {
    Map::new(
        |k: Seq<char>| m.contains_key(k) && !spec_starts_with(k, spec_list_prefix()),
        |k: Seq<char>| m[k],
    )
}

/// What a successful create leaves behind: the echoed report with
/// status forced to Active and the stamp `now`, filed under the next
/// identifier in listing order, with every cached listing window
/// dropped and the rest of the cache untouched.
pub open spec fn create_success(
    pre: Database,
    post: Database,
    props: ReportView,
    now: u128,
    r: DefaultReturn<Report>,
) -> bool {
    let stamped = ReportView { status: ReportStatus::Active, timestamp: now, ..props };
    let rec = StoredView { id: pre.spec_next_id(), report: stamped };
    &&& r.success
    &&& r.message@ == "Content reported."@
    &&& (r.payload matches Some(rep) && rep@ == stamped)
    &&& post.storage() == insert_desc(pre.storage(), rec)
    &&& post.spec_next_id() == pre.spec_next_id() + 1
    &&& post.cache_map() == purge_listings(pre.cache_map())
}

fn list_prefix_text() -> (p: String)
    ensures
        p@ == spec_list_prefix(),
{
    String::from_str("reports:offset")
}

impl Database {
    /// File a report at a known instant: validate the content length,
    /// force the status to Active, stamp `now`, insert the row, and
    /// drop every cached listing window. Rejected content touches
    /// neither rows nor cache.
    pub fn create_report_at(&mut self, props: &Report, now: u128) -> (r: DefaultReturn<Report>)
        requires
            old(self).wf(),
        ensures
            final(self).wf(),
            !(1 <= props@.content.len() <= 2000) ==> (!r.success && r.message@
                == "Content is invalid"@ && r.payload is None && *final(self) == *old(self)),
            (1 <= props@.content.len() <= 2000 && old(self).spec_next_id() == u128::MAX) ==> (
            !r.success && r.message@ == "Storage error"@ && r.payload is None && *final(self)
                == *old(self)),
            (1 <= props@.content.len() <= 2000 && old(self).spec_next_id() < u128::MAX)
                ==> create_success(*old(self), *final(self), props@, now, r),
    {
        let clen = props.content.unicode_len();
        if clen < 1 || clen > 2000 {
            return DefaultReturn {
                success: false,
                message: String::from_str("Content is invalid"),
                payload: None,
            };
        }
        if self.next_id == u128::MAX {
            return DefaultReturn {
                success: false,
                message: String::from_str("Storage error"),
                payload: None,
            };
        }
        let id = self.next_id;
        let stamped = Report {
            report_type: props.report_type,
            status: ReportStatus::Active,
            author: props.author.clone(),
            content: props.content.clone(),
            address: props.address.clone(),
            timestamp: now,
        };
        let ghost olddb = *self;
        let ghost rec = StoredView { id: id, report: stamped@ };
        let len = self.reports.len();
        let mut idx: usize = 0;
        while idx < len && self.reports[idx].report.timestamp > now
            invariant
                0 <= idx <= len,
                len == self.reports@.len(),
                *self == olddb,
                forall|k: int|
                    0 <= k < idx ==> #[trigger] self.storage()[k].report.timestamp > now,
            decreases len - idx,
        {
            idx = idx + 1;
        }
        let row = StoredReport { id: id, report: clone_report(&stamped) };
        self.reports.insert(idx, row);
        self.next_id = id + 1;
        let prefix = list_prefix_text();
        let ghost midcache = self.cache@;
        self.cache.remove_starting_with(prefix.as_str());
        proof {
            lemma_keys();
            assert(row@ == rec);
            assert(idx < len ==> olddb.storage()[idx as int].report.timestamp <= now);
            assert forall|i: int| 0 <= i < olddb.storage().len() implies #[trigger] olddb.storage()[
                i].id < rec.id by {}
            lemma_insert_desc_at(olddb.storage(), rec, idx as int);
            lemma_insert_desc(olddb.storage(), rec);
            assert(self.storage() =~= olddb.storage().subrange(0, idx as int) + seq![rec]
                + olddb.storage().subrange(idx as int, olddb.storage().len() as int)) by {
                assert(self.reports@ == olddb.reports@.insert(idx as int, row));
            }
            assert(self.storage() == insert_desc(olddb.storage(), rec));
            // the store keeps order, unique identifiers, and the bound
            assert(sorted_desc(self.storage()));
            assert(ids_uniq(self.storage()));
            assert forall|i: int| 0 <= i < self.storage().len() implies (#[trigger] self.storage()[
                i].id) < self.next_id by {}
            // every surviving cache entry still tells the truth
            assert(self.cache@ =~= purge_listings(olddb.cache@)) by {
                assert(midcache == olddb.cache@);
            }
            assert forall|n: u128| #[trigger]
                self.cache@.contains_key(spec_report_key(n)) implies (find_report(
                self.storage(),
                n,
            ) matches Some(rv) && self.cache@[spec_report_key(n)] == spec_encode_report(rv)) by {
                assert(olddb.cache@.contains_key(spec_report_key(n)));
                let rv = choose|rv: ReportView| find_report(olddb.storage(), n) == Some(rv);
                lemma_find_report(olddb.storage(), n);
                let w = choose|w: int|
                    0 <= w < olddb.storage().len() && olddb.storage()[w].id == n;
                assert(olddb.storage()[w].id < rec.id);
                assert(n != rec.id);
                assert(find_report(self.storage(), n) == find_report(olddb.storage(), n));
            }
            assert forall|off: nat| #[trigger]
                self.cache@.contains_key(spec_list_key(off)) implies self.cache@[spec_list_key(
                off,
            )] == spec_encode_list(spec_window(self.storage(), off)) by {
                assert(spec_starts_with(spec_list_key(off), spec_list_prefix()));
                assert(!purge_listings(olddb.cache@).contains_key(spec_list_key(off)));
            }
        }
        DefaultReturn {
            success: true,
            message: String::from_str("Content reported."),
            payload: Some(stamped),
        }
    }

    /// File a report stamped with the clock as it reads now.
    pub fn create_report(&mut self, props: &Report) -> (r: DefaultReturn<Report>)
        requires
            old(self).wf(),
        ensures
            final(self).wf(),
            !(1 <= props@.content.len() <= 2000) ==> (!r.success && r.message@
                == "Content is invalid"@ && r.payload is None && *final(self) == *old(self)),
            (1 <= props@.content.len() <= 2000 && old(self).spec_next_id() == u128::MAX) ==> (
            !r.success && r.message@ == "Storage error"@ && r.payload is None && *final(self)
                == *old(self)),
            (1 <= props@.content.len() <= 2000 && old(self).spec_next_id() < u128::MAX)
                ==> exists|now: u128|
                #[trigger] create_success(*old(self), *final(self), props@, now, r),
    {
        let now = epoch_now();
        let r = self.create_report_at(props, now);
        proof {
            if 1 <= props@.content.len() <= 2000 && old(self).spec_next_id() < u128::MAX {
                assert(create_success(*old(self), *self, props@, now, r));
            }
        }
        r
    }
}

/// Relies on dorsal's `utility::unix_epoch_timestamp`: the wall clock
/// as epoch milliseconds. Nothing is assumed of the value; callers
/// state what holds for every reading. The call expects a clock at or
/// after the epoch.
#[verifier::external_body]
pub(crate) fn epoch_now() -> u128 {
    dorsal::utility::unix_epoch_timestamp()
}


/// What a successful status edit leaves behind: the one row rewritten,
/// its cache entry rewritten to match, and every cached listing window
/// dropped so no window can show the old status.
pub open spec fn edit_success(
    pre: Database,
    post: Database,
    n: u128,
    st: ReportStatus,
) -> bool {
    &&& post.storage() == set_status(pre.storage(), n, st)
    &&& post.spec_next_id() == pre.spec_next_id()
    &&& (find_report(pre.storage(), n) matches Some(rv) && post.cache_map() == purge_listings(
        pre.cache_map(),
    ).insert(spec_report_key(n), spec_encode_report(ReportView { status: st, ..rv })))
}

impl Database {
    fn index_of_id(&self, n: u128) -> (pos: usize)
        requires
            self.wf(),
            find_report(self.storage(), n) is Some,
        ensures
            pos < self.reports@.len(),
            self.storage()[pos as int].id == n,
    {
        let len = self.reports.len();
        let mut i: usize = 0;
        while i < len
            invariant
                0 <= i <= len,
                len == self.reports@.len(),
                self.wf(),
                find_report(self.storage(), n) is Some,
                forall|j: int| 0 <= j < i ==> self.storage()[j].id != n,
            decreases len - i,
        {
            if self.reports[i].id == n {
                return i;
            }
            i = i + 1;
        }
        proof {
            lemma_find_report(self.storage(), n);
            let j = choose|j: int| 0 <= j < self.storage().len() && self.storage()[j].id == n;
            assert(false);
        }
        0
    }

    /// Re-classify a report: look it up (which may warm its cache
    /// entry), require the caller to hold the moderation permission,
    /// rewrite the row's status, rewrite the cache entry to match, and
    /// drop every cached listing window, so an archived or spammed
    /// report leaves the active view at once. A missing report fails
    /// before any authorization is considered; a refused caller
    /// changes nothing but the warmed entry.
    pub fn edit_report_status_by_id(
        &mut self,
        id: String,
        status: ReportStatus,
        edit_as: Option<FullUser>,
    ) -> (r: DefaultReturn<String>)
        requires
            old(self).wf(),
        ensures
            final(self).wf(),
            spec_lookup(old(self).storage(), id@) is None ==> (!r.success && r.message@
                == "Report does not exist!"@ && r.payload is None && *final(self) == *old(self)),
            (spec_lookup(old(self).storage(), id@) is Some && !spec_is_authorized(edit_as)) ==> {
                &&& !r.success
                &&& r.message@ == "You are not allowed to do this."@
                &&& r.payload is None
                &&& final(self).storage() == old(self).storage()
                &&& final(self).spec_next_id() == old(self).spec_next_id()
                &&& forall|n: u128|
                    spec_parse_id(id@) == Some(n) ==> match find_report(old(self).storage(), n) {
                        Some(rv) => {
                            &&& (old(self).cache_map().contains_key(spec_report_key(n))
                                ==> final(self).cache_map() == old(self).cache_map())
                            &&& (!old(self).cache_map().contains_key(spec_report_key(n))
                                ==> final(self).cache_map() == old(self).cache_map().insert(
                                spec_report_key(n),
                                spec_encode_report(rv),
                            ))
                        },
                        None => false,
                    }
            },
            (spec_lookup(old(self).storage(), id@) is Some && spec_is_authorized(edit_as)) ==> {
                &&& r.success
                &&& r.message@ == "Report updated!"@
                &&& (r.payload matches Some(p) && p@ == id@)
                &&& forall|n: u128|
                    spec_parse_id(id@) == Some(n) ==> edit_success(
                        *old(self),
                        *final(self),
                        n,
                        status,
                    )
            },
    {
        let existing = self.get_report_by_id(id.clone());
        if !existing.success {
            return DefaultReturn {
                success: false,
                message: String::from_str("Report does not exist!"),
                payload: None,
            };
        }
        let ghost middb = *self;
        if !crate::auth::is_authorized(&edit_as) {
            return DefaultReturn {
                success: false,
                message: String::from_str("You are not allowed to do this."),
                payload: None,
            };
        }
        let n = match crate::digits::parse_u128_dec(id.as_str()) {
            Some(n) => n,
            None => {
                proof {
                    assert(spec_parse_id(id@) is Some);
                    let m = choose|m: u128| id@ == dec_rep(m as nat);
                    assert(false);
                }
                return DefaultReturn { success: false, message: String::new(), payload: None };
            },
        };
        proof {
            assert(spec_parse_id(id@) == Some(n)) by {
                let m = choose|m: u128| id@ == dec_rep(m as nat);
                lemma_dec_rep_canonical(n as nat);
                lemma_dec_rep_canonical(m as nat);
                assert(crate::digits::dec_val(id@) == n as nat);
                assert(crate::digits::dec_val(id@) == m as nat);
            }
            assert(find_report(middb.storage(), n) is Some);
        }
        let pos = self.index_of_id(n);
        let mut row = self.reports.remove(pos);
        row.report.status = status;
        let updated = clone_report(&row.report);
        self.reports.insert(pos, row);
        let ghost rv_old = find_report(middb.storage(), n)->Some_0;
        proof {
            lemma_find_report(middb.storage(), n);
            lemma_set_status(middb.storage(), n, status);
            assert(self.storage() =~= set_status(middb.storage(), n, status)) by {
                assert(self.reports@ == middb.reports@.remove(pos as int).insert(
                    pos as int,
                    StoredReport {
                        id: middb.reports@[pos as int].id,
                        report: Report { status, ..middb.reports@[pos as int].report },
                    },
                )) by {}
                assert forall|w: int|
                    0 <= w < self.storage().len() implies self.storage()[w] == set_status(
                    middb.storage(),
                    n,
                    status,
                )[w] by {
                    if w != pos as int {
                        assert(middb.storage()[w].id != n);
                    }
                }
            }
            assert(updated@ == ReportView { status: status, ..rv_old }) by {
                assert(middb.storage()[pos as int].report == rv_old);
            }
        }
        let key = report_key(n);
        let enc = crate::codec::encode_report(&updated);
        let ghost cache_mid = self.cache@;
        self.cache.update(key, enc);
        let prefix = list_prefix_text();
        let ghost cache_upd = self.cache@;
        self.cache.remove_starting_with(prefix.as_str());
        proof {
            lemma_keys();
            assert(cache_mid == middb.cache@);
            assert(cache_upd == middb.cache@.insert(
                spec_report_key(n),
                spec_encode_report(updated@),
            ));
            // the final cache: listing windows gone, the one entry rewritten
            assert(self.cache@ =~= purge_listings(middb.cache@).insert(
                spec_report_key(n),
                spec_encode_report(updated@),
            )) by {
                assert(!spec_starts_with(spec_report_key(n), spec_list_prefix()));
            }
            // coherence against the rewritten rows
            assert forall|m: u128| #[trigger]
                self.cache@.contains_key(spec_report_key(m)) implies (find_report(
                self.storage(),
                m,
            ) matches Some(rv) && self.cache@[spec_report_key(m)] == spec_encode_report(rv)) by {
                if spec_report_key(m) == spec_report_key(n) {
                    assert(m == n);
                    assert(find_report(self.storage(), n) == Some(updated@));
                } else {
                    assert(m != n);
                    assert(middb.cache@.contains_key(spec_report_key(m)));
                    assert(find_report(self.storage(), m) == find_report(middb.storage(), m));
                }
            }
            assert forall|off: nat| #[trigger]
                self.cache@.contains_key(spec_list_key(off)) implies self.cache@[spec_list_key(
                off,
            )] == spec_encode_list(spec_window(self.storage(), off)) by {
                assert(spec_starts_with(spec_list_key(off), spec_list_prefix()));
                assert(spec_list_key(off) != spec_report_key(n));
            }
            // tie the two halves of the walk together
            assert(middb.storage() == old(self).storage());
            assert(edit_success(*old(self), *self, n, status)) by {
                assert(find_report(old(self).storage(), n) == Some(rv_old));
                assert(purge_listings(middb.cache@).insert(
                    spec_report_key(n),
                    spec_encode_report(updated@),
                ) =~= purge_listings(old(self).cache_map()).insert(
                    spec_report_key(n),
                    spec_encode_report(ReportView { status: status, ..rv_old }),
                ));
            }
        }
        DefaultReturn {
            success: true,
            message: String::from_str("Report updated!"),
            payload: Some(id),
        }
    }
}

} // verus!
