use de_reports::auth::is_authorized;
use de_reports::auth::FullUser;
use de_reports::db::Database;
use de_reports::OffsetQueryProps;
use de_reports::PCreateReport;
use de_reports::PEditStatus;
use de_reports::Report;
use de_reports::ReportStatus;
use de_reports::ReportType;

fn staff() -> Option<FullUser> {
    Some(FullUser {
        username: String::from("mod"),
        permissions: vec![String::from("ManagePastes"), String::from("StaffDashboard")],
    })
}

fn bystander() -> Option<FullUser> {
    Some(FullUser {
        username: String::from("someone"),
        permissions: vec![String::from("ManagePastes")],
    })
}

fn props(content: &str, address: &str) -> PCreateReport {
    PCreateReport {
        report_type: ReportType::Other,
        content: String::from(content),
        address: String::from(address),
    }
}

fn assert_report_eq(a: &Report, b: &Report) {
    assert!(a.report_type == b.report_type);
    assert!(a.status == b.status);
    assert_eq!(a.author, b.author);
    assert_eq!(a.content, b.content);
    assert_eq!(a.address, b.address);
    assert_eq!(a.timestamp, b.timestamp);
}

#[test]
fn gate_requires_presence_and_the_permission() {
    assert!(!is_authorized(&None));
    assert!(!is_authorized(&bystander()));
    assert!(is_authorized(&staff()));
}

#[test]
fn valid_submission_succeeds_with_forced_status_and_stamp() {
    let mut db = Database::new();
    // the caller asks for Spam; creation forces Active
    let asked = Report {
        report_type: ReportType::Abuse,
        status: ReportStatus::Spam,
        author: String::from("alice"),
        content: String::from("x"),
        address: String::from("http://a"),
        timestamp: 77,
    };
    let r = db.create_report_at(&asked, 1000);
    assert!(r.success);
    assert_eq!(r.message, "Content reported.");
    let stored = r.payload.expect("a validated submission returns the report");
    assert!(stored.status == ReportStatus::Active);
    assert_eq!(stored.timestamp, 1000);
    assert_eq!(stored.author, "alice");
}

#[test]
fn submission_boundaries_one_and_two_thousand() {
    let mut db = Database::new();
    let one = db.submit_report_at(props("a", "http://a"), String::new(), 1);
    assert!(one.success);
    let big = "b".repeat(2000);
    let two = db.submit_report_at(props(&big, "http://b"), String::new(), 2);
    assert!(two.success);
}

#[test]
fn invalid_content_is_rejected_without_side_effects() {
    let mut db = Database::new();
    let empty = db.submit_report_at(props("", "http://a"), String::new(), 5);
    assert!(!empty.success);
    assert_eq!(empty.message, "Content is invalid");
    assert!(empty.payload.is_none());
    let too_long = "c".repeat(2001);
    let long = db.submit_report_at(props(&too_long, "http://a"), String::new(), 6);
    assert!(!long.success);
    assert_eq!(long.message, "Content is invalid");
    // nothing was stored and no listing was invalidated: the view is empty
    let listing = db.list_active_reports(&OffsetQueryProps { offset: None });
    assert!(listing.success);
    assert_eq!(listing.payload.expect("listing returns a page").len(), 0);
    // a rejected submission assigned no identifier: the next report is id 1
    let ok = db.submit_report_at(props("fine", "http://a"), String::new(), 7);
    assert!(ok.success);
    assert!(db.get_report(String::from("1")).success);
}

#[test]
fn monotone_stamps_across_submissions() {
    let mut db = Database::new();
    let a = db.submit_report_at(props("first", "http://a"), String::new(), 100);
    let b = db.submit_report_at(props("second", "http://b"), String::new(), 250);
    let ta = a.payload.expect("first submission stores").timestamp;
    let tb = b.payload.expect("second submission stores").timestamp;
    assert!(ta <= tb);
    assert_eq!(ta, 100);
    assert_eq!(tb, 250);
}

#[test]
fn repeated_reads_are_bit_identical() {
    let mut db = Database::new();
    let r = db.submit_report_at(props("look at this", "http://a"), String::from("alice"), 9);
    assert!(r.success);
    // first read misses the cache and warms it; the second hits
    let first = db.get_report(String::from("1"));
    let second = db.get_report(String::from("1"));
    assert!(first.success && second.success);
    assert_eq!(first.message, "Report exists");
    assert_eq!(second.message, "Report exists (cache)");
    let p1 = first.payload.expect("the report exists");
    let p2 = second.payload.expect("the report exists");
    assert_report_eq(&p1, &p2);
    assert_eq!(p1.content, "look at this");
}

#[test]
fn only_canonical_id_text_names_a_report() {
    let mut db = Database::new();
    db.submit_report_at(props("x", "http://a"), String::new(), 1);
    assert!(db.get_report(String::from("1")).success);
    let padded = db.get_report(String::from("01"));
    assert!(!padded.success);
    assert_eq!(padded.message, "Report does not exist");
    assert!(!db.get_report(String::from("one")).success);
    assert!(!db.get_report(String::from("2")).success);
}

#[test]
fn authorized_edit_is_visible_to_the_next_read() {
    let mut db = Database::new();
    db.submit_report_at(props("bad stuff", "http://a"), String::new(), 1);
    let edit = db.set_report_status(
        String::from("1"),
        PEditStatus { status: ReportStatus::Archived },
        staff(),
    );
    assert!(edit.success);
    assert_eq!(edit.message, "Report updated!");
    assert_eq!(edit.payload, Some(String::from("1")));
    let read = db.get_report(String::from("1"));
    let rep = read.payload.expect("the report still exists");
    assert!(rep.status == ReportStatus::Archived);
    assert_eq!(rep.content, "bad stuff");
}

#[test]
fn refused_callers_change_nothing() {
    let mut db = Database::new();
    db.submit_report_at(props("bad stuff", "http://a"), String::new(), 1);
    for caller in [None, bystander()] {
        let edit = db.set_report_status(
            String::from("1"),
            PEditStatus { status: ReportStatus::Archived },
            caller,
        );
        assert!(!edit.success);
        assert_eq!(edit.message, "You are not allowed to do this.");
        assert!(edit.payload.is_none());
        let read = db.get_report(String::from("1"));
        let rep = read.payload.expect("the report still exists");
        assert!(rep.status == ReportStatus::Active);
    }
}

#[test]
fn missing_id_fails_before_authorization() {
    let mut db = Database::new();
    db.submit_report_at(props("x", "http://a"), String::new(), 1);
    // the same answer whether the caller is staff, a bystander or absent
    for caller in [staff(), bystander(), None] {
        let edit = db.set_report_status(
            String::from("999"),
            PEditStatus { status: ReportStatus::Spam },
            caller,
        );
        assert!(!edit.success);
        assert_eq!(edit.message, "Report does not exist!");
        assert!(edit.payload.is_none());
    }
}

#[test]
fn listing_tracks_submissions_edits_and_order() {
    let mut db = Database::new();
    let a = db.submit_report_at(props("spam link", "http://x"), String::new(), 10);
    assert!(a.success);

    let page = db.list_active_reports(&OffsetQueryProps { offset: Some(0) });
    let v = page.payload.expect("listing returns a page");
    assert_eq!(v.len(), 1);
    assert_eq!(v[0].content, "spam link");
    assert_eq!(v[0].address, "http://x");
    assert!(v[0].status == ReportStatus::Active);

    let b = db.submit_report_at(props("second report", "http://y"), String::new(), 20);
    assert!(b.success);
    let page = db.list_active_reports(&OffsetQueryProps { offset: Some(0) });
    let v = page.payload.expect("listing returns a page");
    assert_eq!(v.len(), 2);
    // most recent first
    assert_eq!(v[0].content, "second report");
    assert_eq!(v[1].content, "spam link");

    // an authorized caller flags the first report as spam; the active
    // view reflects that at once, because every status edit drops the
    // cached listing windows
    let edit = db.set_report_status(
        String::from("1"),
        PEditStatus { status: ReportStatus::Spam },
        staff(),
    );
    assert!(edit.success);
    let page = db.list_active_reports(&OffsetQueryProps { offset: Some(0) });
    let v = page.payload.expect("listing returns a page");
    assert_eq!(v.len(), 1);
    assert_eq!(v[0].content, "second report");
}

#[test]
fn equal_stamps_list_the_later_submission_first() {
    let mut db = Database::new();
    db.submit_report_at(props("first", "http://a"), String::new(), 5);
    db.submit_report_at(props("second", "http://b"), String::new(), 5);
    let page = db.list_active_reports(&OffsetQueryProps { offset: None });
    let v = page.payload.expect("listing returns a page");
    assert_eq!(v.len(), 2);
    assert_eq!(v[0].content, "second");
    assert_eq!(v[1].content, "first");
}

#[test]
fn offsets_skip_from_the_top_and_negatives_read_as_zero() {
    let mut db = Database::new();
    db.submit_report_at(props("oldest", "http://a"), String::new(), 1);
    db.submit_report_at(props("middle", "http://b"), String::new(), 2);
    db.submit_report_at(props("newest", "http://c"), String::new(), 3);

    let page = db.list_active_reports(&OffsetQueryProps { offset: Some(1) });
    let v = page.payload.expect("listing returns a page");
    assert_eq!(v.len(), 2);
    assert_eq!(v[0].content, "middle");
    assert_eq!(v[1].content, "oldest");

    let neg = db.list_active_reports(&OffsetQueryProps { offset: Some(-7) });
    let v = neg.payload.expect("listing returns a page");
    assert_eq!(v.len(), 3);
    assert_eq!(v[0].content, "newest");

    let beyond = db.list_active_reports(&OffsetQueryProps { offset: Some(50) });
    assert_eq!(beyond.payload.expect("listing returns a page").len(), 0);
}

#[test]
fn a_window_holds_at_most_fifty_reports() {
    let mut db = Database::new();
    for i in 0..55u32 {
        let r = db.submit_report_at(
            props(&format!("report number {}", i), "http://many"),
            String::new(),
            u128::from(i),
        );
        assert!(r.success);
    }
    let page = db.list_active_reports(&OffsetQueryProps { offset: Some(0) });
    let v = page.payload.expect("listing returns a page");
    assert_eq!(v.len(), 50);
    assert_eq!(v[0].content, "report number 54");
    let rest = db.list_active_reports(&OffsetQueryProps { offset: Some(50) });
    let v = rest.payload.expect("listing returns a page");
    assert_eq!(v.len(), 5);
    assert_eq!(v[4].content, "report number 0");
}

#[test]
fn cached_windows_serve_reads_until_a_write_drops_them() {
    let mut db = Database::new();
    db.submit_report_at(props("only", "http://a"), String::new(), 1);
    let first = db.list_active_reports(&OffsetQueryProps { offset: None });
    let second = db.list_active_reports(&OffsetQueryProps { offset: None });
    let v1 = first.payload.expect("listing returns a page");
    let v2 = second.payload.expect("listing returns a page");
    assert_eq!(v1.len(), v2.len());
    assert_report_eq(&v1[0], &v2[0]);
}

#[test]
fn clock_backed_submission_stamps_the_current_instant() {
    let mut db = Database::new();
    let r = db.submit_report(props("filed against the wall clock", "http://a"), String::new());
    assert!(r.success);
    let rep = r.payload.expect("a validated submission returns the report");
    assert!(rep.status == ReportStatus::Active);
    // epoch milliseconds of any present-day clock: after 2020, before 2100
    assert!(rep.timestamp > 1_577_836_800_000);
    assert!(rep.timestamp < 4_102_444_800_000);
    // and the stored row is readable back under its id
    let read = db.get_report(String::from("1"));
    assert_eq!(
        read.payload.expect("the report exists").timestamp,
        rep.timestamp
    );
}

#[test]
fn clock_backed_create_rejects_invalid_content_too() {
    let mut db = Database::new();
    let asked = Report {
        report_type: ReportType::Harmful,
        status: ReportStatus::Active,
        author: String::new(),
        content: String::new(),
        address: String::from("http://a"),
        timestamp: 0,
    };
    let r = db.create_report(&asked);
    assert!(!r.success);
    assert_eq!(r.message, "Content is invalid");
}

#[test]
fn empty_and_odd_id_text_is_not_found() {
    let mut db = Database::new();
    db.submit_report_at(props("x", "http://a"), String::new(), 1);
    for id in ["", " 1", "1 ", "+1", "1.0"] {
        let read = db.get_report(String::from(id));
        assert!(!read.success);
        assert_eq!(read.message, "Report does not exist");
    }
}
