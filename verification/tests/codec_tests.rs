use de_reports::codec::decode_report;
use de_reports::codec::decode_report_list;
use de_reports::codec::encode_report;
use de_reports::codec::encode_report_list;
use de_reports::codec::status_of_tag;
use de_reports::codec::status_tag;
use de_reports::codec::type_of_tag;
use de_reports::codec::type_tag;
use de_reports::digits::parse_u128_dec;
use de_reports::digits::u128_to_dec;
use de_reports::Report;
use de_reports::ReportStatus;
use de_reports::ReportType;

fn sample_report() -> Report {
    Report {
        report_type: ReportType::Harassment,
        status: ReportStatus::Active,
        author: String::from("alice"),
        content: String::from("some rule-breaking content: 1:2:3"),
        address: String::from("http://example.invalid/page"),
        timestamp: 1_700_000_000_123u128,
    }
}

fn assert_report_eq(a: &Report, b: &Report) {
    assert!(a.report_type == b.report_type);
    assert!(a.status == b.status);
    assert_eq!(a.author, b.author);
    assert_eq!(a.content, b.content);
    assert_eq!(a.address, b.address);
    assert_eq!(a.timestamp, b.timestamp);
}

#[test]
fn type_tags_round_trip() {
    let all = [
        ReportType::Harassment,
        ReportType::Abuse,
        ReportType::Illegal,
        ReportType::Harmful,
        ReportType::Other,
    ];
    for t in all {
        let tag = type_tag(t);
        assert_eq!(type_of_tag(tag.as_str()), Some(t));
    }
    assert_eq!(type_tag(ReportType::Abuse), "Abuse");
}

#[test]
fn status_tags_round_trip() {
    let all = [ReportStatus::Active, ReportStatus::Archived, ReportStatus::Spam];
    for s in all {
        let tag = status_tag(s);
        assert_eq!(status_of_tag(tag.as_str()), Some(s));
    }
    assert_eq!(status_tag(ReportStatus::Archived), "Archived");
}

#[test]
fn unknown_tags_fail_closed() {
    assert_eq!(type_of_tag("Unknown"), None);
    assert_eq!(type_of_tag(""), None);
    assert_eq!(type_of_tag("harassment"), None);
    assert_eq!(status_of_tag("active"), None);
    assert_eq!(status_of_tag("Deleted"), None);
    assert_eq!(status_of_tag(""), None);
}

#[test]
fn decimal_encoding_is_canonical() {
    assert_eq!(u128_to_dec(0), "0");
    assert_eq!(u128_to_dec(7), "7");
    assert_eq!(u128_to_dec(12345), "12345");
    assert_eq!(u128_to_dec(u128::MAX), "340282366920938463463374607431768211455");
}

#[test]
fn decimal_parsing_accepts_exactly_canonical_text() {
    assert_eq!(parse_u128_dec("0"), Some(0));
    assert_eq!(parse_u128_dec("12345"), Some(12345));
    assert_eq!(
        parse_u128_dec("340282366920938463463374607431768211455"),
        Some(u128::MAX)
    );
    // one past the largest value overflows
    assert_eq!(parse_u128_dec("340282366920938463463374607431768211456"), None);
    assert_eq!(parse_u128_dec(""), None);
    assert_eq!(parse_u128_dec("007"), None);
    assert_eq!(parse_u128_dec("00"), None);
    assert_eq!(parse_u128_dec("1x2"), None);
    assert_eq!(parse_u128_dec("-1"), None);
    assert_eq!(parse_u128_dec(" 1"), None);
}

#[test]
fn report_round_trip() {
    let r = sample_report();
    let text = encode_report(&r);
    let back = decode_report(text.as_str()).expect("an encoded report decodes");
    assert_report_eq(&r, &back);
}

#[test]
fn report_round_trip_empty_author_and_unicode_content() {
    let r = Report {
        report_type: ReportType::Other,
        status: ReportStatus::Spam,
        author: String::new(),
        content: String::from("héllo ☂ report"),
        address: String::from(""),
        timestamp: 0,
    };
    let text = encode_report(&r);
    let back = decode_report(text.as_str()).expect("an encoded report decodes");
    assert_report_eq(&r, &back);
}

#[test]
fn garbage_report_text_fails_closed() {
    assert_eq!(decode_report("").map(|_| ()), None);
    assert_eq!(decode_report("not a report").map(|_| ()), None);
    assert_eq!(decode_report("10:Harassment").map(|_| ()), None);
    // a wrong enum tag inside an otherwise well-formed record
    assert_eq!(
        decode_report("7:Unknown6:Active1:a1:b1:c1:0").map(|_| ()),
        None
    );
    // trailing text after a full record is rejected
    let mut text = encode_report(&sample_report());
    text.push('x');
    assert_eq!(decode_report(text.as_str()).map(|_| ()), None);
}

#[test]
fn report_list_round_trip() {
    let mut v: Vec<Report> = Vec::new();
    let empty_text = encode_report_list(&v);
    let back = decode_report_list(empty_text.as_str()).expect("an empty window decodes");
    assert_eq!(back.len(), 0);

    v.push(sample_report());
    let mut second = sample_report();
    second.status = ReportStatus::Archived;
    second.author = String::from("bob");
    second.timestamp = 42;
    v.push(second);
    let text = encode_report_list(&v);
    let back = decode_report_list(text.as_str()).expect("an encoded window decodes");
    assert_eq!(back.len(), 2);
    assert_report_eq(&v[0], &back[0]);
    assert_report_eq(&v[1], &back[1]);
}

#[test]
fn garbage_list_text_fails_closed() {
    assert_eq!(decode_report_list("").map(|_| ()), None);
    assert_eq!(decode_report_list(":").map(|_| ()), None);
    assert_eq!(decode_report_list("2:").map(|_| ()), None);
    let one = encode_report(&sample_report());
    // the count says two records but only one follows
    let text = format!("2:{}", one);
    assert_eq!(decode_report_list(text.as_str()).map(|_| ()), None);
}
