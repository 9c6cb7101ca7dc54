use backup_inventory::error::ReportError;
use backup_inventory::json::Json;
use backup_inventory::report::BoundedReport;

fn report(limit: u64) -> BoundedReport<Vec<u8>> {
    BoundedReport {
        inner: Vec::new(),
        remaining: limit,
    }
}

#[test]
fn report_budget_allows_equality_and_never_exceeds_limit() {
    let mut out = BoundedReport {
        inner: Vec::new(),
        remaining: 3,
    };
    out.write_all(b"abc").unwrap();
    assert!(out.write_all(b"d").is_err());
    assert_eq!(out.inner, b"abc");
}

#[test]
fn a_refused_write_leaves_the_report_as_it_was() {
    let mut out = report(5);
    assert_eq!(out.write(b"abc"), Ok(3));
    assert_eq!(out.write(b"def"), Err(ReportError::ExceedsMaxReportBytes));
    assert_eq!(out.inner, b"abc");
    assert_eq!(out.remaining, 2);
    assert_eq!(out.write(b"de"), Ok(2));
    assert_eq!(out.write(b""), Ok(0));
    assert_eq!(out.flush(), Ok(()));
    assert_eq!(out.inner, b"abcde");
    assert_eq!(out.remaining, 0);
}

#[test]
fn any_destination_is_charged_for_what_it_took() {
    let mut out = BoundedReport {
        inner: "elsewhere",
        remaining: 10,
    };
    assert_eq!(out.approve(b"0123456789"), Ok(()));
    assert_eq!(
        out.approve(b"0123456789a"),
        Err(ReportError::ExceedsMaxReportBytes)
    );
    assert_eq!(out.settle::<String>(Ok(4)), Ok(4));
    assert_eq!(out.remaining, 6);
    assert_eq!(
        out.settle::<String>(Err("broken pipe".to_string())),
        Err("broken pipe".to_string())
    );
    assert_eq!(out.remaining, 6);
    assert_eq!(out.inner, "elsewhere");
}

#[test]
fn a_record_is_compact_json_and_a_newline() {
    let mut out = report(100);
    out.write_record(Json::Object(vec![
        ("b".to_string(), Json::Array(vec![Json::Null, Json::Bool(false)])),
        ("a".to_string(), Json::text("line\n\"quoted\"")),
    ]))
    .unwrap();
    assert_eq!(
        out.inner,
        b"{\"a\":\"line\\n\\\"quoted\\\"\",\"b\":[null,false]}\n"
    );
}

#[test]
fn a_record_over_the_limit_stops_at_the_first_piece_that_does_not_fit() {
    let record = || Json::Object(vec![("key".to_string(), Json::text("value"))]);
    let whole = "{\"key\":\"value\"}\n";
    let mut out = report(whole.len() as u64);
    assert_eq!(out.write_record(record()), Ok(()));
    assert_eq!(out.inner, whole.as_bytes());
    assert_eq!(out.remaining, 0);

    // The pieces are { " key " : " value " } and the newline.
    for (limit, kept) in [
        (0, ""),
        (1, "{"),
        (2, "{\""),
        (3, "{\""),
        (4, "{\""),
        (5, "{\"key"),
        (6, "{\"key\""),
        (12, "{\"key\":\""),
        (15, "{\"key\":\"value\"}"),
    ] {
        let mut out = report(limit);
        assert_eq!(
            out.write_record(record()),
            Err(ReportError::ExceedsMaxReportBytes)
        );
        assert_eq!(out.inner, kept.as_bytes(), "limit {limit}");
        assert_eq!(out.remaining, limit - kept.len() as u64);
    }
}

#[test]
fn the_last_record_is_written_whole_or_not_at_all() {
    let record = || Json::Object(vec![("key".to_string(), Json::text("value"))]);
    let whole = "{\"key\":\"value\"}\n";
    for limit in 0..whole.len() as u64 {
        let mut out = report(limit + 2);
        out.write_all(b"[]").unwrap();
        assert_eq!(
            out.write_last_record(record()),
            Err(ReportError::ExceedsMaxReportBytes)
        );
        assert_eq!(out.inner, b"[]");
        assert_eq!(out.remaining, limit);
    }
    let mut out = report(whole.len() as u64 + 3);
    out.write_all(b"[]").unwrap();
    assert_eq!(out.write_last_record(record()), Ok(()));
    assert_eq!(out.inner, format!("[]{whole}").as_bytes());
    assert_eq!(out.remaining, 1);
}

#[test]
fn fragments_are_written_in_order_until_one_does_not_fit() {
    let pieces = vec![b"ab".to_vec(), b"".to_vec(), b"cde".to_vec(), b"f".to_vec()];
    let mut out = report(6);
    assert_eq!(out.write_fragments(&pieces), Ok(()));
    assert_eq!(out.inner, b"abcdef");
    // A later piece is not tried once one was refused, though it would fit.
    let mut out = report(4);
    assert_eq!(
        out.write_fragments(&pieces),
        Err(ReportError::ExceedsMaxReportBytes)
    );
    assert_eq!(out.inner, b"ab");
}

#[test]
fn each_error_has_its_message() {
    assert_eq!(
        ReportError::MissingThreshold.message(),
        "exclusion reports require a positive explicit size threshold"
    );
    assert_eq!(
        ReportError::MissingMaxReportBytes.message(),
        "exclusion reports require max-report-bytes"
    );
    assert_eq!(
        ReportError::UnencodablePath.message(),
        "unencodable source path"
    );
    assert_eq!(
        ReportError::ExceedsMaxReportBytes.message(),
        "exclusion report exceeds max-report-bytes"
    );
}
