use backup_inventory::error::ReportError;
use backup_inventory::inventory::{
    complete_record, excluded_record, header_record, plan, FileVersion, Plan, ReportHeader,
    ReportLimits,
};
use backup_inventory::json::Json;
use backup_inventory::path::NativePath;
use backup_inventory::session::{ExclusionReport, Interrupted};

const HEADER: &str = "{\"admission\":{\"max-entries\":\"20\"},\
\"exclude_larger_than_bytes\":\"4\",\
\"excludes\":{},\
\"max_report_bytes\":\"32768\",\
\"normal_filters\":{\"exclude-larger-than\":null},\
\"save_options\":{\"with-atime\":false},\
\"schema_version\":1,\
\"sources\":[{\"encoding\":\"unix-bytes-hex\",\"value\":\"73\"}],\
\"type\":\"header\"}\n";

const EXCLUDED: &str = "{\"apparent_bytes\":\"1099511627776\",\
\"file_version\":{\"ctime_ns\":null,\"gid\":null,\"inode\":\"18446744073709551615\",\
\"mode\":33188,\"mtime_ns\":\"-1\",\"uid\":1000},\
\"path\":{\"encoding\":\"unix-bytes-hex\",\"value\":\"732fff0a\"},\
\"reason\":\"apparent_size\",\
\"schema_version\":1,\
\"type\":\"excluded\"}\n";

const COMPLETE: &str = "{\"inventory\":{\"excluded_files\":\"1\",\"retained\":{\"files\":\"0\"}},\
\"schema_version\":1,\
\"type\":\"complete\"}\n";

fn member(key: &str, value: Json) -> Json {
    Json::Object(vec![(key.to_string(), value)])
}

fn header() -> ReportHeader {
    ReportHeader {
        limits: ReportLimits {
            threshold: 4,
            maximum: 32768,
        },
        sources: vec![NativePath::UnixBytes(b"s".to_vec())],
        normal_filters: member("exclude-larger-than", Json::Null),
        excludes: Json::Object(Vec::new()),
        save_options: member("with-atime", Json::Bool(false)),
        admission: member("max-entries", Json::unsigned(20)),
    }
}

fn version() -> FileVersion {
    FileVersion {
        inode: u64::MAX,
        mtime_ns: Some(-1),
        ctime_ns: None,
        mode: Some(0o100644),
        uid: Some(1000),
        gid: None,
    }
}

fn huge() -> NativePath {
    NativePath::UnixBytes(b"s/\xff\n".to_vec())
}

fn inventory() -> Json {
    Json::Object(vec![
        ("excluded_files".to_string(), Json::unsigned(1)),
        ("retained".to_string(), member("files", Json::unsigned(0))),
    ])
}

/// A report over the given limit, up to its first failure.
fn whole_report(maximum: u64) -> (String, Result<(), ReportError>) {
    let mut report = ExclusionReport::new(maximum);
    let result = report
        .start(header())
        .and_then(|()| report.exclude(&huge(), 1 << 40, &version()))
        .and_then(|()| {
            report
                .conclude::<()>(Ok(inventory()))
                .map_err(|error| match error {
                    Interrupted::Report(error) => error,
                    Interrupted::Walk(()) => unreachable!(),
                })
        });
    (String::from_utf8(report.take()).unwrap(), result)
}

#[test]
fn a_plain_inventory_keeps_its_size_filter() {
    for (size, limit) in [(None, None), (Some(0), Some(7)), (Some(9), None)] {
        assert_eq!(
            plan(false, size, limit),
            Ok(Plan {
                size_filter: size,
                report: None
            })
        );
    }
}

#[test]
fn a_report_needs_a_positive_threshold_and_then_a_limit() {
    assert_eq!(
        plan(true, Some(4), Some(32768)),
        Ok(Plan {
            size_filter: None,
            report: Some(ReportLimits {
                threshold: 4,
                maximum: 32768
            })
        })
    );
    assert_eq!(plan(true, None, None), Err(ReportError::MissingThreshold));
    assert_eq!(
        plan(true, Some(0), Some(1)),
        Err(ReportError::MissingThreshold)
    );
    assert_eq!(
        plan(true, Some(1), None),
        Err(ReportError::MissingMaxReportBytes)
    );
}

#[test]
fn records_have_their_exact_text() {
    assert_eq!(
        header_record(header()).unwrap().into_text() + "\n",
        HEADER
    );
    assert_eq!(
        excluded_record(&huge(), 1 << 40, &version())
            .unwrap()
            .into_text()
            + "\n",
        EXCLUDED
    );
    assert_eq!(complete_record(inventory()).into_text() + "\n", COMPLETE);
}

#[test]
fn a_path_without_encoding_is_refused() {
    let mut header = header();
    header.sources.push(NativePath::Portable(None));
    assert_eq!(header_record(header), Err(ReportError::UnencodablePath));
    assert_eq!(
        excluded_record(&NativePath::Portable(None), 1, &version()),
        Err(ReportError::UnencodablePath)
    );
}

#[test]
fn a_complete_report_is_a_header_the_exclusions_and_a_footer() {
    let whole = [HEADER, EXCLUDED, COMPLETE].concat();
    assert_eq!(whole_report(32768), (whole.clone(), Ok(())));
    assert_eq!(whole_report(whole.len() as u64), (whole, Ok(())));
}

#[test]
fn over_budget_reports_are_prefixes_without_a_footer() {
    let whole = [HEADER, EXCLUDED, COMPLETE].concat();
    for limit in 0..whole.len() {
        let (output, result) = whole_report(limit as u64);
        assert_eq!(result, Err(ReportError::ExceedsMaxReportBytes));
        assert!(output.len() <= limit);
        assert!(whole.starts_with(&output));
        let before_footer = [HEADER, EXCLUDED].concat();
        assert!(before_footer.starts_with(&output));
        // Once the records before the footer fit, the report holds them and no byte more.
        if limit >= before_footer.len() {
            assert_eq!(output, before_footer);
        }
        assert!(!output
            .lines()
            .any(|line| line.contains("complete") || line == COMPLETE.trim_end()));
    }
}

/// Whether a line reads as a record of type `complete`.
fn reads_as_complete(line: &str) -> bool {
    match Json::read(line.as_bytes()) {
        Some(Json::Object(members)) => members
            .iter()
            .any(|member| *member == ("type".to_string(), Json::text("complete"))),
        _ => false,
    }
}

#[test]
fn a_reader_meets_the_footer_exactly_of_a_complete_report() {
    let whole = [HEADER, EXCLUDED, COMPLETE].concat();
    for limit in 0..whole.len() {
        let (output, _) = whole_report(limit as u64);
        assert!(!output.lines().any(reads_as_complete), "limit {limit}");
    }
    let (output, _) = whole_report(whole.len() as u64);
    let met: Vec<bool> = output.lines().map(reads_as_complete).collect();
    assert_eq!(met, [false, false, true]);
}

#[test]
fn a_footer_reads_back_up_to_the_depth_that_is_read() {
    let footer = |depth: usize| {
        let mut inventory = Json::unsigned(7);
        for _ in 0..depth {
            inventory = Json::Array(vec![inventory]);
        }
        complete_record(inventory)
    };
    let read = |depth: usize| Json::read(footer(depth).into_text().as_bytes());
    let ordered = |record: Json| Some(Json::from_value(record.into_value()));
    assert_eq!(read(126), ordered(footer(126)));
    assert_eq!(read(127), None);
}

#[test]
fn the_lines_of_a_report_read_back_as_its_records() {
    let (output, result) = whole_report(32768);
    assert_eq!(result, Ok(()));
    let read: Vec<Option<Json>> = output
        .lines()
        .map(|line| Json::read(line.as_bytes()))
        .collect();
    // A record that was read lists its members in the order of their keys.
    let ordered = |record: Json| Some(Json::from_value(record.into_value()));
    assert_eq!(
        read,
        vec![
            ordered(header_record(header()).unwrap()),
            ordered(excluded_record(&huge(), 1 << 40, &version()).unwrap()),
            ordered(complete_record(inventory())),
        ]
    );
}

#[test]
fn a_report_whose_walk_failed_has_no_footer() {
    let mut report = ExclusionReport::new(32768);
    report.start(header()).unwrap();
    report.exclude(&huge(), 1 << 40, &version()).unwrap();
    assert!(matches!(
        report.conclude(Err("max-entries")),
        Err(Interrupted::Walk("max-entries"))
    ));
    assert_eq!(report.take(), [HEADER, EXCLUDED].concat().into_bytes());
}

#[test]
fn a_failed_report_stays_failed() {
    let mut report = ExclusionReport::new(HEADER.len() as u64);
    report.start(header()).unwrap();
    assert_eq!(
        report.exclude(&NativePath::Portable(None), 1, &version()),
        Err(ReportError::UnencodablePath)
    );
    assert_eq!(
        report.exclude(&huge(), 1 << 40, &version()),
        Err(ReportError::UnencodablePath)
    );
    assert!(matches!(
        report.conclude::<()>(Ok(inventory())),
        Err(Interrupted::Report(ReportError::UnencodablePath))
    ));
    assert_eq!(report.take(), HEADER.as_bytes());
}

#[test]
fn bytes_are_handed_out_once() {
    let mut report = ExclusionReport::new(32768);
    report.start(header()).unwrap();
    assert_eq!(report.take(), HEADER.as_bytes());
    assert!(report.take().is_empty());
    report.exclude(&huge(), 1 << 40, &version()).unwrap();
    assert_eq!(report.take(), EXCLUDED.as_bytes());
    // What was handed out still counts against the limit.
    let mut report = ExclusionReport::new(HEADER.len() as u64 + 1);
    report.start(header()).unwrap();
    report.take();
    assert!(report.exclude(&huge(), 1 << 40, &version()).is_err());
    assert_eq!(report.take(), b"{");
}
