//! The plan of an inventory run, and the records of an exclusion report.
use crate::codec::{integer_text, nests_within, readable, READ_DEPTH};
use crate::error::ReportError;
use crate::json::{
    decimal_numbers, decimal_numbers_makes_readable, found_at, nested_integers_stay_exact, outcome,
    put, with_decimal_text, Json, JsonView, Step,
};
use crate::path::{encoded_path, encoded_path_is_lossless, NativePath, PathView};
use crate::text::{canonical, decimal, decimal_text, decimal_text_reads_back, decimal_value};
use vstd::prelude::*;

verus! {

/// The two numbers that an exclusion report is made under.
#[derive(Clone, Copy, Debug, PartialEq, Eq, Structural)]
pub struct ReportLimits {
    /// Files with more bytes than this are reported as excluded.
    pub threshold: u64,
    /// How many bytes the report may have.
    pub maximum: u64,
}

/// What an inventory run does.
#[derive(Clone, Copy, Debug, PartialEq, Eq)]
pub struct Plan {
    /// The size limit that the source itself filters by.
    pub size_filter: Option<u64>,
    /// The report to make; without one the run prints a plain inventory.
    pub report: Option<ReportLimits>,
}

/// The plan for the options of a run. A report needs a positive threshold and a limit, in
/// this order. Its source does not filter by size: it has to meet the files that the report
/// lists.
pub open spec fn plan_outcome(
    exclusion_report: bool,
    exclude_larger_than: Option<u64>,
    max_report_bytes: Option<u64>,
) -> Result<Plan, ReportError> {
    if !exclusion_report {
        Ok(Plan { size_filter: exclude_larger_than, report: None })
    } else if exclude_larger_than is None || exclude_larger_than == Some(0u64) {
        Err(ReportError::MissingThreshold)
    } else if max_report_bytes is None {
        Err(ReportError::MissingMaxReportBytes)
    } else {
        Ok(
            Plan {
                size_filter: None,
                report: Some(
                    ReportLimits {
                        threshold: exclude_larger_than->0,
                        maximum: max_report_bytes->0,
                    },
                ),
            },
        )
    }
}

/// Decides what a run does.
pub fn plan(
    exclusion_report: bool,
    exclude_larger_than: Option<u64>,
    max_report_bytes: Option<u64>,
) -> (r: Result<Plan, ReportError>)
    ensures
        r == plan_outcome(exclusion_report, exclude_larger_than, max_report_bytes),
        exclusion_report ==> (r matches Ok(made) ==> {
            &&& made.size_filter is None
            &&& made.report matches Some(limits)
            &&& Some(limits.threshold) == exclude_larger_than
            &&& Some(limits.maximum) == max_report_bytes
        }),
{
    if !exclusion_report {
        return Ok(Plan { size_filter: exclude_larger_than, report: None });
    }
    let threshold: u64 = match exclude_larger_than {
        Some(size) => size,
        None => 0,
    };
    if threshold == 0 {
        return Err(ReportError::MissingThreshold);
    }
    match max_report_bytes {
        None => Err(ReportError::MissingMaxReportBytes),
        Some(maximum) => Ok(
            Plan { size_filter: None, report: Some(ReportLimits { threshold, maximum }) },
        ),
    }
}

/// A report is made only over a positive threshold, and over a source that has not left out
/// the files it is about.
pub proof fn report_plan_is_positive_and_unfiltered(
    exclusion_report: bool,
    exclude_larger_than: Option<u64>,
    max_report_bytes: Option<u64>,
)
    ensures
        plan_outcome(exclusion_report, exclude_larger_than, max_report_bytes) matches Ok(plan)
            ==> (plan.report matches Some(limits) ==> limits.threshold > 0 && plan.size_filter
            is None),
{
}

/// What the first record says: the options that the report was made under.
pub struct ReportHeader {
    pub limits: ReportLimits,
    pub sources: Vec<NativePath>,
    pub normal_filters: Json,
    pub excludes: Json,
    pub save_options: Json,
    pub admission: Json,
}

/// The facts by which a later run tells whether it meets the same file.
#[derive(Debug, PartialEq)]
pub struct FileVersion {
    pub inode: u64,
    pub mtime_ns: Option<i128>,
    pub ctime_ns: Option<i128>,
    pub mode: Option<u32>,
    pub uid: Option<u32>,
    pub gid: Option<u32>,
}

/// The decimal string of an integer.
pub open spec fn decimal_string(n: int) -> JsonView {
    JsonView::Text(decimal(n))
}

/// The decimal string of a timestamp, or null.
pub open spec fn timestamp_view(ns: Option<i128>) -> JsonView {
    match ns {
        Some(ns) => decimal_string(ns as int),
        None => JsonView::Null,
    }
}

/// A small number, or null.
pub open spec fn number_view(n: Option<u32>) -> JsonView {
    match n {
        Some(n) => JsonView::Number(decimal(n as int)),
        None => JsonView::Null,
    }
}

impl ReportHeader {
    pub open spec fn sources_encodable(self) -> bool {
        forall|i: int| 0 <= i < self.sources@.len() ==> (#[trigger] self.sources@[i])@.encodable()
    }

    /// The header record.
    pub open spec fn record(self) -> JsonView {
        JsonView::Object(
            map![
                "schema_version"@ => JsonView::Number(decimal(1)),
                "type"@ => JsonView::Text("header"@),
                "exclude_larger_than_bytes"@ => decimal_string(self.limits.threshold as int),
                "max_report_bytes"@ => decimal_string(self.limits.maximum as int),
                "sources"@ => JsonView::Array(
                    Seq::new(self.sources@.len(), |i: int| self.sources@[i]@.encoded()),
                ),
                "normal_filters"@ => self.normal_filters@,
                "excludes"@ => self.excludes@,
                "save_options"@ => self.save_options@,
                "admission"@ => with_decimal_text(self.admission@),
            ],
        )
    }

    /// The header record, or the error for a source that has no encoding.
    pub open spec fn record_outcome(self) -> Result<JsonView, ReportError> {
        if self.sources_encodable() {
            Ok(self.record())
        } else {
            Err(ReportError::UnencodablePath)
        }
    }
}

impl FileVersion {
    pub open spec fn record(self) -> JsonView {
        JsonView::Object(
            map![
                "inode"@ => decimal_string(self.inode as int),
                "mtime_ns"@ => timestamp_view(self.mtime_ns),
                "ctime_ns"@ => timestamp_view(self.ctime_ns),
                "mode"@ => number_view(self.mode),
                "uid"@ => number_view(self.uid),
                "gid"@ => number_view(self.gid),
            ],
        )
    }
}

/// The record of an excluded file.
pub open spec fn excluded_view(path: JsonView, size: int, version: JsonView) -> JsonView {
    JsonView::Object(
        map![
            "schema_version"@ => JsonView::Number(decimal(1)),
            "type"@ => JsonView::Text("excluded"@),
            "reason"@ => JsonView::Text("apparent_size"@),
            "path"@ => path,
            "apparent_bytes"@ => decimal_string(size),
            "file_version"@ => version,
        ],
    )
}

/// The record of an excluded file, or the error for a path that has no encoding.
pub open spec fn excluded_outcome(path: NativePath, size: u64, version: FileVersion) -> Result<
    JsonView,
    ReportError,
> {
    match path@.encoding_outcome() {
        Ok(encoded) => Ok(excluded_view(encoded, size as int, version.record())),
        Err(error) => Err(error),
    }
}

/// The record that ends a complete report.
pub open spec fn complete_view(inventory: JsonView) -> JsonView {
    JsonView::Object(
        map![
            "schema_version"@ => JsonView::Number(decimal(1)),
            "type"@ => JsonView::Text("complete"@),
            "inventory"@ => with_decimal_text(inventory),
        ],
    )
}

/// The decimal string of an integer.
fn decimal_json(n: i128) -> (r: Json)
    ensures
        r@ == decimal_string(n as int),
{
    Json::Text(decimal_text(n))
}

/// The decimal string of a timestamp, or null.
fn timestamp_json(ns: Option<i128>) -> (r: Json)
    ensures
        r@ == timestamp_view(ns),
{
    match ns {
        Some(ns) => decimal_json(ns),
        None => Json::Null,
    }
}

/// A small number, or null.
fn number_json(n: Option<u32>) -> (r: Json)
    ensures
        r@ == number_view(n),
{
    match n {
        Some(n) => Json::unsigned(n as u64),
        None => Json::Null,
    }
}

/// The members that every record begins with.
fn begin_record(kind: &str) -> (r: Vec<(String, Json)>)
    ensures
        Json::members_model(r@) == map![
            "schema_version"@ => JsonView::Number(decimal(1)),
            "type"@ => JsonView::Text(kind@),
        ],
{
    let mut members: Vec<(String, Json)> = Vec::new();
    put(&mut members, "schema_version", Json::unsigned(1));
    put(&mut members, "type", Json::text(kind));
    members
}

/// The encoded sources, or the error of the first that has no encoding.
fn encoded_sources(sources: &Vec<NativePath>) -> (r: Result<Vec<Json>, ReportError>)
    ensures
        match r {
            Ok(encoded) => {
                &&& forall|i: int|
                    0 <= i < sources@.len() ==> (#[trigger] sources@[i])@.encodable()
                &&& Json::items_model(encoded@) == Seq::new(
                    sources@.len(),
                    |i: int| sources@[i]@.encoded(),
                )
            },
            Err(error) => {
                &&& error == ReportError::UnencodablePath
                &&& exists|i: int|
                    0 <= i < sources@.len() && !(#[trigger] sources@[i])@.encodable()
            },
        },
{
    let mut encoded: Vec<Json> = Vec::new();
    let mut i: usize = 0;
    while i < sources.len()
        invariant
            i <= sources@.len(),
            encoded@.len() == i,
            forall|k: int| 0 <= k < i ==> (#[trigger] sources@[k])@.encodable(),
            forall|k: int| 0 <= k < i ==> (#[trigger] encoded@[k])@ == sources@[k]@.encoded(),
        decreases sources@.len() - i,
    {
        match encoded_path(&sources[i]) {
            Ok(path) => encoded.push(path),
            Err(error) => {
                assert(!sources@[i as int]@.encodable());
                return Err(error);
            },
        }
        i = i + 1;
    }
    assert(Json::items_model(encoded@) =~= Seq::new(
        sources@.len(),
        |i: int| sources@[i]@.encoded(),
    ));
    Ok(encoded)
}

/// Makes the header record.
pub fn header_record(header: ReportHeader) -> (r: Result<Json, ReportError>)
    ensures
        outcome(r) == header.record_outcome(),
{
    let sources = match encoded_sources(&header.sources) {
        Ok(sources) => sources,
        Err(error) => {
            return Err(error);
        },
    };
    let mut members = begin_record("header");
    put(
        &mut members,
        "exclude_larger_than_bytes",
        decimal_json(header.limits.threshold as i128),
    );
    put(&mut members, "max_report_bytes", decimal_json(header.limits.maximum as i128));
    put(&mut members, "sources", Json::Array(sources));
    put(&mut members, "normal_filters", header.normal_filters);
    put(&mut members, "excludes", header.excludes);
    put(&mut members, "save_options", header.save_options);
    put(&mut members, "admission", decimal_numbers(header.admission));
    Ok(Json::Object(members))
}

/// Makes the part of a record that tells a file's version.
fn version_json(version: &FileVersion) -> (r: Json)
    ensures
        r@ == version.record(),
{
    let mut members: Vec<(String, Json)> = Vec::new();
    put(&mut members, "inode", decimal_json(version.inode as i128));
    put(&mut members, "mtime_ns", timestamp_json(version.mtime_ns));
    put(&mut members, "ctime_ns", timestamp_json(version.ctime_ns));
    put(&mut members, "mode", number_json(version.mode));
    put(&mut members, "uid", number_json(version.uid));
    put(&mut members, "gid", number_json(version.gid));
    Json::Object(members)
}

/// Makes the record of an excluded file.
pub fn excluded_record(path: &NativePath, size: u64, version: &FileVersion) -> (r: Result<
    Json,
    ReportError,
>)
    ensures
        outcome(r) == excluded_outcome(*path, size, *version),
{
    let encoded = match encoded_path(path) {
        Ok(encoded) => encoded,
        Err(error) => {
            return Err(error);
        },
    };
    let mut members = begin_record("excluded");
    put(&mut members, "reason", Json::text("apparent_size"));
    put(&mut members, "path", encoded);
    put(&mut members, "apparent_bytes", decimal_json(size as i128));
    put(&mut members, "file_version", version_json(version));
    Ok(Json::Object(members))
}

/// Makes the record that ends a complete report.
pub fn complete_record(inventory: Json) -> (r: Json)
    ensures
        r@ == complete_view(inventory@),
{
    let mut members = begin_record("complete");
    put(&mut members, "inventory", decimal_numbers(inventory));
    Json::Object(members)
}

proof fn lemma_encoded_path_is_readable(path: PathView, depth: nat)
    requires
        depth > 0,
    ensures
        readable(path.encoded(), depth),
{
    let encoded = path.encoded()->Object_0;
    assert forall|key: Seq<char>| #[trigger] encoded.contains_key(key) implies readable(
        encoded[key],
        (depth - 1) as nat,
    ) by {
        assert(encoded[key] is Text);
    }
}

/// The record of every excluded file, whatever its name and its metadata, is one that reads
/// back once it is written: it has no floats and is not nested too deeply.
pub proof fn excluded_record_is_readable(path: NativePath, size: u64, version: FileVersion)
    ensures
        excluded_outcome(path, size, version) matches Ok(record) ==> readable(
            record,
            READ_DEPTH as nat,
        ),
{
    if path@.encodable() {
        let depth = (READ_DEPTH - 2) as nat;
        assert forall|n: u32| integer_text(#[trigger] decimal(n as int)) by {}
        assert(integer_text(decimal(1)));
        lemma_encoded_path_is_readable(path@, depth + 1);
        let facts = version.record()->Object_0;
        assert forall|key: Seq<char>| #[trigger] facts.contains_key(key) implies readable(
            facts[key],
            depth,
        ) by {
            let fact = facts[key];
            assert(fact is Text || fact is Null || fact == number_view(version.mode) || fact
                == number_view(version.uid) || fact == number_view(version.gid));
        }
        assert(readable(version.record(), depth + 1));
        let members = excluded_outcome(path, size, version)->Ok_0->Object_0;
        assert forall|key: Seq<char>| #[trigger] members.contains_key(key) implies readable(
            members[key],
            depth + 1,
        ) by {
            let member = members[key];
            assert(member is Text || member == JsonView::Number(decimal(1)) || member
                == path@.encoded() || member == version.record());
        }
    }
}


/// The header, whatever its sources are named, is one that reads back once it is written,
/// wherever the options in it are: those it holds as they are must be readable, the limits on
/// the walk, whose numbers become text, only not nested too deeply.
pub proof fn header_record_is_readable(header: ReportHeader)
    requires
        readable(header.normal_filters@, (READ_DEPTH - 1) as nat),
        readable(header.excludes@, (READ_DEPTH - 1) as nat),
        readable(header.save_options@, (READ_DEPTH - 1) as nat),
        nests_within(header.admission@, (READ_DEPTH - 1) as nat),
    ensures
        readable(header.record(), READ_DEPTH as nat),
        header.record_outcome() matches Ok(record) ==> readable(record, READ_DEPTH as nat),
{
    let depth = (READ_DEPTH - 1) as nat;
    assert(integer_text(decimal(1)));
    decimal_numbers_makes_readable(header.admission@, depth);
    let sources = Seq::new(header.sources@.len(), |i: int| header.sources@[i]@.encoded());
    assert forall|i: int| 0 <= i < sources.len() implies readable(
        #[trigger] sources[i],
        (depth - 1) as nat,
    ) by {
        lemma_encoded_path_is_readable(header.sources@[i]@, (depth - 1) as nat);
    }
    assert(readable(JsonView::Array(sources), depth));
    let members = header.record()->Object_0;
    assert forall|key: Seq<char>| #[trigger] members.contains_key(key) implies readable(
        members[key],
        depth,
    ) by {
        let member = members[key];
        assert(member is Text || member == JsonView::Number(decimal(1)) || member
            == JsonView::Array(sources) || member == header.normal_filters@ || member
            == header.excludes@ || member == header.save_options@ || member == with_decimal_text(
            header.admission@,
        ));
    }
}

/// The last record is one that reads back once it is written, whatever the inventory counts,
/// unless the inventory is nested too deeply.
pub proof fn complete_record_is_readable(inventory: JsonView)
    requires
        nests_within(inventory, (READ_DEPTH - 1) as nat),
    ensures
        readable(complete_view(inventory), READ_DEPTH as nat),
{
    let depth = (READ_DEPTH - 1) as nat;
    assert(integer_text(decimal(1)));
    decimal_numbers_makes_readable(inventory, depth);
    let members = complete_view(inventory)->Object_0;
    assert forall|key: Seq<char>| #[trigger] members.contains_key(key) implies readable(
        members[key],
        depth,
    ) by {
        let member = members[key];
        assert(member is Text || member == JsonView::Number(decimal(1)) || member
            == with_decimal_text(inventory));
    }
}

/// A plan takes its numbers from the options. Without a report the size filter is the one that
/// was given. With one, the threshold is the given size whatever the limit is, the limit is the
/// given limit whatever the size is, and the source is not filtered by size. A report is refused
/// for its size exactly when that is missing or zero, and otherwise for its limit exactly when
/// that is missing.
pub proof fn plan_follows_the_options(
    exclude_larger_than: Option<u64>,
    max_report_bytes: Option<u64>,
)
    ensures
        plan_outcome(false, exclude_larger_than, max_report_bytes) matches Ok(plan)
            && plan.size_filter == exclude_larger_than && plan.report is None,
        (exclude_larger_than is None || exclude_larger_than == Some(0u64)) <==> plan_outcome(
            true,
            exclude_larger_than,
            max_report_bytes,
        ) == Err::<Plan, ReportError>(ReportError::MissingThreshold),
        (exclude_larger_than matches Some(size) && size > 0 && max_report_bytes is None)
            <==> plan_outcome(true, exclude_larger_than, max_report_bytes) == Err::<
            Plan,
            ReportError,
        >(ReportError::MissingMaxReportBytes),
        (exclude_larger_than matches Some(size) && size > 0 && max_report_bytes is Some)
            <==> plan_outcome(true, exclude_larger_than, max_report_bytes) is Ok,
        plan_outcome(true, exclude_larger_than, max_report_bytes) matches Ok(plan) ==> {
            &&& plan.size_filter is None
            &&& plan.report matches Some(limits)
            &&& Some(limits.threshold) == exclude_larger_than
            &&& Some(limits.maximum) == max_report_bytes
        },
{
}

/// A header says under what options the report was made: each of its members is what was given.
/// The threshold and the limit are decimal strings that read back as them, there is an encoded
/// path for each source, at its place, the options are as they were, and the limits on the walk
/// are those given, with their numbers as text. It is refused exactly when a source is.
pub proof fn header_record_tells_the_options(header: ReportHeader)
    ensures
        match header.record_outcome() {
            Err(error) => {
                &&& error == ReportError::UnencodablePath
                &&& exists|i: int|
                    0 <= i < header.sources@.len() && (#[trigger] header.sources@[i])@.encoding_outcome() is Err
            },
            Ok(record) => {
                &&& record matches JsonView::Object(members)
                &&& members.dom() == set![
                    "schema_version"@,
                    "type"@,
                    "exclude_larger_than_bytes"@,
                    "max_report_bytes"@,
                    "sources"@,
                    "normal_filters"@,
                    "excludes"@,
                    "save_options"@,
                    "admission"@,
                ]
                &&& members["schema_version"@] matches JsonView::Number(schema)
                &&& canonical(schema) && decimal_value(schema) == 1
                &&& members["type"@] == JsonView::Text("header"@)
                &&& members["exclude_larger_than_bytes"@] matches JsonView::Text(threshold)
                &&& canonical(threshold) && decimal_value(threshold) == header.limits.threshold
                &&& members["max_report_bytes"@] matches JsonView::Text(maximum)
                &&& canonical(maximum) && decimal_value(maximum) == header.limits.maximum
                &&& members["sources"@] matches JsonView::Array(sources)
                &&& sources.len() == header.sources@.len()
                &&& forall|i: int|
                    0 <= i < header.sources@.len() ==> (
                    #[trigger] header.sources@[i])@.encoding_outcome() == Ok::<JsonView, ReportError>(
                        sources[i],
                    )
                &&& members["normal_filters"@] == header.normal_filters@
                &&& members["excludes"@] == header.excludes@
                &&& members["save_options"@] == header.save_options@
                &&& members["admission"@] == with_decimal_text(header.admission@)
            },
        },
{
    reveal_strlit("schema_version");
    reveal_strlit("type");
    reveal_strlit("exclude_larger_than_bytes");
    reveal_strlit("max_report_bytes");
    reveal_strlit("sources");
    reveal_strlit("normal_filters");
    reveal_strlit("excludes");
    reveal_strlit("save_options");
    reveal_strlit("admission");
    assert("schema_version"@.len() == 14);
    assert("type"@.len() == 4);
    assert("exclude_larger_than_bytes"@.len() == 25);
    assert("max_report_bytes"@.len() == 16);
    assert("sources"@.len() == 7);
    assert("normal_filters"@.len() == 14);
    assert("excludes"@.len() == 8);
    assert("save_options"@.len() == 12);
    assert("admission"@.len() == 9);
    assert("schema_version"@[0] != "normal_filters"@[0]);
    decimal_text_reads_back(1);
    decimal_text_reads_back(header.limits.threshold as int);
    decimal_text_reads_back(header.limits.maximum as int);
    assert(header.record()->Object_0.dom() =~= set![
        "schema_version"@,
        "type"@,
        "exclude_larger_than_bytes"@,
        "max_report_bytes"@,
        "sources"@,
        "normal_filters"@,
        "excludes"@,
        "save_options"@,
        "admission"@,
    ]);
    if !header.sources_encodable() {
        let i = choose|i: int|
            0 <= i < header.sources@.len() && !(#[trigger] header.sources@[i])@.encodable();
        assert(header.sources@[i]@.encoding_outcome() is Err);
    }
}

/// Headers tell runs apart: two with the same record were made under the same threshold and
/// limit, of the same sources in the same order, with the same filters, excludes and save
/// options.
pub proof fn header_records_tell_runs_apart(a: ReportHeader, b: ReportHeader)
    requires
        a.record_outcome() is Ok,
        a.record_outcome() == b.record_outcome(),
    ensures
        a.limits == b.limits,
        a.sources@.len() == b.sources@.len(),
        forall|i: int| 0 <= i < a.sources@.len() ==> (#[trigger] a.sources@[i])@ == b.sources@[i]@,
        a.normal_filters@ == b.normal_filters@,
        a.excludes@ == b.excludes@,
        a.save_options@ == b.save_options@,
{
    header_record_tells_the_options(a);
    header_record_tells_the_options(b);
    assert(a.sources_encodable() && b.sources_encodable());
    let sources = (a.record_outcome()->Ok_0->Object_0)["sources"@]->Array_0;
    assert forall|i: int| 0 <= i < a.sources@.len() implies (#[trigger] a.sources@[i])@
        == b.sources@[i]@ by {
        assert(a.sources@[i]@.encoding_outcome() == Ok::<JsonView, ReportError>(sources[i]));
        assert(b.sources@[i]@.encoding_outcome() == Ok::<JsonView, ReportError>(sources[i]));
        encoded_path_is_lossless(a.sources@[i]@, b.sources@[i]@);
    }
}

/// The record of an excluded file says what was found: its path, encoded, its size as a decimal
/// string that reads back as that size, and the facts of its version, each exact or null where
/// it is not known. It is refused exactly when its path is.
pub proof fn excluded_record_tells_the_file(path: NativePath, size: u64, version: FileVersion)
    ensures
        match excluded_outcome(path, size, version) {
            Err(error) => path@.encoding_outcome() == Err::<JsonView, ReportError>(error),
            Ok(record) => {
                &&& record matches JsonView::Object(members)
                &&& members.dom() == set![
                    "schema_version"@,
                    "type"@,
                    "reason"@,
                    "path"@,
                    "apparent_bytes"@,
                    "file_version"@,
                ]
                &&& members["schema_version"@] matches JsonView::Number(schema)
                &&& canonical(schema) && decimal_value(schema) == 1
                &&& members["type"@] == JsonView::Text("excluded"@)
                &&& members["reason"@] == JsonView::Text("apparent_size"@)
                &&& path@.encoding_outcome() == Ok::<JsonView, ReportError>(members["path"@])
                &&& members["apparent_bytes"@] matches JsonView::Text(bytes)
                &&& canonical(bytes) && decimal_value(bytes) == size
                &&& members["file_version"@] == version.record()
            },
        },
{
    reveal_strlit("schema_version");
    reveal_strlit("type");
    reveal_strlit("reason");
    reveal_strlit("path");
    reveal_strlit("apparent_bytes");
    reveal_strlit("file_version");
    assert("schema_version"@.len() == 14);
    assert("type"@.len() == 4);
    assert("reason"@.len() == 6);
    assert("path"@.len() == 4);
    assert("apparent_bytes"@.len() == 14);
    assert("file_version"@.len() == 12);
    assert("schema_version"@[0] != "apparent_bytes"@[0]);
    assert("type"@[0] != "path"@[0]);
    decimal_text_reads_back(1);
    decimal_text_reads_back(size as int);
    let members = excluded_view(path@.encoded(), size as int, version.record())->Object_0;
    assert(members.dom() =~= set![
        "schema_version"@,
        "type"@,
        "reason"@,
        "path"@,
        "apparent_bytes"@,
        "file_version"@,
    ]);
}

/// The part of a record that tells a file's version says what was found: the inode and the
/// timestamps are decimal strings that read back as them, the mode and the owners are numbers
/// that do, and what is not known is null.
pub proof fn version_part_tells_the_facts(version: FileVersion)
    ensures
        ({
            &&& version.record() matches JsonView::Object(facts)
            &&& facts.dom() == set![
                "inode"@,
                "mtime_ns"@,
                "ctime_ns"@,
                "mode"@,
                "uid"@,
                "gid"@,
            ]
            &&& facts["inode"@] matches JsonView::Text(inode)
            &&& canonical(inode) && decimal_value(inode) == version.inode
            &&& match version.mtime_ns {
                None => facts["mtime_ns"@] == JsonView::Null,
                Some(ns) => {
                    &&& facts["mtime_ns"@] matches JsonView::Text(text)
                    &&& canonical(text) && decimal_value(text) == ns
                },
            }
            &&& match version.ctime_ns {
                None => facts["ctime_ns"@] == JsonView::Null,
                Some(ns) => {
                    &&& facts["ctime_ns"@] matches JsonView::Text(text)
                    &&& canonical(text) && decimal_value(text) == ns
                },
            }
            &&& match version.mode {
                None => facts["mode"@] == JsonView::Null,
                Some(mode) => {
                    &&& facts["mode"@] matches JsonView::Number(text)
                    &&& canonical(text) && decimal_value(text) == mode
                },
            }
            &&& match version.uid {
                None => facts["uid"@] == JsonView::Null,
                Some(uid) => {
                    &&& facts["uid"@] matches JsonView::Number(text)
                    &&& canonical(text) && decimal_value(text) == uid
                },
            }
            &&& match version.gid {
                None => facts["gid"@] == JsonView::Null,
                Some(gid) => {
                    &&& facts["gid"@] matches JsonView::Number(text)
                    &&& canonical(text) && decimal_value(text) == gid
                },
            }
        }),
{
    reveal_strlit("inode");
    reveal_strlit("mtime_ns");
    reveal_strlit("ctime_ns");
    reveal_strlit("mode");
    reveal_strlit("uid");
    reveal_strlit("gid");
    assert("inode"@.len() == 5);
    assert("mtime_ns"@.len() == 8);
    assert("ctime_ns"@.len() == 8);
    assert("mode"@.len() == 4);
    assert("uid"@.len() == 3);
    assert("gid"@.len() == 3);
    assert("mtime_ns"@[0] != "ctime_ns"@[0]);
    assert("uid"@[0] != "gid"@[0]);
    decimal_text_reads_back(version.inode as int);
    if let Some(ns) = version.mtime_ns {
        decimal_text_reads_back(ns as int);
    }
    if let Some(ns) = version.ctime_ns {
        decimal_text_reads_back(ns as int);
    }
    if let Some(mode) = version.mode {
        decimal_text_reads_back(mode as int);
    }
    if let Some(uid) = version.uid {
        decimal_text_reads_back(uid as int);
    }
    if let Some(gid) = version.gid {
        decimal_text_reads_back(gid as int);
    }
    assert(version.record()->Object_0.dom() =~= set![
        "inode"@,
        "mtime_ns"@,
        "ctime_ns"@,
        "mode"@,
        "uid"@,
        "gid"@,
    ]);
}

/// Records of excluded files tell files apart: two with the same record are of the same path,
/// the same size and the same version.
pub proof fn excluded_records_tell_files_apart(
    path: NativePath,
    size: u64,
    version: FileVersion,
    other_path: NativePath,
    other_size: u64,
    other_version: FileVersion,
)
    requires
        excluded_outcome(path, size, version) is Ok,
        excluded_outcome(path, size, version) == excluded_outcome(
            other_path,
            other_size,
            other_version,
        ),
    ensures
        path@ == other_path@,
        size == other_size,
        version == other_version,
{
    excluded_record_tells_the_file(path, size, version);
    excluded_record_tells_the_file(other_path, other_size, other_version);
    version_part_tells_the_facts(version);
    version_part_tells_the_facts(other_version);
    encoded_path_is_lossless(path@, other_path@);
}

/// The last record says what was counted: it declares the report complete and holds the
/// inventory with its numbers as text, and nothing else.
pub proof fn complete_record_tells_the_inventory(inventory: JsonView)
    ensures
        ({
            &&& complete_view(inventory) matches JsonView::Object(members)
            &&& members.dom() == set!["schema_version"@, "type"@, "inventory"@]
            &&& members["schema_version"@] matches JsonView::Number(schema)
            &&& canonical(schema) && decimal_value(schema) == 1
            &&& members["type"@] == JsonView::Text("complete"@)
            &&& members["inventory"@] == with_decimal_text(inventory)
        }),
{
    reveal_strlit("schema_version");
    reveal_strlit("type");
    reveal_strlit("inventory");
    assert("schema_version"@.len() == 14);
    assert("type"@.len() == 4);
    assert("inventory"@.len() == 9);
    decimal_text_reads_back(1);
    assert(complete_view(inventory)->Object_0.dom() =~= set![
        "schema_version"@,
        "type"@,
        "inventory"@,
    ]);
}

/// What a complete report counts is exact wherever it stands in the inventory: an integer at
/// the end of any way down into the inventory is, in the last record, a canonical decimal string
/// that reads back as that integer.
pub proof fn complete_record_counts_exactly(inventory: JsonView, way: Seq<Step>, n: int)
    requires
        found_at(inventory, way) == Some(JsonView::Number(decimal(n))),
    ensures
        found_at(complete_view(inventory), seq![Step::Member("inventory"@)] + way) matches Some(
            JsonView::Text(text),
        ) && canonical(text) && decimal_value(text) == n,
{
    complete_record_tells_the_inventory(inventory);
    nested_integers_stay_exact(inventory, way, n);
    let whole = seq![Step::Member("inventory"@)] + way;
    assert(whole.drop_first() =~= way);
    assert(complete_view(inventory)->Object_0.dom().contains("inventory"@));
}

} // verus!
