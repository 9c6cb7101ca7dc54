//! An exclusion report under way: a header, a record for each excluded file, and a last
//! record once the walk over the sources is complete.
use crate::codec::{
    json_fragments, json_read, nests_within, newline_free, reads_back, same_strings, READ_DEPTH,
};
use crate::error::ReportError;
use crate::inventory::{
    complete_record, complete_record_is_readable, complete_view, excluded_outcome, excluded_record,
    excluded_view, header_record, FileVersion, ReportHeader,
};
use crate::json::{outcome, Json, JsonView};
use crate::path::NativePath;
use crate::report::{
    attempt, complete_report_is_its_records, ended_report_succeeds_iff_it_fits, finish,
    finished_lines_are_whole_records, finished_lines_read_back, fresh,
    last_record_is_whole_or_absent, lemma_failed_feed_is_idle, lemma_feed_behind, lines, lines_met,
    lines_met_read_as_their_records, made, record_fragments, record_text, report_after,
    report_is_a_prefix, report_stays_within_its_limit, report_succeeds_iff_it_fits, stream,
    unmade_record_ends_the_report, written_on_lines, written_readably, BoundedReport, ReportState,
};
use vstd::prelude::*;

verus! {

/// Why a report did not come to its end.
#[derive(Debug)]
pub enum Interrupted<E> {
    /// The walk over the sources failed.
    Walk(E),
    /// The report itself failed.
    Report(ReportError),
}

/// The result that a caller sees of a report in a given state.
pub open spec fn status(state: ReportState) -> Result<(), ReportError> {
    match state.error {
        None => Ok(()),
        Some(error) => Err(error),
    }
}

/// The text of a record, where it could be made, has no newline in it and reads back as the
/// record.
pub open spec fn fits_on_a_line(record: Result<JsonView, ReportError>) -> bool {
    record matches Ok(value) ==> newline_free(json_fragments(value)) && reads_back(value)
}

/// An exclusion report under way. Bytes gather in it until they are taken.
pub struct ExclusionReport {
    out: BoundedReport<Vec<u8>>,
    error: Option<ReportError>,
    taken: Ghost<Seq<u8>>,
}

impl View for ExclusionReport {
    type V = ReportState;

    closed spec fn view(&self) -> ReportState {
        ReportState {
            output: self.taken@ + self.out.inner@,
            remaining: self.out.remaining as int,
            error: self.error,
        }
    }
}

impl ExclusionReport {
    /// The bytes that have been taken so far.
    pub closed spec fn taken(self) -> Seq<u8> {
        self.taken@
    }

    /// An empty report under a limit.
    pub fn new(maximum: u64) -> (r: ExclusionReport)
        ensures
            r@ == fresh(maximum as int),
            r.taken() == Seq::<u8>::empty(),
    {
        let r = ExclusionReport {
            out: BoundedReport { inner: Vec::new(), remaining: maximum },
            error: None,
            taken: Ghost(Seq::empty()),
        };
        assert(r@.output =~= Seq::<u8>::empty());
        r
    }

    /// Writes the next record. A report that has failed stays as it is, with its error.
    fn next(&mut self, record: Result<Json, ReportError>) -> (r: Result<(), ReportError>)
        ensures
            final(self)@ == attempt(old(self)@, outcome(record)),
            r == status(final(self)@),
            final(self).taken() == old(self).taken(),
            old(self)@.error is None ==> fits_on_a_line(outcome(record)),
    {
        if let Some(error) = self.error {
            proof {
                if let Ok(value) = outcome(record) {
                    lemma_failed_feed_is_idle(self@, record_fragments(value));
                }
            }
            return Err(error);
        }
        match record {
            Ok(value) => {
                let ghost fragments = record_fragments(value@);
                let ghost before = self.out.state(Ok(()));
                let result = self.out.write_record(value);
                proof {
                    lemma_feed_behind(self.taken@, before, fragments);
                }
                match result {
                    Ok(()) => Ok(()),
                    Err(error) => {
                        self.error = Some(error);
                        Err(error)
                    },
                }
            },
            Err(error) => {
                self.error = Some(error);
                Err(error)
            },
        }
    }

    /// Writes the last record, all of it or nothing. A report that has failed stays as it is,
    /// with its error.
    fn last(&mut self, record: Json) -> (r: Result<(), ReportError>)
        ensures
            final(self)@ == finish(old(self)@, record@),
            r == status(final(self)@),
            final(self).taken() == old(self).taken(),
            old(self)@.error is None ==> fits_on_a_line(Ok(record@)),
    {
        let ghost fragments = record_fragments(record@);
        if let Some(error) = self.error {
            proof {
                lemma_failed_feed_is_idle(self@, fragments);
            }
            return Err(error);
        }
        proof {
            lemma_feed_behind(self.taken@, self.out.state(Ok(())), fragments);
        }
        match self.out.write_last_record(record) {
            Ok(()) => Ok(()),
            Err(error) => {
                self.error = Some(error);
                Err(error)
            },
        }
    }

    /// Writes the header.
    pub fn start(&mut self, header: ReportHeader) -> (r: Result<(), ReportError>)
        ensures
            final(self)@ == attempt(old(self)@, header.record_outcome()),
            r == status(final(self)@),
            final(self).taken() == old(self).taken(),
            old(self)@.error is None ==> fits_on_a_line(header.record_outcome()),
    {
        self.next(header_record(header))
    }

    /// Writes the record of a file that the walk left out for its size.
    pub fn exclude(&mut self, path: &NativePath, size: u64, version: &FileVersion) -> (r: Result<
        (),
        ReportError,
    >)
        ensures
            final(self)@ == attempt(old(self)@, excluded_outcome(*path, size, *version)),
            r == status(final(self)@),
            final(self).taken() == old(self).taken(),
            old(self)@.error is None ==> fits_on_a_line(excluded_outcome(*path, size, *version)),
    {
        self.next(excluded_record(path, size, version))
    }

    /// Ends the report with what the walk came to: the last record where it counted its
    /// inventory, no record where it failed. The last record is written whole or not at all.
    pub fn conclude<E>(&mut self, walk: Result<Json, E>) -> (r: Result<(), Interrupted<E>>)
        ensures
            match walk {
                Err(error) => {
                    &&& r == Err::<(), Interrupted<E>>(Interrupted::Walk(error))
                    &&& *final(self) == *old(self)
                },
                Ok(inventory) => {
                    &&& final(self)@ == finish(old(self)@, complete_view(inventory@))
                    &&& r == match status(final(self)@) {
                        Ok(()) => Ok::<(), Interrupted<E>>(()),
                        Err(error) => Err(Interrupted::Report(error)),
                    }
                    &&& final(self).taken() == old(self).taken()
                    &&& old(self)@.error is None ==> fits_on_a_line(
                        Ok(complete_view(inventory@)),
                    )
                },
            },
    {
        match walk {
            Err(error) => Err(Interrupted::Walk(error)),
            Ok(inventory) => match self.last(complete_record(inventory)) {
                Ok(()) => Ok(()),
                Err(error) => Err(Interrupted::Report(error)),
            },
        }
    }

    /// Takes the bytes written since the last time, to be passed on.
    pub fn take(&mut self) -> (r: Vec<u8>)
        ensures
            final(self)@ == old(self)@,
            final(self).taken() == old(self).taken() + r@,
            final(self).taken() == final(self)@.output,
    {
        let mut bytes: Vec<u8> = Vec::new();
        std::mem::swap(&mut bytes, &mut self.out.inner);
        self.taken = Ghost(self.taken@ + bytes@);
        assert(self@.output =~= old(self)@.output);
        assert(self.taken() =~= self@.output);
        bytes
    }
}

/// A record that declares the report complete.
pub open spec fn declares_complete(record: JsonView) -> bool {
    record matches JsonView::Object(members) && members.contains_key("type"@) && members["type"@]
        == JsonView::Text("complete"@)
}

/// Only the last record of a report declares it complete: no header does, and no record of
/// an excluded file.
pub proof fn only_the_last_record_declares_complete(
    header: ReportHeader,
    path: JsonView,
    size: int,
    version: JsonView,
    inventory: JsonView,
)
    ensures
        declares_complete(complete_view(inventory)),
        !declares_complete(header.record()),
        !declares_complete(excluded_view(path, size, version)),
{
    reveal_strlit("type");
    reveal_strlit("complete");
    reveal_strlit("header");
    reveal_strlit("excluded");
    reveal_strlit("inventory");
    reveal_strlit("reason");
    reveal_strlit("path");
    reveal_strlit("apparent_bytes");
    reveal_strlit("file_version");
    reveal_strlit("exclude_larger_than_bytes");
    reveal_strlit("max_report_bytes");
    reveal_strlit("sources");
    reveal_strlit("normal_filters");
    reveal_strlit("excludes");
    reveal_strlit("save_options");
    reveal_strlit("admission");
    assert("path"@[0] != "type"@[0]);
    assert("excluded"@[0] != "complete"@[0]);
    assert("header"@.len() != "complete"@.len());
}

/// The finished lines of `report` are the texts of `records`, one each from the first on, what
/// follows them is how the next record's text begins, and none of these records declares the
/// report complete.
pub open spec fn holds_no_footer(report: ReportState, records: Seq<JsonView>) -> bool {
    let (done, rest) = lines(report.output);
    &&& done.len() <= records.len()
    &&& forall|i: int|
        0 <= i < done.len() ==> #[trigger] done[i] == record_text(records[i])
            && !declares_complete(records[i])
    &&& rest.len() > 0 ==> {
        &&& done.len() < records.len()
        &&& rest.is_prefix_of(record_text(records[done.len() as int]))
        &&& !declares_complete(records[done.len() as int])
    }
}

/// A report whose walk failed, so that it was not concluded, has no completion footer.
pub proof fn interrupted_report_has_no_footer(maximum: nat, records: Seq<JsonView>)
    requires
        written_on_lines(maximum, records),
        forall|i: int| 0 <= i < records.len() ==> !declares_complete(#[trigger] records[i]),
    ensures
        holds_no_footer(report_after(fresh(maximum as int), made(records)), records),
{
    finished_lines_are_whole_records(maximum, records);
    let done = lines(report_after(fresh(maximum as int), made(records)).output).0;
    assert forall|i: int| 0 <= i < done.len() implies #[trigger] done[i] == record_text(records[i])
        && !declares_complete(records[i]) by {
        assert(!declares_complete(records[i]));
    }
}

/// A report that was concluded but does not fit under its limit fails and has no completion
/// footer: it holds what it held of the records before the footer, and nothing more.
pub proof fn over_budget_report_has_no_footer(
    maximum: nat,
    records: Seq<JsonView>,
    inventory: JsonView,
)
    requires
        written_on_lines(maximum, records),
        forall|i: int| 0 <= i < records.len() ==> !declares_complete(#[trigger] records[i]),
        stream(records.push(complete_view(inventory))).len() > maximum,
    ensures
        ({
            let before = report_after(fresh(maximum as int), made(records));
            let report = finish(before, complete_view(inventory));
            &&& report.error == Some(ReportError::ExceedsMaxReportBytes)
            &&& report.output == before.output
            &&& report.output.is_prefix_of(stream(records))
            &&& holds_no_footer(report, records)
        }),
{
    ended_report_succeeds_iff_it_fits(maximum, records, complete_view(inventory));
    report_is_a_prefix(maximum, records);
    interrupted_report_has_no_footer(maximum, records);
}

/// A report that was concluded and fits under its limit ends with the completion footer.
pub proof fn complete_report_ends_with_the_footer(
    maximum: nat,
    records: Seq<JsonView>,
    inventory: JsonView,
)
    requires
        written_on_lines(maximum, records.push(complete_view(inventory))),
        stream(records.push(complete_view(inventory))).len() <= maximum,
    ensures
        ({
            let footer = complete_view(inventory);
            let all = records.push(footer);
            let report = finish(report_after(fresh(maximum as int), made(records)), footer);
            &&& report.error is None
            &&& report.output == stream(all)
            &&& lines(report.output).0.len() == all.len()
            &&& lines(report.output).0.last() == record_text(footer)
            &&& lines(report.output).1 == Seq::<u8>::empty()
        }),
{
    let all = records.push(complete_view(inventory));
    ended_report_succeeds_iff_it_fits(maximum, records, complete_view(inventory));
    report_succeeds_iff_it_fits(maximum, all);
    complete_report_is_its_records(maximum, all);
}


/// No line that a reader of `output` meets, be it cut short, reads as a record that declares
/// the report complete.
pub open spec fn reads_without_footer(output: Seq<u8>) -> bool {
    let met = lines_met(output);
    forall|i: int|
        0 <= i < met.len() ==> !(json_read(#[trigger] met[i]) matches Some(read)
            && declares_complete(read))
}

/// A reader of a report that was not concluded meets no completion footer.
pub proof fn interrupted_report_reads_without_footer(maximum: nat, records: Seq<JsonView>)
    requires
        written_on_lines(maximum, records),
        forall|i: int|
            0 <= i < records.len() ==> #[trigger] records[i] is Object && !declares_complete(
                records[i],
            ),
    ensures
        written_readably(maximum, records) ==> reads_without_footer(
            report_after(fresh(maximum as int), made(records)).output,
        ),
{
    if written_readably(maximum, records) {
        lines_met_read_as_their_records(maximum, records);
        let met = lines_met(report_after(fresh(maximum as int), made(records)).output);
        assert forall|i: int| 0 <= i < met.len() implies !(json_read(#[trigger] met[i]) matches Some(
            read,
        ) && declares_complete(read)) by {
            assert(records[i] is Object && !declares_complete(records[i]));
            if let Some(read) = json_read(met[i]) {
                let members = records[i]->Object_0;
                assert(same_strings(members, read));
                if declares_complete(read) {
                    assert(members.contains_key("type"@));
                }
            }
        }
    }
}

/// A reader of a report that was concluded but does not fit under its limit meets no
/// completion footer.
pub proof fn over_budget_report_reads_without_footer(
    maximum: nat,
    records: Seq<JsonView>,
    inventory: JsonView,
)
    requires
        written_on_lines(maximum, records),
        forall|i: int|
            0 <= i < records.len() ==> #[trigger] records[i] is Object && !declares_complete(
                records[i],
            ),
        stream(records.push(complete_view(inventory))).len() > maximum,
    ensures
        written_readably(maximum, records) ==> reads_without_footer(
            finish(
                report_after(fresh(maximum as int), made(records)),
                complete_view(inventory),
            ).output,
        ),
{
    ended_report_succeeds_iff_it_fits(maximum, records, complete_view(inventory));
    interrupted_report_reads_without_footer(maximum, records);
}

/// A reader of a report in which a record could not be made meets no completion footer,
/// whatever came after that record, the conclusion included.
pub proof fn report_with_unmade_record_reads_without_footer(
    maximum: nat,
    records: Seq<JsonView>,
    error: ReportError,
    rest: Seq<Result<JsonView, ReportError>>,
    inventory: JsonView,
)
    requires
        written_on_lines(maximum, records),
        forall|i: int|
            0 <= i < records.len() ==> #[trigger] records[i] is Object && !declares_complete(
                records[i],
            ),
    ensures
        ({
            let before = report_after(fresh(maximum as int), made(records).push(Err(error)) + rest);
            let report = finish(before, complete_view(inventory));
            &&& report.error is Some
            &&& report == before
            &&& written_readably(maximum, records) ==> reads_without_footer(report.output)
        }),
{
    let before = report_after(fresh(maximum as int), made(records).push(Err(error)) + rest);
    unmade_record_ends_the_report(fresh(maximum as int), made(records), error, rest);
    report_stays_within_its_limit(maximum, made(records).push(Err(error)) + rest);
    last_record_is_whole_or_absent(before, complete_view(inventory));
    interrupted_report_reads_without_footer(maximum, records);
}

/// A reader of a report that was concluded and fits under its limit meets the completion footer
/// as its last line, where the inventory is not nested too deeply.
pub proof fn complete_report_reads_with_the_footer(
    maximum: nat,
    records: Seq<JsonView>,
    inventory: JsonView,
)
    requires
        written_on_lines(maximum, records.push(complete_view(inventory))),
        stream(records.push(complete_view(inventory))).len() <= maximum,
        nests_within(inventory, (READ_DEPTH - 1) as nat),
    ensures
        written_readably(maximum, records.push(complete_view(inventory))) ==> {
            let report = finish(
                report_after(fresh(maximum as int), made(records)),
                complete_view(inventory),
            );
            let met = lines_met(report.output);
            &&& met.len() == records.len() + 1
            &&& json_read(met.last()) == Some(complete_view(inventory))
            &&& declares_complete(complete_view(inventory))
        },
{
    let footer = complete_view(inventory);
    let all = records.push(footer);
    complete_report_ends_with_the_footer(maximum, records, inventory);
    complete_record_is_readable(inventory);
    report_succeeds_iff_it_fits(maximum, all);
    finished_lines_read_back(maximum, all);
    reveal_strlit("type");
    reveal_strlit("inventory");
    assert("type"@.len() != "inventory"@.len());
    let done = lines(finish(report_after(fresh(maximum as int), made(records)), footer).output).0;
    assert(done[all.len() - 1] == record_text(all[all.len() - 1]));
}

/// A caller is told of an error exactly when the report has failed, and of which.
pub proof fn status_tells_whether_the_report_failed(state: ReportState, error: ReportError)
    ensures
        status(state) is Ok <==> state.error is None,
        status(state) == Err::<(), ReportError>(error) <==> state.error == Some(error),
{
}

} // verus!
