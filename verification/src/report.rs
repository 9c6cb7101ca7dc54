//! The report's byte budget and its framing: one JSON record per line.
use crate::codec::{
    fragments_model, joined, json_fragments, json_read, newline_free, readable, reads_back,
    same_strings, READ_DEPTH,
};
use crate::error::ReportError;
use crate::json::{Json, JsonView};
use vstd::prelude::*;

verus! {

/// A report under way: what is written, what may still be written, and whether it failed.
#[verifier::ext_equal]
pub struct ReportState {
    pub output: Seq<u8>,
    pub remaining: int,
    pub error: Option<ReportError>,
}

/// An empty report under a limit of `maximum` bytes.
pub open spec fn fresh(maximum: int) -> ReportState {
    ReportState { output: Seq::empty(), remaining: maximum, error: None }
}

/// One write: all of `bytes`, or a failure that writes nothing. A failed report takes no
/// more.
pub open spec fn offer(state: ReportState, bytes: Seq<u8>) -> ReportState {
    if state.error is Some {
        state
    } else if bytes.len() <= state.remaining {
        ReportState {
            output: state.output + bytes,
            remaining: state.remaining - bytes.len(),
            error: None,
        }
    } else {
        ReportState { error: Some(ReportError::ExceedsMaxReportBytes), ..state }
    }
}

/// Several writes in turn.
pub open spec fn feed(state: ReportState, fragments: Seq<Seq<u8>>) -> ReportState
    decreases fragments.len(),
{
    if fragments.len() == 0 {
        state
    } else {
        offer(feed(state, fragments.drop_last()), fragments.last())
    }
}

/// The writes of one record: the value's text in pieces, and the newline that ends its line.
pub open spec fn record_fragments(record: JsonView) -> Seq<Seq<u8>> {
    json_fragments(record).push(seq![10u8])
}

/// The text of a record.
pub open spec fn record_text(record: JsonView) -> Seq<u8> {
    joined(json_fragments(record))
}

/// A destination with a limit on the bytes it takes.
#[derive(Debug)]
pub struct BoundedReport<W> {
    pub inner: W,
    /// How many bytes may still be written.
    pub remaining: u64,
}

impl<W> BoundedReport<W> {
    /// Decides whether a write of `bytes` may be passed on: it may while they fit, to the
    /// last byte of the limit.
    pub fn approve(&self, bytes: &[u8]) -> (r: Result<(), ReportError>)
        ensures
            bytes@.len() <= self.remaining ==> r is Ok,
            bytes@.len() > self.remaining ==> r == Err::<(), ReportError>(
                ReportError::ExceedsMaxReportBytes,
            ),
    {
        let length: u64 = bytes.len() as u64;
        if length > self.remaining {
            return Err(ReportError::ExceedsMaxReportBytes);
        }
        Ok(())
    }

    /// Accounts for what the destination answered to a write: the bytes it took are charged,
    /// an error charges nothing. The answer is handed on.
    pub fn settle<E>(&mut self, answer: Result<usize, E>) -> (r: Result<usize, E>)
        requires
            answer matches Ok(written) ==> written <= old(self).remaining,
        ensures
            r == answer,
            final(self).inner == old(self).inner,
            final(self).remaining == match answer {
                Ok(written) => old(self).remaining - written,
                Err(_) => old(self).remaining as int,
            },
    {
        if let Ok(written) = &answer {
            self.remaining = self.remaining - *written as u64;
        }
        answer
    }
}

impl BoundedReport<Vec<u8>> {
    /// The report that this destination holds, after a write that ended in `result`.
    pub open spec fn state(self, result: Result<(), ReportError>) -> ReportState {
        ReportState {
            output: self.inner@,
            remaining: self.remaining as int,
            error: match result {
                Ok(()) => None,
                Err(error) => Some(error),
            },
        }
    }

    /// Writes all of `bytes` if they fit, and nothing otherwise.
    pub fn write(&mut self, bytes: &[u8]) -> (r: Result<usize, ReportError>)
        ensures
            bytes@.len() <= old(self).remaining ==> {
                &&& r == Ok::<usize, ReportError>(bytes@.len() as usize)
                &&& final(self).inner@ == old(self).inner@ + bytes@
                &&& final(self).remaining == old(self).remaining - bytes@.len()
            },
            bytes@.len() > old(self).remaining ==> {
                &&& r == Err::<usize, ReportError>(ReportError::ExceedsMaxReportBytes)
                &&& *final(self) == *old(self)
            },
    {
        match self.approve(bytes) {
            Ok(()) => {
                self.inner.extend_from_slice(bytes);
                assert(self.inner@ =~= old(self).inner@ + bytes@);
                self.settle(Ok(bytes.len()))
            },
            Err(error) => Err(error),
        }
    }

    /// Writes all of `bytes`, or fails and writes nothing.
    pub fn write_all(&mut self, bytes: &[u8]) -> (r: Result<(), ReportError>)
        ensures
            final(self).state(r) == offer(old(self).state(Ok(())), bytes@),
            bytes@.len() <= old(self).remaining ==> {
                &&& r is Ok
                &&& final(self).inner@ == old(self).inner@ + bytes@
                &&& final(self).remaining == old(self).remaining - bytes@.len()
            },
            bytes@.len() > old(self).remaining ==> {
                &&& r == Err::<(), ReportError>(ReportError::ExceedsMaxReportBytes)
                &&& *final(self) == *old(self)
            },
    {
        match self.write(bytes) {
            Ok(_) => Ok(()),
            Err(error) => Err(error),
        }
    }

    /// Nothing is held back, so there is nothing to flush.
    pub fn flush(&mut self) -> (r: Result<(), ReportError>)
        ensures
            r is Ok,
            *final(self) == *old(self),
    {
        Ok(())
    }

    /// Writes each fragment in turn and stops at the first that does not fit.
    pub fn write_fragments(&mut self, fragments: &Vec<Vec<u8>>) -> (r: Result<(), ReportError>)
        ensures
            final(self).state(r) == feed(old(self).state(Ok(())), fragments_model(fragments@)),
    {
        let ghost all = fragments_model(fragments@);
        let ghost start = self.state(Ok(()));
        let mut i: usize = 0;
        while i < fragments.len()
            invariant
                i <= fragments@.len(),
                start == old(self).state(Ok(())),
                all == fragments_model(fragments@),
                self.state(Ok(())) == feed(start, all.take(i as int)),
            decreases fragments@.len() - i,
        {
            assert(all.take(i + 1).drop_last() =~= all.take(i as int));
            match self.write_all(fragments[i].as_slice()) {
                Ok(()) => {},
                Err(error) => {
                    proof {
                        assert(self.state(Err(error)) == feed(start, all.take(i + 1)));
                        lemma_failed_feed(start, all, i + 1);
                    }
                    return Err(error);
                },
            }
            i = i + 1;
        }
        assert(all.take(i as int) =~= all);
        Ok(())
    }

    /// Writes a record: the value's compact text and a newline. A record that does not fit
    /// fails; what was written of it stays.
    pub fn write_record(&mut self, value: Json) -> (r: Result<(), ReportError>)
        ensures
            final(self).state(r) == feed(old(self).state(Ok(())), record_fragments(value@)),
            newline_free(json_fragments(value@)),
            reads_back(value@),
    {
        let mut fragments = value.into_fragments();
        let mut newline: Vec<u8> = Vec::new();
        newline.push(10u8);
        let ghost text = fragments@;
        assert(newline@ =~= seq![10u8]);
        fragments.push(newline);
        assert(fragments_model(fragments@) =~= fragments_model(text).push(seq![10u8]));
        self.write_fragments(&fragments)
    }

    /// Writes the record that ends a report: all of it, newline included, or a failure that
    /// writes nothing.
    pub fn write_last_record(&mut self, value: Json) -> (r: Result<(), ReportError>)
        ensures
            final(self).state(r) == finish(old(self).state(Ok(())), value@),
            newline_free(json_fragments(value@)),
            reads_back(value@),
    {
        let ghost before = self.state(Ok(()));
        let ghost fragments = record_fragments(value@);
        let mut trial = BoundedReport { inner: Vec::new(), remaining: self.remaining };
        let ghost empty = trial.state(Ok(()));
        let result = trial.write_record(value);
        proof {
            assert(before.output + empty.output =~= before.output);
            lemma_feed_behind(before.output, empty, fragments);
        }
        match result {
            Ok(()) => {
                self.inner.append(&mut trial.inner);
                self.remaining = trial.remaining;
                Ok(())
            },
            Err(error) => Err(error),
        }
    }
}

/// What stands before a report's output has no part in what is written to it.
pub(crate) proof fn lemma_feed_behind(
    earlier: Seq<u8>,
    state: ReportState,
    fragments: Seq<Seq<u8>>,
)
    ensures
        feed(ReportState { output: earlier + state.output, ..state }, fragments) == (ReportState {
            output: earlier + feed(state, fragments).output,
            ..feed(state, fragments)
        }),
    decreases fragments.len(),
{
    if fragments.len() > 0 {
        lemma_feed_behind(earlier, state, fragments.drop_last());
        let before = feed(state, fragments.drop_last());
        assert((earlier + before.output) + fragments.last() =~= earlier + (before.output
            + fragments.last()));
    }
}

/// A record in its turn: it is written, or the error that kept it from being made ends the
/// report.
pub open spec fn attempt(
    state: ReportState,
    record: Result<JsonView, ReportError>,
) -> ReportState {
    match record {
        Ok(value) => feed(state, record_fragments(value)),
        Err(error) => if state.error is Some {
            state
        } else {
            ReportState { error: Some(error), ..state }
        },
    }
}

/// The record that ends a report: it is written whole, newline included, or not at all.
pub open spec fn finish(state: ReportState, record: JsonView) -> ReportState {
    let after = feed(state, record_fragments(record));
    if after.error is Some {
        ReportState { error: after.error, ..state }
    } else {
        after
    }
}

/// A report made of several records in turn.
pub open spec fn report_after(
    state: ReportState,
    records: Seq<Result<JsonView, ReportError>>,
) -> ReportState
    decreases records.len(),
{
    if records.len() == 0 {
        state
    } else {
        attempt(report_after(state, records.drop_last()), records.last())
    }
}

/// Records that could all be made.
pub open spec fn made(records: Seq<JsonView>) -> Seq<Result<JsonView, ReportError>> {
    Seq::new(records.len(), |i: int| Ok(records[i]))
}

/// The whole of a report without a limit: the text of each record, and a newline after it.
pub open spec fn stream(records: Seq<JsonView>) -> Seq<u8>
    decreases records.len(),
{
    if records.len() == 0 {
        Seq::empty()
    } else {
        stream(records.drop_last()) + record_text(records.last()).push(10u8)
    }
}

/// The lines of a byte string that a newline ends, and the rest after the last newline.
pub open spec fn lines(bytes: Seq<u8>) -> (Seq<Seq<u8>>, Seq<u8>)
    decreases bytes.len(),
{
    if bytes.len() == 0 {
        (Seq::empty(), Seq::empty())
    } else {
        let (done, rest) = lines(bytes.drop_last());
        if bytes.last() == 10 {
            (done.push(rest), Seq::empty())
        } else {
            (done, rest.push(bytes.last()))
        }
    }
}

/// Each record's text fits on a line.
pub open spec fn one_line_each(records: Seq<JsonView>) -> bool {
    forall|i: int| 0 <= i < records.len() ==> newline_free(json_fragments(#[trigger] records[i]))
}

/// Each record that a report under a limit came to has its text on one line. The functions
/// that write a record find this of it.
pub open spec fn written_on_lines(maximum: nat, records: Seq<JsonView>) -> bool {
    forall|i: int|
        0 <= i < records.len() && report_after(
            fresh(maximum as int),
            made(#[trigger] records.take(i)),
        ).error is None ==> newline_free(json_fragments(records[i]))
}

/// Each record that a report under a limit came to reads back once it is written. The
/// functions that write a record find this of it.
pub open spec fn written_readably(maximum: nat, records: Seq<JsonView>) -> bool {
    forall|i: int|
        0 <= i < records.len() && report_after(
            fresh(maximum as int),
            made(#[trigger] records.take(i)),
        ).error is None ==> reads_back(records[i])
}

/// The lines of a byte string as a reader meets them: those that a newline ends, and what is
/// left after the last newline.
pub open spec fn lines_met(bytes: Seq<u8>) -> Seq<Seq<u8>> {
    let (done, rest) = lines(bytes);
    if rest.len() > 0 {
        done.push(rest)
    } else {
        done
    }
}

/// What a run of writes does to a report.
proof fn lemma_feed(state: ReportState, fragments: Seq<Seq<u8>>)
    requires
        state.error is None,
        state.remaining >= 0,
    ensures
        ({
            let after = feed(state, fragments);
            &&& after.remaining >= 0
            &&& after.output.len() + after.remaining == state.output.len() + state.remaining
            &&& after.output.is_prefix_of(state.output + joined(fragments))
            &&& after.error is None <==> joined(fragments).len() <= state.remaining
            &&& after.error is None ==> after.output == state.output + joined(fragments)
        }),
    decreases fragments.len(),
{
    if fragments.len() == 0 {
        assert(state.output + joined(fragments) =~= state.output);
    } else {
        let before = feed(state, fragments.drop_last());
        lemma_feed(state, fragments.drop_last());
        let head = state.output + joined(fragments.drop_last());
        let whole = state.output + joined(fragments);
        assert(whole =~= head + fragments.last());
        let after = feed(state, fragments);
        assert(after.output.is_prefix_of(whole)) by {
            if after.error is None {
                assert(after.output =~= whole);
            } else {
                assert(after.output == before.output);
                assert(before.output.len() <= head.len());
                assert(before.output =~= whole.take(before.output.len() as int)) by {
                    assert(before.output =~= head.take(before.output.len() as int));
                }
            }
        }
    }
}

proof fn lemma_record_fragments(record: JsonView)
    ensures
        joined(record_fragments(record)) == record_text(record).push(10u8),
{
    let fragments = record_fragments(record);
    assert(fragments.drop_last() =~= json_fragments(record));
    assert(joined(fragments) =~= record_text(record).push(10u8));
}

/// A failed report takes no more.
pub(crate) proof fn lemma_failed_feed_is_idle(state: ReportState, fragments: Seq<Seq<u8>>)
    requires
        state.error is Some,
    ensures
        feed(state, fragments) == state,
    decreases fragments.len(),
{
    if fragments.len() > 0 {
        lemma_failed_feed_is_idle(state, fragments.drop_last());
    }
}

/// What records in turn do to an empty report.
proof fn lemma_report_after(maximum: nat, records: Seq<JsonView>)
    ensures
        ({
            let report = report_after(fresh(maximum as int), made(records));
            &&& report.remaining >= 0
            &&& report.output.len() + report.remaining == maximum
            &&& report.output.is_prefix_of(stream(records))
            &&& report.error is None <==> stream(records).len() <= maximum
            &&& report.error is None ==> report.output == stream(records)
            &&& report.error is None || report.error == Some(ReportError::ExceedsMaxReportBytes)
        }),
    decreases records.len(),
{
    if records.len() > 0 {
        let start = fresh(maximum as int);
        let head = records.drop_last();
        lemma_report_after(maximum, head);
        assert(made(records).drop_last() =~= made(head));
        let before = report_after(start, made(head));
        let fragments = record_fragments(records.last());
        lemma_record_fragments(records.last());
        let after = report_after(start, made(records));
        assert(after == feed(before, fragments));
        if before.error is None {
            lemma_feed(before, fragments);
            lemma_feed_error(before, fragments);
        } else {
            lemma_failed_feed_is_idle(before, fragments);
            assert(before.output =~= stream(records).take(before.output.len() as int)) by {
                assert(before.output =~= stream(head).take(before.output.len() as int));
            }
        }
    }
}

proof fn lemma_feed_error(state: ReportState, fragments: Seq<Seq<u8>>)
    ensures
        ({
            let after = feed(state, fragments);
            after.error == state.error || after.error == Some(ReportError::ExceedsMaxReportBytes)
        }),
    decreases fragments.len(),
{
    if fragments.len() > 0 {
        lemma_feed_error(state, fragments.drop_last());
    }
}

/// A report never holds more bytes than its limit, whatever records it was given.
pub proof fn report_stays_within_its_limit(
    maximum: nat,
    records: Seq<Result<JsonView, ReportError>>,
)
    ensures
        report_after(fresh(maximum as int), records).output.len() <= maximum,
        report_after(fresh(maximum as int), records).remaining == maximum - report_after(
            fresh(maximum as int),
            records,
        ).output.len(),
    decreases records.len(),
{
    if records.len() > 0 {
        report_stays_within_its_limit(maximum, records.drop_last());
        let before = report_after(fresh(maximum as int), records.drop_last());
        if let Ok(value) = records.last() {
            if before.error is None {
                lemma_feed(before, record_fragments(value));
            } else {
                lemma_failed_feed_is_idle(before, record_fragments(value));
            }
        }
    }
}

/// A report is complete exactly when all of it fits under the limit, equality included; then
/// it holds every record. Otherwise it fails, with the error that says so.
pub proof fn report_succeeds_iff_it_fits(maximum: nat, records: Seq<JsonView>)
    ensures
        stream(records).len() <= maximum ==> report_after(fresh(maximum as int), made(records)) == (
        ReportState {
            output: stream(records),
            remaining: maximum - stream(records).len(),
            error: None,
        }),
        stream(records).len() > maximum ==> report_after(fresh(maximum as int), made(records)).error
            == Some(ReportError::ExceedsMaxReportBytes),
{
    lemma_report_after(maximum, records);
}

/// A failed report stays failed and writes nothing more.
pub proof fn failed_report_is_final(
    state: ReportState,
    records: Seq<Result<JsonView, ReportError>>,
)
    requires
        state.error is Some,
    ensures
        report_after(state, records) == state,
    decreases records.len(),
{
    if records.len() > 0 {
        failed_report_is_final(state, records.drop_last());
        if let Ok(value) = records.last() {
            lemma_failed_feed_is_idle(state, record_fragments(value));
        }
    }
}

proof fn lemma_report_after_concat(
    state: ReportState,
    first: Seq<Result<JsonView, ReportError>>,
    rest: Seq<Result<JsonView, ReportError>>,
)
    ensures
        report_after(state, first + rest) == report_after(report_after(state, first), rest),
    decreases rest.len(),
{
    if rest.len() == 0 {
        assert(first + rest =~= first);
    } else {
        lemma_report_after_concat(state, first, rest.drop_last());
        assert((first + rest).drop_last() =~= first + rest.drop_last());
    }
}

/// A record that could not be made ends the report: what was written before it stays, and
/// nothing is written after it.
pub proof fn unmade_record_ends_the_report(
    state: ReportState,
    first: Seq<Result<JsonView, ReportError>>,
    error: ReportError,
    rest: Seq<Result<JsonView, ReportError>>,
)
    ensures
        report_after(state, first.push(Err(error)) + rest).output == report_after(state, first).output,
        report_after(state, first.push(Err(error)) + rest).error is Some,
        report_after(state, first.push(Err(error)) + rest).remaining == report_after(
            state,
            first,
        ).remaining,
        report_after(state, first.push(Err(error)) + rest).error == match report_after(
            state,
            first,
        ).error {
            Some(earlier) => Some(earlier),
            None => Some(error),
        },
{
    let until = first.push(Err(error));
    assert(until.drop_last() =~= first);
    lemma_report_after_concat(state, until, rest);
    failed_report_is_final(report_after(state, until), rest);
}

/// What a report holds is a prefix of its whole stream: nothing in it is altered, reordered
/// or left out.
pub proof fn report_is_a_prefix(maximum: nat, records: Seq<JsonView>)
    ensures
        report_after(fresh(maximum as int), made(records)).output.is_prefix_of(stream(records)),
{
    lemma_report_after(maximum, records);
}

proof fn lemma_lines_append(bytes: Seq<u8>, text: Seq<u8>)
    requires
        forall|i: int| 0 <= i < text.len() ==> text[i] != 10,
    ensures
        lines(bytes + text) == (lines(bytes).0, lines(bytes).1 + text),
    decreases text.len(),
{
    if text.len() == 0 {
        assert(bytes + text =~= bytes);
        assert(lines(bytes).1 + text =~= lines(bytes).1);
    } else {
        lemma_lines_append(bytes, text.drop_last());
        assert((bytes + text).drop_last() =~= bytes + text.drop_last());
        assert((lines(bytes).1 + text.drop_last()).push(text.last()) =~= lines(bytes).1 + text);
    }
}

proof fn lemma_joined_newline_free(fragments: Seq<Seq<u8>>)
    requires
        newline_free(fragments),
    ensures
        forall|i: int| 0 <= i < joined(fragments).len() ==> joined(fragments)[i] != 10,
    decreases fragments.len(),
{
    if fragments.len() > 0 {
        let head = fragments.drop_last();
        assert forall|i: int, j: int|
            #![trigger head[i][j]]
            0 <= i < head.len() && 0 <= j < head[i].len() implies head[i][j] != 10 by {
            assert(head[i][j] == fragments[i][j]);
        }
        lemma_joined_newline_free(head);
        assert forall|i: int| 0 <= i < joined(fragments).len() implies joined(fragments)[i] != 10 by {
            let k = i - joined(head).len();
            if k >= 0 {
                assert(joined(fragments)[i] == fragments[fragments.len() - 1][k]);
            }
        }
    }
}

/// Line by line, a whole report is its records' texts, with nothing left over.
pub proof fn one_record_per_line(records: Seq<JsonView>)
    requires
        one_line_each(records),
    ensures
        lines(stream(records)) == (records.map_values(|record: JsonView| record_text(record)), Seq::<
            u8,
        >::empty()),
    decreases records.len(),
{
    let texts = records.map_values(|record: JsonView| record_text(record));
    if records.len() == 0 {
        assert(texts =~= Seq::empty());
    } else {
        let head = records.drop_last();
        let text = record_text(records.last());
        assert forall|i: int| 0 <= i < head.len() implies newline_free(
            json_fragments(#[trigger] head[i]),
        ) by {
            assert(head[i] == records[i]);
        }
        one_record_per_line(head);
        assert(newline_free(json_fragments(records[records.len() - 1])));
        lemma_joined_newline_free(json_fragments(records.last()));
        lemma_lines_append(stream(head), text);
        assert(stream(records).drop_last() =~= stream(head) + text);
        assert(Seq::<u8>::empty() + text =~= text);
        assert(texts =~= head.map_values(|record: JsonView| record_text(record)).push(text));
    }
}

/// The line at a place, be it a finished one or the rest after the last.
spec fn line_at(bytes: Seq<u8>, i: int) -> Seq<u8> {
    if i < lines(bytes).0.len() {
        lines(bytes).0[i]
    } else {
        lines(bytes).1
    }
}

proof fn lemma_lines_of_prefix(part: Seq<u8>, whole: Seq<u8>)
    requires
        part.is_prefix_of(whole),
    ensures
        lines(part).0.is_prefix_of(lines(whole).0),
        part.len() < whole.len() && whole.last() == 10 ==> lines(part).0.len() < lines(
            whole,
        ).0.len(),
        lines(part).1.is_prefix_of(line_at(whole, lines(part).0.len() as int)),
    decreases whole.len(),
{
    if part.len() == whole.len() {
        assert(part =~= whole);
    } else {
        let shorter = whole.drop_last();
        assert(part =~= shorter.take(part.len() as int)) by {
            assert(part =~= whole.take(part.len() as int));
        }
        lemma_lines_of_prefix(part, shorter);
        let k = lines(part).0.len() as int;
        assert(lines(part).0 =~= lines(whole).0.take(k)) by {
            assert(lines(part).0 =~= lines(shorter).0.take(k));
        }
        let rest = lines(part).1;
        assert(rest =~= line_at(whole, k).take(rest.len() as int)) by {
            assert(rest =~= line_at(shorter, k).take(rest.len() as int));
        }
    }
}

/// A report that has not failed had not failed before.
proof fn lemma_healthy_before(maximum: nat, records: Seq<JsonView>, i: int)
    requires
        0 <= i <= records.len(),
        report_after(fresh(maximum as int), made(records)).error is None,
    ensures
        report_after(fresh(maximum as int), made(records.take(i))).error is None,
    decreases records.len(),
{
    if i == records.len() {
        assert(records.take(i) =~= records);
    } else {
        let head = records.drop_last();
        assert(made(records).drop_last() =~= made(head));
        let before = report_after(fresh(maximum as int), made(head));
        if before.error is Some {
            lemma_failed_feed_is_idle(before, record_fragments(records.last()));
        }
        lemma_healthy_before(maximum, head, i);
        assert(head.take(i) =~= records.take(i));
    }
}

/// The records that a report came to: after them it is what it is in the end.
proof fn lemma_reached(maximum: nat, records: Seq<JsonView>) -> (k: int)
    requires
        written_on_lines(maximum, records),
    ensures
        0 <= k <= records.len(),
        one_line_each(records.take(k)),
        forall|i: int|
            0 <= i < k ==> report_after(
                fresh(maximum as int),
                made(#[trigger] records.take(i)),
            ).error is None,
        report_after(fresh(maximum as int), made(records.take(k))) == report_after(
            fresh(maximum as int),
            made(records),
        ),
    decreases records.len(),
{
    let start = fresh(maximum as int);
    if records.len() == 0 {
        assert(records.take(0) =~= records);
        0
    } else {
        let head = records.drop_last();
        assert(made(records).drop_last() =~= made(head));
        let before = report_after(start, made(head));
        if before.error is None {
            let k = records.len() as int;
            assert(records.take(k) =~= records);
            assert forall|i: int| 0 <= i < k implies report_after(
                start,
                made(#[trigger] records.take(i)),
            ).error is None by {
                lemma_healthy_before(maximum, head, i);
                assert(head.take(i) =~= records.take(i));
            }
            assert forall|i: int| 0 <= i < records.len() implies newline_free(
                json_fragments(#[trigger] records[i]),
            ) by {
                assert(report_after(start, made(records.take(i))).error is None);
            }
            k
        } else {
            lemma_failed_feed_is_idle(before, record_fragments(records.last()));
            assert forall|i: int|
                0 <= i < head.len() && report_after(start, made(#[trigger] head.take(i))).error
                    is None implies newline_free(json_fragments(head[i])) by {
                assert(head.take(i) =~= records.take(i));
                assert(head[i] == records[i]);
            }
            let k = lemma_reached(maximum, head);
            assert(head.take(k) =~= records.take(k));
            assert forall|i: int| 0 <= i < k implies report_after(
                start,
                made(#[trigger] records.take(i)),
            ).error is None by {
                assert(head.take(i) =~= records.take(i));
            }
            k
        }
    }
}

/// A report that fits under its limit is, line by line, its records' texts, with nothing left
/// over.
pub proof fn complete_report_is_its_records(maximum: nat, records: Seq<JsonView>)
    requires
        written_on_lines(maximum, records),
        stream(records).len() <= maximum,
    ensures
        report_after(fresh(maximum as int), made(records)).error is None,
        lines(report_after(fresh(maximum as int), made(records)).output) == (
            records.map_values(|record: JsonView| record_text(record)),
            Seq::<u8>::empty(),
        ),
{
    lemma_report_after(maximum, records);
    assert forall|i: int| 0 <= i < records.len() implies newline_free(
        json_fragments(#[trigger] records[i]),
    ) by {
        lemma_healthy_before(maximum, records, i);
        assert(report_after(fresh(maximum as int), made(records.take(i))).error is None);
    }
    one_record_per_line(records);
}

/// The lines of a report belong to the records that it came to.
proof fn lemma_lines_are_reached(maximum: nat, records: Seq<JsonView>) -> (k: int)
    requires
        written_on_lines(maximum, records),
    ensures
        0 <= k <= records.len(),
        forall|i: int|
            0 <= i < k ==> report_after(
                fresh(maximum as int),
                made(#[trigger] records.take(i)),
            ).error is None,
        ({
            let (done, rest) = lines(report_after(fresh(maximum as int), made(records)).output);
            &&& done.len() <= k
            &&& forall|i: int|
                0 <= i < done.len() ==> #[trigger] done[i] == record_text(records[i])
            &&& rest.len() > 0 ==> done.len() < k && rest.is_prefix_of(
                record_text(records[done.len() as int]),
            )
        }),
{
    let k = lemma_reached(maximum, records);
    let reached = records.take(k);
    lemma_report_after(maximum, reached);
    one_record_per_line(reached);
    let output = report_after(fresh(maximum as int), made(records)).output;
    lemma_lines_of_prefix(output, stream(reached));
    let done = lines(output).0;
    let all = lines(stream(reached)).0;
    assert forall|i: int| 0 <= i < done.len() implies #[trigger] done[i] == record_text(
        records[i],
    ) by {
        assert(done[i] == all[i]);
    }
    k
}

/// Evidence is never truncated: every finished line of a report, failed or not, is the whole
/// text of the record that stands at its place. What follows the last finished line is how
/// the next record's text begins.
pub proof fn finished_lines_are_whole_records(maximum: nat, records: Seq<JsonView>)
    requires
        written_on_lines(maximum, records),
    ensures
        ({
            let (done, rest) = lines(report_after(fresh(maximum as int), made(records)).output);
            &&& done.len() <= records.len()
            &&& forall|i: int|
                0 <= i < done.len() ==> #[trigger] done[i] == record_text(records[i])
            &&& rest.len() > 0 ==> done.len() < records.len() && rest.is_prefix_of(
                record_text(records[done.len() as int]),
            )
        }),
{
    lemma_lines_are_reached(maximum, records);
}

/// A report that fails over its limit does not finish the line of its last record.
pub proof fn over_budget_report_lacks_its_last_line(maximum: nat, records: Seq<JsonView>)
    requires
        written_on_lines(maximum, records),
        report_after(fresh(maximum as int), made(records)).error is Some,
    ensures
        lines(report_after(fresh(maximum as int), made(records)).output).0.len() < records.len(),
{
    let k = lemma_reached(maximum, records);
    let reached = records.take(k);
    lemma_report_after(maximum, reached);
    one_record_per_line(reached);
    if k > 0 {
        assert(stream(reached).last() == 10);
    }
    lemma_lines_of_prefix(
        report_after(fresh(maximum as int), made(records)).output,
        stream(reached),
    );
}

/// The lines of a report can be read: each finished line of it, read on its own, gives back
/// the record that stands at its place, where that record has no floats and is not nested too
/// deeply.
pub proof fn finished_lines_read_back(maximum: nat, records: Seq<JsonView>)
    requires
        written_on_lines(maximum, records),
    ensures
        written_readably(maximum, records) ==> {
            let done = lines(report_after(fresh(maximum as int), made(records)).output).0;
            &&& stream(records).len() <= maximum ==> done.len() == records.len()
            &&& done.len() <= records.len()
            &&& forall|i: int|
                0 <= i < done.len() && readable(records[i], READ_DEPTH as nat) ==> json_read(
                    #[trigger] done[i],
                ) == Some(records[i])
        },
{
    let k = lemma_lines_are_reached(maximum, records);
    if stream(records).len() <= maximum {
        complete_report_is_its_records(maximum, records);
    }
    if written_readably(maximum, records) {
        let done = lines(report_after(fresh(maximum as int), made(records)).output).0;
        assert forall|i: int|
            0 <= i < done.len() && readable(records[i], READ_DEPTH as nat) implies json_read(
            #[trigger] done[i],
        ) == Some(records[i]) by {
            assert(report_after(fresh(maximum as int), made(records.take(i))).error is None);
        }
    }
}

/// A reader of a report, failed or not, meets no record but those that were written to it. What
/// is read of the line at a place, be it cut short, is an object with the keys and the strings
/// of the record that stands there, or it is nothing.
pub proof fn lines_met_read_as_their_records(maximum: nat, records: Seq<JsonView>)
    requires
        written_on_lines(maximum, records),
        forall|i: int| 0 <= i < records.len() ==> #[trigger] records[i] is Object,
    ensures
        written_readably(maximum, records) ==> {
            let met = lines_met(report_after(fresh(maximum as int), made(records)).output);
            &&& met.len() <= records.len()
            &&& forall|i: int|
                0 <= i < met.len() ==> (json_read(#[trigger] met[i]) matches Some(read)
                    ==> same_strings(records[i]->Object_0, read))
        },
{
    let k = lemma_lines_are_reached(maximum, records);
    if written_readably(maximum, records) {
        let output = report_after(fresh(maximum as int), made(records)).output;
        let (done, rest) = lines(output);
        let met = lines_met(output);
        assert forall|i: int| 0 <= i < met.len() implies (json_read(#[trigger] met[i]) matches Some(
            read,
        ) ==> same_strings(records[i]->Object_0, read)) by {
            assert(report_after(fresh(maximum as int), made(records.take(i))).error is None);
            assert(records[i] is Object);
            let text = record_text(records[i]);
            if i == done.len() {
                assert(met[i] == text.take(rest.len() as int));
                if rest.len() == text.len() {
                    assert(met[i] =~= text);
                }
            } else {
                assert(met[i] == done[i]);
            }
        }
    }
}

/// The last record is written whole or not at all: a report that ends well holds all of it and
/// its newline behind what it held before, and any other holds no byte of it.
pub proof fn last_record_is_whole_or_absent(state: ReportState, record: JsonView)
    requires
        state.remaining >= 0,
    ensures
        ({
            let text = record_text(record).push(10u8);
            let after = finish(state, record);
            &&& state.error is Some ==> after == state
            &&& state.error is None && text.len() <= state.remaining ==> after == (ReportState {
                output: state.output + text,
                remaining: state.remaining - text.len(),
                error: None,
            })
            &&& state.error is None && text.len() > state.remaining ==> after == (ReportState {
                error: Some(ReportError::ExceedsMaxReportBytes),
                ..state
            })
        }),
{
    let fragments = record_fragments(record);
    if state.error is Some {
        lemma_failed_feed_is_idle(state, fragments);
    } else {
        lemma_record_fragments(record);
        lemma_feed(state, fragments);
        lemma_feed_error(state, fragments);
    }
}

/// A report that was ended never holds more bytes than its limit, whatever records it was
/// given.
pub proof fn ended_report_stays_within_its_limit(
    maximum: nat,
    records: Seq<Result<JsonView, ReportError>>,
    last: JsonView,
)
    ensures
        ({
            let report = finish(report_after(fresh(maximum as int), records), last);
            &&& report.output.len() <= maximum
            &&& report.remaining == maximum - report.output.len()
        }),
{
    report_stays_within_its_limit(maximum, records);
    last_record_is_whole_or_absent(report_after(fresh(maximum as int), records), last);
}

/// A report that was ended is complete exactly when all of it fits under the limit, equality
/// included. Otherwise it fails, with the error that says so, and holds what it held of the
/// records before the last.
pub proof fn ended_report_succeeds_iff_it_fits(
    maximum: nat,
    records: Seq<JsonView>,
    last: JsonView,
)
    ensures
        ({
            let whole = stream(records.push(last));
            let before = report_after(fresh(maximum as int), made(records));
            let report = finish(before, last);
            &&& whole.len() <= maximum ==> report == (ReportState {
                output: whole,
                remaining: maximum - whole.len(),
                error: None,
            })
            &&& whole.len() > maximum ==> report == (ReportState {
                error: Some(ReportError::ExceedsMaxReportBytes),
                ..before
            })
        }),
{
    let before = report_after(fresh(maximum as int), made(records));
    lemma_report_after(maximum, records);
    last_record_is_whole_or_absent(before, last);
    assert(records.push(last).drop_last() =~= records);
}

/// Once a write has failed, the rest changes nothing.
proof fn lemma_failed_feed(state: ReportState, fragments: Seq<Seq<u8>>, i: int)
    requires
        0 <= i <= fragments.len(),
        feed(state, fragments.take(i)).error is Some,
    ensures
        feed(state, fragments) == feed(state, fragments.take(i)),
    decreases fragments.len() - i,
{
    if i == fragments.len() {
        assert(fragments.take(i) =~= fragments);
    } else {
        assert(fragments.take(i + 1).drop_last() =~= fragments.take(i));
        lemma_failed_feed(state, fragments, i + 1);
    }
}

/// The state of a destination is what it holds, what it may still take, and how the last write
/// to it ended.
pub proof fn state_shows_the_destination(
    report: BoundedReport<Vec<u8>>,
    result: Result<(), ReportError>,
)
    ensures
        report.state(result).output == report.inner@,
        report.state(result).remaining == report.remaining,
        result is Ok <==> report.state(result).error is None,
        result matches Err(error) ==> report.state(result).error == Some(error),
        forall|maximum: int|
            #![trigger fresh(maximum)]
            report.inner@.len() == 0 && report.remaining == maximum && result is Ok
                ==> report.state(result) == fresh(maximum),
{
    assert forall|maximum: int|
        #![trigger fresh(maximum)]
        report.inner@.len() == 0 && report.remaining == maximum && result is Ok implies report.state(
        result,
    ) == fresh(maximum) by {
        assert(report.inner@ =~= Seq::<u8>::empty());
    }
}

proof fn lemma_feed_stops(state: ReportState, fragments: Seq<Seq<u8>>) -> (k: int)
    requires
        state.error is None,
        state.remaining >= 0,
    ensures
        0 <= k <= fragments.len(),
        feed(state, fragments).output == state.output + joined(fragments.take(k)),
        feed(state, fragments).remaining == state.remaining - joined(fragments.take(k)).len(),
        feed(state, fragments).remaining >= 0,
        k == fragments.len() ==> feed(state, fragments).error is None,
        k < fragments.len() ==> feed(state, fragments).error == Some(
            ReportError::ExceedsMaxReportBytes,
        ) && fragments[k].len() > feed(state, fragments).remaining,
    decreases fragments.len(),
{
    if fragments.len() == 0 {
        assert(fragments.take(0) =~= fragments);
        assert(state.output + joined(fragments) =~= state.output);
        0
    } else {
        let head = fragments.drop_last();
        let k = lemma_feed_stops(state, head);
        let before = feed(state, head);
        assert(head.take(k) =~= fragments.take(k));
        if k < head.len() {
            assert(fragments[k] == head[k]);
            k
        } else if fragments.last().len() <= before.remaining {
            let all = fragments.len() as int;
            assert(fragments.take(all) =~= fragments);
            assert(head.take(k) =~= head);
            assert((state.output + joined(head)) + fragments.last() =~= state.output + joined(
                fragments,
            ));
            all
        } else {
            k
        }
    }
}

/// Pieces are written in order, each of them whole, until one does not fit; that one and those
/// after it are not, and the write fails. Nothing else changes what is written.
pub proof fn pieces_are_written_until_one_does_not_fit(state: ReportState, pieces: Seq<Seq<u8>>)
    requires
        state.error is None,
        state.remaining >= 0,
    ensures
        exists|k: int|
            #![trigger pieces.take(k)]
            {
                let after = feed(state, pieces);
                &&& 0 <= k <= pieces.len()
                &&& after.output == state.output + joined(pieces.take(k))
                &&& after.remaining == state.remaining - joined(pieces.take(k)).len()
                &&& k == pieces.len() ==> after.error is None
                &&& k < pieces.len() ==> after.error == Some(ReportError::ExceedsMaxReportBytes)
                    && pieces[k].len() > after.remaining
            },
{
    let k = lemma_feed_stops(state, pieces);
    assert(pieces.take(k) == pieces.take(k));
}

/// A record is written as the pieces of its JSON text and then a newline. Where all of it fits
/// that is what the report holds more than before; otherwise it holds the pieces up to the first
/// that does not fit, and fails.
pub proof fn record_is_written_piece_by_piece(state: ReportState, record: JsonView)
    requires
        state.error is None,
        state.remaining >= 0,
    ensures
        joined(json_fragments(record)).len() < state.remaining ==> attempt(state, Ok(record)) == (
        ReportState {
            output: state.output + joined(json_fragments(record)).push(10u8),
            remaining: state.remaining - joined(json_fragments(record)).len() - 1,
            error: None,
        }),
        joined(json_fragments(record)).len() >= state.remaining ==> exists|k: int|
            #![trigger json_fragments(record).take(k)]
            {
                let after = attempt(state, Ok(record));
                let pieces = json_fragments(record);
                &&& 0 <= k <= pieces.len()
                &&& after.output == state.output + joined(pieces.take(k))
                &&& after.remaining == state.remaining - joined(pieces.take(k)).len()
                &&& after.error == Some(ReportError::ExceedsMaxReportBytes)
                &&& k < pieces.len() ==> pieces[k].len() > after.remaining
                &&& k == pieces.len() ==> after.remaining == 0
            },
{
    let fragments = record_fragments(record);
    let pieces = json_fragments(record);
    lemma_record_fragments(record);
    lemma_feed(state, fragments);
    let k = lemma_feed_stops(state, fragments);
    if k < fragments.len() {
        assert(fragments.take(k) =~= pieces.take(k));
        if k < pieces.len() {
            assert(fragments[k] == pieces[k]);
        }
    }
}

/// A failed report stays as it is, whether the next record could be made or not; a report that
/// has not failed keeps what it holds and fails with the error of a record that could not be made.
pub proof fn record_that_cannot_be_written_changes_no_bytes(
    state: ReportState,
    record: Result<JsonView, ReportError>,
)
    ensures
        state.error is Some ==> attempt(state, record) == state,
        state.error is None ==> (record matches Err(error) ==> attempt(state, record) == (ReportState {
            output: state.output,
            remaining: state.remaining,
            error: Some(error),
        })),
{
    if state.error is Some {
        if let Ok(value) = record {
            lemma_failed_feed_is_idle(state, record_fragments(value));
        }
    }
}

/// Records are written in turn: those of a list of one as that one is, and those of two lists as
/// the one's and then the other's.
pub proof fn records_are_written_in_turn(
    state: ReportState,
    record: Result<JsonView, ReportError>,
    first: Seq<Result<JsonView, ReportError>>,
    second: Seq<Result<JsonView, ReportError>>,
)
    ensures
        report_after(state, Seq::empty()) == state,
        report_after(state, seq![record]) == attempt(state, record),
        report_after(state, first + second) == report_after(report_after(state, first), second),
{
    assert(seq![record].drop_last() =~= Seq::empty());
    assert(report_after(state, Seq::empty()) == state);
    lemma_report_after_concat(state, first, second);
}

/// The whole of a report is its records' JSON texts, each with a newline, one after the other.
pub proof fn stream_is_texts_and_newlines(
    record: JsonView,
    first: Seq<JsonView>,
    second: Seq<JsonView>,
)
    ensures
        stream(Seq::empty()) == Seq::<u8>::empty(),
        stream(seq![record]) == joined(json_fragments(record)).push(10u8),
        stream(first + second) == stream(first) + stream(second),
        made(first).len() == first.len(),
        forall|i: int| 0 <= i < first.len() ==> #[trigger] made(first)[i] == Ok::<
            JsonView,
            ReportError,
        >(first[i]),
    decreases second.len(),
{
    assert(seq![record].drop_last() =~= Seq::empty());
    assert(stream(Seq::<JsonView>::empty()) =~= Seq::<u8>::empty());
    assert(stream(seq![record]) =~= joined(json_fragments(record)).push(10u8));
    if second.len() == 0 {
        assert(first + second =~= first);
        assert(stream(first) + stream(second) =~= stream(first));
    } else {
        stream_is_texts_and_newlines(record, first, second.drop_last());
        assert((first + second).drop_last() =~= first + second.drop_last());
        assert(stream(first + second) =~= stream(first) + stream(second));
    }
}

/// Lines are what newlines part: none of them has one in it, and with a newline after each and
/// the rest behind them they are the bytes.
pub proof fn lines_part_the_bytes(bytes: Seq<u8>)
    ensures
        ({
            let (done, rest) = lines(bytes);
            &&& newline_free(done)
            &&& forall|j: int| 0 <= j < rest.len() ==> #[trigger] rest[j] != 10
            &&& joined(done.map_values(|line: Seq<u8>| line.push(10u8))) + rest == bytes
        }),
    decreases bytes.len(),
{
    let end = |line: Seq<u8>| line.push(10u8);
    let (done, rest) = lines(bytes);
    if bytes.len() == 0 {
        assert(done.map_values(end) =~= Seq::empty());
        assert(joined(done.map_values(end)) + rest =~= bytes);
    } else {
        lines_part_the_bytes(bytes.drop_last());
        let (before, open) = lines(bytes.drop_last());
        if bytes.last() == 10 {
            assert(done.map_values(end).drop_last() =~= before.map_values(end));
            assert forall|i: int, j: int|
                #![trigger done[i][j]]
                0 <= i < done.len() && 0 <= j < done[i].len() implies done[i][j] != 10 by {
                if i < before.len() {
                    assert(done[i][j] == before[i][j]);
                } else {
                    assert(done[i][j] == open[j]);
                }
            }
            assert(joined(done.map_values(end)) + rest =~= (joined(before.map_values(end)) + open).push(
                10u8,
            ));
        } else {
            assert(joined(done.map_values(end)) + rest =~= (joined(before.map_values(end)) + open).push(
                bytes.last(),
            ));
        }
        assert(bytes =~= bytes.drop_last().push(bytes.last()));
    }
}

} // verus!
