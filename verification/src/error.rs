//! Why a report could not be made.
use vstd::prelude::*;

verus! {

/// Why a report could not be made.
#[derive(Clone, Copy, Debug, PartialEq, Eq, Structural)]
pub enum ReportError {
    /// No size threshold was given, or it was zero.
    MissingThreshold,
    /// No limit on the report's size was given.
    MissingMaxReportBytes,
    /// A path has no encoding on this platform.
    UnencodablePath,
    /// The next bytes do not fit under the report's limit.
    ExceedsMaxReportBytes,
}

impl ReportError {
    /// The message for a user.
    pub open spec fn message_text(self) -> Seq<char> {
        match self {
            ReportError::MissingThreshold
            => "exclusion reports require a positive explicit size threshold"@,
            ReportError::MissingMaxReportBytes => "exclusion reports require max-report-bytes"@,
            ReportError::UnencodablePath => "unencodable source path"@,
            ReportError::ExceedsMaxReportBytes => "exclusion report exceeds max-report-bytes"@,
        }
    }

    /// The message for a user.
    pub fn message(&self) -> (r: String)
        ensures
            r@ == self.message_text(),
    {
        match self {
            ReportError::MissingThreshold
            => "exclusion reports require a positive explicit size threshold".to_owned(),
            ReportError::MissingMaxReportBytes
            => "exclusion reports require max-report-bytes".to_owned(),
            ReportError::UnencodablePath => "unencodable source path".to_owned(),
            ReportError::ExceedsMaxReportBytes
            => "exclusion report exceeds max-report-bytes".to_owned(),
        }
    }
}

} // verus!
