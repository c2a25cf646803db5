//! Verified core of a video-transcript pipeline: locating an embedded JSON
//! blob inside an HTML page, navigating it to a caption-track URL, parsing a
//! timed-text feed into timed entries, re-bucketing the entries into
//! fixed-width time windows, and rendering `[MM:SS]`-prefixed lines.
//!
//! Time offsets are held as integer milliseconds throughout; the feeds give
//! decimal seconds, which the parser converts exactly (truncating past the
//! third fractional digit). Network fetching and file output live outside
//! this crate; it works on plain text handed in and returns plain values.
use vstd::prelude::*;

pub mod extract;
pub mod json;
pub mod normalize;
pub mod render;
pub mod timedtext;
pub mod text;

verus! {

/// The terminal outcomes of one pipeline run, besides success.
/// Transport failures are raised by the (unverified) fetching caller,
/// not by this crate.
#[derive(Clone, Copy, Debug, PartialEq, Eq, Structural)]
pub enum TranscriptError {
    /// The start marker of the embedded data blob is absent from the page.
    NotFound,
    /// The extracted blob is not valid JSON.
    MalformedData,
    /// The data holds no usable caption track (an expected outcome).
    NoCaptions,
    /// A numeric attribute of a timed-text element failed to parse.
    MalformedNumber,
    /// The feed parsed but held no recognizable timed-text element.
    EmptyTranscript,
}

impl TranscriptError {
    /// A human-readable description of the outcome.
    pub fn describe(&self) -> (r: &'static str)
        ensures
            r@ == self.spec_describe(),
    {
        match self {
            TranscriptError::NotFound => "Cannot find player data",
            TranscriptError::MalformedData => "Player data is not valid JSON",
            TranscriptError::NoCaptions => "No captions found for this video",
            TranscriptError::MalformedNumber => "Malformed number in transcript data",
            TranscriptError::EmptyTranscript => "No transcript lines found in the response",
        }
    }

    pub open spec fn spec_describe(self) -> Seq<char> {
        match self {
            TranscriptError::NotFound => "Cannot find player data"@,
            TranscriptError::MalformedData => "Player data is not valid JSON"@,
            TranscriptError::NoCaptions => "No captions found for this video"@,
            TranscriptError::MalformedNumber => "Malformed number in transcript data"@,
            TranscriptError::EmptyTranscript => "No transcript lines found in the response"@,
        }
    }
}

} // verus!
