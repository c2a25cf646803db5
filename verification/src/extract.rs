//! Embedded-data extraction: isolating a JSON-like blob between two textual
//! markers inside an HTML page, and building the page URL for a video id.
//!
//! Marker search is a best-effort textual anchor, not an HTML parser: the
//! blob sits in a script region whose exact boundary syntax is not
//! guaranteed, so robustness to drift matters more than strictness.
use vstd::prelude::*;
use vstd::string::StrSliceExecFns;
use vstd::string::StringExecFns;

use crate::text::find_from;
use crate::text::first_occurrence_from;
use crate::text::str_to_chars;

verus! {

/// What lies strictly between the end of the first occurrence of `sm` and
/// the next occurrence of `em` after it: `None` when `sm` is absent, and the
/// whole remainder when `em` is absent after `sm` (the document may be
/// truncated or end otherwise than expected).
pub open spec fn extract_between_spec(h: Seq<char>, sm: Seq<char>, em: Seq<char>) -> Option<
    Seq<char>,
> {
    match first_occurrence_from(h, sm, 0) {
        None => None,
        Some(i) => {
            let p = i + sm.len();
            match first_occurrence_from(h, em, p) {
                Some(j) => Some(h.subrange(p, j)),
                None => Some(h.subrange(p, h.len() as int)),
            }
        },
    }
}

/// Returns the text strictly between `start_marker` and the following
/// `end_marker`, or `None` when the start marker is absent.
pub fn extract_between<'a>(html: &'a str, start_marker: &str, end_marker: &str) -> (r: Option<
    &'a str,
>)
    ensures
        match r {
            Some(t) => extract_between_spec(html@, start_marker@, end_marker@) == Some(t@),
            None => extract_between_spec(html@, start_marker@, end_marker@) is None,
        },
{
    let hc = str_to_chars(html);
    let sc = str_to_chars(start_marker);
    let ec = str_to_chars(end_marker);
    let hn = html.unicode_len();
    match find_from(hc.as_slice(), sc.as_slice(), 0) {
        None => None,
        Some(i) => {
            proof {
                crate::text::lemma_first_occurrence_props(html@, start_marker@, 0);
            }
            let p = i + start_marker.unicode_len();
            match find_from(hc.as_slice(), ec.as_slice(), p) {
                Some(j) => {
                    proof {
                        crate::text::lemma_first_occurrence_props(html@, end_marker@, p as int);
                    }
                    Some(html.substring_char(p, j))
                },
                None => Some(html.substring_char(p, hn)),
            }
        },
    }
}

/// The data blob of a video page: the text between the player-response
/// assignment marker and the closing script marker.
pub fn extract_json(html: &str) -> (r: Option<&str>)
    ensures
        match r {
            Some(t) => extract_between_spec(
                html@,
                "ytInitialPlayerResponse = "@,
                ";</script>"@,
            ) == Some(t@),
            None => extract_between_spec(html@, "ytInitialPlayerResponse = "@, ";</script>"@)
                is None,
        },
{
    extract_between(html, "ytInitialPlayerResponse = ", ";</script>")
}

/// The watch-page URL for a video id.
pub fn build_youtube_url(video_id: &str) -> (r: String)
    ensures
        r@ == "https://www.youtube.com/watch?v="@ + video_id@,
{
    let mut r = String::from_str("https://www.youtube.com/watch?v=");
    r.append(video_id);
    r
}

} // verus!
