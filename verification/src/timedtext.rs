//! The timed-text parser: turns a caption feed (XML-like markup) into timed
//! entries. An element matches the pattern `<text ...>TEXT</text>` whose tag
//! carries `start="S"` and `dur="D"` attributes, in any order and among any
//! other attributes; `TEXT` runs to the next `<`, which must open `</text>`.
//! Self-closing or empty elements never match; nested variants are an
//! accepted, documented limitation. `S` and `D` are unsigned decimal second
//! counts; entity escapes in `TEXT` are decoded.
use vstd::prelude::*;

use crate::text::chars_to_string;
use crate::text::find_from;
use crate::text::first_occurrence_from;
use crate::text::lemma_first_occurrence_props;
use crate::text::matches_at;
use crate::text::number_ms;
use crate::text::occurs_at;
use crate::text::parse_number_ms;
use crate::text::str_to_chars;
use crate::text::valid_number;
use crate::TranscriptError;

verus! {

/// One caption span: its text with entities decoded, and its start offset
/// and duration in whole milliseconds.
pub struct TranscriptEntry {
    pub text: String,
    pub start_ms: u64,
    pub duration_ms: u64,
}

/// The mathematical image of one entry.
pub struct SpecEntry {
    pub text: Seq<char>,
    pub start_ms: int,
    pub dur_ms: int,
}

impl View for TranscriptEntry {
    type V = SpecEntry;

    open spec fn view(&self) -> SpecEntry {
        SpecEntry { text: self.text@, start_ms: self.start_ms as int, dur_ms: self.duration_ms as int }
    }
}

/// The images of a sequence of entries.
pub open spec fn entry_views(s: Seq<TranscriptEntry>) -> Seq<SpecEntry> {
    s.map_values(|e: TranscriptEntry| e@)
}

/// What the entity decoder yields on `s`: a function of the characters
/// alone.
pub uninterp spec fn decoded_entities(s: Seq<char>) -> Seq<char>;

/// Relies on `html_escape::decode_html_entities`: decodes exact named and
/// numeric character references ending in `;` to their literal characters.
#[verifier::external_body]
pub fn decode_entities(s: &str) -> (r: String)
    ensures
        r@ == decoded_entities(s@),
{
    String::from(html_escape::decode_html_entities(s))
}

/// The value of the first `name` attribute (the needle includes `="`) whose
/// opening lies wholly inside the tag region `[a0, g)`: the characters up to
/// the next `"`, which must be non-empty and must close before `g`.
pub open spec fn attr_value(h: Seq<char>, a0: int, g: int, name: Seq<char>) -> Option<Seq<char>> {
    match first_occurrence_from(h, name, a0) {
        None => None,
        Some(q) => {
            let lo = q + name.len();
            if lo <= g {
                match first_occurrence_from(h, "\""@, lo) {
                    None => None,
                    Some(v) => if lo < v < g {
                        Some(h.subrange(lo, v))
                    } else {
                        None
                    },
                }
            } else {
                None
            }
        },
    }
}

/// The outcome of looking for the next matching element at or after `pos`.
pub enum ScanStep {
    /// No further candidate: scanning is over.
    Done,
    /// A candidate that fails the pattern; scanning resumes at `next`.
    Skip { next: int },
    /// A match: the raw `start`, `dur` and content characters, and where
    /// scanning resumes.
    Hit { sv: Seq<char>, dv: Seq<char>, cv: Seq<char>, next: int },
}

/// One scanning step: find `<text `, the end of its tag, its attributes,
/// its content and its `</text>` terminator. The `next` positions are
/// clamped to move forward, which never changes their value (a found marker
/// never lies before the search start) but keeps the recursion visibly
/// well-founded.
pub open spec fn scan_step(h: Seq<char>, pos: int) -> ScanStep {
    match first_occurrence_from(h, "<text "@, pos) {
        None => ScanStep::Done,
        Some(t0) => {
            let a0 = t0 + "<text "@.len();
            match first_occurrence_from(h, ">"@, a0) {
                None => ScanStep::Done,
                Some(g) => {
                    if h[g - 1] == '/' {
                        // A self-closing element never matches.
                        ScanStep::Skip { next: clamp_after(g + 1, pos) }
                    } else {
                        let cs = g + 1;
                        match first_occurrence_from(h, "<"@, cs) {
                            None => ScanStep::Done,
                            Some(lt) => {
                                if lt > cs && occurs_at(h, "</text>"@, lt) {
                                    match (attr_value(h, a0, g, "start=\""@), attr_value(h, a0, g, "dur=\""@)) {
                                        (Some(sv), Some(dv)) => ScanStep::Hit {
                                            sv,
                                            dv,
                                            cv: h.subrange(cs, lt),
                                            next: clamp_after(lt + "</text>"@.len(), pos),
                                        },
                                        _ => ScanStep::Skip { next: clamp_after(t0 + 1, pos) },
                                    }
                                } else {
                                    ScanStep::Skip { next: clamp_after(t0 + 1, pos) }
                                }
                            },
                        }
                    }
                },
            }
        },
    }
}

/// `x`, clamped to lie strictly after `pos`.
pub open spec fn clamp_after(x: int, pos: int) -> int {
    if x > pos {
        x
    } else {
        pos + 1
    }
}

/// The entries of every matching element at or after `pos`, in feed order;
/// `Err` as soon as one match carries a `start` or `dur` that is not a valid
/// decimal or does not fit in a `u64` of milliseconds — one bad entry makes
/// the whole feed untrustworthy. The bound on `next` can never bind (a step
/// never runs past the end of the text plus one) and only keeps the
/// recursion visibly well-founded.
pub open spec fn scan_from(h: Seq<char>, pos: int) -> Result<Seq<SpecEntry>, ()>
    decreases 2 * h.len() + 3 - pos when 0 <= pos
{
    match scan_step(h, pos) {
        ScanStep::Done => Ok(Seq::empty()),
        ScanStep::Skip { next } => if next <= 2 * h.len() + 2 {
            scan_from(h, next)
        } else {
            Ok(Seq::empty())
        },
        ScanStep::Hit { sv, dv, cv, next } => {
            if valid_number(sv) && number_ms(sv) <= u64::MAX && valid_number(dv) && number_ms(dv)
                <= u64::MAX {
                if next <= 2 * h.len() + 2 {
                    match scan_from(h, next) {
                        Ok(rest) => Ok(
                            seq![
                                SpecEntry {
                                    text: decoded_entities(cv),
                                    start_ms: number_ms(sv),
                                    dur_ms: number_ms(dv),
                                },
                            ] + rest,
                        ),
                        Err(e) => Err(e),
                    }
                } else {
                    Ok(Seq::empty())
                }
            } else {
                Err(())
            }
        },
    }
}

/// The outcome of parsing a whole feed: its entries, `EmptyTranscript` when
/// no element matches, `MalformedNumber` when a matched number is bad.
pub open spec fn parse_outcome(h: Seq<char>) -> Result<Seq<SpecEntry>, TranscriptError> {
    match scan_from(h, 0) {
        Err(_) => Err(TranscriptError::MalformedNumber),
        Ok(es) => if es.len() == 0 {
            Err(TranscriptError::EmptyTranscript)
        } else {
            Ok(es)
        },
    }
}

/// Finds one attribute value inside the tag region `[a0, g)`, returning the
/// bounds of its characters.
fn find_attr(hc: &[char], a0: usize, g: usize, name: &[char], quote: &[char]) -> (r: Option<
    (usize, usize),
>)
    requires
        quote@ == "\""@,
    ensures
        match r {
            Some(b) => b.0 <= b.1 <= hc@.len() && attr_value(hc@, a0 as int, g as int, name@)
                == Some(hc@.subrange(b.0 as int, b.1 as int)),
            None => attr_value(hc@, a0 as int, g as int, name@) is None,
        },
{
    let hn = hc.len();
    match find_from(hc, name, a0) {
        None => None,
        Some(q) => {
            proof {
                lemma_first_occurrence_props(hc@, name@, a0 as int);
            }
            let lo = q + name.len();
            if lo > g {
                return None;
            }
            match find_from(hc, quote, lo) {
                None => None,
                Some(v) => {
                    proof {
                        lemma_first_occurrence_props(hc@, quote@, lo as int);
                    }
                    if lo < v && v < g {
                        Some((lo, v))
                    } else {
                        None
                    }
                },
            }
        },
    }
}

/// Wraps up a finished scan: no match at all is `EmptyTranscript`.
fn finish_entries(out: Vec<TranscriptEntry>, Ghost(h): Ghost<Seq<char>>) -> (r: Result<
    Vec<TranscriptEntry>,
    TranscriptError,
>)
    requires
        scan_from(h, 0) == Ok::<Seq<SpecEntry>, ()>(entry_views(out@)),
    ensures
        match (r, parse_outcome(h)) {
            (Ok(v), Ok(es)) => entry_views(v@) == es,
            (Err(e), Err(se)) => e == se,
            _ => false,
        },
{
    if out.len() == 0 {
        assert(entry_views(out@).len() == 0);
        Err(TranscriptError::EmptyTranscript)
    } else {
        assert(entry_views(out@).len() > 0);
        Ok(out)
    }
}

/// Parses a caption feed into its timed entries; the exact outcome,
/// including which error stops a bad feed, is `parse_outcome`.
pub fn parse_timed_text(feed: &str) -> (r: Result<Vec<TranscriptEntry>, TranscriptError>)
    ensures
        match (r, parse_outcome(feed@)) {
            (Ok(v), Ok(es)) => entry_views(v@) == es,
            (Err(e), Err(se)) => e == se,
            _ => false,
        },
{
    let hc_v = str_to_chars(feed);
    let open_v = str_to_chars("<text ");
    let gt_v = str_to_chars(">");
    let lt_v = str_to_chars("<");
    let close_v = str_to_chars("</text>");
    let quote_v = str_to_chars("\"");
    let start_v = str_to_chars("start=\"");
    let dur_v = str_to_chars("dur=\"");
    let ghost h = feed@;
    let mut out: Vec<TranscriptEntry> = Vec::new();
    let mut pos: usize = 0;
    loop
        invariant
            h == feed@,
            hc_v@ == h,
            open_v@ == "<text "@,
            gt_v@ == ">"@,
            lt_v@ == "<"@,
            close_v@ == "</text>"@,
            quote_v@ == "\""@,
            start_v@ == "start=\""@,
            dur_v@ == "dur=\""@,
            pos <= h.len() + 1,
            match scan_from(h, pos as int) {
                Ok(rest) => scan_from(h, 0) == Ok::<Seq<SpecEntry>, ()>(
                    entry_views(out@) + rest,
                ),
                Err(er) => scan_from(h, 0) == Err::<Seq<SpecEntry>, ()>(er),
            },
        decreases 2 * h.len() + 3 - pos,
    {
        let hc = hc_v.as_slice();
        let hn = hc_v.len();
        let ghost pos0 = pos as int;
        proof {
            reveal_strlit("<text ");
            reveal_strlit(">");
            reveal_strlit("<");
            reveal_strlit("</text>");
            reveal_strlit("\"");
            reveal_strlit("start=\"");
            reveal_strlit("dur=\"");
        }
        let t0 = match find_from(hc, open_v.as_slice(), pos) {
            None => {
                assert(scan_step(h, pos0) == ScanStep::Done);
                assert(entry_views(out@) + Seq::<SpecEntry>::empty() =~= entry_views(out@));
                return finish_entries(out, Ghost(h));
            },
            Some(t) => t,
        };
        proof {
            lemma_first_occurrence_props(h, "<text "@, pos0);
        }
        let a0 = t0 + open_v.len();
        let g = match find_from(hc, gt_v.as_slice(), a0) {
            None => {
                assert(scan_step(h, pos0) == ScanStep::Done);
                assert(entry_views(out@) + Seq::<SpecEntry>::empty() =~= entry_views(out@));
                return finish_entries(out, Ghost(h));
            },
            Some(x) => x,
        };
        proof {
            lemma_first_occurrence_props(h, ">"@, a0 as int);
        }
        if hc[g - 1] == '/' {
            assert(scan_step(h, pos0) == (ScanStep::Skip { next: g + 1 }));
            pos = g + 1;
            continue ;
        }
        let cs = g + 1;
        let lt = match find_from(hc, lt_v.as_slice(), cs) {
            None => {
                assert(scan_step(h, pos0) == ScanStep::Done);
                assert(entry_views(out@) + Seq::<SpecEntry>::empty() =~= entry_views(out@));
                return finish_entries(out, Ghost(h));
            },
            Some(x) => x,
        };
        proof {
            lemma_first_occurrence_props(h, "<"@, cs as int);
        }
        let closed = lt > cs && hc_v.len() - lt >= close_v.len() && matches_at(
            hc,
            close_v.as_slice(),
            lt,
        );
        if !closed {
            assert(scan_step(h, pos0) == (ScanStep::Skip { next: clamp_after(t0 + 1, pos0) }));
            pos = t0 + 1;
            continue ;
        }
        let sb = find_attr(hc, a0, g, start_v.as_slice(), quote_v.as_slice());
        let db = find_attr(hc, a0, g, dur_v.as_slice(), quote_v.as_slice());
        let (slo, shi, dlo, dhi): (usize, usize, usize, usize) = match (sb, db) {
            (Some(s), Some(d)) => (s.0, s.1, d.0, d.1),
            _ => {
                assert(scan_step(h, pos0) == (ScanStep::Skip {
                    next: clamp_after(t0 + 1, pos0),
                }));
                pos = t0 + 1;
                continue ;
            },
        };
        let ghost sv = h.subrange(slo as int, shi as int);
        let ghost dv = h.subrange(dlo as int, dhi as int);
        let ghost cv = h.subrange(cs as int, lt as int);
        assert(scan_step(h, pos0) == (ScanStep::Hit {
            sv,
            dv,
            cv,
            next: clamp_after(lt + "</text>"@.len(), pos0),
        }));
        let sms = match parse_number_ms(&hc[slo..shi]) {
            Some(x) => x,
            None => {
                assert(scan_from(h, pos0) == Err::<Seq<SpecEntry>, ()>(()));
                return Err(TranscriptError::MalformedNumber);
            },
        };
        let dms = match parse_number_ms(&hc[dlo..dhi]) {
            Some(x) => x,
            None => {
                assert(scan_from(h, pos0) == Err::<Seq<SpecEntry>, ()>(()));
                return Err(TranscriptError::MalformedNumber);
            },
        };
        let ctext = chars_to_string(&hc[cs..lt]);
        let text = decode_entities(ctext.as_str());
        let entry = TranscriptEntry { text, start_ms: sms, duration_ms: dms };
        let ghost out0 = out@;
        let ghost e = entry@;
        out.push(entry);
        pos = lt + close_v.len();
        proof {
            assert(e == SpecEntry {
                text: decoded_entities(cv),
                start_ms: number_ms(sv),
                dur_ms: number_ms(dv),
            });
            assert(entry_views(out@) =~= entry_views(out0) + seq![e]);
            match scan_from(h, pos as int) {
                Ok(rest) => {
                    assert(scan_from(h, pos0) == Ok::<Seq<SpecEntry>, ()>(seq![e] + rest));
                    assert(entry_views(out0) + (seq![e] + rest) =~= entry_views(out@) + rest);
                },
                Err(er) => {
                    assert(scan_from(h, pos0) == Err::<Seq<SpecEntry>, ()>(er));
                },
            }
        }
    }
}

} // verus!
