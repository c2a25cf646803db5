//! The caption-track locator: a model of the parts of a JSON tree the
//! pipeline reads, a trusted parse through serde_json, and the verified walk
//! `captions -> playerCaptionsTracklistRenderer -> captionTracks -> [0] ->
//! baseUrl`.
use vstd::prelude::*;

use crate::extract::extract_between_spec;
use crate::extract::extract_json;
use crate::text::str_eq;
use crate::TranscriptError;

verus! {

/// A JSON tree, holding as plain values exactly what the locator reads.
/// Scalar leaves (null, booleans, numbers) are never inspected, so they
/// carry no payload here.
pub enum JsonVal {
    Scalar,
    Str(String),
    Arr(Vec<JsonVal>),
    Obj(Vec<(String, JsonVal)>),
}

#[verifier::external_type_specification]
#[verifier::external_body]
pub struct ExValue(serde_json::Value);

/// What parsing `s` as JSON yields in this crate's model: `None` exactly on
/// invalid JSON. The tree is a function of the text alone.
pub uninterp spec fn parsed_json(s: Seq<char>) -> Option<JsonVal>;

/// Relies on `serde_json::from_str::<serde_json::Value>`: parses the text as
/// JSON, failing exactly on input that is not valid JSON; the tree comes
/// back through `raw_to_model`.
#[verifier::external_body]
pub fn parse_json(s: &str) -> (r: Option<JsonVal>)
    ensures
        r == parsed_json(s@),
{
    match serde_json::from_str::<serde_json::Value>(s) {
        Ok(v) => Some(raw_to_model(&v)),
        Err(_) => None,
    }
}

/// Relies on `serde_json::Value`: converts its tree into this crate's model,
/// one variant per arm; strings, arrays and objects keep their contents, and
/// scalar leaves collapse to `Scalar`.
#[verifier::external_body]
fn raw_to_model(v: &serde_json::Value) -> JsonVal {
    match v {
        serde_json::Value::Null => JsonVal::Scalar,
        serde_json::Value::Bool(_) => JsonVal::Scalar,
        serde_json::Value::Number(_) => JsonVal::Scalar,
        serde_json::Value::String(s) => JsonVal::Str(s.clone()),
        serde_json::Value::Array(a) => JsonVal::Arr(a.iter().map(raw_to_model).collect()),
        serde_json::Value::Object(m) => JsonVal::Obj(
            m.iter().map(|p| (p.0.clone(), raw_to_model(p.1))).collect(),
        ),
    }
}

/// The value under the first pair of `pairs` whose key reads `key`.
pub open spec fn obj_lookup(pairs: Seq<(String, JsonVal)>, key: Seq<char>) -> Option<JsonVal>
    decreases pairs.len(),
{
    if pairs.len() == 0 {
        None
    } else if pairs[0].0@ == key {
        Some(pairs[0].1)
    } else {
        obj_lookup(pairs.skip(1), key)
    }
}

/// The member of `v` named `key`: `None` when `v` is no object or has no
/// such member.
pub open spec fn spec_get(v: JsonVal, key: Seq<char>) -> Option<JsonVal> {
    match v {
        JsonVal::Obj(pairs) => obj_lookup(pairs@, key),
        _ => None,
    }
}

/// Looks up `key` in `v`.
pub fn json_get<'a>(v: &'a JsonVal, key: &str) -> (r: Option<&'a JsonVal>)
    ensures
        match r {
            Some(x) => spec_get(*v, key@) == Some(*x),
            None => spec_get(*v, key@) is None,
        },
{
    match v {
        JsonVal::Obj(pairs) => {
            let n = pairs.len();
            assert(pairs@.skip(0) =~= pairs@);
            let mut i: usize = 0;
            while i < n
                invariant
                    *v == JsonVal::Obj(*pairs),
                    n == pairs@.len(),
                    i <= n,
                    obj_lookup(pairs@, key@) == obj_lookup(pairs@.skip(i as int), key@),
                decreases n - i,
            {
                let ghost tail = pairs@.skip(i as int);
                assert(tail[0] == pairs@[i as int]);
                assert(tail.skip(1) =~= pairs@.skip(i + 1));
                if str_eq(pairs[i].0.as_str(), key) {
                    assert(obj_lookup(tail, key@) == Some(tail[0].1));
                    return Some(&pairs[i].1);
                }
                i += 1;
            }
            assert(pairs@.skip(n as int) =~= Seq::<(String, JsonVal)>::empty());
            None
        },
        _ => None,
    }
}

/// Where the first caption track's URL stands in the tree, if anywhere: the
/// fixed path `captions -> playerCaptionsTracklistRenderer -> captionTracks`
/// must lead to a non-empty array whose first element carries a string
/// member `baseUrl`. Track selection is deliberately "first track only".
pub open spec fn locate_caption_url_spec(v: JsonVal) -> Option<Seq<char>> {
    match spec_get(v, "captions"@) {
        None => None,
        Some(c) => match spec_get(c, "playerCaptionsTracklistRenderer"@) {
            None => None,
            Some(p) => match spec_get(p, "captionTracks"@) {
                None => None,
                Some(t) => match t {
                    JsonVal::Arr(tracks) => if tracks@.len() == 0 {
                        None
                    } else {
                        match spec_get(tracks@[0], "baseUrl"@) {
                            Some(JsonVal::Str(u)) => Some(u@),
                            _ => None,
                        }
                    },
                    _ => None,
                },
            },
        },
    }
}

/// Walks the tree to the first caption track's URL. `NoCaptions` on any
/// missing step or unexpected shape: an expected outcome (the video has no
/// captions), not a defect.
pub fn locate_caption_url(v: &JsonVal) -> (r: Result<String, TranscriptError>)
    ensures
        match r {
            Ok(u) => locate_caption_url_spec(*v) == Some(u@),
            Err(e) => e == TranscriptError::NoCaptions && locate_caption_url_spec(*v) is None,
        },
{
    let c = match json_get(v, "captions") {
        Some(x) => x,
        None => {
            return Err(TranscriptError::NoCaptions);
        },
    };
    let p = match json_get(c, "playerCaptionsTracklistRenderer") {
        Some(x) => x,
        None => {
            return Err(TranscriptError::NoCaptions);
        },
    };
    let t = match json_get(p, "captionTracks") {
        Some(x) => x,
        None => {
            return Err(TranscriptError::NoCaptions);
        },
    };
    match t {
        JsonVal::Arr(tracks) => {
            if tracks.len() == 0 {
                return Err(TranscriptError::NoCaptions);
            }
            match json_get(&tracks[0], "baseUrl") {
                Some(JsonVal::Str(u)) => Ok(u.clone()),
                _ => Err(TranscriptError::NoCaptions),
            }
        },
        _ => Err(TranscriptError::NoCaptions),
    }
}

/// The outcome of reading a whole video page: extract the embedded blob,
/// parse it as JSON, and locate the first caption track's URL.
pub open spec fn caption_url_outcome(h: Seq<char>) -> Result<Seq<char>, TranscriptError> {
    match extract_between_spec(h, "ytInitialPlayerResponse = "@, ";</script>"@) {
        None => Err(TranscriptError::NotFound),
        Some(blob) => match parsed_json(blob) {
            None => Err(TranscriptError::MalformedData),
            Some(tree) => match locate_caption_url_spec(tree) {
                Some(u) => Ok(u),
                None => Err(TranscriptError::NoCaptions),
            },
        },
    }
}

/// From a fetched page to the caption feed's URL, or the exact error that
/// stops the run.
pub fn caption_url_from_page(html: &str) -> (r: Result<String, TranscriptError>)
    ensures
        match (r, caption_url_outcome(html@)) {
            (Ok(u), Ok(su)) => u@ == su,
            (Err(e), Err(se)) => e == se,
            _ => false,
        },
{
    let blob = match extract_json(html) {
        Some(b) => b,
        None => {
            return Err(TranscriptError::NotFound);
        },
    };
    let tree = match parse_json(blob) {
        Some(t) => t,
        None => {
            return Err(TranscriptError::MalformedData);
        },
    };
    locate_caption_url(&tree)
}

} // verus!
