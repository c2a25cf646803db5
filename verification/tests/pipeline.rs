use yt_transcript::extract::build_youtube_url;
use yt_transcript::extract::extract_between;
use yt_transcript::extract::extract_json;
use yt_transcript::json::caption_url_from_page;
use yt_transcript::json::locate_caption_url;
use yt_transcript::json::JsonVal;
use yt_transcript::normalize::normalize_entries;
use yt_transcript::normalize::normalize_transcript;
use yt_transcript::render::normalize_timestamps;
use yt_transcript::render::process_timestamp_line;
use yt_transcript::render::render_normalized;
use yt_transcript::render::render_transcript;
use yt_transcript::timedtext::parse_timed_text;
use yt_transcript::timedtext::TranscriptEntry;
use yt_transcript::TranscriptError;

fn pairs(raw: &[(u64, &str)]) -> Vec<(u64, String)> {
    raw.iter().map(|(t, s)| (*t, s.to_string())).collect()
}

#[test]
fn extractor_returns_blob_between_markers() {
    let html = "prefix ytInitialPlayerResponse = {\"a\":1};</script>suffix";
    assert_eq!(extract_json(html), Some("{\"a\":1}"));
}

#[test]
fn extractor_missing_start_marker_is_none() {
    assert_eq!(extract_json("<html>nothing here</html>"), None);
}

#[test]
fn extractor_missing_end_marker_takes_remainder() {
    let html = "x ytInitialPlayerResponse = {\"a\":1} and the page is cut";
    assert_eq!(extract_json(html), Some("{\"a\":1} and the page is cut"));
}

#[test]
fn extractor_generic_markers() {
    assert_eq!(extract_between("aaSTARTbbbENDcc", "START", "END"), Some("bbb"));
    assert_eq!(extract_between("aaSTARTbbb", "START", "END"), Some("bbb"));
    assert_eq!(extract_between("aabbb", "START", "END"), None);
}

#[test]
fn url_builder_appends_id() {
    assert_eq!(
        build_youtube_url("RcYjXbSJBN8"),
        "https://www.youtube.com/watch?v=RcYjXbSJBN8"
    );
}

#[test]
fn parser_counts_every_element() {
    let feed = "<transcript><text start=\"0.5\" dur=\"1\">hi</text>\
                <text start=\"3.2\" dur=\"1\">there</text></transcript>";
    let entries = parse_timed_text(feed).unwrap();
    assert_eq!(entries.len(), 2);
    assert_eq!(entries[0].text, "hi");
    assert_eq!(entries[0].start_ms, 500);
    assert_eq!(entries[0].duration_ms, 1000);
    assert_eq!(entries[1].text, "there");
    assert_eq!(entries[1].start_ms, 3200);
}

#[test]
fn parser_decodes_entities() {
    let feed = "<text start=\"1\" dur=\"2\">a &amp;b &#39;c</text>";
    let entries = parse_timed_text(feed).unwrap();
    assert_eq!(entries[0].text, "a &b 'c");
}

#[test]
fn parser_ignores_attribute_order_and_extras() {
    let feed = "<text dur=\"2\" start=\"1\" lang=\"en\">x</text>";
    let entries = parse_timed_text(feed).unwrap();
    assert_eq!(entries[0].start_ms, 1000);
    assert_eq!(entries[0].duration_ms, 2000);
    assert_eq!(entries[0].text, "x");
}

#[test]
fn parser_skips_self_closing_elements() {
    let feed = "<text start=\"1\" dur=\"2\"/><text start=\"3\" dur=\"4\">ok</text>";
    let entries = parse_timed_text(feed).unwrap();
    assert_eq!(entries.len(), 1);
    assert_eq!(entries[0].start_ms, 3000);
}

#[test]
fn parser_empty_feed_is_empty_transcript() {
    assert!(matches!(
        parse_timed_text("<transcript></transcript>"),
        Err(TranscriptError::EmptyTranscript)
    ));
}

#[test]
fn parser_bad_number_is_malformed_number() {
    let feed = "<text start=\"x1\" dur=\"1\">t</text>";
    assert!(matches!(
        parse_timed_text(feed),
        Err(TranscriptError::MalformedNumber)
    ));
}

#[test]
fn parser_fractional_seconds_truncate_to_milliseconds() {
    let feed = "<text start=\"1.2345\" dur=\"0.5\">t</text>";
    let entries = parse_timed_text(feed).unwrap();
    assert_eq!(entries[0].start_ms, 1234);
    assert_eq!(entries[0].duration_ms, 500);
}

#[test]
fn locator_missing_captions_key_is_no_captions() {
    let tree = JsonVal::Obj(vec![("other".to_string(), JsonVal::Scalar)]);
    assert_eq!(locate_caption_url(&tree), Err(TranscriptError::NoCaptions));
}

#[test]
fn locator_finds_first_track_url() {
    let track = JsonVal::Obj(vec![(
        "baseUrl".to_string(),
        JsonVal::Str("https://example.org/feed".to_string()),
    )]);
    let tree = JsonVal::Obj(vec![(
        "captions".to_string(),
        JsonVal::Obj(vec![(
            "playerCaptionsTracklistRenderer".to_string(),
            JsonVal::Obj(vec![(
                "captionTracks".to_string(),
                JsonVal::Arr(vec![track]),
            )]),
        )]),
    )]);
    assert_eq!(locate_caption_url(&tree), Ok("https://example.org/feed".to_string()));
}

#[test]
fn page_without_marker_is_not_found() {
    assert_eq!(
        caption_url_from_page("<html></html>"),
        Err(TranscriptError::NotFound)
    );
}

#[test]
fn page_with_bad_json_is_malformed_data() {
    let html = "ytInitialPlayerResponse = {not json;</script>";
    assert_eq!(caption_url_from_page(html), Err(TranscriptError::MalformedData));
}

#[test]
fn page_missing_captions_is_no_captions() {
    let html = "ytInitialPlayerResponse = {\"a\":1};</script>";
    assert_eq!(caption_url_from_page(html), Err(TranscriptError::NoCaptions));
}

#[test]
fn page_with_captions_yields_url() {
    let html = "x ytInitialPlayerResponse = {\"captions\":{\"playerCaptionsTracklistRenderer\":\
                {\"captionTracks\":[{\"baseUrl\":\"https://example.org/feed\"}]}}};</script>y";
    assert_eq!(
        caption_url_from_page(html),
        Ok("https://example.org/feed".to_string())
    );
}

#[test]
fn normalizer_merges_one_window() {
    let lines = normalize_entries(pairs(&[(500, "hi"), (3200, "there")]), 6);
    assert_eq!(lines.len(), 1);
    assert_eq!(lines[0].bucket_start, 0);
    assert_eq!(lines[0].text, "hi there");
}

#[test]
fn normalizer_splits_windows_and_keeps_each_entry() {
    let lines = normalize_entries(pairs(&[(0, "a"), (7000, "b")]), 6);
    assert_eq!(lines.len(), 2);
    assert_eq!(lines[0].bucket_start, 0);
    assert_eq!(lines[0].text, "a");
    assert_eq!(lines[1].bucket_start, 6);
    assert_eq!(lines[1].text, "b");
}

#[test]
fn normalizer_sorts_by_start_before_bucketing() {
    let lines = normalize_entries(pairs(&[(3200, "there"), (500, "hi")]), 6);
    assert_eq!(lines.len(), 1);
    assert_eq!(lines[0].text, "hi there");
}

#[test]
fn normalizer_keeps_tie_order_stable() {
    let lines = normalize_entries(pairs(&[(1000, "a"), (1000, "b")]), 6);
    assert_eq!(lines.len(), 1);
    assert_eq!(lines[0].text, "a b");
}

#[test]
fn normalizer_empty_input_gives_no_lines() {
    let lines = normalize_entries(Vec::new(), 6);
    assert_eq!(lines.len(), 0);
}

#[test]
fn normalizer_omits_empty_windows() {
    let lines = normalize_entries(pairs(&[(0, "a"), (30000, "b")]), 6);
    assert_eq!(lines.len(), 2);
    assert_eq!(lines[0].bucket_start, 0);
    assert_eq!(lines[1].bucket_start, 30);
}

#[test]
fn timestamp_line_round_trip() {
    let (ms, text) = process_timestamp_line("[01:05] hello there").unwrap();
    assert_eq!(ms, 65000);
    assert_eq!(text, "hello there");
}

#[test]
fn timestamp_line_without_stamp_is_none() {
    assert_eq!(process_timestamp_line("no stamp here"), None);
    assert_eq!(process_timestamp_line("[0105] missing colon"), None);
    assert_eq!(process_timestamp_line("01:05] no opener"), None);
}

#[test]
fn format_time_pads_minutes_and_seconds() {
    let e = TranscriptEntry { text: "x".to_string(), start_ms: 65000, duration_ms: 0 };
    assert_eq!(e.format_time(), "[01:05]");
    let e2 = TranscriptEntry { text: "x".to_string(), start_ms: 125500, duration_ms: 0 };
    assert_eq!(e2.format_time(), "[02:05]");
}

#[test]
fn render_joins_lines_without_trailing_newline() {
    let es = vec![
        TranscriptEntry { text: "hi".to_string(), start_ms: 500, duration_ms: 1000 },
        TranscriptEntry { text: "there".to_string(), start_ms: 65000, duration_ms: 1000 },
    ];
    assert_eq!(render_transcript(&es), "[00:00] hi\n[01:05] there");
}

#[test]
fn normalize_timestamps_rebuckets_rendered_lines() {
    let out = normalize_timestamps("[00:00] hi\n[00:03] there\n[00:07] next\n");
    assert_eq!(out, "[00:00] hi there\n[00:06] next\n");
}

#[test]
fn normalize_timestamps_is_idempotent_on_its_output() {
    let once = normalize_timestamps("[00:09] b\n[00:01] a\n[01:07] c\n");
    let twice = normalize_timestamps(&once);
    assert_eq!(once, twice);
}

#[test]
fn normalize_is_order_insensitive_for_distinct_starts() {
    let a = normalize_entries(pairs(&[(0, "x"), (2000, "y"), (9000, "z")]), 6);
    let b = normalize_entries(pairs(&[(9000, "z"), (0, "x"), (2000, "y")]), 6);
    assert_eq!(a.len(), b.len());
    for (la, lb) in a.iter().zip(b.iter()) {
        assert_eq!(la.bucket_start, lb.bucket_start);
        assert_eq!(la.text, lb.text);
    }
}

#[test]
fn normalize_transcript_uses_entry_starts() {
    let es = vec![
        TranscriptEntry { text: "hi".to_string(), start_ms: 500, duration_ms: 900000 },
        TranscriptEntry { text: "there".to_string(), start_ms: 3200, duration_ms: 1000 },
    ];
    let lines = normalize_transcript(&es, 6);
    assert_eq!(lines.len(), 1);
    assert_eq!(lines[0].bucket_start, 0);
    assert_eq!(lines[0].text, "hi there");
}

#[test]
fn render_normalized_runs_whole_tail_of_pipeline() {
    let es = vec![
        TranscriptEntry { text: "hi".to_string(), start_ms: 500, duration_ms: 1000 },
        TranscriptEntry { text: "there".to_string(), start_ms: 3200, duration_ms: 1000 },
        TranscriptEntry { text: "next".to_string(), start_ms: 7000, duration_ms: 1000 },
    ];
    assert_eq!(render_normalized(&es), "[00:00] hi there\n[00:06] next\n");
}

#[test]
fn error_descriptions_are_stable() {
    assert_eq!(TranscriptError::NotFound.describe(), "Cannot find player data");
    assert_eq!(
        TranscriptError::EmptyTranscript.describe(),
        "No transcript lines found in the response"
    );
    assert_eq!(
        TranscriptError::NoCaptions.describe(),
        "No captions found for this video"
    );
}

#[test]
fn parser_rejects_numbers_too_large_for_milliseconds() {
    let feed = "<text start=\"99999999999999999999\" dur=\"1\">t</text>";
    assert!(matches!(
        parse_timed_text(feed),
        Err(TranscriptError::MalformedNumber)
    ));
}

#[test]
fn timestamp_line_trims_surrounding_whitespace() {
    let (ms, text) = process_timestamp_line("[00:02] \t padded \t ").unwrap();
    assert_eq!(ms, 2000);
    assert_eq!(text, "padded");
}
