//! Rendering and re-reading of `[MM:SS]`-prefixed transcript lines, and the
//! string-level normalizer that parses such lines, re-buckets them and
//! renders the result. Minutes and seconds are both zero-padded to two
//! digits, for raw and for normalized lines alike: the one consistent
//! format, documented here as the crate's choice.
use vstd::prelude::*;
use vstd::string::StrSliceExecFns;
use vstd::string::StringExecFns;

use crate::normalize::line_views;
use crate::normalize::normalize_entries;
use crate::normalize::pair_views;
use crate::normalize::spec_normalize;
use crate::normalize::NormalizedLine;
use crate::text::chars_to_string;
use crate::text::dec_rep2;
use crate::text::find_char;
use crate::text::first_char_from;
use crate::text::lemma_first_char_props;
use crate::text::number_ms;
use crate::text::parse_number_ms;
use crate::text::push_char;
use crate::text::push_dec2;
use crate::text::str_to_chars;
use crate::text::valid_number;
use crate::timedtext::TranscriptEntry;

verus! {

/// `[MM:SS]` for a time of `secs` whole seconds: minutes and remainder
/// seconds, each zero-padded to at least two digits.
pub open spec fn format_time_spec(secs: int) -> Seq<char> {
    seq!['['] + dec_rep2(secs / 60) + seq![':'] + dec_rep2(secs % 60) + seq![']']
}

/// Builds `[MM:SS]` for a time in whole seconds.
pub fn format_seconds(secs: u64) -> (r: String)
    ensures
        r@ == format_time_spec(secs as int),
{
    let mut v: Vec<char> = Vec::new();
    v.push('[');
    push_dec2(&mut v, secs / 60);
    v.push(':');
    push_dec2(&mut v, secs % 60);
    v.push(']');
    let r = chars_to_string(v.as_slice());
    proof {
        assert(v@ =~= format_time_spec(secs as int));
    }
    r
}

impl TranscriptEntry {
    /// The `[MM:SS]` stamp of this entry's start time.
    pub fn format_time(&self) -> (r: String)
        ensures
            r@ == format_time_spec(self.start_ms as int / 1000),
    {
        format_seconds(self.start_ms / 1000)
    }
}

/// One rendered entry line: the stamp, one space, the text.
pub open spec fn entry_line(e: crate::timedtext::SpecEntry) -> Seq<char> {
    format_time_spec(e.start_ms / 1000) + seq![' '] + e.text
}

/// The rendering of raw entries: one line each, joined by newlines, with no
/// trailing newline.
pub open spec fn render_entries_spec(es: Seq<crate::timedtext::SpecEntry>) -> Seq<char>
    decreases es.len(),
{
    if es.len() == 0 {
        Seq::empty()
    } else if es.len() == 1 {
        entry_line(es[0])
    } else {
        render_entries_spec(es.drop_last()) + seq!['\n'] + entry_line(es.last())
    }
}

/// Renders raw entries, one `[MM:SS] text` line per entry.
pub fn render_transcript(entries: &Vec<TranscriptEntry>) -> (r: String)
    ensures
        r@ == render_entries_spec(crate::timedtext::entry_views(entries@)),
{
    let ghost es = crate::timedtext::entry_views(entries@);
    let mut r = String::new();
    let n = entries.len();
    let mut i: usize = 0;
    while i < n
        invariant
            es == crate::timedtext::entry_views(entries@),
            n == entries@.len(),
            i <= n,
            r@ == render_entries_spec(es.subrange(0, i as int)),
        decreases n - i,
    {
        proof {
            assert(es.subrange(0, i + 1).drop_last() =~= es.subrange(0, i as int));
            assert(es.subrange(0, i + 1).last() == es[i as int]);
            assert(es[i as int] == entries@[i as int]@);
        }
        if i > 0 {
            push_char(&mut r, '\n');
        }
        let stamp = entries[i].format_time();
        r.append(stamp.as_str());
        push_char(&mut r, ' ');
        r.append(entries[i].text.as_str());
        proof {
            if i == 0 {
                assert(r@ =~= entry_line(es[0]));
            } else {
                assert(r@ =~= render_entries_spec(es.subrange(0, i as int)) + seq!['\n']
                    + entry_line(es[i as int]));
            }
        }
        i += 1;
    }
    proof {
        assert(es.subrange(0, n as int) =~= es);
    }
    r
}

/// An ASCII whitespace character. Line text is trimmed against this set,
/// which covers everything the feeds and this crate's own renderings emit.
pub open spec fn is_space(c: char) -> bool {
    c == ' ' || c == '\t' || c == '\r' || c == '\n'
}

pub open spec fn trim_front(s: Seq<char>) -> Seq<char>
    decreases s.len(),
{
    if s.len() > 0 && is_space(s[0]) {
        trim_front(s.skip(1))
    } else {
        s
    }
}

pub open spec fn trim_back(s: Seq<char>) -> Seq<char>
    decreases s.len(),
{
    if s.len() > 0 && is_space(s.last()) {
        trim_back(s.drop_last())
    } else {
        s
    }
}

/// `s` with leading and trailing whitespace removed.
pub open spec fn spec_trim(s: Seq<char>) -> Seq<char> {
    trim_back(trim_front(s))
}

proof fn lemma_trim_front_step(s: Seq<char>, k: int)
    requires
        0 <= k <= s.len(),
        forall|t: int| 0 <= t < k ==> is_space(#[trigger] s[t]),
    ensures
        trim_front(s) == trim_front(s.skip(k)),
    decreases k,
{
    if k > 0 {
        assert(is_space(s[0]));
        assert(s.skip(1).skip(k - 1) =~= s.skip(k));
        lemma_trim_front_step(s.skip(1), k - 1);
    } else {
        assert(s.skip(0) =~= s);
    }
}

proof fn lemma_trim_back_step(s: Seq<char>, k: int)
    requires
        0 <= k <= s.len(),
        forall|t: int| k <= t < s.len() ==> is_space(#[trigger] s[t]),
    ensures
        trim_back(s) == trim_back(s.take(k)),
    decreases s.len() - k,
{
    if k < s.len() {
        assert(is_space(s.last()));
        assert(s.drop_last().take(k) =~= s.take(k));
        lemma_trim_back_step(s.drop_last(), k);
    } else {
        assert(s.take(k) =~= s);
    }
}

/// The characters of `s[lo..hi]` with surrounding whitespace removed, as an
/// owned string.
fn trim_range(s: &[char], lo: usize, hi: usize) -> (r: String)
    requires
        lo <= hi <= s@.len(),
    ensures
        r@ == spec_trim(s@.subrange(lo as int, hi as int)),
{
    let ghost orig = s@.subrange(lo as int, hi as int);
    let mut a = lo;
    while a < hi && is_space_exec(s[a])
        invariant
            lo <= a <= hi <= s@.len(),
            forall|t: int| lo <= t < a ==> is_space(#[trigger] s@[t]),
        decreases hi - a,
    {
        a += 1;
    }
    proof {
        assert forall|t: int| 0 <= t < a - lo implies is_space(#[trigger] orig[t]) by {
            assert(orig[t] == s@[lo + t]);
        }
        lemma_trim_front_step(orig, a - lo);
        assert(orig.skip(a - lo) =~= s@.subrange(a as int, hi as int));
    }
    let ghost fronted = s@.subrange(a as int, hi as int);
    let mut b = hi;
    while b > a && is_space_exec(s[b - 1])
        invariant
            lo <= a <= b <= hi <= s@.len(),
            forall|t: int| b <= t < hi ==> is_space(#[trigger] s@[t]),
        decreases b,
    {
        b -= 1;
    }
    proof {
        assert forall|t: int| b - a <= t < fronted.len() implies is_space(
            #[trigger] fronted[t],
        ) by {
            assert(fronted[t] == s@[a + t]);
        }
        lemma_trim_back_step(fronted, b - a);
        assert(fronted.take(b - a) =~= s@.subrange(a as int, b as int));
    }
    chars_to_string(&s[a..b])
}

/// The content of the transcript file for a parsed feed: the raw rendering
/// of the entries, re-bucketed into six-second windows.
pub fn render_normalized(entries: &Vec<TranscriptEntry>) -> (r: String)
    ensures
        r@ == normalize_timestamps_spec(
            render_entries_spec(crate::timedtext::entry_views(entries@)),
        ),
{
    let content = render_transcript(entries);
    normalize_timestamps(content.as_str())
}

/// The exec mirror of `is_space`.
fn is_space_exec(c: char) -> (r: bool)
    ensures
        r == is_space(c),
{
    c == ' ' || c == '\t' || c == '\r' || c == '\n'
}

/// What one `[M:SS] text` line yields: the stamp before the first `]` read
/// as minutes `:` seconds (each an unsigned decimal, so fractions are
/// tolerated), in milliseconds, and the trimmed text after it. `None` when
/// the shape or a number is off, or the time cannot fit a `u64` of
/// milliseconds (a machine limit).
pub open spec fn process_line_spec(s: Seq<char>) -> Option<(int, Seq<char>)> {
    match first_char_from(s, ']', 0) {
        None => None,
        Some(rb) => {
            if s.len() > 0 && s[0] == '[' {
                let ts = s.subrange(1, rb);
                match first_char_from(ts, ':', 0) {
                    None => None,
                    Some(c) => {
                        let m = ts.take(c);
                        let sec = ts.skip(c + 1);
                        if valid_number(m) && valid_number(sec) && number_ms(m) * 60 + number_ms(
                            sec,
                        ) <= u64::MAX {
                            Some((number_ms(m) * 60 + number_ms(sec), spec_trim(s.skip(rb + 1))))
                        } else {
                            None
                        }
                    },
                }
            } else {
                None
            }
        },
    }
}

/// Reads one line's stamp and text over its characters.
fn process_line_chars(s: &[char]) -> (r: Option<(u64, String)>)
    ensures
        match r {
            Some(p) => process_line_spec(s@) == Some((p.0 as int, p.1@)),
            None => process_line_spec(s@) is None,
        },
{
    let n = s.len();
    let rb = match find_char(s, ']', 0) {
        None => {
            return None;
        },
        Some(x) => x,
    };
    proof {
        lemma_first_char_props(s@, ']', 0);
    }
    if n == 0 || s[0] != '[' {
        return None;
    }
    let ghost ts = s@.subrange(1, rb as int);
    let c = match find_char(s, ':', 1) {
        None => {
            proof {
                lemma_first_char_props(s@, ':', 1);
                lemma_first_char_shift(s@, ':', 1, rb as int);
            }
            return None;
        },
        Some(x) => x,
    };
    proof {
        lemma_first_char_props(s@, ':', 1);
        lemma_first_char_shift(s@, ':', 1, rb as int);
    }
    if c >= rb {
        return None;
    }
    let m = parse_number_ms(&s[1..c]);
    let sec = parse_number_ms(&s[c + 1..rb]);
    proof {
        assert(s@.subrange(1, c as int) =~= ts.take(c - 1));
        assert(s@.subrange(c + 1, rb as int) =~= ts.skip(c - 1 + 1));
    }
    let mv = match m {
        None => {
            return None;
        },
        Some(x) => x,
    };
    let sv = match sec {
        None => {
            return None;
        },
        Some(x) => x,
    };
    if mv > (u64::MAX - sv) / 60 {
        proof {
            assert(mv * 60 + sv > u64::MAX) by (nonlinear_arith)
                requires
                    mv > (u64::MAX - sv) / 60,
                    mv >= 0,
                    sv >= 0,
                    sv <= u64::MAX,
            ;
        }
        return None;
    }
    proof {
        assert(mv * 60 + sv <= u64::MAX) by (nonlinear_arith)
            requires
                mv <= (u64::MAX - sv) / 60,
                mv >= 0,
                sv >= 0,
                sv <= u64::MAX,
        ;
    }
    let text = trim_range(s, rb + 1, n);
    Some((mv * 60 + sv, text))
}

/// Inside `[1, rb)` the searches from index 1 and the searches inside the
/// stamp `ts = s[1..rb]` see the same first `:`; one that lands at or past
/// `rb` counts as absent in the stamp.
proof fn lemma_first_char_shift(s: Seq<char>, c: char, from: int, rb: int)
    requires
        1 <= from <= rb <= s.len(),
    ensures
        match first_char_from(s, c, from) {
            Some(p) => if p < rb {
                first_char_from(s.subrange(1, rb), c, from - 1) == Some(p - 1)
            } else {
                first_char_from(s.subrange(1, rb), c, from - 1) is None
            },
            None => first_char_from(s.subrange(1, rb), c, from - 1) is None,
        },
    decreases rb - from,
{
    let ts = s.subrange(1, rb);
    if from == rb {
        lemma_first_char_props(s, c, from);
    } else {
        assert(ts[from - 1] == s[from]);
        if s[from] == c {
        } else {
            lemma_first_char_shift(s, c, from + 1, rb);
        }
    }
}

/// Reads one `[M:SS] text` line.
pub fn process_timestamp_line(line: &str) -> (r: Option<(u64, String)>)
    ensures
        match r {
            Some(p) => process_line_spec(line@) == Some((p.0 as int, p.1@)),
            None => process_line_spec(line@) is None,
        },
{
    let v = str_to_chars(line);
    process_line_chars(v.as_slice())
}

/// The pieces of `s` from `i` on, split at every newline.
pub open spec fn split_from(s: Seq<char>, i: int) -> Seq<Seq<char>>
    decreases s.len() - i when 0 <= i <= s.len()
{
    match first_char_from(s, '\n', i) {
        None => seq![s.subrange(i, s.len() as int)],
        Some(p) => if i <= p < s.len() {
            seq![s.subrange(i, p)] + split_from(s, p + 1)
        } else {
            seq![s.subrange(i, s.len() as int)]
        },
    }
}

/// The timed pairs of the lines that carry a well-formed stamp, in order;
/// the rest contribute nothing.
pub open spec fn filtered_pairs(ls: Seq<Seq<char>>) -> Seq<(int, Seq<char>)>
    decreases ls.len(),
{
    if ls.len() == 0 {
        Seq::empty()
    } else {
        (match process_line_spec(ls[0]) {
            Some(p) => seq![p],
            None => Seq::empty(),
        }) + filtered_pairs(ls.skip(1))
    }
}

/// One rendered normalized line, newline-terminated.
pub open spec fn norm_line(l: (int, Seq<char>)) -> Seq<char> {
    format_time_spec(l.0) + seq![' '] + l.1 + seq!['\n']
}

/// The rendering of normalized lines, each on its own newline-terminated
/// row.
pub open spec fn render_norm_spec(ls: Seq<(int, Seq<char>)>) -> Seq<char>
    decreases ls.len(),
{
    if ls.len() == 0 {
        Seq::empty()
    } else {
        render_norm_spec(ls.drop_last()) + norm_line(ls.last())
    }
}

/// What normalizing a whole text yields: its stamped lines, re-bucketed
/// into six-second windows and rendered anew.
pub open spec fn normalize_timestamps_spec(s: Seq<char>) -> Seq<char> {
    render_norm_spec(spec_normalize(filtered_pairs(split_from(s, 0)), 6))
}

/// Re-buckets a `[MM:SS] text` transcript into six-second windows: lines
/// without a well-formed stamp are passed over, the rest are merged per
/// window and rendered one per row.
pub fn normalize_timestamps(content: &str) -> (r: String)
    ensures
        r@ == normalize_timestamps_spec(content@),
{
    let ghost h = content@;
    let hc_v = str_to_chars(content);
    let n = hc_v.len();
    let mut pairs: Vec<(u64, String)> = Vec::new();
    let mut pos: usize = 0;
    let mut done = false;
    while !done
        invariant
            h == content@,
            hc_v@ == h,
            n == h.len(),
            pos <= n,
            !done ==> filtered_pairs(split_from(h, 0)) == pair_views(pairs@) + filtered_pairs(
                split_from(h, pos as int),
            ),
            done ==> filtered_pairs(split_from(h, 0)) == pair_views(pairs@),
        decreases n - pos + (if done { 0int } else { 1int }),
    {
        let hc = hc_v.as_slice();
        let ghost rest = split_from(h, pos as int);
        let (line_lo, line_hi, next, is_last): (usize, usize, usize, bool) = match find_char(
            hc,
            '\n',
            pos,
        ) {
            None => (pos, n, n, true),
            Some(p) => {
                proof {
                    lemma_first_char_props(h, '\n', pos as int);
                }
                (pos, p, p + 1, false)
            },
        };
        proof {
            if is_last {
                assert(rest =~= seq![h.subrange(pos as int, n as int)]);
            } else {
                assert(rest == seq![h.subrange(pos as int, line_hi as int)] + split_from(
                    h,
                    next as int,
                ));
            }
            assert(rest[0] == h.subrange(line_lo as int, line_hi as int));
        }
        let ghost pairs0 = pairs@;
        let ghost hd: Seq<(int, Seq<char>)> = match process_line_spec(rest[0]) {
            Some(p) => seq![p],
            None => Seq::empty(),
        };
        match process_line_chars(&hc[line_lo..line_hi]) {
            Some(pr) => {
                proof {
                    assert(process_line_spec(rest[0]) == Some((pr.0 as int, pr.1@)));
                }
                pairs.push(pr);
                proof {
                    assert(pair_views(pairs@) =~= pair_views(pairs0) + hd);
                }
            },
            None => {
                proof {
                    assert(pair_views(pairs@) =~= pair_views(pairs0) + hd);
                }
            },
        }
        proof {
            if is_last {
                assert(rest.skip(1) =~= Seq::<Seq<char>>::empty());
                assert(filtered_pairs(Seq::<Seq<char>>::empty()) == Seq::<
                    (int, Seq<char>),
                >::empty());
                assert(filtered_pairs(rest) == hd + filtered_pairs(rest.skip(1)));
                assert(pair_views(pairs@) + filtered_pairs(rest.skip(1)) =~= pair_views(pairs@));
            } else {
                assert(rest.skip(1) =~= split_from(h, next as int));
            }
            assert(filtered_pairs(rest) == hd + filtered_pairs(rest.skip(1)));
            assert(pair_views(pairs0) + (hd + filtered_pairs(rest.skip(1))) =~= pair_views(
                pairs@,
            ) + filtered_pairs(rest.skip(1)));
        }
        pos = next;
        done = is_last;
    }
    let lines = normalize_entries(pairs, 6);
    let mut out = String::new();
    let ghost lv = line_views(lines@);
    let m = lines.len();
    let mut i: usize = 0;
    while i < m
        invariant
            lv == line_views(lines@),
            m == lines@.len(),
            i <= m,
            out@ == render_norm_spec(lv.subrange(0, i as int)),
        decreases m - i,
    {
        proof {
            assert(lv.subrange(0, i + 1).drop_last() =~= lv.subrange(0, i as int));
            assert(lv.subrange(0, i + 1).last() == lv[i as int]);
            assert(lv[i as int] == lines@[i as int]@);
        }
        let stamp = format_seconds(lines[i].bucket_start);
        out.append(stamp.as_str());
        push_char(&mut out, ' ');
        out.append(lines[i].text.as_str());
        push_char(&mut out, '\n');
        proof {
            assert(out@ =~= render_norm_spec(lv.subrange(0, i as int)) + norm_line(lv[i as int]));
        }
        i += 1;
    }
    proof {
        assert(lv.subrange(0, m as int) =~= lv);
    }
    out
}

} // verus!
