//! The interval normalizer: entries are sorted by start time (stable for
//! ties) and re-bucketed into fixed-width windows counted from zero; each
//! non-empty window becomes one line holding its entries' texts joined by
//! single spaces. Assignment goes by start time alone; durations play no
//! part. Windows with no entry are omitted.
use vstd::prelude::*;
use vstd::string::StringExecFns;

verus! {

/// One output line: the window's start in whole seconds (a multiple of the
/// interval width) and the merged text.
pub struct NormalizedLine {
    pub bucket_start: u64,
    pub text: String,
}

impl View for NormalizedLine {
    type V = (int, Seq<char>);

    open spec fn view(&self) -> (int, Seq<char>) {
        (self.bucket_start as int, self.text@)
    }
}

/// The images of timed input pairs (start milliseconds, text).
pub open spec fn pair_views(s: Seq<(u64, String)>) -> Seq<(int, Seq<char>)> {
    s.map_values(|p: (u64, String)| (p.0 as int, p.1@))
}

/// The images of output lines.
pub open spec fn line_views(s: Seq<NormalizedLine>) -> Seq<(int, Seq<char>)> {
    s.map_values(|l: NormalizedLine| l@)
}

/// `e` placed after every element of `r` whose start does not exceed its
/// own: where `r` is sorted this is the stable insertion position.
pub open spec fn insert_sorted(r: Seq<(int, Seq<char>)>, e: (int, Seq<char>)) -> Seq<
    (int, Seq<char>),
>
    decreases r.len(),
{
    if r.len() == 0 {
        seq![e]
    } else if r.last().0 <= e.0 {
        r.push(e)
    } else {
        insert_sorted(r.drop_last(), e).push(r.last())
    }
}

/// The stable sort of `s` by start time: elements inserted left to right,
/// each after all its equals, so ties keep their input order.
pub open spec fn sort_entries(s: Seq<(int, Seq<char>)>) -> Seq<(int, Seq<char>)>
    decreases s.len(),
{
    if s.len() == 0 {
        Seq::empty()
    } else {
        insert_sorted(sort_entries(s.drop_last()), s.last())
    }
}

pub open spec fn sorted_by_start(s: Seq<(int, Seq<char>)>) -> bool {
    forall|i: int, j: int| 0 <= i < j < s.len() ==> s[i].0 <= s[j].0
}

pub proof fn lemma_insert_sorted(r: Seq<(int, Seq<char>)>, e: (int, Seq<char>))
    requires
        sorted_by_start(r),
    ensures
        sorted_by_start(insert_sorted(r, e)),
        insert_sorted(r, e).to_multiset() == r.to_multiset().insert(e),
        insert_sorted(r, e).len() == r.len() + 1,
    decreases r.len(),
{
    broadcast use vstd::seq_lib::group_to_multiset_ensures;

    if r.len() == 0 {
        assert(seq![e] =~= Seq::<(int, Seq<char>)>::empty().push(e));
        assert(Seq::<(int, Seq<char>)>::empty().push(e).to_multiset() =~= Seq::<
            (int, Seq<char>),
        >::empty().to_multiset().insert(e));
    } else if r.last().0 <= e.0 {
        assert forall|i: int, j: int| 0 <= i < j < r.push(e).len() implies r.push(e)[i].0 <= r.push(
            e,
        )[j].0 by {
            if j < r.len() {
            } else {
                if i < r.len() - 1 {
                    assert(r[i].0 <= r[r.len() - 1].0);
                }
            }
        }
    } else {
        let dl = r.drop_last();
        assert(sorted_by_start(dl));
        lemma_insert_sorted(dl, e);
        let inner = insert_sorted(dl, e);
        // Every element of the inner insertion is either from `dl` or is `e`,
        // so it is bounded by the dropped last element.
        lemma_insert_sorted_elements(dl, e);
        assert forall|i: int, j: int|
            0 <= i < j < inner.push(r.last()).len() implies inner.push(r.last())[i].0 <= inner.push(
            r.last(),
        )[j].0 by {
            if j < inner.len() {
            } else {
                assert(inner.push(r.last())[j] == r.last());
                assert(inner.to_multiset().contains(inner[i]));
                if inner.to_multiset().count(inner[i]) > 0 {
                }
            }
        }
        assert(r =~= dl.push(r.last()));
        assert(dl.push(r.last()).to_multiset() == dl.to_multiset().insert(r.last()));
        assert(inner.push(r.last()).to_multiset() == inner.to_multiset().insert(r.last()));
        assert(inner.push(r.last()).to_multiset() =~= r.to_multiset().insert(e));
    }
}

/// Each element of `insert_sorted(r, e)` is an element of `r` or is `e`.
proof fn lemma_insert_sorted_elements(r: Seq<(int, Seq<char>)>, e: (int, Seq<char>))
    ensures
        forall|i: int|
            0 <= i < insert_sorted(r, e).len() ==> r.contains(#[trigger] insert_sorted(r, e)[i])
                || insert_sorted(r, e)[i] == e,
    decreases r.len(),
{
    if r.len() == 0 {
    } else if r.last().0 <= e.0 {
        assert forall|i: int| 0 <= i < r.push(e).len() implies r.contains(
            #[trigger] r.push(e)[i],
        ) || r.push(e)[i] == e by {
            if i < r.len() {
                assert(r[i] == r.push(e)[i]);
            }
        }
    } else {
        let dl = r.drop_last();
        lemma_insert_sorted_elements(dl, e);
        let inner = insert_sorted(dl, e);
        assert forall|i: int| 0 <= i < inner.push(r.last()).len() implies r.contains(
            #[trigger] inner.push(r.last())[i],
        ) || inner.push(r.last())[i] == e by {
            if i < inner.len() {
                if dl.contains(inner[i]) {
                    let k = choose|k: int| 0 <= k < dl.len() && dl[k] == inner[i];
                    assert(r[k] == inner[i]);
                }
            } else {
                assert(inner.push(r.last())[i] == r.last());
                assert(r[r.len() - 1] == r.last());
            }
        }
    }
}

pub proof fn lemma_sort_entries(s: Seq<(int, Seq<char>)>)
    ensures
        sorted_by_start(sort_entries(s)),
        sort_entries(s).to_multiset() == s.to_multiset(),
        sort_entries(s).len() == s.len(),
    decreases s.len(),
{
    broadcast use vstd::seq_lib::group_to_multiset_ensures;

    if s.len() == 0 {
        assert(sort_entries(s).to_multiset() =~= s.to_multiset());
    } else {
        let dl = s.drop_last();
        lemma_sort_entries(dl);
        lemma_insert_sorted(sort_entries(dl), s.last());
        assert(s =~= dl.push(s.last()));
        assert(dl.push(s.last()).to_multiset() == dl.to_multiset().insert(s.last()));
    }
}

/// Splitting view of the stable insertion: with `j` the least index such
/// that everything from `j` on starts strictly later than `e`, the insertion
/// puts `e` exactly at `j`.
proof fn lemma_insert_sorted_split(r: Seq<(int, Seq<char>)>, e: (int, Seq<char>), j: int)
    requires
        0 <= j <= r.len(),
        forall|t: int| j <= t < r.len() ==> r[t].0 > e.0,
        j > 0 ==> r[j - 1].0 <= e.0,
    ensures
        insert_sorted(r, e) == r.subrange(0, j) + seq![e] + r.subrange(j, r.len() as int),
    decreases r.len(),
{
    if j == r.len() {
        if r.len() == 0 {
            assert(insert_sorted(r, e) =~= r.subrange(0, j) + seq![e] + r.subrange(
                j,
                r.len() as int,
            ));
        } else {
            assert(r.last().0 <= e.0);
            assert(r.push(e) =~= r.subrange(0, j) + seq![e] + r.subrange(j, r.len() as int));
        }
    } else {
        assert(r[r.len() - 1].0 > e.0);
        let dl = r.drop_last();
        lemma_insert_sorted_split(dl, e, j);
        assert(insert_sorted(dl, e).push(r.last()) =~= r.subrange(0, j) + seq![e] + r.subrange(
            j,
            r.len() as int,
        ));
    }
}

/// Inserts `e` into the sorted vector `out`, after every element whose
/// start does not exceed its own.
fn insert_pair(out: &mut Vec<(u64, String)>, e: (u64, String))
    ensures
        pair_views(final(out)@) == insert_sorted(pair_views(old(out)@), (e.0 as int, e.1@)),
{
    let ghost r = pair_views(out@);
    let ghost ev = (e.0 as int, e.1@);
    let n = out.len();
    let mut j: usize = n;
    while j > 0 && out[j - 1].0 > e.0
        invariant
            n == out@.len(),
            j <= n,
            r == pair_views(out@),
            ev == (e.0 as int, e.1@),
            forall|t: int| j <= t < n ==> r[t].0 > ev.0,
        decreases j,
    {
        assert(r[j - 1] == (out@[j - 1].0 as int, out@[j - 1].1@));
        j -= 1;
    }
    proof {
        if j > 0 {
            assert(r[j - 1] == (out@[j - 1].0 as int, out@[j - 1].1@));
        }
        lemma_insert_sorted_split(r, ev, j as int);
    }
    out.insert(j, e);
    proof {
        assert(pair_views(out@) =~= r.subrange(0, j as int) + seq![ev] + r.subrange(
            j as int,
            r.len() as int,
        ));
    }
}

/// The stable sort of the entries by start time.
pub fn sort_pairs(entries: Vec<(u64, String)>) -> (r: Vec<(u64, String)>)
    ensures
        pair_views(r@) == sort_entries(pair_views(entries@)),
{
    let ghost orig = pair_views(entries@);
    let mut v = entries;
    let mut out: Vec<(u64, String)> = Vec::new();
    let ghost k = 0int;
    while v.len() > 0
        invariant
            0 <= k <= orig.len(),
            pair_views(v@) == orig.subrange(k, orig.len() as int),
            pair_views(out@) == sort_entries(orig.subrange(0, k)),
        decreases v@.len(),
    {
        let ghost pre = pair_views(v@);
        let e = v.remove(0);
        proof {
            assert(pair_views(v@) =~= pre.subrange(1, pre.len() as int));
            assert(pair_views(v@) =~= orig.subrange(k + 1, orig.len() as int));
            let head = orig.subrange(0, k + 1);
            assert(head.drop_last() =~= orig.subrange(0, k));
            assert(head.last() == orig[k]);
            assert(orig[k] == pre[0]);
        }
        let ghost before = pair_views(out@);
        insert_pair(&mut out, e);
        proof {
            assert((e.0 as int, e.1@) == orig[k]);
            assert(pair_views(out@) == insert_sorted(sort_entries(orig.subrange(0, k)), orig[k]));
            assert(sort_entries(orig.subrange(0, k + 1)) == insert_sorted(
                sort_entries(orig.subrange(0, k + 1).drop_last()),
                orig.subrange(0, k + 1).last(),
            ));
        }
        proof {
            k = k + 1;
        }
    }
    proof {
        assert(orig.subrange(0, k) =~= orig);
    }
    out
}

/// The widest interval width (in seconds) whose millisecond step still fits
/// a `u64`: a machine limit, not a policy.
pub const MAX_INTERVAL_S: u64 = 18_446_744_073_709_551;

/// The texts of the entries of `s` whose start lies in window `k` (starts
/// are milliseconds; `step` is the window width in milliseconds), in order.
pub open spec fn bucket_texts(s: Seq<(int, Seq<char>)>, k: int, step: int) -> Seq<Seq<char>>
    decreases s.len(),
{
    if s.len() == 0 {
        Seq::empty()
    } else if s.last().0 / step == k {
        bucket_texts(s.drop_last(), k, step).push(s.last().1)
    } else {
        bucket_texts(s.drop_last(), k, step)
    }
}

/// Texts joined by single spaces.
pub open spec fn join_spaced(ts: Seq<Seq<char>>) -> Seq<char>
    decreases ts.len(),
{
    if ts.len() == 0 {
        Seq::empty()
    } else if ts.len() == 1 {
        ts[0]
    } else {
        join_spaced(ts.drop_last()) + seq![' '] + ts.last()
    }
}

/// The lines for windows `k` through `kmax` of the sorted entries `s`:
/// window `k` covers starts in `[k*w, (k+1)*w)` seconds and is emitted only
/// when some entry falls in it.
pub open spec fn lines_upto(s: Seq<(int, Seq<char>)>, w: int, kmax: int, k: int) -> Seq<
    (int, Seq<char>),
>
    decreases kmax + 1 - k when k <= kmax + 1
{
    if k > kmax {
        Seq::empty()
    } else {
        let ts = bucket_texts(s, k, w * 1000);
        let head: Seq<(int, Seq<char>)> = if ts.len() > 0 {
            seq![(k * w, join_spaced(ts))]
        } else {
            Seq::empty()
        };
        head + lines_upto(s, w, kmax, k + 1)
    }
}

/// The whole normalization: sort stably by start, then walk the windows
/// from zero up to the one holding the greatest start. No entries, no
/// lines.
pub open spec fn spec_normalize(s: Seq<(int, Seq<char>)>, w: int) -> Seq<(int, Seq<char>)> {
    if s.len() == 0 {
        Seq::empty()
    } else {
        let sorted = sort_entries(s);
        lines_upto(sorted, w, sorted.last().0 / (w * 1000), 0)
    }
}

/// Joins the texts of window `k` of `sorted`, and says whether the window
/// held any entry at all.
fn collect_bucket(sorted: &Vec<(u64, String)>, k: u64, step: u64) -> (r: (bool, String))
    requires
        step >= 1,
    ensures
        (r.0 == (bucket_texts(pair_views(sorted@), k as int, step as int).len() > 0)),
        r.0 ==> r.1@ == join_spaced(bucket_texts(pair_views(sorted@), k as int, step as int)),
        !r.0 ==> r.1@ == Seq::<char>::empty(),
{
    let ghost sv = pair_views(sorted@);
    let mut text = String::new();
    let mut any = false;
    let n = sorted.len();
    let mut i: usize = 0;
    while i < n
        invariant
            step >= 1,
            sv == pair_views(sorted@),
            n == sorted@.len(),
            i <= n,
            any == (bucket_texts(sv.subrange(0, i as int), k as int, step as int).len() > 0),
            any ==> text@ == join_spaced(
                bucket_texts(sv.subrange(0, i as int), k as int, step as int),
            ),
            !any ==> text@ == Seq::<char>::empty(),
        decreases n - i,
    {
        let ghost pre = sv.subrange(0, i as int);
        let ghost post = sv.subrange(0, i + 1);
        proof {
            assert(post.drop_last() =~= pre);
            assert(post.last() == sv[i as int]);
            assert(sv[i as int] == (sorted@[i as int].0 as int, sorted@[i as int].1@));
        }
        if sorted[i].0 / step == k {
            let ghost ts = bucket_texts(pre, k as int, step as int);
            if any {
                crate::text::push_char(&mut text, ' ');
                text.append(sorted[i].1.as_str());
                proof {
                    assert(bucket_texts(post, k as int, step as int) == ts.push(sv[i as int].1));
                    assert(ts.push(sv[i as int].1).drop_last() =~= ts);
                    assert(join_spaced(ts.push(sv[i as int].1)) == join_spaced(ts) + seq![' ']
                        + sv[i as int].1);
                }
            } else {
                text.append(sorted[i].1.as_str());
                any = true;
                proof {
                    assert(bucket_texts(post, k as int, step as int) =~= seq![sv[i as int].1]);
                    assert(join_spaced(seq![sv[i as int].1]) == sv[i as int].1);
                    assert(text@ =~= Seq::<char>::empty() + sv[i as int].1);
                }
            }
        } else {
            proof {
                assert(bucket_texts(post, k as int, step as int) == bucket_texts(
                    pre,
                    k as int,
                    step as int,
                ));
            }
        }
        i += 1;
    }
    proof {
        assert(sv.subrange(0, n as int) =~= sv);
    }
    (any, text)
}

/// Sorts the entries (start milliseconds, text) and merges them into
/// fixed-width windows of `interval_s` seconds counted from zero; every
/// entry lands in the one window its start falls in, and each non-empty
/// window yields one line. The bound on `interval_s` only keeps the
/// millisecond step inside a `u64`.
pub fn normalize_entries(entries: Vec<(u64, String)>, interval_s: u64) -> (r: Vec<NormalizedLine>)
    requires
        1 <= interval_s <= MAX_INTERVAL_S,
    ensures
        line_views(r@) == spec_normalize(pair_views(entries@), interval_s as int),
{
    let ghost orig = pair_views(entries@);
    let ghost w = interval_s as int;
    let sorted = sort_pairs(entries);
    let ghost sv = pair_views(sorted@);
    let mut out: Vec<NormalizedLine> = Vec::new();
    if sorted.len() == 0 {
        proof {
            lemma_sort_entries(orig);
            assert(line_views(out@) =~= Seq::<(int, Seq<char>)>::empty());
        }
        return out;
    }
    proof {
        assert(interval_s * 1000 <= u64::MAX) by (nonlinear_arith)
            requires
                1 <= interval_s <= MAX_INTERVAL_S,
                MAX_INTERVAL_S == 18_446_744_073_709_551u64,
        ;
    }
    let step: u64 = interval_s * 1000;
    let max_ms = sorted[sorted.len() - 1].0;
    proof {
        assert(sv[sv.len() - 1] == (sorted@[sv.len() - 1].0 as int, sorted@[sv.len() - 1].1@));
        assert(sv.last().0 == max_ms as int);
    }
    let kmax = max_ms / step;
    let mut k: u64 = 0;
    proof {
        assert(kmax < u64::MAX) by (nonlinear_arith)
            requires
                kmax == max_ms / step,
                step >= 1000,
                max_ms <= u64::MAX,
        ;
        lemma_sort_entries(orig);
        assert(spec_normalize(orig, w) == lines_upto(sv, w, kmax as int, 0));
        assert(line_views(out@) =~= Seq::<(int, Seq<char>)>::empty());
        assert(Seq::<(int, Seq<char>)>::empty() + lines_upto(sv, w, kmax as int, 0) =~= lines_upto(
            sv,
            w,
            kmax as int,
            0,
        ));
    }
    while k <= kmax
        invariant
            kmax < u64::MAX,
            1 <= interval_s <= MAX_INTERVAL_S,
            w == interval_s as int,
            step == interval_s * 1000,
            sv == pair_views(sorted@),
            sv.len() > 0,
            max_ms == sv.last().0,
            kmax == max_ms as int / step as int,
            k <= kmax + 1,
            spec_normalize(orig, w) == lines_upto(sv, w, kmax as int, 0),
            lines_upto(sv, w, kmax as int, 0) == line_views(out@) + lines_upto(
                sv,
                w,
                kmax as int,
                k as int,
            ),
        decreases kmax + 1 - k,
    {
        let (any, text) = collect_bucket(&sorted, k, step);
        let ghost out0 = out@;
        if any {
            proof {
                assert(k * interval_s * 1000 <= max_ms && k * interval_s <= u64::MAX)
                    by (nonlinear_arith)
                    requires
                        k <= max_ms as int / (interval_s * 1000) as int,
                        kmax == max_ms as int / step as int,
                        k <= kmax,
                        step == interval_s * 1000,
                        1 <= interval_s,
                        step >= 1000,
                        max_ms <= u64::MAX,
                ;
            }
            let line = NormalizedLine { bucket_start: k * interval_s, text };
            proof {
                assert(line@ == (k as int * w, join_spaced(
                    bucket_texts(sv, k as int, step as int),
                )));
            }
            out.push(line);
            proof {
                assert(line_views(out@) =~= line_views(out0) + seq![
                    (k as int * w, join_spaced(bucket_texts(sv, k as int, step as int))),
                ]);
            }
        }
        proof {
            let head: Seq<(int, Seq<char>)> = if bucket_texts(sv, k as int, step as int).len()
                > 0 {
                seq![(k as int * w, join_spaced(bucket_texts(sv, k as int, step as int)))]
            } else {
                Seq::empty()
            };
            assert(lines_upto(sv, w, kmax as int, k as int) == head + lines_upto(
                sv,
                w,
                kmax as int,
                k as int + 1,
            ));
            assert(line_views(out@) =~= line_views(out0) + head);
            assert(line_views(out0) + (head + lines_upto(sv, w, kmax as int, k as int + 1))
                =~= line_views(out@) + lines_upto(sv, w, kmax as int, k as int + 1));
        }
        k = k + 1;
    }
    proof {
        assert(lines_upto(sv, w, kmax as int, k as int) =~= Seq::<(int, Seq<char>)>::empty());
        assert(line_views(out@) + Seq::<(int, Seq<char>)>::empty() =~= line_views(out@));
    }
    out
}

/// An entry whose start lies in window `k` contributes its text to that
/// window's joined text.
proof fn lemma_bucket_texts_contains(s: Seq<(int, Seq<char>)>, k: int, step: int, i: int)
    requires
        0 <= i < s.len(),
        s[i].0 / step == k,
    ensures
        bucket_texts(s, k, step).contains(s[i].1),
    decreases s.len(),
{
    if i == s.len() - 1 {
        let b = bucket_texts(s.drop_last(), k, step).push(s.last().1);
        assert(b[b.len() - 1] == s[i].1);
    } else {
        assert(s.drop_last()[i] == s[i]);
        lemma_bucket_texts_contains(s.drop_last(), k, step, i);
        let inner = bucket_texts(s.drop_last(), k, step);
        let j = choose|j: int| 0 <= j < inner.len() && inner[j] == s[i].1;
        if s.last().0 / step == k {
            assert(inner.push(s.last().1)[j] == s[i].1);
        }
    }
}

/// Every non-empty window between `k` and `kmax` yields a line carrying its
/// start and its joined text.
proof fn lemma_lines_upto_emits(s: Seq<(int, Seq<char>)>, w: int, kmax: int, k: int, k1: int)
    requires
        w >= 1,
        0 <= k <= k1 <= kmax,
        bucket_texts(s, k1, w * 1000).len() > 0,
    ensures
        exists|j: int|
            0 <= j < lines_upto(s, w, kmax, k).len() && lines_upto(s, w, kmax, k)[j] == (
            k1 * w,
            join_spaced(bucket_texts(s, k1, w * 1000)),
            ),
    decreases kmax - k,
{
    let me = lines_upto(s, w, kmax, k);
    let ts = bucket_texts(s, k, w * 1000);
    let head: Seq<(int, Seq<char>)> = if ts.len() > 0 {
        seq![(k * w, join_spaced(ts))]
    } else {
        Seq::empty()
    };
    if k == k1 {
        assert(me[0] == (k1 * w, join_spaced(bucket_texts(s, k1, w * 1000))));
    } else {
        lemma_lines_upto_emits(s, w, kmax, k + 1, k1);
        let rest = lines_upto(s, w, kmax, k + 1);
        let j = choose|j: int|
            0 <= j < rest.len() && rest[j] == (k1 * w, join_spaced(bucket_texts(s, k1, w * 1000)));
        assert(me[head.len() + j] == rest[j]);
    }
}

/// The lines for windows `k` onward carry starts that are at least `k*w`,
/// at most `kmax*w`, and strictly increase.
proof fn lemma_lines_upto_shape(s: Seq<(int, Seq<char>)>, w: int, kmax: int, k: int)
    requires
        w >= 1,
        0 <= k <= kmax + 1,
    ensures
        forall|j: int|
            0 <= j < lines_upto(s, w, kmax, k).len() ==> k * w <= (
            #[trigger] lines_upto(s, w, kmax, k)[j]).0 <= kmax * w,
        forall|j1: int, j2: int|
            0 <= j1 < j2 < lines_upto(s, w, kmax, k).len() ==> lines_upto(s, w, kmax, k)[j1].0
                < lines_upto(s, w, kmax, k)[j2].0,
        forall|j: int|
            0 <= j < lines_upto(s, w, kmax, k).len() ==> exists|kk: int|
                k <= kk <= kmax && (#[trigger] lines_upto(s, w, kmax, k)[j]).0 == kk * w && (
                lines_upto(s, w, kmax, k)[j]).1 == join_spaced(
                    #[trigger] bucket_texts(s, kk, w * 1000),
                ),
    decreases kmax + 1 - k,
{
    let me = lines_upto(s, w, kmax, k);
    if k > kmax {
    } else {
        lemma_lines_upto_shape(s, w, kmax, k + 1);
        let rest = lines_upto(s, w, kmax, k + 1);
        let ts = bucket_texts(s, k, w * 1000);
        let head: Seq<(int, Seq<char>)> = if ts.len() > 0 {
            seq![(k * w, join_spaced(ts))]
        } else {
            Seq::empty()
        };
        assert(k * w < (k + 1) * w && k * w <= kmax * w && (k + 1) * w <= kmax * w + w)
            by (nonlinear_arith)
            requires
                w >= 1,
                k <= kmax,
        ;
        assert forall|j: int| 0 <= j < me.len() implies k * w <= (#[trigger] me[j]).0 <= kmax
            * w by {
            if j >= head.len() {
                assert(me[j] == rest[j - head.len()]);
            }
        }
        assert forall|j1: int, j2: int| 0 <= j1 < j2 < me.len() implies me[j1].0 < me[j2].0 by {
            if j1 >= head.len() {
                assert(me[j1] == rest[j1 - head.len()]);
                assert(me[j2] == rest[j2 - head.len()]);
            } else {
                assert(me[j2] == rest[j2 - head.len()]);
            }
        }
        assert forall|j: int| 0 <= j < me.len() implies exists|kk: int|
            k <= kk <= kmax && (#[trigger] me[j]).0 == kk * w && me[j].1 == join_spaced(
            #[trigger] bucket_texts(s, kk, w * 1000),
        ) by {
            if j < head.len() {
                assert(me[j] == head[0]);
                assert(k <= k <= kmax && me[j].0 == k * w && me[j].1 == join_spaced(
                    bucket_texts(s, k, w * 1000),
                ));
            } else {
                assert(me[j] == rest[j - head.len()]);
                let kk = choose|kk: int|
                    k + 1 <= kk <= kmax && (rest[j - head.len()]).0 == kk * w && (rest[j
                        - head.len()]).1 == join_spaced(
                        #[trigger] bucket_texts(s, kk, w * 1000),
                    );
                assert(k <= kk <= kmax && me[j].0 == kk * w && me[j].1 == join_spaced(
                    bucket_texts(s, kk, w * 1000),
                ));
            }
        }
    }
}

/// Bucket coverage: entry `i` of `s` falls in exactly one window, that
/// window's line is emitted exactly once, and the entry's text stands among
/// the texts joined into it. Nothing is dropped: this holds of every entry.
pub proof fn lemma_bucket_coverage(s: Seq<(int, Seq<char>)>, w: int, i: int)
    requires
        w >= 1,
        0 <= i < s.len(),
        forall|t: int| 0 <= t < s.len() ==> 0 <= (#[trigger] s[t]).0,
    ensures
        ({
            let r = spec_normalize(s, w);
            let k = s[i].0 / (w * 1000);
            &&& exists|j: int|
                0 <= j < r.len() && r[j] == (
                k * w,
                join_spaced(bucket_texts(sort_entries(s), k, w * 1000)),
                )
            &&& bucket_texts(sort_entries(s), k, w * 1000).contains(s[i].1)
            &&& forall|j1: int, j2: int| 0 <= j1 < j2 < r.len() ==> r[j1].0 != r[j2].0
        }),
{
    broadcast use vstd::seq_lib::group_to_multiset_ensures;

    let step = w * 1000;
    let sorted = sort_entries(s);
    let k = s[i].0 / step;
    lemma_sort_entries(s);
    assert(s.contains(s[i]));
    assert(s.to_multiset().contains(s[i]));
    assert(sorted.to_multiset().contains(s[i]));
    assert(sorted.contains(s[i]));
    let m = choose|m: int| 0 <= m < sorted.len() && sorted[m] == s[i];
    lemma_bucket_texts_contains(sorted, k, step, m);
    let kmax = sorted.last().0 / step;
    assert(sorted[m].0 <= sorted.last().0);
    vstd::arithmetic::div_mod::lemma_div_is_ordered(sorted[m].0, sorted.last().0, step);
    vstd::arithmetic::div_mod::lemma_div_pos_is_pos(sorted[m].0, step);
    assert(0 <= k <= kmax);
    lemma_lines_upto_emits(sorted, w, kmax, 0, k);
    lemma_lines_upto_shape(sorted, w, kmax, 0);
}

/// Normalized lines re-read as entries: each window start (seconds) becomes
/// a start time in milliseconds, as re-parsing a rendered line yields it.
pub open spec fn lines_as_pairs(ls: Seq<(int, Seq<char>)>) -> Seq<(int, Seq<char>)> {
    ls.map_values(|l: (int, Seq<char>)| (l.0 * 1000, l.1))
}

/// Sorting an already sorted sequence leaves it unchanged.
proof fn lemma_sort_of_sorted(s: Seq<(int, Seq<char>)>)
    requires
        sorted_by_start(s),
    ensures
        sort_entries(s) == s,
    decreases s.len(),
{
    if s.len() > 0 {
        let dl = s.drop_last();
        assert(sorted_by_start(dl));
        lemma_sort_of_sorted(dl);
        if dl.len() == 0 {
            assert(insert_sorted(dl, s.last()) =~= s);
        } else {
            assert(dl.last().0 == s[s.len() - 2].0);
            assert(dl.last().0 <= s.last().0);
            assert(dl.push(s.last()) =~= s);
        }
    }
}

/// With strictly increasing window indices, no index `k` outside them has
/// any texts.
proof fn lemma_bucket_none(es: Seq<(int, Seq<char>)>, k: int, step: int)
    requires
        forall|j: int| 0 <= j < es.len() ==> (#[trigger] es[j]).0 / step != k,
    ensures
        bucket_texts(es, k, step) == Seq::<Seq<char>>::empty(),
    decreases es.len(),
{
    if es.len() > 0 {
        assert(forall|j: int|
            0 <= j < es.len() - 1 ==> (#[trigger] es.drop_last()[j]) == es[j]);
        lemma_bucket_none(es.drop_last(), k, step);
        assert(es.last() == es[es.len() - 1]);
    }
}

/// With strictly increasing window indices, window `es[j].0 / step` holds
/// exactly the text of entry `j`.
proof fn lemma_bucket_at(es: Seq<(int, Seq<char>)>, step: int, j: int)
    requires
        0 <= j < es.len(),
        forall|j1: int, j2: int|
            0 <= j1 < j2 < es.len() ==> (#[trigger] es[j1]).0 / step < (#[trigger] es[j2]).0
                / step,
    ensures
        bucket_texts(es, es[j].0 / step, step) == seq![es[j].1],
    decreases es.len(),
{
    let k = es[j].0 / step;
    if j == es.len() - 1 {
        assert(forall|t: int|
            0 <= t < es.len() - 1 ==> (#[trigger] es.drop_last()[t]) == es[t]);
        assert(forall|t: int|
            0 <= t < es.len() - 1 ==> (#[trigger] es.drop_last()[t]).0 / step < k);
        lemma_bucket_none(es.drop_last(), k, step);
        assert(es.last() == es[j]);
        assert(bucket_texts(es, k, step) =~= seq![es[j].1]);
    } else {
        assert(forall|t: int|
            0 <= t < es.len() - 1 ==> (#[trigger] es.drop_last()[t]) == es[t]);
        lemma_bucket_at(es.drop_last(), step, j);
        assert(es.last() == es[es.len() - 1]);
        assert(es[j].0 / step < es[es.len() - 1].0 / step);
    }
}

/// Re-normalizing entries whose window indices already strictly increase,
/// are multiples of `w` seconds, and stay at or under `kmax`, reproduces
/// exactly the lines they came from.
proof fn lemma_lines_fixed(r: Seq<(int, Seq<char>)>, w: int, kmax: int, k: int, m: int)
    requires
        w >= 1,
        forall|j: int| 0 <= j < r.len() ==> (#[trigger] r[j]).0 == (r[j].0 / w) * w,
        forall|j: int| 0 <= j < r.len() ==> 0 <= (#[trigger] r[j]).0,
        forall|j: int| 0 <= j < r.len() ==> (#[trigger] r[j]).0 / w <= kmax,
        forall|j1: int, j2: int| 0 <= j1 < j2 < r.len() ==> r[j1].0 < r[j2].0,
        0 <= k <= kmax + 1,
        0 <= m <= r.len(),
        forall|j: int| 0 <= j < m ==> (#[trigger] r[j]).0 / w < k,
        forall|j: int| m <= j < r.len() ==> (#[trigger] r[j]).0 / w >= k,
    ensures
        lines_upto(lines_as_pairs(r), w, kmax, k) == r.subrange(m, r.len() as int),
    decreases kmax + 1 - k,
{
    let es = lines_as_pairs(r);
    let step = w * 1000;
    assert forall|j: int| 0 <= j < r.len() implies (#[trigger] es[j]).0 / step == r[j].0 / w by {
        let q = r[j].0 / w;
        vstd::arithmetic::div_mod::lemma_div_pos_is_pos(r[j].0, w);
        assert(es[j].0 == r[j].0 * 1000);
        assert(r[j].0 * 1000 == q * (w * 1000)) by (nonlinear_arith)
            requires
                r[j].0 == q * w,
        ;
        vstd::arithmetic::div_mod::lemma_div_by_multiple(q, step);
    }
    assert forall|j1: int, j2: int|
        0 <= j1 < j2 < r.len() implies (#[trigger] es[j1]).0 / step < (#[trigger] es[j2]).0
        / step by {
        assert(r[j1].0 / w < r[j2].0 / w) by (nonlinear_arith)
            requires
                r[j1].0 == (r[j1].0 / w) * w,
                r[j2].0 == (r[j2].0 / w) * w,
                r[j1].0 < r[j2].0,
                w >= 1,
        ;
    }
    if k > kmax {
        if m < r.len() {
            assert(r[m].0 / w <= kmax);
            assert(false);
        }
        assert(r.subrange(m, r.len() as int) =~= Seq::<(int, Seq<char>)>::empty());
    } else {
        let ts = bucket_texts(es, k, step);
        if m < r.len() && r[m].0 / w == k {
            lemma_bucket_at(es, step, m);
            assert(ts == seq![es[m].1]);
            assert(join_spaced(ts) == ts[0]);
            assert((k * w, join_spaced(ts)) == r[m]);
            assert forall|j: int| 0 <= j < m + 1 implies (#[trigger] r[j]).0 / w < k + 1 by {}
            assert forall|j: int| m + 1 <= j < r.len() implies (#[trigger] r[j]).0 / w >= k
                + 1 by {
                assert(r[m].0 < r[j].0);
                assert(r[m].0 / w < r[j].0 / w) by (nonlinear_arith)
                    requires
                        r[m].0 == (r[m].0 / w) * w,
                        r[j].0 == (r[j].0 / w) * w,
                        r[m].0 < r[j].0,
                        w >= 1,
                ;
            }
            lemma_lines_fixed(r, w, kmax, k + 1, m + 1);
            assert(lines_upto(es, w, kmax, k) =~= r.subrange(m, r.len() as int));
        } else {
            assert forall|j: int| 0 <= j < es.len() implies (#[trigger] es[j]).0 / step != k by {
                if j < m {
                } else {
                    if j == m {
                    } else {
                        assert(r[m].0 / w < r[j].0 / w) by (nonlinear_arith)
                            requires
                                r[m].0 == (r[m].0 / w) * w,
                                r[j].0 == (r[j].0 / w) * w,
                                r[m].0 < r[j].0,
                                w >= 1,
                        ;
                    }
                }
            }
            lemma_bucket_none(es, k, step);
            assert forall|j: int| m <= j < r.len() implies (#[trigger] r[j]).0 / w >= k + 1 by {
                if j > m {
                    assert(r[m].0 / w < r[j].0 / w) by (nonlinear_arith)
                        requires
                            r[m].0 == (r[m].0 / w) * w,
                            r[j].0 == (r[j].0 / w) * w,
                            r[m].0 < r[j].0,
                            w >= 1,
                    ;
                }
            }
            lemma_lines_fixed(r, w, kmax, k + 1, m);
            assert(lines_upto(es, w, kmax, k) =~= r.subrange(m, r.len() as int));
        }
    }
}

/// Idempotence of the normalizer: re-normalizing its own output — every
/// line read back as an entry starting at its window start — with the same
/// interval width reproduces exactly the same lines, window starts and
/// texts alike.
pub proof fn lemma_normalize_idempotent(s: Seq<(int, Seq<char>)>, w: int)
    requires
        w >= 1,
        forall|t: int| 0 <= t < s.len() ==> 0 <= (#[trigger] s[t]).0,
    ensures
        spec_normalize(lines_as_pairs(spec_normalize(s, w)), w) == spec_normalize(s, w),
{
    broadcast use vstd::seq_lib::group_to_multiset_ensures;

    let step = w * 1000;
    if s.len() == 0 {
        assert(lines_as_pairs(spec_normalize(s, w)).len() == 0);
    } else {
        lemma_sort_entries(s);
        let sorted = sort_entries(s);
        assert forall|j: int| 0 <= j < sorted.len() implies 0 <= (#[trigger] sorted[j]).0 by {
            assert(sorted.contains(sorted[j]));
            assert(sorted.to_multiset().contains(sorted[j]));
            assert(s.to_multiset().contains(sorted[j]));
            assert(s.contains(sorted[j]));
            let t = choose|t: int| 0 <= t < s.len() && s[t] == sorted[j];
            assert(0 <= s[t].0);
        }
        let kmax = sorted.last().0 / step;
        vstd::arithmetic::div_mod::lemma_div_pos_is_pos(sorted.last().0, step);
        let r = spec_normalize(s, w);
        assert(r == lines_upto(sorted, w, kmax, 0));
        lemma_lines_upto_shape(sorted, w, kmax, 0);
        lemma_bucket_texts_contains(sorted, kmax, step, sorted.len() - 1);
        lemma_lines_upto_emits(sorted, w, kmax, 0, kmax);
        assert(r.len() > 0);
        let es = lines_as_pairs(r);
        assert(es.len() == r.len());
        assert forall|j: int| 0 <= j < r.len() implies (#[trigger] r[j]).0 == (r[j].0 / w) * w && 0
            <= r[j].0 by {
            let kk = choose|kk: int|
                0 <= kk <= kmax && r[j].0 == kk * w && r[j].1 == join_spaced(
                    #[trigger] bucket_texts(sorted, kk, w * 1000),
                );
            assert(kk * w >= 0) by (nonlinear_arith)
                requires
                    kk >= 0,
                    w >= 1,
            ;
            vstd::arithmetic::div_mod::lemma_div_by_multiple(kk, w);
        }
        let kmax2 = r.last().0 / w;
        assert forall|j: int| 0 <= j < r.len() implies (#[trigger] r[j]).0 / w <= kmax2 by {
            assert(r[j].0 <= r.last().0);
            vstd::arithmetic::div_mod::lemma_div_is_ordered(r[j].0, r.last().0, w);
        }
        lemma_lines_fixed(r, w, kmax2, 0, 0);
        assert(r.subrange(0, r.len() as int) =~= r);
        assert(lines_upto(es, w, kmax2, 0) == r);
        assert(sorted_by_start(es)) by {
            assert forall|j1: int, j2: int| 0 <= j1 < j2 < es.len() implies es[j1].0
                <= es[j2].0 by {
                assert(es[j1].0 == r[j1].0 * 1000);
                assert(es[j2].0 == r[j2].0 * 1000);
            }
        }
        lemma_sort_of_sorted(es);
        assert(es.last() == es[es.len() - 1]);
        assert(es.last().0 == r.last().0 * 1000);
        assert(r.last().0 == kmax2 * w);
        assert(r.last().0 * 1000 == kmax2 * (w * 1000)) by (nonlinear_arith)
            requires
                r.last().0 == kmax2 * w,
        ;
        vstd::arithmetic::div_mod::lemma_div_pos_is_pos(r.last().0, w);
        vstd::arithmetic::div_mod::lemma_div_by_multiple(kmax2, step);
        assert(sort_entries(es).last().0 / step == kmax2);
        assert(spec_normalize(es, w) == lines_upto(es, w, kmax2, 0));
    }
}

/// No two elements share a start time.
pub open spec fn distinct_starts(s: Seq<(int, Seq<char>)>) -> bool {
    forall|i: int, j: int| 0 <= i < j < s.len() ==> (#[trigger] s[i]).0 != (#[trigger] s[j]).0
}

/// Two sequences sorted by start, holding the same elements and with all
/// starts distinct, are the same sequence.
proof fn lemma_sorted_unique(a: Seq<(int, Seq<char>)>, b: Seq<(int, Seq<char>)>)
    requires
        sorted_by_start(a),
        sorted_by_start(b),
        a.to_multiset() == b.to_multiset(),
        distinct_starts(a),
    ensures
        a == b,
    decreases a.len(),
{
    broadcast use vstd::seq_lib::group_to_multiset_ensures;

    if a.len() == 0 {
        assert(b.len() == b.to_multiset().len());
        assert(a =~= b);
    } else {
        assert(a.len() == a.to_multiset().len());
        assert(b.len() == b.to_multiset().len());
        assert(a.contains(a[0]));
        assert(b.to_multiset().contains(a[0]));
        assert(b.contains(a[0]));
        let jb = choose|jb: int| 0 <= jb < b.len() && b[jb] == a[0];
        assert(b.contains(b[0]));
        assert(a.to_multiset().contains(b[0]));
        assert(a.contains(b[0]));
        let ia = choose|ia: int| 0 <= ia < a.len() && a[ia] == b[0];
        assert(b[0].0 <= b[jb].0);
        assert(a[0].0 <= a[ia].0);
        if ia > 0 {
            assert(a[0].0 != a[ia].0);
            assert(false);
        }
        assert(a[0] == b[0]);
        let at = a.skip(1);
        let bt = b.skip(1);
        assert(a.remove(0) =~= at);
        assert(b.remove(0) =~= bt);
        assert(at.to_multiset() == a.to_multiset().remove(a[0]));
        assert(bt.to_multiset() == b.to_multiset().remove(b[0]));
        assert(sorted_by_start(at)) by {
            assert(forall|i: int, j: int|
                0 <= i < j < at.len() ==> (#[trigger] at[i]) == a[i + 1] && (#[trigger] at[j])
                    == a[j + 1]);
        }
        assert(sorted_by_start(bt)) by {
            assert(forall|i: int, j: int|
                0 <= i < j < bt.len() ==> (#[trigger] bt[i]) == b[i + 1] && (#[trigger] bt[j])
                    == b[j + 1]);
        }
        assert(distinct_starts(at)) by {
            assert(forall|i: int, j: int|
                0 <= i < j < at.len() ==> (#[trigger] at[i]) == a[i + 1] && (#[trigger] at[j])
                    == a[j + 1]);
        }
        lemma_sorted_unique(at, bt);
        assert forall|i: int| 0 <= i < a.len() implies a[i] == b[i] by {
            if i > 0 {
                assert(at[i - 1] == a[i]);
                assert(bt[i - 1] == b[i]);
                assert(at[i - 1] == bt[i - 1]);
            }
        }
        assert(a =~= b);
    }
}

/// Determinism of the normalizer: two inputs holding the same entries in
/// any orders, with no two entries sharing a start time, normalize to the
/// same sequence of lines. (With shared start times the stable sort keeps
/// each input's own tie order, so the joined texts may differ.)
pub proof fn lemma_normalize_deterministic(
    s1: Seq<(int, Seq<char>)>,
    s2: Seq<(int, Seq<char>)>,
    w: int,
)
    requires
        w >= 1,
        s1.to_multiset() == s2.to_multiset(),
        distinct_starts(s1),
    ensures
        spec_normalize(s1, w) == spec_normalize(s2, w),
{
    broadcast use vstd::seq_lib::group_to_multiset_ensures;

    lemma_sort_entries(s1);
    lemma_sort_entries(s2);
    let a = sort_entries(s1);
    let b = sort_entries(s2);
    assert(s1.no_duplicates()) by {
        assert(forall|i: int, j: int|
            0 <= i < s1.len() && 0 <= j < s1.len() && i != j ==> (#[trigger] s1[i]).0 != (
            #[trigger] s1[j]).0);
    }
    s1.lemma_multiset_has_no_duplicates();
    a.lemma_multiset_has_no_duplicates_conv();
    assert(distinct_starts(a)) by {
        assert forall|i: int, j: int|
            0 <= i < j < a.len() implies (#[trigger] a[i]).0 != (#[trigger] a[j]).0 by {
            if a[i].0 == a[j].0 {
                assert(a[i] != a[j]);
                assert(a.contains(a[i]) && a.contains(a[j]));
                assert(s1.to_multiset().contains(a[i]) && s1.to_multiset().contains(a[j]));
                assert(s1.contains(a[i]) && s1.contains(a[j]));
                let t1 = choose|t1: int| 0 <= t1 < s1.len() && s1[t1] == a[i];
                let t2 = choose|t2: int| 0 <= t2 < s1.len() && s1[t2] == a[j];
                assert(t1 != t2);
                assert(s1[t1].0 != s1[t2].0);
                assert(false);
            }
        }
    }
    lemma_sorted_unique(a, b);
    assert(s1.len() == s1.to_multiset().len());
    assert(s2.len() == s2.to_multiset().len());
    if s1.len() == 0 {
    } else {
        assert(spec_normalize(s1, w) == lines_upto(a, w, a.last().0 / (w * 1000), 0));
        assert(spec_normalize(s2, w) == lines_upto(b, w, b.last().0 / (w * 1000), 0));
    }
}

/// The timed pairs of parsed entries: start milliseconds and text; the
/// durations play no part in bucketing.
pub open spec fn entry_pairs(es: Seq<crate::timedtext::SpecEntry>) -> Seq<(int, Seq<char>)> {
    es.map_values(|e: crate::timedtext::SpecEntry| (e.start_ms, e.text))
}

/// Normalizes parsed entries directly: each is bucketed by its start time.
pub fn normalize_transcript(entries: &Vec<crate::timedtext::TranscriptEntry>, interval_s: u64) -> (r: Vec<
    NormalizedLine,
>)
    requires
        1 <= interval_s <= MAX_INTERVAL_S,
    ensures
        line_views(r@) == spec_normalize(
            entry_pairs(crate::timedtext::entry_views(entries@)),
            interval_s as int,
        ),
{
    let ghost target = entry_pairs(crate::timedtext::entry_views(entries@));
    let mut pairs: Vec<(u64, String)> = Vec::new();
    let n = entries.len();
    let mut i: usize = 0;
    while i < n
        invariant
            target == entry_pairs(crate::timedtext::entry_views(entries@)),
            n == entries@.len(),
            i <= n,
            pair_views(pairs@) == target.subrange(0, i as int),
        decreases n - i,
    {
        let ghost pairs0 = pairs@;
        let p = (entries[i].start_ms, entries[i].text.clone());
        proof {
            assert(p.1 == entries@[i as int].text);
            assert((p.0 as int, p.1@) == (entries@[i as int].start_ms as int, entries@[
                i as int
            ].text@));
            assert(crate::timedtext::entry_views(entries@)[i as int] == entries@[i as int]@);
            assert(target[i as int] == (entries@[i as int].start_ms as int, entries@[
                i as int
            ].text@));
        }
        pairs.push(p);
        proof {
            assert(pairs@ == pairs0.push((entries@[i as int].start_ms, entries@[i as int].text)));
            assert(pair_views(pairs0).len() == pairs0.len());
            assert(pairs0.len() == i);
            assert forall|t: int| 0 <= t < i + 1 implies pair_views(pairs@)[t]
                == target.subrange(0, i + 1)[t] by {
                if t < i {
                    assert(pairs@[t] == pairs0[t]);
                    assert(pair_views(pairs0)[t] == target[t]);
                } else {
                    assert(pairs@[t] == (entries@[t].start_ms, entries@[t].text));
                }
            }
            assert(pair_views(pairs@) =~= target.subrange(0, i + 1));
        }
        i += 1;
    }
    proof {
        assert(target.subrange(0, n as int) =~= target);
    }
    normalize_entries(pairs, interval_s)
}

} // verus!
