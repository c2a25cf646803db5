//! Character-level text utilities: conversion between `&str` and `Vec<char>`,
//! substring search, and decimal time parsing, all with exact contracts over
//! `Seq<char>`.
use vstd::prelude::*;
use vstd::string::StrSliceExecFns;

verus! {

/// Relies on `String::push`: appends one character at the end.
#[verifier::external_body]
pub fn push_char(s: &mut String, c: char)
    ensures
        final(s)@ == old(s)@.push(c),
{
    s.push(c)
}

/// The characters of `s`, as a vector.
pub fn str_to_chars(s: &str) -> (r: Vec<char>)
    ensures
        r@ == s@,
{
    let n = s.unicode_len();
    let mut r: Vec<char> = Vec::new();
    let mut i: usize = 0;
    while i < n
        invariant
            n == s@.len(),
            i <= n,
            r@ == s@.take(i as int),
        decreases n - i,
    {
        r.push(s.get_char(i));
        assert(s@.take(i + 1) == s@.take(i as int).push(s@[i as int]));
        i += 1;
    }
    assert(s@.take(n as int) == s@);
    r
}

/// The characters of `v`, as an owned string.
pub fn chars_to_string(v: &[char]) -> (r: String)
    ensures
        r@ == v@,
{
    let mut r = String::new();
    let mut i: usize = 0;
    while i < v.len()
        invariant
            i <= v@.len(),
            r@ == v@.take(i as int),
        decreases v@.len() - i,
    {
        push_char(&mut r, v[i]);
        assert(v@.take(i + 1) == v@.take(i as int).push(v@[i as int]));
        i += 1;
    }
    assert(v@.take(v@.len() as int) == v@);
    r
}

/// The needle `m` occurs in `h` starting at position `i`.
pub open spec fn occurs_at(h: Seq<char>, m: Seq<char>, i: int) -> bool {
    0 <= i && i + m.len() <= h.len() && h.subrange(i, i + m.len() as int) == m
}

/// The first position at or after `from` where `m` occurs in `h`, if any.
pub open spec fn first_occurrence_from(h: Seq<char>, m: Seq<char>, from: int) -> Option<int>
    decreases h.len() + 1 - from when 0 <= from
{
    if from + m.len() > h.len() {
        None
    } else if occurs_at(h, m, from) {
        Some(from)
    } else {
        first_occurrence_from(h, m, from + 1)
    }
}

pub proof fn lemma_first_occurrence_props(h: Seq<char>, m: Seq<char>, from: int)
    requires
        0 <= from,
    ensures
        match first_occurrence_from(h, m, from) {
            Some(i) => occurs_at(h, m, i) && from <= i && forall|j: int|
                from <= j < i ==> !occurs_at(h, m, j),
            None => forall|j: int| from <= j ==> !occurs_at(h, m, j),
        },
    decreases h.len() + 1 - from,
{
    if from + m.len() > h.len() {
        assert forall|j: int| from <= j implies !occurs_at(h, m, j) by {}
    } else if occurs_at(h, m, from) {
    } else {
        lemma_first_occurrence_props(h, m, from + 1);
    }
}

/// Tests whether `m` occurs in `h` at position `i` (both as char vectors).
pub fn matches_at(h: &[char], m: &[char], i: usize) -> (r: bool)
    requires
        i + m@.len() <= h@.len(),
    ensures
        r == occurs_at(h@, m@, i as int),
{
    let hlen = h.len();
    let mut k: usize = 0;
    while k < m.len()
        invariant
            hlen == h@.len(),
            i + m@.len() <= h@.len(),
            k <= m@.len(),
            forall|t: int| 0 <= t < k ==> h@[i + t] == m@[t],
        decreases m@.len() - k,
    {
        if h[i + k] != m[k] {
            assert(h@.subrange(i as int, i + m@.len() as int)[k as int] != m@[k as int]);
            return false;
        }
        k += 1;
    }
    assert(h@.subrange(i as int, i + m@.len() as int) =~= m@);
    true
}

/// The first occurrence of `m` in `h` at or after `from`.
pub fn find_from(h: &[char], m: &[char], from: usize) -> (r: Option<usize>)
    ensures
        match r {
            Some(i) => from <= i && first_occurrence_from(h@, m@, from as int) == Some(i as int),
            None => first_occurrence_from(h@, m@, from as int) is None,
        },
{
    if from > h.len() {
        return None;
    }
    if m.len() == 0 {
        assert(h@.subrange(from as int, from as int) =~= m@);
        return Some(from);
    }
    let mut i: usize = from;
    while h.len() - i >= m.len()
        invariant
            m@.len() >= 1,
            from <= i <= h@.len(),
            first_occurrence_from(h@, m@, from as int) == first_occurrence_from(
                h@,
                m@,
                i as int,
            ),
        decreases h@.len() - i,
    {
        if matches_at(h, m, i) {
            return Some(i);
        }
        i += 1;
    }
    None
}

/// Character-for-character equality of two strings.
pub fn str_eq(a: &str, b: &str) -> (r: bool)
    ensures
        r == (a@ == b@),
{
    let an = a.unicode_len();
    let bn = b.unicode_len();
    if an != bn {
        return false;
    }
    let mut i: usize = 0;
    while i < an
        invariant
            an == a@.len() == b@.len(),
            i <= an,
            forall|t: int| 0 <= t < i ==> a@[t] == b@[t],
        decreases an - i,
    {
        if a.get_char(i) != b.get_char(i) {
            return false;
        }
        i += 1;
    }
    assert(a@ =~= b@);
    true
}

/// The numeric value of a decimal digit character, or 10 for any other char.
pub open spec fn digit_val(c: char) -> int {
    if c == '0' {
        0
    } else if c == '1' {
        1
    } else if c == '2' {
        2
    } else if c == '3' {
        3
    } else if c == '4' {
        4
    } else if c == '5' {
        5
    } else if c == '6' {
        6
    } else if c == '7' {
        7
    } else if c == '8' {
        8
    } else if c == '9' {
        9
    } else {
        10
    }
}

pub open spec fn is_digit(c: char) -> bool {
    digit_val(c) <= 9
}

pub open spec fn all_digits(s: Seq<char>) -> bool {
    forall|i: int| 0 <= i < s.len() ==> is_digit(#[trigger] s[i])
}

/// The value of a digit string read in base 10 (0 for the empty string).
pub open spec fn digits_val(s: Seq<char>) -> int
    decreases s.len(),
{
    if s.len() == 0 {
        0
    } else {
        digits_val(s.drop_last()) * 10 + digit_val(s.last())
    }
}

pub open spec fn pow10(n: nat) -> int
    decreases n,
{
    if n == 0 {
        1
    } else {
        10 * pow10((n - 1) as nat)
    }
}

pub proof fn lemma_digits_val_bounds(s: Seq<char>)
    requires
        all_digits(s),
    ensures
        0 <= digits_val(s) < pow10(s.len()),
    decreases s.len(),
{
    if s.len() > 0 {
        assert(all_digits(s.drop_last())) by {
            assert(forall|i: int| 0 <= i < s.len() - 1 ==> s.drop_last()[i] == s[i]);
        }
        lemma_digits_val_bounds(s.drop_last());
    }
}

/// The exec mirror of `digit_val`.
pub fn digit_of(c: char) -> (r: u64)
    ensures
        r == digit_val(c),
{
    match c {
        '0' => 0,
        '1' => 1,
        '2' => 2,
        '3' => 3,
        '4' => 4,
        '5' => 5,
        '6' => 6,
        '7' => 7,
        '8' => 8,
        '9' => 9,
        _ => 10,
    }
}

/// True when every character of `s[lo..hi]` is a decimal digit.
pub fn check_digits_range(s: &[char], lo: usize, hi: usize) -> (b: bool)
    requires
        lo <= hi <= s@.len(),
    ensures
        b == all_digits(s@.subrange(lo as int, hi as int)),
{
    let mut i: usize = lo;
    while i < hi
        invariant
            lo <= i <= hi <= s@.len(),
            forall|t: int| lo <= t < i ==> is_digit(#[trigger] s@[t]),
        decreases hi - i,
    {
        if digit_of(s[i]) > 9 {
            assert(s@.subrange(lo as int, hi as int)[i - lo] == s@[i as int]);
            return false;
        }
        i += 1;
    }
    assert forall|t: int| 0 <= t < hi - lo implies is_digit(#[trigger] s@.subrange(lo as int, hi as int)[t]) by {
        assert(s@.subrange(lo as int, hi as int)[t] == s@[lo + t]);
    }
    true
}

/// The base-10 value of the digit string `s[lo..hi]`, or `None` when it
/// exceeds `u64::MAX`.
pub fn digits_value_range(s: &[char], lo: usize, hi: usize) -> (r: Option<u64>)
    requires
        lo <= hi <= s@.len(),
        all_digits(s@.subrange(lo as int, hi as int)),
    ensures
        match r {
            Some(v) => v == digits_val(s@.subrange(lo as int, hi as int)),
            None => digits_val(s@.subrange(lo as int, hi as int)) > u64::MAX,
        },
{
    let mut acc: u64 = 0;
    let mut big: bool = false;
    let mut i: usize = lo;
    while i < hi
        invariant
            lo <= i <= hi <= s@.len(),
            all_digits(s@.subrange(lo as int, hi as int)),
            !big ==> acc == digits_val(s@.subrange(lo as int, i as int)),
            big ==> digits_val(s@.subrange(lo as int, i as int)) > u64::MAX,
        decreases hi - i,
    {
        let ghost pre = s@.subrange(lo as int, i as int);
        let ghost post = s@.subrange(lo as int, i + 1);
        assert(post.drop_last() =~= pre);
        assert(post.last() == s@[i as int]);
        assert(is_digit(s@[i as int])) by {
            assert(s@.subrange(lo as int, hi as int)[i - lo] == s@[i as int]);
        }
        let d = digit_of(s[i]);
        if big || acc > (u64::MAX - d) / 10 {
            proof {
                if !big {
                    lemma_digits_val_bounds(pre);
                    assert(acc * 10 + d > u64::MAX) by (nonlinear_arith)
                        requires
                            acc > (u64::MAX - d) / 10,
                            d <= 10,
                            acc >= 0,
                    ;
                }
            }
            big = true;
            assert(digits_val(post) > u64::MAX) by (nonlinear_arith)
                requires
                    digits_val(post) == digits_val(pre) * 10 + digit_val(post.last()),
                    digits_val(pre) * 10 + digit_val(post.last()) > u64::MAX || digits_val(pre)
                        > u64::MAX,
                    digit_val(post.last()) >= 0,
                    digits_val(pre) >= 0 || digits_val(pre) > u64::MAX,
            ;
        } else {
            assert(acc * 10 + d <= u64::MAX) by (nonlinear_arith)
                requires
                    acc <= (u64::MAX - d) / 10,
                    d <= 10,
                    acc >= 0,
            ;
            acc = acc * 10 + d;
        }
        i += 1;
    }
    if big {
        None
    } else {
        Some(acc)
    }
}

/// The character for a decimal digit value (meaningful for 0 through 9).
pub open spec fn digit_char(d: int) -> char {
    if d == 0 {
        '0'
    } else if d == 1 {
        '1'
    } else if d == 2 {
        '2'
    } else if d == 3 {
        '3'
    } else if d == 4 {
        '4'
    } else if d == 5 {
        '5'
    } else if d == 6 {
        '6'
    } else if d == 7 {
        '7'
    } else if d == 8 {
        '8'
    } else {
        '9'
    }
}

/// The shortest base-10 rendering of `n` (so `0` renders as `"0"`).
pub open spec fn dec_rep(n: int) -> Seq<char>
    decreases n when n >= 0
{
    if n < 10 {
        seq![digit_char(n)]
    } else {
        dec_rep(n / 10).push(digit_char(n % 10))
    }
}

/// `n` in base 10, zero-padded on the left to at least two digits.
pub open spec fn dec_rep2(n: int) -> Seq<char> {
    if n < 10 {
        seq!['0'] + dec_rep(n)
    } else {
        dec_rep(n)
    }
}

/// Appends the base-10 rendering of `n` to `v`.
pub fn push_dec(v: &mut Vec<char>, n: u64)
    ensures
        final(v)@ == old(v)@ + dec_rep(n as int),
    decreases n,
{
    if n < 10 {
        let c = match n {
            0 => '0',
            1 => '1',
            2 => '2',
            3 => '3',
            4 => '4',
            5 => '5',
            6 => '6',
            7 => '7',
            8 => '8',
            _ => '9',
        };
        v.push(c);
        assert(v@ =~= old(v)@ + dec_rep(n as int));
    } else {
        push_dec(v, n / 10);
        push_dec(v, n % 10);
        assert(dec_rep(n as int % 10) =~= seq![digit_char(n as int % 10)]);
        assert(v@ =~= old(v)@ + dec_rep(n as int));
    }
}

/// Appends `n` in base 10, zero-padded to at least two digits.
pub fn push_dec2(v: &mut Vec<char>, n: u64)
    ensures
        final(v)@ == old(v)@ + dec_rep2(n as int),
{
    if n < 10 {
        v.push('0');
    }
    push_dec(v, n);
    assert(v@ =~= old(v)@ + dec_rep2(n as int));
}

/// The first index at or after `i` holding the character `c`, if any.
pub open spec fn first_char_from(s: Seq<char>, c: char, i: int) -> Option<int>
    decreases s.len() - i when 0 <= i <= s.len()
{
    if i == s.len() {
        None
    } else if s[i] == c {
        Some(i)
    } else {
        first_char_from(s, c, i + 1)
    }
}

/// The integer part of a decimal literal: everything before the first dot.
pub open spec fn int_part(s: Seq<char>) -> Seq<char> {
    match first_char_from(s, '.', 0) {
        Some(p) => s.take(p),
        None => s,
    }
}

/// The fractional part of a decimal literal: everything after the first dot.
pub open spec fn frac_part(s: Seq<char>) -> Seq<char> {
    match first_char_from(s, '.', 0) {
        Some(p) => s.skip(p + 1),
        None => Seq::empty(),
    }
}

/// `s` is an unsigned decimal literal: digits around at most one dot, with at
/// least one digit in all. This is the numeric grammar the timed-text parser
/// accepts; signs, exponents and non-finite spellings are malformed.
pub open spec fn valid_number(s: Seq<char>) -> bool {
    &&& all_digits(int_part(s))
    &&& all_digits(frac_part(s))
    &&& int_part(s).len() + frac_part(s).len() >= 1
}

/// The value of the fractional digit string in milliseconds: the first three
/// digits, right-padded with zeros; further digits are truncated away.
pub open spec fn frac_ms(f: Seq<char>) -> int {
    if f.len() >= 3 {
        digits_val(f.take(3))
    } else if f.len() == 2 {
        digits_val(f) * 10
    } else if f.len() == 1 {
        digits_val(f) * 100
    } else {
        0
    }
}

/// The value of a valid decimal literal, in whole milliseconds.
pub open spec fn number_ms(s: Seq<char>) -> int {
    digits_val(int_part(s)) * 1000 + frac_ms(frac_part(s))
}

pub proof fn lemma_first_char_props(s: Seq<char>, c: char, i: int)
    requires
        0 <= i <= s.len(),
    ensures
        match first_char_from(s, c, i) {
            Some(p) => i <= p < s.len() && s[p] == c && forall|j: int|
                i <= j < p ==> s[j] != c,
            None => forall|j: int| i <= j < s.len() ==> s[j] != c,
        },
    decreases s.len() - i,
{
    if i < s.len() && s[i] != c {
        lemma_first_char_props(s, c, i + 1);
    }
}

/// Finds the first occurrence of the character `c` at or after `from`.
pub fn find_char(s: &[char], c: char, from: usize) -> (r: Option<usize>)
    requires
        from <= s@.len(),
    ensures
        match r {
            Some(p) => from <= p && first_char_from(s@, c, from as int) == Some(p as int),
            None => first_char_from(s@, c, from as int) is None,
        },
{
    let mut i: usize = from;
    while i < s.len()
        invariant
            from <= i <= s@.len(),
            first_char_from(s@, c, from as int) == first_char_from(s@, c, i as int),
        decreases s@.len() - i,
    {
        if s[i] == c {
            return Some(i);
        }
        i += 1;
    }
    None
}

/// Parses `s` as an unsigned decimal count of seconds and returns it in whole
/// milliseconds: `Some` exactly when the grammar holds and the value fits in
/// a `u64`.
pub fn parse_number_ms(s: &[char]) -> (r: Option<u64>)
    ensures
        match r {
            Some(v) => valid_number(s@) && number_ms(s@) <= u64::MAX && v == number_ms(s@),
            None => !valid_number(s@) || number_ms(s@) > u64::MAX,
        },
{
    let n = s.len();
    let dot = find_char(s, '.', 0);
    let (ilo, ihi, flo, fhi): (usize, usize, usize, usize) = match dot {
        Some(p) => {
            proof {
                lemma_first_char_props(s@, '.', 0);
            }
            (0, p, p + 1, n)
        },
        None => (0, n, n, n),
    };
    proof {
        assert(int_part(s@) =~= s@.subrange(ilo as int, ihi as int));
        assert(frac_part(s@) =~= s@.subrange(flo as int, fhi as int));
    }
    if !check_digits_range(s, ilo, ihi) {
        return None;
    }
    if !check_digits_range(s, flo, fhi) {
        return None;
    }
    if ihi - ilo == 0 && fhi - flo == 0 {
        return None;
    }
    // Milliseconds from the fractional digits: at most three of them count.
    let fcut: usize = if fhi - flo > 3 {
        flo + 3
    } else {
        fhi
    };
    proof {
        assert(all_digits(s@.subrange(flo as int, fcut as int))) by {
            assert(forall|t: int|
                0 <= t < fcut - flo ==> s@.subrange(flo as int, fcut as int)[t] == #[trigger] s@.subrange(
                    flo as int,
                    fhi as int,
                )[t]);
        }
    }
    proof {
        assert(pow10(0) == 1);
        assert(pow10(1) == 10);
        assert(pow10(2) == 100);
        assert(pow10(3) == 1000);
        lemma_digits_val_bounds(s@.subrange(flo as int, fcut as int));
    }
    let fv = match digits_value_range(s, flo, fcut) {
        Some(v) => v,
        None => {
            proof {
                assert(false);
            }
            0
        },
    };
    let ghost f = frac_part(s@);
    let fr: u64 = if fhi - flo >= 3 {
        proof {
            assert(s@.subrange(flo as int, fcut as int) =~= f.take(3));
        }
        fv
    } else if fhi - flo == 2 {
        fv * 10
    } else if fhi - flo == 1 {
        fv * 100
    } else {
        0
    };
    proof {
        assert(fr == frac_ms(f));
        assert(fr <= 999);
    }
    let iv = match digits_value_range(s, ilo, ihi) {
        Some(v) => v,
        None => {
            proof {
                assert(number_ms(s@) > u64::MAX) by (nonlinear_arith)
                    requires
                        number_ms(s@) == digits_val(int_part(s@)) * 1000 + frac_ms(frac_part(s@)),
                        digits_val(int_part(s@)) > u64::MAX,
                        frac_ms(frac_part(s@)) >= 0,
                ;
            }
            return None;
        },
    };
    if iv > (u64::MAX - fr) / 1000 {
        proof {
            assert(iv * 1000 + fr > u64::MAX) by (nonlinear_arith)
                requires
                    iv > (u64::MAX - fr) / 1000,
                    fr <= 999,
                    iv >= 0,
            ;
        }
        return None;
    }
    proof {
        assert(iv * 1000 + fr <= u64::MAX) by (nonlinear_arith)
            requires
                iv <= (u64::MAX - fr) / 1000,
                fr <= 999,
                iv >= 0,
        ;
    }
    Some(iv * 1000 + fr)
}

} // verus!
