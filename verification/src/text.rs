//! Byte-level text scanning over UTF-8 input: line splitting, Unicode
//! whitespace trimming, tokenising, field splitting and decimal parsing.

use vstd::prelude::*;
use vstd::utf8::*;
use vstd::string::StringExecFns;

verus! {

/// Index just past the end of the line that starts at `pos`: one past the
/// first `'\n'` at or after `pos`, or the end of the input.
pub open spec fn line_end(s: Seq<u8>, pos: int) -> int
    decreases s.len() - pos,
{
    if pos < 0 || pos >= s.len() {
        s.len() as int
    } else if s[pos] == 10u8 {
        pos + 1
    } else {
        line_end(s, pos + 1)
    }
}

pub proof fn lemma_line_end_bounds(s: Seq<u8>, pos: int)
    requires
        0 <= pos < s.len(),
    ensures
        pos < line_end(s, pos) <= s.len(),
        forall|k: int| pos <= k < line_end(s, pos) - 1 ==> s[k] != 10u8,
        line_end(s, pos) < s.len() ==> s[line_end(s, pos) - 1] == 10u8,
    decreases s.len() - pos,
{
    if s[pos] != 10u8 {
        if pos + 1 < s.len() {
            lemma_line_end_bounds(s, pos + 1);
        } else {
            assert(line_end(s, pos + 1) == s.len());
        }
    }
}

/// Finds the end of the line starting at `pos`.
pub fn find_line_end(s: &[u8], pos: usize) -> (e: usize)
    requires
        pos < s@.len(),
    ensures
        e == line_end(s@, pos as int),
        pos < e <= s@.len(),
{
    proof { lemma_line_end_bounds(s@, pos as int); }
    let mut i = pos;
    while i < s.len()
        invariant
            pos <= i <= s@.len(),
            line_end(s@, i as int) == line_end(s@, pos as int),
        decreases s@.len() - i,
    {
        if s[i] == 10u8 {
            return i + 1;
        }
        i = i + 1;
    }
    i
}


/// ASCII bytes that `char::is_whitespace` accepts: tab, line feed, vertical
/// tab, form feed, carriage return and space.
pub open spec fn is_ascii_ws(b: u8) -> bool {
    b == 9u8 || b == 10u8 || b == 11u8 || b == 12u8 || b == 13u8 || b == 32u8
}

/// Three-byte UTF-8 encodings of the Unicode `White_Space` characters
/// U+1680, U+2000..=U+200A, U+2028, U+2029, U+202F, U+205F and U+3000.
pub open spec fn is_ws3(a: u8, b: u8, c: u8) -> bool {
    ||| (a == 0xE1u8 && b == 0x9Au8 && c == 0x80u8)
    ||| (a == 0xE2u8 && b == 0x80u8 && ((0x80u8 <= c && c <= 0x8Au8) || c == 0xA8u8 || c == 0xA9u8
        || c == 0xAFu8))
    ||| (a == 0xE2u8 && b == 0x81u8 && c == 0x9Fu8)
    ||| (a == 0xE3u8 && b == 0x80u8 && c == 0x80u8)
}

/// Two-byte UTF-8 encodings of the `White_Space` characters U+0085 and U+00A0.
pub open spec fn is_ws2(a: u8, b: u8) -> bool {
    a == 0xC2u8 && (b == 0x85u8 || b == 0xA0u8)
}

/// Length of the encoding of a whitespace character that starts at `i` and
/// ends at or before `hi`, or 0 when no whitespace character starts there.
pub open spec fn ws_width_at(s: Seq<u8>, i: int, hi: int) -> int {
    if 0 <= i && i + 1 <= hi && hi <= s.len() && is_ascii_ws(s[i]) {
        1
    } else if 0 <= i && i + 2 <= hi && hi <= s.len() && is_ws2(s[i], s[i + 1]) {
        2
    } else if 0 <= i && i + 3 <= hi && hi <= s.len() && is_ws3(s[i], s[i + 1], s[i + 2]) {
        3
    } else {
        0
    }
}

/// Length of the encoding of a whitespace character that ends at `j` and
/// starts at or after `lo`, or 0 when no whitespace character ends there.
pub open spec fn ws_width_before(s: Seq<u8>, lo: int, j: int) -> int {
    if 0 <= lo && lo <= j - 1 && j <= s.len() && is_ascii_ws(s[j - 1]) {
        1
    } else if 0 <= lo && lo <= j - 2 && j <= s.len() && is_ws2(s[j - 2], s[j - 1]) {
        2
    } else if 0 <= lo && lo <= j - 3 && j <= s.len() && is_ws3(s[j - 3], s[j - 2], s[j - 1]) {
        3
    } else {
        0
    }
}

/// The characters that `char::is_whitespace` accepts, by code point: those
/// with the Unicode `White_Space` property.
pub open spec fn is_white_space(c: char) -> bool {
    let v = c as u32;
    ||| 9 <= v <= 13
    ||| v == 32
    ||| v == 0x85
    ||| v == 0xA0
    ||| v == 0x1680
    ||| 0x2000 <= v <= 0x200A
    ||| v == 0x2028
    ||| v == 0x2029
    ||| v == 0x202F
    ||| v == 0x205F
    ||| v == 0x3000
}

proof fn lemma_bytes_width_1(v: u32)
    by (bit_vector)
    requires
        v <= 0x7F,
    ensures
        leading_byte_width_1(v) as u32 == v,
{
}

proof fn lemma_bytes_width_2(v: u32)
    by (bit_vector)
    requires
        0x80 <= v <= 0x7FF,
    ensures
        0xC2 <= leading_byte_width_2(v) <= 0xDF,
        0x80 <= last_continuation_byte(v) <= 0xBF,
        is_ws2(leading_byte_width_2(v), last_continuation_byte(v)) == (v == 0x85 || v == 0xA0),
{
}

proof fn lemma_bytes_width_3(v: u32)
    by (bit_vector)
    requires
        0x800 <= v <= 0xFFFF,
    ensures
        0xE0 <= leading_byte_width_3(v) <= 0xEF,
        0x80 <= second_last_continuation_byte(v) <= 0xBF,
        0x80 <= last_continuation_byte(v) <= 0xBF,
        is_ws3(leading_byte_width_3(v), second_last_continuation_byte(v), last_continuation_byte(v))
            == (v == 0x1680 || (0x2000 <= v && v <= 0x200A) || v == 0x2028 || v == 0x2029 || v
            == 0x202F || v == 0x205F || v == 0x3000),
{
}

proof fn lemma_bytes_width_4(v: u32)
    by (bit_vector)
    requires
        0x10000 <= v <= 0x10FFFF,
    ensures
        0xF0 <= leading_byte_width_4(v),
        0x80 <= third_last_continuation_byte(v) <= 0xBF,
        0x80 <= second_last_continuation_byte(v) <= 0xBF,
        0x80 <= last_continuation_byte(v) <= 0xBF,
{
}

proof fn lemma_encode_one(c: char)
    ensures
        encode_utf8(seq![c]) == encode_scalar(c as u32),
        1 <= encode_utf8(seq![c]).len() <= 4,
{
    char_is_scalar(c);
    let t = seq![c];
    assert(t[0] == c);
    assert(t.drop_first() =~= Seq::<char>::empty());
    assert(encode_utf8(Seq::<char>::empty()) =~= Seq::<u8>::empty());
    assert(encode_utf8(t) == encode_scalar(t[0] as u32) + encode_utf8(t.drop_first()));
    assert(encode_utf8(t) =~= encode_scalar(c as u32));
}

/// A character whose encoding starts at `i` (and ends by `hi`) counts as
/// whitespace at `i` exactly when it is a Unicode `White_Space` character,
/// with its whole width; e.g. `'\r'` does.
pub proof fn lemma_ws_width_at_char(s: Seq<u8>, i: int, hi: int, c: char)
    requires
        0 <= i,
        i + encode_utf8(seq![c]).len() <= hi <= s.len(),
        s.subrange(i, i + encode_utf8(seq![c]).len()) == encode_utf8(seq![c]),
    ensures
        ws_width_at(s, i, hi) == if is_white_space(c) {
            encode_utf8(seq![c]).len() as int
        } else {
            0
        },
{
    lemma_encode_one(c);
    let b = encode_utf8(seq![c]);
    let v = c as u32;
    char_is_scalar(c);
    assert(forall|k: int| 0 <= k < b.len() ==> s[i + k] == #[trigger] b[k]) by {
        assert forall|k: int| 0 <= k < b.len() implies s[i + k] == #[trigger] b[k] by {
            assert(s.subrange(i, i + b.len())[k] == s[i + k]);
        }
    }
    if has_width_1_encoding(v) {
        lemma_bytes_width_1(v);
        assert(s[i] == b[0]);
    } else if has_width_2_encoding(v) {
        lemma_bytes_width_2(v);
        assert(s[i] == b[0] && s[i + 1] == b[1]);
    } else if has_width_3_encoding(v) {
        lemma_bytes_width_3(v);
        assert(s[i] == b[0] && s[i + 1] == b[1] && s[i + 2] == b[2]);
    } else {
        lemma_bytes_width_4(v);
        assert(s[i] == b[0] && s[i + 1] == b[1] && s[i + 2] == b[2]);
    }
}

/// A character whose encoding ends at `j` (and starts at or after `lo`)
/// counts as whitespace before `j` exactly when it is a Unicode
/// `White_Space` character, with its whole width.
pub proof fn lemma_ws_width_before_char(s: Seq<u8>, lo: int, j: int, c: char)
    requires
        0 <= lo <= j - encode_utf8(seq![c]).len(),
        j <= s.len(),
        s.subrange(j - encode_utf8(seq![c]).len(), j) == encode_utf8(seq![c]),
    ensures
        ws_width_before(s, lo, j) == if is_white_space(c) {
            encode_utf8(seq![c]).len() as int
        } else {
            0
        },
{
    lemma_encode_one(c);
    let b = encode_utf8(seq![c]);
    let k0 = j - b.len();
    let v = c as u32;
    char_is_scalar(c);
    assert(forall|k: int| 0 <= k < b.len() ==> s[k0 + k] == #[trigger] b[k]) by {
        assert forall|k: int| 0 <= k < b.len() implies s[k0 + k] == #[trigger] b[k] by {
            assert(s.subrange(k0, j)[k] == s[k0 + k]);
        }
    }
    if has_width_1_encoding(v) {
        lemma_bytes_width_1(v);
        assert(s[j - 1] == b[0]);
    } else if has_width_2_encoding(v) {
        lemma_bytes_width_2(v);
        assert(s[j - 2] == b[0] && s[j - 1] == b[1]);
    } else if has_width_3_encoding(v) {
        lemma_bytes_width_3(v);
        assert(s[j - 3] == b[0] && s[j - 2] == b[1] && s[j - 1] == b[2]);
    } else {
        lemma_bytes_width_4(v);
        assert(s[j - 3] == b[1] && s[j - 2] == b[2] && s[j - 1] == b[3]);
    }
}

/// Start of `s[lo..hi]` once leading whitespace is removed.
pub open spec fn trim_start(s: Seq<u8>, lo: int, hi: int) -> int
    decreases hi - lo,
{
    if lo < hi && ws_width_at(s, lo, hi) > 0 {
        trim_start(s, lo + ws_width_at(s, lo, hi), hi)
    } else {
        lo
    }
}

/// End of `s[lo..hi]` once trailing whitespace is removed.
pub open spec fn trim_end(s: Seq<u8>, lo: int, hi: int) -> int
    decreases hi - lo,
{
    if lo < hi && ws_width_before(s, lo, hi) > 0 {
        trim_end(s, lo, hi - ws_width_before(s, lo, hi))
    } else {
        hi
    }
}

/// The range that `str::trim` keeps of `s[lo..hi]`.
pub open spec fn trimmed(s: Seq<u8>, lo: int, hi: int) -> (int, int) {
    (trim_start(s, lo, hi), trim_end(s, trim_start(s, lo, hi), hi))
}

pub proof fn lemma_trim_start_bounds(s: Seq<u8>, lo: int, hi: int)
    requires
        lo <= hi,
    ensures
        lo <= trim_start(s, lo, hi) <= hi,
        trim_start(s, lo, hi) < hi ==> ws_width_at(s, trim_start(s, lo, hi), hi) == 0,
    decreases hi - lo,
{
    if lo < hi && ws_width_at(s, lo, hi) > 0 {
        lemma_trim_start_bounds(s, lo + ws_width_at(s, lo, hi), hi);
    }
}

pub proof fn lemma_trim_end_bounds(s: Seq<u8>, lo: int, hi: int)
    requires
        lo <= hi,
    ensures
        lo <= trim_end(s, lo, hi) <= hi,
    decreases hi - lo,
{
    if lo < hi && ws_width_before(s, lo, hi) > 0 {
        lemma_trim_end_bounds(s, lo, hi - ws_width_before(s, lo, hi));
    }
}

/// Width of the whitespace character starting at `i` (see `ws_width_at`).
pub fn ws_width_at_exec(s: &[u8], i: usize, hi: usize) -> (w: usize)
    requires
        i <= hi <= s@.len(),
    ensures
        w == ws_width_at(s@, i as int, hi as int),
{
    if i < hi {
        let a = s[i];
        if a == 9u8 || a == 10u8 || a == 11u8 || a == 12u8 || a == 13u8 || a == 32u8 {
            return 1;
        }
        if hi - i >= 2 {
            let b = s[i + 1];
            if a == 0xC2u8 && (b == 0x85u8 || b == 0xA0u8) {
                return 2;
            }
            if hi - i >= 3 {
                let c = s[i + 2];
                if (a == 0xE1u8 && b == 0x9Au8 && c == 0x80u8) || (a == 0xE2u8 && b == 0x80u8 && ((
                0x80u8 <= c && c <= 0x8Au8) || c == 0xA8u8 || c == 0xA9u8 || c == 0xAFu8)) || (a
                    == 0xE2u8 && b == 0x81u8 && c == 0x9Fu8) || (a == 0xE3u8 && b == 0x80u8 && c
                    == 0x80u8) {
                    return 3;
                }
            }
        }
    }
    0
}

/// Width of the whitespace character ending at `j` (see `ws_width_before`).
pub fn ws_width_before_exec(s: &[u8], lo: usize, j: usize) -> (w: usize)
    requires
        lo <= j <= s@.len(),
    ensures
        w == ws_width_before(s@, lo as int, j as int),
{
    if j - lo >= 1 {
        let c = s[j - 1];
        if c == 9u8 || c == 10u8 || c == 11u8 || c == 12u8 || c == 13u8 || c == 32u8 {
            return 1;
        }
        if j - lo >= 2 {
            let b = s[j - 2];
            if b == 0xC2u8 && (c == 0x85u8 || c == 0xA0u8) {
                return 2;
            }
            if j - lo >= 3 {
                let a = s[j - 3];
                if (a == 0xE1u8 && b == 0x9Au8 && c == 0x80u8) || (a == 0xE2u8 && b == 0x80u8 && ((
                0x80u8 <= c && c <= 0x8Au8) || c == 0xA8u8 || c == 0xA9u8 || c == 0xAFu8)) || (a
                    == 0xE2u8 && b == 0x81u8 && c == 0x9Fu8) || (a == 0xE3u8 && b == 0x80u8 && c
                    == 0x80u8) {
                    return 3;
                }
            }
        }
    }
    0
}

/// The range of `s[lo..hi]` that `str::trim` keeps.
pub fn trim_range(s: &[u8], lo: usize, hi: usize) -> (r: (usize, usize))
    requires
        lo <= hi <= s@.len(),
    ensures
        r.0 == trimmed(s@, lo as int, hi as int).0,
        r.1 == trimmed(s@, lo as int, hi as int).1,
        lo <= r.0 <= r.1 <= hi,
{
    let mut a = lo;
    while a < hi && ws_width_at_exec(s, a, hi) > 0
        invariant
            lo <= a <= hi <= s@.len(),
            trim_start(s@, a as int, hi as int) == trim_start(s@, lo as int, hi as int),
        decreases hi - a,
    {
        a = a + ws_width_at_exec(s, a, hi);
    }
    let mut b = hi;
    while a < b && ws_width_before_exec(s, a, b) > 0
        invariant
            a <= b <= hi <= s@.len(),
            trim_start(s@, lo as int, hi as int) == a,
            trim_end(s@, a as int, b as int) == trim_end(s@, a as int, hi as int),
        decreases b - a,
    {
        b = b - ws_width_before_exec(s, a, b);
    }
    (a, b)
}


/// End of the run of non-whitespace bytes starting at `i`.
pub open spec fn token_end(s: Seq<u8>, i: int, hi: int) -> int
    decreases hi - i,
{
    if i < hi && ws_width_at(s, i, hi) == 0 {
        token_end(s, i + 1, hi)
    } else {
        i
    }
}

/// The `k`-th item that `str::split_whitespace` yields on `s[lo..hi]`, as
/// a range of `s`.
pub open spec fn nth_token(s: Seq<u8>, lo: int, hi: int, k: nat) -> Option<(int, int)>
    decreases k,
{
    let a = trim_start(s, lo, hi);
    if a >= hi {
        None
    } else if k == 0 {
        Some((a, token_end(s, a, hi)))
    } else {
        nth_token(s, token_end(s, a, hi), hi, (k - 1) as nat)
    }
}

pub proof fn lemma_token_end_bounds(s: Seq<u8>, i: int, hi: int)
    requires
        i <= hi,
    ensures
        i <= token_end(s, i, hi) <= hi,
        forall|k: int| i <= k < token_end(s, i, hi) ==> ws_width_at(s, k, hi) == 0,
        token_end(s, i, hi) < hi ==> ws_width_at(s, token_end(s, i, hi), hi) > 0,
    decreases hi - i,
{
    if i < hi && ws_width_at(s, i, hi) == 0 {
        lemma_token_end_bounds(s, i + 1, hi);
    }
}

pub proof fn lemma_nth_token_step(s: Seq<u8>, lo: int, hi: int, k: nat)
    requires
        nth_token(s, lo, hi, 0) is Some,
    ensures
        nth_token(s, lo, hi, k + 1) == nth_token(s, nth_token(s, lo, hi, 0).unwrap().1, hi, k),
{
}

/// Index of the first byte `c` in `s[i..hi]`, or `hi` when there is none.
pub open spec fn find_byte(s: Seq<u8>, i: int, hi: int, c: u8) -> int
    decreases hi - i,
{
    if i < hi && s[i] != c {
        find_byte(s, i + 1, hi, c)
    } else {
        i
    }
}

pub proof fn lemma_find_byte_bounds(s: Seq<u8>, i: int, hi: int, c: u8)
    requires
        0 <= i <= hi <= s.len(),
    ensures
        i <= find_byte(s, i, hi, c) <= hi,
        forall|k: int| i <= k < find_byte(s, i, hi, c) ==> s[k] != c,
        find_byte(s, i, hi, c) < hi ==> s[find_byte(s, i, hi, c)] == c,
    decreases hi - i,
{
    if i < hi && s[i] != c {
        lemma_find_byte_bounds(s, i + 1, hi, c);
    }
}

/// The `k`-th item that `str::split(c)` yields on `s[lo..hi]`, as a range.
pub open spec fn nth_field(s: Seq<u8>, lo: int, hi: int, c: u8, k: nat) -> Option<(int, int)>
    decreases k,
{
    let p = find_byte(s, lo, hi, c);
    if k == 0 {
        Some((lo, p))
    } else if p >= hi {
        None
    } else {
        nth_field(s, p + 1, hi, c, (k - 1) as nat)
    }
}

/// All items that `str::split(c)` yields on `s[lo..hi]`, as ranges.
pub open spec fn all_fields(s: Seq<u8>, lo: int, hi: int, c: u8) -> Seq<(int, int)>
    decreases hi - lo,
{
    let p = find_byte(s, lo, hi, c);
    if lo < hi && lo < p + 1 && p < hi {
        seq![(lo, p)] + all_fields(s, p + 1, hi, c)
    } else {
        seq![(lo, p)]
    }
}

/// Value of the decimal digits `s[a..b]`.
pub open spec fn digits_value(s: Seq<u8>, a: int, b: int) -> nat
    decreases b - a,
{
    if b <= a {
        0
    } else {
        digits_value(s, a, b - 1) * 10 + (s[b - 1] - 48) as nat
    }
}

pub open spec fn is_digit(b: u8) -> bool {
    48u8 <= b && b <= 57u8
}

pub open spec fn all_digits(s: Seq<u8>, a: int, b: int) -> bool {
    forall|k: int| a <= k < b ==> is_digit(#[trigger] s[k])
}

/// What `str::parse::<usize>` gives on `s[a..b]`: an optional `'+'` and at
/// least one decimal digit whose value fits in a `usize`.
pub open spec fn parse_usize(s: Seq<u8>, a: int, b: int) -> Option<usize> {
    let d = if a < b && s[a] == 43u8 {
        a + 1
    } else {
        a
    };
    if d < b && all_digits(s, d, b) && digits_value(s, d, b) <= usize::MAX {
        Some(digits_value(s, d, b) as usize)
    } else {
        None
    }
}

pub proof fn lemma_digits_value_monotone(s: Seq<u8>, a: int, i: int, b: int)
    requires
        a <= i <= b,
        all_digits(s, a, b),
    ensures
        digits_value(s, a, i) <= digits_value(s, a, b),
    decreases b - i,
{
    if i < b {
        lemma_digits_value_monotone(s, a, i, b - 1);
    }
}

/// End of the token starting at `i` (see `token_end`).
pub fn token_end_exec(s: &[u8], i: usize, hi: usize) -> (e: usize)
    requires
        i <= hi <= s@.len(),
    ensures
        e == token_end(s@, i as int, hi as int),
        i <= e <= hi,
{
    proof { lemma_token_end_bounds(s@, i as int, hi as int); }
    let mut k = i;
    while k < hi && ws_width_at_exec(s, k, hi) == 0
        invariant
            i <= k <= hi <= s@.len(),
            token_end(s@, k as int, hi as int) == token_end(s@, i as int, hi as int),
        decreases hi - k,
    {
        k = k + 1;
    }
    k
}

/// The first item of `split_whitespace` on `s[lo..hi]`, if any.
pub fn next_token(s: &[u8], lo: usize, hi: usize) -> (r: Option<(usize, usize)>)
    requires
        lo <= hi <= s@.len(),
    ensures
        match r {
            Some((a, b)) => nth_token(s@, lo as int, hi as int, 0) == Some((a as int, b as int))
                && lo <= a < b <= hi,
            None => nth_token(s@, lo as int, hi as int, 0) is None,
        },
{
    let (a, _) = trim_range(s, lo, hi);
    if a >= hi {
        None
    } else {
        let b = token_end_exec(s, a, hi);
        proof {
            lemma_trim_start_bounds(s@, lo as int, hi as int);
            lemma_token_end_bounds(s@, a + 1, hi as int);
        }
        Some((a, b))
    }
}

/// Index of the first `c` in `s[i..hi]`, or `hi`.
pub fn find_byte_exec(s: &[u8], i: usize, hi: usize, c: u8) -> (p: usize)
    requires
        i <= hi <= s@.len(),
    ensures
        p == find_byte(s@, i as int, hi as int, c),
        i <= p <= hi,
{
    proof { lemma_find_byte_bounds(s@, i as int, hi as int, c); }
    let mut k = i;
    while k < hi && s[k] != c
        invariant
            i <= k <= hi <= s@.len(),
            find_byte(s@, k as int, hi as int, c) == find_byte(s@, i as int, hi as int, c),
        decreases hi - k,
    {
        k = k + 1;
    }
    k
}

/// Parses `s[a..b]` as `str::parse::<usize>` does.
pub fn parse_usize_exec(s: &[u8], a: usize, b: usize) -> (r: Option<usize>)
    requires
        a <= b <= s@.len(),
    ensures
        r == parse_usize(s@, a as int, b as int),
{
    let d = if a < b && s[a] == 43u8 {
        a + 1
    } else {
        a
    };
    if d >= b {
        return None;
    }
    let mut acc: usize = 0;
    let mut i = d;
    while i < b
        invariant
            d <= i <= b <= s@.len(),
            d < b,
            all_digits(s@, d as int, i as int),
            acc == digits_value(s@, d as int, i as int),
            d == (if a < b && s@[a as int] == 43u8 {
                a + 1
            } else {
                a as int
            }),
        decreases b - i,
    {
        let c = s[i];
        if c < 48u8 || c > 57u8 {
            assert(!all_digits(s@, d as int, b as int));
            return None;
        }
        let m = acc.checked_mul(10);
        match m {
            None => {
                proof {
                    assert(digits_value(s@, d as int, (i + 1) as int) > usize::MAX);
                    if all_digits(s@, d as int, b as int) {
                        lemma_digits_value_monotone(s@, d as int, (i + 1) as int, b as int);
                    }
                }
                return None;
            },
            Some(m) => {
                let n = m.checked_add((c - 48u8) as usize);
                match n {
                    None => {
                        proof {
                            assert(digits_value(s@, d as int, (i + 1) as int) > usize::MAX);
                            if all_digits(s@, d as int, b as int) {
                                lemma_digits_value_monotone(s@, d as int, (i + 1) as int, b as int);
                            }
                        }
                        return None;
                    },
                    Some(n) => {
                        acc = n;
                    },
                }
            },
        }
        i = i + 1;
    }
    Some(acc)
}


/// The end of a line is a boundary.
pub proof fn lemma_line_end_boundary(s: Seq<u8>, pos: int)
    requires
        valid_utf8(s),
        0 <= pos < s.len(),
    ensures
        at_boundary(s, line_end(s, pos)),
{
    lemma_line_end_bounds(s, pos);
    let e = line_end(s, pos);
    if e < s.len() {
        lemma_boundary_after_ascii(s, e - 1);
    }
}

/// `p` is the start or end of `s`, or `s[p]` is not a UTF-8 continuation
/// byte; in valid UTF-8 these are exactly the character boundaries.
pub open spec fn at_boundary(s: Seq<u8>, p: int) -> bool {
    p == 0 || p == s.len() || (0 < p < s.len() && !is_continuation_byte(s[p]))
}

pub proof fn lemma_at_boundary_is_char_boundary(s: Seq<u8>, p: int)
    requires
        valid_utf8(s),
        0 <= p <= s.len(),
        at_boundary(s, p),
    ensures
        is_char_boundary(s, p),
{
    is_char_boundary_start_end_of_seq(s);
    if 0 < p < s.len() {
        is_char_boundary_iff_not_is_continuation_byte(s, p);
    }
}

/// Skipping over a whole character of width `w` from a boundary lands on a
/// boundary.
pub proof fn lemma_boundary_after_char(s: Seq<u8>, q: int, w: int)
    requires
        valid_utf8(s),
        0 <= q < s.len(),
        q + w <= s.len(),
        at_boundary(s, q),
        (w == 1 && is_leading_byte_width_1(s[q])) || (w == 2 && is_leading_byte_width_2(s[q])) || (
        w == 3 && is_leading_byte_width_3(s[q])),
    ensures
        at_boundary(s, q + w),
{
    lemma_at_boundary_is_char_boundary(s, q);
    valid_utf8_split(s, q);
    let t = s.subrange(q, s.len() as int);
    assert(valid_utf8(t));
    assert(t[0] == s[q]);
    assert(valid_first_scalar(t));
    assert(length_of_first_scalar(t) == w);
    if q + w < s.len() {
        let rest = pop_first_scalar(t);
        assert(valid_utf8(rest));
        assert(is_char_boundary(rest, 0));
        assert(is_char_boundary(t, w));
        is_char_boundary_iff_not_is_continuation_byte(t, w);
        assert(t[w] == s[q + w]);
    }
}

/// A whitespace character starting on a boundary ends on a boundary.
pub proof fn lemma_boundary_after_ws(s: Seq<u8>, q: int, hi: int)
    requires
        valid_utf8(s),
        0 <= q < hi <= s.len(),
        at_boundary(s, q),
        ws_width_at(s, q, hi) > 0,
    ensures
        at_boundary(s, q + ws_width_at(s, q, hi)),
{
    lemma_boundary_after_char(s, q, ws_width_at(s, q, hi));
}

/// The byte after an ASCII byte is on a boundary.
pub proof fn lemma_boundary_after_ascii(s: Seq<u8>, q: int)
    requires
        valid_utf8(s),
        0 <= q < s.len(),
        s[q] < 0x80u8,
    ensures
        at_boundary(s, q + 1),
{
    lemma_boundary_after_char(s, q, 1);
}

pub proof fn lemma_trim_start_boundary(s: Seq<u8>, lo: int, hi: int)
    requires
        valid_utf8(s),
        0 <= lo <= hi <= s.len(),
        at_boundary(s, lo),
    ensures
        at_boundary(s, trim_start(s, lo, hi)),
    decreases hi - lo,
{
    if lo < hi && ws_width_at(s, lo, hi) > 0 {
        lemma_boundary_after_ws(s, lo, hi);
        lemma_trim_start_boundary(s, lo + ws_width_at(s, lo, hi), hi);
    }
}

pub proof fn lemma_trim_end_boundary(s: Seq<u8>, lo: int, hi: int)
    requires
        0 <= lo <= hi <= s.len(),
        at_boundary(s, hi),
    ensures
        at_boundary(s, trim_end(s, lo, hi)),
        lo <= trim_end(s, lo, hi) <= hi,
    decreases hi - lo,
{
    if lo < hi && ws_width_before(s, lo, hi) > 0 {
        let j = hi - ws_width_before(s, lo, hi);
        assert(at_boundary(s, j));
        lemma_trim_end_boundary(s, lo, j);
    }
}

pub proof fn lemma_find_byte_boundary(s: Seq<u8>, i: int, hi: int, c: u8)
    requires
        0 <= i <= hi <= s.len(),
        at_boundary(s, hi),
        c < 0x80u8,
    ensures
        at_boundary(s, find_byte(s, i, hi, c)),
{
    lemma_find_byte_bounds(s, i, hi, c);
}

/// The sub-slice of `s` between two boundaries.
pub fn str_slice(s: &str, a: usize, b: usize) -> (r: &str)
    requires
        a <= b <= encode_utf8(s@).len(),
        at_boundary(encode_utf8(s@), a as int),
        at_boundary(encode_utf8(s@), b as int),
    ensures
        encode_utf8(r@) == encode_utf8(s@).subrange(a as int, b as int),
        r@ == text(encode_utf8(s@), a as int, b as int),
{
    let ghost bytes = encode_utf8(s@);
    proof {
        encode_utf8_valid_utf8(s@);
        lemma_at_boundary_is_char_boundary(bytes, a as int);
    }
    let (_, rest) = s.split_at(a);
    proof {
        let rb = encode_utf8(rest@);
        assert(rb =~= bytes.subrange(a as int, bytes.len() as int));
        valid_utf8_split(bytes, a as int);
        assert(at_boundary(rb, (b - a) as int)) by {
            if 0 < b - a < rb.len() {
                assert(rb[(b - a) as int] == bytes[b as int]);
            }
        }
        lemma_at_boundary_is_char_boundary(rb, (b - a) as int);
    }
    let (mid, _) = rest.split_at(b - a);
    proof {
        assert(encode_utf8(mid@) =~= bytes.subrange(a as int, b as int));
        encode_utf8_decode_utf8(mid@);
    }
    mid
}

/// An owned copy of the text between two boundaries of `s`.
pub fn span_string(s: &str, a: usize, b: usize) -> (r: String)
    requires
        a <= b <= encode_utf8(s@).len(),
        at_boundary(encode_utf8(s@), a as int),
        at_boundary(encode_utf8(s@), b as int),
    ensures
        encode_utf8(r@) == encode_utf8(s@).subrange(a as int, b as int),
        r@ == text(encode_utf8(s@), a as int, b as int),
{
    let piece = str_slice(s, a, b);
    let r = piece.to_owned();
    proof {
        encode_utf8_decode_utf8(r@);
    }
    r
}

/// The characters that the UTF-8 bytes `s[a..b]` encode.
pub open spec fn text(s: Seq<u8>, a: int, b: int) -> Seq<char> {
    decode_utf8(s.subrange(a, b))
}

/// Two strings are equal exactly when their UTF-8 encodings are.
pub proof fn lemma_encode_injective(x: Seq<char>, y: Seq<char>)
    ensures
        (encode_utf8(x) == encode_utf8(y)) == (x == y),
{
    encode_utf8_decode_utf8(x);
    encode_utf8_decode_utf8(y);
}

/// Every character of `a` is ASCII.
pub open spec fn ascii_chars(a: Seq<char>) -> bool {
    forall|i: int| 0 <= i < a.len() ==> (#[trigger] a[i] as u32) < 128
}

/// The encoding of a concatenation is the concatenation of the encodings.
pub proof fn lemma_encode_concat(a: Seq<char>, b: Seq<char>)
    ensures
        encode_utf8(a + b) == encode_utf8(a) + encode_utf8(b),
    decreases a.len(),
{
    if a.len() == 0 {
        assert(a + b =~= b);
        assert(encode_utf8(a) + encode_utf8(b) =~= encode_utf8(b));
    } else {
        lemma_encode_concat(a.drop_first(), b);
        assert((a + b).drop_first() =~= a.drop_first() + b);
        assert((a + b)[0] == a[0]);
        assert(encode_utf8(a + b) =~= encode_utf8(a) + encode_utf8(b));
    }
}

/// An ASCII string is encoded one byte per character, each byte being the
/// character's code.
pub proof fn lemma_encode_ascii(a: Seq<char>)
    requires
        ascii_chars(a),
    ensures
        encode_utf8(a).len() == a.len(),
        forall|i: int| 0 <= i < a.len() ==> #[trigger] encode_utf8(a)[i] == a[i] as u32,
    decreases a.len(),
{
    if a.len() > 0 {
        let t = a.drop_first();
        assert forall|i: int| 0 <= i < t.len() implies (#[trigger] t[i] as u32) < 128 by {
            assert(t[i] == a[i + 1]);
        }
        lemma_encode_ascii(t);
        let v = a[0] as u32;
        assert(v < 128);
        assert((v & 0x7Fu32) == v) by (bit_vector)
            requires
                v < 128u32,
        ;
        assert(encode_scalar(v) =~= seq![v as u8]);
        assert forall|i: int| 0 <= i < a.len() implies #[trigger] encode_utf8(a)[i] == a[i] as u32 by {
            if i > 0 {
                assert(encode_utf8(a)[i] == encode_utf8(t)[i - 1]);
                assert(t[i - 1] == a[i]);
            }
        }
    }
}

/// The first byte `c` at or after `i` is the one at `p`.
pub proof fn lemma_find_byte_at(s: Seq<u8>, i: int, hi: int, c: u8, p: int)
    requires
        0 <= i <= p < hi <= s.len(),
        s[p] == c,
        forall|k: int| i <= k < p ==> s[k] != c,
    ensures
        find_byte(s, i, hi, c) == p,
    decreases p - i,
{
    if i < p {
        lemma_find_byte_at(s, i + 1, hi, c, p);
    }
}

/// Byte-wise equality of `a[a0..a1]` and `b`.
pub fn bytes_eq(a: &[u8], a0: usize, a1: usize, b: &[u8]) -> (r: bool)
    requires
        a0 <= a1 <= a@.len(),
    ensures
        r == (a@.subrange(a0 as int, a1 as int) == b@),
{
    if a1 - a0 != b.len() {
        assert(a@.subrange(a0 as int, a1 as int).len() != b@.len());
        return false;
    }
    let mut i: usize = 0;
    while i < b.len()
        invariant
            a0 <= a1 <= a@.len(),
            a1 - a0 == b@.len(),
            i <= b@.len(),
            forall|k: int| 0 <= k < i ==> a@[a0 + k] == b@[k],
        decreases b@.len() - i,
    {
        if a[a0 + i] != b[i] {
            assert(a@.subrange(a0 as int, a1 as int)[i as int] != b@[i as int]);
            return false;
        }
        i = i + 1;
    }
    assert(a@.subrange(a0 as int, a1 as int) =~= b@);
    true
}

/// Equality of two strings, decided on their bytes.
pub fn str_eq(a: &str, b: &str) -> (r: bool)
    ensures
        r == (a@ == b@),
{
    let ab = a.as_bytes();
    let bb = b.as_bytes();
    let r = bytes_eq(ab, 0, ab.len(), bb);
    proof {
        assert(ab@.subrange(0, ab@.len() as int) =~= ab@);
        lemma_encode_injective(a@, b@);
    }
    r
}


/// Reads the line starting at `pos`: its end and its trimmed range.
pub fn scan_line(s: &[u8], pos: usize) -> (r: (usize, usize, usize))
    requires
        valid_utf8(s@),
        pos < s@.len(),
        at_boundary(s@, pos as int),
    ensures
        r.0 == line_end(s@, pos as int),
        r.1 == trimmed(s@, pos as int, r.0 as int).0,
        r.2 == trimmed(s@, pos as int, r.0 as int).1,
        pos <= r.1 <= r.2 <= r.0 <= s@.len(),
        pos < r.0,
        at_boundary(s@, r.0 as int),
        at_boundary(s@, r.1 as int),
        at_boundary(s@, r.2 as int),
{
    let e = find_line_end(s, pos);
    let (a, b) = trim_range(s, pos, e);
    proof {
        lemma_line_end_boundary(s@, pos as int);
        lemma_trim_start_boundary(s@, pos as int, e as int);
        lemma_trim_end_boundary(s@, a as int, e as int);
    }
    (e, a, b)
}

/// The texts of all items of `str::split(c)` on `s[lo..hi]`.
pub open spec fn field_texts(s: Seq<u8>, lo: int, hi: int, c: u8) -> Seq<Seq<char>> {
    all_fields(s, lo, hi, c).map_values(|r: (int, int)| text(s, r.0, r.1))
}

/// Splits `content[lo..hi]` at every ASCII byte `c`.
pub fn split_fields(content: &str, s: &[u8], lo: usize, hi: usize, c: u8) -> (r: Vec<String>)
    requires
        s@ == encode_utf8(content@),
        lo <= hi <= s@.len(),
        at_boundary(s@, lo as int),
        at_boundary(s@, hi as int),
        c < 0x80u8,
    ensures
        r@.map_values(|x: String| x@) == field_texts(s@, lo as int, hi as int, c),
{
    proof {
        encode_utf8_valid_utf8(content@);
    }
    let mut out: Vec<String> = Vec::new();
    let mut pos = lo;
    loop
        invariant
            s@ == encode_utf8(content@),
            valid_utf8(s@),
            lo <= pos <= hi <= s@.len(),
            at_boundary(s@, pos as int),
            at_boundary(s@, hi as int),
            c < 0x80u8,
            field_texts(s@, lo as int, hi as int, c) == out@.map_values(|x: String| x@)
                + field_texts(s@, pos as int, hi as int, c),
        decreases hi - pos,
    {
        let p = find_byte_exec(s, pos, hi, c);
        proof {
            lemma_find_byte_boundary(s@, pos as int, hi as int, c);
            lemma_find_byte_bounds(s@, pos as int, hi as int, c);
        }
        let piece = span_string(content, pos, p);
        let ghost before = out@.map_values(|x: String| x@);
        out.push(piece);
        proof {
            assert(out@.map_values(|x: String| x@) =~= before.push(piece@));
        }
        if p >= hi {
            proof {
                assert(field_texts(s@, pos as int, hi as int, c) =~= seq![piece@]);
                assert(field_texts(s@, lo as int, hi as int, c) =~= out@.map_values(|x: String| x@));
            }
            return out;
        }
        proof {
            lemma_boundary_after_ascii(s@, p as int);
            assert(field_texts(s@, pos as int, hi as int, c) =~= seq![piece@] + field_texts(
                s@,
                p + 1,
                hi as int,
                c,
            ));
            assert(field_texts(s@, lo as int, hi as int, c) =~= out@.map_values(|x: String| x@)
                + field_texts(s@, p + 1, hi as int, c));
        }
        pos = p + 1;
    }
}

/// The `k`-th item of `str::split(c)` on `s[lo..hi]` (see `nth_field`).
pub fn get_field(s: &[u8], lo: usize, hi: usize, c: u8, k: usize) -> (r: Option<(usize, usize)>)
    requires
        valid_utf8(s@),
        lo <= hi <= s@.len(),
        at_boundary(s@, lo as int),
        at_boundary(s@, hi as int),
        c < 0x80u8,
    ensures
        match r {
            Some((x, y)) => {
                &&& nth_field(s@, lo as int, hi as int, c, k as nat) == Some((x as int, y as int))
                &&& lo <= x <= y <= hi
                &&& at_boundary(s@, x as int)
                &&& at_boundary(s@, y as int)
            },
            None => nth_field(s@, lo as int, hi as int, c, k as nat) is None,
        },
{
    let mut start = lo;
    let mut j: usize = 0;
    while j < k
        invariant
            valid_utf8(s@),
            lo <= start <= hi <= s@.len(),
            at_boundary(s@, start as int),
            at_boundary(s@, hi as int),
            c < 0x80u8,
            j <= k,
            nth_field(s@, lo as int, hi as int, c, k as nat) == nth_field(
                s@,
                start as int,
                hi as int,
                c,
                (k - j) as nat,
            ),
        decreases k - j,
    {
        let p = find_byte_exec(s, start, hi, c);
        if p >= hi {
            return None;
        }
        proof {
            lemma_find_byte_bounds(s@, start as int, hi as int, c);
            lemma_boundary_after_ascii(s@, p as int);
        }
        start = p + 1;
        j = j + 1;
    }
    let p = find_byte_exec(s, start, hi, c);
    proof {
        lemma_find_byte_boundary(s@, start as int, hi as int, c);
    }
    Some((start, p))
}

/// `a` followed by `b`, as a new string.
pub fn concat_str(a: &str, b: &str) -> (r: String)
    ensures
        r@ == a@ + b@,
{
    let mut r = a.to_owned();
    r.append(b);
    r
}

} // verus!
