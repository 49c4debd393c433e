//! Byte-level scanning shared by the SVG and PDF readers: searching for a
//! pattern, Unicode whitespace in UTF-8 text, and unsigned decimal numbers.

use vstd::prelude::*;

verus! {

/// `needle` occurs in `hay` starting at byte `i`.
pub open spec fn occurs_at(hay: Seq<u8>, needle: Seq<u8>, i: int) -> bool {
    &&& 0 <= i
    &&& i + needle.len() <= hay.len()
    &&& hay.subrange(i, i + needle.len()) == needle
}

/// The first position at or after `i` where `needle` occurs in `hay`.
pub open spec fn find_from(hay: Seq<u8>, needle: Seq<u8>, i: int) -> Option<int>
    decreases hay.len() - i,
{
    if i < 0 || i >= hay.len() || i + needle.len() > hay.len() {
        None
    } else if occurs_at(hay, needle, i) {
        Some(i)
    } else {
        find_from(hay, needle, i + 1)
    }
}

/// The last position below `k` where `needle` occurs in `hay`.
pub open spec fn rfind_below(hay: Seq<u8>, needle: Seq<u8>, k: nat) -> Option<int>
    decreases k,
{
    if k == 0 {
        None
    } else if occurs_at(hay, needle, k - 1) {
        Some(k - 1)
    } else {
        rfind_below(hay, needle, (k - 1) as nat)
    }
}

/// A position found by [`find_from`] is an occurrence, and no earlier one
/// at or after the start exists.
pub proof fn lemma_find_from(hay: Seq<u8>, needle: Seq<u8>, i: int)
    ensures
        find_from(hay, needle, i) matches Some(p) ==> {
            &&& i <= p
            &&& occurs_at(hay, needle, p)
            &&& forall|j: int| i <= j < p ==> !occurs_at(hay, needle, j)
        },
    decreases hay.len() - i,
{
    if !(i < 0 || i >= hay.len() || i + needle.len() > hay.len()) && !occurs_at(hay, needle, i) {
        lemma_find_from(hay, needle, i + 1);
    }
}

/// A position found by [`rfind_below`] is an occurrence below the bound.
pub proof fn lemma_rfind_below(hay: Seq<u8>, needle: Seq<u8>, k: nat)
    ensures
        rfind_below(hay, needle, k) matches Some(p) ==> p < k && occurs_at(hay, needle, p),
    decreases k,
{
    if k > 0 && !occurs_at(hay, needle, k - 1) {
        lemma_rfind_below(hay, needle, (k - 1) as nat);
    }
}

/// The first occurrence at or after `i` is `t` when `needle` occurs at `t`
/// and nowhere in between.
pub proof fn lemma_find_from_first(hay: Seq<u8>, needle: Seq<u8>, i: int, t: int)
    requires
        0 <= i <= t,
        needle.len() > 0,
        occurs_at(hay, needle, t),
        forall|p: int| i <= p < t ==> !occurs_at(hay, needle, p),
    ensures
        find_from(hay, needle, i) == Some(t),
    decreases t - i,
{
    if i < t {
        lemma_find_from_first(hay, needle, i + 1, t);
    }
}

/// Whether `needle` occurs in `hay` at byte `i`.
pub fn matches_at(hay: &[u8], needle: &[u8], i: usize) -> (r: bool)
    ensures
        r == occurs_at(hay@, needle@, i as int),
{
    if i > hay.len() || needle.len() > hay.len() - i {
        return false;
    }
    let end = i + needle.len();
    let mut k: usize = 0;
    while k < needle.len()
        invariant
            end == i + needle@.len(),
            end <= hay@.len(),
            k <= needle@.len(),
            forall|j: int| 0 <= j < k ==> hay@[i + j] == needle@[j],
        decreases needle@.len() - k,
    {
        if hay[i + k] != needle[k] {
            proof {
                assert(hay@.subrange(i as int, i + needle@.len())[k as int] != needle@[k as int]);
            }
            return false;
        }
        k += 1;
    }
    proof {
        assert(hay@.subrange(i as int, i + needle@.len()) =~= needle@);
    }
    true
}

/// The first position at or after `from` where `needle` occurs in `hay`.
pub fn find_bytes(hay: &[u8], needle: &[u8], from: usize) -> (r: Option<usize>)
    ensures
        match r {
            Some(p) => find_from(hay@, needle@, from as int) == Some(p as int),
            None => find_from(hay@, needle@, from as int) is None,
        },
        r matches Some(p) ==> from <= p && p + needle@.len() <= hay@.len(),
{
    proof {
        lemma_find_from(hay@, needle@, from as int);
    }
    let mut i = from;
    while i < hay.len() && needle.len() <= hay.len() - i
        invariant
            from <= i,
            find_from(hay@, needle@, from as int) == find_from(hay@, needle@, i as int),
        decreases hay@.len() - i,
    {
        if matches_at(hay, needle, i) {
            return Some(i);
        }
        i += 1;
    }
    None
}

/// The last position below `k` where `needle` occurs in `hay`.
pub fn rfind_bytes(hay: &[u8], needle: &[u8], k: usize) -> (r: Option<usize>)
    ensures
        match r {
            Some(p) => rfind_below(hay@, needle@, k as nat) == Some(p as int),
            None => rfind_below(hay@, needle@, k as nat) is None,
        },
        r matches Some(p) ==> p < k && p + needle@.len() <= hay@.len(),
{
    proof {
        lemma_rfind_below(hay@, needle@, k as nat);
    }
    let mut j = k;
    while j > 0
        invariant
            j <= k,
            rfind_below(hay@, needle@, k as nat) == rfind_below(hay@, needle@, j as nat),
        decreases j,
    {
        if matches_at(hay, needle, j - 1) {
            return Some(j - 1);
        }
        j -= 1;
    }
    None
}

/// The three-byte UTF-8 encodings of the Unicode whitespace characters
/// U+1680, U+2000 to U+200A, U+2028, U+2029, U+202F, U+205F and U+3000.
pub open spec fn is_wide_space(a: u8, b: u8, c: u8) -> bool {
    ||| a == 0xE1 && b == 0x9A && c == 0x80
    ||| a == 0xE2 && b == 0x80 && ((0x80 <= c && c <= 0x8A) || c == 0xA8 || c == 0xA9 || c == 0xAF)
    ||| a == 0xE2 && b == 0x81 && c == 0x9F
    ||| a == 0xE3 && b == 0x80 && c == 0x80
}

/// The byte length of the Unicode whitespace character (in the sense of
/// `char::is_whitespace`) whose UTF-8 encoding starts at byte `i` of `d`,
/// or 0 when none starts there.
pub open spec fn ws_len(d: Seq<u8>, i: int) -> int {
    if i < 0 || i >= d.len() {
        0
    } else if d[i] == 0x20 || (0x09 <= d[i] && d[i] <= 0x0D) {
        1
    } else if i + 1 < d.len() && d[i] == 0xC2 && (d[i + 1] == 0x85 || d[i + 1] == 0xA0) {
        2
    } else if i + 2 < d.len() && is_wide_space(d[i], d[i + 1], d[i + 2]) {
        3
    } else {
        0
    }
}

/// The first byte at or after `i` that does not start a whitespace
/// character.
pub open spec fn skip_ws(d: Seq<u8>, i: int) -> int
    decreases d.len() - i,
{
    if 0 <= i && i < d.len() && ws_len(d, i) > 0 {
        skip_ws(d, i + ws_len(d, i))
    } else {
        i
    }
}

/// An ASCII decimal digit.
pub open spec fn is_digit(b: u8) -> bool {
    0x30 <= b && b <= 0x39
}

/// The end of the run of ASCII digits that starts at `i`.
pub open spec fn digits_end(d: Seq<u8>, i: int) -> int
    decreases d.len() - i,
{
    if 0 <= i && i < d.len() && is_digit(d[i]) {
        digits_end(d, i + 1)
    } else {
        i
    }
}

/// The value of the decimal digits `d[i..j]`.
pub open spec fn digits_value(d: Seq<u8>, i: int, j: int) -> int
    decreases j - i,
{
    if j <= i {
        0
    } else {
        digits_value(d, i, j - 1) * 10 + (d[j - 1] - 0x30)
    }
}

/// The unsigned number (`usize` syntax: an optional `+`, then at least one
/// digit) that forms the whitespace-delimited token starting at `i`, when
/// it fits in a `usize`.
pub open spec fn parse_token_usize(d: Seq<u8>, i: int) -> Option<int> {
    let s = if 0 <= i && i < d.len() && d[i] == 0x2B {
        i + 1
    } else {
        i
    };
    let e = digits_end(d, s);
    if s < e && (e == d.len() || ws_len(d, e) > 0) && digits_value(d, s, e) <= usize::MAX {
        Some(digits_value(d, s, e))
    } else {
        None
    }
}

/// ASCII whitespace in the sense of `u8::is_ascii_whitespace`.
pub open spec fn is_ascii_ws(b: u8) -> bool {
    b == 0x20 || b == 0x09 || b == 0x0A || b == 0x0C || b == 0x0D
}

/// The end of `d[lo..hi]` once trailing ASCII whitespace is removed.
pub open spec fn trim_end(d: Seq<u8>, lo: int, hi: int) -> int
    decreases hi - lo,
{
    if lo < hi && is_ascii_ws(d[hi - 1]) {
        trim_end(d, lo, hi - 1)
    } else {
        hi
    }
}

/// The byte length of the whitespace character that starts at byte `i`,
/// or 0.
pub fn whitespace_len(d: &[u8], i: usize) -> (r: usize)
    ensures
        r == ws_len(d@, i as int),
        r <= 3,
        r == 0 || i + r <= d@.len(),
{
    let n = d.len();
    if i >= n {
        return 0;
    }
    let a = d[i];
    if a == 0x20 || (0x09 <= a && a <= 0x0D) {
        return 1;
    }
    if i + 1 < n && a == 0xC2 && (d[i + 1] == 0x85 || d[i + 1] == 0xA0) {
        return 2;
    }
    if n - i > 2 {
        let b = d[i + 1];
        let c = d[i + 2];
        let wide = (a == 0xE1 && b == 0x9A && c == 0x80) || (a == 0xE2 && b == 0x80 && ((0x80
            <= c && c <= 0x8A) || c == 0xA8 || c == 0xA9 || c == 0xAF)) || (a == 0xE2 && b == 0x81
            && c == 0x9F) || (a == 0xE3 && b == 0x80 && c == 0x80);
        if wide {
            return 3;
        }
    }
    0
}

/// The first byte at or after `i` that does not start a whitespace
/// character.
pub fn skip_whitespace(d: &[u8], i: usize) -> (r: usize)
    requires
        i <= d@.len(),
    ensures
        r == skip_ws(d@, i as int),
        i <= r <= d@.len(),
{
    let n = d.len();
    let mut j = i;
    loop
        invariant
            n == d@.len(),
            i <= j <= d@.len(),
            skip_ws(d@, i as int) == skip_ws(d@, j as int),
        decreases d@.len() - j,
    {
        let w = whitespace_len(d, j);
        if w == 0 {
            return j;
        }
        j = j + w;
    }
}

/// Parse the whitespace-delimited token starting at `i` as a `usize`.
pub fn parse_usize_token(d: &[u8], i: usize) -> (r: Option<usize>)
    requires
        i <= d@.len(),
    ensures
        match r {
            Some(v) => parse_token_usize(d@, i as int) == Some(v as int),
            None => parse_token_usize(d@, i as int) is None,
        },
{
    let s = if i < d.len() && d[i] == 0x2B {
        i + 1
    } else {
        i
    };
    let mut k = s;
    let mut acc: usize = 0;
    let mut overflow = false;
    while k < d.len() && 0x30 <= d[k] && d[k] <= 0x39
        invariant
            s <= k <= d@.len(),
            digits_end(d@, s as int) == digits_end(d@, k as int),
            !overflow ==> acc == digits_value(d@, s as int, k as int),
            overflow ==> digits_value(d@, s as int, k as int) > usize::MAX,
            digits_value(d@, s as int, k as int) >= 0,
        decreases d@.len() - k,
    {
        let digit = (d[k] - 0x30) as usize;
        proof {
            assert(digits_value(d@, s as int, k + 1) == digits_value(d@, s as int, k as int) * 10
                + digit);
        }
        if !overflow {
            match acc.checked_mul(10) {
                Some(t) => match t.checked_add(digit) {
                    Some(v) => {
                        acc = v;
                    },
                    None => {
                        overflow = true;
                    },
                },
                None => {
                    overflow = true;
                },
            }
        }
        k += 1;
    }
    if s < k && (k == d.len() || whitespace_len(d, k) > 0) && !overflow {
        Some(acc)
    } else {
        None
    }
}

/// The end of `d[lo..hi]` once trailing ASCII whitespace is removed.
pub fn trim_ascii_end_at(d: &[u8], lo: usize, hi: usize) -> (r: usize)
    requires
        lo <= hi <= d@.len(),
    ensures
        r == trim_end(d@, lo as int, hi as int),
        lo <= r <= hi,
{
    let mut j = hi;
    while lo < j && (d[j - 1] == 0x20 || d[j - 1] == 0x09 || d[j - 1] == 0x0A || d[j - 1] == 0x0C
        || d[j - 1] == 0x0D)
        invariant
            lo <= j <= hi,
            hi <= d@.len(),
            trim_end(d@, lo as int, hi as int) == trim_end(d@, lo as int, j as int),
        decreases j - lo,
    {
        j -= 1;
    }
    j
}

} // verus!
