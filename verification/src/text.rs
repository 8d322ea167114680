//! Byte-level text handling shared by the attribute readers and writers:
//! decimal formatting, integer parsing with the semantics of `str::parse`,
//! whitespace trimming with the semantics of `str::trim`, and copying a
//! window of a rendered value into a caller's buffer.

use vstd::prelude::*;
use vstd::string::StringSliceAdditionalSpecFns;
use vstd::string::StringExecFns;
use vstd::utf8::valid_utf8;

verus! {

// ---------------------------------------------------------------------------
// Decimal digits
// ---------------------------------------------------------------------------

/// An ASCII decimal digit.
pub open spec fn is_digit(b: u8) -> bool {
    48 <= b <= 57
}

/// Every byte of `s` is an ASCII decimal digit.
pub open spec fn all_digits(s: Seq<u8>) -> bool {
    forall|i: int| 0 <= i < s.len() ==> is_digit(#[trigger] s[i])
}

/// The number written by a string of decimal digits, most significant first.
pub open spec fn digits_value(s: Seq<u8>) -> nat
    decreases s.len(),
{
    if s.len() == 0 {
        0
    } else {
        digits_value(s.drop_last()) * 10 + (s.last() - 48) as nat
    }
}

/// The shortest decimal rendering of `n`, as `format!("{}", n)` writes it.
pub open spec fn decimal(n: nat) -> Seq<u8>
    decreases n,
{
    if n < 10 {
        seq![(48 + n) as u8]
    } else {
        decimal(n / 10).push((48 + n % 10) as u8)
    }
}

/// The rendering of a signed integer: a `-` before the digits of negatives.
pub open spec fn signed_decimal(v: int) -> Seq<u8> {
    if v < 0 {
        seq![45u8] + decimal((-v) as nat)
    } else {
        decimal(v as nat)
    }
}

/// The digits that `str::parse` reads for an unsigned type: an optional
/// leading `+` followed by at least one digit and nothing else.
pub open spec fn unsigned_digits(s: Seq<u8>) -> Option<Seq<u8>> {
    let d = if s.len() > 0 && s[0] == 43 { s.drop_first() } else { s };
    if d.len() > 0 && all_digits(d) {
        Some(d)
    } else {
        None
    }
}

/// What `str::parse` yields for an unsigned type whose largest value is `max`.
pub open spec fn parse_unsigned(s: Seq<u8>, max: nat) -> Option<nat> {
    match unsigned_digits(s) {
        Some(d) => if digits_value(d) <= max {
            Some(digits_value(d))
        } else {
            None
        },
        None => None,
    }
}

/// What `str::parse` yields for a signed type ranging over `[min, max]`:
/// an optional sign, then at least one digit and nothing else.
pub open spec fn parse_signed(s: Seq<u8>, min: int, max: nat) -> Option<int> {
    if s.len() > 0 && s[0] == 45 {
        let d = s.drop_first();
        if d.len() > 0 && all_digits(d) && -(digits_value(d) as int) >= min {
            Some(-(digits_value(d) as int))
        } else {
            None
        }
    } else {
        match parse_unsigned(s, max) {
            Some(v) => Some(v as int),
            None => None,
        }
    }
}

pub open spec fn spec_parse_u64(s: Seq<u8>) -> Option<u64> {
    match parse_unsigned(s, u64::MAX as nat) {
        Some(v) => Some(v as u64),
        None => None,
    }
}

pub open spec fn spec_parse_u32(s: Seq<u8>) -> Option<u32> {
    match parse_unsigned(s, u32::MAX as nat) {
        Some(v) => Some(v as u32),
        None => None,
    }
}

pub open spec fn spec_parse_i64(s: Seq<u8>) -> Option<i64> {
    match parse_signed(s, i64::MIN as int, i64::MAX as nat) {
        Some(v) => Some(v as i64),
        None => None,
    }
}

proof fn lemma_digits_value_prefix_monotone(s: Seq<u8>, i: int, j: int)
    requires
        all_digits(s),
        0 <= i <= j <= s.len(),
    ensures
        digits_value(s.subrange(0, i)) <= digits_value(s.subrange(0, j)),
    decreases j - i,
{
    if i < j {
        lemma_digits_value_prefix_monotone(s, i, j - 1);
        assert(s.subrange(0, j).drop_last() =~= s.subrange(0, j - 1));
    }
}

/// Reads the digits `s[lo..hi]`, all of which are decimal digits.
fn digits_to_u64(s: &[u8], lo: usize, hi: usize) -> (r: Option<u64>)
    requires
        lo < hi <= s@.len(),
        all_digits(s@.subrange(lo as int, hi as int)),
    ensures
        r matches Some(v) ==> v as nat == digits_value(s@.subrange(lo as int, hi as int)),
        r is None ==> digits_value(s@.subrange(lo as int, hi as int)) > u64::MAX,
{
    let ghost d = s@.subrange(lo as int, hi as int);
    let mut acc: u64 = 0;
    let mut i: usize = lo;
    while i < hi
        invariant
            lo <= i <= hi <= s@.len(),
            d == s@.subrange(lo as int, hi as int),
            all_digits(d),
            acc as nat == digits_value(d.subrange(0, i - lo)),
        decreases hi - i,
    {
        assert(s@[i as int] == d[i - lo]);
        assert(is_digit(d[i - lo]));
        let dig = (s[i] - 48) as u64;
        assert(d.subrange(0, i + 1 - lo).drop_last() =~= d.subrange(0, i - lo));
        if acc > (u64::MAX - dig) / 10 {
            proof {
                lemma_digits_value_prefix_monotone(d, i + 1 - lo, d.len() as int);
                assert(d.subrange(0, d.len() as int) =~= d);
                assert(acc * 10 + dig > u64::MAX) by (nonlinear_arith)
                    requires
                        acc > (u64::MAX - dig) / 10,
                        dig <= 9,
                ;
            }
            return None;
        }
        proof {
            assert(acc * 10 + dig <= u64::MAX) by (nonlinear_arith)
                requires
                    acc <= (u64::MAX - dig) / 10,
                    dig <= 9,
            ;
        }
        acc = acc * 10 + dig;
        i = i + 1;
    }
    assert(d.subrange(0, hi - lo) =~= d);
    Some(acc)
}

/// Parses `s[lo..hi]` as `str::parse::<u64>` does.
pub fn parse_u64(s: &[u8], lo: usize, hi: usize) -> (r: Option<u64>)
    requires
        lo <= hi <= s@.len(),
    ensures
        r == spec_parse_u64(s@.subrange(lo as int, hi as int)),
{
    let ghost t = s@.subrange(lo as int, hi as int);
    let start = if lo < hi && s[lo] == 43 { lo + 1 } else { lo };
    let ghost d = s@.subrange(start as int, hi as int);
    assert(d =~= (if t.len() > 0 && t[0] == 43 { t.drop_first() } else { t }));
    if start >= hi {
        return None;
    }
    let mut i = start;
    while i < hi
        invariant
            start <= i <= hi <= s@.len(),
            d == s@.subrange(start as int, hi as int),
            t == s@.subrange(lo as int, hi as int),
            d == (if t.len() > 0 && t[0] == 43 { t.drop_first() } else { t }),
            forall|k: int| start <= k < i ==> is_digit(#[trigger] s@[k]),
        decreases hi - i,
    {
        if !(48 <= s[i] && s[i] <= 57) {
            assert(d[i - start] == s@[i as int]);
            assert(!is_digit(d[i - start]));
            return None;
        }
        i = i + 1;
    }
    assert(all_digits(d));
    digits_to_u64(s, start, hi)
}

/// Parses `s[lo..hi]` as `str::parse::<u32>` does.
pub fn parse_u32(s: &[u8], lo: usize, hi: usize) -> (r: Option<u32>)
    requires
        lo <= hi <= s@.len(),
    ensures
        r == spec_parse_u32(s@.subrange(lo as int, hi as int)),
{
    match parse_u64(s, lo, hi) {
        Some(v) => if v <= u32::MAX as u64 {
            Some(v as u32)
        } else {
            None
        },
        None => None,
    }
}

/// Parses `s[lo..hi]` as `str::parse::<i64>` does.
pub fn parse_i64(s: &[u8], lo: usize, hi: usize) -> (r: Option<i64>)
    requires
        lo <= hi <= s@.len(),
    ensures
        r == spec_parse_i64(s@.subrange(lo as int, hi as int)),
{
    let ghost t = s@.subrange(lo as int, hi as int);
    if lo < hi && s[lo] == 45 {
        let ghost d = t.drop_first();
        assert(d =~= s@.subrange(lo + 1, hi as int));
        if lo + 1 >= hi {
            return None;
        }
        let mut i = lo + 1;
        while i < hi
            invariant
                lo + 1 <= i <= hi <= s@.len(),
                t == s@.subrange(lo as int, hi as int),
                t.len() > 0 && t[0] == 45,
                d == t.drop_first(),
                d == s@.subrange(lo + 1, hi as int),
                forall|k: int| lo + 1 <= k < i ==> is_digit(#[trigger] s@[k]),
            decreases hi - i,
        {
            if !(48 <= s[i] && s[i] <= 57) {
                assert(d[i - lo - 1] == s@[i as int]);
                assert(!is_digit(d[i - lo - 1]));
                return None;
            }
            i = i + 1;
        }
        assert(all_digits(d));
        match digits_to_u64(s, lo + 1, hi) {
            Some(v) => {
                if v <= 0x8000_0000_0000_0000u64 {
                    if v == 0x8000_0000_0000_0000u64 {
                        Some(i64::MIN)
                    } else {
                        Some(-(v as i64))
                    }
                } else {
                    None
                }
            },
            None => None,
        }
    } else {
        match parse_u64(s, lo, hi) {
            Some(v) => if v <= i64::MAX as u64 {
                Some(v as i64)
            } else {
                None
            },
            None => None,
        }
    }
}


// ---------------------------------------------------------------------------
// Whitespace, with the meaning `char::is_whitespace` gives it
// ---------------------------------------------------------------------------

/// An ASCII byte that `char::is_whitespace` accepts: tab, line feed,
/// vertical tab, form feed, carriage return and space.
pub open spec fn is_ascii_ws(b: u8) -> bool {
    b == 32 || (9 <= b <= 13)
}

/// The three-byte UTF-8 encodings of the Unicode `White_Space` characters:
/// U+1680, U+2000..=U+200A, U+2028, U+2029, U+202F, U+205F and U+3000.
pub open spec fn is_ws3(a: u8, b: u8, c: u8) -> bool {
    ||| (a == 0xE1 && b == 0x9A && c == 0x80)
    ||| (a == 0xE2 && b == 0x80 && ((0x80 <= c <= 0x8A) || c == 0xA8 || c == 0xA9 || c == 0xAF))
    ||| (a == 0xE2 && b == 0x81 && c == 0x9F)
    ||| (a == 0xE3 && b == 0x80 && c == 0x80)
}

/// The two-byte UTF-8 encodings of the `White_Space` characters U+0085 and U+00A0.
pub open spec fn is_ws2(a: u8, b: u8) -> bool {
    a == 0xC2 && (b == 0x85 || b == 0xA0)
}

/// The byte length of the whitespace character that `s` starts with, or 0.
pub open spec fn lead_ws(s: Seq<u8>) -> nat {
    if s.len() >= 1 && is_ascii_ws(s[0]) {
        1
    } else if s.len() >= 2 && is_ws2(s[0], s[1]) {
        2
    } else if s.len() >= 3 && is_ws3(s[0], s[1], s[2]) {
        3
    } else {
        0
    }
}

/// The byte length of the whitespace character that `s` ends with, or 0.
pub open spec fn trail_ws(s: Seq<u8>) -> nat {
    let n = s.len() as int;
    if n >= 1 && is_ascii_ws(s[n - 1]) {
        1
    } else if n >= 2 && is_ws2(s[n - 2], s[n - 1]) {
        2
    } else if n >= 3 && is_ws3(s[n - 3], s[n - 2], s[n - 1]) {
        3
    } else {
        0
    }
}

/// `s` without its leading whitespace (`str::trim_start`).
pub open spec fn trim_start(s: Seq<u8>) -> Seq<u8>
    decreases s.len(),
{
    if lead_ws(s) == 0 {
        s
    } else {
        trim_start(s.subrange(lead_ws(s) as int, s.len() as int))
    }
}

/// `s` without its trailing whitespace (`str::trim_end`).
pub open spec fn trim_end(s: Seq<u8>) -> Seq<u8>
    decreases s.len(),
{
    if trail_ws(s) == 0 {
        s
    } else {
        trim_end(s.subrange(0, s.len() - trail_ws(s)))
    }
}

/// `s` without leading and trailing whitespace (`str::trim`).
pub open spec fn trim(s: Seq<u8>) -> Seq<u8> {
    trim_end(trim_start(s))
}

/// The byte length of the whitespace character at `s[i..hi]`, or 0.
fn lead_ws_at(s: &[u8], i: usize, hi: usize) -> (k: usize)
    requires
        i <= hi <= s@.len(),
    ensures
        k == lead_ws(s@.subrange(i as int, hi as int)),
{
    let ghost t = s@.subrange(i as int, hi as int);
    let n = hi - i;
    if n >= 1 && (s[i] == 32 || (9 <= s[i] && s[i] <= 13)) {
        assert(t[0] == s@[i as int]);
        return 1;
    }
    if n >= 1 {
        assert(t[0] == s@[i as int]);
    }
    if n >= 2 && s[i] == 0xC2 && (s[i + 1] == 0x85 || s[i + 1] == 0xA0) {
        assert(t[1] == s@[i + 1]);
        return 2;
    }
    if n >= 2 {
        assert(t[1] == s@[i + 1]);
    }
    if n >= 3 {
        let a = s[i];
        let b = s[i + 1];
        let c = s[i + 2];
        assert(t[2] == s@[i + 2]);
        if (a == 0xE1 && b == 0x9A && c == 0x80) || (a == 0xE2 && b == 0x80 && ((0x80 <= c
            && c <= 0x8A) || c == 0xA8 || c == 0xA9 || c == 0xAF)) || (a == 0xE2 && b == 0x81
            && c == 0x9F) || (a == 0xE3 && b == 0x80 && c == 0x80) {
            return 3;
        }
    }
    0
}

/// The byte length of the whitespace character that `s[lo..j]` ends with, or 0.
fn trail_ws_at(s: &[u8], lo: usize, j: usize) -> (k: usize)
    requires
        lo <= j <= s@.len(),
    ensures
        k == trail_ws(s@.subrange(lo as int, j as int)),
{
    let ghost t = s@.subrange(lo as int, j as int);
    let n = j - lo;
    if n >= 1 {
        assert(t[n - 1] == s@[j - 1]);
        let z = s[j - 1];
        if z == 32 || (9 <= z && z <= 13) {
            return 1;
        }
    }
    if n >= 2 {
        assert(t[n - 2] == s@[j - 2]);
        if s[j - 2] == 0xC2 && (s[j - 1] == 0x85 || s[j - 1] == 0xA0) {
            return 2;
        }
    }
    if n >= 3 {
        assert(t[n - 3] == s@[j - 3]);
        let a = s[j - 3];
        let b = s[j - 2];
        let c = s[j - 1];
        if (a == 0xE1 && b == 0x9A && c == 0x80) || (a == 0xE2 && b == 0x80 && ((0x80 <= c
            && c <= 0x8A) || c == 0xA8 || c == 0xA9 || c == 0xAF)) || (a == 0xE2 && b == 0x81
            && c == 0x9F) || (a == 0xE3 && b == 0x80 && c == 0x80) {
            return 3;
        }
    }
    0
}

/// The bounds of `trim(s[lo..hi])` within `s`.
pub fn trim_bounds(s: &[u8], lo: usize, hi: usize) -> (r: (usize, usize))
    requires
        lo <= hi <= s@.len(),
    ensures
        lo <= r.0 <= r.1 <= hi,
        s@.subrange(r.0 as int, r.1 as int) == trim(s@.subrange(lo as int, hi as int)),
{
    let mut i = lo;
    loop
        invariant
            lo <= i <= hi <= s@.len(),
            trim_start(s@.subrange(lo as int, hi as int)) == trim_start(s@.subrange(i as int, hi as int)),
        ensures
            lo <= i <= hi,
            trim_start(s@.subrange(lo as int, hi as int)) == s@.subrange(i as int, hi as int),
        decreases hi - i,
    {
        let k = lead_ws_at(s, i, hi);
        if k == 0 {
            break;
        }
        assert(s@.subrange(i as int, hi as int).subrange(k as int, (hi - i) as int) =~= s@.subrange(
            i + k,
            hi as int,
        ));
        i = i + k;
    }
    let mut j = hi;
    loop
        invariant
            i <= j <= hi <= s@.len(),
            trim_end(s@.subrange(i as int, hi as int)) == trim_end(s@.subrange(i as int, j as int)),
        ensures
            i <= j <= hi,
            trim_end(s@.subrange(i as int, hi as int)) == s@.subrange(i as int, j as int),
        decreases j - i,
    {
        let k = trail_ws_at(s, i, j);
        if k == 0 {
            break;
        }
        assert(s@.subrange(i as int, j as int).subrange(0, (j - i - k) as int) =~= s@.subrange(
            i as int,
            j - k,
        ));
        j = j - k;
    }
    (i, j)
}

// ---------------------------------------------------------------------------
// Splitting into words (`str::split_whitespace`)
// ---------------------------------------------------------------------------

/// The length of the run of non-whitespace bytes that `s` starts with.
pub open spec fn word_len(s: Seq<u8>) -> nat
    decreases s.len(),
{
    if s.len() == 0 || lead_ws(s) > 0 {
        0
    } else {
        1 + word_len(s.drop_first())
    }
}

pub proof fn lemma_word_len_bound(s: Seq<u8>)
    ensures
        word_len(s) <= s.len(),
    decreases s.len(),
{
    if s.len() > 0 && lead_ws(s) == 0 {
        lemma_word_len_bound(s.drop_first());
    }
}

/// The words of `s`: the maximal runs of non-whitespace, in order.
pub open spec fn words(s: Seq<u8>) -> Seq<Seq<u8>>
    decreases s.len(),
{
    if s.len() == 0 {
        seq![]
    } else if lead_ws(s) > 0 {
        words(s.subrange(lead_ws(s) as int, s.len() as int))
    } else {
        let w = word_len(s);
        proof {
            lemma_word_len_bound(s);
        }
        seq![s.subrange(0, w as int)] + words(s.subrange(w as int, s.len() as int))
    }
}

/// The pieces of `s` that a list of bounds designates.
pub open spec fn pieces(s: Seq<u8>, r: Seq<(usize, usize)>) -> Seq<Seq<u8>> {
    r.map_values(|p: (usize, usize)| s.subrange(p.0 as int, p.1 as int))
}

/// The bounds of the words of `s[lo..hi]`, in order.
pub fn split_words(s: &[u8], lo: usize, hi: usize) -> (r: Vec<(usize, usize)>)
    requires
        lo <= hi <= s@.len(),
    ensures
        forall|k: int| 0 <= k < r@.len() ==> lo <= (#[trigger] r@[k]).0 <= r@[k].1 <= hi,
        pieces(s@, r@) == words(s@.subrange(lo as int, hi as int)),
{
    let mut r: Vec<(usize, usize)> = Vec::new();
    let mut i = lo;
    while i < hi
        invariant
            lo <= i <= hi <= s@.len(),
            forall|k: int| 0 <= k < r@.len() ==> lo <= (#[trigger] r@[k]).0 <= r@[k].1 <= hi,
            words(s@.subrange(lo as int, hi as int)) == pieces(s@, r@) + words(
                s@.subrange(i as int, hi as int),
            ),
        decreases hi - i,
    {
        let ghost t = s@.subrange(i as int, hi as int);
        let k = lead_ws_at(s, i, hi);
        if k > 0 {
            assert(t.subrange(k as int, t.len() as int) =~= s@.subrange(i + k, hi as int));
            i = i + k;
        } else {
            let mut j = i;
            while j < hi && lead_ws_at(s, j, hi) == 0
                invariant
                    i <= j <= hi <= s@.len(),
                    t == s@.subrange(i as int, hi as int),
                    word_len(t) == (j - i) + word_len(s@.subrange(j as int, hi as int)),
                decreases hi - j,
            {
                assert(s@.subrange(j as int, hi as int).drop_first() =~= s@.subrange(j + 1, hi as int));
                j = j + 1;
            }
            assert(word_len(s@.subrange(j as int, hi as int)) == 0);
            assert(t.subrange(0, (j - i) as int) =~= s@.subrange(i as int, j as int));
            assert(t.subrange((j - i) as int, t.len() as int) =~= s@.subrange(j as int, hi as int));
            let ghost before = r@;
            r.push((i, j));
            assert(pieces(s@, r@) =~= pieces(s@, before) + seq![s@.subrange(i as int, j as int)]);
            i = j;
        }
    }
    assert(s@.subrange(hi as int, hi as int) =~= Seq::<u8>::empty());
    assert(pieces(s@, r@) + words(Seq::<u8>::empty()) =~= pieces(s@, r@));
    r
}


/// The bytes of the keyword `max`.
pub open spec fn max_word() -> Seq<u8> {
    seq![109u8, 97u8, 120u8]
}

/// Whether `s[lo..hi]` is the keyword `max`.
pub fn is_max_word(s: &[u8], lo: usize, hi: usize) -> (r: bool)
    requires
        lo <= hi <= s@.len(),
    ensures
        r == (s@.subrange(lo as int, hi as int) == max_word()),
{
    let ghost t = s@.subrange(lo as int, hi as int);
    if hi - lo == 3 && s[lo] == 109 && s[lo + 1] == 97 && s[lo + 2] == 120 {
        assert(t =~= max_word());
        true
    } else {
        proof {
            if t == max_word() {
                assert(max_word().len() == 3);
                assert(max_word()[0] == 109u8 && max_word()[1] == 97u8 && max_word()[2] == 120u8);
                assert(t[0] == s@[lo as int]);
                assert(t[1] == s@[lo + 1]);
                assert(t[2] == s@[lo + 2]);
            }
        }
        false
    }
}



/// Whether `s[lo..hi]` holds exactly the bytes of `lit`.
pub fn bytes_are(s: &[u8], lo: usize, hi: usize, lit: &str) -> (r: bool)
    requires
        lo <= hi <= s@.len(),
    ensures
        r == (s@.subrange(lo as int, hi as int) == vstd::utf8::encode_utf8(lit@)),
{
    let b = lit.as_bytes();
    let ghost t = s@.subrange(lo as int, hi as int);
    if hi - lo != b.len() {
        return false;
    }
    let mut i: usize = 0;
    while i < b.len()
        invariant
            b@ == vstd::utf8::encode_utf8(lit@),
            t == s@.subrange(lo as int, hi as int),
            hi - lo == b@.len(),
            lo <= hi <= s@.len(),
            i <= b@.len(),
            forall|k: int| 0 <= k < i ==> t[k] == b@[k],
        decreases b@.len() - i,
    {
        assert(t[i as int] == s@[lo + i]);
        if s[lo + i] != b[i] {
            return false;
        }
        i = i + 1;
    }
    assert(t =~= b@);
    true
}

// ---------------------------------------------------------------------------
// Decimal rendering
// ---------------------------------------------------------------------------

/// Appends the decimal rendering of `n` to `out`.
pub fn push_decimal(out: &mut Vec<u8>, n: u64)
    ensures
        final(out)@ == old(out)@ + decimal(n as nat),
    decreases n,
{
    if n >= 10 {
        push_decimal(out, n / 10);
    }
    out.push(48 + (n % 10) as u8);
    proof {
        if n >= 10 {
            assert(old(out)@ + decimal(n as nat) =~= old(out)@ + decimal((n / 10) as nat) + seq![(48 + n % 10) as u8]);
        } else {
            assert(decimal(n as nat) =~= seq![(48 + n) as u8]);
        }
    }
}

/// Appends the decimal rendering of a signed `v` to `out`.
pub fn push_signed_decimal(out: &mut Vec<u8>, v: i64)
    ensures
        final(out)@ == old(out)@ + signed_decimal(v as int),
{
    if v < 0 {
        out.push(45);
        let m: u64 = ((-(v + 1)) as u64) + 1;
        push_decimal(out, m);
        assert(old(out)@ + signed_decimal(v as int) =~= old(out)@.push(45) + decimal(m as nat));
    } else {
        push_decimal(out, v as u64);
    }
}

/// The decimal digits of `n` are ASCII.
pub proof fn lemma_decimal_ascii(n: nat)
    ensures
        decimal(n).len() >= 1,
        forall|i: int| 0 <= i < decimal(n).len() ==> is_digit(#[trigger] decimal(n)[i]),
    decreases n,
{
    if n >= 10 {
        lemma_decimal_ascii(n / 10);
    }
}

// ---------------------------------------------------------------------------
// Strings
// ---------------------------------------------------------------------------

/// Reading the decimal rendering of `n` back, as `str::parse` does, gives
/// `n`: the rendering is well-formed UTF-8 without surrounding whitespace,
/// made of digits only, and a single word.
pub proof fn lemma_parse_decimal(n: nat)
    ensures
        valid_utf8(decimal(n)),
        trim(decimal(n)) == decimal(n),
        unsigned_digits(decimal(n)) == Some(decimal(n)),
        digits_value(decimal(n)) == n,
        parse_unsigned(decimal(n), n) == Some(n),
        decimal(n) != max_word(),
        words(decimal(n)) == seq![decimal(n)],
    decreases n,
{
    lemma_decimal_ascii(n);
    let s = decimal(n);
    if n >= 10 {
        lemma_parse_decimal(n / 10);
        assert(s.drop_last() =~= decimal(n / 10));
        assert(s.last() == (48 + n % 10) as u8);
        assert(digits_value(s) == digits_value(decimal(n / 10)) * 10 + (n % 10));
        assert((n / 10) * 10 + n % 10 == n) by (nonlinear_arith);
    } else {
        assert(s.drop_last() =~= Seq::<u8>::empty());
        assert(digits_value(s.drop_last()) == 0);
        assert(s.last() == (48 + n) as u8);
        assert(digits_value(s) == n);
    }
    assert(is_ascii_bytes(s));
    lemma_ascii_utf8(s);
    assert(lead_ws(s) == 0);
    assert(trim_start(s) == s);
    assert(trail_ws(s) == 0);
    assert(trim_end(s) == s);
    assert(s[0] != 109);
    assert(max_word()[0] == 109) by {
        reveal_strlit("max");
    }
    lemma_word_run(s);
}

/// The decimal rendering of `n` parses back to `n` in every integer type
/// that holds it, and it is what `dec` and `sdec` write.
pub proof fn lemma_parse_decimal_typed(n: nat)
    ensures
        n <= u64::MAX ==> spec_parse_u64(decimal(n)) == Some(n as u64),
        n <= u32::MAX ==> spec_parse_u32(decimal(n)) == Some(n as u32),
        n <= i64::MAX ==> spec_parse_i64(decimal(n)) == Some(n as i64),
        vstd::utf8::encode_utf8(dec(n)) == decimal(n),
        sdec(n as int) == dec(n),
{
    lemma_parse_decimal(n);
    lemma_decimal_ascii(n);
    assert(decimal(n)[0] != 45);
    assert(is_ascii_bytes(decimal(n)));
    lemma_ascii_utf8(decimal(n));
}

proof fn lemma_word_len_prefix(a: Seq<u8>, r: Seq<u8>)
    requires
        forall|i: int| 0 <= i < a.len() ==> is_digit(#[trigger] a[i]),
        r.len() >= 1,
        is_ascii_ws(r[0]),
    ensures
        word_len(a + r) == a.len(),
    decreases a.len(),
{
    if a.len() == 0 {
        assert(a + r =~= r);
        assert(lead_ws(r) > 0);
    } else {
        assert(is_digit((a + r)[0]));
        assert((a + r).drop_first() =~= a.drop_first() + r);
        assert forall|i: int| 0 <= i < a.drop_first().len() implies is_digit(#[trigger] a.drop_first()[i]) by {
            assert(a.drop_first()[i] == a[i + 1]);
        }
        lemma_word_len_prefix(a.drop_first(), r);
    }
}

/// The renderings of two numbers separated by a space are two words, and
/// the whole is well-formed UTF-8 without surrounding whitespace.
pub proof fn lemma_two_numbers(m: nat, n: nat)
    ensures
        ({
            let s = decimal(m) + seq![32u8] + decimal(n);
            &&& words(s) == seq![decimal(m), decimal(n)]
            &&& trim(s) == s
            &&& valid_utf8(s)
            &&& s != max_word()
        }),
{
    let (a, b) = (decimal(m), decimal(n));
    lemma_decimal_ascii(m);
    lemma_decimal_ascii(n);
    lemma_parse_decimal(n);
    let r = seq![32u8] + b;
    let s = a + r;
    assert(s =~= a + seq![32u8] + b);
    lemma_word_len_prefix(a, r);
    assert(lead_ws(s) == 0) by {
        assert(s[0] == a[0]);
    }
    assert(s.subrange(0, a.len() as int) =~= a);
    assert(s.subrange(a.len() as int, s.len() as int) =~= r);
    assert(lead_ws(r) == 1);
    assert(r.subrange(1, r.len() as int) =~= b);
    assert(words(r) == seq![b]);
    assert(words(s) =~= seq![a, b]);
    assert(is_ascii_bytes(s)) by {
        assert forall|i: int| 0 <= i < s.len() implies #[trigger] s[i] < 128 by {
            if i < a.len() {
                assert(s[i] == a[i]);
            } else if i > a.len() {
                assert(s[i] == b[i - a.len() - 1]);
            }
        }
    }
    lemma_ascii_utf8(s);
    assert(trim_start(s) == s);
    assert(s[s.len() - 1] == b[b.len() - 1]);
    assert(trail_ws(s) == 0);
    assert(trim_end(s) == s);
    assert(s[0] != 109);
}

/// The length of the first word of `a + r`, where `a` holds visible ASCII
/// characters only and `r` starts with a space.
proof fn lemma_word_len_visible_prefix(a: Seq<u8>, r: Seq<u8>)
    requires
        forall|i: int| 0 <= i < a.len() ==> 33 <= #[trigger] a[i] <= 126,
        r.len() >= 1,
        is_ascii_ws(r[0]),
    ensures
        word_len(a + r) == a.len(),
    decreases a.len(),
{
    if a.len() == 0 {
        assert(a + r =~= r);
        assert(lead_ws(r) > 0);
    } else {
        assert((a + r)[0] == a[0]);
        assert(lead_ws(a + r) == 0);
        assert((a + r).drop_first() =~= a.drop_first() + r);
        assert forall|i: int| 0 <= i < a.drop_first().len() implies 33 <= #[trigger] a.drop_first()[i] <= 126 by {
            assert(a.drop_first()[i] == a[i + 1]);
        }
        lemma_word_len_visible_prefix(a.drop_first(), r);
    }
}

/// `max` and the rendering of a number, separated by a space, are two
/// words, and the whole is well-formed UTF-8 without surrounding
/// whitespace.
pub proof fn lemma_max_then_number(n: nat)
    ensures
        ({
            let s = max_word() + seq![32u8] + decimal(n);
            &&& words(s) == seq![max_word(), decimal(n)]
            &&& trim(s) == s
            &&& valid_utf8(s)
        }),
{
    let (a, b) = (max_word(), decimal(n));
    lemma_decimal_ascii(n);
    lemma_parse_decimal(n);
    let r = seq![32u8] + b;
    let s = a + r;
    assert(s =~= a + seq![32u8] + b);
    lemma_word_len_visible_prefix(a, r);
    assert(lead_ws(s) == 0) by {
        assert(s[0] == 109);
    }
    assert(s.subrange(0, a.len() as int) =~= a);
    assert(s.subrange(a.len() as int, s.len() as int) =~= r);
    assert(lead_ws(r) == 1);
    assert(r.subrange(1, r.len() as int) =~= b);
    assert(words(r) == seq![b]);
    assert(words(s) =~= seq![a, b]);
    assert(is_ascii_bytes(s)) by {
        assert forall|i: int| 0 <= i < s.len() implies #[trigger] s[i] < 128 by {
            if i < a.len() {
                assert(s[i] == a[i]);
            } else if i > a.len() {
                assert(s[i] == b[i - a.len() - 1]);
            }
        }
    }
    lemma_ascii_utf8(s);
    assert(trim_start(s) == s);
    assert(s[s.len() - 1] == b[b.len() - 1]);
    assert(trail_ws(s) == 0);
    assert(trim_end(s) == s);
}

/// The keyword `max` is the UTF-8 of `"max"`, well-formed and without
/// surrounding whitespace.
pub proof fn lemma_max_word()
    ensures
        vstd::utf8::encode_utf8("max"@) == max_word(),
        valid_utf8(max_word()),
        trim(max_word()) == max_word(),
{
    let mw = max_word();
    assert(is_ascii_bytes(mw));
    lemma_ascii_utf8(mw);
    assert(lead_ws(mw) == 0);
    assert(trim_start(mw) == mw);
    assert(trail_ws(mw) == 0);
    assert(trim_end(mw) == mw);
    reveal_strlit("max");
    assert(ascii_chars(mw) =~= "max"@);
}

/// A run of bytes none of which starts whitespace is one word.
proof fn lemma_word_run(s: Seq<u8>)
    requires
        s.len() >= 1,
        forall|i: int| 0 <= i < s.len() ==> is_digit(#[trigger] s[i]),
    ensures
        words(s) == seq![s],
        word_len(s) == s.len(),
    decreases s.len(),
{
    assert(is_digit(s[0]));
    assert(lead_ws(s) == 0);
    if s.len() > 1 {
        assert forall|i: int| 0 <= i < s.drop_first().len() implies is_digit(#[trigger] s.drop_first()[i]) by {
            assert(s.drop_first()[i] == s[i + 1]);
        }
        lemma_word_run(s.drop_first());
    } else {
        assert(s.drop_first().len() == 0);
        assert(word_len(s.drop_first()) == 0);
    }
    assert(word_len(s) == s.len());
    assert(s.subrange(0, s.len() as int) =~= s);
    assert(s.subrange(s.len() as int, s.len() as int) =~= Seq::<u8>::empty());
    assert(words(s.subrange(s.len() as int, s.len() as int)) == Seq::<Seq<u8>>::empty());
    assert(seq![s] + Seq::<Seq<u8>>::empty() =~= seq![s]);
}

/// Every ASCII byte string is well-formed UTF-8, encoding its own
/// characters.
pub proof fn lemma_ascii_utf8(b: Seq<u8>)
    requires
        is_ascii_bytes(b),
    ensures
        vstd::utf8::encode_utf8(ascii_chars(b)) == b,
        valid_utf8(b),
{
    let c = ascii_chars(b);
    assert(vstd::utf8::is_ascii_chars(c)) by {
        assert forall|i: int| 0 <= i < c.len() implies '\0' <= #[trigger] c[i] <= '\u{7f}' by {
            assert(b[i] < 128);
        }
    }
    vstd::utf8::is_ascii_chars_encode_utf8(c);
    assert(vstd::utf8::encode_utf8(c) =~= b);
    vstd::utf8::encode_utf8_valid_utf8(c);
}


/// The characters of an ASCII byte string.
pub open spec fn ascii_chars(b: Seq<u8>) -> Seq<char> {
    b.map_values(|x: u8| x as char)
}

/// Every byte is ASCII.
pub open spec fn is_ascii_bytes(b: Seq<u8>) -> bool {
    forall|i: int| 0 <= i < b.len() ==> #[trigger] b[i] < 128
}

/// Builds a `String` from ASCII bytes through `String::from_utf8`, which
/// succeeds on every ASCII byte string and then holds exactly those characters.
#[verifier::external_body]
pub(crate) fn ascii_string(bytes: Vec<u8>) -> (s: String)
    requires
        is_ascii_bytes(bytes@),
    ensures
        s@ == ascii_chars(bytes@),
{
    match String::from_utf8(bytes) {
        Ok(s) => s,
        Err(_) => String::new(),
    }
}

/// Tells whether `data` is well-formed UTF-8, as `core::str::from_utf8`
/// reports it: that function fails exactly on ill-formed input.
#[verifier::external_body]
pub(crate) fn is_utf8(data: &[u8]) -> (ok: bool)
    ensures
        ok == valid_utf8(data@),
{
    core::str::from_utf8(data).is_ok()
}

/// Two string slices hold the same characters.
pub fn str_is(a: &str, b: &str) -> (r: bool)
    ensures
        r == (a@ == b@),
{
    let x = a.as_bytes();
    let y = b.as_bytes();
    proof {
        vstd::utf8::encode_utf8_decode_utf8(a@);
        vstd::utf8::encode_utf8_decode_utf8(b@);
    }
    if x.len() != y.len() {
        return false;
    }
    let mut i: usize = 0;
    while i < x.len()
        invariant
            x@ == a.spec_bytes(),
            y@ == b.spec_bytes(),
            vstd::utf8::decode_utf8(a.spec_bytes()) == a@,
            vstd::utf8::decode_utf8(b.spec_bytes()) == b@,
            x@.len() == y@.len(),
            i <= x@.len(),
            forall|k: int| 0 <= k < i ==> x@[k] == y@[k],
        decreases x@.len() - i,
    {
        if x[i] != y[i] {
            return false;
        }
        i = i + 1;
    }
    assert(x@ =~= y@);
    true
}


// ---------------------------------------------------------------------------
// Searching and splitting bytes
// ---------------------------------------------------------------------------

/// The first position of byte `b` in `s`.
pub open spec fn find_byte(s: Seq<u8>, b: u8) -> Option<int>
    decreases s.len(),
{
    if s.len() == 0 {
        None
    } else if s[0] == b {
        Some(0)
    } else {
        match find_byte(s.drop_first(), b) {
            Some(k) => Some(k + 1),
            None => None,
        }
    }
}

pub proof fn lemma_find_byte(s: Seq<u8>, b: u8, i: int)
    requires
        0 <= i <= s.len(),
        forall|k: int| 0 <= k < i ==> s[k] != b,
    ensures
        find_byte(s, b) == match find_byte(s.subrange(i, s.len() as int), b) {
            Some(k) => Some(k + i),
            None => None::<int>,
        },
    decreases i,
{
    if i > 0 {
        lemma_find_byte(s.drop_first(), b, i - 1);
        assert(s.drop_first().subrange(i - 1, s.drop_first().len() as int) =~= s.subrange(i, s.len() as int));
    } else {
        assert(s.subrange(0, s.len() as int) =~= s);
    }
}

/// The first position of byte `b` in `s[lo..hi]`, relative to `lo`.
pub fn find_byte_in(s: &[u8], lo: usize, hi: usize, b: u8) -> (r: Option<usize>)
    requires
        lo <= hi <= s@.len(),
    ensures
        match find_byte(s@.subrange(lo as int, hi as int), b) {
            Some(k) => r == Some((lo + k) as usize),
            None => r is None,
        },
{
    let ghost t = s@.subrange(lo as int, hi as int);
    let mut i = lo;
    while i < hi
        invariant
            lo <= i <= hi <= s@.len(),
            t == s@.subrange(lo as int, hi as int),
            forall|k: int| 0 <= k < i - lo ==> t[k] != b,
        decreases hi - i,
    {
        assert(t[i - lo] == s@[i as int]);
        if s[i] == b {
            proof {
                lemma_find_byte(t, b, i - lo);
                assert(t.subrange(i - lo, t.len() as int)[0] == b);
            }
            return Some(i);
        }
        i = i + 1;
    }
    proof {
        lemma_find_byte(t, b, i - lo);
        assert(t.subrange(i - lo, t.len() as int).len() == 0);
    }
    None
}

/// `s` cut at every byte `sep`.
pub open spec fn split_on(s: Seq<u8>, sep: u8) -> Seq<Seq<u8>>
    decreases s.len(),
{
    match find_byte(s, sep) {
        None => seq![s],
        Some(k) => {
            proof {
                lemma_find_byte_bound(s, sep);
            }
            seq![s.subrange(0, k)] + split_on(s.subrange(k + 1, s.len() as int), sep)
        },
    }
}

pub proof fn lemma_find_byte_bound(s: Seq<u8>, b: u8)
    ensures
        find_byte(s, b) matches Some(k) ==> 0 <= k < s.len() && s[k] == b,
    decreases s.len(),
{
    if s.len() > 0 {
        lemma_find_byte_bound(s.drop_first(), b);
    }
}


// ---------------------------------------------------------------------------
// The order of `str`
// ---------------------------------------------------------------------------

/// `a` sorts before `b` byte by byte: at the first difference the smaller
/// byte wins, and a proper prefix sorts first.
pub open spec fn bytes_lt(a: Seq<u8>, b: Seq<u8>) -> bool
    decreases a.len(),
{
    if b.len() == 0 {
        false
    } else if a.len() == 0 {
        true
    } else if a[0] != b[0] {
        a[0] < b[0]
    } else {
        bytes_lt(a.drop_first(), b.drop_first())
    }
}

/// `a` sorts before `b` as `Ord` on `str` orders them: by their UTF-8 bytes.
pub open spec fn str_lt(a: Seq<char>, b: Seq<char>) -> bool {
    bytes_lt(vstd::utf8::encode_utf8(a), vstd::utf8::encode_utf8(b))
}

pub proof fn lemma_bytes_lt_irreflexive(a: Seq<u8>)
    ensures
        !bytes_lt(a, a),
    decreases a.len(),
{
    if a.len() > 0 {
        lemma_bytes_lt_irreflexive(a.drop_first());
    }
}

pub proof fn lemma_bytes_lt_transitive(a: Seq<u8>, b: Seq<u8>, c: Seq<u8>)
    requires
        bytes_lt(a, b),
        bytes_lt(b, c),
    ensures
        bytes_lt(a, c),
    decreases a.len(),
{
    if a.len() > 0 && b.len() > 0 && c.len() > 0 && a[0] == b[0] && b[0] == c[0] {
        lemma_bytes_lt_transitive(a.drop_first(), b.drop_first(), c.drop_first());
    }
}

pub proof fn lemma_bytes_lt_total(a: Seq<u8>, b: Seq<u8>)
    requires
        a != b,
    ensures
        bytes_lt(a, b) || bytes_lt(b, a),
    decreases a.len(),
{
    if a.len() == 0 {
        assert(b.len() > 0) by {
            if b.len() == 0 {
                assert(a =~= b);
            }
        }
    } else if b.len() > 0 && a[0] == b[0] {
        assert(a.drop_first() != b.drop_first()) by {
            if a.drop_first() == b.drop_first() {
                assert(a =~= seq![a[0]] + a.drop_first());
                assert(b =~= seq![b[0]] + b.drop_first());
            }
        }
        lemma_bytes_lt_total(a.drop_first(), b.drop_first());
    }
}

/// `str_lt` is a strict total order.
pub proof fn lemma_str_lt_order(a: Seq<char>, b: Seq<char>, c: Seq<char>)
    ensures
        !str_lt(a, a),
        str_lt(a, b) && str_lt(b, c) ==> str_lt(a, c),
        a != b ==> str_lt(a, b) || str_lt(b, a),
        str_lt(a, b) ==> !str_lt(b, a),
{
    let (x, y, z) = (vstd::utf8::encode_utf8(a), vstd::utf8::encode_utf8(b), vstd::utf8::encode_utf8(c));
    lemma_bytes_lt_irreflexive(x);
    if bytes_lt(x, y) && bytes_lt(y, z) {
        lemma_bytes_lt_transitive(x, y, z);
    }
    if bytes_lt(x, y) && bytes_lt(y, x) {
        lemma_bytes_lt_transitive(x, y, x);
    }
    if a != b {
        vstd::utf8::encode_utf8_decode_utf8(a);
        vstd::utf8::encode_utf8_decode_utf8(b);
        lemma_bytes_lt_total(x, y);
    }
}

/// Whether `a` sorts before `b`.
pub fn str_less(a: &str, b: &str) -> (r: bool)
    ensures
        r == str_lt(a@, b@),
{
    let x = a.as_bytes();
    let y = b.as_bytes();
    let mut i: usize = 0;
    assert(x@.subrange(0, x@.len() as int) =~= x@);
    assert(y@.subrange(0, y@.len() as int) =~= y@);
    while i < x.len() && i < y.len() && x[i] == y[i]
        invariant
            x@ == a.spec_bytes(),
            y@ == b.spec_bytes(),
            i <= x@.len(),
            i <= y@.len(),
            bytes_lt(x@, y@) == bytes_lt(x@.subrange(i as int, x@.len() as int), y@.subrange(i as int, y@.len() as int)),
        decreases x@.len() - i,
    {
        let ghost (xs, ys) = (x@.subrange(i as int, x@.len() as int), y@.subrange(i as int, y@.len() as int));
        assert(xs.drop_first() =~= x@.subrange(i + 1, x@.len() as int));
        assert(ys.drop_first() =~= y@.subrange(i + 1, y@.len() as int));
        i = i + 1;
    }
    if i == y.len() {
        false
    } else if i == x.len() {
        true
    } else {
        x[i] < y[i]
    }
}

/// The characters of the decimal rendering of `n`.
pub open spec fn dec(n: nat) -> Seq<char> {
    ascii_chars(decimal(n))
}

/// The characters of the rendering of a signed `v`.
pub open spec fn sdec(v: int) -> Seq<char> {
    ascii_chars(signed_decimal(v))
}

/// `ws` joined with `sep` between neighbours, as `[&str]::join` does.
pub open spec fn join(ws: Seq<Seq<char>>, sep: Seq<char>) -> Seq<char>
    decreases ws.len(),
{
    if ws.len() == 0 {
        Seq::empty()
    } else if ws.len() == 1 {
        ws[0]
    } else {
        ws[0] + sep + join(ws.drop_first(), sep)
    }
}

/// Joining one more word appends the separator and the word.
pub proof fn lemma_join_push(ws: Seq<Seq<char>>, w: Seq<char>, sep: Seq<char>)
    ensures
        join(ws.push(w), sep) == (if ws.len() == 0 {
            w
        } else {
            join(ws, sep) + sep + w
        }),
    decreases ws.len(),
{
    if ws.len() == 0 {
        assert(ws.push(w) =~= seq![w]);
    } else if ws.len() == 1 {
        assert(ws.push(w).drop_first() =~= seq![w]);
        assert(join(seq![w], sep) == w);
        assert(join(ws, sep) == ws[0]);
    } else {
        lemma_join_push(ws.drop_first(), w, sep);
        assert(ws.push(w).drop_first() =~= ws.drop_first().push(w));
        assert(ws.push(w)[0] == ws[0]);
        assert(join(ws.push(w), sep) =~= join(ws, sep) + sep + w);
    }
}

/// Appends the decimal rendering of `n`.
pub fn append_u64(s: &mut String, n: u64)
    ensures
        final(s)@ == old(s)@ + dec(n as nat),
{
    let mut digits: Vec<u8> = Vec::new();
    push_decimal(&mut digits, n);
    proof {
        lemma_decimal_ascii(n as nat);
        assert(digits@ =~= decimal(n as nat));
    }
    let d = ascii_string(digits);
    s.append(d.as_str());
}

/// Appends the rendering of a signed `v`.
pub fn append_i64(s: &mut String, v: i64)
    ensures
        final(s)@ == old(s)@ + sdec(v as int),
{
    let mut digits: Vec<u8> = Vec::new();
    push_signed_decimal(&mut digits, v);
    proof {
        let m: nat = if v < 0 { (-v) as nat } else { v as nat };
        lemma_decimal_ascii(m);
        assert(digits@ =~= signed_decimal(v as int));
        assert forall|i: int| 0 <= i < digits@.len() implies #[trigger] digits@[i] < 128 by {
            if v < 0 {
                if i > 0 {
                    assert(digits@[i] == decimal(m)[i - 1]);
                }
            }
        }
    }
    let d = ascii_string(digits);
    s.append(d.as_str());
}

/// Copies the bytes of `text` from `offset` on into `buf`, as much as fits,
/// and returns how many it copied.
pub fn read_text_at(text: &String, offset: usize, buf: &mut [u8]) -> (n: usize)
    ensures
        window_read(vstd::utf8::encode_utf8(text@), offset as nat, old(buf)@, final(buf)@, n as nat),
{
    copy_window(text.as_str().as_bytes(), offset, buf)
}

// ---------------------------------------------------------------------------
// Reading a rendered value at an offset
// ---------------------------------------------------------------------------

/// How many bytes a read of `value` at `offset` into a buffer of `cap` bytes
/// delivers: none past the end, else as many as fit.
pub open spec fn window_len(len: nat, offset: nat, cap: nat) -> nat {
    if offset >= len {
        0
    } else if len - offset < cap {
        (len - offset) as nat
    } else {
        cap
    }
}

/// What a read of `value` at `offset` leaves in `buf` and returns.
pub open spec fn window_read(value: Seq<u8>, offset: nat, before: Seq<u8>, after: Seq<u8>, n: nat) -> bool {
    let w = window_len(value.len(), offset, before.len());
    &&& n == w
    &&& after.len() == before.len()
    &&& forall|j: int| 0 <= j < w ==> #[trigger] after[j] == value[offset + j]
    &&& forall|j: int| w <= j < after.len() ==> #[trigger] after[j] == before[j]
}

/// Copies `value[offset..]` into the front of `buf`, as much as fits.
pub fn copy_window(value: &[u8], offset: usize, buf: &mut [u8]) -> (n: usize)
    ensures
        window_read(value@, offset as nat, old(buf)@, final(buf)@, n as nat),
{
    if offset >= value.len() {
        return 0;
    }
    let rest = value.len() - offset;
    let n = if rest < buf.len() { rest } else { buf.len() };
    let mut i: usize = 0;
    while i < n
        invariant
            n <= rest,
            rest == value@.len() - offset,
            offset < value@.len(),
            value@.len() <= usize::MAX,
            n <= buf@.len(),
            buf@.len() == old(buf)@.len(),
            i <= n,
            forall|j: int| 0 <= j < i ==> buf@[j] == value@[offset + j],
            forall|j: int| n <= j < buf@.len() ==> buf@[j] == old(buf)@[j],
        decreases n - i,
    {
        buf[i] = value[offset + i];
        i = i + 1;
    }
    n
}

} // verus!
