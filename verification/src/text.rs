//! Byte- and string-level building blocks: ASCII classes, decimal digit runs,
//! searching, splitting and cutting a `&str` at ASCII delimiters.
use vstd::prelude::*;
use vstd::string::StringSliceAdditionalSpecFns;
use vstd::utf8::*;

verus! {

broadcast use vstd::utf8::group_utf8_lib;

pub const BANG: u8 = 33;

pub const STAR: u8 = 42;

pub const PLUS: u8 = 43;

pub const COMMA: u8 = 44;

pub const DASH: u8 = 45;

pub const DOT: u8 = 46;

pub const ZERO: u8 = 48;

pub const NINE: u8 = 57;

pub const COLON: u8 = 58;

pub const LESS_THAN: u8 = 60;

pub const EQUALS: u8 = 61;

pub const GREATER_THAN: u8 = 62;

pub const UPPER_V: u8 = 86;

pub const UPPER_X: u8 = 88;

pub const CARET: u8 = 94;

pub const UNDERSCORE: u8 = 95;

pub const LOWER_A: u8 = 97;

pub const LOWER_B: u8 = 98;

pub const LOWER_C: u8 = 99;

pub const LOWER_R: u8 = 114;

pub const LOWER_V: u8 = 118;

pub const LOWER_X: u8 = 120;

pub const PIPE: u8 = 124;

pub const TILDE: u8 = 126;

// ---------------------------------------------------------------------------
// ASCII classes
// ---------------------------------------------------------------------------

pub open spec fn is_digit(b: u8) -> bool {
    ZERO <= b <= NINE
}

pub open spec fn is_upper(b: u8) -> bool {
    65 <= b <= 90
}

pub open spec fn is_lower(b: u8) -> bool {
    97 <= b <= 122
}

pub open spec fn is_alpha(b: u8) -> bool {
    is_upper(b) || is_lower(b)
}

pub open spec fn is_alnum(b: u8) -> bool {
    is_digit(b) || is_alpha(b)
}

/// ASCII lower-casing of one byte; every other byte is kept.
pub open spec fn lower_byte(b: u8) -> u8 {
    if is_upper(b) {
        (b + 32) as u8
    } else {
        b
    }
}

pub open spec fn lower_bytes(s: Seq<u8>) -> Seq<u8> {
    Seq::new(s.len(), |i: int| lower_byte(s[i]))
}

/// ASCII lower-casing of one character; every other character is kept.
pub open spec fn lower_char(c: char) -> char {
    if 'A' <= c <= 'Z' {
        ((c as u32) + 32) as char
    } else {
        c
    }
}

pub open spec fn lower_chars(s: Seq<char>) -> Seq<char> {
    Seq::new(s.len(), |i: int| lower_char(s[i]))
}

/// The characters of a sequence of ASCII bytes.
pub open spec fn ascii_chars(b: Seq<u8>) -> Seq<char> {
    Seq::new(b.len(), |i: int| b[i] as char)
}

pub open spec fn all_ascii(b: Seq<u8>) -> bool {
    forall|i: int| 0 <= i < b.len() ==> b[i] < 128
}

pub open spec fn all_digits(b: Seq<u8>) -> bool {
    forall|i: int| 0 <= i < b.len() ==> is_digit(#[trigger] b[i])
}

pub open spec fn all_alpha(b: Seq<u8>) -> bool {
    forall|i: int| 0 <= i < b.len() ==> is_alpha(#[trigger] b[i])
}

pub fn byte_is_digit(b: u8) -> (r: bool)
    ensures
        r == is_digit(b),
{
    ZERO <= b && b <= NINE
}

pub fn byte_is_alpha(b: u8) -> (r: bool)
    ensures
        r == is_alpha(b),
{
    (65 <= b && b <= 90) || (97 <= b && b <= 122)
}

pub fn byte_is_alnum(b: u8) -> (r: bool)
    ensures
        r == is_alnum(b),
{
    byte_is_digit(b) || byte_is_alpha(b)
}

pub fn byte_to_lower(b: u8) -> (r: u8)
    ensures
        r == lower_byte(b),
{
    if 65 <= b && b <= 90 {
        b + 32
    } else {
        b
    }
}

pub fn lowercase_bytes(b: &[u8]) -> (r: Vec<u8>)
    ensures
        r@ == lower_bytes(b@),
{
    let mut out: Vec<u8> = Vec::with_capacity(b.len());
    let mut i: usize = 0;
    while i < b.len()
        invariant
            i <= b.len(),
            out@ =~= lower_bytes(b@).subrange(0, i as int),
        decreases b.len() - i,
    {
        out.push(byte_to_lower(b[i]));
        i += 1;
    }
    assert(out@ =~= lower_bytes(b@));
    out
}

// ---------------------------------------------------------------------------
// Unicode white space and trimming
// ---------------------------------------------------------------------------

/// The characters with the Unicode `White_Space` property.
pub open spec fn is_white_space(c: char) -> bool {
    ||| '\u{9}' <= c <= '\u{d}'
    ||| c == ' '
    ||| c == '\u{85}'
    ||| c == '\u{a0}'
    ||| c == '\u{1680}'
    ||| '\u{2000}' <= c <= '\u{200a}'
    ||| c == '\u{2028}'
    ||| c == '\u{2029}'
    ||| c == '\u{202f}'
    ||| c == '\u{205f}'
    ||| c == '\u{3000}'
}

pub open spec fn trim_start_chars(s: Seq<char>) -> Seq<char>
    decreases s.len(),
{
    if s.len() > 0 && is_white_space(s[0]) {
        trim_start_chars(s.drop_first())
    } else {
        s
    }
}

pub open spec fn trim_end_chars(s: Seq<char>) -> Seq<char>
    decreases s.len(),
{
    if s.len() > 0 && is_white_space(s.last()) {
        trim_end_chars(s.drop_last())
    } else {
        s
    }
}

pub open spec fn trim_chars(s: Seq<char>) -> Seq<char> {
    trim_end_chars(trim_start_chars(s))
}

/// The UTF-8 bytes of `s` with leading and trailing white space removed.
pub open spec fn trimmed_bytes(s: Seq<char>) -> Seq<u8> {
    encode_utf8(trim_chars(s))
}

/// `str::trim`: the slice of `s` without its leading and trailing characters
/// that have the Unicode `White_Space` property.
#[verifier::external_body]
pub(crate) fn trim<'a>(s: &'a str) -> (r: &'a str)
    ensures
        r@ == trim_chars(s@),
{
    s.trim()
}

/// Whether two string slices are equal: they are exactly when their UTF-8
/// bytes are.
pub(crate) fn str_eq(a: &str, b: &str) -> (r: bool)
    ensures
        r == (a@ == b@),
{
    let r = bytes_equal(a.as_bytes(), b.as_bytes());
    proof {
        encode_utf8_decode_utf8(a@);
        encode_utf8_decode_utf8(b@);
    }
    r
}

/// `str::to_ascii_lowercase`: a copy of `s` in which `A`..`Z` are replaced by
/// `a`..`z` and every other character is kept.
#[verifier::external_body]
pub(crate) fn to_ascii_lowercase(s: &str) -> (r: String)
    ensures
        r@ == lower_chars(s@),
{
    s.to_ascii_lowercase()
}

/// `std::str::from_utf8`: the string slice whose UTF-8 bytes are `b`, when
/// `b` is valid UTF-8.
#[verifier::external_body]
fn str_from_utf8(b: &[u8]) -> (r: Option<&str>)
    ensures
        valid_utf8(b@) <==> r is Some,
        r matches Some(s) ==> s.spec_bytes() == b@,
{
    std::str::from_utf8(b).ok()
}

// ---------------------------------------------------------------------------
// Decimal numbers
// ---------------------------------------------------------------------------

pub open spec fn digit_value(b: u8) -> nat {
    (b - ZERO) as nat
}

/// The value of a run of decimal digits.
pub open spec fn decimal(s: Seq<u8>) -> nat
    decreases s.len(),
{
    if s.len() == 0 {
        0
    } else {
        decimal(s.drop_last()) * 10 + digit_value(s.last())
    }
}

/// The value of a run of decimal digits, saturated at `u64::MAX`.
pub open spec fn saturated_decimal(s: Seq<u8>) -> u64 {
    if decimal(s) > u64::MAX {
        u64::MAX
    } else {
        decimal(s) as u64
    }
}

/// `<u64 as FromStr>::from_str`: an optional `+` followed by at least one
/// decimal digit, whose value fits in a `u64`.
pub open spec fn parse_u64_spec(s: Seq<u8>) -> Option<u64> {
    let d = if s.len() > 0 && s[0] == PLUS {
        s.drop_first()
    } else {
        s
    };
    if d.len() > 0 && all_digits(d) && decimal(d) <= u64::MAX {
        Some(decimal(d) as u64)
    } else {
        None
    }
}

proof fn lemma_decimal_step(s: Seq<u8>, j: int)
    requires
        0 <= j < s.len(),
    ensures
        decimal(s.subrange(0, j + 1)) == decimal(s.subrange(0, j)) * 10 + digit_value(s[j]),
{
    assert(s.subrange(0, j + 1).drop_last() =~= s.subrange(0, j));
}

/// The saturated value of the digits `s[start..end]`.
pub fn saturated_decimal_of(s: &[u8], start: usize, end: usize) -> (r: u64)
    requires
        start <= end <= s@.len(),
        all_digits(s@.subrange(start as int, end as int)),
    ensures
        r == saturated_decimal(s@.subrange(start as int, end as int)),
{
    let ghost run = s@.subrange(start as int, end as int);
    let mut acc: u64 = 0;
    let mut j: usize = start;
    while j < end
        invariant
            start <= j <= end <= s@.len(),
            run == s@.subrange(start as int, end as int),
            all_digits(run),
            acc == saturated_decimal(run.subrange(0, (j - start) as int)),
        decreases end - j,
    {
        let ghost k = (j - start) as int;
        proof {
            lemma_decimal_step(run, k);
            assert(run[k] == s@[j as int]);
            assert(is_digit(run[k]));
        }
        let d = s[j] - ZERO;
        if acc == u64::MAX {
            proof {
                assert(decimal(run.subrange(0, k)) >= u64::MAX);
                assert(decimal(run.subrange(0, k)) * 10 >= decimal(run.subrange(0, k))) by (nonlinear_arith);
            }
        } else {
            match acc.checked_mul(10) {
                Some(m) => match m.checked_add(d as u64) {
                    Some(v) => {
                        acc = v;
                    },
                    None => {
                        acc = u64::MAX;
                    },
                },
                None => {
                    proof {
                        assert(decimal(run.subrange(0, k)) * 10 > u64::MAX);
                    }
                    acc = u64::MAX;
                },
            }
        }
        j += 1;
    }
    assert(run.subrange(0, (end - start) as int) =~= run);
    acc
}

/// `<u64 as FromStr>::from_str` over all of `s`.
pub fn parse_u64_all(s: &[u8]) -> (r: Option<u64>)
    ensures
        r == parse_u64_spec(s@),
{
    assert(s@.subrange(0, s@.len() as int) =~= s@);
    parse_u64(s, 0, s.len())
}

/// `<u64 as FromStr>::from_str` over the bytes `s[start..end]`.
#[verifier::loop_isolation(false)]
pub fn parse_u64(s: &[u8], start: usize, end: usize) -> (r: Option<u64>)
    requires
        start <= end <= s@.len(),
    ensures
        r == parse_u64_spec(s@.subrange(start as int, end as int)),
{
    let ghost whole = s@.subrange(start as int, end as int);
    let mut first = start;
    if start < end && s[start] == PLUS {
        first = start + 1;
    }
    let ghost d = if whole.len() > 0 && whole[0] == PLUS {
        whole.drop_first()
    } else {
        whole
    };
    assert(d =~= s@.subrange(first as int, end as int));
    if first == end {
        return None;
    }
    let mut j = first;
    while j < end
        invariant
            first <= j <= end <= s@.len(),
            all_digits(s@.subrange(first as int, j as int)),
        decreases end - j,
    {
        if !byte_is_digit(s[j]) {
            proof {
                assert(s@.subrange(first as int, end as int)[(j - first) as int] == s@[j as int]);
            }
            return None;
        }
        j += 1;
    }
    let v = saturated_decimal_of(s, first, end);
    if v == u64::MAX {
        // u64::MAX itself is a valid value; only a saturated run is refused
        let exact = exact_is_max(s, first, end);
        if exact {
            Some(v)
        } else {
            None
        }
    } else {
        Some(v)
    }
}

/// Whether the digit run `s[start..end]` denotes exactly `u64::MAX` (as
/// opposed to a larger value).
fn exact_is_max(s: &[u8], start: usize, end: usize) -> (r: bool)
    requires
        start <= end <= s@.len(),
        all_digits(s@.subrange(start as int, end as int)),
        decimal(s@.subrange(start as int, end as int)) >= u64::MAX,
    ensures
        r == (decimal(s@.subrange(start as int, end as int)) == u64::MAX),
{
    // Without its last digit the run must denote exactly u64::MAX / 10 and
    // the last digit must be 5.
    let ghost run = s@.subrange(start as int, end as int);
    if end == start {
        return false;
    }
    proof {
        assert(run.drop_last() =~= s@.subrange(start as int, (end - 1) as int));
        assert(is_digit(run.last()));
    }
    let head = saturated_decimal_of(s, start, end - 1);
    let last = s[end - 1] - ZERO;
    proof {
        assert(run.last() == s@[end - 1]);
    }
    head == 1844674407370955161u64 && last == 5
}

// ---------------------------------------------------------------------------
// Searching
// ---------------------------------------------------------------------------

pub open spec fn find_from(b: Seq<u8>, x: u8, i: int) -> Option<int>
    decreases b.len() - i,
{
    if i < 0 || i >= b.len() {
        None
    } else if b[i] == x {
        Some(i)
    } else {
        find_from(b, x, i + 1)
    }
}

/// The index of the first `x` in `b`.
pub open spec fn first_pos(b: Seq<u8>, x: u8) -> Option<int> {
    find_from(b, x, 0)
}

pub open spec fn rfind_before(b: Seq<u8>, x: u8, j: int) -> Option<int>
    decreases j,
{
    if j <= 0 || j > b.len() {
        None
    } else if b[j - 1] == x {
        Some(j - 1)
    } else {
        rfind_before(b, x, j - 1)
    }
}

/// The index of the last `x` in `b`.
pub open spec fn last_pos(b: Seq<u8>, x: u8) -> Option<int> {
    rfind_before(b, x, b.len() as int)
}

pub open spec fn opt_int(o: Option<usize>) -> Option<int> {
    match o {
        Some(p) => Some(p as int),
        None => None,
    }
}

pub proof fn lemma_find_from(b: Seq<u8>, x: u8, i: int)
    requires
        0 <= i,
    ensures
        find_from(b, x, i) matches Some(p) ==> i <= p < b.len() && b[p] == x && forall|k: int|
            i <= k < p ==> b[k] != x,
        find_from(b, x, i) is None ==> forall|k: int| i <= k < b.len() ==> b[k] != x,
    decreases b.len() - i,
{
    if i < b.len() && b[i] != x {
        lemma_find_from(b, x, i + 1);
    }
}

pub proof fn lemma_first_pos(b: Seq<u8>, x: u8)
    ensures
        first_pos(b, x) matches Some(p) ==> 0 <= p < b.len() && b[p] == x && forall|k: int|
            0 <= k < p ==> b[k] != x,
        first_pos(b, x) is None ==> forall|k: int| 0 <= k < b.len() ==> b[k] != x,
{
    lemma_find_from(b, x, 0);
}

pub proof fn lemma_rfind_before(b: Seq<u8>, x: u8, j: int)
    requires
        j <= b.len(),
    ensures
        rfind_before(b, x, j) matches Some(p) ==> 0 <= p < j && b[p] == x && forall|k: int|
            p < k < j ==> b[k] != x,
        rfind_before(b, x, j) is None ==> forall|k: int| 0 <= k < j ==> b[k] != x,
    decreases j,
{
    if j > 0 && b[j - 1] != x {
        lemma_rfind_before(b, x, j - 1);
    }
}

pub proof fn lemma_last_pos(b: Seq<u8>, x: u8)
    ensures
        last_pos(b, x) matches Some(p) ==> 0 <= p < b.len() && b[p] == x && forall|k: int|
            p < k < b.len() ==> b[k] != x,
        last_pos(b, x) is None ==> forall|k: int| 0 <= k < b.len() ==> b[k] != x,
{
    lemma_rfind_before(b, x, b.len() as int);
}

/// The index of the first `x` in `b`.
pub fn find_byte(b: &[u8], x: u8) -> (r: Option<usize>)
    ensures
        opt_int(r) == first_pos(b@, x),
{
    let mut i: usize = 0;
    while i < b.len()
        invariant
            i <= b.len(),
            first_pos(b@, x) == find_from(b@, x, i as int),
        decreases b.len() - i,
    {
        if b[i] == x {
            return Some(i);
        }
        i += 1;
    }
    None
}

/// The index of the last `x` in `b`.
pub fn rfind_byte(b: &[u8], x: u8) -> (r: Option<usize>)
    ensures
        opt_int(r) == last_pos(b@, x),
{
    let mut j: usize = b.len();
    while j > 0
        invariant
            j <= b.len(),
            last_pos(b@, x) == rfind_before(b@, x, j as int),
        decreases j,
    {
        if b[j - 1] == x {
            return Some(j - 1);
        }
        j -= 1;
    }
    None
}

/// `b` holds the byte `x`.
pub open spec fn has_byte(b: Seq<u8>, x: u8) -> bool {
    exists|k: int| 0 <= k < b.len() && b[k] == x
}

pub fn contains_byte(b: &[u8], x: u8) -> (r: bool)
    ensures
        r == (first_pos(b@, x) is Some),
        r == has_byte(b@, x),
{
    proof {
        lemma_first_pos(b@, x);
    }
    find_byte(b, x).is_some()
}

/// `b[i..]` starts with `p`.
pub open spec fn matches_at(b: Seq<u8>, p: Seq<u8>, i: int) -> bool {
    0 <= i && i + p.len() <= b.len() && b.subrange(i, i + p.len()) == p
}

pub open spec fn contains_sub(b: Seq<u8>, p: Seq<u8>) -> bool {
    exists|i: int| matches_at(b, p, i)
}

pub open spec fn starts_with(b: Seq<u8>, p: Seq<u8>) -> bool {
    matches_at(b, p, 0)
}

pub open spec fn ends_with(b: Seq<u8>, p: Seq<u8>) -> bool {
    p.len() <= b.len() && matches_at(b, p, b.len() - p.len())
}

pub open spec fn find_sub_from(b: Seq<u8>, p: Seq<u8>, i: int) -> Option<int>
    decreases b.len() + 1 - i,
{
    if i < 0 || i + p.len() > b.len() {
        None
    } else if matches_at(b, p, i) {
        Some(i)
    } else {
        find_sub_from(b, p, i + 1)
    }
}

/// The index of the first occurrence of `p` in `b`.
pub open spec fn first_sub_pos(b: Seq<u8>, p: Seq<u8>) -> Option<int> {
    find_sub_from(b, p, 0)
}

pub open spec fn rfind_sub_from(b: Seq<u8>, p: Seq<u8>, i: int) -> Option<int>
    decreases i + 1,
{
    if i < 0 {
        None
    } else if matches_at(b, p, i) {
        Some(i)
    } else {
        rfind_sub_from(b, p, i - 1)
    }
}

/// The index of the last occurrence of `p` in `b`.
pub open spec fn last_sub_pos(b: Seq<u8>, p: Seq<u8>) -> Option<int> {
    rfind_sub_from(b, p, b.len() - p.len())
}

pub proof fn lemma_find_sub_from(b: Seq<u8>, p: Seq<u8>, i: int)
    requires
        0 <= i,
    ensures
        find_sub_from(b, p, i) matches Some(q) ==> i <= q && matches_at(b, p, q) && forall|k: int|
            i <= k < q ==> !matches_at(b, p, k),
        find_sub_from(b, p, i) is None ==> forall|k: int| i <= k ==> !matches_at(b, p, k),
    decreases b.len() + 1 - i,
{
    if i + p.len() <= b.len() && !matches_at(b, p, i) {
        lemma_find_sub_from(b, p, i + 1);
    }
}

pub proof fn lemma_first_sub_pos(b: Seq<u8>, p: Seq<u8>)
    ensures
        first_sub_pos(b, p) matches Some(q) ==> matches_at(b, p, q) && forall|k: int|
            0 <= k < q ==> !matches_at(b, p, k),
        first_sub_pos(b, p) is None ==> !contains_sub(b, p),
        first_sub_pos(b, p) is Some <==> contains_sub(b, p),
{
    lemma_find_sub_from(b, p, 0);
}

pub proof fn lemma_rfind_sub_from(b: Seq<u8>, p: Seq<u8>, i: int)
    ensures
        rfind_sub_from(b, p, i) matches Some(q) ==> q <= i && matches_at(b, p, q) && forall|k: int|
            q < k <= i ==> !matches_at(b, p, k),
        rfind_sub_from(b, p, i) is None ==> forall|k: int| k <= i ==> !matches_at(b, p, k),
    decreases i + 1,
{
    if i >= 0 && !matches_at(b, p, i) {
        lemma_rfind_sub_from(b, p, i - 1);
    }
}

/// Whether `p` occurs in `b` at index `i`.
pub fn bytes_match_at(b: &[u8], p: &[u8], i: usize) -> (r: bool)
    ensures
        r == matches_at(b@, p@, i as int),
{
    let n = b.len();
    if i > n || p.len() > n - i {
        return false;
    }
    let mut k: usize = 0;
    while k < p.len()
        invariant
            n == b@.len(),
            i <= b@.len(),
            i + p@.len() <= b@.len(),
            k <= p@.len(),
            forall|m: int| 0 <= m < k ==> b@[i + m] == p@[m],
        decreases p.len() - k,
    {
        if b[i + k] != p[k] {
            proof {
                assert(b@.subrange(i as int, i + p@.len())[k as int] != p@[k as int]);
            }
            return false;
        }
        k += 1;
    }
    assert(b@.subrange(i as int, i + p@.len()) =~= p@);
    true
}

/// The index of the first occurrence of `p` in `b`.
pub fn find_sub(b: &[u8], p: &[u8]) -> (r: Option<usize>)
    ensures
        opt_int(r) == first_sub_pos(b@, p@),
{
    if p.len() > b.len() {
        return None;
    }
    let last = b.len() - p.len();
    let mut i: usize = 0;
    loop
        invariant
            i <= last,
            last + p@.len() == b@.len(),
            first_sub_pos(b@, p@) == find_sub_from(b@, p@, i as int),
        decreases last - i,
    {
        if bytes_match_at(b, p, i) {
            return Some(i);
        }
        if i == last {
            assert(find_sub_from(b@, p@, i + 1) is None);
            return None;
        }
        i += 1;
    }
}

/// The index of the last occurrence of `p` in `b`.
pub fn rfind_sub(b: &[u8], p: &[u8]) -> (r: Option<usize>)
    ensures
        opt_int(r) == last_sub_pos(b@, p@),
{
    if p.len() > b.len() {
        return None;
    }
    let mut i: usize = b.len() - p.len();
    loop
        invariant
            i + p@.len() <= b@.len(),
            last_sub_pos(b@, p@) == rfind_sub_from(b@, p@, i as int),
        decreases i,
    {
        if bytes_match_at(b, p, i) {
            return Some(i);
        }
        if i == 0 {
            assert(rfind_sub_from(b@, p@, -1) is None);
            return None;
        }
        i -= 1;
    }
}

pub fn contains_bytes(b: &[u8], p: &[u8]) -> (r: bool)
    ensures
        r == contains_sub(b@, p@),
{
    proof {
        lemma_first_sub_pos(b@, p@);
    }
    find_sub(b, p).is_some()
}

pub fn ends_with_bytes(b: &[u8], p: &[u8]) -> (r: bool)
    ensures
        r == ends_with(b@, p@),
{
    if p.len() > b.len() {
        return false;
    }
    bytes_match_at(b, p, b.len() - p.len())
}

pub fn starts_with_bytes(b: &[u8], p: &[u8]) -> (r: bool)
    ensures
        r == starts_with(b@, p@),
{
    bytes_match_at(b, p, 0)
}

/// `b` and `c` hold the same bytes.
pub fn bytes_equal(b: &[u8], c: &[u8]) -> (r: bool)
    ensures
        r == (b@ == c@),
{
    if b.len() != c.len() {
        return false;
    }
    let r = bytes_match_at(b, c, 0);
    proof {
        if r {
            assert(b@.subrange(0, c@.len() as int) =~= b@);
        } else {
            assert(b@ != c@) by {
                if b@ == c@ {
                    assert(b@.subrange(0, c@.len() as int) =~= c@);
                }
            }
        }
    }
    r
}

/// Whether `b[i..]` consists of digits only.
pub fn all_digits_from(b: &[u8], i: usize) -> (r: bool)
    requires
        i <= b@.len(),
    ensures
        r == all_digits(b@.subrange(i as int, b@.len() as int)),
{
    let mut j = i;
    while j < b.len()
        invariant
            i <= j <= b@.len(),
            all_digits(b@.subrange(i as int, j as int)),
        decreases b.len() - j,
    {
        if !byte_is_digit(b[j]) {
            assert(b@.subrange(i as int, b@.len() as int)[j - i] == b@[j as int]);
            return false;
        }
        assert forall|k: int| 0 <= k < j + 1 - i implies is_digit(
            #[trigger] b@.subrange(i as int, j + 1)[k],
        ) by {
            if k < j - i {
                assert(b@.subrange(i as int, j + 1)[k] == b@.subrange(i as int, j as int)[k]);
            }
        }
        j += 1;
    }
    true
}

/// The parts of `b` between the bytes `x` (`str::split`).
pub open spec fn split_on(b: Seq<u8>, x: u8) -> Seq<Seq<u8>>
    decreases b.len(),
    via split_on_decreases
{
    match first_pos(b, x) {
        Some(p) => seq![b.subrange(0, p)] + split_on(b.subrange(p + 1, b.len() as int), x),
        None => seq![b],
    }
}

#[via_fn]
proof fn split_on_decreases(b: Seq<u8>, x: u8) {
    lemma_first_pos(b, x);
}

/// `n`, or `usize::MAX` if it is larger (no byte string is that long).
pub open spec fn capped(n: nat) -> nat {
    if n < usize::MAX {
        n
    } else {
        usize::MAX as nat
    }
}

pub proof fn lemma_split_on_len(b: Seq<u8>, x: u8)
    ensures
        split_on(b, x).len() >= 1,
        split_on(b, x).len() == 1 <==> first_pos(b, x) is None,
    decreases b.len(),
{
    lemma_first_pos(b, x);
    if let Some(p) = first_pos(b, x) {
        lemma_split_on_len(b.subrange(p + 1, b.len() as int), x);
    }
}

/// The part of `b` before the first `x` (all of `b` when there is none).
pub open spec fn head_part(b: Seq<u8>, x: u8) -> Seq<u8> {
    match first_pos(b, x) {
        Some(p) => b.subrange(0, p),
        None => b,
    }
}

/// What follows the first `x` in `b`, if there is one.
pub open spec fn tail_part(b: Seq<u8>, x: u8) -> Option<Seq<u8>> {
    match first_pos(b, x) {
        Some(p) => Some(b.subrange(p + 1, b.len() as int)),
        None => None,
    }
}

pub proof fn lemma_tail_part(b: Seq<u8>, x: u8)
    ensures
        tail_part(b, x) matches Some(t) ==> t.len() < b.len(),
        head_part(b, x).len() <= b.len(),
{
    lemma_first_pos(b, x);
}

/// The number of parts of `b` between the bytes `x`.
pub fn count_parts(b: &[u8], x: u8) -> (r: usize)
    ensures
        r == capped(split_on(b@, x).len()),
{
    let n = b.len();
    let mut pos: usize = 0;
    let mut done: usize = 0;
    assert(b@.subrange(0, n as int) =~= b@);
    loop
        invariant
            n == b@.len(),
            pos <= n,
            done <= pos,
            split_on(b@, x).len() == done + split_on(b@.subrange(pos as int, n as int), x).len(),
        decreases n - pos,
    {
        let ghost cur = b@.subrange(pos as int, n as int);
        proof {
            lemma_first_pos(cur, x);
        }
        match find_byte(&b[pos..n], x) {
            Some(p) => {
                assert(cur.subrange(p + 1, cur.len() as int) =~= b@.subrange(
                    pos + p + 1,
                    n as int,
                ));
                done = done + 1;
                pos = pos + p + 1;
            },
            None => {
                if done == usize::MAX {
                    return done;
                }
                return done + 1;
            },
        }
    }
}

// ---------------------------------------------------------------------------
// Index helpers taking `usize`
// ---------------------------------------------------------------------------

/// `i` as a mathematical integer.
pub open spec fn ix(i: usize) -> int {
    i as int
}

/// `n` as an integer.
pub open spec fn int_of(n: nat) -> int {
    n as int
}

/// `b[i]`.
pub open spec fn at(b: Seq<u8>, i: usize) -> u8 {
    b[i as int]
}

/// `b[i..]`.
pub open spec fn rest_from(b: Seq<u8>, i: usize) -> Seq<u8> {
    b.skip(i as int)
}

pub proof fn lemma_rest_step(b: Seq<u8>, i: usize)
    requires
        i < b.len(),
    ensures
        rest_from(b, i).len() > 0,
        rest_from(b, i)[0] == at(b, i),
        rest_from(b, i).drop_first() == b.skip(i + 1),
{
    assert(b.skip(i as int).drop_first() =~= b.skip(i + 1));
}

pub proof fn lemma_rest_start(b: Seq<u8>)
    ensures
        rest_from(b, 0) == b,
{
    assert(b.skip(0) =~= b);
}

// ---------------------------------------------------------------------------
// Runs
// ---------------------------------------------------------------------------

/// The number of leading bytes of `b` that are digits.
pub open spec fn digit_run(b: Seq<u8>) -> nat
    decreases b.len(),
{
    if b.len() > 0 && is_digit(b[0]) {
        1 + digit_run(b.drop_first())
    } else {
        0
    }
}

/// The number of leading bytes of `b` that are letters.
pub open spec fn alpha_run(b: Seq<u8>) -> nat
    decreases b.len(),
{
    if b.len() > 0 && is_alpha(b[0]) {
        1 + alpha_run(b.drop_first())
    } else {
        0
    }
}

/// The number of leading `0` bytes of `b`.
pub open spec fn zero_run(b: Seq<u8>) -> nat
    decreases b.len(),
{
    if b.len() > 0 && b[0] == ZERO {
        1 + zero_run(b.drop_first())
    } else {
        0
    }
}

pub proof fn lemma_digit_run(b: Seq<u8>)
    ensures
        digit_run(b) <= b.len(),
        all_digits(b.subrange(0, digit_run(b) as int)),
        digit_run(b) < b.len() ==> !is_digit(b[digit_run(b) as int]),
        b.len() > 0 && is_digit(b[0]) ==> digit_run(b) >= 1,
    decreases b.len(),
{
    if b.len() > 0 && is_digit(b[0]) {
        lemma_digit_run(b.drop_first());
        let n = digit_run(b) as int;
        assert forall|i: int| 0 <= i < n implies is_digit(#[trigger] b.subrange(0, n)[i]) by {
            if i > 0 {
                assert(b.subrange(0, n)[i] == b.drop_first().subrange(0, n - 1)[i - 1]);
            }
        }
    }
}

pub proof fn lemma_alpha_run(b: Seq<u8>)
    ensures
        alpha_run(b) <= b.len(),
        all_alpha(b.subrange(0, alpha_run(b) as int)),
        alpha_run(b) < b.len() ==> !is_alpha(b[alpha_run(b) as int]),
        b.len() > 0 && is_alpha(b[0]) ==> alpha_run(b) >= 1,
    decreases b.len(),
{
    if b.len() > 0 && is_alpha(b[0]) {
        lemma_alpha_run(b.drop_first());
        let n = alpha_run(b) as int;
        assert forall|i: int| 0 <= i < n implies is_alpha(#[trigger] b.subrange(0, n)[i]) by {
            if i > 0 {
                assert(b.subrange(0, n)[i] == b.drop_first().subrange(0, n - 1)[i - 1]);
            }
        }
    }
}

pub proof fn lemma_zero_run(b: Seq<u8>)
    ensures
        zero_run(b) <= digit_run(b) <= b.len(),
        zero_run(b) < b.len() ==> b[zero_run(b) as int] != ZERO,
        forall|i: int| 0 <= i < zero_run(b) ==> b[i] == ZERO,
    decreases b.len(),
{
    lemma_digit_run(b);
    if b.len() > 0 && b[0] == ZERO {
        lemma_zero_run(b.drop_first());
        assert forall|i: int| 0 <= i < zero_run(b) implies b[i] == ZERO by {
            if i > 0 {
                assert(b[i] == b.drop_first()[i - 1]);
            }
        }
    }
}

/// Moving `i` forward by one keeps the runs measured from `i` consistent.
pub proof fn lemma_skip_first(b: Seq<u8>, i: int)
    requires
        0 <= i < b.len(),
    ensures
        b.skip(i).drop_first() == b.skip(i + 1),
        b.skip(i)[0] == b[i],
{
    assert(b.skip(i).drop_first() =~= b.skip(i + 1));
}

/// The end of the digit run that starts at `i`.
pub fn digit_run_end(b: &[u8], i: usize) -> (r: usize)
    requires
        i <= b@.len(),
    ensures
        r == i + digit_run(b@.skip(i as int)),
        r <= b@.len(),
{
    let mut j = i;
    while j < b.len() && byte_is_digit(b[j])
        invariant
            i <= j <= b@.len(),
            digit_run(b@.skip(i as int)) == (j - i) + digit_run(b@.skip(j as int)),
        decreases b.len() - j,
    {
        proof {
            lemma_skip_first(b@, j as int);
        }
        j += 1;
    }
    proof {
        if j < b.len() {
            assert(b@.skip(j as int)[0] == b@[j as int]);
        }
    }
    j
}

/// The end of the letter run that starts at `i`.
pub fn alpha_run_end(b: &[u8], i: usize) -> (r: usize)
    requires
        i <= b@.len(),
    ensures
        r == i + alpha_run(b@.skip(i as int)),
        r <= b@.len(),
{
    let mut j = i;
    while j < b.len() && byte_is_alpha(b[j])
        invariant
            i <= j <= b@.len(),
            alpha_run(b@.skip(i as int)) == (j - i) + alpha_run(b@.skip(j as int)),
        decreases b.len() - j,
    {
        proof {
            lemma_skip_first(b@, j as int);
        }
        j += 1;
    }
    proof {
        if j < b.len() {
            assert(b@.skip(j as int)[0] == b@[j as int]);
        }
    }
    j
}

/// The end of the run of `0` bytes that starts at `i`.
pub fn zero_run_end(b: &[u8], i: usize) -> (r: usize)
    requires
        i <= b@.len(),
    ensures
        r == i + zero_run(b@.skip(i as int)),
        r <= b@.len(),
{
    let mut j = i;
    while j < b.len() && b[j] == ZERO
        invariant
            i <= j <= b@.len(),
            zero_run(b@.skip(i as int)) == (j - i) + zero_run(b@.skip(j as int)),
        decreases b.len() - j,
    {
        proof {
            lemma_skip_first(b@, j as int);
        }
        j += 1;
    }
    proof {
        if j < b.len() {
            assert(b@.skip(j as int)[0] == b@[j as int]);
        }
    }
    j
}

// ---------------------------------------------------------------------------
// Cutting a string slice at ASCII delimiters
// ---------------------------------------------------------------------------

/// `i` is a place where `b` may be cut without splitting a character.
pub open spec fn cut_ok(b: Seq<u8>, i: int) -> bool {
    0 <= i <= b.len() && (i == b.len() || !is_continuation_byte(b[i]))
}

pub proof fn lemma_cut_boundary(b: Seq<u8>, i: int)
    requires
        valid_utf8(b),
        cut_ok(b, i),
    ensures
        is_char_boundary(b, i),
{
    if i == b.len() {
        is_char_boundary_start_end_of_seq(b);
    } else {
        is_char_boundary_iff_not_is_continuation_byte(b, i);
    }
}

/// An ASCII byte can be cut before and after.
pub proof fn lemma_cut_around_ascii(b: Seq<u8>, p: int)
    requires
        valid_utf8(b),
        0 <= p < b.len(),
        b[p] < 128,
    ensures
        cut_ok(b, p),
        cut_ok(b, p + 1),
{
    if p + 1 < b.len() {
        is_char_boundary_iff_not_is_continuation_byte(b, p);
        valid_utf8_split(b, p);
        let t = b.subrange(p, b.len() as int);
        assert(t[0] == b[p]);
        assert(pop_first_scalar(t) =~= t.subrange(1, t.len() as int));
        reveal_with_fuel(is_char_boundary, 2);
        assert(is_char_boundary(t, 1));
        is_char_boundary_iff_not_is_continuation_byte(t, 1);
        assert(t[1] == b[p + 1]);
    }
}

/// `s[a..e]`, where `a` and `e` do not split a character.
pub fn substr<'a>(s: &'a str, a: usize, e: usize) -> (r: &'a str)
    requires
        a <= e,
        cut_ok(s.spec_bytes(), a as int),
        cut_ok(s.spec_bytes(), e as int),
    ensures
        r.spec_bytes() == s.spec_bytes().subrange(a as int, e as int),
{
    let ghost bytes = s.spec_bytes();
    proof {
        lemma_cut_boundary(bytes, a as int);
    }
    let (_, rest) = s.split_at(a);
    let ghost rb = rest.spec_bytes();
    proof {
        assert(rb =~= bytes.subrange(a as int, bytes.len() as int));
        if e < bytes.len() {
            assert(rb[(e - a) as int] == bytes[e as int]);
        }
        assert(cut_ok(rb, (e - a) as int));
        lemma_cut_boundary(rb, (e - a) as int);
    }
    let (mid, _) = rest.split_at(e - a);
    proof {
        assert(mid.spec_bytes() =~= bytes.subrange(a as int, e as int));
    }
    mid
}

/// `s[a..]`, where `a` does not split a character.
pub fn substr_from<'a>(s: &'a str, a: usize) -> (r: &'a str)
    requires
        cut_ok(s.spec_bytes(), a as int),
    ensures
        r.spec_bytes() == s.spec_bytes().subrange(a as int, s.spec_bytes().len() as int),
{
    let n = s.as_bytes().len();
    substr(s, a, n)
}

pub proof fn lemma_ascii_encode(b: Seq<u8>)
    requires
        all_ascii(b),
    ensures
        encode_utf8(ascii_chars(b)) == b,
        valid_utf8(b),
{
    let c = ascii_chars(b);
    assert forall|i: int| 0 <= i < c.len() implies '\0' <= #[trigger] c[i] <= '\u{7f}' by {
        assert(b[i] < 128);
    }
    is_ascii_chars_encode_utf8(c);
    assert forall|i: int| 0 <= i < b.len() implies encode_utf8(c)[i] == b[i] by {
        assert(c[i] as u8 == encode_utf8(c)[i]);
        assert(b[i] < 128);
    }
    assert(encode_utf8(c) =~= b);
}

/// The bytes of nonempty ASCII words: each first character is its first
/// byte, and the other bytes encode the rest of the word.
pub proof fn lemma_ascii_head(a: Seq<char>, b: Seq<char>)
    requires
        is_ascii_chars(a),
        is_ascii_chars(b),
        a.len() > 0,
        b.len() > 0,
    ensures
        encode_utf8(a).len() > 0,
        encode_utf8(b).len() > 0,
        (encode_utf8(a)[0] < encode_utf8(b)[0]) == (a[0] < b[0]),
        (encode_utf8(a)[0] == encode_utf8(b)[0]) == (a[0] == b[0]),
        encode_utf8(a).drop_first() == encode_utf8(a.drop_first()),
        encode_utf8(b).drop_first() == encode_utf8(b.drop_first()),
        is_ascii_chars(a.drop_first()),
        is_ascii_chars(b.drop_first()),
{
    is_ascii_chars_encode_utf8(a);
    is_ascii_chars_encode_utf8(b);
    is_ascii_chars_nat_bound(a);
    is_ascii_chars_nat_bound(b);
    assert(a[0] as u8 == encode_utf8(a)[0]);
    assert(b[0] as u8 == encode_utf8(b)[0]);
    assert((a[0] as nat) < 128);
    assert((b[0] as nat) < 128);
    assert(encode_scalar(a[0] as u32).len() == 1);
    assert(encode_scalar(b[0] as u32).len() == 1);
    assert(encode_utf8(a).drop_first() =~= encode_utf8(a.drop_first()));
    assert(encode_utf8(b).drop_first() =~= encode_utf8(b.drop_first()));
    assert forall|i: int| 0 <= i < a.drop_first().len() implies '\0' <= #[trigger] a.drop_first()[i]
        <= '\u{7f}' by {
        assert(a.drop_first()[i] == a[i + 1]);
    }
    assert forall|i: int| 0 <= i < b.drop_first().len() implies '\0' <= #[trigger] b.drop_first()[i]
        <= '\u{7f}' by {
        assert(b.drop_first()[i] == b[i + 1]);
    }
}

/// The UTF-8 bytes of joined characters are the joined bytes.
pub proof fn lemma_encode_concat(x: Seq<char>, y: Seq<char>)
    ensures
        encode_utf8(x + y) == encode_utf8(x) + encode_utf8(y),
    decreases x.len(),
{
    if x.len() == 0 {
        assert(x + y =~= y);
    } else {
        assert((x + y).drop_first() =~= x.drop_first() + y);
        lemma_encode_concat(x.drop_first(), y);
        assert((x + y)[0] == x[0]);
    }
}

proof fn lemma_high_bytes(x: u8)
    by (bit_vector)
    ensures
        (0x80u8 | x) >= 0x80u8,
        (0xC0u8 | x) >= 0x80u8,
        (0xE0u8 | x) >= 0x80u8,
        (0xF0u8 | x) >= 0x80u8,
{
}

proof fn lemma_low_byte(v: u32, x: u8)
    by (bit_vector)
    requires
        v <= 0x7F,
        (v & 0x7F) as u8 == x,
    ensures
        v == x as u32,
{
}

/// The bytes of a character outside ASCII are all above `0x7f`, so an
/// ASCII byte in the UTF-8 bytes of `a` stands for that very character.
pub proof fn lemma_encode_ascii_byte(a: Seq<char>, x: u8)
    requires
        x < 128,
        forall|k: int| 0 <= k < a.len() ==> a[k] != (x as char),
    ensures
        forall|k: int| 0 <= k < encode_utf8(a).len() ==> encode_utf8(a)[k] != x,
    decreases a.len(),
{
    if a.len() > 0 {
        let rest = a.drop_first();
        assert forall|k: int| 0 <= k < rest.len() implies rest[k] != (x as char) by {
            assert(rest[k] == a[k + 1]);
        }
        lemma_encode_ascii_byte(rest, x);
        let v = a[0] as u32;
        let e = encode_scalar(v);
        if has_width_1_encoding(v) {
            if e[0] == x {
                lemma_low_byte(v, x);
                char_u32_cast(a[0], v);
                assert(a[0] == (x as u32) as char);
                assert(false);
            }
        } else if has_width_2_encoding(v) {
            lemma_high_bytes(((v >> 6) & 0x1F) as u8);
            lemma_high_bytes((v & 0x3F) as u8);
        } else if has_width_3_encoding(v) {
            lemma_high_bytes(((v >> 12) & 0x0F) as u8);
            lemma_high_bytes(((v >> 6) & 0x3F) as u8);
            lemma_high_bytes((v & 0x3F) as u8);
        } else {
            lemma_high_bytes(((v >> 18) & 0x7) as u8);
            lemma_high_bytes(((v >> 12) & 0x3F) as u8);
            lemma_high_bytes(((v >> 6) & 0x3F) as u8);
            lemma_high_bytes((v & 0x3F) as u8);
        }
        assert(forall|k: int| 0 <= k < e.len() ==> e[k] != x);
        assert(encode_utf8(a) =~= e + encode_utf8(rest));
    }
}

proof fn lemma_trim_start_len(s: Seq<char>)
    ensures
        trim_start_chars(s).len() <= s.len(),
    decreases s.len(),
{
    if s.len() > 0 && is_white_space(s[0]) {
        lemma_trim_start_len(s.drop_first());
    }
}

proof fn lemma_trim_end_len(s: Seq<char>)
    ensures
        trim_end_chars(s).len() <= s.len(),
    decreases s.len(),
{
    if s.len() > 0 && is_white_space(s.last()) {
        lemma_trim_end_len(s.drop_last());
    }
}

/// A text that trimming keeps whole starts and ends with no white space.
pub proof fn lemma_trimmed_ends(s: Seq<char>)
    requires
        trim_chars(s) == s,
        s.len() > 0,
    ensures
        !is_white_space(s[0]),
        !is_white_space(s.last()),
{
    lemma_trim_start_len(s);
    lemma_trim_start_len(s.drop_first());
    lemma_trim_end_len(trim_start_chars(s));
    lemma_trim_end_len(s.drop_last());
    if is_white_space(s[0]) {
        assert(trim_chars(s).len() < s.len());
    }
    if !is_white_space(s[0]) && is_white_space(s.last()) {
        assert(trim_start_chars(s) == s);
        assert(trim_chars(s).len() < s.len());
    }
}

/// Two trimmed texts joined by a character that is no white space stay
/// whole under trimming.
pub proof fn lemma_trim_joined(a: Seq<char>, c: char, b: Seq<char>)
    requires
        trim_chars(a) == a,
        trim_chars(b) == b,
        !is_white_space(c),
    ensures
        trim_chars(a + seq![c] + b) == a + seq![c] + b,
{
    let u = a + seq![c] + b;
    if a.len() > 0 {
        lemma_trimmed_ends(a);
        assert(u[0] == a[0]);
    } else {
        assert(u[0] == c);
    }
    assert(trim_start_chars(u) == u);
    if b.len() > 0 {
        lemma_trimmed_ends(b);
        assert(u.last() == b.last());
    } else {
        assert(u.last() == c);
    }
}

/// The string made of the ASCII bytes `b`.
pub fn ascii_string(b: &[u8]) -> (r: String)
    requires
        all_ascii(b@),
    ensures
        r@ == ascii_chars(b@),
        encode_utf8(r@) == b@,
{
    proof {
        lemma_ascii_encode(b@);
    }
    match str_from_utf8(b) {
        Some(s) => {
            proof {
                encode_utf8_decode_utf8(s@);
                encode_utf8_decode_utf8(ascii_chars(b@));
            }
            s.to_owned()
        },
        None => {
            String::new()
        },
    }
}

/// Text is empty exactly when its UTF-8 encoding is.
pub proof fn lemma_encode_empty(c: Seq<char>)
    ensures
        (encode_utf8(c).len() == 0) == (c.len() == 0),
{
}

/// The string slice bytes of any `&str` are valid UTF-8.
pub proof fn lemma_str_valid(s: &str)
    ensures
        valid_utf8(s.spec_bytes()),
{
}

// ---------------------------------------------------------------------------
// Number formatting
// ---------------------------------------------------------------------------

pub open spec fn digit_char(d: nat) -> char {
    ((d + 48) as u32) as char
}

/// The decimal representation of `n`.
pub open spec fn decimal_chars(n: nat) -> Seq<char>
    decreases n,
{
    if n < 10 {
        seq![digit_char(n)]
    } else {
        decimal_chars(n / 10).push(digit_char(n % 10))
    }
}

/// The ASCII bytes of the decimal representation of `n`.
pub open spec fn decimal_bytes(n: nat) -> Seq<u8>
    decreases n,
{
    if n < 10 {
        seq![(n + 48) as u8]
    } else {
        decimal_bytes(n / 10).push(((n % 10) + 48) as u8)
    }
}

/// The decimal representation of `n` is made of ASCII digits that read
/// back as `n`.
pub proof fn lemma_decimal_bytes(n: nat)
    ensures
        decimal_chars(n) == ascii_chars(decimal_bytes(n)),
        decimal_bytes(n).len() > 0,
        all_digits(decimal_bytes(n)),
        all_ascii(decimal_bytes(n)),
        decimal(decimal_bytes(n)) == n,
    decreases n,
{
    if n < 10 {
        let d = decimal_bytes(n);
        assert(d.drop_last() =~= Seq::<u8>::empty());
        assert(decimal(d.drop_last()) == 0);
        assert(digit_value(d.last()) == n);
        assert(decimal(d) == decimal(d.drop_last()) * 10 + digit_value(d.last()));
        assert(decimal_chars(n) =~= ascii_chars(d));
    } else {
        lemma_decimal_bytes(n / 10);
        let d = decimal_bytes(n);
        assert(d.drop_last() =~= decimal_bytes(n / 10));
        assert(n == (n / 10) * 10 + n % 10);
        assert(digit_value(d.last()) == n % 10);
        assert(decimal(d) == decimal(d.drop_last()) * 10 + digit_value(d.last()));
        assert(decimal_chars(n) =~= ascii_chars(d));
        assert forall|i: int| 0 <= i < d.len() implies is_digit(#[trigger] d[i]) by {
            if i < d.len() - 1 {
                assert(d[i] == decimal_bytes(n / 10)[i]);
            }
        }
    }
}

/// The decimal representation of `n`, as `<u64 as ToString>::to_string`
/// writes it.
pub(crate) fn u64_to_string(n: u64) -> (r: String)
    ensures
        r@ == decimal_chars(n as nat),
{
    let mut digits: Vec<u8> = Vec::new();
    let mut m = n;
    while m >= 10
        invariant
            decimal_chars(n as nat) == decimal_chars(m as nat) + ascii_chars(digits@),
            all_ascii(digits@),
        decreases m,
    {
        let d = (m % 10) as u8;
        let ghost before = digits@;
        digits.insert(0, d + 48);
        proof {
            assert(digit_char((m % 10) as nat) == ((d + 48) as u8) as char);
            assert(ascii_chars(digits@) =~= seq![digit_char((m % 10) as nat)] + ascii_chars(before));
            assert(decimal_chars(m as nat) == decimal_chars((m / 10) as nat).push(
                digit_char((m % 10) as nat),
            ));
            assert(decimal_chars((m / 10) as nat).push(digit_char((m % 10) as nat)) + ascii_chars(
                before,
            ) =~= decimal_chars((m / 10) as nat) + ascii_chars(digits@));
        }
        m = m / 10;
    }
    let d = m as u8;
    let ghost before = digits@;
    digits.insert(0, d + 48);
    proof {
        assert(digit_char(m as nat) == ((d + 48) as u8) as char);
        assert(ascii_chars(digits@) =~= seq![digit_char(m as nat)] + ascii_chars(before));
        assert(decimal_chars(m as nat) =~= seq![digit_char(m as nat)]);
    }
    ascii_string(digits.as_slice())
}

} // verus!
