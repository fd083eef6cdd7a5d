//! Strict Semantic Versioning 2.0.0: `MAJOR.MINOR.PATCH[-PRE][+BUILD]`.
use std::cmp::Ordering;
use vstd::prelude::*;
use vstd::string::StringExecFns;
use vstd::string::StringSliceAdditionalSpecFns;
use vstd::utf8::*;

use crate::order::{lex_order, lex_order_exec, order_u64, order_u64_exec};
use crate::parser::{before_plus, strip_v, strip_v_bytes};
use crate::text::{
    all_digits, byte_is_alnum, capped, count_parts, decimal_chars, find_byte, first_pos, head_part,
    is_alnum, lemma_cut_around_ascii, lemma_first_pos, lemma_split_on_len, lemma_str_valid,
    lemma_tail_part, parse_u64, parse_u64_all, parse_u64_spec, split_on, substr, tail_part, trim,
    trimmed_bytes, u64_to_string, DASH, DOT, PLUS, ZERO,
};

verus! {

broadcast use vstd::utf8::group_utf8_lib;

#[derive(Debug, Clone)]
pub struct SemVer {
    pub major: u64,
    pub minor: u64,
    pub patch: u64,
    pub pre: Option<String>,
}

/// The value a strict SemVer parse yields.
pub struct SemVerV {
    pub major: u64,
    pub minor: u64,
    pub patch: u64,
    pub pre: Option<Seq<char>>,
}

pub open spec fn pre_view(p: Option<String>) -> Option<Seq<char>> {
    match p {
        Some(s) => Some(s@),
        None => None,
    }
}

pub open spec fn semver_matches(v: SemVer, w: SemVerV) -> bool {
    v.major == w.major && v.minor == w.minor && v.patch == w.patch && pre_view(v.pre) == w.pre
}

/// An exact number: not empty, no leading zero, an optional `+` then digits
/// that fit a `u64`; otherwise the message naming `label`.
pub open spec fn strict_u64_spec(s: Seq<char>, label: Seq<char>) -> Result<u64, Seq<char>> {
    let b = encode_utf8(s);
    if b.len() == 0 {
        Err("empty "@ + label)
    } else if b.len() > 1 && b[0] == ZERO {
        Err("leading zero in "@ + label + ": '"@ + s + "'"@)
    } else {
        match parse_u64_spec(b) {
            Some(v) => Ok(v),
            None => Err("invalid "@ + label + ": '"@ + s + "'"@),
        }
    }
}

pub open spec fn agrees_u64(r: Result<u64, String>, s: Result<u64, Seq<char>>) -> bool {
    match s {
        Ok(v) => r == Ok::<u64, String>(v),
        Err(m) => r matches Err(e) && e@ == m,
    }
}

pub open spec fn agrees_unit(r: Result<(), String>, s: Result<(), Seq<char>>) -> bool {
    match s {
        Ok(_) => r is Ok,
        Err(m) => r matches Err(e) && e@ == m,
    }
}

/// `a` followed by `b`.
pub fn concat2(a: &str, b: &str) -> (r: String)
    ensures
        r@ == a@ + b@,
{
    let mut m = a.to_owned();
    m.append(b);
    m
}

/// `a`, then `b` in quotes after `: `, as in `leading zero in major: '01'`.
pub fn quoted(a: &str, label: &str, b: &str) -> (r: String)
    ensures
        r@ == a@ + label@ + ": '"@ + b@ + "'"@,
{
    let mut m = a.to_owned();
    m.append(label);
    m.append(": '");
    m.append(b);
    m.append("'");
    m
}

/// `a` then `b` in single quotes, as in `...identifier: 'x'`.
pub fn with_quoted(a: &str, b: &str) -> (r: String)
    ensures
        r@ == a@ + "'"@ + b@ + "'"@,
{
    let mut m = a.to_owned();
    m.append("'");
    m.append(b);
    m.append("'");
    m
}

pub fn parse_strict_u64(s: &str, label: &str) -> (r: Result<u64, String>)
    ensures
        agrees_u64(r, strict_u64_spec(s@, label@)),
{
    let b = s.as_bytes();
    if b.len() == 0 {
        return Err(concat2("empty ", label));
    }
    if b.len() > 1 && b[0] == ZERO {
        return Err(quoted("leading zero in ", label, s));
    }
    match parse_u64(b, 0, b.len()) {
        Some(v) => {
            assert(b@.subrange(0, b@.len() as int) =~= b@);
            Ok(v)
        },
        None => {
            assert(b@.subrange(0, b@.len() as int) =~= b@);
            Err(quoted("invalid ", label, s))
        },
    }
}

/// An identifier may hold ASCII letters, digits and `-`.
pub open spec fn ident_chars_ok(id: Seq<u8>) -> bool {
    forall|i: int| 0 <= i < id.len() ==> is_alnum(#[trigger] id[i]) || id[i] == DASH
}

/// The check of one pre-release identifier.
pub open spec fn ident_check(id: Seq<u8>) -> Result<(), Seq<char>> {
    if id.len() == 0 {
        Err("empty identifier in prerelease"@)
    } else if !ident_chars_ok(id) {
        Err("invalid character in prerelease identifier: "@ + "'"@ + decode_utf8(id) + "'"@)
    } else if all_digits(id) && id.len() > 1 && id[0] == ZERO {
        Err("leading zero in numeric prerelease identifier: "@ + "'"@ + decode_utf8(id) + "'"@)
    } else if all_digits(id) && parse_u64_spec(id) is None {
        Err("numeric prerelease identifier out of range for u64: "@ + "'"@ + decode_utf8(id)
            + "'"@)
    } else {
        Ok(())
    }
}

/// The dot-separated identifiers of `b`, checked in order.
pub open spec fn idents_check(b: Seq<u8>) -> Result<(), Seq<char>>
    decreases b.len(),
    via idents_check_decreases
{
    match first_pos(b, DOT) {
        Some(q) => match ident_check(b.subrange(0, q)) {
            Err(m) => Err(m),
            Ok(_) => idents_check(b.subrange(q + 1, b.len() as int)),
        },
        None => ident_check(b),
    }
}

#[via_fn]
proof fn idents_check_decreases(b: Seq<u8>) {
    lemma_first_pos(b, DOT);
}

/// The check of a whole pre-release: not empty, and every identifier valid.
pub open spec fn prerelease_check(p: Seq<u8>) -> Result<(), Seq<char>> {
    if p.len() == 0 {
        Err("empty prerelease"@)
    } else {
        idents_check(p)
    }
}

fn ident_chars_ok_exec(id: &[u8]) -> (r: bool)
    ensures
        r == ident_chars_ok(id@),
{
    let mut i: usize = 0;
    while i < id.len()
        invariant
            i <= id@.len(),
            forall|k: int| 0 <= k < i ==> is_alnum(#[trigger] id@[k]) || id@[k] == DASH,
        decreases id.len() - i,
    {
        if !(byte_is_alnum(id[i]) || id[i] == DASH) {
            return false;
        }
        i += 1;
    }
    true
}

fn all_digits_exec(id: &[u8]) -> (r: bool)
    ensures
        r == all_digits(id@),
{
    let mut i: usize = 0;
    while i < id.len()
        invariant
            i <= id@.len(),
            all_digits(id@.subrange(0, i as int)),
        decreases id.len() - i,
    {
        if !crate::text::byte_is_digit(id[i]) {
            assert(!crate::text::is_digit(id@[i as int]));
            return false;
        }
        assert(id@.subrange(0, i + 1).drop_last() =~= id@.subrange(0, i as int));
        assert forall|k: int| 0 <= k < i + 1 implies crate::text::is_digit(
            #[trigger] id@.subrange(0, i + 1)[k],
        ) by {
            if k < i {
                assert(id@.subrange(0, i + 1)[k] == id@.subrange(0, i as int)[k]);
            }
        }
        i += 1;
    }
    assert(id@.subrange(0, id@.len() as int) =~= id@);
    true
}

fn check_ident(id: &str) -> (r: Result<(), String>)
    ensures
        agrees_unit(r, ident_check(id.spec_bytes())),
{
    let b = id.as_bytes();
    if b.len() == 0 {
        return Err("empty identifier in prerelease".to_owned());
    }
    if !ident_chars_ok_exec(b) {
        return Err(with_quoted("invalid character in prerelease identifier: ", id));
    }
    let numeric = all_digits_exec(b);
    if numeric && b.len() > 1 && b[0] == ZERO {
        return Err(with_quoted("leading zero in numeric prerelease identifier: ", id));
    }
    if numeric {
        let v = parse_u64(b, 0, b.len());
        assert(b@.subrange(0, b@.len() as int) =~= b@);
        if v.is_none() {
            return Err(with_quoted("numeric prerelease identifier out of range for u64: ", id));
        }
    }
    Ok(())
}

/// Checks a SemVer pre-release: non-empty dot-separated identifiers of ASCII
/// letters, digits and `-`, numeric ones without leading zeros and within
/// `u64`.
pub fn validate_prerelease(pre: &str) -> (r: Result<(), String>)
    ensures
        agrees_unit(r, prerelease_check(pre.spec_bytes())),
{
    let b = pre.as_bytes();
    let n = b.len();
    if n == 0 {
        return Err("empty prerelease".to_owned());
    }
    let mut pos: usize = 0;
    assert(b@.subrange(0, n as int) =~= b@);
    loop
        invariant
            n == b@.len(),
            b@ == pre.spec_bytes(),
            pos <= n,
            pos == 0 || b@[pos - 1] == DOT,
            prerelease_check(b@) == idents_check(b@.subrange(pos as int, n as int)),
        decreases n - pos,
    {
        let ghost cur = b@.subrange(pos as int, n as int);
        proof {
            lemma_first_pos(cur, DOT);
            lemma_str_valid(pre);
            if pos > 0 {
                lemma_cut_around_ascii(b@, pos - 1);
            }
        }
        match find_byte(&b[pos..n], DOT) {
            Some(q) => {
                proof {
                    lemma_cut_around_ascii(b@, pos + q);
                    assert(cur.subrange(0, q as int) =~= b@.subrange(pos as int, pos + q));
                    assert(cur.subrange(q + 1, cur.len() as int) =~= b@.subrange(
                        pos + q + 1,
                        n as int,
                    ));
                }
                let id = substr(pre, pos, pos + q);
                match check_ident(id) {
                    Err(e) => {
                        return Err(e);
                    },
                    Ok(_) => {},
                }
                pos = pos + q + 1;
            },
            None => {
                let id = substr(pre, pos, n);
                return check_ident(id);
            },
        }
    }
}

/// The text strict SemVer reads: trimmed, without `v` prefix, up to the
/// first `+`.
pub open spec fn semver_text(input: Seq<char>) -> Seq<u8> {
    before_plus(strip_v_bytes(trimmed_bytes(input)))
}

/// `MAJOR.MINOR.PATCH`: up to the first `-`.
pub open spec fn semver_core(b: Seq<u8>) -> Seq<u8> {
    match first_pos(b, DASH) {
        Some(p) => b.subrange(0, p),
        None => b,
    }
}

/// The pre-release: after the first `-`.
pub open spec fn semver_pre(b: Seq<u8>) -> Option<Seq<u8>> {
    match first_pos(b, DASH) {
        Some(p) => Some(b.subrange(p + 1, b.len() as int)),
        None => None,
    }
}

/// What strict SemVer parsing yields for `input`.
pub open spec fn semver_parse_spec(input: Seq<char>) -> Result<SemVerV, Seq<char>> {
    let b = semver_text(input);
    let parts = split_on(semver_core(b), DOT);
    if parts.len() != 3 {
        Err("Expected 3 parts, got "@ + decimal_chars(capped(parts.len())))
    } else {
        match strict_u64_spec(decode_utf8(parts[0]), "major"@) {
            Err(m) => Err(m),
            Ok(major) => match strict_u64_spec(decode_utf8(parts[1]), "minor"@) {
                Err(m) => Err(m),
                Ok(minor) => match strict_u64_spec(decode_utf8(parts[2]), "patch"@) {
                    Err(m) => Err(m),
                    Ok(patch) => match semver_pre(b) {
                        None => Ok(SemVerV { major, minor, patch, pre: None }),
                        Some(p) => match prerelease_check(p) {
                            Err(m) => Err(m),
                            Ok(_) => Ok(
                                SemVerV { major, minor, patch, pre: Some(decode_utf8(p)) },
                            ),
                        },
                    },
                },
            },
        }
    }
}

pub open spec fn agrees_semver(r: Result<SemVer, String>, s: Result<SemVerV, Seq<char>>) -> bool {
    match s {
        Ok(w) => r matches Ok(v) && semver_matches(v, w),
        Err(m) => r matches Err(e) && e@ == m,
    }
}

/// The core `MAJOR.MINOR.PATCH` and the pre-release of `input`.
fn semver_pieces(input: &str) -> (r: (&str, Option<&str>))
    ensures
        r.0.spec_bytes() == semver_core(semver_text(input@)),
        match semver_pre(semver_text(input@)) {
            Some(p) => r.1 matches Some(q) && q.spec_bytes() == p,
            None => r.1 is None,
        },
{
    let t = strip_v(trim(input));
    let tb = t.as_bytes();
    let n = tb.len();
    proof {
        lemma_str_valid(t);
        lemma_first_pos(tb@, PLUS);
    }
    let end = match find_byte(tb, PLUS) {
        Some(p) => {
            proof {
                lemma_cut_around_ascii(tb@, p as int);
            }
            p
        },
        None => n,
    };
    let s = substr(t, 0, end);
    let sb = s.as_bytes();
    let ghost b = sb@;
    assert(b =~= semver_text(input@));
    proof {
        lemma_str_valid(s);
        lemma_first_pos(b, DASH);
    }
    match find_byte(sb, DASH) {
        Some(p) => {
            proof {
                lemma_cut_around_ascii(b, p as int);
            }
            let pre_str = substr(s, p + 1, end);
            assert(pre_str.spec_bytes() =~= b.subrange(p + 1, b.len() as int));
            let core = substr(s, 0, p);
            (core, Some(pre_str))
        },
        None => {
            let core = substr(s, 0, end);
            assert(core.spec_bytes() =~= b);
            (core, None)
        },
    }
}

/// The three dot-separated parts of `core`.
fn three_parts(core: &str) -> (r: (&str, &str, &str))
    requires
        split_on(core.spec_bytes(), DOT).len() == 3,
    ensures
        r.0.spec_bytes() == split_on(core.spec_bytes(), DOT)[0],
        r.1.spec_bytes() == split_on(core.spec_bytes(), DOT)[1],
        r.2.spec_bytes() == split_on(core.spec_bytes(), DOT)[2],
{
    let cb = core.as_bytes();
    let n = cb.len();
    let ghost parts = split_on(cb@, DOT);
    proof {
        lemma_str_valid(core);
        lemma_first_pos(cb@, DOT);
    }
    let d1 = match find_byte(cb, DOT) {
        Some(d) => d,
        None => {
            assert(parts.len() == 1);
            0
        },
    };
    let ghost r1 = cb@.subrange(d1 + 1, n as int);
    proof {
        lemma_first_pos(r1, DOT);
        lemma_cut_around_ascii(cb@, d1 as int);
        assert(parts == seq![cb@.subrange(0, d1 as int)] + split_on(r1, DOT));
        assert(split_on(r1, DOT).len() == 2);
    }
    let d2 = match find_byte(&cb[d1 + 1..n], DOT) {
        Some(d) => d1 + 1 + d,
        None => {
            assert(split_on(r1, DOT).len() == 1);
            0
        },
    };
    proof {
        assert(cb@.subrange(d1 + 1, n as int) =~= r1);
        lemma_cut_around_ascii(cb@, d2 as int);
        let r2 = r1.subrange(d2 - d1, r1.len() as int);
        assert(split_on(r1, DOT) == seq![r1.subrange(0, d2 - d1 - 1)] + split_on(r2, DOT));
        assert(r1.subrange(0, d2 - d1 - 1) =~= cb@.subrange(d1 + 1, d2 as int));
        assert(r2 =~= cb@.subrange(d2 + 1, n as int));
        assert(split_on(r2, DOT).len() == 1);
        lemma_split_on_len(r2, DOT);
        assert(split_on(r2, DOT)[0] == r2);
        assert(parts[1] == split_on(r1, DOT)[0]);
        assert(parts[2] == split_on(r1, DOT)[1]);
    }
    let p0 = substr(core, 0, d1);
    let p1 = substr(core, d1 + 1, d2);
    let p2 = substr(core, d2 + 1, n);
    (p0, p1, p2)
}

/// Strict SemVer 2.0.0 parsing (an optional `v` prefix is allowed, build
/// metadata after `+` is dropped).
pub fn parse_semver_strict(input: &str) -> (r: Result<SemVer, String>)
    ensures
        agrees_semver(r, semver_parse_spec(input@)),
{
    let (core, pre) = semver_pieces(input);
    let cb = core.as_bytes();
    let count = count_parts(cb, DOT);
    if count != 3 {
        let mut m = "Expected 3 parts, got ".to_owned();
        let c = u64_to_string(count_as_u64(count));
        m.append(c.as_str());
        return Err(m);
    }
    let (p0, p1, p2) = three_parts(core);
    let major = match parse_strict_u64(p0, "major") {
        Ok(v) => v,
        Err(e) => {
            return Err(e);
        },
    };
    let minor = match parse_strict_u64(p1, "minor") {
        Ok(v) => v,
        Err(e) => {
            return Err(e);
        },
    };
    let patch = match parse_strict_u64(p2, "patch") {
        Ok(v) => v,
        Err(e) => {
            return Err(e);
        },
    };
    match pre {
        Some(p) => {
            match validate_prerelease(p) {
                Err(e) => {
                    return Err(e);
                },
                Ok(_) => {},
            }
            Ok(SemVer { major, minor, patch, pre: Some(p.to_owned()) })
        },
        None => Ok(SemVer { major, minor, patch, pre: None }),
    }
}

fn count_as_u64(c: usize) -> (r: u64)
    ensures
        r as nat == c as nat,
{
    c as u64
}

// ---------------------------------------------------------------------------
// Precedence
// ---------------------------------------------------------------------------

/// The order of two pre-release identifiers: numeric ones by value and
/// before alphanumeric ones, alphanumeric ones by their bytes.
pub open spec fn ident_order(x: Seq<u8>, y: Seq<u8>) -> Ordering {
    match (parse_u64_spec(x), parse_u64_spec(y)) {
        (Some(m), Some(n)) => order_u64(m, n),
        (Some(_), None) => Ordering::Less,
        (None, Some(_)) => Ordering::Greater,
        (None, None) => lex_order(x, y),
    }
}

/// The order of two pre-releases, identifier by identifier; when one runs
/// out first it is the smaller.
pub open spec fn pre_order(a: Seq<u8>, b: Seq<u8>) -> Ordering
    decreases a.len() + b.len(),
    via pre_order_decreases
{
    let o = ident_order(head_part(a, DOT), head_part(b, DOT));
    if o != Ordering::Equal {
        o
    } else {
        match (tail_part(a, DOT), tail_part(b, DOT)) {
            (None, None) => Ordering::Equal,
            (None, Some(_)) => Ordering::Less,
            (Some(_), None) => Ordering::Greater,
            (Some(ta), Some(tb)) => pre_order(ta, tb),
        }
    }
}

#[via_fn]
proof fn pre_order_decreases(a: Seq<u8>, b: Seq<u8>) {
    lemma_tail_part(a, DOT);
    lemma_tail_part(b, DOT);
}

/// SemVer precedence: major, minor, patch, then a release above any of its
/// pre-releases, then the pre-releases.
pub open spec fn semver_order(l: SemVer, r: SemVer) -> Ordering {
    if l.major != r.major {
        order_u64(l.major, r.major)
    } else if l.minor != r.minor {
        order_u64(l.minor, r.minor)
    } else if l.patch != r.patch {
        order_u64(l.patch, r.patch)
    } else {
        match (l.pre, r.pre) {
            (None, None) => Ordering::Equal,
            (Some(_), None) => Ordering::Less,
            (None, Some(_)) => Ordering::Greater,
            (Some(a), Some(b)) => pre_order(encode_utf8(a@), encode_utf8(b@)),
        }
    }
}

fn ident_order_exec(x: &[u8], y: &[u8]) -> (r: Ordering)
    ensures
        r == ident_order(x@, y@),
{
    let px = parse_u64_all(x);
    let py = parse_u64_all(y);
    match (px, py) {
        (Some(m), Some(n)) => order_u64_exec(m, n),
        (Some(_), None) => Ordering::Less,
        (None, Some(_)) => Ordering::Greater,
        (None, None) => lex_order_exec(x, y),
    }
}

/// The identifier at the front of `b` and, after a dot, the rest.
pub fn split_head(b: &[u8]) -> (r: (&[u8], Option<&[u8]>))
    ensures
        r.0@ == head_part(b@, DOT),
        match tail_part(b@, DOT) {
            Some(t) => r.1 matches Some(u) && u@ == t,
            None => r.1 is None,
        },
{
    proof {
        lemma_first_pos(b@, DOT);
    }
    let n = b.len();
    match find_byte(b, DOT) {
        Some(p) => {
            assert(b@.subrange(p + 1, n as int) =~= b@.subrange(p + 1, b@.len() as int));
            (&b[0..p], Some(&b[p + 1..n]))
        },
        None => {
            assert(b@.subrange(0, n as int) =~= b@);
            (&b[0..n], None)
        },
    }
}

/// The order of two pre-releases.
fn pre_order_exec(a: &[u8], b: &[u8]) -> (r: Ordering)
    ensures
        r == pre_order(a@, b@),
    decreases a@.len() + b@.len(),
{
    let (x, ta) = split_head(a);
    let (y, tb) = split_head(b);
    let o = ident_order_exec(x, y);
    match o {
        Ordering::Equal => {},
        _ => {
            return o;
        },
    }
    proof {
        lemma_tail_part(a@, DOT);
        lemma_tail_part(b@, DOT);
    }
    match (ta, tb) {
        (None, None) => Ordering::Equal,
        (None, Some(_)) => Ordering::Less,
        (Some(_), None) => Ordering::Greater,
        (Some(u), Some(v)) => pre_order_exec(u, v),
    }
}

/// SemVer 2.0.0 precedence of two parsed versions.
pub fn cmp_semver_strict(left: &SemVer, right: &SemVer) -> (r: Ordering)
    ensures
        r == semver_order(*left, *right),
{
    if left.major != right.major {
        return order_u64_exec(left.major, right.major);
    }
    if left.minor != right.minor {
        return order_u64_exec(left.minor, right.minor);
    }
    if left.patch != right.patch {
        return order_u64_exec(left.patch, right.patch);
    }
    match (&left.pre, &right.pre) {
        (None, None) => Ordering::Equal,
        (Some(_), None) => Ordering::Less,
        (None, Some(_)) => Ordering::Greater,
        (Some(lp), Some(rp)) => pre_order_exec(lp.as_str().as_bytes(), rp.as_str().as_bytes()),
    }
}

} // verus!
